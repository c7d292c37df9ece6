use vstd::prelude::*;

use crate::elem::Elem;
use crate::errors::CanvasError;
use crate::hashing::Compressor;
use crate::tree::{
    all_valid, build_levels, linked, shaped, spec_update, values_of, MerkleTree,
};

verus! {

/// One cell update: grid coordinates and the new color value.
#[derive(Clone, Copy, Debug, PartialEq, Eq, Structural)]
pub struct Pixel {
    pub x: u32,
    pub y: u32,
    pub value: u32,
}

/// One action of a diff: a free-form label, semantically irrelevant to
/// the tree mechanics, and its ordered cell updates.
#[derive(Debug)]
pub struct Command {
    pub action_type: String,
    pub pixels: Vec<Pixel>,
}

/// An ordered batch of commands transforming one committed canvas state
/// into the next.
#[derive(Debug)]
pub struct Diff {
    pub actions: Vec<Command>,
}

/// The leaf index of a pixel on a grid of the given width.
pub open spec fn pixel_index(p: Pixel, width: nat) -> nat {
    (p.y * width + p.x) as nat
}

/// All pixel updates of a sequence of commands, in replay order.
pub open spec fn all_pixels(cmds: Seq<Command>) -> Seq<Pixel>
    decreases cmds.len(),
{
    if cmds.len() == 0 {
        seq![]
    } else {
        cmds[0].pixels@ + all_pixels(cmds.skip(1))
    }
}

/// The tree after replaying the given pixel updates in order: each
/// update overwrites its leaf and recomputes the path above it.
pub open spec fn apply_pixels<C: Compressor>(
    c: C,
    levels: Seq<Seq<nat>>,
    width: nat,
    ps: Seq<Pixel>,
) -> Seq<Seq<nat>>
    decreases ps.len(),
{
    if ps.len() == 0 {
        levels
    } else {
        apply_pixels(
            c,
            spec_update(c, levels, pixel_index(ps[0], width), ps[0].value as nat),
            width,
            ps.skip(1),
        )
    }
}

/// How many updates from the front of `ps` land inside the leaves: the
/// length of the longest prefix a replay applies before it stops.
pub open spec fn good_prefix_len(ps: Seq<Pixel>, width: nat, leaf_count: nat) -> nat
    decreases ps.len(),
{
    if ps.len() == 0 {
        0
    } else if pixel_index(ps[0], width) >= leaf_count {
        0
    } else {
        1 + good_prefix_len(ps.skip(1), width, leaf_count)
    }
}

/// Flattening one more command appends exactly its pixels.
proof fn lemma_all_pixels_take_step(cmds: Seq<Command>, ci: int)
    requires
        0 <= ci < cmds.len(),
    ensures
        all_pixels(cmds.take(ci + 1)) == all_pixels(cmds.take(ci)) + cmds[ci].pixels@,
    decreases ci,
{
    if ci == 0 {
        assert(cmds.take(1) =~= seq![cmds[0]]);
        assert(seq![cmds[0]].skip(1) =~= Seq::<Command>::empty());
        assert(all_pixels(Seq::<Command>::empty()) == Seq::<Pixel>::empty());
        assert(cmds.take(0) =~= Seq::<Command>::empty());
        assert(all_pixels(cmds.take(1)) =~= cmds[0].pixels@);
        assert(all_pixels(cmds.take(0)) + cmds[0].pixels@ =~= cmds[0].pixels@);
    } else {
        lemma_all_pixels_take_step(cmds.skip(1), ci - 1);
        assert(cmds.take(ci + 1).skip(1) =~= cmds.skip(1).take(ci));
        assert(cmds.take(ci).skip(1) =~= cmds.skip(1).take(ci - 1));
        assert(cmds.take(ci + 1)[0] == cmds[0]);
        assert(cmds.take(ci)[0] == cmds[0]);
        assert(cmds.skip(1)[ci - 1] == cmds[ci]);
        assert(all_pixels(cmds.take(ci + 1)) == cmds[0].pixels@ + all_pixels(
            cmds.skip(1).take(ci),
        ));
        assert(all_pixels(cmds.take(ci)) == cmds[0].pixels@ + all_pixels(
            cmds.skip(1).take(ci - 1),
        ));
        assert((cmds[0].pixels@ + all_pixels(cmds.skip(1).take(ci - 1))) + cmds[ci].pixels@
            =~= cmds[0].pixels@ + (all_pixels(cmds.skip(1).take(ci - 1)) + cmds[ci].pixels@));
    }
}

/// Replaying one more update applies one more leaf overwrite.
proof fn lemma_apply_pixels_step<C: Compressor>(
    c: C,
    levels: Seq<Seq<nat>>,
    width: nat,
    ps: Seq<Pixel>,
    t: int,
)
    requires
        0 <= t < ps.len(),
    ensures
        apply_pixels(c, levels, width, ps.take(t + 1)) == spec_update(
            c,
            apply_pixels(c, levels, width, ps.take(t)),
            pixel_index(ps[t], width),
            ps[t].value as nat,
        ),
    decreases t,
{
    let up0 = spec_update(c, levels, pixel_index(ps[0], width), ps[0].value as nat);
    if t == 0 {
        assert(ps.take(0) =~= Seq::<Pixel>::empty());
        assert(apply_pixels(c, levels, width, ps.take(0)) == levels);
        assert(ps.take(1) =~= seq![ps[0]]);
        assert(ps.take(1).skip(1) =~= Seq::<Pixel>::empty());
        assert(ps.take(1)[0] == ps[0]);
        assert(apply_pixels(c, up0, width, Seq::<Pixel>::empty()) == up0);
        assert(apply_pixels(c, levels, width, ps.take(1)) == up0);
    } else {
        lemma_apply_pixels_step(c, up0, width, ps.skip(1), t - 1);
        assert(ps.take(t + 1).skip(1) =~= ps.skip(1).take(t));
        assert(ps.take(t).skip(1) =~= ps.skip(1).take(t - 1));
        assert(ps.take(t + 1)[0] == ps[0]);
        assert(ps.take(t)[0] == ps[0]);
        assert(ps.skip(1)[t - 1] == ps[t]);
        assert(apply_pixels(c, levels, width, ps.take(t + 1)) == apply_pixels(
            c,
            up0,
            width,
            ps.skip(1).take(t),
        ));
        assert(apply_pixels(c, levels, width, ps.take(t)) == apply_pixels(
            c,
            up0,
            width,
            ps.skip(1).take(t - 1),
        ));
    }
}

/// The prefix length of in-range updates, characterized from the front.
proof fn lemma_good_prefix_char(ps: Seq<Pixel>, width: nat, n: nat, t: int)
    requires
        0 <= t <= ps.len(),
        forall|m: int| 0 <= m < t ==> pixel_index(#[trigger] ps[m], width) < n,
        t < ps.len() ==> pixel_index(ps[t], width) >= n,
    ensures
        good_prefix_len(ps, width, n) == t,
    decreases t,
{
    if t == 0 {
    } else {
        assert(pixel_index(ps[0], width) < n);
        lemma_good_prefix_char(ps.skip(1), width, n, t - 1);
    }
}

/// A replay whose updates all land inside the leaves keeps the number of
/// levels, the length of every level, and so the tree's shape.
proof fn lemma_apply_pixels_shape<C: Compressor>(
    c: C,
    levels: Seq<Seq<nat>>,
    width: nat,
    ps: Seq<Pixel>,
)
    requires
        shaped(levels),
        levels.len() > 0,
        forall|m: int| 0 <= m < ps.len() ==> pixel_index(#[trigger] ps[m], width) < levels[0].len(),
    ensures
        apply_pixels(c, levels, width, ps).len() == levels.len(),
        forall|k: int|
            0 <= k < levels.len() ==> (#[trigger] apply_pixels(c, levels, width, ps)[k]).len()
                == levels[k].len(),
        shaped(apply_pixels(c, levels, width, ps)),
    decreases ps.len(),
{
    if ps.len() > 0 {
        let up0 = spec_update(c, levels, pixel_index(ps[0], width), ps[0].value as nat);
        crate::tree::lemma_update_locality(c, levels, pixel_index(ps[0], width), ps[0].value as nat);
        assert(shaped(up0)) by {
            assert forall|i: int|
                0 <= i < up0.len() - 1 implies (#[trigger] up0[i + 1]).len() == (up0[i].len() + 1)
                / 2 by {
                assert(up0[i + 1].len() == levels[i + 1].len());
                assert(up0[i].len() == levels[i].len());
            }
            assert(up0[up0.len() - 1].len() == levels[levels.len() - 1].len());
        }
        assert forall|m: int|
            0 <= m < ps.skip(1).len() implies pixel_index(#[trigger] ps.skip(1)[m], width)
            < up0[0].len() by {
            assert(ps.skip(1)[m] == ps[m + 1]);
        }
        lemma_apply_pixels_shape(c, up0, width, ps.skip(1));
    }
}

/// A replay that never touches leaf `q` leaves leaf `q` unchanged.
proof fn lemma_apply_pixels_untouched<C: Compressor>(
    c: C,
    levels: Seq<Seq<nat>>,
    width: nat,
    ps: Seq<Pixel>,
    q: int,
)
    requires
        shaped(levels),
        levels.len() > 0,
        forall|m: int| 0 <= m < ps.len() ==> pixel_index(#[trigger] ps[m], width) < levels[0].len(),
        0 <= q < levels[0].len(),
        forall|m: int| 0 <= m < ps.len() ==> pixel_index(#[trigger] ps[m], width) != q,
    ensures
        apply_pixels(c, levels, width, ps)[0][q] == levels[0][q],
    decreases ps.len(),
{
    if ps.len() > 0 {
        let i0 = pixel_index(ps[0], width);
        let up0 = spec_update(c, levels, i0, ps[0].value as nat);
        crate::tree::lemma_update_locality(c, levels, i0, ps[0].value as nat);
        lemma_apply_pixels_shape(c, levels, width, ps.take(0));
        assert(shaped(up0)) by {
            assert forall|i: int|
                0 <= i < up0.len() - 1 implies (#[trigger] up0[i + 1]).len() == (up0[i].len() + 1)
                / 2 by {
                assert(up0[i + 1].len() == levels[i + 1].len());
                assert(up0[i].len() == levels[i].len());
            }
            assert(up0[up0.len() - 1].len() == levels[levels.len() - 1].len());
        }
        assert(crate::tree::path_idx(i0, 0) == i0);
        assert(up0[0][q] == levels[0][q]);
        assert forall|m: int|
            0 <= m < ps.skip(1).len() implies pixel_index(#[trigger] ps.skip(1)[m], width)
            < up0[0].len() && pixel_index(ps.skip(1)[m], width) != q by {
            assert(ps.skip(1)[m] == ps[m + 1]);
        }
        lemma_apply_pixels_untouched(c, up0, width, ps.skip(1), q);
    }
}

/// Last write wins: when several updates of one replay hit the same
/// leaf, the leaf ends with the embedded value of the last of them.
pub proof fn lemma_last_write_wins<C: Compressor>(
    c: C,
    levels: Seq<Seq<nat>>,
    width: nat,
    ps: Seq<Pixel>,
    t: int,
)
    requires
        shaped(levels),
        levels.len() > 0,
        forall|m: int| 0 <= m < ps.len() ==> pixel_index(#[trigger] ps[m], width) < levels[0].len(),
        0 <= t < ps.len(),
        forall|m: int| t < m < ps.len() ==> pixel_index(#[trigger] ps[m], width) != pixel_index(
            ps[t],
            width,
        ),
    ensures
        apply_pixels(c, levels, width, ps)[0][pixel_index(ps[t], width) as int] == ps[t].value,
    decreases ps.len(),
{
    let i0 = pixel_index(ps[0], width);
    let up0 = spec_update(c, levels, i0, ps[0].value as nat);
    crate::tree::lemma_update_locality(c, levels, i0, ps[0].value as nat);
    crate::tree::lemma_spec_update_levels(c, levels, i0, ps[0].value as nat);
    assert(shaped(up0)) by {
        assert forall|i: int|
            0 <= i < up0.len() - 1 implies (#[trigger] up0[i + 1]).len() == (up0[i].len() + 1)
            / 2 by {
            assert(up0[i + 1].len() == levels[i + 1].len());
            assert(up0[i].len() == levels[i].len());
        }
        assert(up0[up0.len() - 1].len() == levels[levels.len() - 1].len());
    }
    assert forall|m: int|
        0 <= m < ps.skip(1).len() implies pixel_index(#[trigger] ps.skip(1)[m], width)
        < up0[0].len() by {
        assert(ps.skip(1)[m] == ps[m + 1]);
    }
    if t == 0 {
        assert(up0[0] == levels[0].update(i0 as int, ps[0].value as nat));
        assert(up0[0][i0 as int] == ps[0].value);
        assert forall|m: int|
            0 <= m < ps.skip(1).len() implies pixel_index(#[trigger] ps.skip(1)[m], width)
            != i0 by {
            assert(ps.skip(1)[m] == ps[m + 1]);
        }
        lemma_apply_pixels_untouched(c, up0, width, ps.skip(1), i0 as int);
    } else {
        assert forall|m: int|
            t - 1 < m < ps.skip(1).len() implies pixel_index(#[trigger] ps.skip(1)[m], width)
            != pixel_index(ps.skip(1)[t - 1], width) by {
            assert(ps.skip(1)[m] == ps[m + 1]);
            assert(ps.skip(1)[t - 1] == ps[t]);
        }
        lemma_last_write_wins(c, up0, width, ps.skip(1), t - 1);
        assert(ps.skip(1)[t - 1] == ps[t]);
    }
}

/// Replays each command's pixel updates, in command order and pixel
/// order, against the tree: leaf index `y * width + x`, leaf value the
/// embedded pixel value. Stops at the first update whose index lies
/// outside the leaves and reports it; the updates before it stay
/// applied, the failing one touches nothing.
#[verifier::loop_isolation(false)]
#[verifier::rlimit(60)]
pub fn process_canvas_changes<C: Compressor>(
    width: usize,
    merkle_tree: &mut MerkleTree<C>,
    commands: Vec<Command>,
) -> (r: Result<(), CanvasError>)
    requires
        old(merkle_tree).wf(),
        old(merkle_tree).is_built(),
    ensures
        final(merkle_tree).compressor == old(merkle_tree).compressor,
        final(merkle_tree).wf(),
        final(merkle_tree).is_built(),
        final(merkle_tree)@ == apply_pixels(
            old(merkle_tree).compressor,
            old(merkle_tree)@,
            width as nat,
            all_pixels(commands@).take(
                good_prefix_len(
                    all_pixels(commands@),
                    width as nat,
                    old(merkle_tree)@[0].len(),
                ) as int,
            ),
        ),
        (r == Ok::<(), CanvasError>(())) <==> good_prefix_len(
            all_pixels(commands@),
            width as nat,
            old(merkle_tree)@[0].len(),
        ) == all_pixels(commands@).len(),
        !(r is Ok) ==> r == Err::<(), CanvasError>(CanvasError::IndexOutOfBoundsError),
        linked(old(merkle_tree).compressor, old(merkle_tree)@) ==> linked(
            old(merkle_tree).compressor,
            final(merkle_tree)@,
        ),
    {
        let ghost c = merkle_tree.compressor;
        let ghost orig = merkle_tree@;
        let ghost n0 = orig[0].len();
        let mut flat: Vec<Pixel> = Vec::new();
        let mut ci: usize = 0;
        while ci < commands.len()
            invariant
                ci <= commands@.len(),
                flat@ == all_pixels(commands@.take(ci as int)),
            decreases commands@.len() - ci,
        {
            let cmd_pixels_len = commands[ci].pixels.len();
            let mut pi: usize = 0;
            while pi < cmd_pixels_len
                invariant
                    ci < commands@.len(),
                    pi <= cmd_pixels_len,
                    cmd_pixels_len == commands@[ci as int].pixels@.len(),
                    flat@ == all_pixels(commands@.take(ci as int)) + commands@[ci as int].pixels@
                        .take(pi as int),
                decreases cmd_pixels_len - pi,
            {
                let p = commands[ci].pixels[pi];
                flat.push(p);
                pi += 1;
                proof {
                    assert(commands@[ci as int].pixels@.take(pi - 1).push(
                        commands@[ci as int].pixels@[pi - 1],
                    ) =~= commands@[ci as int].pixels@.take(pi as int));
                    assert(flat@ =~= all_pixels(commands@.take(ci as int))
                        + commands@[ci as int].pixels@.take(pi as int));
                }
            }
            ci += 1;
            proof {
                lemma_all_pixels_take_step(commands@, ci - 1);
                assert(commands@[ci - 1].pixels@.take(cmd_pixels_len as int)
                    =~= commands@[ci - 1].pixels@);
                assert(flat@ == all_pixels(commands@.take(ci as int)));
            }
        }
        proof {
            assert(commands@.take(commands@.len() as int) =~= commands@);
        }
        let ghost aps = all_pixels(commands@);
        let mut t: usize = 0;
        while t < flat.len()
            invariant
                t <= flat@.len(),
                merkle_tree.compressor == c,
                merkle_tree.wf(),
                merkle_tree@.len() == orig.len(),
                merkle_tree@[0].len() == n0,
                merkle_tree@ == apply_pixels(c, orig, width as nat, aps.take(t as int)),
                forall|m: int| 0 <= m < t ==> pixel_index(#[trigger] aps[m], width as nat) < n0,
                linked(c, orig) ==> linked(c, merkle_tree@),
            decreases flat@.len() - t,
        {
            let p = flat[t];
            proof {
                assert((p.y as u128) * (width as u128) < 0x1000000000000000000000000u128)
                    by (nonlinear_arith)
                    requires
                        p.y <= 0xffffffffu32,
                        width <= 0xffffffffffffffffu128,
                ;
            }
            let yw: u128 = (p.y as u128) * (width as u128) + (p.x as u128);
            let leaf_count = merkle_tree.levels[0].len();
            proof {
                assert(merkle_tree@[0].len() == values_of(merkle_tree.levels@[0]@).len());
                assert(yw == pixel_index(p, width as nat));
            }
            if yw >= leaf_count as u128 {
                proof {
                    lemma_good_prefix_char(aps, width as nat, n0, t as int);
                }
                return Err(CanvasError::IndexOutOfBoundsError);
            }
            let idx: usize = yw as usize;
            let ghost pre = merkle_tree@;
            let r = merkle_tree.update_leaf(idx, Elem::embed(p.value));
            t += 1;
            proof {
                crate::tree::lemma_update_locality(c, pre, idx as nat, p.value as nat);
                lemma_apply_pixels_step(c, orig, width as nat, aps, t - 1);
                assert(merkle_tree@ == apply_pixels(c, orig, width as nat, aps.take(t as int)));
            }
        }
        proof {
            lemma_good_prefix_char(aps, width as nat, n0, aps.len() as int);
            assert(aps.take(aps.len() as int) =~= aps);
        }
        Ok(())
    }

/// Builds a tree from a row-major pixel grid: the rows are flattened in
/// `y * width + x` order and each value is embedded into the field.
/// Fails on a grid with no cells, leaving an unbuilt tree.
#[verifier::loop_isolation(false)]
pub fn build_merkle_tree_from_pixels<C: Compressor>(compressor: C, pixels: Vec<Vec<u32>>) -> (r:
    Result<MerkleTree<C>, CanvasError>)
    ensures
        r is Ok <==> flattened_values(pixels@).len() > 0,
        r matches Ok(t) ==> t.wf() && t.is_built() && t.compressor == compressor && linked(
            compressor,
            t@,
        ) && t@ == build_levels(compressor, flattened_values(pixels@)) && t@[0]
            == flattened_values(pixels@),
        flattened_values(pixels@).len() == 0 <==> r == Err::<MerkleTree<C>, CanvasError>(
            CanvasError::EmptyInputError,
        ),
{
    let mut leaves: Vec<Elem> = Vec::new();
    let mut yi: usize = 0;
    while yi < pixels.len()
        invariant
            yi <= pixels@.len(),
            values_of(leaves@) == flattened_values(pixels@.take(yi as int)),
            forall|k: int| 0 <= k < leaves@.len() ==> (#[trigger] leaves@[k]).valid(),
        decreases pixels@.len() - yi,
    {
        let row_len = pixels[yi].len();
        let mut xi: usize = 0;
        while xi < row_len
            invariant
                yi < pixels@.len(),
                xi <= row_len,
                row_len == pixels@[yi as int]@.len(),
                values_of(leaves@) == flattened_values(pixels@.take(yi as int)) + row_values(
                    pixels@[yi as int]@.take(xi as int),
                ),
                forall|k: int| 0 <= k < leaves@.len() ==> (#[trigger] leaves@[k]).valid(),
            decreases row_len - xi,
        {
            let v = pixels[yi][xi];
            let ghost prev = leaves@;
            let e = Elem::embed(v);
            leaves.push(e);
            xi += 1;
            proof {
                assert(values_of(leaves@) =~= values_of(prev).push(e@));
                assert(row_values(pixels@[yi as int]@.take(xi as int))
                    =~= row_values(pixels@[yi as int]@.take(xi - 1)).push(
                    pixels@[yi as int]@[xi - 1] as nat,
                ));
                assert(values_of(leaves@) =~= flattened_values(pixels@.take(yi as int))
                    + row_values(pixels@[yi as int]@.take(xi as int)));
            }
        }
        yi += 1;
        proof {
            lemma_flattened_take_step(pixels@, yi - 1);
            assert(pixels@[yi - 1]@.take(row_len as int) =~= pixels@[yi - 1]@);
            assert(values_of(leaves@) == flattened_values(pixels@.take(yi as int)));
        }
    }
    proof {
        assert(pixels@.take(pixels@.len() as int) =~= pixels@);
    }
    let mut merkle_tree = MerkleTree::new(compressor);
    if leaves.len() == 0 {
        return Err(CanvasError::EmptyInputError);
    }
    let r = merkle_tree.build_tree(leaves);
    Ok(merkle_tree)
}

/// The embedded values of one grid row.
pub open spec fn row_values(row: Seq<u32>) -> Seq<nat> {
    Seq::new(row.len(), |i: int| row[i] as nat)
}

/// The embedded values of a row-major grid, flattened row by row.
pub open spec fn flattened_values(grid: Seq<Vec<u32>>) -> Seq<nat>
    decreases grid.len(),
{
    if grid.len() == 0 {
        seq![]
    } else {
        row_values(grid[0]@) + flattened_values(grid.skip(1))
    }
}

/// Flattening one more row appends exactly that row's values.
proof fn lemma_flattened_take_step(grid: Seq<Vec<u32>>, gi: int)
    requires
        0 <= gi < grid.len(),
    ensures
        flattened_values(grid.take(gi + 1)) == flattened_values(grid.take(gi)) + row_values(
            grid[gi]@,
        ),
    decreases gi,
{
    if gi == 0 {
        assert(grid.take(1) =~= seq![grid[0]]);
        assert(seq![grid[0]].skip(1) =~= Seq::<Vec<u32>>::empty());
        assert(grid.take(0) =~= Seq::<Vec<u32>>::empty());
        assert(flattened_values(seq![grid[0]]) == row_values(seq![grid[0]][0]@)
            + flattened_values(seq![grid[0]].skip(1)));
        assert(flattened_values(Seq::<Vec<u32>>::empty()) == Seq::<nat>::empty());
        assert(row_values(grid[0]@) + Seq::<nat>::empty() =~= row_values(grid[0]@));
        assert(flattened_values(grid.take(1)) == row_values(grid[0]@));
        assert(flattened_values(grid.take(0)) + row_values(grid[0]@) =~= row_values(grid[0]@));
    } else {
        lemma_flattened_take_step(grid.skip(1), gi - 1);
        assert(grid.take(gi + 1).skip(1) =~= grid.skip(1).take(gi));
        assert(grid.take(gi).skip(1) =~= grid.skip(1).take(gi - 1));
        assert(grid.take(gi + 1)[0] == grid[0]);
        assert(grid.take(gi)[0] == grid[0]);
        assert(grid.skip(1)[gi - 1] == grid[gi]);
        assert((row_values(grid[0]@) + flattened_values(grid.skip(1).take(gi - 1))) + row_values(
            grid[gi]@,
        ) =~= row_values(grid[0]@) + (flattened_values(grid.skip(1).take(gi - 1)) + row_values(
            grid[gi]@,
        )));
    }
}

} // verus!
