use vstd::prelude::*;

use crate::elem::{field_modulus, Elem};
use crate::errors::CanvasError;
use crate::hashing::Compressor;

verus! {

/// The values of a sequence of elements.
pub open spec fn values_of(s: Seq<Elem>) -> Seq<nat> {
    Seq::new(s.len(), |i: int| s[i]@)
}

/// The parent hash over position `i`'s pair in `level`: the left child
/// sits at the even index at or below `i`; the right child is its
/// successor, or the left child again when the successor is off the end
/// (the duplicate-self rule for odd-length levels).
pub open spec fn pair_hash<C: Compressor>(c: C, level: Seq<nat>, i: int) -> nat {
    let left = 2 * (i / 2);
    if left + 1 < level.len() {
        c.spec_compress(level[left], level[left + 1])
    } else {
        c.spec_compress(level[left], level[left])
    }
}

/// One level up from `level`: ceil(len/2) parents, each the pair hash of
/// its two children.
pub open spec fn parent_level<C: Compressor>(c: C, level: Seq<nat>) -> Seq<nat> {
    Seq::new((level.len() + 1) / 2, |j: int| pair_hash(c, level, 2 * j))
}

/// All levels of a tree built bottom-up from `leaves`: the leaves first,
/// then each parent level, ending in a single-element root level.
pub open spec fn build_levels<C: Compressor>(c: C, leaves: Seq<nat>) -> Seq<Seq<nat>>
    decreases leaves.len(),
{
    if leaves.len() <= 1 {
        seq![leaves]
    } else {
        seq![leaves] + build_levels(c, parent_level(c, leaves))
    }
}

/// The number of levels a build from `n` leaves yields.
pub open spec fn num_levels(n: nat) -> nat
    decreases n,
{
    if n <= 1 {
        1
    } else {
        1 + num_levels((n + 1) / 2)
    }
}

/// The ceiling of the base-2 logarithm of `n`, for `n >= 1`.
pub open spec fn log2_ceil(n: nat) -> nat
    decreases n,
{
    if n <= 1 {
        0
    } else {
        1 + log2_ceil((n + 1) / 2)
    }
}

/// The level lengths of a built tree: each level above the leaves has one
/// parent per pair of children, and the top level is the single root.
pub open spec fn shaped(levels: Seq<Seq<nat>>) -> bool {
    &&& forall|i: int|
        0 <= i < levels.len() - 1 ==> (#[trigger] levels[i + 1]).len() == (levels[i].len() + 1) / 2
    &&& levels.len() > 0 ==> levels[levels.len() - 1].len() == 1
}

/// Every element of every level lies in the field's range.
pub open spec fn all_valid(levels: Seq<Seq<nat>>) -> bool {
    forall|i: int, j: int|
        0 <= i < levels.len() && 0 <= j < levels[i].len() ==> #[trigger] levels[i][j]
            < field_modulus()
}

/// The hash links of a built tree: each level above the leaves is the
/// parent level of the one below it.
pub open spec fn linked<C: Compressor>(c: C, levels: Seq<Seq<nat>>) -> bool {
    forall|i: int|
        0 <= i < levels.len() - 1 ==> #[trigger] levels[i + 1] == parent_level(c, levels[i])
}

/// The path index at level `k` above an updated leaf index `i`: halved
/// once per level.
pub open spec fn path_idx(i: nat, k: nat) -> nat
    decreases k,
{
    if k == 0 {
        i
    } else {
        path_idx(i, (k - 1) as nat) / 2
    }
}

/// The tree after overwriting leaf `i` with `v` and recomputing, level by
/// level, the one parent on the path above it.
pub open spec fn spec_update<C: Compressor>(
    c: C,
    levels: Seq<Seq<nat>>,
    i: nat,
    v: nat,
) -> Seq<Seq<nat>>
    decreases levels.len(),
{
    if levels.len() == 0 {
        levels
    } else {
        let head = levels[0].update(i as int, v);
        if levels.len() == 1 {
            seq![head]
        } else {
            seq![head] + spec_update(c, levels.skip(1), i / 2, pair_hash(c, head, i as int))
        }
    }
}

/// The recorded sibling of position `i` in `level`: its neighbour inside
/// the pair, or the node itself when the neighbour is off the end.
pub open spec fn sibling_at(level: Seq<nat>, i: int) -> nat {
    let s = if i % 2 == 0 {
        i + 1
    } else {
        i - 1
    };
    if s < level.len() {
        level[s]
    } else {
        level[i]
    }
}

/// The inclusion proof for leaf `i`: one sibling per level below the
/// root, leaf level first.
pub open spec fn spec_proof(levels: Seq<Seq<nat>>, i: nat) -> Seq<nat>
    decreases levels.len(),
{
    if levels.len() <= 1 {
        seq![]
    } else {
        seq![sibling_at(levels[0], i as int)] + spec_proof(levels.skip(1), i / 2)
    }
}

/// Recomputing the root from a leaf value and a proof: at each level the
/// accumulator is the left operand when the index bit is even, the right
/// operand when it is odd, and the index is halved.
pub open spec fn spec_climb<C: Compressor>(c: C, acc: nat, sibs: Seq<nat>, i: nat) -> nat
    decreases sibs.len(),
{
    if sibs.len() == 0 {
        acc
    } else {
        let h = if i % 2 == 0 {
            c.spec_compress(acc, sibs[0])
        } else {
            c.spec_compress(sibs[0], acc)
        };
        spec_climb(c, h, sibs.skip(1), i / 2)
    }
}

/// Peeling one level off the path index: the index at level `k` above a
/// leaf equals the index at level `k - 1` above its half.
proof fn lemma_path_idx_shift(i: nat, k: nat)
    requires
        k >= 1,
    ensures
        path_idx(i, k) == path_idx(i / 2, (k - 1) as nat),
    decreases k,
{
    if k == 1 {
        assert(path_idx(i, 0) == i);
        assert(path_idx(i / 2, 0) == i / 2);
    } else {
        lemma_path_idx_shift(i, (k - 1) as nat);
        assert(path_idx(i, k) == path_idx(i, (k - 1) as nat) / 2);
        assert(path_idx(i / 2, (k - 1) as nat) == path_idx(i / 2, (k - 2) as nat) / 2);
    }
}

/// What a bottom-up build yields: the leaves as level 0, one level count
/// per halving, a single-element top level, tree shape, and hash links.
pub proof fn lemma_build_levels_props<C: Compressor>(c: C, leaves: Seq<nat>)
    requires
        leaves.len() >= 1,
    ensures
        build_levels(c, leaves).len() == num_levels(leaves.len()),
        build_levels(c, leaves)[0] == leaves,
        build_levels(c, leaves).last().len() == 1,
        shaped(build_levels(c, leaves)),
        linked(c, build_levels(c, leaves)),
    decreases leaves.len(),
{
    let bl = build_levels(c, leaves);
    if leaves.len() <= 1 {
        assert(bl == seq![leaves]);
        assert(bl.last() == leaves);
    } else {
        let p = parent_level(c, leaves);
        assert(p.len() == (leaves.len() + 1) / 2);
        lemma_build_levels_props(c, p);
        let rest = build_levels(c, p);
        assert(bl == seq![leaves] + rest);
        assert(bl.last() == rest.last());
        assert forall|i: int| 0 <= i < bl.len() - 1 implies #[trigger] bl[i + 1] == parent_level(
            c,
            bl[i],
        ) by {
            if i == 0 {
                assert(bl[1] == rest[0]);
                assert(rest[0] == p);
            } else {
                assert(bl[i] == rest[i - 1]);
                assert(bl[i + 1] == rest[i]);
                assert(rest[(i - 1) + 1] == parent_level(c, rest[i - 1]));
            }
        }
        assert forall|i: int| 0 <= i < bl.len() - 1 implies (#[trigger] bl[i + 1]).len() == (
        bl[i].len() + 1) / 2 by {
            assert(bl[i + 1] == parent_level(c, bl[i]));
        }
    }
}

/// `log2_ceil` is the ceiling of the base-2 logarithm: `n` fits under
/// 2 to the `log2_ceil(n)`, and no smaller power of two reaches `n`.
pub proof fn lemma_log2_ceil_correct(n: nat)
    requires
        n >= 1,
    ensures
        n <= vstd::arithmetic::power2::pow2(log2_ceil(n)),
        log2_ceil(n) > 0 ==> vstd::arithmetic::power2::pow2((log2_ceil(n) - 1) as nat) < n,
    decreases n,
{
    vstd::arithmetic::power2::lemma2_to64();
    if n > 1 {
        let m = (n + 1) / 2;
        lemma_log2_ceil_correct(m);
        vstd::arithmetic::power2::lemma_pow2_adds(1, log2_ceil(m));
        assert(n <= 2 * m);
        if log2_ceil(m) > 0 {
            vstd::arithmetic::power2::lemma_pow2_adds(1, (log2_ceil(m) - 1) as nat);
            assert(vstd::arithmetic::power2::pow2((log2_ceil(m) - 1) as nat) <= m - 1);
            assert(2 * m <= n + 1);
        } else {
            assert(m == 1);
            assert(n == 2);
        }
    }
}

/// The level count of a build is one more than the ceiling logarithm of
/// the leaf count.
pub proof fn lemma_num_levels_log(n: nat)
    requires
        n >= 1,
    ensures
        num_levels(n) == log2_ceil(n) + 1,
    decreases n,
{
    if n > 1 {
        lemma_num_levels_log((n + 1) / 2);
    }
}

/// Build correctness: a build from `n >= 1` leaves has exactly the given
/// leaves as its level 0 and exactly ceil(log2(n)) + 1 levels.
pub proof fn lemma_build_shape<C: Compressor>(c: C, leaves: Seq<nat>)
    requires
        leaves.len() >= 1,
    ensures
        build_levels(c, leaves)[0] == leaves,
        build_levels(c, leaves).len() == log2_ceil(leaves.len()) + 1,
{
    lemma_build_levels_props(c, leaves);
    lemma_num_levels_log(leaves.len());
}

/// Unrolls `spec_update` level by level: each level is the old level with
/// only its path position overwritten, and the value written at a level
/// is the pair hash read from the already-updated level below.
pub proof fn lemma_spec_update_levels<C: Compressor>(c: C, levels: Seq<Seq<nat>>, i: nat, v: nat)
    ensures
        spec_update(c, levels, i, v).len() == levels.len(),
        levels.len() > 0 ==> spec_update(c, levels, i, v)[0] == levels[0].update(i as int, v),
        forall|k: int|
            1 <= k < levels.len() ==> #[trigger] spec_update(c, levels, i, v)[k] == levels[k].update(
                path_idx(i, k as nat) as int,
                pair_hash(c, spec_update(c, levels, i, v)[k - 1], path_idx(i, (k - 1) as nat) as int),
            ),
    decreases levels.len(),
{
    if levels.len() >= 2 {
        let head = levels[0].update(i as int, v);
        let ph = pair_hash(c, head, i as int);
        let tail = levels.skip(1);
        lemma_spec_update_levels(c, tail, i / 2, ph);
        let u = spec_update(c, levels, i, v);
        let rest = spec_update(c, tail, i / 2, ph);
        assert(u == seq![head] + rest);
        assert forall|k: int| 1 <= k < levels.len() implies #[trigger] u[k] == levels[k].update(
            path_idx(i, k as nat) as int,
            pair_hash(c, u[k - 1], path_idx(i, (k - 1) as nat) as int),
        ) by {
            lemma_path_idx_shift(i, k as nat);
            assert(u[k] == rest[k - 1]);
            assert(tail[k - 1] == levels[k]);
            if k == 1 {
                assert(rest[0] == tail[0].update((i / 2) as int, ph));
                assert(u[0] == head);
                assert(path_idx(i, 1) == i / 2);
                assert(path_idx(i, 0) == i);
            } else {
                lemma_path_idx_shift(i, (k - 1) as nat);
                assert(rest[k - 1] == tail[k - 1].update(
                    path_idx(i / 2, (k - 1) as nat) as int,
                    pair_hash(c, rest[k - 2], path_idx(i / 2, (k - 2) as nat) as int),
                ));
                assert(u[k - 1] == rest[k - 2]);
            }
        }
    }
}

/// Update locality: after a leaf update only the path positions differ.
/// Every level keeps its length, and every node off the path at its level
/// is unchanged.
pub proof fn lemma_update_locality<C: Compressor>(c: C, levels: Seq<Seq<nat>>, i: nat, v: nat)
    requires
        shaped(levels),
        levels.len() > 0,
        i < levels[0].len(),
    ensures
        spec_update(c, levels, i, v).len() == levels.len(),
        forall|k: int|
            0 <= k < levels.len() ==> (#[trigger] spec_update(c, levels, i, v)[k]).len()
                == levels[k].len(),
        forall|k: int, j: int|
            0 <= k < levels.len() && 0 <= j < levels[k].len() && j != path_idx(i, k as nat)
                ==> #[trigger] spec_update(c, levels, i, v)[k][j] == levels[k][j],
{
    lemma_spec_update_levels(c, levels, i, v);
    let u = spec_update(c, levels, i, v);
    assert forall|k: int|
        0 <= k < levels.len() implies (#[trigger] u[k]).len() == levels[k].len() by {
        lemma_path_idx_in_range(levels, i, k);
        if k == 0 {
            assert(u[0] == levels[0].update(i as int, v));
        }
    }
    assert forall|k: int, j: int|
        0 <= k < levels.len() && 0 <= j < levels[k].len() && j != path_idx(i, k as nat)
            implies #[trigger] u[k][j] == levels[k][j] by {
        lemma_path_idx_in_range(levels, i, k);
        if k == 0 {
            assert(u[0] == levels[0].update(i as int, v));
            assert(path_idx(i, 0) == i);
        }
    }
}

/// In a shaped tree every level is nonempty: the single-element root
/// level forces at least one node at each level below it.
pub proof fn lemma_shaped_nonempty(levels: Seq<Seq<nat>>, k: int)
    requires
        shaped(levels),
        levels.len() > 0,
        0 <= k < levels.len(),
    ensures
        levels[k].len() >= 1,
    decreases levels.len() - k,
{
    if k < levels.len() - 1 {
        lemma_shaped_nonempty(levels, k + 1);
        assert(levels[k + 1].len() == (levels[k].len() + 1) / 2);
    }
}

/// The path index stays inside its level in a shaped tree.
proof fn lemma_path_idx_in_range(levels: Seq<Seq<nat>>, i: nat, k: int)
    requires
        shaped(levels),
        levels.len() > 0,
        i < levels[0].len(),
        0 <= k < levels.len(),
    ensures
        path_idx(i, k as nat) < levels[k].len(),
    decreases k,
{
    if k > 0 {
        lemma_path_idx_in_range(levels, i, k - 1);
        assert(levels[(k - 1) + 1].len() == (levels[k - 1].len() + 1) / 2);
    }
}

/// Updating one position of a level moves exactly one parent: the parent
/// level of the updated level is the old parent level with the pair hash
/// over the updated position written at its half-index.
proof fn lemma_parent_of_update<C: Compressor>(c: C, l: Seq<nat>, i: int, x: nat)
    requires
        0 <= i < l.len(),
    ensures
        parent_level(c, l.update(i, x)) == parent_level(c, l).update(
            i / 2,
            pair_hash(c, l.update(i, x), i),
        ),
{
    let lu = l.update(i, x);
    let pl = parent_level(c, l);
    let plu = parent_level(c, lu);
    let goal = pl.update(i / 2, pair_hash(c, lu, i));
    assert(plu.len() == goal.len());
    assert forall|j: int| 0 <= j < plu.len() implies plu[j] == goal[j] by {
        if j == i / 2 {
            assert(plu[j] == pair_hash(c, lu, 2 * j));
            assert(2 * ((2 * j) / 2) == 2 * (i / 2));
        } else {
            assert(2 * j != i && 2 * j + 1 != i);
            assert(plu[j] == pair_hash(c, lu, 2 * j));
            assert(pl[j] == pair_hash(c, l, 2 * j));
            assert(lu[2 * j] == l[2 * j]);
            if 2 * j + 1 < l.len() {
                assert(lu[2 * j + 1] == l[2 * j + 1]);
            }
        }
    }
    assert(plu =~= goal);
}

/// A path update preserves the hash links: recomputing the one parent on
/// the path at each level keeps every level the parent level of the one
/// below it.
pub proof fn lemma_update_preserves_linked<C: Compressor>(
    c: C,
    levels: Seq<Seq<nat>>,
    i: nat,
    v: nat,
)
    requires
        shaped(levels),
        linked(c, levels),
        levels.len() > 0,
        i < levels[0].len(),
    ensures
        linked(c, spec_update(c, levels, i, v)),
{
    lemma_spec_update_levels(c, levels, i, v);
    let u = spec_update(c, levels, i, v);
    assert forall|k: int| 0 <= k < u.len() - 1 implies #[trigger] u[k + 1] == parent_level(
        c,
        u[k],
    ) by {
        lemma_path_idx_in_range(levels, i, k);
        let p = path_idx(i, k as nat) as int;
        assert(0 <= p < levels[k].len());
        let w = if k == 0 {
            v
        } else {
            pair_hash(c, u[k - 1], path_idx(i, (k - 1) as nat) as int)
        };
        assert(u[k] == levels[k].update(p, w));
        lemma_parent_of_update(c, levels[k], p, w);
        assert(levels[k + 1] == parent_level(c, levels[k]));
        assert(path_idx(i, (k + 1) as nat) == path_idx(i, k as nat) / 2);
        assert(u[k + 1] == levels[k + 1].update(
            p / 2,
            pair_hash(c, u[k], p),
        ));
    }
}


/// One step of the path walk: writing the pair hash of the already
/// updated level below at the path position of level `lvl` extends the
/// updated prefix by one level.
proof fn lemma_update_step<C: Compressor>(
    c: C,
    orig: Seq<Seq<nat>>,
    i: nat,
    v: nat,
    lvl: int,
    before: Seq<Seq<nat>>,
    after: Seq<Seq<nat>>,
    parent: nat,
)
    requires
        orig.len() > 0,
        1 <= lvl < orig.len(),
        before.len() == orig.len(),
        after.len() == orig.len(),
        forall|k: int| 0 <= k < lvl ==> #[trigger] before[k] == spec_update(c, orig, i, v)[k],
        forall|k: int| lvl <= k < orig.len() ==> #[trigger] before[k] == orig[k],
        parent == pair_hash(c, before[lvl - 1], path_idx(i, (lvl - 1) as nat) as int),
        forall|k: int| 0 <= k < orig.len() && k != lvl ==> #[trigger] after[k] == before[k],
        after[lvl] == before[lvl].update(path_idx(i, lvl as nat) as int, parent),
    ensures
        forall|k: int| 0 <= k <= lvl ==> #[trigger] after[k] == spec_update(c, orig, i, v)[k],
        forall|k: int| lvl < k < orig.len() ==> #[trigger] after[k] == orig[k],
{
    lemma_spec_update_levels(c, orig, i, v);
    let u = spec_update(c, orig, i, v);
    assert(u[lvl] == orig[lvl].update(
        path_idx(i, lvl as nat) as int,
        pair_hash(c, u[lvl - 1], path_idx(i, (lvl - 1) as nat) as int),
    ));
    assert(before[lvl - 1] == u[lvl - 1]);
    assert(after[lvl] == u[lvl]);
}

/// Overwriting one in-range position of one level with a value in range
/// keeps every element of every level in range.
proof fn lemma_all_valid_set(
    before: Seq<Seq<nat>>,
    after: Seq<Seq<nat>>,
    lvl: int,
    j: int,
    x: nat,
)
    requires
        all_valid(before),
        0 <= lvl < before.len(),
        after.len() == before.len(),
        forall|k: int| 0 <= k < before.len() && k != lvl ==> #[trigger] after[k] == before[k],
        0 <= j < before[lvl].len(),
        after[lvl] == before[lvl].update(j, x),
        x < field_modulus(),
    ensures
        all_valid(after),
{
    assert forall|k: int, t: int|
        0 <= k < after.len() && 0 <= t < after[k].len() implies #[trigger] after[k][t]
        < field_modulus() by {
        if k == lvl {
            if t != j {
                assert(after[k][t] == before[k][t]);
                assert(before[k][t] < field_modulus());
            }
        } else {
            assert(after[k] == before[k]);
            assert(before[k][t] < field_modulus());
        }
    }
}


/// After the walk has reached the top, the tree equals the specified
/// update and keeps its shape.
proof fn lemma_update_final<C: Compressor>(
    c: C,
    orig: Seq<Seq<nat>>,
    i: nat,
    v: nat,
    after: Seq<Seq<nat>>,
)
    requires
        shaped(orig),
        orig.len() > 0,
        i < orig[0].len(),
        after.len() == orig.len(),
        forall|k: int| 0 <= k < orig.len() ==> #[trigger] after[k] == spec_update(c, orig, i, v)[k],
    ensures
        after == spec_update(c, orig, i, v),
        shaped(after),
{
    lemma_spec_update_levels(c, orig, i, v);
    lemma_update_locality(c, orig, i, v);
    let u = spec_update(c, orig, i, v);
    assert(after =~= u);
    assert forall|k: int|
        0 <= k < after.len() - 1 implies (#[trigger] after[k + 1]).len() == (after[k].len() + 1)
        / 2 by {
        assert(after[k + 1].len() == orig[k + 1].len());
        assert(after[k].len() == orig[k].len());
    }
    assert(after[after.len() - 1].len() == orig[orig.len() - 1].len());
}

/// Proof soundness: in a shaped, hash-linked tree, climbing from any leaf
/// with its generated proof reproduces the root.
pub proof fn lemma_proof_soundness<C: Compressor>(c: C, levels: Seq<Seq<nat>>, i: nat)
    requires
        shaped(levels),
        linked(c, levels),
        levels.len() > 0,
        i < levels[0].len(),
    ensures
        spec_climb(c, levels[0][i as int], spec_proof(levels, i), i) == levels.last()[0],
    decreases levels.len(),
{
    if levels.len() == 1 {
        assert(spec_proof(levels, i) == Seq::<nat>::empty());
        assert(levels[0].len() == 1);
    } else {
        let tail = levels.skip(1);
        assert forall|k: int| 0 <= k < tail.len() - 1 implies #[trigger] tail[k + 1]
            == parent_level(c, tail[k]) by {
            assert(tail[k + 1] == levels[k + 2]);
            assert(tail[k] == levels[k + 1]);
            assert(levels[(k + 1) + 1] == parent_level(c, levels[k + 1]));
        }
        assert forall|k: int| 0 <= k < tail.len() - 1 implies (#[trigger] tail[k + 1]).len() == (
        tail[k].len() + 1) / 2 by {
            assert(tail[k + 1] == parent_level(c, tail[k]));
        }
        assert(tail.last() == levels.last());
        assert(levels[0int + 1] == parent_level(c, levels[0]));
        assert(tail[0].len() == (levels[0].len() + 1) / 2);
        assert(i / 2 < tail[0].len()) by {
            assert(i <= levels[0].len() - 1);
            vstd::arithmetic::div_mod::lemma_div_is_ordered(
                i as int,
                levels[0].len() - 1,
                2,
            );
            assert((levels[0].len() - 1) / 2 + 1 == (levels[0].len() + 1) / 2);
        }
        lemma_proof_soundness(c, tail, i / 2);
        let sib = sibling_at(levels[0], i as int);
        let pr = spec_proof(levels, i);
        assert(pr == seq![sib] + spec_proof(tail, i / 2));
        assert(pr.skip(1) =~= spec_proof(tail, i / 2));
        assert(pr[0] == sib);
        let h = if i % 2 == 0 {
            c.spec_compress(levels[0][i as int], sib)
        } else {
            c.spec_compress(sib, levels[0][i as int])
        };
        assert(h == tail[0][i as int / 2]) by {
            let j = i as int / 2;
            assert(tail[0][j] == pair_hash(c, levels[0], 2 * j));
            if i % 2 == 0 {
                assert(2 * (i as int / 2) == i);
            } else {
                assert(2 * (i as int / 2) == i - 1);
            }
        }
        assert(spec_climb(c, levels[0][i as int], pr, i) == spec_climb(
            c,
            h,
            spec_proof(tail, i / 2),
            i / 2,
        ));
    }
}

/// Unrolls `spec_proof` level by level: entry `k` is the sibling of the
/// path position at level `k`.
proof fn lemma_spec_proof_levels(levels: Seq<Seq<nat>>, i: nat)
    ensures
        levels.len() == 0 ==> spec_proof(levels, i).len() == 0,
        levels.len() > 0 ==> spec_proof(levels, i).len() == levels.len() - 1,
        forall|k: int|
            0 <= k < levels.len() - 1 ==> #[trigger] spec_proof(levels, i)[k] == sibling_at(
                levels[k],
                path_idx(i, k as nat) as int,
            ),
    decreases levels.len(),
{
    if levels.len() >= 2 {
        let tail = levels.skip(1);
        lemma_spec_proof_levels(tail, i / 2);
        let pr = spec_proof(levels, i);
        assert(pr == seq![sibling_at(levels[0], i as int)] + spec_proof(tail, i / 2));
        assert forall|k: int| 0 <= k < levels.len() - 1 implies #[trigger] pr[k] == sibling_at(
            levels[k],
            path_idx(i, k as nat) as int,
        ) by {
            if k == 0 {
                assert(pr[0] == sibling_at(levels[0], i as int));
                assert(path_idx(i, 0) == i);
            } else {
                lemma_path_idx_shift(i, k as nat);
                assert(pr[k] == spec_proof(tail, i / 2)[k - 1]);
                assert(tail[k - 1] == levels[k]);
            }
        }
    }
}

/// The Merkle tree engine: the level-by-level array of hash values,
/// leaves first, and the compression primitive injected at construction.
pub struct MerkleTree<C: Compressor> {
    pub compressor: C,
    pub levels: Vec<Vec<Elem>>,
}

impl<C: Compressor> View for MerkleTree<C> {
    type V = Seq<Seq<nat>>;

    open spec fn view(&self) -> Seq<Seq<nat>> {
        Seq::new(self.levels@.len(), |i: int| values_of(self.levels@[i]@))
    }
}

impl<C: Compressor> MerkleTree<C> {
    /// The engine's working invariant: the levels have tree shape and
    /// hold only valid elements. An unbuilt tree satisfies it.
    pub open spec fn wf(&self) -> bool {
        shaped(self@) && all_valid(self@)
    }

    /// Whether the tree has been built: at least one level, root defined.
    pub open spec fn is_built(&self) -> bool {
        self@.len() > 0
    }

    /// A fresh, unbuilt engine around the given compression primitive.
    pub fn new(compressor: C) -> (r: MerkleTree<C>)
        ensures
            r@ == Seq::<Seq<nat>>::empty(),
            r.wf(),
            !r.is_built(),
            r.compressor == compressor,
    {
        let t = MerkleTree { compressor, levels: Vec::new() };
        proof {
            assert(t@ =~= Seq::<Seq<nat>>::empty());
        }
        t
    }

    /// Builds all levels bottom-up from the given leaves: adjacent pairs
    /// are compressed, and an odd level's last element is paired with
    /// itself. Fails on an empty input, leaving the tree unchanged.
    #[verifier::loop_isolation(false)]
    pub fn build_tree(&mut self, data: Vec<Elem>) -> (r: Result<(), CanvasError>)
        requires
            !old(self).is_built(),
            forall|i: int| 0 <= i < data@.len() ==> (#[trigger] data@[i]).valid(),
        ensures
            final(self).compressor == old(self).compressor,
            final(self).wf(),
            data@.len() == 0 ==> r == Err::<(), CanvasError>(CanvasError::EmptyInputError)
                && final(self)@ == old(self)@,
            data@.len() > 0 ==> r == Ok::<(), CanvasError>(()) && final(self)@ == build_levels(
                old(self).compressor,
                values_of(data@),
            ) && final(self).is_built() && linked(old(self).compressor, final(self)@),
    {
        if data.len() == 0 {
            return Err(CanvasError::EmptyInputError);
        }
        let ghost c = self.compressor;
        let ghost leaves = values_of(data@);
        self.levels.push(data);
        proof {
            assert(self@.last() =~= leaves);
            assert(self@ =~= seq![leaves]);
            assert(build_levels(c, leaves) == self@.drop_last() + build_levels(c, self@.last()));
        }
        while self.levels[self.levels.len() - 1].len() > 1
            invariant
                self.compressor == c,
                self.levels.len() >= 1,
                self@.last().len() >= 1,
                all_valid(self@),
                build_levels(c, leaves) == self@.drop_last() + build_levels(c, self@.last()),
            decreases self@.last().len(),
        {
            let n = self.levels.len();
            let cur_len = self.levels[n - 1].len();
            let ghost prev = self@;
            let ghost cur = self@.last();
            let half = cur_len / 2 + cur_len % 2;
            let mut next: Vec<Elem> = Vec::new();
            let mut j: usize = 0;
            while j < half
                invariant
                    self.compressor == c,
                    n == self.levels.len(),
                    n >= 1,
                    self@ == prev,
                    cur == self@.last(),
                    cur_len == cur.len(),
                    cur_len >= 2,
                    half == (cur_len + 1) / 2,
                    j <= half,
                    all_valid(self@),
                    values_of(next@) == parent_level(c, cur).take(j as int),
                    forall|t: int| 0 <= t < next@.len() ==> (#[trigger] next@[t]).valid(),
                decreases half - j,
            {
                let left = self.levels[n - 1][2 * j];
                let right = if 2 * j + 1 < cur_len {
                    self.levels[n - 1][2 * j + 1]
                } else {
                    left
                };
                proof {
                    assert(cur == self@[n - 1]);
                    assert(left@ == cur[2 * j]);
                    assert(self@[n - 1][2 * j] < field_modulus());
                    if 2 * j + 1 < cur_len {
                        assert(self@[n - 1][2 * j + 1] < field_modulus());
                    }
                    assert(left.valid() && right.valid());
                }
                let h = self.compressor.compress(&left, &right);
                next.push(h);
                j += 1;
                proof {
                    assert(h@ == pair_hash(c, cur, 2 * (j - 1))) by {
                        assert(2 * ((2 * (j - 1)) / 2) == 2 * (j - 1));
                    }
                    assert(values_of(next@) =~= parent_level(c, cur).take(j as int));
                }
            }
            proof {
                assert(values_of(next@) =~= parent_level(c, cur).take(half as int));
                assert(parent_level(c, cur).take(half as int) =~= parent_level(c, cur));
            }
            self.levels.push(next);
            proof {
                assert(self@ =~= prev + seq![parent_level(c, cur)]);
                assert(self@.last() == parent_level(c, cur));
                assert(self@.drop_last() =~= prev);
                assert(build_levels(c, cur) == seq![cur] + build_levels(c, parent_level(c, cur)));
                assert(prev.drop_last() + (seq![cur] + build_levels(c, parent_level(c, cur)))
                    =~= prev + build_levels(c, parent_level(c, cur)));
                assert(build_levels(c, leaves) == self@.drop_last() + build_levels(
                    c,
                    self@.last(),
                ));
            }
        }
        proof {
            assert(self@.last().len() == 1);
            assert(build_levels(c, self@.last()) == seq![self@.last()]);
            assert(self@.drop_last() + seq![self@.last()] =~= self@);
            assert(self@ == build_levels(c, leaves));
            lemma_build_levels_props(c, leaves);
        }
        Ok(())
    }

    /// The root: the single element of the last level. Fails on an
    /// unbuilt tree.
    pub fn root(&self) -> (r: Result<Elem, CanvasError>)
        requires
            self.wf(),
        ensures
            !self.is_built() ==> r == Err::<Elem, CanvasError>(CanvasError::EmptyTreeError),
            self.is_built() ==> (r matches Ok(e) && e@ == self@.last()[0] && e.valid()),
    {
        let n = self.levels.len();
        if n == 0 {
            return Err(CanvasError::EmptyTreeError);
        }
        proof {
            assert(self@[n - 1].len() == 1);
            assert(self@[n - 1][0] < field_modulus());
        }
        Ok(self.levels[n - 1][0])
    }

    /// Overwrites the leaf at `index`, then recomputes exactly the
    /// parents on its path upward, reading at each level the sibling by
    /// the same duplicate-self rule as the build. Fails without touching
    /// the tree when the tree is unbuilt or the index is out of range.
    #[verifier::rlimit(100)]
    pub fn update_leaf(&mut self, index: usize, new_leaf: Elem) -> (r: Result<(), CanvasError>)
        requires
            old(self).wf(),
            new_leaf.valid(),
        ensures
            final(self).compressor == old(self).compressor,
            final(self).wf(),
            !old(self).is_built() ==> r == Err::<(), CanvasError>(CanvasError::EmptyTreeError)
                && final(self)@ == old(self)@,
            old(self).is_built() && index >= old(self)@[0].len() ==> r == Err::<(), CanvasError>(
                CanvasError::IndexOutOfBoundsError,
            ) && final(self)@ == old(self)@,
            old(self).is_built() && index < old(self)@[0].len() ==> r == Ok::<(), CanvasError>(())
                && final(self)@ == spec_update(
                old(self).compressor,
                old(self)@,
                index as nat,
                new_leaf@,
            ),
            old(self).is_built() && index < old(self)@[0].len() && linked(
                old(self).compressor,
                old(self)@,
            ) ==> linked(old(self).compressor, final(self)@),
    {
        if self.levels.len() == 0 {
            return Err(CanvasError::EmptyTreeError);
        }
        if index >= self.levels[0].len() {
            return Err(CanvasError::IndexOutOfBoundsError);
        }
        let ghost c = self.compressor;
        let ghost orig = self@;
        let ghost u = spec_update(c, orig, index as nat, new_leaf@);
        proof {
            lemma_spec_update_levels(c, orig, index as nat, new_leaf@);
        }
        let mut lvl0 = copy_level(&self.levels[0]);
        lvl0.set(index, new_leaf);
        self.levels.set(0, lvl0);
        proof {
            assert(self@[0] =~= orig[0].update(index as int, new_leaf@));
            assert forall|k: int| 0 < k < orig.len() implies #[trigger] self@[k] == orig[k] by {}
            lemma_all_valid_set(orig, self@, 0, index as int, new_leaf@);
            assert(self@[0] == u[0]);
            assert forall|k: int|
                0 <= k < orig.len() implies (#[trigger] self@[k]).len() == orig[k].len() by {
                if k > 0 {
                    assert(self@[k] == orig[k]);
                }
            }
        }
        let mut idx: usize = index;
        let mut level: usize = 0;
        while level + 1 < self.levels.len()
            invariant
                self.compressor == c,
                c == old(self).compressor,
                orig == old(self)@,
                u == spec_update(c, orig, index as nat, new_leaf@),
                shaped(orig),
                orig.len() > 0,
                (index as nat) < orig[0].len(),
                new_leaf.valid(),
                self.levels.len() == orig.len(),
                all_valid(self@),
                level < self.levels.len(),
                idx == path_idx(index as nat, level as nat),
                idx < orig[level as int].len(),
                forall|k: int| 0 <= k <= level ==> #[trigger] self@[k] == u[k],
                forall|k: int| level < k < orig.len() ==> #[trigger] self@[k] == orig[k],
                forall|k: int| 0 <= k < orig.len() ==> (#[trigger] self@[k]).len()
                    == orig[k].len(),
            decreases self.levels.len() - level,
        {
            let cur_len = self.levels[level].len();
            proof {
                assert(self@[level as int].len() == orig[level as int].len());
            }
            let left_idx = idx - idx % 2;
            let left = self.levels[level][left_idx];
            let right = if left_idx + 1 < cur_len {
                self.levels[level][left_idx + 1]
            } else {
                left
            };
            proof {
                assert(left@ == self@[level as int][left_idx as int]);
                assert(self@[level as int][left_idx as int] < field_modulus());
                if left_idx + 1 < cur_len {
                    assert(self@[level as int][left_idx as int + 1] < field_modulus());
                }
            }
            let parent = self.compressor.compress(&left, &right);
            let ghost prev_idx = idx as nat;
            let ghost prev_level = level as int;
            idx = idx / 2;
            level = level + 1;
            proof {
                assert(orig[prev_level + 1].len() == (orig[prev_level].len() + 1) / 2);
                vstd::arithmetic::div_mod::lemma_div_is_ordered(
                    prev_idx as int,
                    orig[prev_level].len() - 1,
                    2,
                );
                assert((orig[prev_level].len() - 1) / 2 + 1 == (orig[prev_level].len() + 1) / 2);
                assert(idx < orig[level as int].len());
                assert(parent@ == pair_hash(c, self@[prev_level], prev_idx as int)) by {
                    assert(2 * (prev_idx as int / 2) == prev_idx - prev_idx % 2);
                }
            }
            let ghost before = self@;
            let mut lvl = copy_level(&self.levels[level]);
            proof {
                assert(self@[level as int] == orig[level as int]);
                assert(lvl@.len() == values_of(self.levels@[level as int]@).len());
            }
            lvl.set(idx, parent);
            self.levels.set(level, lvl);
            proof {
                assert(self@[level as int] =~= before[level as int].update(idx as int, parent@));
                assert forall|k: int| 0 <= k < orig.len() && k != level implies #[trigger] self@[k]
                    == before[k] by {}
                assert(path_idx(index as nat, level as nat) == prev_idx / 2);
                lemma_update_step(
                    c,
                    orig,
                    index as nat,
                    new_leaf@,
                    level as int,
                    before,
                    self@,
                    parent@,
                );
                lemma_all_valid_set(before, self@, level as int, idx as int, parent@);
            }
        }
        proof {
            assert forall|k: int| 0 <= k < orig.len() implies #[trigger] self@[k] == u[k] by {}
            lemma_update_final(c, orig, index as nat, new_leaf@, self@);
            if linked(c, orig) {
                lemma_update_preserves_linked(c, orig, index as nat, new_leaf@);
            }
        }
        Ok(())
    }

    /// Records, walking the same path as an update, the sibling (or
    /// self-duplicate) at each level below the root, leaf level first.
    /// Read-only. Fails on an unbuilt tree or an out-of-range index.
    #[verifier::loop_isolation(false)]
    pub fn generate_proof(&self, index: usize) -> (r: Result<Vec<Elem>, CanvasError>)
        requires
            self.wf(),
        ensures
            !self.is_built() ==> r == Err::<Vec<Elem>, CanvasError>(CanvasError::EmptyTreeError),
            self.is_built() && index >= self@[0].len() ==> r == Err::<Vec<Elem>, CanvasError>(
                CanvasError::IndexOutOfBoundsError,
            ),
            self.is_built() && index < self@[0].len() ==> (r matches Ok(p) && values_of(p@)
                == spec_proof(self@, index as nat) && forall|k: int|
                0 <= k < p@.len() ==> (#[trigger] p@[k]).valid()),
    {
        if self.levels.len() == 0 {
            return Err(CanvasError::EmptyTreeError);
        }
        if index >= self.levels[0].len() {
            return Err(CanvasError::IndexOutOfBoundsError);
        }
        proof {
            lemma_spec_proof_levels(self@, index as nat);
        }
        let ghost pr = spec_proof(self@, index as nat);
        let mut sibs: Vec<Elem> = Vec::new();
        let mut idx: usize = index;
        let mut level: usize = 0;
        while level + 1 < self.levels.len()
            invariant
                level < self.levels.len(),
                idx == path_idx(index as nat, level as nat),
                idx < self@[level as int].len(),
                sibs@.len() == level,
                values_of(sibs@) == pr.take(level as int),
                forall|k: int| 0 <= k < sibs@.len() ==> (#[trigger] sibs@[k]).valid(),
            decreases self.levels.len() - level,
        {
            let cur_len = self.levels[level].len();
            let sib_idx = if idx % 2 == 0 {
                idx + 1
            } else {
                idx - 1
            };
            let sib = if sib_idx < cur_len {
                self.levels[level][sib_idx]
            } else {
                self.levels[level][idx]
            };
            proof {
                assert(sib@ == sibling_at(self@[level as int], idx as int));
                if sib_idx < cur_len {
                    assert(self@[level as int][sib_idx as int] < field_modulus());
                } else {
                    assert(self@[level as int][idx as int] < field_modulus());
                }
                assert(pr[level as int] == sib@);
            }
            sibs.push(sib);
            proof {
                assert(values_of(sibs@) =~= pr.take(level as int + 1));
            }
            let ghost prev_idx = idx as nat;
            let ghost prev_level = level as int;
            idx = idx / 2;
            level = level + 1;
            proof {
                assert(self@[prev_level + 1].len() == (self@[prev_level].len() + 1) / 2);
                vstd::arithmetic::div_mod::lemma_div_is_ordered(
                    prev_idx as int,
                    self@[prev_level].len() - 1,
                    2,
                );
                assert((self@[prev_level].len() - 1) / 2 + 1 == (self@[prev_level].len() + 1) / 2);
            }
        }
        proof {
            assert(values_of(sibs@) =~= pr);
        }
        Ok(sibs)
    }

    /// Pure proof check against a root: recomputes the path hash from
    /// `leaf` upward, consuming one sibling per level and choosing the
    /// concatenation order at each level from the bits of `index`, and
    /// compares the result with `root`. Needs no tree, only the root.
    #[verifier::loop_isolation(false)]
    pub fn verify_proof(
        compressor: &C,
        root: &Elem,
        leaf: &Elem,
        proof_elems: &Vec<Elem>,
        index: usize,
    ) -> (r: bool)
        requires
            leaf.valid(),
            forall|k: int| 0 <= k < proof_elems@.len() ==> (#[trigger] proof_elems@[k]).valid(),
        ensures
            r == (spec_climb(*compressor, leaf@, values_of(proof_elems@), index as nat) == root@),
    {
        let ghost pv = values_of(proof_elems@);
        let mut acc: Elem = *leaf;
        let mut idx: usize = index;
        let mut k: usize = 0;
        proof {
            assert(pv.skip(0) =~= pv);
        }
        while k < proof_elems.len()
            invariant
                k <= proof_elems@.len(),
                acc.valid(),
                spec_climb(*compressor, leaf@, pv, index as nat) == spec_climb(
                    *compressor,
                    acc@,
                    pv.skip(k as int),
                    idx as nat,
                ),
            decreases proof_elems@.len() - k,
        {
            let sib = proof_elems[k];
            let h = if idx % 2 == 0 {
                compressor.compress(&acc, &sib)
            } else {
                compressor.compress(&sib, &acc)
            };
            proof {
                assert(pv.skip(k as int)[0] == sib@);
                assert(pv.skip(k as int).skip(1) =~= pv.skip(k as int + 1));
            }
            acc = h;
            idx = idx / 2;
            k = k + 1;
        }
        proof {
            assert(pv.skip(k as int) =~= Seq::<nat>::empty());
            if acc@ == root@ {
                crate::elem::lemma_value_injective(acc, *root);
            }
        }
        acc == *root
    }

    /// Rebuilds every level bottom-up from the current leaves: the full,
    /// non-incremental path.
    pub fn rebuild_tree(&mut self)
        requires
            old(self).is_built(),
            old(self)@[0].len() >= 1,
            all_valid(old(self)@),
        ensures
            final(self).compressor == old(self).compressor,
            final(self)@ == build_levels(old(self).compressor, old(self)@[0]),
            final(self).wf(),
            final(self).is_built(),
            linked(old(self).compressor, final(self)@),
    {
        let ghost c = self.compressor;
        let ghost orig = self@;
        let data = copy_level(&self.levels[0]);
        proof {
            assert(values_of(data@) =~= orig[0]);
            assert forall|i: int| 0 <= i < data@.len() implies (#[trigger] data@[i]).valid() by {
                assert(data@[i]@ == orig[0][i]);
                assert(orig[0][i] < field_modulus());
            }
        }
        self.levels = Vec::new();
        proof {
            assert(self@ =~= Seq::<Seq<nat>>::empty());
        }
        let _ = self.build_tree(data);
    }

    /// Appends a new leaf. An unbuilt tree becomes the one-leaf tree; a
    /// built tree gets the leaf appended to its leaves and every level
    /// rebuilt (the documented non-incremental path, never used for
    /// updates).
    pub fn add_leaf(&mut self, leaf: Elem)
        requires
            old(self).wf(),
            leaf.valid(),
        ensures
            final(self).compressor == old(self).compressor,
            final(self).wf(),
            final(self).is_built(),
            linked(old(self).compressor, final(self)@),
            old(self).is_built() ==> final(self)@ == build_levels(
                old(self).compressor,
                old(self)@[0].push(leaf@),
            ),
            !old(self).is_built() ==> final(self)@ == build_levels(
                old(self).compressor,
                seq![leaf@],
            ),
    {
        let ghost c = self.compressor;
        let ghost orig = self@;
        if self.levels.len() == 0 {
            let mut lvl: Vec<Elem> = Vec::new();
            lvl.push(leaf);
            self.levels.push(lvl);
            proof {
                assert(self@[0] =~= seq![leaf@]);
                assert(self@ =~= seq![seq![leaf@]]);
                assert(build_levels(c, seq![leaf@]) == seq![seq![leaf@]]);
            }
        } else {
            proof {
                lemma_shaped_nonempty(orig, 0);
            }
            let mut lvl0 = copy_level(&self.levels[0]);
            lvl0.push(leaf);
            self.levels.set(0, lvl0);
            proof {
                assert(self@[0] =~= orig[0].push(leaf@));
                assert forall|k: int| 0 < k < orig.len() implies #[trigger] self@[k]
                    == orig[k] by {}
                assert forall|k: int, j: int|
                    0 <= k < self@.len() && 0 <= j < self@[k].len() implies #[trigger] self@[k][j]
                    < field_modulus() by {
                    if k == 0 {
                        if j < orig[0].len() {
                            assert(self@[0][j] == orig[0][j]);
                            assert(orig[0][j] < field_modulus());
                        } else {
                            assert(self@[0][j] == leaf@);
                        }
                    } else {
                        assert(self@[k] == orig[k]);
                        assert(orig[k][j] < field_modulus());
                    }
                }
            }
            self.rebuild_tree();
        }
    }
}

/// An element-for-element copy of one level.
#[verifier::loop_isolation(false)]
fn copy_level(v: &Vec<Elem>) -> (r: Vec<Elem>)
    ensures
        r@ == v@,
{
    let mut r: Vec<Elem> = Vec::new();
    let mut i: usize = 0;
    while i < v.len()
        invariant
            i <= v@.len(),
            r@ == v@.take(i as int),
        decreases v@.len() - i,
    {
        let x = v[i];
        r.push(x);
        proof {
            assert(v@.take(i as int).push(v@[i as int]) =~= v@.take(i + 1));
        }
        i += 1;
    }
    proof {
        assert(v@.take(v@.len() as int) =~= v@);
    }
    r
}

} // verus!
