use vstd::prelude::*;

use crate::elem::{field_modulus, limbs_val, Elem};
use crate::errors::CanvasError;
use crate::hashing::Compressor;
use crate::tree::{all_valid, shaped, MerkleTree};

verus! {

/// A tree in transport form: one byte sequence per element, one sequence
/// of byte sequences per level, leaves first.
pub type SerializedMerkleTree = Vec<Vec<Vec<u8>>>;

/// The integer a little-endian byte sequence stands for.
pub open spec fn le_val(b: Seq<u8>) -> nat
    decreases b.len(),
{
    if b.len() == 0 {
        0
    } else {
        b[0] as nat + 256 * le_val(b.skip(1))
    }
}

/// 256 to the `n`: the weight of the byte at position `n`.
pub open spec fn pow256(n: nat) -> nat
    decreases n,
{
    if n == 0 {
        1
    } else {
        256 * pow256((n - 1) as nat)
    }
}

/// The eight little-endian bytes of one limb.
#[verifier::opaque]
pub open spec fn limb_bytes(x: u64) -> Seq<u8> {
    seq![
        (x % 0x100) as u8,
        ((x / 0x100) % 0x100) as u8,
        ((x / 0x10000) % 0x100) as u8,
        ((x / 0x1000000) % 0x100) as u8,
        ((x / 0x100000000) % 0x100) as u8,
        ((x / 0x10000000000) % 0x100) as u8,
        ((x / 0x1000000000000) % 0x100) as u8,
        ((x / 0x100000000000000) % 0x100) as u8,
    ]
}

/// The canonical 32-byte wire form of an element value: the four limbs'
/// bytes, lowest limb first.
#[verifier::opaque]
pub open spec fn le_bytes32(v: nat) -> Seq<u8> {
    limb_bytes((v % 0x10000000000000000nat) as u64) + (limb_bytes(
        ((v / 0x10000000000000000nat) % 0x10000000000000000nat) as u64,
    ) + (limb_bytes(
        ((v / 0x10000000000000000nat / 0x10000000000000000nat) % 0x10000000000000000nat) as u64,
    ) + limb_bytes((v / 0x10000000000000000nat / 0x10000000000000000nat / 0x10000000000000000nat) as u64)))
}

/// A single element's wire form is well formed: 32 bytes standing for a
/// value inside the field's range.
pub open spec fn elem_wire_ok(b: Seq<u8>) -> bool {
    b.len() == 32 && le_val(b) < field_modulus()
}

/// The byte payload of a whole serialized tree.
pub open spec fn wire_view(d: Seq<Vec<Vec<u8>>>) -> Seq<Seq<Seq<u8>>> {
    Seq::new(d.len(), |i: int| Seq::new(d[i]@.len(), |j: int| d[i]@[j]@))
}

/// The canonical wire form of a whole tree.
pub open spec fn spec_encode(levels: Seq<Seq<nat>>) -> Seq<Seq<Seq<u8>>> {
    Seq::new(levels.len(), |i: int| Seq::new(levels[i].len(), |j: int| le_bytes32(levels[i][j])))
}

/// The values a wire payload stands for.
pub open spec fn decoded_values(d: Seq<Seq<Seq<u8>>>) -> Seq<Seq<nat>> {
    Seq::new(d.len(), |i: int| Seq::new(d[i].len(), |j: int| le_val(d[i][j])))
}

/// Whether a wire payload decodes: every element is a well-formed
/// encoding, the level lengths halve upward, and a nonempty payload ends
/// in a single root element.
pub open spec fn wire_ok(d: Seq<Seq<Seq<u8>>>) -> bool {
    &&& forall|i: int| 0 <= i < d.len() - 1 ==> (#[trigger] d[i + 1]).len() == (d[i].len() + 1) / 2
    &&& d.len() > 0 ==> d[d.len() - 1].len() == 1
    &&& forall|i: int, j: int| 0 <= i < d.len() && 0 <= j < d[i].len() ==> elem_wire_ok(#[trigger] d[i][j])
}

/// Concatenation splits a little-endian reading: the left part counts as
/// is and the right part is weighted by the left part's width.
proof fn lemma_le_val_concat(a: Seq<u8>, b: Seq<u8>)
    ensures
        le_val(a + b) == le_val(a) + pow256(a.len()) * le_val(b),
    decreases a.len(),
{
    if a.len() == 0 {
        assert(a + b =~= b);
        assert(le_val(a) == 0);
        assert(pow256(0) == 1);
    } else {
        lemma_le_val_concat(a.skip(1), b);
        assert((a + b).skip(1) =~= a.skip(1) + b);
        assert((a + b)[0] == a[0]);
        assert(le_val(a + b) == (a + b)[0] + 256 * le_val((a + b).skip(1)));
        assert(le_val(a) == a[0] + 256 * le_val(a.skip(1)));
        assert(256 * (le_val(a.skip(1)) + pow256(a.skip(1).len()) * le_val(b)) == 256 * le_val(
            a.skip(1),
        ) + (256 * pow256(a.skip(1).len())) * le_val(b)) by (nonlinear_arith);
        assert(pow256(a.len()) == 256 * pow256((a.len() - 1) as nat));
    }
}

/// Reading any eight bytes little-endian is the weighted byte sum.
proof fn lemma_le_val8(s: Seq<u8>)
    requires
        s.len() == 8,
    ensures
        le_val(s) == s[0] + 0x100 * (s[1] as nat) + 0x10000 * (s[2] as nat) + 0x1000000 * (
        s[3] as nat) + 0x100000000 * (s[4] as nat) + 0x10000000000 * (s[5] as nat)
            + 0x1000000000000 * (s[6] as nat) + 0x100000000000000 * (s[7] as nat),
{
    let s1 = s.skip(1);
    let s2 = s.skip(2);
    let s3 = s.skip(3);
    let s4 = s.skip(4);
    let s5 = s.skip(5);
    let s6 = s.skip(6);
    let s7 = s.skip(7);
    let s8 = s.skip(8);
    assert(s1.skip(1) =~= s2);
    assert(s2.skip(1) =~= s3);
    assert(s3.skip(1) =~= s4);
    assert(s4.skip(1) =~= s5);
    assert(s5.skip(1) =~= s6);
    assert(s6.skip(1) =~= s7);
    assert(s7.skip(1) =~= s8);
    assert(s8.len() == 0);
    assert(le_val(s) == s[0] + 256 * le_val(s1));
    assert(le_val(s1) == s[1] + 256 * le_val(s2));
    assert(le_val(s2) == s[2] + 256 * le_val(s3));
    assert(le_val(s3) == s[3] + 256 * le_val(s4));
    assert(le_val(s4) == s[4] + 256 * le_val(s5));
    assert(le_val(s5) == s[5] + 256 * le_val(s6));
    assert(le_val(s6) == s[6] + 256 * le_val(s7));
    assert(le_val(s7) == s[7] + 256 * le_val(s8));
    assert(le_val(s8) == 0);
}

/// Reading back the eight little-endian bytes of a limb gives the limb.
proof fn lemma_limb_bytes_val(x: u64)
    ensures
        limb_bytes(x).len() == 8,
        le_val(limb_bytes(x)) == x,
{
    reveal(limb_bytes);
    let s = limb_bytes(x);
    lemma_le_val8(s);
    assert(x == (x % 0x100) + 0x100 * ((x / 0x100) % 0x100) + 0x10000 * ((x / 0x10000) % 0x100)
        + 0x1000000 * ((x / 0x1000000) % 0x100) + 0x100000000 * ((x / 0x100000000) % 0x100)
        + 0x10000000000 * ((x / 0x10000000000) % 0x100) + 0x1000000000000 * ((x / 0x1000000000000)
        % 0x100) + 0x100000000000000 * ((x / 0x100000000000000) % 0x100)) by (bit_vector);
}

/// 256^8 is the limb weight 2^64.
proof fn lemma_pow256_8()
    ensures
        pow256(8) == 0x10000000000000000nat,
{
    reveal_with_fuel(pow256, 9);
}

/// An element value against its four limbs: the iterated quotients and
/// remainders by 2^64 recover exactly the limbs.
proof fn lemma_limb_decompose(e: Elem)
    ensures
        e@ % 0x10000000000000000nat == e.l0,
        (e@ / 0x10000000000000000nat) % 0x10000000000000000nat == e.l1,
        (e@ / 0x10000000000000000nat / 0x10000000000000000nat) % 0x10000000000000000nat == e.l2,
        e@ / 0x10000000000000000nat / 0x10000000000000000nat / 0x10000000000000000nat == e.l3,
{
    reveal(limbs_val);
    let k: int = 0x10000000000000000;
    let ra: int = e.l1 + e.l2 * 0x10000000000000000 + e.l3
        * 0x100000000000000000000000000000000;
    assert(e@ as int == ra * k + e.l0);
    vstd::arithmetic::div_mod::lemma_fundamental_div_mod_converse_div(e@ as int, k, ra, e.l0 as int);
    vstd::arithmetic::div_mod::lemma_fundamental_div_mod_converse_mod(e@ as int, k, ra, e.l0 as int);
    let sa: int = e.l2 + e.l3 * 0x10000000000000000;
    assert(ra == sa * k + e.l1);
    vstd::arithmetic::div_mod::lemma_fundamental_div_mod_converse_div(ra, k, sa, e.l1 as int);
    vstd::arithmetic::div_mod::lemma_fundamental_div_mod_converse_mod(ra, k, sa, e.l1 as int);
    assert(sa == e.l3 * k + e.l2);
    vstd::arithmetic::div_mod::lemma_fundamental_div_mod_converse_div(sa, k, e.l3 as int, e.l2 as int);
    vstd::arithmetic::div_mod::lemma_fundamental_div_mod_converse_mod(sa, k, e.l3 as int, e.l2 as int);
}

/// An element's wire form reads back to its value.
#[verifier::rlimit(100)]
proof fn lemma_le_bytes32_of_elem(e: Elem)
    ensures
        le_bytes32(e@) == limb_bytes(e.l0) + (limb_bytes(e.l1) + (limb_bytes(e.l2) + limb_bytes(
            e.l3,
        ))),
        le_bytes32(e@).len() == 32,
        le_val(le_bytes32(e@)) == e@,
{
    reveal(le_bytes32);
    lemma_limb_decompose(e);
    lemma_limb_bytes_val(e.l0);
    lemma_limb_bytes_val(e.l1);
    lemma_limb_bytes_val(e.l2);
    lemma_limb_bytes_val(e.l3);
    lemma_pow256_8();
    let b0 = limb_bytes(e.l0);
    let b1 = limb_bytes(e.l1);
    let b2 = limb_bytes(e.l2);
    let b3 = limb_bytes(e.l3);
    lemma_le_val_concat(b2, b3);
    lemma_le_val_concat(b1, b2 + b3);
    lemma_le_val_concat(b0, b1 + (b2 + b3));
    assert(b1 + (b2 + b3) =~= (b1 + b2) + b3);
    assert(b0 + (b1 + (b2 + b3)) =~= le_bytes32(e@));
    assert(le_val(b2 + b3) == e.l2 + 0x10000000000000000nat * e.l3);
    assert(le_val(b1 + (b2 + b3)) == e.l1 + 0x10000000000000000nat * (e.l2
        + 0x10000000000000000nat * e.l3));
    assert(le_val(b0 + (b1 + (b2 + b3))) == e.l0 + 0x10000000000000000nat * (e.l1
        + 0x10000000000000000nat * (e.l2 + 0x10000000000000000nat * e.l3)));
    assert(0x10000000000000000nat * (e.l1 + 0x10000000000000000nat * (e.l2
        + 0x10000000000000000nat * e.l3)) == e.l1 * 0x10000000000000000nat + e.l2
        * 0x100000000000000000000000000000000nat + e.l3
        * 0x1000000000000000000000000000000000000000000000000nat) by (nonlinear_arith);
    reveal(limbs_val);
    assert(le_val(le_bytes32(e@)) == limbs_val(e.l0, e.l1, e.l2, e.l3));
}

/// Appends the eight little-endian bytes of one limb.
fn push_limb(out: &mut Vec<u8>, x: u64)
    ensures
        final(out)@ == old(out)@ + limb_bytes(x),
{
    out.push((x % 0x100) as u8);
    out.push(((x / 0x100) % 0x100) as u8);
    out.push(((x / 0x10000) % 0x100) as u8);
    out.push(((x / 0x1000000) % 0x100) as u8);
    out.push(((x / 0x100000000) % 0x100) as u8);
    out.push(((x / 0x10000000000) % 0x100) as u8);
    out.push(((x / 0x1000000000000) % 0x100) as u8);
    out.push(((x / 0x100000000000000) % 0x100) as u8);
    proof {
        reveal(limb_bytes);
        assert(out@ =~= old(out)@ + limb_bytes(x));
    }
}

/// One element to its canonical wire form: 32 little-endian bytes.
fn elem_to_bytes(e: &Elem) -> (r: Vec<u8>)
    ensures
        r@ == le_bytes32(e@),
        r@.len() == 32,
        le_val(r@) == e@,
{
    let mut out: Vec<u8> = Vec::new();
    push_limb(&mut out, e.l0);
    push_limb(&mut out, e.l1);
    push_limb(&mut out, e.l2);
    push_limb(&mut out, e.l3);
    proof {
        lemma_le_bytes32_of_elem(*e);
        assert(out@ =~= limb_bytes(e.l0) + (limb_bytes(e.l1) + (limb_bytes(e.l2) + limb_bytes(
            e.l3,
        ))));
    }
    out
}

/// Reads one limb from eight little-endian bytes.
fn read_limb(b: &Vec<u8>, start: usize) -> (x: u64)
    requires
        start + 8 <= b@.len(),
        b@.len() <= usize::MAX,
    ensures
        x == le_val(b@.subrange(start as int, start as int + 8)),
{
    let x: u64 = (b[start] as u64) + (b[start + 1] as u64) * 0x100 + (b[start + 2] as u64)
        * 0x10000 + (b[start + 3] as u64) * 0x1000000 + (b[start + 4] as u64) * 0x100000000 + (
    b[start + 5] as u64) * 0x10000000000 + (b[start + 6] as u64) * 0x1000000000000 + (b[start
        + 7] as u64) * 0x100000000000000;
    proof {
        let s = b@.subrange(start as int, start as int + 8);
        lemma_le_val8(s);
        assert(s[0] == b@[start as int]);
        assert(s[1] == b@[start + 1]);
        assert(s[2] == b@[start + 2]);
        assert(s[3] == b@[start + 3]);
        assert(s[4] == b@[start + 4]);
        assert(s[5] == b@[start + 5]);
        assert(s[6] == b@[start + 6]);
        assert(s[7] == b@[start + 7]);
    }
    x
}

/// One element from its wire form: exactly 32 bytes standing for a value
/// inside the field's range; anything else is a decode failure.
fn elem_from_bytes(b: &Vec<u8>) -> (r: Result<Elem, CanvasError>)
    ensures
        elem_wire_ok(b@) ==> (r matches Ok(e) && e@ == le_val(b@) && e.valid()),
        !elem_wire_ok(b@) ==> r == Err::<Elem, CanvasError>(CanvasError::DecodeError),
{
    if b.len() != 32 {
        return Err(CanvasError::DecodeError);
    }
    let l0 = read_limb(b, 0);
    let l1 = read_limb(b, 8);
    let l2 = read_limb(b, 16);
    let l3 = read_limb(b, 24);
    proof {
        let s0 = b@.subrange(0, 8);
        let s1 = b@.subrange(8, 16);
        let s2 = b@.subrange(16, 24);
        let s3 = b@.subrange(24, 32);
        assert(b@ =~= s0 + (s1 + (s2 + s3)));
        lemma_le_val_concat(s2, s3);
        lemma_le_val_concat(s1, s2 + s3);
        lemma_le_val_concat(s0, s1 + (s2 + s3));
        lemma_pow256_8();
        assert(le_val(s2 + s3) == l2 + 0x10000000000000000nat * l3);
        assert(le_val(s1 + (s2 + s3)) == l1 + 0x10000000000000000nat * (l2
            + 0x10000000000000000nat * l3));
        assert(le_val(b@) == l0 + 0x10000000000000000nat * (l1 + 0x10000000000000000nat * (l2
            + 0x10000000000000000nat * l3)));
        reveal(limbs_val);
        assert(le_val(b@) == limbs_val(l0, l1, l2, l3));
    }
    if Elem::limbs_in_range(l0, l1, l2, l3) {
        Ok(Elem { l0, l1, l2, l3 })
    } else {
        Err(CanvasError::DecodeError)
    }
}

/// Serializes a tree to its transport form: each level in order, each
/// element as its canonical 32-byte encoding.
#[verifier::loop_isolation(false)]
pub fn serialize_merkle_tree<C: Compressor>(merkle_tree: MerkleTree<C>) -> (r:
    SerializedMerkleTree)
    ensures
        wire_view(r@) == spec_encode(merkle_tree@),
{
    let mut out: SerializedMerkleTree = Vec::new();
    let mut i: usize = 0;
    while i < merkle_tree.levels.len()
        invariant
            i <= merkle_tree.levels@.len(),
            wire_view(out@) == spec_encode(merkle_tree@).take(i as int),
        decreases merkle_tree.levels@.len() - i,
    {
        let level_len = merkle_tree.levels[i].len();
        let mut enc: Vec<Vec<u8>> = Vec::new();
        let mut j: usize = 0;
        while j < level_len
            invariant
                i < merkle_tree.levels@.len(),
                j <= level_len,
                level_len == merkle_tree.levels@[i as int]@.len(),
                wire_view(out@) == spec_encode(merkle_tree@).take(i as int),
                enc@.len() == j,
                forall|t: int| 0 <= t < j ==> #[trigger] enc@[t]@ == le_bytes32(
                    merkle_tree@[i as int][t],
                ),
            decreases level_len - j,
        {
            let e = merkle_tree.levels[i][j];
            let bytes = elem_to_bytes(&e);
            proof {
                assert(e@ == merkle_tree@[i as int][j as int]);
            }
            enc.push(bytes);
            j += 1;
        }
        out.push(enc);
        i += 1;
        proof {
            assert(wire_view(out@) =~~= spec_encode(merkle_tree@).take(i as int));
        }
    }
    proof {
        assert(spec_encode(merkle_tree@).take(spec_encode(merkle_tree@).len() as int)
            =~= spec_encode(merkle_tree@));
        assert(wire_view(out@) =~~= spec_encode(merkle_tree@));
    }
    out
}

/// Deserializes a tree from its transport form around the given
/// compression primitive. Succeeds exactly on well-formed payloads:
/// every element 32 in-range bytes, level lengths halving up to a single
/// root. An empty payload is the unbuilt tree.
#[verifier::loop_isolation(false)]
#[verifier::rlimit(60)]
pub fn deserialize_merkle_tree<C: Compressor>(compressor: C, data: &SerializedMerkleTree) -> (r:
    Result<MerkleTree<C>, CanvasError>)
    ensures
        wire_ok(wire_view(data@)) <==> r is Ok,
        r matches Ok(t) ==> t.compressor == compressor && t.wf() && t@ == decoded_values(
            wire_view(data@),
        ),
        !wire_ok(wire_view(data@)) ==> r == Err::<MerkleTree<C>, CanvasError>(
            CanvasError::DecodeError,
        ),
{
    let ghost w = wire_view(data@);
    let mut levels: Vec<Vec<Elem>> = Vec::new();
    let mut i: usize = 0;
    while i < data.len()
        invariant
            i <= data@.len(),
            levels@.len() == i,
            forall|k: int| 0 <= k < i ==> (#[trigger] levels@[k]@).len() == w[k].len(),
            forall|k: int, j: int|
                0 <= k < i && 0 <= j < w[k].len() ==> elem_wire_ok(#[trigger] w[k][j])
                    && levels@[k]@[j]@ == le_val(w[k][j]) && levels@[k]@[j]@ < field_modulus(),
            forall|k: int| 0 <= k < i - 1 ==> (#[trigger] w[k + 1]).len() == (w[k].len() + 1) / 2,
        decreases data@.len() - i,
    {
        if i >= 1 {
            let prev_len = data[i - 1].len();
            if data[i].len() != prev_len / 2 + prev_len % 2 {
                proof {
                    assert(w[(i - 1) as int + 1].len() != (w[(i - 1) as int].len() + 1) / 2);
                    assert(!wire_ok(w));
                }
                return Err(CanvasError::DecodeError);
            }
        }
        let level_len = data[i].len();
        let mut lvl: Vec<Elem> = Vec::new();
        let mut j: usize = 0;
        while j < level_len
            invariant
                i < data@.len(),
                j <= level_len,
                level_len == data@[i as int]@.len(),
                lvl@.len() == j,
                forall|t: int|
                    0 <= t < j ==> elem_wire_ok(w[i as int][t]) && (#[trigger] lvl@[t])@
                        == le_val(w[i as int][t]) && lvl@[t]@ < field_modulus(),
            decreases level_len - j,
        {
            let ghost lvl_entry = lvl@;
            let er = elem_from_bytes(&data[i][j]);
            proof {
                assert(w[i as int][j as int] == data@[i as int]@[j as int]@);
            }
            let e = match er {
                Ok(e) => e,
                Err(_) => {
                    proof {
                        assert(!elem_wire_ok(w[i as int][j as int]));
                        assert(!wire_ok(w));
                    }
                    return Err(CanvasError::DecodeError);
                },
            };
            lvl.push(e);
            j += 1;
            proof {
                assert(elem_wire_ok(w[i as int][j - 1]));
                assert(lvl@[j - 1]@ == le_val(w[i as int][j - 1]));
                assert(lvl@[j - 1]@ < field_modulus());
                assert(lvl@ == lvl_entry.push(lvl@[j - 1]));
                assert forall|t: int|
                    0 <= t < j implies elem_wire_ok(#[trigger] w[i as int][t]) && lvl@[t]@
                    == le_val(w[i as int][t]) && lvl@[t]@ < field_modulus() by {
                    if t < j - 1 {
                        assert(lvl@[t] == lvl_entry[t]);
                        assert(elem_wire_ok(w[i as int][t]) && lvl_entry[t]@ == le_val(
                            w[i as int][t],
                        ) && lvl_entry[t]@ < field_modulus());
                    }
                }
            }
        }
        let ghost lvl_snap = lvl@;
        levels.push(lvl);
        i += 1;
        proof {
            assert(levels@[i - 1]@ == lvl_snap);
            assert forall|j2: int|
                0 <= j2 < w[i - 1].len() implies elem_wire_ok(#[trigger] w[i - 1][j2]) && levels@[i
                - 1]@[j2]@ == le_val(w[i - 1][j2]) && levels@[i - 1]@[j2]@ < field_modulus() by {
                assert(lvl_snap[j2]@ == le_val(w[i - 1][j2]));
            }
        }
    }
    if data.len() > 0 {
        let last_len = data[data.len() - 1].len();
        if last_len != 1 {
            proof {
                assert(w[w.len() - 1].len() != 1);
                assert(!wire_ok(w));
            }
            return Err(CanvasError::DecodeError);
        }
    }
    let t = MerkleTree { compressor, levels };
    proof {
        assert(wire_ok(w));
        assert(t@ =~~= decoded_values(w));
        assert forall|k: int|
            0 <= k < t@.len() - 1 implies (#[trigger] t@[k + 1]).len() == (t@[k].len() + 1)
            / 2 by {
            assert(w[k + 1].len() == (w[k].len() + 1) / 2);
        }
        assert(shaped(t@));
        assert(all_valid(t@));
    }
    Ok(t)
}

/// Round trip: the canonical wire form of any well-formed tree is itself
/// well formed and decodes back to the same levels and the same values.
pub proof fn lemma_round_trip(levels: Seq<Seq<nat>>)
    requires
        shaped(levels),
        all_valid(levels),
    ensures
        wire_ok(spec_encode(levels)),
        decoded_values(spec_encode(levels)) == levels,
{
    let enc = spec_encode(levels);
    assert forall|i: int, j: int|
        0 <= i < enc.len() && 0 <= j < enc[i].len() implies elem_wire_ok(#[trigger] enc[i][j])
        && le_val(enc[i][j]) == levels[i][j] by {
        let v = levels[i][j];
        assert(v < field_modulus());
        lemma_le_bytes32_roundtrip(v);
    }
    assert forall|i: int| 0 <= i < enc.len() - 1 implies (#[trigger] enc[i + 1]).len() == (
    enc[i].len() + 1) / 2 by {
        assert(levels[i + 1].len() == (levels[i].len() + 1) / 2);
    }
    if enc.len() > 0 {
        assert(enc[enc.len() - 1].len() == levels[levels.len() - 1].len());
    }
    assert(decoded_values(enc) =~~= levels);
}

/// A value below the field modulus survives the 32-byte round trip.
proof fn lemma_le_bytes32_roundtrip(v: nat)
    requires
        v < field_modulus(),
    ensures
        le_bytes32(v).len() == 32,
        le_val(le_bytes32(v)) == v,
{
    let b: nat = 0x10000000000000000nat;
    let l0 = (v % b) as u64;
    let l1 = ((v / b) % b) as u64;
    let l2 = ((v / b / b) % b) as u64;
    let l3 = (v / b / b / b) as u64;
    assert(v % b < b);
    assert((v / b) % b < b);
    assert((v / b / b) % b < b);
    assert(v / b / b / b < b) by {
        vstd::arithmetic::div_mod::lemma_div_is_ordered(
            v as int,
            0xffffffffffffffffffffffffffffffffffffffffffffffffffffffffffffffffint,
            b as int,
        );
        vstd::arithmetic::div_mod::lemma_div_is_ordered(
            (v / b) as int,
            0xffffffffffffffffffffffffffffffffffffffffffffffffint,
            b as int,
        );
        vstd::arithmetic::div_mod::lemma_div_is_ordered(
            (v / b / b) as int,
            0xffffffffffffffffffffffffffffffffint,
            b as int,
        );
    }
    let e = Elem { l0, l1, l2, l3 };
    assert(e@ == v) by {
        reveal(limbs_val);
        vstd::arithmetic::div_mod::lemma_fundamental_div_mod(v as int, b as int);
        vstd::arithmetic::div_mod::lemma_fundamental_div_mod((v / b) as int, b as int);
        vstd::arithmetic::div_mod::lemma_fundamental_div_mod((v / b / b) as int, b as int);
    }
    lemma_le_bytes32_of_elem(e);
    lemma_limb_decompose(e);
    assert(le_bytes32(v) == le_bytes32(e@));
}

} // verus!
