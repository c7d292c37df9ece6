use vstd::prelude::*;

verus! {

/// The prime modulus of the compression function's scalar field.
pub open spec fn field_modulus() -> nat {
    0x73eda753299d7d483339d80809a1d80553bda402fffe5bfeffffffff00000001nat
}

/// Lowest 64-bit limb of the field modulus.
pub const MODULUS_LIMB_0: u64 = 0xffff_ffff_0000_0001;
/// Second 64-bit limb of the field modulus.
pub const MODULUS_LIMB_1: u64 = 0x53bd_a402_fffe_5bfe;
/// Third 64-bit limb of the field modulus.
pub const MODULUS_LIMB_2: u64 = 0x3339_d808_09a1_d805;
/// Highest 64-bit limb of the field modulus.
pub const MODULUS_LIMB_3: u64 = 0x73ed_a753_299d_7d48;

/// The integer that four little-endian 64-bit limbs stand for.
#[verifier::opaque]
pub open spec fn limbs_val(l0: u64, l1: u64, l2: u64, l3: u64) -> nat {
    (l0 + l1 * 0x10000000000000000nat + l2 * 0x100000000000000000000000000000000nat
        + l3 * 0x1000000000000000000000000000000000000000000000000nat) as nat
}

/// A domain element: a field value held as the four little-endian 64-bit
/// limbs of its canonical (reduced) integer representative.
#[derive(Clone, Copy, Debug, PartialEq, Eq, Structural)]
pub struct Elem {
    pub l0: u64,
    pub l1: u64,
    pub l2: u64,
    pub l3: u64,
}

impl View for Elem {
    type V = nat;

    open spec fn view(&self) -> nat {
        limbs_val(self.l0, self.l1, self.l2, self.l3)
    }
}

impl DeepView for Elem {
    type V = nat;

    open spec fn deep_view(&self) -> nat {
        self@
    }
}

impl Elem {
    /// An element is valid when its representative lies below the modulus.
    pub open spec fn valid(self) -> bool {
        self@ < field_modulus()
    }

    /// Embeds a cell value into the field: the value itself, reduced
    /// nowhere since it is far below the modulus.
    pub fn embed(value: u32) -> (r: Elem)
        ensures
            r@ == value,
            r.valid(),
    {
        proof {
            reveal(limbs_val);
        }
        Elem { l0: value as u64, l1: 0, l2: 0, l3: 0 }
    }

    /// Tests whether four limbs stand for an integer in the field's range.
    pub fn limbs_in_range(l0: u64, l1: u64, l2: u64, l3: u64) -> (r: bool)
        ensures
            r == (limbs_val(l0, l1, l2, l3) < field_modulus()),
    {
        proof {
            lemma_limbs_range_test(l0, l1, l2, l3);
        }
        l3 < MODULUS_LIMB_3 || (l3 == MODULUS_LIMB_3 && (l2 < MODULUS_LIMB_2 || (l2
            == MODULUS_LIMB_2 && (l1 < MODULUS_LIMB_1 || (l1 == MODULUS_LIMB_1 && l0
            < MODULUS_LIMB_0)))))
    }
}

/// Two elements with the same represented value have the same limbs: the
/// little-endian limb decomposition of an integer is unique.
pub proof fn lemma_value_injective(a: Elem, b: Elem)
    requires
        a@ == b@,
    ensures
        a == b,
{
    reveal(limbs_val);
    let k: int = 0x10000000000000000;
    let ra: int = a.l1 + a.l2 * 0x10000000000000000 + a.l3
        * 0x100000000000000000000000000000000;
    let rb: int = b.l1 + b.l2 * 0x10000000000000000 + b.l3
        * 0x100000000000000000000000000000000;
    assert(a@ as int == ra * k + a.l0);
    assert(b@ as int == rb * k + b.l0);
    vstd::arithmetic::div_mod::lemma_fundamental_div_mod_converse_div(a@ as int, k, ra, a.l0 as int);
    vstd::arithmetic::div_mod::lemma_fundamental_div_mod_converse_mod(a@ as int, k, ra, a.l0 as int);
    vstd::arithmetic::div_mod::lemma_fundamental_div_mod_converse_div(b@ as int, k, rb, b.l0 as int);
    vstd::arithmetic::div_mod::lemma_fundamental_div_mod_converse_mod(b@ as int, k, rb, b.l0 as int);
    assert(a.l0 == b.l0 && ra == rb);
    let sa: int = a.l2 + a.l3 * 0x10000000000000000;
    let sb: int = b.l2 + b.l3 * 0x10000000000000000;
    assert(ra == sa * k + a.l1);
    assert(rb == sb * k + b.l1);
    vstd::arithmetic::div_mod::lemma_fundamental_div_mod_converse_div(ra, k, sa, a.l1 as int);
    vstd::arithmetic::div_mod::lemma_fundamental_div_mod_converse_mod(ra, k, sa, a.l1 as int);
    vstd::arithmetic::div_mod::lemma_fundamental_div_mod_converse_div(rb, k, sb, b.l1 as int);
    vstd::arithmetic::div_mod::lemma_fundamental_div_mod_converse_mod(rb, k, sb, b.l1 as int);
    assert(a.l1 == b.l1 && sa == sb);
    assert(sa == a.l3 * k + a.l2);
    assert(sb == b.l3 * k + b.l2);
    vstd::arithmetic::div_mod::lemma_fundamental_div_mod_converse_div(sa, k, a.l3 as int, a.l2 as int);
    vstd::arithmetic::div_mod::lemma_fundamental_div_mod_converse_mod(sa, k, a.l3 as int, a.l2 as int);
    vstd::arithmetic::div_mod::lemma_fundamental_div_mod_converse_div(sb, k, b.l3 as int, b.l2 as int);
    vstd::arithmetic::div_mod::lemma_fundamental_div_mod_converse_mod(sb, k, b.l3 as int, b.l2 as int);
    assert(a.l2 == b.l2 && a.l3 == b.l3);
}

/// The limb-by-limb lexicographic comparison against the modulus limbs,
/// highest limb first, agrees with comparing the represented integers.
proof fn lemma_limbs_range_test(l0: u64, l1: u64, l2: u64, l3: u64)
    ensures
        (limbs_val(l0, l1, l2, l3) < field_modulus()) == (l3 < MODULUS_LIMB_3 || (l3
            == MODULUS_LIMB_3 && (l2 < MODULUS_LIMB_2 || (l2 == MODULUS_LIMB_2 && (l1
            < MODULUS_LIMB_1 || (l1 == MODULUS_LIMB_1 && l0 < MODULUS_LIMB_0)))))),
{
    reveal(limbs_val);
    let b1: nat = 0x10000000000000000nat;
    let b2: nat = 0x100000000000000000000000000000000nat;
    let b3: nat = 0x1000000000000000000000000000000000000000000000000nat;
    let v: nat = limbs_val(l0, l1, l2, l3);
    assert(field_modulus() == MODULUS_LIMB_0 + MODULUS_LIMB_1 * b1 + MODULUS_LIMB_2 * b2
        + MODULUS_LIMB_3 * b3);
    if l3 < MODULUS_LIMB_3 {
        assert(l3 * b3 <= (MODULUS_LIMB_3 - 1) * b3);
        assert(v < field_modulus());
    } else if l3 > MODULUS_LIMB_3 {
        assert(l3 * b3 >= (MODULUS_LIMB_3 + 1) * b3);
        assert(v >= field_modulus());
    } else {
        if l2 < MODULUS_LIMB_2 {
            assert(l2 * b2 <= (MODULUS_LIMB_2 - 1) * b2);
            assert(v < field_modulus());
        } else if l2 > MODULUS_LIMB_2 {
            assert(l2 * b2 >= (MODULUS_LIMB_2 + 1) * b2);
            assert(v >= field_modulus());
        } else {
            if l1 < MODULUS_LIMB_1 {
                assert(l1 * b1 <= (MODULUS_LIMB_1 - 1) * b1);
                assert(v < field_modulus());
            } else if l1 > MODULUS_LIMB_1 {
                assert(l1 * b1 >= (MODULUS_LIMB_1 + 1) * b1);
                assert(v >= field_modulus());
            } else {
                assert((v < field_modulus()) == (l0 < MODULUS_LIMB_0));
            }
        }
    }
}

} // verus!
