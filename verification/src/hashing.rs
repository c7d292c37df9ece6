use vstd::prelude::*;

use ark_ed_on_bls12_381::Fq;
use ark_ff::{BigInteger256, PrimeField};
use ark_sponge::poseidon::{PoseidonParameters, PoseidonSponge};
use ark_sponge::CryptographicSponge;

use crate::elem::Elem;

verus! {

/// The two-to-one compression primitive the tree engine is built on.
/// It is deterministic and order-sensitive, and is injected at engine
/// construction: the production sponge and a trivial stand-in both
/// satisfy it.
pub trait Compressor: Sized {
    /// What `compress` returns, as a function of the two input values.
    spec fn spec_compress(&self, a: nat, b: nat) -> nat;

    /// Compresses two valid domain elements into one valid element.
    fn compress(&self, a: &Elem, b: &Elem) -> (r: Elem)
        requires
            a.valid(),
            b.valid(),
        ensures
            r.valid(),
            r@ == self.spec_compress(a@, b@),
    ;
}

/// A trivial, fully computable stand-in for the compression primitive:
/// an order-sensitive affine combination of the inputs' low 31 bits.
/// It is for exercising the engine, not for security.
#[derive(Clone, Copy, Debug, PartialEq, Eq, Structural)]
pub struct TestCompressor;

impl Compressor for TestCompressor {
    open spec fn spec_compress(&self, a: nat, b: nat) -> nat {
        (2 * (a % 0x80000000nat) + 3 * (b % 0x80000000nat) + 5) as nat
    }

    fn compress(&self, a: &Elem, b: &Elem) -> (r: Elem) {
        proof {
            reveal(crate::elem::limbs_val);
            lemma_low_bits_mod(*a);
            lemma_low_bits_mod(*b);
        }
        let x: u64 = a.l0 % 0x8000_0000u64;
        let y: u64 = b.l0 % 0x8000_0000u64;
        Elem { l0: 2 * x + 3 * y + 5, l1: 0, l2: 0, l3: 0 }
    }
}

/// An element's value modulo 2^31 is its lowest limb modulo 2^31: the
/// three higher limbs contribute only multiples of 2^31.
proof fn lemma_low_bits_mod(e: Elem)
    ensures
        e@ % 0x80000000nat == (e.l0 as nat) % 0x80000000nat,
{
    reveal(crate::elem::limbs_val);
    let k: nat = 0x80000000nat;
    let m: nat = (e.l1 * 0x200000000nat + e.l2 * 0x2000000000000000000000000nat + e.l3
        * 0x20000000000000000000000000000000000000000nat) as nat;
    assert(0x80000000nat * ((e.l1 * 0x200000000nat + e.l2 * 0x2000000000000000000000000nat
        + e.l3 * 0x20000000000000000000000000000000000000000nat) as nat) == e.l1
        * 0x10000000000000000nat + e.l2 * 0x100000000000000000000000000000000nat + e.l3
        * 0x1000000000000000000000000000000000000000000000000nat) by (nonlinear_arith);
    assert(e@ == k * m + e.l0);
    assert((k * m + (e.l0 as nat)) % k == (e.l0 as nat) % k) by {
        vstd::arithmetic::div_mod::lemma_mod_multiples_vanish(m as int, e.l0 as int, k as int);
    }
}

/// What the Poseidon two-to-one compression returns. The sponge
/// configuration is fixed inside the adapter, so the result is a function
/// of the two input values alone.
pub uninterp spec fn poseidon_compress_of(a: nat, b: nat) -> nat;

/// Relies on ark_sponge's PoseidonSponge over ark_ed_on_bls12_381::Fq:
/// absorbing two field elements and squeezing one is deterministic in the
/// inputs and the (fixed) parameters. ark_ff's from_repr accepts exactly
/// the reduced representatives, and into_repr returns one, so the result
/// is again a valid element.
#[verifier::external_body]
fn poseidon_hash_pair(a: &Elem, b: &Elem) -> (r: Elem)
    requires
        a.valid(),
        b.valid(),
    ensures
        r.valid(),
        r@ == poseidon_compress_of(a@, b@),
{
    let params = PoseidonParameters::new(8, 57, 5,
        vec![vec![Fq::from(1u64); 3]; 3], vec![vec![Fq::from(0u64); 3]; 65]);
    let mut sponge = PoseidonSponge::<Fq>::new(&params);
    sponge.absorb(&Fq::from_repr(BigInteger256::new([a.l0, a.l1, a.l2, a.l3])).unwrap());
    sponge.absorb(&Fq::from_repr(BigInteger256::new([b.l0, b.l1, b.l2, b.l3])).unwrap());
    let limbs = sponge.squeeze_field_elements::<Fq>(1)[0].into_repr().0;
    Elem { l0: limbs[0], l1: limbs[1], l2: limbs[2], l3: limbs[3] }
}

/// The production compression primitive: the Poseidon sponge over the
/// embedded field, behind the `Compressor` contract.
#[derive(Clone, Copy, Debug, PartialEq, Eq, Structural)]
pub struct PoseidonCompressor;

impl Compressor for PoseidonCompressor {
    open spec fn spec_compress(&self, a: nat, b: nat) -> nat {
        poseidon_compress_of(a, b)
    }

    fn compress(&self, a: &Elem, b: &Elem) -> (r: Elem) {
        poseidon_hash_pair(a, b)
    }
}

} // verus!
