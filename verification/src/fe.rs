//! Elements of the scalar field of the BN254 curve.
//!
//! An element is kept in its canonical little-endian 64-bit limb
//! representation, so the integer it stands for is always below the field's
//! modulus. Addition, multiplication and negation go through `ark_bn254::Fr`;
//! everything else is verified against the integer value of the limbs.

use ark_ff::PrimeField;
use vstd::arithmetic::div_mod::{lemma_mod_bound, lemma_small_mod};
use vstd::prelude::*;

verus! {

/// The modulus of the field: the prime
/// 21888242871839275222246405745257275088548364400416034343698204186575808495617.
pub open spec fn modulus() -> int {
    4891460686036598785int + 2896914383306846353int * 0x10000000000000000
        + 13281191951274694749int * 0x10000000000000000 * 0x10000000000000000
        + 3486998266802970665int * 0x10000000000000000 * 0x10000000000000000
        * 0x10000000000000000
}

/// A field element, as the canonical four-limb representation of its value.
#[derive(Clone, Copy, Debug, PartialEq, Eq, Structural)]
pub struct Fe {
    pub l0: u64,
    pub l1: u64,
    pub l2: u64,
    pub l3: u64,
}

/// The element that stands for zero.
pub open spec fn fe_zero() -> Fe {
    Fe { l0: 0, l1: 0, l2: 0, l3: 0 }
}

/// The element that stands for one.
pub open spec fn fe_one() -> Fe {
    Fe { l0: 1, l1: 0, l2: 0, l3: 0 }
}

/// The element that stands for minus one: the modulus less one, in canonical
/// limbs.
pub open spec fn fe_minus_one_spec() -> Fe {
    Fe {
        l0: 4891460686036598784,
        l1: 2896914383306846353,
        l2: 13281191951274694749,
        l3: 3486998266802970665,
    }
}

impl Fe {
    /// The integer the limbs stand for.
    pub open spec fn val(self) -> int {
        self.l0 as int + self.l1 as int * 0x10000000000000000
            + self.l2 as int * 0x10000000000000000 * 0x10000000000000000
            + self.l3 as int * 0x10000000000000000 * 0x10000000000000000 * 0x10000000000000000
    }

    /// The representation is canonical: the value lies below the modulus.
    pub open spec fn wf(self) -> bool {
        self.val() < modulus()
    }

    /// The additive identity.
    pub fn zero() -> (r: Fe)
        ensures
            r == fe_zero(),
            r.wf(),
            r.val() == 0,
    {
        Fe { l0: 0, l1: 0, l2: 0, l3: 0 }
    }

    /// The multiplicative identity.
    pub fn one() -> (r: Fe)
        ensures
            r == fe_one(),
            r.wf(),
            r.val() == 1,
    {
        Fe { l0: 1, l1: 0, l2: 0, l3: 0 }
    }

    /// Embeds a machine integer, which is always below the modulus.
    pub fn from_u64(x: u64) -> (r: Fe)
        ensures
            r.wf(),
            r.val() == x,
    {
        Fe { l0: x, l1: 0, l2: 0, l3: 0 }
    }

    /// Whether this element is zero.
    pub fn is_zero(&self) -> (r: bool)
        ensures
            r <==> self.val() == 0,
    {
        self.l0 == 0 && self.l1 == 0 && self.l2 == 0 && self.l3 == 0
    }
}

/// The value is non-negative, whatever the limbs.
pub proof fn lemma_fe_val_nonneg(a: Fe)
    ensures
        a.val() >= 0,
{
}

/// Two canonical representations of the same value have the same limbs.
pub proof fn lemma_fe_val_injective(a: Fe, b: Fe)
    requires
        a.val() == b.val(),
    ensures
        a == b,
{
    let base = 0x10000000000000000int;
    assert(a.l0 == b.l0 && a.l1 == b.l1 && a.l2 == b.l2 && a.l3 == b.l3) by {
        assert(a.l0 as int + base * (a.l1 as int + base * (a.l2 as int + base * a.l3 as int))
            == b.l0 as int + base * (b.l1 as int + base * (b.l2 as int + base * b.l3 as int)));
    };
}

/// Relies on `ark_bn254::Fr` (`ark_ff`'s prime-field arithmetic): the sum of
/// two canonical field elements is addition of their values modulo the prime.
#[verifier::external_body]
pub fn fe_add(a: Fe, b: Fe) -> (r: Fe)
    requires
        a.wf(),
        b.wf(),
    ensures
        r.wf(),
        r.val() == (a.val() + b.val()) % modulus(),
{
    let x = ark_bn254::Fr::from_bigint(ark_ff::BigInt::new([a.l0, a.l1, a.l2, a.l3])).unwrap();
    let y = ark_bn254::Fr::from_bigint(ark_ff::BigInt::new([b.l0, b.l1, b.l2, b.l3])).unwrap();
    let s = ark_ff::PrimeField::into_bigint(x + y).0;
    Fe { l0: s[0], l1: s[1], l2: s[2], l3: s[3] }
}

/// Relies on `ark_bn254::Fr` (`ark_ff`'s prime-field arithmetic): the product
/// of two canonical field elements is multiplication of their values modulo
/// the prime.
#[verifier::external_body]
pub fn fe_mul(a: Fe, b: Fe) -> (r: Fe)
    requires
        a.wf(),
        b.wf(),
    ensures
        r.wf(),
        r.val() == (a.val() * b.val()) % modulus(),
{
    let x = ark_bn254::Fr::from_bigint(ark_ff::BigInt::new([a.l0, a.l1, a.l2, a.l3])).unwrap();
    let y = ark_bn254::Fr::from_bigint(ark_ff::BigInt::new([b.l0, b.l1, b.l2, b.l3])).unwrap();
    let s = ark_ff::PrimeField::into_bigint(x * y).0;
    Fe { l0: s[0], l1: s[1], l2: s[2], l3: s[3] }
}

/// Relies on `ark_bn254::Fr` (`ark_ff`'s prime-field arithmetic): the negation
/// of a canonical field element is the modulus minus its value, reduced modulo
/// the prime.
#[verifier::external_body]
pub fn fe_neg(a: Fe) -> (r: Fe)
    requires
        a.wf(),
    ensures
        r.wf(),
        r.val() == (modulus() - a.val()) % modulus(),
{
    let x = ark_bn254::Fr::from_bigint(ark_ff::BigInt::new([a.l0, a.l1, a.l2, a.l3])).unwrap();
    let s = ark_ff::PrimeField::into_bigint(-x).0;
    Fe { l0: s[0], l1: s[1], l2: s[2], l3: s[3] }
}

/// The difference of two field elements.
pub fn fe_sub(a: Fe, b: Fe) -> (r: Fe)
    requires
        a.wf(),
        b.wf(),
    ensures
        r.wf(),
        r.val() == (a.val() - b.val()) % modulus(),
{
    let nb = fe_neg(b);
    let r = fe_add(a, nb);
    proof {
        let p = modulus();
        lemma_fe_val_nonneg(b);
        if b.val() == 0 {
            assert((p - b.val()) % p == 0) by {
                vstd::arithmetic::div_mod::lemma_mod_self_0(p);
            };
            assert((a.val() + 0) % p == a.val() % p);
            lemma_small_mod(a.val() as nat, p as nat);
        } else {
            lemma_small_mod((p - b.val()) as nat, p as nat);
            assert(r.val() == (a.val() + (p - b.val())) % p);
            assert((a.val() + (p - b.val())) % p == (a.val() - b.val()) % p) by {
                vstd::arithmetic::div_mod::lemma_mod_add_multiples_vanish(
                    a.val() - b.val(),
                    p,
                );
            };
        }
    }
    r
}

/// The element that stands for minus one: scaling by it negates a value
/// modulo the prime.
pub fn fe_minus_one() -> (r: Fe)
    ensures
        r == fe_minus_one_spec(),
        r.wf(),
        r.val() == modulus() - 1,
{
    Fe {
        l0: 4891460686036598784,
        l1: 2896914383306846353,
        l2: 13281191951274694749,
        l3: 3486998266802970665,
    }
}

} // verus!
