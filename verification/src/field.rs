//! Elements of the BN254 scalar field.
//!
//! An element is held as the four 64-bit words of its canonical
//! representative, the integer in `0..modulus()`. The arithmetic itself is
//! done by `ark_ff` on `ark_bn254::Fr`; this module states what each
//! operation returns as an integer modulo the field order.

use vstd::arithmetic::power::pow;
use vstd::prelude::*;

verus! {

/// The order of the field: the prime `r` of the BN254 scalar field.
pub open spec fn modulus() -> nat {
    21888242871839275222246405745257275088548364400416034343698204186575808495617nat
}

/// The number that four 64-bit words stand for, least significant word first.
pub open spec fn words_value(w0: u64, w1: u64, w2: u64, w3: u64) -> nat {
    (w0 + w1 * 0x1_0000_0000_0000_0000 + w2 * 0x1_0000_0000_0000_0000_0000_0000_0000_0000 + w3
        * 0x1_0000_0000_0000_0000_0000_0000_0000_0000_0000_0000_0000_0000) as nat
}

/// The values of a sequence of field elements, as integers.
pub open spec fn values(s: Seq<FieldElement>) -> Seq<int> {
    s.map_values(|e: FieldElement| e@ as int)
}

/// A field element. Its view is its canonical representative, a natural
/// number below `modulus()`.
#[derive(Clone, Copy, Debug, PartialEq, Eq, Structural)]
pub struct FieldElement {
    w0: u64,
    w1: u64,
    w2: u64,
    w3: u64,
}

impl View for FieldElement {
    type V = nat;

    closed spec fn view(&self) -> nat {
        words_value(self.w0, self.w1, self.w2, self.w3)
    }
}

/// Elements with the same value are the same element.
pub proof fn lemma_value_determines_element(a: FieldElement, b: FieldElement)
    requires
        a@ == b@,
    ensures
        a == b,
{
    let ha1 = a.w1 + a.w2 * 0x1_0000_0000_0000_0000 + a.w3
        * 0x1_0000_0000_0000_0000_0000_0000_0000_0000;
    let hb1 = b.w1 + b.w2 * 0x1_0000_0000_0000_0000 + b.w3
        * 0x1_0000_0000_0000_0000_0000_0000_0000_0000;
    assert(a.w0 + ha1 * 0x1_0000_0000_0000_0000 == b.w0 + hb1 * 0x1_0000_0000_0000_0000);
    assert(ha1 == hb1);
    let ha2 = a.w2 + a.w3 * 0x1_0000_0000_0000_0000;
    let hb2 = b.w2 + b.w3 * 0x1_0000_0000_0000_0000;
    assert(a.w1 + ha2 * 0x1_0000_0000_0000_0000 == b.w1 + hb2 * 0x1_0000_0000_0000_0000);
    assert(ha2 == hb2);
}

impl FieldElement {
    /// Every element is held in canonical form.
    #[verifier::type_invariant]
    pub open spec fn canonical(self) -> bool {
        self@ < modulus()
    }

    /// The additive identity.
    pub fn zero() -> (r: Self)
        ensures
            r@ == 0,
    {
        FieldElement { w0: 0, w1: 0, w2: 0, w3: 0 }
    }

    /// The multiplicative identity.
    pub fn one() -> (r: Self)
        ensures
            r@ == 1,
    {
        FieldElement { w0: 1, w1: 0, w2: 0, w3: 0 }
    }

    /// The element that the integer `x` stands for.
    pub fn from_u64(x: u64) -> (r: Self)
        ensures
            r@ == x,
    {
        FieldElement { w0: x, w1: 0, w2: 0, w3: 0 }
    }

    /// The element whose canonical representative has the given words, least
    /// significant first, or `None` where they stand for a number that is
    /// not below the field order.
    pub fn from_words(w0: u64, w1: u64, w2: u64, w3: u64) -> (r: Option<Self>)
        ensures
            r is Some <==> words_value(w0, w1, w2, w3) < modulus(),
            r is Some ==> r.unwrap()@ == words_value(w0, w1, w2, w3),
    {
        let below: bool = if w3 != 0x30644e72e131a029u64 {
            w3 < 0x30644e72e131a029u64
        } else if w2 != 0xb85045b68181585du64 {
            w2 < 0xb85045b68181585du64
        } else if w1 != 0x2833e84879b97091u64 {
            w1 < 0x2833e84879b97091u64
        } else {
            w0 < 0x43e1f593f0000001u64
        };
        if below {
            Some(FieldElement { w0, w1, w2, w3 })
        } else {
            None
        }
    }

    /// The words of the canonical representative, least significant first.
    pub fn words(&self) -> (w: (u64, u64, u64, u64))
        ensures
            words_value(w.0, w.1, w.2, w.3) == self@,
    {
        (self.w0, self.w1, self.w2, self.w3)
    }

    /// Whether this is the additive identity.
    pub fn is_zero(&self) -> (r: bool)
        ensures
            r == (self@ == 0),
    {
        self.w0 == 0 && self.w1 == 0 && self.w2 == 0 && self.w3 == 0
    }

    /// Field addition, by `ark_ff`'s `Add` for `Fp` on `ark_bn254::Fr`: the
    /// sum of the two representatives, reduced modulo the field order. The
    /// words handed back are those of `into_bigint`, the canonical form.
    #[verifier::external_body]
    pub(crate) fn add(&self, rhs: &FieldElement) -> (r: FieldElement)
        ensures
            r@ == (self@ + rhs@) % modulus(),
            r@ < modulus(),
    {
        let x = ark_bn254::Fr::new(ark_ff::BigInt::new([self.w0, self.w1, self.w2, self.w3]));
        let y = ark_bn254::Fr::new(ark_ff::BigInt::new([rhs.w0, rhs.w1, rhs.w2, rhs.w3]));
        let z = ark_ff::PrimeField::into_bigint(x + y).0;
        FieldElement { w0: z[0], w1: z[1], w2: z[2], w3: z[3] }
    }

    /// Field multiplication, by `ark_ff`'s `Mul` for `Fp` on `ark_bn254::Fr`:
    /// the product of the two representatives, reduced modulo the field
    /// order, in canonical form.
    #[verifier::external_body]
    pub(crate) fn mul(&self, rhs: &FieldElement) -> (r: FieldElement)
        ensures
            r@ == (self@ * rhs@) % modulus(),
            r@ < modulus(),
    {
        let x = ark_bn254::Fr::new(ark_ff::BigInt::new([self.w0, self.w1, self.w2, self.w3]));
        let y = ark_bn254::Fr::new(ark_ff::BigInt::new([rhs.w0, rhs.w1, rhs.w2, rhs.w3]));
        let z = ark_ff::PrimeField::into_bigint(x * y).0;
        FieldElement { w0: z[0], w1: z[1], w2: z[2], w3: z[3] }
    }

    /// Exponentiation by a non-negative integer, by `ark_ff::Field::pow` on
    /// `ark_bn254::Fr` with the exponent as a single word: the power of the
    /// representative, reduced modulo the field order, in canonical form.
    /// The power with exponent zero is one.
    #[verifier::external_body]
    pub(crate) fn pow(&self, e: u64) -> (r: FieldElement)
        ensures
            r@ == pow(self@ as int, e as nat) % (modulus() as int),
            r@ < modulus(),
    {
        let x = ark_bn254::Fr::new(ark_ff::BigInt::new([self.w0, self.w1, self.w2, self.w3]));
        let z = ark_ff::PrimeField::into_bigint(ark_ff::Field::pow(&x, [e])).0;
        FieldElement { w0: z[0], w1: z[1], w2: z[2], w3: z[3] }
    }

    /// A uniformly random element, drawn by `rand::Rng::gen` on the thread's
    /// generator through `ark_ff`'s sampling of `Fp`. Nothing is promised
    /// about which element comes back, only that it is in canonical form.
    #[verifier::external_body]
    pub(crate) fn random() -> (r: FieldElement)
        ensures
            r@ < modulus(),
    {
        let x: ark_bn254::Fr = rand::Rng::gen(&mut rand::thread_rng());
        let z = ark_ff::PrimeField::into_bigint(x).0;
        FieldElement { w0: z[0], w1: z[1], w2: z[2], w3: z[3] }
    }
}

} // verus!
