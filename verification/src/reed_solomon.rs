//! Polynomial fingerprinting: a data vector is read as the coefficients of
//! a polynomial, and two parties compare their vectors by comparing the
//! values of their polynomials at one shared random point.

use crate::entropy::random_u64;
use vstd::arithmetic::div_mod::*;
use vstd::arithmetic::power::*;
use vstd::prelude::*;

verus! {

/// The sum of `data[i] * r^i` over the first `n` entries of `data`: the value
/// at `r` of the polynomial whose coefficients are those entries, constant
/// term first.
pub open spec fn poly_value(data: Seq<u64>, r: int, n: nat) -> int
    decreases n,
{
    if n == 0 {
        0
    } else {
        poly_value(data, r, (n - 1) as nat) + data[n - 1] * pow(r, (n - 1) as nat)
    }
}

/// The fingerprint of `data` at the point `r` in the integers modulo `field`.
pub open spec fn fingerprint(data: Seq<u64>, r: int, field: int) -> int {
    poly_value(data, r, data.len()) % field
}

/// Parties that hold the same data obtain the same fingerprint at every
/// point and in every field.
pub proof fn lemma_equal_data_equal_fingerprint(a: Party, b: Party, r: u64, field: u64)
    requires
        a@ == b@,
    ensures
        fingerprint(a@, r as int, field as int) == fingerprint(b@, r as int, field as int),
{
}

/// One side of the fingerprint exchange, holding its data vector.
pub struct Party {
    data: Vec<u64>,
}

impl View for Party {
    type V = Seq<u64>;

    closed spec fn view(&self) -> Seq<u64> {
        self.data@
    }
}

impl Party {
    /// A party that holds `data`.
    pub fn new(data: Vec<u64>) -> (party: Self)
        ensures
            party@ == data@,
    {
        Self { data }
    }

    /// Evaluates the data polynomial at `r` modulo `field`, accumulating
    /// term by term with the running power `x := x * r`. Every intermediate
    /// value is reduced modulo `field`, so no input overflows.
    pub fn evaluate(&self, r: u64, field: u64) -> (result: u64)
        requires
            field > 0,
        ensures
            result == fingerprint(self@, r as int, field as int),
    {
        let m: u128 = field as u128;
        let mut result: u64 = 0;
        let mut x: u64 = (1u64 % field);
        proof {
            lemma_pow0(r as int);
            lemma_small_mod(0, field as nat);
        }
        let n: usize = self.data.len();
        let mut i: usize = 0;
        while i < n
            invariant
                0 <= i <= n,
                n == self.data.len(),
                field > 0,
                m == field as u128,
                result < field,
                x < field,
                result == poly_value(self.data@, r as int, i as nat) % (field as int),
                x == pow(r as int, i as nat) % (field as int),
            decreases n - i,
        {
            let d: u64 = self.data[i];
            assert((d as u128) * (x as u128) <= 0xffff_ffff_ffff_ffff * 0xffff_ffff_ffff_ffff)
                by (nonlinear_arith)
                requires
                    d <= 0xffff_ffff_ffff_ffff,
                    x <= 0xffff_ffff_ffff_ffff,
            ;
            let term: u128 = ((d as u128) * (x as u128)) % m;
            let next: u128 = (result as u128 + term) % m;
            assert((x as u128) * (r as u128) <= 0xffff_ffff_ffff_ffff * 0xffff_ffff_ffff_ffff)
                by (nonlinear_arith)
                requires
                    x <= 0xffff_ffff_ffff_ffff,
                    r <= 0xffff_ffff_ffff_ffff,
            ;
            let power: u128 = ((x as u128) * (r as u128)) % m;
            proof {
                let f = field as int;
                let p = pow(r as int, i as nat);
                let s = poly_value(self.data@, r as int, i as nat);
                assert(term == (d * x) % f);
                lemma_mul_mod_noop_right(d as int, p, f);
                assert(term == (d * p) % f);
                lemma_add_mod_noop(s, d * p, f);
                assert(next == (s + d * p) % f);
                lemma_mul_mod_noop_left(p, r as int, f);
                assert(power == (p * r) % f);
                reveal(pow);
                assert(pow(r as int, (i + 1) as nat) == r * p);
                assert(p * r == r * p) by (nonlinear_arith);
            }
            result = next as u64;
            x = power as u64;
            i = i + 1;
        }
        result
    }
}

/// Plays the exchange on the demonstration vector `[1, 2, 3, 4, 5]` in the
/// field of 31 elements at the point `seed % 31`: both parties hold the
/// vector, each evaluates it, and the two values are compared.
pub fn reed_solomon_simulation_at(seed: u64) -> (agree: bool)
    ensures
        agree,
{
    let mut data: Vec<u64> = Vec::new();
    data.push(1);
    data.push(2);
    data.push(3);
    data.push(4);
    data.push(5);
    let mut copy: Vec<u64> = Vec::new();
    copy.push(1);
    copy.push(2);
    copy.push(3);
    copy.push(4);
    copy.push(5);
    assert(data@ =~= copy@);
    let alice = Party::new(data);
    let bob = Party::new(copy);
    let field: u64 = 31;
    let r: u64 = seed % field;
    let v: u64 = alice.evaluate(r, field);
    bob.evaluate(r, field) == v
}

/// Plays the exchange of [`reed_solomon_simulation_at`] at a freshly drawn
/// random point. Whatever point is drawn, the two parties agree.
pub fn reed_solomon_simulation() -> (agree: bool)
    ensures
        agree,
{
    let seed: u64 = random_u64();
    reed_solomon_simulation_at(seed)
}

} // verus!
