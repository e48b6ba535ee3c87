//! Sparse univariate polynomials over the field: the messages that the
//! prover sends, one per round.

use crate::field::{modulus, FieldElement};
use vstd::arithmetic::div_mod::*;
use vstd::arithmetic::mul::*;
use vstd::arithmetic::power::*;
use vstd::prelude::*;

verus! {

/// A list of `(exponent, coefficient)` pairs is a sparse polynomial when its
/// exponents are strictly increasing and its coefficients are below the
/// field order. A coefficient may be zero.
pub open spec fn is_sparse_poly(u: Seq<(usize, nat)>) -> bool {
    &&& forall|i: int, j: int| 0 <= i < j < u.len() ==> u[i].0 < u[j].0
    &&& forall|i: int| 0 <= i < u.len() ==> (#[trigger] u[i]).1 < modulus()
}

/// The sum of `coefficient * x ^ exponent` over the pairs, as an integer.
/// The value of the polynomial in the field is this sum modulo `modulus()`.
pub open spec fn uni_value(u: Seq<(usize, nat)>, x: int) -> int
    decreases u.len(),
{
    if u.len() == 0 {
        0
    } else {
        uni_value(u.drop_last(), x) + u.last().1 * pow(x, u.last().0 as nat)
    }
}

/// The coefficient of `x ^ d`: that of the pair with exponent `d`, zero
/// where there is none.
pub open spec fn coefficient(u: Seq<(usize, nat)>, d: nat) -> nat
    decreases u.len(),
{
    if u.len() == 0 {
        0
    } else if u.last().0 == d {
        u.last().1
    } else {
        coefficient(u.drop_last(), d)
    }
}

/// The degree: the largest exponent whose coefficient is not zero, and zero
/// for the zero polynomial.
pub open spec fn uni_degree(u: Seq<(usize, nat)>) -> nat
    decreases u.len(),
{
    if u.len() == 0 {
        0
    } else if u.last().1 != 0 {
        u.last().0 as nat
    } else {
        uni_degree(u.drop_last())
    }
}

/// The largest exponent that is listed, zero where none is.
pub open spec fn max_exponent(u: Seq<(usize, nat)>) -> nat {
    if u.len() == 0 {
        0
    } else {
        u.last().0 as nat
    }
}

/// The pairs of a list of exponents and field elements.
pub open spec fn coeffs_model(s: Seq<(usize, FieldElement)>) -> Seq<(usize, nat)> {
    s.map_values(|e: (usize, FieldElement)| (e.0, e.1@))
}

/// The degree of a sparse polynomial is at most its largest listed exponent.
pub proof fn lemma_degree_le_max_exponent(u: Seq<(usize, nat)>)
    requires
        is_sparse_poly(u),
    ensures
        uni_degree(u) <= max_exponent(u),
    decreases u.len(),
{
    if u.len() > 0 && u.last().1 == 0 {
        let s = u.drop_last();
        lemma_degree_le_max_exponent(s);
        if s.len() > 0 {
            assert(s.last() == u[u.len() - 2]);
        }
    }
}

/// Inserting a pair adds its monomial to the value.
pub proof fn lemma_value_insert(u: Seq<(usize, nat)>, k: int, e: (usize, nat), x: int)
    requires
        0 <= k <= u.len(),
    ensures
        uni_value(u.insert(k, e), x) == uni_value(u, x) + e.1 * pow(x, e.0 as nat),
    decreases u.len() - k,
{
    let v = u.insert(k, e);
    if k == u.len() {
        assert(v.drop_last() =~= u);
    } else {
        assert(v.drop_last() =~= u.drop_last().insert(k, e));
        assert(v.last() == u.last());
        lemma_value_insert(u.drop_last(), k, e, x);
    }
}

/// Replacing a pair exchanges its monomial in the value.
pub proof fn lemma_value_update(u: Seq<(usize, nat)>, k: int, e: (usize, nat), x: int)
    requires
        0 <= k < u.len(),
    ensures
        uni_value(u.update(k, e), x) == uni_value(u, x) - u[k].1 * pow(x, u[k].0 as nat) + e.1
            * pow(x, e.0 as nat),
    decreases u.len() - k,
{
    let v = u.update(k, e);
    if k == u.len() - 1 {
        assert(v.drop_last() =~= u.drop_last());
    } else {
        assert(v.drop_last() =~= u.drop_last().update(k, e));
        assert(v.last() == u.last());
        lemma_value_update(u.drop_last(), k, e, x);
    }
}

/// An exponent that is not listed has coefficient zero, and every
/// coefficient of a sparse polynomial is below the field order.
pub proof fn lemma_coefficient_basics(u: Seq<(usize, nat)>, d: nat)
    requires
        is_sparse_poly(u),
    ensures
        coefficient(u, d) < modulus(),
        (forall|i: int| 0 <= i < u.len() ==> (#[trigger] u[i]).0 != d) ==> coefficient(u, d) == 0,
        forall|k: int| 0 <= k < u.len() && (#[trigger] u[k]).0 == d ==> coefficient(u, d) == u[k].1,
    decreases u.len(),
{
    if u.len() > 0 {
        let s = u.drop_last();
        assert(u.last() == u[u.len() - 1]);
        lemma_coefficient_basics(s, d);
        assert forall|k: int| 0 <= k < u.len() && (#[trigger] u[k]).0 == d implies coefficient(
            u,
            d,
        ) == u[k].1 by {
            if k < u.len() - 1 {
                assert(s[k] == u[k]);
                assert(u[k].0 < u[u.len() - 1].0);
            }
        }
    }
}

/// Inserting a pair whose exponent is not yet listed sets the coefficient
/// of that exponent and leaves the others.
pub proof fn lemma_coefficient_insert(u: Seq<(usize, nat)>, k: int, e: (usize, nat), d: nat)
    requires
        0 <= k <= u.len(),
        forall|i: int| 0 <= i < u.len() ==> (#[trigger] u[i]).0 != e.0,
    ensures
        coefficient(u.insert(k, e), d) == (if d == e.0 {
            e.1
        } else {
            coefficient(u, d)
        }),
    decreases u.len() - k,
{
    let v = u.insert(k, e);
    if k == u.len() {
        assert(v.drop_last() =~= u);
    } else {
        assert(v.drop_last() =~= u.drop_last().insert(k, e));
        assert(v.last() == u.last());
        assert(u.last() == u[u.len() - 1]);
        lemma_coefficient_insert(u.drop_last(), k, e, d);
    }
}

/// Replacing the pair of an exponent sets the coefficient of that exponent
/// and leaves the others.
pub proof fn lemma_coefficient_update(u: Seq<(usize, nat)>, k: int, c: nat, d: nat)
    requires
        0 <= k < u.len(),
        forall|i: int, j: int| 0 <= i < j < u.len() ==> u[i].0 < u[j].0,
    ensures
        coefficient(u.update(k, (u[k].0, c)), d) == (if d == u[k].0 {
            c
        } else {
            coefficient(u, d)
        }),
    decreases u.len() - k,
{
    let v = u.update(k, (u[k].0, c));
    if k == u.len() - 1 {
        assert(v.drop_last() =~= u.drop_last());
    } else {
        assert(v.drop_last() =~= u.drop_last().update(k, (u[k].0, c)));
        assert(v.last() == u.last());
        assert(u[k].0 < u[u.len() - 1].0);
        lemma_coefficient_update(u.drop_last(), k, c, d);
    }
}

/// The sum of the coefficients that a list gives for the exponent `d`. The
/// list may name an exponent more than once.
pub open spec fn listed_sum(u: Seq<(usize, nat)>, d: nat) -> int
    decreases u.len(),
{
    if u.len() == 0 {
        0
    } else {
        listed_sum(u.drop_last(), d) + (if u.last().0 == d {
            u.last().1 as int
        } else {
            0
        })
    }
}

/// The largest exponent that a list names, zero where it names none.
pub open spec fn listed_max(u: Seq<(usize, nat)>) -> nat
    decreases u.len(),
{
    if u.len() == 0 {
        0
    } else if u.last().0 > listed_max(u.drop_last()) {
        u.last().0 as nat
    } else {
        listed_max(u.drop_last())
    }
}

/// In a sparse polynomial each exponent is listed at most once, so the
/// listed sum for an exponent is its coefficient, and the largest listed
/// exponent is the last.
pub proof fn lemma_listed_of_sparse(u: Seq<(usize, nat)>, d: nat)
    requires
        is_sparse_poly(u),
    ensures
        listed_sum(u, d) == coefficient(u, d),
        listed_max(u) == max_exponent(u),
    decreases u.len(),
{
    if u.len() > 0 {
        let s = u.drop_last();
        lemma_listed_of_sparse(s, d);
        lemma_coefficient_basics(s, d);
        if u.last().0 == d {
            assert forall|i: int| 0 <= i < s.len() implies (#[trigger] s[i]).0 != d by {
                assert(u[i].0 < u[u.len() - 1].0);
            }
        }
        if s.len() > 0 {
            assert(s.last() == u[u.len() - 2]);
            assert(u[u.len() - 2].0 < u[u.len() - 1].0);
        }
    }
}

/// Integers with the same residue keep the same residue when the same
/// integer is added to both.
pub proof fn lemma_congruent_add(a: int, b: int, t: int)
    requires
        a % (modulus() as int) == b % (modulus() as int),
    ensures
        (a + t) % (modulus() as int) == (b + t) % (modulus() as int),
{
    lemma_add_mod_noop(a, t, modulus() as int);
    lemma_add_mod_noop(b, t, modulus() as int);
}

/// A sparse univariate polynomial.
pub struct UniPoly {
    coeffs: Vec<(usize, FieldElement)>,
}

impl View for UniPoly {
    type V = Seq<(usize, nat)>;

    closed spec fn view(&self) -> Seq<(usize, nat)> {
        coeffs_model(self.coeffs@)
    }
}

impl Clone for UniPoly {
    fn clone(&self) -> (r: Self)
        ensures
            r@ == self@,
    {
        proof {
            use_type_invariant(self);
        }
        let mut coeffs: Vec<(usize, FieldElement)> = Vec::new();
        let mut i: usize = 0;
        while i < self.coeffs.len()
            invariant
                i <= self.coeffs.len(),
                coeffs@ == self.coeffs@.take(i as int),
            decreases self.coeffs.len() - i,
        {
            coeffs.push(self.coeffs[i]);
            assert(self.coeffs@.take(i + 1) =~= self.coeffs@.take(i as int).push(
                self.coeffs@[i as int],
            ));
            i = i + 1;
        }
        assert(self.coeffs@.take(self.coeffs.len() as int) =~= self.coeffs@);
        UniPoly { coeffs }
    }
}

impl UniPoly {
    /// The exponents are listed in strictly increasing order.
    #[verifier::type_invariant]
    pub open spec fn well_formed(self) -> bool {
        is_sparse_poly(self@)
    }

    /// The zero polynomial.
    pub fn zero() -> (r: Self)
        ensures
            r@ == Seq::<(usize, nat)>::empty(),
    {
        let r = UniPoly { coeffs: Vec::new() };
        assert(r@ =~= Seq::<(usize, nat)>::empty());
        r
    }

    /// The polynomial with the monomial `c * x ^ e` added: the coefficient
    /// of `x ^ e` is its sum with `c`, and every other coefficient stays.
    pub fn add_monomial(self, e: usize, c: FieldElement) -> (r: Self)
        ensures
            forall|x: int| #[trigger]
                uni_value(r@, x) % (modulus() as int) == (uni_value(self@, x) + c@ * pow(
                    x,
                    e as nat,
                )) % (modulus() as int),
            forall|d: nat| #[trigger]
                coefficient(r@, d) == (if d == e {
                    (coefficient(self@, d) + c@) % modulus()
                } else {
                    coefficient(self@, d)
                }),
            max_exponent(r@) == (if e > max_exponent(self@) {
                e as nat
            } else {
                max_exponent(self@)
            }),
    {
        proof {
            use_type_invariant(&self);
            use_type_invariant(&c);
        }
        let ghost before = self@;
        let mut coeffs: Vec<(usize, FieldElement)> = self.coeffs;
        let n: usize = coeffs.len();
        let mut k: usize = 0;
        while k < n && coeffs[k].0 < e
            invariant
                k <= n,
                n == coeffs.len(),
                coeffs_model(coeffs@) == before,
                forall|i: int| 0 <= i < k ==> (#[trigger] before[i]).0 < e,
            decreases n - k,
        {
            assert(before[k as int].0 == coeffs@[k as int].0);
            k = k + 1;
        }
        if k < n && coeffs[k].0 == e {
            let s: FieldElement = coeffs[k].1.add(&c);
            proof {
                use_type_invariant(&s);
            }
            coeffs.set(k, (e, s));
            proof {
                let after = coeffs_model(coeffs@);
                assert(after =~= before.update(k as int, (e, s@)));
                assert forall|x: int| #[trigger]
                    uni_value(after, x) % (modulus() as int) == (uni_value(before, x) + c@ * pow(
                        x,
                        e as nat,
                    )) % (modulus() as int) by {
                    let p = pow(x, e as nat);
                    let a = before[k as int].1 as int;
                    lemma_value_update(before, k as int, (e, s@), x);
                    let base = uni_value(before, x) - a * p;
                    lemma_mul_mod_noop_left(a + c@, p, modulus() as int);
                    lemma_add_mod_noop_right(base, s@ * p, modulus() as int);
                    lemma_add_mod_noop_right(base, (a + c@) * p, modulus() as int);
                    lemma_mul_is_distributive_add_other_way(p, a, c@ as int);
                }
                assert forall|d: nat| #[trigger]
                    coefficient(after, d) == (if d == e {
                        (coefficient(before, d) + c@) % modulus()
                    } else {
                        coefficient(before, d)
                    }) by {
                    lemma_coefficient_update(before, k as int, s@, d);
                    lemma_coefficient_basics(before, d);
                }
            }
        } else {
            coeffs.insert(k, (e, c));
            proof {
                let after = coeffs_model(coeffs@);
                assert(after =~= before.insert(k as int, (e, c@)));
                assert forall|x: int| #[trigger]
                    uni_value(after, x) % (modulus() as int) == (uni_value(before, x) + c@ * pow(
                        x,
                        e as nat,
                    )) % (modulus() as int) by {
                    lemma_value_insert(before, k as int, (e, c@), x);
                }
                assert forall|i: int| 0 <= i < before.len() implies (#[trigger] before[i]).0
                    != e by {
                    if i >= k {
                        assert(before[k as int].0 <= before[i].0);
                    }
                }
                assert forall|d: nat| #[trigger]
                    coefficient(after, d) == (if d == e {
                        (coefficient(before, d) + c@) % modulus()
                    } else {
                        coefficient(before, d)
                    }) by {
                    lemma_coefficient_insert(before, k as int, (e, c@), d);
                    lemma_coefficient_basics(before, d);
                    lemma_small_mod(c@, modulus());
                }
            }
        }
        UniPoly { coeffs }
    }

    /// The polynomial with every monomial of `list` added, one after the
    /// other.
    fn accumulate(self, list: &Vec<(usize, FieldElement)>) -> (r: Self)
        ensures
            forall|x: int| #[trigger]
                uni_value(r@, x) % (modulus() as int) == (uni_value(self@, x) + uni_value(
                    coeffs_model(list@),
                    x,
                )) % (modulus() as int),
            forall|d: nat| #[trigger]
                coefficient(r@, d) == (coefficient(self@, d) + listed_sum(coeffs_model(list@), d))
                    % (modulus() as int),
            max_exponent(r@) == (if listed_max(coeffs_model(list@)) > max_exponent(self@) {
                listed_max(coeffs_model(list@))
            } else {
                max_exponent(self@)
            }),
    {
        proof {
            use_type_invariant(&self);
        }
        let ghost start = self@;
        let ghost items = coeffs_model(list@);
        let mut acc: UniPoly = self;
        let n: usize = list.len();
        let mut j: usize = 0;
        proof {
            assert(items.take(0).len() == 0);
            assert forall|d: nat| #[trigger]
                coefficient(acc@, d) == (coefficient(start, d) + listed_sum(items.take(0), d)) % (
                modulus() as int) by {
                lemma_coefficient_basics(start, d);
                lemma_small_mod(coefficient(start, d), modulus());
            }
        }
        while j < n
            invariant
                j <= n,
                n == list@.len(),
                items == coeffs_model(list@),
                is_sparse_poly(start),
                forall|x: int| #[trigger]
                    uni_value(acc@, x) % (modulus() as int) == (uni_value(start, x) + uni_value(
                        items.take(j as int),
                        x,
                    )) % (modulus() as int),
                forall|d: nat| #[trigger]
                    coefficient(acc@, d) == (coefficient(start, d) + listed_sum(
                        items.take(j as int),
                        d,
                    )) % (modulus() as int),
                max_exponent(acc@) == (if listed_max(items.take(j as int)) > max_exponent(start) {
                    listed_max(items.take(j as int))
                } else {
                    max_exponent(start)
                }),
            decreases n - j,
        {
            let e: (usize, FieldElement) = list[j];
            let ghost prev = acc@;
            let next: UniPoly = acc.add_monomial(e.0, e.1);
            proof {
                let before = items.take(j as int);
                let after = items.take(j + 1);
                assert(after.drop_last() =~= before);
                assert(after.last() == (e.0, e.1@));
                assert forall|x: int| #[trigger]
                    uni_value(next@, x) % (modulus() as int) == (uni_value(start, x) + uni_value(
                        after,
                        x,
                    )) % (modulus() as int) by {
                    let t = e.1@ * pow(x, e.0 as nat);
                    assert(uni_value(prev, x) % (modulus() as int) == (uni_value(start, x)
                        + uni_value(before, x)) % (modulus() as int));
                    lemma_congruent_add(
                        uni_value(prev, x),
                        uni_value(start, x) + uni_value(before, x),
                        t,
                    );
                }
                assert forall|d: nat| #[trigger]
                    coefficient(next@, d) == (coefficient(start, d) + listed_sum(after, d)) % (
                    modulus() as int) by {
                    assert(coefficient(prev, d) == (coefficient(start, d) + listed_sum(before, d))
                        % (modulus() as int));
                    if d == e.0 {
                        lemma_add_mod_noop_right(
                            e.1@ as int,
                            coefficient(start, d) + listed_sum(before, d),
                            modulus() as int,
                        );
                    }
                }
            }
            acc = next;
            j = j + 1;
        }
        assert(items.take(n as int) =~= items);
        acc
    }

    /// The polynomial that is the sum of the monomials of `coeffs`, a list of
    /// `(exponent, coefficient)` pairs in any order. Pairs with the same
    /// exponent are combined.
    pub fn from_coefficients_vec(coeffs: Vec<(usize, FieldElement)>) -> (r: Self)
        ensures
            forall|x: int| #[trigger]
                uni_value(r@, x) % (modulus() as int) == uni_value(coeffs_model(coeffs@), x) % (
                modulus() as int),
            forall|d: nat| #[trigger]
                coefficient(r@, d) == listed_sum(coeffs_model(coeffs@), d) % (modulus() as int),
            max_exponent(r@) == listed_max(coeffs_model(coeffs@)),
    {
        UniPoly::zero().accumulate(&coeffs)
    }

    /// The sum of two polynomials: coefficients of equal exponents are
    /// summed.
    pub fn add(&self, other: &UniPoly) -> (r: UniPoly)
        ensures
            forall|x: int| #[trigger]
                uni_value(r@, x) % (modulus() as int) == (uni_value(self@, x) + uni_value(
                    other@,
                    x,
                )) % (modulus() as int),
            forall|d: nat| #[trigger]
                coefficient(r@, d) == (coefficient(self@, d) + coefficient(other@, d)) % modulus(),
            max_exponent(r@) == (if max_exponent(other@) > max_exponent(self@) {
                max_exponent(other@)
            } else {
                max_exponent(self@)
            }),
    {
        proof {
            use_type_invariant(other);
            assert forall|d: nat| listed_sum(other@, d) == #[trigger] coefficient(other@, d) by {
                lemma_listed_of_sparse(other@, d);
            }
            lemma_listed_of_sparse(other@, 0);
        }
        self.clone().accumulate(&other.coeffs)
    }

    /// The value of the polynomial at `x`.
    pub fn evaluate(&self, x: &FieldElement) -> (r: FieldElement)
        ensures
            r@ == uni_value(self@, x@ as int) % (modulus() as int),
    {
        let ghost model = self@;
        let mut acc: FieldElement = FieldElement::zero();
        let n: usize = self.coeffs.len();
        let mut i: usize = 0;
        proof {
            lemma_small_mod(0, modulus());
            assert(model.take(0).len() == 0);
        }
        while i < n
            invariant
                i <= n,
                n == self.coeffs.len(),
                model == self@,
                acc@ == uni_value(model.take(i as int), x@ as int) % (modulus() as int),
            decreases n - i,
        {
            let e: (usize, FieldElement) = self.coeffs[i];
            assert(model[i as int] == (e.0, e.1@));
            let power: FieldElement = x.pow(e.0 as u64);
            let prod: FieldElement = e.1.mul(&power);
            let next: FieldElement = acc.add(&prod);
            proof {
                let before = model.take(i as int);
                let after = model.take(i + 1);
                assert(after.drop_last() =~= before);
                assert(after.last() == model[i as int]);
                let v = pow(x@ as int, e.0 as nat);
                lemma_mul_mod_noop_right(e.1@ as int, v, modulus() as int);
                lemma_add_mod_noop(uni_value(before, x@ as int), e.1@ * v, modulus() as int);
            }
            acc = next;
            i = i + 1;
        }
        assert(model.take(n as int) =~= model);
        acc
    }

    /// The degree of the polynomial: the largest exponent whose coefficient
    /// is not zero, and zero for the zero polynomial.
    pub fn degree(&self) -> (d: usize)
        ensures
            d == uni_degree(self@),
    {
        let ghost model = self@;
        let mut i: usize = self.coeffs.len();
        assert(model.take(i as int) =~= model);
        while i > 0
            invariant
                i <= self.coeffs.len(),
                model == self@,
                uni_degree(model) == uni_degree(model.take(i as int)),
            decreases i,
        {
            let e: (usize, FieldElement) = self.coeffs[i - 1];
            assert(model[i - 1] == (e.0, e.1@));
            assert(model.take(i as int).last() == model[i - 1]);
            assert(model.take(i as int).drop_last() =~= model.take(i - 1));
            if !e.1.is_zero() {
                return e.0;
            }
            i = i - 1;
        }
        0
    }

    /// The coefficient of `x ^ d`, zero where the polynomial lists none.
    pub fn coefficient(&self, d: usize) -> (c: FieldElement)
        ensures
            c@ == coefficient(self@, d as nat),
    {
        let ghost model = self@;
        let mut i: usize = self.coeffs.len();
        assert(model.take(i as int) =~= model);
        while i > 0
            invariant
                i <= self.coeffs.len(),
                model == self@,
                coefficient(model, d as nat) == coefficient(model.take(i as int), d as nat),
            decreases i,
        {
            let e: (usize, FieldElement) = self.coeffs[i - 1];
            assert(model[i - 1] == (e.0, e.1@));
            assert(model.take(i as int).last() == model[i - 1]);
            assert(model.take(i as int).drop_last() =~= model.take(i - 1));
            if e.0 == d {
                return e.1;
            }
            i = i - 1;
        }
        FieldElement::zero()
    }
}

} // verus!
