//! The sum-check protocol: a prover convinces a verifier of the sum of a
//! multivariate polynomial over the boolean hypercube, one variable per
//! round.

use crate::field::{lemma_value_determines_element, modulus, values, FieldElement};
use crate::hypercube::{
    bits_be, cube_sum, enum_sum, lemma_bits_index, lemma_bits_leading, lemma_bits_len,
    lemma_enum_is_cube_sum, pow2_u64,
};
use crate::multivariate::{
    is_polynomial, is_term, lemma_mod_step, lemma_power_absent, poly_value, term_in_range,
    term_power, term_value, terms_model, total_degree, var_degree, MultiPoly, PolyModel,
    SparseTerm,
};
use crate::univariate::{
    coefficient, coeffs_model, is_sparse_poly, lemma_degree_le_max_exponent, listed_max,
    listed_sum, max_exponent, uni_degree, uni_value, UniPoly,
};
use vstd::arithmetic::div_mod::*;
use vstd::arithmetic::mul::*;
use vstd::arithmetic::power::*;
use vstd::arithmetic::power2::*;
use vstd::prelude::*;

verus! {

/// The point at which the polynomial is read in a round: the challenges
/// `rs` fix the first coordinates, `x` stands at the coordinate under
/// scrutiny, and the later coordinates are those of `points` after its
/// first, which belongs to the coordinate under scrutiny and is not read.
pub open spec fn round_point(rs: Seq<int>, x: int, points: Seq<int>) -> Seq<int> {
    rs.push(x) + points.skip(1)
}

/// The scalar factor of a term in a round: the product of the powers of
/// all its variables but the one under scrutiny, which is variable
/// `rs.len()`. Earlier variables are read from `rs`, later ones from
/// `points`, at the variable's distance from the one under scrutiny.
pub open spec fn term_scalar(t: Seq<(usize, usize)>, rs: Seq<int>, points: Seq<int>) -> int
    decreases t.len(),
{
    if t.len() == 0 {
        1
    } else {
        let e = t.last();
        let rest = term_scalar(t.drop_last(), rs, points);
        if e.0 == rs.len() {
            rest
        } else if e.0 < rs.len() {
            rest * pow(rs[e.0 as int], e.1 as nat)
        } else {
            pow(points[e.0 - rs.len()], e.1 as nat) * rest
        }
    }
}

/// The summands in whose term variable `k` has the power `d`, in order.
pub open spec fn terms_with_power(terms: Seq<(nat, Seq<(usize, usize)>)>, k: nat, d: nat) -> Seq<
    (nat, Seq<(usize, usize)>),
>
    decreases terms.len(),
{
    if terms.len() == 0 {
        Seq::empty()
    } else if term_power(terms.last().1, k) == d {
        terms_with_power(terms.drop_last(), k, d).push(terms.last())
    } else {
        terms_with_power(terms.drop_last(), k, d)
    }
}

/// A univariate polynomial is the message of the round that follows the
/// challenges `rs` when at every `x` its value is the sum of `g` over all
/// boolean assignments to the variables after the one under scrutiny,
/// with the earlier variables fixed to `rs` and the one under scrutiny to
/// `x`, and when it lists no exponent above the largest power of that
/// variable in `g`.
pub open spec fn is_round_message(u: Seq<(usize, nat)>, g: PolyModel, rs: Seq<int>) -> bool {
    &&& rs.len() < g.num_vars
    &&& forall|x: int| #[trigger]
        uni_value(u, x) % (modulus() as int) == cube_sum(
            g.terms,
            rs.push(x),
            (g.num_vars - rs.len() - 1) as nat,
        ) % (modulus() as int)
    &&& max_exponent(u) <= var_degree(g.terms, rs.len())
}

/// A term splits into its scalar factor and the power of the variable
/// under scrutiny.
pub proof fn lemma_term_split(t: Seq<(usize, usize)>, rs: Seq<int>, x: int, points: Seq<int>)
    requires
        is_term(t),
        forall|i: int|
            0 <= i < t.len() && (#[trigger] t[i]).0 > rs.len() ==> t[i].0 - rs.len() < points.len(),
    ensures
        term_value(t, round_point(rs, x, points)) == term_scalar(t, rs, points) * pow(
            x,
            term_power(t, rs.len()),
        ),
    decreases t.len(),
{
    let k = rs.len();
    let pt = round_point(rs, x, points);
    if t.len() == 0 {
        lemma_pow0(x);
    } else {
        let s = t.drop_last();
        let e = t.last();
        assert(e == t[t.len() - 1]);
        assert forall|i: int| 0 <= i < s.len() && (#[trigger] s[i]).0 > rs.len() implies s[i].0
            - rs.len() < points.len() by {
            assert(s[i] == t[i]);
        }
        lemma_term_split(s, rs, x, points);
        let a = term_scalar(s, rs, points);
        if e.0 == k {
            assert forall|i: int| 0 <= i < s.len() implies (#[trigger] s[i]).0 != k by {
                assert(t[i].0 != t[t.len() - 1].0);
            }
            lemma_power_absent(s, k);
            lemma_pow0(x);
            assert(pt[e.0 as int] == x);
            assert(term_value(s, pt) == a * 1);
        } else {
            let b = pow(x, term_power(s, k));
            let c = pow(pt[e.0 as int], e.1 as nat);
            if e.0 < k {
                assert(pt[e.0 as int] == rs[e.0 as int]);
            } else {
                assert(pt[e.0 as int] == points.skip(1)[e.0 - k - 1]);
                assert(pt[e.0 as int] == points[e.0 - k]);
            }
            assert((a * b) * c == (a * c) * b) by (nonlinear_arith);
            assert((a * c) == (c * a)) by (nonlinear_arith);
        }
    }
}

/// The prover: the polynomial and the challenges received so far, in the
/// order in which they came.
pub struct Prover {
    pub g: MultiPoly,
    pub r_vec: Vec<FieldElement>,
}

impl Clone for Prover {
    fn clone(&self) -> (r: Self)
        ensures
            r.g@ == self.g@,
            r.r_vec@ == self.r_vec@,
    {
        let mut r_vec: Vec<FieldElement> = Vec::new();
        let mut i: usize = 0;
        while i < self.r_vec.len()
            invariant
                i <= self.r_vec.len(),
                r_vec@ == self.r_vec@.take(i as int),
            decreases self.r_vec.len() - i,
        {
            r_vec.push(self.r_vec[i]);
            assert(self.r_vec@.take(i + 1) =~= self.r_vec@.take(i as int).push(
                self.r_vec@[i as int],
            ));
            i = i + 1;
        }
        assert(self.r_vec@.take(self.r_vec.len() as int) =~= self.r_vec@);
        Prover { g: self.g.clone(), r_vec }
    }
}

impl Prover {
    /// A prover for `g` that has received no challenge yet.
    pub fn new(g: &MultiPoly) -> (p: Self)
        ensures
            p.g@ == g@,
            p.r_vec@.len() == 0,
    {
        Prover { g: g.clone(), r_vec: Vec::new() }
    }

    /// Point `i` of the canonical enumeration of the hypercube of dimension
    /// `n`: the binary expansion of `i` in `n` digits, most significant first,
    /// with 1 as the field's multiplicative identity and 0 as its additive
    /// identity.
    pub fn n_to_vec(i: u64, n: usize) -> (point: Vec<FieldElement>)
        ensures
            values(point@) == bits_be(i as nat, n as nat),
    {
        let mut point: Vec<FieldElement> = Vec::new();
        let mut k: usize = 0;
        while k < n
            invariant
                k <= n,
                point@.len() == k,
            decreases n - k,
        {
            point.push(FieldElement::zero());
            k = k + 1;
        }
        let mut rest: u64 = i;
        let mut j: usize = 0;
        proof {
            lemma2_to64();
        }
        while j < n
            invariant
                j <= n,
                point@.len() == n,
                rest == (i as nat) / pow2(j as nat),
                forall|k: int|
                    n - j <= k < n ==> (#[trigger] point@[k])@ == bits_be(i as nat, n as nat)[k],
            decreases n - j,
        {
            let pos: usize = n - 1 - j;
            let bit: FieldElement = if rest % 2 == 1 {
                FieldElement::one()
            } else {
                FieldElement::zero()
            };
            proof {
                lemma_bits_index(i as nat, n as nat, pos as int);
                lemma_pow2_pos(j as nat);
                lemma_div_denominator(i as int, pow2(j as nat) as int, 2);
                lemma_pow2_unfold((j + 1) as nat);
                assert(pow2(j as nat) * 2 == pow2((j + 1) as nat));
            }
            point.set(pos, bit);
            rest = rest / 2;
            j = j + 1;
        }
        proof {
            lemma_bits_len(i as nat, n as nat);
            assert(values(point@) =~= bits_be(i as nat, n as nat));
        }
        point
    }

    /// Splits one term for the current round. The first part returned is
    /// the scalar factor: the product of the powers of the variables that
    /// the challenges fix and of those that `points` assigns. The second
    /// is the power of the variable under scrutiny as a term of its own,
    /// or `None` where the term does not hold that variable.
    pub fn evaluate_term(&self, term: &SparseTerm, points: &Vec<FieldElement>) -> (res: (
        FieldElement,
        Option<SparseTerm>,
    ))
        requires
            forall|i: int|
                0 <= i < term@.len() && (#[trigger] term@[i]).0 > self.r_vec@.len() ==> term@[i].0
                    - self.r_vec@.len() < points@.len(),
        ensures
            res.0@ == term_scalar(term@, values(self.r_vec@), values(points@)) % (modulus() as int),
            res.1 is Some <==> term_power(term@, self.r_vec@.len()) > 0,
            res.1 is Some ==> {
                &&& res.1.unwrap()@.len() == 1
                &&& res.1.unwrap()@[0].0 == self.r_vec@.len()
                &&& res.1.unwrap()@[0].1 == term_power(term@, self.r_vec@.len())
            },
    {
        proof {
            use_type_invariant(term);
            lemma_small_mod(1, modulus());
        }
        let ghost t = term@;
        let ghost rs = values(self.r_vec@);
        let ghost pts = values(points@);
        let k: usize = self.r_vec.len();
        let mut fixed_term: Option<SparseTerm> = None;
        let mut prod: FieldElement = FieldElement::one();
        let n: usize = term.len();
        let mut j: usize = 0;
        assert(t.take(0).len() == 0);
        while j < n
            invariant
                j <= n,
                n == t.len(),
                t == term@,
                is_term(t),
                k == self.r_vec@.len(),
                rs == values(self.r_vec@),
                pts == values(points@),
                forall|i: int|
                    0 <= i < t.len() && (#[trigger] t[i]).0 > k ==> t[i].0 - k < points@.len(),
                prod@ == term_scalar(t.take(j as int), rs, pts) % (modulus() as int),
                fixed_term is Some <==> term_power(t.take(j as int), k as nat) > 0,
                fixed_term is Some ==> {
                    &&& fixed_term.unwrap()@.len() == 1
                    &&& fixed_term.unwrap()@[0].0 == k
                    &&& fixed_term.unwrap()@[0].1 == term_power(t.take(j as int), k as nat)
                },
            decreases n - j,
        {
            let e: (usize, usize) = term.get(j);
            let ghost before = t.take(j as int);
            let ghost after = t.take(j + 1);
            proof {
                assert(after.drop_last() =~= before);
                assert(after.last() == e);
                assert(e == t[j as int]);
            }
            if e.0 == k {
                let mut single: Vec<(usize, usize)> = Vec::new();
                single.push((e.0, e.1));
                assert(single@ =~= seq![(k, e.1)]);
                fixed_term = SparseTerm::new(single);
            } else if e.0 < k {
                let f: FieldElement = self.r_vec[e.0].pow(e.1 as u64);
                let next: FieldElement = prod.mul(&f);
                proof {
                    assert(rs[e.0 as int] == self.r_vec@[e.0 as int]@);
                    lemma_mod_step(
                        term_scalar(before, rs, pts),
                        pow(rs[e.0 as int], e.1 as nat),
                    );
                }
                prod = next;
            } else {
                let f: FieldElement = points[e.0 - k].pow(e.1 as u64);
                let next: FieldElement = f.mul(&prod);
                proof {
                    assert(pts[e.0 - k] == points@[e.0 - k]@);
                    lemma_mod_step(
                        pow(pts[e.0 - k], e.1 as nat),
                        term_scalar(before, rs, pts),
                    );
                }
                prod = next;
            }
            j = j + 1;
        }
        assert(t.take(n as int) =~= t);
        (prod, fixed_term)
    }

    /// The polynomial `g` with the challenges substituted for the earlier
    /// variables and the coordinates of `points` for the later ones, as a
    /// univariate polynomial in the variable under scrutiny. `points`
    /// assigns the variable at distance `d` from the one under scrutiny at
    /// index `d`; its first coordinate is not read.
    ///
    /// The result is stated twice: by its value at every `x`, and by its
    /// coefficient at every exponent `d`, which is the sum of the summands
    /// that hold the variable with power `d`, read at 1 for that variable.
    pub fn evaluate_g_j(&self, points: Vec<FieldElement>) -> (res: UniPoly)
        requires
            self.r_vec@.len() < self.g@.num_vars,
            self.r_vec@.len() + points@.len() >= self.g@.num_vars,
        ensures
            forall|x: int| #[trigger]
                uni_value(res@, x) % (modulus() as int) == poly_value(
                    self.g@.terms,
                    round_point(values(self.r_vec@), x, values(points@)),
                ) % (modulus() as int),
            forall|d: nat| #[trigger]
                coefficient(res@, d) == poly_value(
                    terms_with_power(self.g@.terms, self.r_vec@.len(), d),
                    round_point(values(self.r_vec@), 1, values(points@)),
                ) % (modulus() as int),
            max_exponent(res@) <= var_degree(self.g@.terms, self.r_vec@.len()),
    {
        proof {
            use_type_invariant(&self.g);
        }
        let ghost model = self.g@.terms;
        let ghost rs = values(self.r_vec@);
        let ghost pts = values(points@);
        let ghost k = self.r_vec@.len();
        let terms: &Vec<(FieldElement, SparseTerm)> = self.g.terms();
        let mut sum: UniPoly = UniPoly::from_coefficients_vec(Vec::new());
        let n: usize = terms.len();
        let mut j: usize = 0;
        proof {
            assert(model.take(0).len() == 0);
            assert(coeffs_model(Seq::<(usize, FieldElement)>::empty()).len() == 0);
            lemma_small_mod(0, modulus());
        }
        while j < n
            invariant
                j <= n,
                n == terms@.len(),
                model == self.g@.terms,
                model == terms_model(terms@),
                is_polynomial(self.g@),
                rs == values(self.r_vec@),
                pts == values(points@),
                k == self.r_vec@.len(),
                k < self.g@.num_vars,
                k + points@.len() >= self.g@.num_vars,
                forall|x: int| #[trigger]
                    uni_value(sum@, x) % (modulus() as int) == poly_value(
                        model.take(j as int),
                        round_point(rs, x, pts),
                    ) % (modulus() as int),
                forall|d: nat| #[trigger]
                    coefficient(sum@, d) == poly_value(
                        terms_with_power(model.take(j as int), k, d),
                        round_point(rs, 1, pts),
                    ) % (modulus() as int),
                max_exponent(sum@) <= var_degree(model.take(j as int), k),
            decreases n - j,
        {
            let coeff: FieldElement = terms[j].0;
            let term: &SparseTerm = &terms[j].1;
            let ghost t = term@;
            proof {
                assert(model[j as int] == (coeff@, t));
                assert(is_term(t));
                assert(term_in_range(t, self.g@.num_vars));
            }
            let (coeff_eval, fixed_term) = self.evaluate_term(term, &points);
            let c: FieldElement = coeff_eval.mul(&coeff);
            let d: usize = match fixed_term {
                None => 0,
                Some(ft) => {
                    proof {
                        assert(ft@.drop_last().len() == 0);
                        assert(total_degree(ft@.drop_last()) == 0);
                        assert(total_degree(ft@) == total_degree(ft@.drop_last()) + ft@.last().1);
                    }
                    ft.degree()
                },
            };
            assert(d == term_power(t, k));
            let mut single: Vec<(usize, FieldElement)> = Vec::new();
            single.push((d, c));
            let curr: UniPoly = UniPoly::from_coefficients_vec(single);
            let ghost prev = sum@;
            let next: UniPoly = curr.add(&sum);
            proof {
                let before = model.take(j as int);
                let after = model.take(j + 1);
                assert(after.drop_last() =~= before);
                assert(after.last() == model[j as int]);
                let one = coeffs_model(single@);
                assert(one =~= seq![(d, c@)]);
                assert(one.drop_last().len() == 0);
                assert(listed_max(one.drop_last()) == 0);
                assert(listed_max(one) == d);
                let m = modulus() as int;
                let a = term_scalar(t, rs, pts);
                assert forall|x: int| #[trigger]
                    uni_value(next@, x) % m == poly_value(after, round_point(rs, x, pts))
                        % m by {
                    let xp = pow(x, d as nat);
                    lemma_term_split(t, rs, x, pts);
                    assert(uni_value(one.drop_last(), x) == 0);
                    assert(uni_value(one, x) == c@ * xp);
                    lemma_mul_mod_noop_left(a, coeff@ as int, m);
                    assert(c@ == (a * coeff@) % m);
                    lemma_mul_mod_noop_left(a * coeff@, xp, m);
                    assert((c@ * xp) % m == ((a * coeff@) * xp) % m);
                    assert((a * coeff@) * xp == coeff@ * (a * xp)) by (nonlinear_arith);
                    let tv = coeff@ * term_value(t, round_point(rs, x, pts));
                    assert((c@ * xp) % m == tv % m);
                    let pv = poly_value(before, round_point(rs, x, pts));
                    assert(uni_value(curr@, x) % m == uni_value(one, x) % m);
                    lemma_add_mod_noop(uni_value(curr@, x), uni_value(prev, x), m);
                    lemma_add_mod_noop(tv, pv, m);
                }
                assert forall|e: nat| #[trigger]
                    coefficient(next@, e) == poly_value(
                        terms_with_power(after, k, e),
                        round_point(rs, 1, pts),
                    ) % m by {
                    let pv = poly_value(terms_with_power(before, k, e), round_point(rs, 1, pts));
                    assert(coefficient(prev, e) == pv % m);
                    assert(listed_sum(one.drop_last(), e) == 0);
                    if e == d {
                        lemma_term_split(t, rs, 1, pts);
                        lemma1_pow(d as nat);
                        assert(term_value(t, round_point(rs, 1, pts)) == a * 1);
                        lemma_mul_mod_noop_left(a, coeff@ as int, m);
                        assert(a * coeff@ == coeff@ * a) by (nonlinear_arith);
                        lemma_small_mod(c@, modulus());
                        lemma_add_mod_noop(coeff@ * a, pv, m);
                        assert(terms_with_power(after, k, e) == terms_with_power(before, k, e).push(
                            model[j as int],
                        ));
                        assert(terms_with_power(after, k, e).drop_last() =~= terms_with_power(
                            before,
                            k,
                            e,
                        ));
                    } else {
                        lemma_small_mod(0, modulus());
                        lemma_mod_twice(pv, m);
                    }
                }
            }
            sum = next;
            j = j + 1;
        }
        assert(model.take(n as int) =~= model);
        sum
    }

    /// The brute-force sum of `g` over the boolean hypercube: the polynomial
    /// is evaluated at each of the `2^n` points, in the canonical order,
    /// and the values are added.
    pub fn slow_sum(&self) -> (sum: FieldElement)
        requires
            self.g@.num_vars < 64,
        ensures
            sum@ == cube_sum(self.g@.terms, Seq::empty(), self.g@.num_vars) % (modulus() as int),
    {
        let ghost model = self.g@.terms;
        let v: usize = self.g.num_vars();
        let n: u64 = pow2_u64(v);
        let mut sum: FieldElement = FieldElement::zero();
        let mut i: u64 = 0;
        proof {
            lemma_small_mod(0, modulus());
        }
        while i < n
            invariant
                i <= n,
                n == pow2(v as nat),
                v == self.g@.num_vars,
                model == self.g@.terms,
                sum@ == enum_sum(model, Seq::empty(), v as nat, i as nat) % (modulus() as int),
            decreases n - i,
        {
            let point: Vec<FieldElement> = Prover::n_to_vec(i, v);
            proof {
                lemma_bits_len(i as nat, v as nat);
                assert(values(point@).len() == point@.len());
                assert(Seq::<int>::empty() + bits_be(i as nat, v as nat) =~= values(point@));
            }
            let value: FieldElement = match self.g.evaluate(&point) {
                Ok(y) => y,
                Err(_) => FieldElement::zero(),
            };
            let next: FieldElement = sum.add(&value);
            proof {
                lemma_add_mod_noop(
                    enum_sum(model, Seq::empty(), v as nat, i as nat),
                    poly_value(model, values(point@)),
                    modulus() as int,
                );
            }
            sum = next;
            i = i + 1;
        }
        proof {
            lemma_enum_is_cube_sum(model, Seq::empty(), v as nat);
        }
        sum
    }

    /// The message of the next round. A challenge, where one is given, is
    /// first appended to the history; the message is then the polynomial in
    /// the next free variable obtained by fixing the earlier variables to the
    /// history and summing over all boolean assignments to the later ones,
    /// in the canonical order.
    ///
    /// The message is stated by its value at every `x` and by its
    /// coefficient at every exponent `d`: the sum over the cube of the
    /// summands that hold the variable with power `d`, read at 1 for it.
    /// The enumeration index is a 64-bit integer, which bounds the number of
    /// variables.
    pub fn gen_uni_poly(&mut self, c: Option<FieldElement>) -> (res: UniPoly)
        requires
            old(self).g@.num_vars < 64,
            old(self).r_vec@.len() + (if c is Some {
                1int
            } else {
                0int
            }) < old(self).g@.num_vars,
        ensures
            final(self).g == old(self).g,
            final(self).r_vec@ == (match c {
                Some(x) => old(self).r_vec@.push(x),
                None => old(self).r_vec@,
            }),
            is_round_message(res@, final(self).g@, values(final(self).r_vec@)),
            forall|d: nat| #[trigger]
                coefficient(res@, d) == cube_sum(
                    terms_with_power(final(self).g@.terms, final(self).r_vec@.len(), d),
                    values(final(self).r_vec@).push(1),
                    (final(self).g@.num_vars - final(self).r_vec@.len() - 1) as nat,
                ) % (modulus() as int),
    {
        if c.is_some() {
            self.r_vec.push(c.unwrap());
        }
        let ghost model = self.g@.terms;
        let ghost rs = values(self.r_vec@);
        let v: usize = self.g.num_vars() - self.r_vec.len();
        let ghost w = (v - 1) as nat;
        let n: u64 = pow2_u64(v - 1);
        let mut sum: UniPoly = UniPoly::from_coefficients_vec(Vec::new());
        let mut i: u64 = 0;
        proof {
            assert(coeffs_model(Seq::<(usize, FieldElement)>::empty()).len() == 0);
            lemma_small_mod(0, modulus());
        }
        while i < n
            invariant
                i <= n,
                n == pow2(w),
                w == v - 1,
                v == self.g@.num_vars - self.r_vec@.len(),
                1 <= v,
                model == self.g@.terms,
                rs == values(self.r_vec@),
                forall|x: int| #[trigger]
                    uni_value(sum@, x) % (modulus() as int) == enum_sum(
                        model,
                        rs.push(x),
                        w,
                        i as nat,
                    ) % (modulus() as int),
                forall|d: nat| #[trigger]
                    coefficient(sum@, d) == enum_sum(
                        terms_with_power(model, rs.len(), d),
                        rs.push(1),
                        w,
                        i as nat,
                    ) % (modulus() as int),
                max_exponent(sum@) <= var_degree(model, rs.len()),
            decreases n - i,
        {
            let points: Vec<FieldElement> = Prover::n_to_vec(i, v);
            let ghost pts = values(points@);
            proof {
                lemma_bits_len(i as nat, v as nat);
                assert(pts.len() == points@.len());
                lemma_bits_leading(i as nat, w);
                assert(pts.skip(1) =~= bits_be(i as nat, w));
            }
            let part: UniPoly = self.evaluate_g_j(points);
            let ghost prev = sum@;
            let next: UniPoly = sum.add(&part);
            proof {
                let m = modulus() as int;
                assert forall|x: int| #[trigger]
                    uni_value(next@, x) % m == enum_sum(model, rs.push(x), w, (i + 1) as nat)
                        % m by {
                    assert(round_point(rs, x, pts) == rs.push(x) + bits_be(i as nat, w));
                    let pv = poly_value(model, rs.push(x) + bits_be(i as nat, w));
                    let es = enum_sum(model, rs.push(x), w, i as nat);
                    assert(uni_value(part@, x) % m == pv % m);
                    lemma_add_mod_noop(uni_value(prev, x), uni_value(part@, x), m);
                    lemma_add_mod_noop(es, pv, m);
                }
                assert forall|d: nat| #[trigger]
                    coefficient(next@, d) == enum_sum(
                        terms_with_power(model, rs.len(), d),
                        rs.push(1),
                        w,
                        (i + 1) as nat,
                    ) % m by {
                    let sel = terms_with_power(model, rs.len(), d);
                    assert(round_point(rs, 1, pts) == rs.push(1) + bits_be(i as nat, w));
                    let pv = poly_value(sel, rs.push(1) + bits_be(i as nat, w));
                    let es = enum_sum(sel, rs.push(1), w, i as nat);
                    assert(coefficient(prev, d) == es % m);
                    assert(coefficient(part@, d) == pv % m);
                    lemma_add_mod_noop(es, pv, m);
                }
            }
            sum = next;
            i = i + 1;
        }
        proof {
            assert forall|x: int| #[trigger]
                uni_value(sum@, x) % (modulus() as int) == cube_sum(model, rs.push(x), w) % (
                modulus() as int) by {
                lemma_enum_is_cube_sum(model, rs.push(x), w);
            }
            assert forall|d: nat| #[trigger]
                coefficient(sum@, d) == cube_sum(
                    terms_with_power(model, rs.len(), d),
                    rs.push(1),
                    w,
                ) % (modulus() as int) by {
                lemma_enum_is_cube_sum(terms_with_power(model, rs.len(), d), rs.push(1), w);
            }
        }
        sum
    }
}

/// The first message is consistent with the sum over the whole cube: its
/// values at 0 and at 1 add up to that sum.
pub proof fn lemma_first_round_consistency(u: Seq<(usize, nat)>, g: PolyModel)
    requires
        is_round_message(u, g, Seq::empty()),
    ensures
        (uni_value(u, 0) + uni_value(u, 1)) % (modulus() as int) == cube_sum(
            g.terms,
            Seq::empty(),
            g.num_vars,
        ) % (modulus() as int),
{
    let m = modulus() as int;
    let e = Seq::<int>::empty();
    let w = (g.num_vars - 1) as nat;
    assert(uni_value(u, 0) % m == cube_sum(g.terms, e.push(0), w) % m);
    assert(uni_value(u, 1) % m == cube_sum(g.terms, e.push(1), w) % m);
    lemma_add_mod_noop(uni_value(u, 0), uni_value(u, 1), m);
    lemma_add_mod_noop(cube_sum(g.terms, e.push(0), w), cube_sum(g.terms, e.push(1), w), m);
}

/// Every later message is consistent with the one before it: where `prev`
/// is the message after the challenges `rs` and `next` the message after
/// `rs` and then `r`, the values of `next` at 0 and at 1 add up to the
/// value of `prev` at `r`.
pub proof fn lemma_round_consistency(
    prev: Seq<(usize, nat)>,
    next: Seq<(usize, nat)>,
    g: PolyModel,
    rs: Seq<int>,
    r: int,
)
    requires
        is_round_message(prev, g, rs),
        is_round_message(next, g, rs.push(r)),
    ensures
        (uni_value(next, 0) + uni_value(next, 1)) % (modulus() as int) == uni_value(prev, r) % (
        modulus() as int),
{
    let m = modulus() as int;
    let q = rs.push(r);
    let w = (g.num_vars - q.len() - 1) as nat;
    assert(uni_value(next, 0) % m == cube_sum(g.terms, q.push(0), w) % m);
    assert(uni_value(next, 1) % m == cube_sum(g.terms, q.push(1), w) % m);
    lemma_add_mod_noop(uni_value(next, 0), uni_value(next, 1), m);
    lemma_add_mod_noop(cube_sum(g.terms, q.push(0), w), cube_sum(g.terms, q.push(1), w), m);
    assert(uni_value(prev, r) % m == cube_sum(g.terms, q, (g.num_vars - rs.len() - 1) as nat) % m);
}

/// The degree of the message of a round is at most the largest power with
/// which the variable of that round occurs in the polynomial.
pub proof fn lemma_degree_invariant(u: Seq<(usize, nat)>, g: PolyModel, rs: Seq<int>)
    requires
        is_sparse_poly(u),
        is_round_message(u, g, rs),
    ensures
        uni_degree(u) <= var_degree(g.terms, rs.len()),
{
    lemma_degree_le_max_exponent(u);
}

/// The last message agrees with the polynomial itself: its value at the
/// last challenge is the value of the polynomial at the whole challenge
/// vector.
pub proof fn lemma_final_equivalence(u: Seq<(usize, nat)>, g: PolyModel, rs: Seq<int>, r: int)
    requires
        is_round_message(u, g, rs),
        rs.len() + 1 == g.num_vars,
    ensures
        uni_value(u, r) % (modulus() as int) == poly_value(g.terms, rs.push(r)) % (
        modulus() as int),
{
    assert(uni_value(u, r) % (modulus() as int) == cube_sum(g.terms, rs.push(r), 0) % (
    modulus() as int));
}

/// Why a run was rejected or refused.
#[derive(Clone, Copy, Debug, PartialEq, Eq, Structural)]
pub enum Violation {
    /// A vector of challenges whose length is not the number of variables.
    DimensionMismatch,
    /// The values of a message at 0 and at 1 do not add up to the expected
    /// value.
    RoundConsistencyViolation,
    /// The degree of a message is above the bound for its variable.
    DegreeBoundViolation,
    /// The polynomial at the challenge vector is not the value of the last
    /// message at the last challenge.
    FinalCheckViolation,
}

/// What the verifier answers to one message: the message has to add up to
/// `expected` over 0 and 1, and its degree must not be above `bound`.
pub open spec fn round_verdict(message: Seq<(usize, nat)>, expected: nat, bound: nat) -> Result<
    (),
    Violation,
> {
    if (uni_value(message, 0) + uni_value(message, 1)) % (modulus() as int) != expected {
        Err(Violation::RoundConsistencyViolation)
    } else if uni_degree(message) > bound {
        Err(Violation::DegreeBoundViolation)
    } else {
        Ok(())
    }
}

/// What the verifier answers at the end: the polynomial at the challenge
/// vector has to be `expected`.
pub open spec fn final_verdict(g: PolyModel, point: Seq<int>, expected: nat) -> Result<
    (),
    Violation,
> {
    if point.len() != g.num_vars {
        Err(Violation::DimensionMismatch)
    } else if poly_value(g.terms, point) % (modulus() as int) != expected {
        Err(Violation::FinalCheckViolation)
    } else {
        Ok(())
    }
}

/// The outcome of a run against the honest prover: the claim is accepted
/// when it is the sum of the polynomial over the boolean hypercube, and
/// rejected in the first round otherwise.
pub open spec fn run_verdict(g: PolyModel, claim: nat) -> Result<(), Violation> {
    if claim == cube_sum(g.terms, Seq::empty(), g.num_vars) % (modulus() as int) {
        Ok(())
    } else {
        Err(Violation::RoundConsistencyViolation)
    }
}

/// The verifier: a snapshot of the prover and the claimed sum.
pub struct Verifier {
    pub p: Prover,
    pub c_1: FieldElement,
}

impl Verifier {
    /// A verifier for the claim that the polynomial of `p` sums to `c_1`
    /// over the boolean hypercube.
    pub fn new(p: &Prover, c_1: FieldElement) -> (v: Self)
        ensures
            v.p.g@ == p.g@,
            v.p.r_vec@ == p.r_vec@,
            v.c_1 == c_1,
    {
        Verifier { p: p.clone(), c_1 }
    }

    /// The largest power of each variable in the polynomial: the bound on
    /// the degree of the message of each round.
    pub fn max_degree(&self) -> (lookup: Vec<usize>)
        ensures
            lookup@.len() == self.p.g@.num_vars,
            forall|v: int|
                0 <= v < lookup@.len() ==> lookup@[v] == var_degree(self.p.g@.terms, v as nat),
    {
        self.p.g.max_degree_per_variable()
    }

    /// A fresh challenge, drawn uniformly at random from the field.
    pub fn get_r() -> (r: Option<FieldElement>)
        ensures
            r is Some,
    {
        Some(FieldElement::random())
    }

    /// Checks one message: its values at 0 and at 1 have to add up to
    /// `expected`, and its degree must not be above `degree_bound`.
    pub fn check_round(message: &UniPoly, expected: &FieldElement, degree_bound: usize) -> (res:
        Result<(), Violation>)
        ensures
            res == round_verdict(message@, expected@, degree_bound as nat),
    {
        let at_zero: FieldElement = message.evaluate(&FieldElement::zero());
        let at_one: FieldElement = message.evaluate(&FieldElement::one());
        let sum: FieldElement = at_zero.add(&at_one);
        proof {
            lemma_add_mod_noop(uni_value(message@, 0), uni_value(message@, 1), modulus() as int);
            if sum@ == expected@ {
                lemma_value_determines_element(sum, *expected);
            }
        }
        if sum != *expected {
            return Err(Violation::RoundConsistencyViolation);
        }
        if message.degree() > degree_bound {
            return Err(Violation::DegreeBoundViolation);
        }
        Ok(())
    }

    /// Checks the end of a run: the polynomial at the whole challenge vector
    /// has to be `expected`, the value of the last message at the last
    /// challenge.
    pub fn check_final(g: &MultiPoly, point: &Vec<FieldElement>, expected: &FieldElement) -> (res:
        Result<(), Violation>)
        ensures
            res == final_verdict(g@, values(point@), expected@),
    {
        match g.evaluate(point) {
            Err(_) => Err(Violation::DimensionMismatch),
            Ok(value) => {
                proof {
                    if value@ == expected@ {
                        lemma_value_determines_element(value, *expected);
                    }
                }
                if value != *expected {
                    Err(Violation::FinalCheckViolation)
                } else {
                    Ok(())
                }
            },
        }
    }

    /// The challenge of round `i`: the `i`-th of the given ones, or a fresh
    /// random draw where none are given.
    fn challenge(challenges: Option<&Vec<FieldElement>>, i: usize) -> (r: FieldElement)
        requires
            challenges is Some ==> i < challenges.unwrap()@.len(),
        ensures
            challenges is Some ==> r == challenges.unwrap()@[i as int],
    {
        match challenges {
            Some(cs) => cs[i],
            None => {
                match Verifier::get_r() {
                    Some(r) => r,
                    None => FieldElement::zero(),
                }
            },
        }
    }

    /// Plays all rounds against the prover, with the given challenges or
    /// with fresh random ones.
    fn run(&self, challenges: Option<&Vec<FieldElement>>) -> (res: Result<(), Violation>)
        requires
            self.p.r_vec@.len() == 0,
            1 <= self.p.g@.num_vars < 64,
            challenges is Some ==> challenges.unwrap()@.len() == self.p.g@.num_vars,
        ensures
            res == run_verdict(self.p.g@, self.c_1@),
    {
        let ghost g = self.p.g@;
        let ghost m = modulus() as int;
        // first round
        let mut p: Prover = self.p.clone();
        let mut g_i: UniPoly = p.gen_uni_poly(None);
        let lookup_degree: Vec<usize> = self.max_degree();
        let n: usize = p.g.num_vars();
        proof {
            use_type_invariant(&g_i);
            assert(values(p.r_vec@) =~= Seq::<int>::empty());
            lemma_first_round_consistency(g_i@, g);
            lemma_degree_invariant(g_i@, g, Seq::empty());
        }
        match Verifier::check_round(&g_i, &self.c_1, lookup_degree[0]) {
            Err(e) => {
                return Err(e);
            },
            Ok(_) => {},
        }
        // middle rounds
        let mut j: usize = 1;
        while j < n
            invariant
                1 <= j <= n,
                n == g.num_vars,
                n < 64,
                g == self.p.g@,
                p.g@ == g,
                m == modulus() as int,
                p.r_vec@.len() == j - 1,
                challenges is Some ==> challenges.unwrap()@.len() == n,
                lookup_degree@.len() == n,
                forall|v: int| 0 <= v < n ==> lookup_degree@[v] == var_degree(g.terms, v as nat),
                is_round_message(g_i@, g, values(p.r_vec@)),
                run_verdict(g, self.c_1@) == Ok::<(), Violation>(()),
            decreases n - j,
        {
            let r: FieldElement = Verifier::challenge(challenges, j - 1);
            let expected_c: FieldElement = g_i.evaluate(&r);
            let ghost prev = g_i@;
            let ghost rs = values(p.r_vec@);
            g_i = p.gen_uni_poly(Some(r));
            proof {
                use_type_invariant(&g_i);
                assert(values(p.r_vec@) =~= rs.push(r@ as int));
                lemma_round_consistency(prev, g_i@, g, rs, r@ as int);
                lemma_degree_invariant(g_i@, g, rs.push(r@ as int));
            }
            match Verifier::check_round(&g_i, &expected_c, lookup_degree[j]) {
                Err(e) => {
                    return Err(e);
                },
                Ok(_) => {},
            }
            j = j + 1;
        }
        // last round
        let r: FieldElement = Verifier::challenge(challenges, n - 1);
        let expected_c: FieldElement = g_i.evaluate(&r);
        let ghost rs = values(p.r_vec@);
        p.r_vec.push(r);
        proof {
            assert(values(p.r_vec@) =~= rs.push(r@ as int));
            lemma_final_equivalence(g_i@, g, rs, r@ as int);
        }
        Verifier::check_final(&p.g, &p.r_vec, &expected_c)
    }

    /// Runs the protocol with fresh random challenges. The prover is
    /// honest, so whatever challenges are drawn the claim is accepted when
    /// it is the true sum over the hypercube, and rejected in the first
    /// round when it is not.
    pub fn verify(&self) -> (res: Result<(), Violation>)
        requires
            self.p.r_vec@.len() == 0,
            1 <= self.p.g@.num_vars < 64,
        ensures
            res == run_verdict(self.p.g@, self.c_1@),
    {
        self.run(None)
    }

    /// Runs the protocol with the given challenges, one for each variable,
    /// in place of random draws.
    pub fn verify_with_challenges(&self, challenges: &Vec<FieldElement>) -> (res: Result<
        (),
        Violation,
    >)
        requires
            self.p.r_vec@.len() == 0,
            1 <= self.p.g@.num_vars < 64,
        ensures
            res == (if challenges@.len() != self.p.g@.num_vars {
                Err(Violation::DimensionMismatch)
            } else {
                run_verdict(self.p.g@, self.c_1@)
            }),
    {
        if challenges.len() != self.p.g.num_vars() {
            return Err(Violation::DimensionMismatch);
        }
        self.run(Some(challenges))
    }
}

} // verus!
