//! Sparse multivariate polynomials over the field.
//!
//! A term is a product of powers of variables; a polynomial is an ordered
//! list of terms with coefficients, together with the number of variables
//! it is declared over.

use crate::error::DimensionError;
use crate::field::{modulus, values, FieldElement};
use vstd::arithmetic::div_mod::*;
use vstd::arithmetic::power::*;
use vstd::prelude::*;

verus! {

/// A list of `(variable, power)` pairs is a term when no variable is named
/// twice and every power is positive: a finite mapping from variable to
/// positive exponent.
pub open spec fn is_term(t: Seq<(usize, usize)>) -> bool {
    &&& forall|i: int, j: int| 0 <= i < j < t.len() ==> t[i].0 != t[j].0
    &&& forall|i: int| 0 <= i < t.len() ==> t[i].1 > 0
}

/// Every variable of the term is below `n`.
pub open spec fn term_in_range(t: Seq<(usize, usize)>, n: nat) -> bool {
    forall|i: int| 0 <= i < t.len() ==> (#[trigger] t[i]).0 < n
}

/// The product of `point[variable] ^ power` over the pairs of the term, as
/// an integer.
pub open spec fn term_value(t: Seq<(usize, usize)>, point: Seq<int>) -> int
    decreases t.len(),
{
    if t.len() == 0 {
        1
    } else {
        term_value(t.drop_last(), point) * pow(point[t.last().0 as int], t.last().1 as nat)
    }
}

/// The power with which variable `v` occurs in the term, zero where it does
/// not occur.
pub open spec fn term_power(t: Seq<(usize, usize)>, v: nat) -> nat
    decreases t.len(),
{
    if t.len() == 0 {
        0
    } else if t.last().0 == v {
        t.last().1 as nat
    } else {
        term_power(t.drop_last(), v)
    }
}

/// The sum of the powers of the term.
pub open spec fn total_degree(t: Seq<(usize, usize)>) -> nat
    decreases t.len(),
{
    if t.len() == 0 {
        0
    } else {
        total_degree(t.drop_last()) + t.last().1 as nat
    }
}

/// The sum of `coefficient * term_value` over the terms, as an integer. The
/// value of the polynomial in the field is this sum modulo `modulus()`.
pub open spec fn poly_value(terms: Seq<(nat, Seq<(usize, usize)>)>, point: Seq<int>) -> int
    decreases terms.len(),
{
    if terms.len() == 0 {
        0
    } else {
        poly_value(terms.drop_last(), point) + terms.last().0 * term_value(terms.last().1, point)
    }
}

/// The largest power with which variable `v` occurs in any term, zero where
/// it occurs in none.
pub open spec fn var_degree(terms: Seq<(nat, Seq<(usize, usize)>)>, v: nat) -> nat
    decreases terms.len(),
{
    if terms.len() == 0 {
        0
    } else {
        let rest = var_degree(terms.drop_last(), v);
        let here = term_power(terms.last().1, v);
        if here > rest {
            here
        } else {
            rest
        }
    }
}

/// The mathematical content of a polynomial: the number of variables and
/// the coefficient and term of each summand, in order.
pub struct PolyModel {
    pub num_vars: nat,
    pub terms: Seq<(nat, Seq<(usize, usize)>)>,
}

/// Every summand is a term over variables below `num_vars`, with a
/// coefficient below the field order.
pub open spec fn is_polynomial(g: PolyModel) -> bool {
    forall|i: int|
        0 <= i < g.terms.len() ==> {
            &&& is_term((#[trigger] g.terms[i]).1)
            &&& term_in_range(g.terms[i].1, g.num_vars)
            &&& g.terms[i].0 < modulus()
        }
}

/// `((a % m) * (b % m)) % m` is `(a * b) % m`, and likewise for sums, for
/// the field order `m`.
pub proof fn lemma_mod_step(a: int, b: int)
    ensures
        ((a % (modulus() as int)) * (b % (modulus() as int))) % (modulus() as int) == (a * b) % (
        modulus() as int),
        ((a % (modulus() as int)) + (b % (modulus() as int))) % (modulus() as int) == (a + b) % (
        modulus() as int),
{
    lemma_mul_mod_noop(a, b, modulus() as int);
    lemma_add_mod_noop(a, b, modulus() as int);
}

/// A term of a multivariate polynomial.
pub struct SparseTerm {
    vars: Vec<(usize, usize)>,
}

impl View for SparseTerm {
    type V = Seq<(usize, usize)>;

    closed spec fn view(&self) -> Seq<(usize, usize)> {
        self.vars@
    }
}

impl Clone for SparseTerm {
    fn clone(&self) -> (r: Self)
        ensures
            r@ == self@,
    {
        proof {
            use_type_invariant(self);
        }
        let mut vars: Vec<(usize, usize)> = Vec::new();
        let mut i: usize = 0;
        while i < self.vars.len()
            invariant
                i <= self.vars.len(),
                vars@ == self.vars@.take(i as int),
            decreases self.vars.len() - i,
        {
            vars.push(self.vars[i]);
            assert(self.vars@.take(i + 1) =~= self.vars@.take(i as int).push(self.vars@[i as int]));
            i = i + 1;
        }
        assert(self.vars@.take(self.vars.len() as int) =~= self.vars@);
        SparseTerm { vars }
    }
}

impl SparseTerm {
    /// No variable is named twice, and every power is positive.
    #[verifier::type_invariant]
    pub open spec fn well_formed(self) -> bool {
        is_term(self@)
    }

    /// Makes a term of a list of `(variable, power)` pairs, in any order. A
    /// list that names a variable twice or holds a power of zero is no
    /// mapping to positive exponents and yields `None`.
    pub fn new(term: Vec<(usize, usize)>) -> (r: Option<Self>)
        ensures
            r is Some <==> is_term(term@),
            r is Some ==> r.unwrap()@ == term@,
    {
        let n: usize = term.len();
        let mut j: usize = 0;
        while j < n
            invariant
                j <= n,
                n == term.len(),
                forall|k: int| 0 <= k < j ==> term@[k].1 > 0,
                forall|i: int, k: int| 0 <= i < k < j ==> term@[i].0 != term@[k].0,
            decreases n - j,
        {
            if term[j].1 == 0 {
                return None;
            }
            let mut i: usize = 0;
            while i < j
                invariant
                    i <= j,
                    j < n,
                    n == term.len(),
                    forall|k: int| 0 <= k < i ==> term@[k].0 != term@[j as int].0,
                decreases j - i,
            {
                if term[i].0 == term[j].0 {
                    return None;
                }
                i = i + 1;
            }
            j = j + 1;
        }
        Some(SparseTerm { vars: term })
    }

    /// The number of variables that occur in the term.
    pub fn len(&self) -> (n: usize)
        ensures
            n == self@.len(),
    {
        self.vars.len()
    }

    /// The `i`-th `(variable, power)` pair of the term.
    pub fn get(&self, i: usize) -> (e: (usize, usize))
        requires
            i < self@.len(),
        ensures
            e == self@[i as int],
    {
        self.vars[i]
    }

    /// The total degree of the term: the sum of its powers. The sum has to
    /// fit in `usize`.
    pub fn degree(&self) -> (d: usize)
        requires
            total_degree(self@) <= usize::MAX,
        ensures
            d == total_degree(self@),
    {
        let n: usize = self.vars.len();
        let mut d: usize = 0;
        let mut j: usize = 0;
        assert(self.vars@.take(0).len() == 0);
        while j < n
            invariant
                j <= n,
                n == self.vars.len(),
                total_degree(self@) <= usize::MAX,
                d == total_degree(self.vars@.take(j as int)),
            decreases n - j,
        {
            proof {
                assert(self.vars@.take(j + 1).drop_last() =~= self.vars@.take(j as int));
                lemma_total_degree_prefix(self.vars@, j + 1);
            }
            d = d + self.vars[j].1;
            j = j + 1;
        }
        assert(self.vars@.take(n as int) =~= self.vars@);
        d
    }

    /// The value of the term at `point`: the product of the powers of the
    /// coordinates that the term names.
    pub fn evaluate(&self, point: &Vec<FieldElement>) -> (r: FieldElement)
        requires
            term_in_range(self@, point@.len()),
        ensures
            r@ == term_value(self@, values(point@)) % (modulus() as int),
    {
        let ghost pt = values(point@);
        let mut acc: FieldElement = FieldElement::one();
        let n: usize = self.vars.len();
        let mut j: usize = 0;
        proof {
            lemma_small_mod(1, modulus());
            assert(self.vars@.take(0).len() == 0);
        }
        while j < n
            invariant
                j <= n,
                n == self.vars.len(),
                pt == values(point@),
                term_in_range(self@, point@.len()),
                acc@ == term_value(self.vars@.take(j as int), pt) % (modulus() as int),
            decreases n - j,
        {
            let e: (usize, usize) = self.vars[j];
            assert(e == self@[j as int]);
            let f: FieldElement = point[e.0].pow(e.1 as u64);
            let next: FieldElement = acc.mul(&f);
            proof {
                let before = self.vars@.take(j as int);
                let after = self.vars@.take(j + 1);
                assert(after.drop_last() =~= before);
                assert(after.last() == e);
                assert(pt[e.0 as int] == point@[e.0 as int]@);
                lemma_mod_step(term_value(before, pt), pow(pt[e.0 as int], e.1 as nat));
            }
            acc = next;
            j = j + 1;
        }
        assert(self.vars@.take(n as int) =~= self.vars@);
        acc
    }
}

/// The coefficient values and term lists of a list of summands.
pub open spec fn terms_model(s: Seq<(FieldElement, SparseTerm)>) -> Seq<(nat, Seq<(usize, usize)>)> {
    s.map_values(|e: (FieldElement, SparseTerm)| (e.0@, e.1@))
}

/// A sparse multivariate polynomial over `num_vars` variables.
pub struct MultiPoly {
    num_vars: usize,
    terms: Vec<(FieldElement, SparseTerm)>,
}

impl View for MultiPoly {
    type V = PolyModel;

    closed spec fn view(&self) -> PolyModel {
        PolyModel { num_vars: self.num_vars as nat, terms: terms_model(self.terms@) }
    }
}

impl Clone for MultiPoly {
    fn clone(&self) -> (r: Self)
        ensures
            r@ == self@,
    {
        proof {
            use_type_invariant(self);
        }
        let mut terms: Vec<(FieldElement, SparseTerm)> = Vec::new();
        let mut i: usize = 0;
        while i < self.terms.len()
            invariant
                i <= self.terms.len(),
                is_polynomial(self@),
                terms@.len() == i,
                forall|k: int|
                    0 <= k < i ==> (#[trigger] terms@[k]).0@ == self.terms@[k].0@ && terms@[k].1@
                        == self.terms@[k].1@,
            decreases self.terms.len() - i,
        {
            let c: FieldElement = self.terms[i].0;
            let t: SparseTerm = self.terms[i].1.clone();
            terms.push((c, t));
            i = i + 1;
        }
        assert(terms_model(terms@) =~= terms_model(self.terms@));
        MultiPoly { num_vars: self.num_vars, terms }
    }
}

impl MultiPoly {
    /// Every summand is a term over the declared variables.
    #[verifier::type_invariant]
    pub open spec fn well_formed(self) -> bool {
        is_polynomial(self@)
    }

    /// Makes a polynomial over `num_vars` variables of a list of
    /// coefficients and terms. A term that names a variable that is not
    /// below `num_vars` yields `None`.
    pub fn from_coefficients_vec(num_vars: usize, terms: Vec<(FieldElement, SparseTerm)>) -> (r:
        Option<Self>)
        ensures
            r is Some <==> (forall|i: int|
                0 <= i < terms@.len() ==> term_in_range((#[trigger] terms@[i]).1@, num_vars as nat)),
            r is Some ==> r.unwrap()@ == (PolyModel {
                num_vars: num_vars as nat,
                terms: terms_model(terms@),
            }),
    {
        let n: usize = terms.len();
        let mut i: usize = 0;
        while i < n
            invariant
                i <= n,
                n == terms.len(),
                forall|k: int|
                    0 <= k < i ==> {
                        &&& is_term((#[trigger] terms@[k]).1@)
                        &&& term_in_range(terms@[k].1@, num_vars as nat)
                        &&& terms@[k].0@ < modulus()
                    },
            decreases n - i,
        {
            let t: &SparseTerm = &terms[i].1;
            let c: &FieldElement = &terms[i].0;
            proof {
                use_type_invariant(t);
                use_type_invariant(c);
            }
            let m: usize = t.len();
            let mut j: usize = 0;
            while j < m
                invariant
                    j <= m,
                    m == t@.len(),
                    i < terms@.len(),
                    t@ == terms@[i as int].1@,
                    forall|k: int| 0 <= k < j ==> (#[trigger] t@[k]).0 < num_vars,
                decreases m - j,
            {
                if t.get(j).0 >= num_vars {
                    assert(!(t@[j as int].0 < num_vars));
                    assert(!term_in_range(terms@[i as int].1@, num_vars as nat));
                    return None;
                }
                j = j + 1;
            }
            i = i + 1;
        }
        Some(MultiPoly { num_vars, terms })
    }

    /// The number of variables the polynomial is declared over.
    pub fn num_vars(&self) -> (n: usize)
        ensures
            n == self@.num_vars,
    {
        self.num_vars
    }

    /// The summands of the polynomial, in order.
    pub fn terms(&self) -> (t: &Vec<(FieldElement, SparseTerm)>)
        ensures
            terms_model(t@) == self@.terms,
    {
        &self.terms
    }

    /// The value of the polynomial at `point`: the sum over the summands of
    /// the coefficient times the value of the term. A point whose length is
    /// not the number of variables is refused.
    pub fn evaluate(&self, point: &Vec<FieldElement>) -> (r: Result<FieldElement, DimensionError>)
        ensures
            r is Err <==> point@.len() != self@.num_vars,
            r is Ok ==> r.unwrap()@ == poly_value(self@.terms, values(point@)) % (modulus() as int),
    {
        if point.len() != self.num_vars {
            return Err(DimensionError);
        }
        proof {
            use_type_invariant(self);
            lemma_small_mod(0, modulus());
        }
        let ghost pt = values(point@);
        let ghost model = self@.terms;
        let mut acc: FieldElement = FieldElement::zero();
        let n: usize = self.terms.len();
        let mut i: usize = 0;
        while i < n
            invariant
                i <= n,
                n == self.terms.len(),
                pt == values(point@),
                model == self@.terms,
                is_polynomial(self@),
                point@.len() == self@.num_vars,
                acc@ == poly_value(model.take(i as int), pt) % (modulus() as int),
            decreases n - i,
        {
            assert(model[i as int] == (self.terms@[i as int].0@, self.terms@[i as int].1@));
            let tv: FieldElement = self.terms[i].1.evaluate(point);
            let prod: FieldElement = self.terms[i].0.mul(&tv);
            let next: FieldElement = acc.add(&prod);
            proof {
                let before = model.take(i as int);
                let after = model.take(i + 1);
                assert(after.drop_last() =~= before);
                assert(after.last() == model[i as int]);
                let c = model[i as int].0 as int;
                let v = term_value(model[i as int].1, pt);
                lemma_mul_mod_noop_right(c, v, modulus() as int);
                lemma_add_mod_noop(poly_value(before, pt), c * v, modulus() as int);
            }
            acc = next;
            i = i + 1;
        }
        assert(model.take(n as int) =~= model);
        Ok(acc)
    }

    /// For each variable, the largest power with which it occurs in any
    /// term; zero for a variable that occurs in none.
    pub fn max_degree_per_variable(&self) -> (lookup: Vec<usize>)
        ensures
            lookup@.len() == self@.num_vars,
            forall|v: int|
                0 <= v < lookup@.len() ==> lookup@[v] == var_degree(self@.terms, v as nat),
    {
        proof {
            use_type_invariant(self);
        }
        let ghost model = self@.terms;
        let nv: usize = self.num_vars;
        let mut lookup: Vec<usize> = Vec::new();
        let mut k: usize = 0;
        while k < nv
            invariant
                k <= nv,
                lookup@.len() == k,
                forall|v: int| 0 <= v < k ==> lookup@[v] == 0,
            decreases nv - k,
        {
            lookup.push(0);
            k = k + 1;
        }
        let n: usize = self.terms.len();
        let mut i: usize = 0;
        assert(model.take(0).len() == 0);
        while i < n
            invariant
                i <= n,
                n == self.terms.len(),
                nv == self.num_vars,
                model == self@.terms,
                is_polynomial(self@),
                lookup@.len() == nv,
                forall|v: int|
                    0 <= v < nv ==> lookup@[v] == var_degree(model.take(i as int), v as nat),
            decreases n - i,
        {
            let t: &SparseTerm = &self.terms[i].1;
            let ghost ts = t@;
            assert(model[i as int] == (self.terms@[i as int].0@, self.terms@[i as int].1@));
            assert(is_term(ts) && term_in_range(ts, nv as nat));
            let m: usize = t.len();
            let mut j: usize = 0;
            assert(ts.take(0).len() == 0);
            while j < m
                invariant
                    j <= m,
                    m == ts.len(),
                    ts == t@,
                    is_term(ts),
                    term_in_range(ts, nv as nat),
                    lookup@.len() == nv,
                    forall|v: int|
                        0 <= v < nv ==> lookup@[v] == (if term_power(ts.take(j as int), v as nat)
                            > var_degree(model.take(i as int), v as nat) {
                            term_power(ts.take(j as int), v as nat)
                        } else {
                            var_degree(model.take(i as int), v as nat)
                        }),
                decreases m - j,
            {
                let e: (usize, usize) = t.get(j);
                assert(e == ts[j as int]);
                proof {
                    assert(ts.take(j + 1).drop_last() =~= ts.take(j as int));
                    assert(ts.take(j + 1).last() == e);
                    lemma_power_absent(ts.take(j as int), e.0 as nat);
                }
                if e.1 > lookup[e.0] {
                    lookup.set(e.0, e.1);
                }
                j = j + 1;
            }
            proof {
                assert(ts.take(m as int) =~= ts);
                assert(model.take(i + 1).drop_last() =~= model.take(i as int));
                assert(model.take(i + 1).last() == model[i as int]);
            }
            i = i + 1;
        }
        assert(model.take(n as int) =~= model);
        lookup
    }
}

/// The powers of a prefix of a term sum to no more than those of the term.
pub proof fn lemma_total_degree_prefix(t: Seq<(usize, usize)>, k: int)
    requires
        0 <= k <= t.len(),
    ensures
        total_degree(t.take(k)) <= total_degree(t),
    decreases t.len(),
{
    if k == t.len() {
        assert(t.take(k) =~= t);
    } else {
        assert(t.drop_last().take(k) =~= t.take(k));
        lemma_total_degree_prefix(t.drop_last(), k);
    }
}

/// A variable that no pair of the list names has power zero in it.
pub proof fn lemma_power_absent(t: Seq<(usize, usize)>, v: nat)
    requires
        forall|i: int| 0 <= i < t.len() ==> (#[trigger] t[i]).0 != v,
    ensures
        term_power(t, v) == 0,
    decreases t.len(),
{
    if t.len() > 0 {
        assert(t.last() == t[t.len() - 1]);
        lemma_power_absent(t.drop_last(), v);
    }
}

} // verus!
