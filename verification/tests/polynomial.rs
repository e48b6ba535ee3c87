use ark_ff::{BigInt, PrimeField};
use ark_poly::univariate::SparsePolynomial;
use ark_poly::Polynomial;
use interactive_proofs::error::DimensionError;
use interactive_proofs::field::FieldElement;
use interactive_proofs::multivariate::{MultiPoly, SparseTerm};
use interactive_proofs::univariate::UniPoly;

fn fe(x: u64) -> FieldElement {
    FieldElement::from_u64(x)
}

fn term(t: Vec<(usize, usize)>) -> SparseTerm {
    SparseTerm::new(t).unwrap()
}

/// `2 x0^3 + x0 x2 + x1 x2`
fn sample() -> MultiPoly {
    MultiPoly::from_coefficients_vec(
        3,
        vec![
            (fe(2), term(vec![(0, 3)])),
            (fe(1), term(vec![(0, 1), (2, 1)])),
            (fe(1), term(vec![(1, 1), (2, 1)])),
        ],
    )
    .unwrap()
}

fn minus(x: u64) -> FieldElement {
    // the modulus minus x, for small x
    FieldElement::from_words(
        0x43e1f593f0000001 - x,
        0x2833e84879b97091,
        0xb85045b68181585d,
        0x30644e72e131a029,
    )
    .unwrap()
}

#[test]
fn terms_are_mappings_to_positive_powers() {
    assert!(SparseTerm::new(vec![]).is_some());
    assert!(SparseTerm::new(vec![(0, 1), (2, 5)]).is_some());
    assert!(SparseTerm::new(vec![(2, 1), (0, 1)]).is_some());
    assert!(SparseTerm::new(vec![(1, 1), (1, 2)]).is_none());
    assert!(SparseTerm::new(vec![(3, 1), (0, 2), (3, 1)]).is_none());
    assert!(SparseTerm::new(vec![(0, 0)]).is_none());
    assert!(SparseTerm::new(vec![(0, 1), (4, 0)]).is_none());
    let u = term(vec![(2, 1), (0, 3)]);
    assert_eq!((u.get(0), u.get(1)), ((2, 1), (0, 3)));
    assert_eq!(u.evaluate(&vec![fe(2), fe(9), fe(5)]), fe(40));
    let t = term(vec![(0, 2), (3, 4)]);
    assert_eq!(t.len(), 2);
    assert_eq!(t.get(0), (0, 2));
    assert_eq!(t.get(1), (3, 4));
    assert_eq!(t.degree(), 6);
    assert_eq!(term(vec![]).degree(), 0);
    let c = t.clone();
    assert_eq!((c.len(), c.get(1)), (2, (3, 4)));
}

#[test]
fn term_values() {
    let point = vec![fe(2), fe(3), fe(5), fe(7)];
    assert_eq!(term(vec![]).evaluate(&point), fe(1));
    assert_eq!(term(vec![(0, 3)]).evaluate(&point), fe(8));
    assert_eq!(term(vec![(0, 2), (3, 2)]).evaluate(&point), fe(4 * 49));
    assert_eq!(term(vec![(1, 1), (2, 1), (3, 1)]).evaluate(&point), fe(105));
}

#[test]
fn polynomial_values() {
    let g = sample();
    assert_eq!(g.num_vars(), 3);
    assert_eq!(g.terms().len(), 3);
    assert_eq!(g.terms()[0].0, fe(2));
    assert_eq!(g.terms()[1].1.get(1), (2, 1));
    // 2 * 125 + 5 * 11 + 7 * 11
    assert_eq!(g.evaluate(&vec![fe(5), fe(7), fe(11)]), Ok(fe(382)));
    assert_eq!(g.evaluate(&vec![fe(0), fe(0), fe(0)]), Ok(fe(0)));
    assert_eq!(g.evaluate(&vec![fe(1), fe(1), fe(1)]), Ok(fe(4)));
    assert_eq!(g.evaluate(&vec![fe(1), fe(0), fe(1)]), Ok(fe(3)));
    let h = g.clone();
    assert_eq!(h.evaluate(&vec![fe(5), fe(7), fe(11)]), Ok(fe(382)));
}

#[test]
fn points_of_the_wrong_length_are_refused() {
    let g = sample();
    assert_eq!(g.evaluate(&vec![fe(5), fe(7)]), Err(DimensionError));
    assert_eq!(g.evaluate(&vec![fe(5), fe(7), fe(11), fe(13)]), Err(DimensionError));
    assert_eq!(g.evaluate(&vec![]), Err(DimensionError));
}

#[test]
fn variables_have_to_be_declared() {
    assert!(MultiPoly::from_coefficients_vec(2, vec![(fe(1), term(vec![(2, 1)]))]).is_none());
    assert!(MultiPoly::from_coefficients_vec(3, vec![(fe(1), term(vec![(2, 1)]))]).is_some());
    assert!(MultiPoly::from_coefficients_vec(0, vec![]).is_some());
    assert!(MultiPoly::from_coefficients_vec(0, vec![(fe(1), term(vec![]))]).is_some());
    assert!(MultiPoly::from_coefficients_vec(
        2,
        vec![(fe(1), term(vec![(0, 1)])), (fe(1), term(vec![(0, 1), (5, 1)]))]
    )
    .is_none());
}

#[test]
fn the_order_of_a_term_does_not_matter() {
    let sorted = sample();
    let shuffled = MultiPoly::from_coefficients_vec(
        3,
        vec![
            (fe(1), term(vec![(2, 1), (1, 1)])),
            (fe(2), term(vec![(0, 3)])),
            (fe(1), term(vec![(2, 1), (0, 1)])),
        ],
    )
    .unwrap();
    let point = vec![fe(5), fe(7), fe(11)];
    assert_eq!(shuffled.evaluate(&point), sorted.evaluate(&point));
    assert_eq!(shuffled.max_degree_per_variable(), vec![3, 1, 1]);
}

#[test]
fn degree_table() {
    assert_eq!(sample().max_degree_per_variable(), vec![3, 1, 1]);
    let g = MultiPoly::from_coefficients_vec(
        4,
        vec![
            (fe(1), term(vec![(0, 2), (3, 7)])),
            (fe(0), term(vec![(0, 5)])),
            (fe(4), term(vec![(1, 1), (3, 2)])),
            (fe(4), term(vec![])),
        ],
    )
    .unwrap();
    // variable 2 occurs in no term
    assert_eq!(g.max_degree_per_variable(), vec![5, 1, 0, 7]);
    assert_eq!(MultiPoly::from_coefficients_vec(2, vec![]).unwrap().max_degree_per_variable(), vec![0, 0]);
}

#[test]
fn univariate_from_list_combines_equal_exponents() {
    let u = UniPoly::from_coefficients_vec(vec![(3, fe(2)), (0, fe(1)), (3, fe(5)), (1, fe(4))]);
    assert_eq!(u.coefficient(3), fe(7));
    assert_eq!(u.coefficient(1), fe(4));
    assert_eq!(u.coefficient(0), fe(1));
    assert_eq!(u.coefficient(2), fe(0));
    assert_eq!(u.degree(), 3);
    // 7 * 8 + 4 * 2 + 1
    assert_eq!(u.evaluate(&fe(2)), fe(65));
    assert_eq!(u.evaluate(&fe(0)), fe(1));
    assert_eq!(u.evaluate(&fe(1)), fe(12));
}

#[test]
fn univariate_addition_is_coefficient_wise() {
    let a = UniPoly::from_coefficients_vec(vec![(0, fe(1)), (2, fe(3)), (5, fe(9))]);
    let b = UniPoly::from_coefficients_vec(vec![(1, fe(4)), (2, fe(10)), (7, fe(1))]);
    let s = a.add(&b);
    assert_eq!(s.coefficient(0), fe(1));
    assert_eq!(s.coefficient(1), fe(4));
    assert_eq!(s.coefficient(2), fe(13));
    assert_eq!(s.coefficient(5), fe(9));
    assert_eq!(s.coefficient(7), fe(1));
    assert_eq!(s.coefficient(3), fe(0));
    assert_eq!(s.degree(), 7);
    for x in 0..10u64 {
        let expected = 1 + 4 * x + 13 * x.pow(2) + 9 * x.pow(5) + x.pow(7);
        assert_eq!(s.evaluate(&fe(x)), fe(expected));
    }
    // addition leaves its operands as they were
    assert_eq!(a.coefficient(2), fe(3));
    assert_eq!(b.coefficient(2), fe(10));
    let z = UniPoly::zero();
    assert_eq!(a.add(&z).coefficient(5), fe(9));
    assert_eq!(z.add(&a).evaluate(&fe(2)), a.evaluate(&fe(2)));
}

#[test]
fn cancelled_coefficients_do_not_count_for_the_degree() {
    let a = UniPoly::from_coefficients_vec(vec![(1, fe(2)), (4, fe(3))]);
    let b = UniPoly::from_coefficients_vec(vec![(4, minus(3))]);
    let s = a.add(&b);
    assert_eq!(s.coefficient(4), fe(0));
    assert_eq!(s.degree(), 1);
    assert_eq!(s.evaluate(&fe(10)), fe(20));
    let t = s.add(&UniPoly::from_coefficients_vec(vec![(1, minus(2))]));
    assert_eq!(t.degree(), 0);
    assert_eq!(t.evaluate(&fe(10)), fe(0));
    assert_eq!(UniPoly::zero().degree(), 0);
    assert_eq!(UniPoly::from_coefficients_vec(vec![(0, fe(0))]).degree(), 0);
    assert_eq!(UniPoly::from_coefficients_vec(vec![(6, fe(0))]).degree(), 0);
    assert_eq!(UniPoly::from_coefficients_vec(vec![(6, fe(1))]).degree(), 6);
}

#[test]
fn monomials_are_added_in_place() {
    let u = UniPoly::zero().add_monomial(2, fe(5)).add_monomial(0, fe(1)).add_monomial(2, fe(6));
    assert_eq!(u.coefficient(2), fe(11));
    assert_eq!(u.coefficient(0), fe(1));
    assert_eq!(u.evaluate(&fe(3)), fe(100));
    let v = u.clone().add_monomial(1, minus(1));
    // 11 x^2 - x + 1 at 3
    assert_eq!(v.evaluate(&fe(3)), fe(97));
    assert_eq!(u.evaluate(&fe(3)), fe(100));
}

fn to_ark(x: &FieldElement) -> ark_bn254::Fr {
    let w = x.words();
    ark_bn254::Fr::from_bigint(BigInt::new([w.0, w.1, w.2, w.3])).unwrap()
}

fn from_ark(x: ark_bn254::Fr) -> FieldElement {
    let w = x.into_bigint().0;
    FieldElement::from_words(w[0], w[1], w[2], w[3]).unwrap()
}

#[test]
fn univariate_agrees_with_the_polynomial_library() {
    for round in 0..20usize {
        let left: Vec<(usize, ark_bn254::Fr)> =
            (0..5).map(|i| (i * 3 + round % 2, rand::random())).collect();
        let right: Vec<(usize, ark_bn254::Fr)> =
            (0..4).map(|i| (i * 2 + 1, rand::random())).collect();
        let theirs = SparsePolynomial::from_coefficients_vec(left.clone())
            + SparsePolynomial::from_coefficients_vec(right.clone());
        let a = UniPoly::from_coefficients_vec(left.iter().map(|(d, c)| (*d, from_ark(*c))).collect());
        let b = UniPoly::from_coefficients_vec(right.iter().map(|(d, c)| (*d, from_ark(*c))).collect());
        let ours = a.add(&b);
        assert_eq!(ours.degree(), theirs.degree());
        for _ in 0..5 {
            let x: ark_bn254::Fr = rand::random();
            assert_eq!(to_ark(&ours.evaluate(&from_ark(x))), theirs.evaluate(&x));
        }
        let mut listed = vec![ark_bn254::Fr::from(0u64); 16];
        for (d, c) in theirs.iter() {
            listed[*d] = *c;
        }
        for d in 0..16 {
            assert_eq!(to_ark(&ours.coefficient(d)), listed[d]);
        }
    }
}
