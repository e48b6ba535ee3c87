use ark_ff::{BigInt, PrimeField};
use ark_poly::multivariate::{SparsePolynomial, SparseTerm as ArkTerm, Term};
use ark_poly::{DenseMVPolynomial, Polynomial};
use interactive_proofs::field::FieldElement;
use interactive_proofs::multivariate::{MultiPoly, SparseTerm};
use interactive_proofs::sumcheck::{Prover, Verifier, Violation};
use interactive_proofs::univariate::UniPoly;

fn fe(x: u64) -> FieldElement {
    FieldElement::from_u64(x)
}

fn term(t: Vec<(usize, usize)>) -> SparseTerm {
    SparseTerm::new(t).unwrap()
}

fn to_ark(x: &FieldElement) -> ark_bn254::Fr {
    let w = x.words();
    ark_bn254::Fr::from_bigint(BigInt::new([w.0, w.1, w.2, w.3])).unwrap()
}

fn from_ark(x: ark_bn254::Fr) -> FieldElement {
    let w = x.into_bigint().0;
    FieldElement::from_words(w[0], w[1], w[2], w[3]).unwrap()
}

/// `2 x0^3 + x0 x2 + x1 x2`
fn sample() -> MultiPoly {
    MultiPoly::from_coefficients_vec(
        3,
        vec![
            (fe(2), term(vec![(0, 3)])),
            (fe(1), term(vec![(0, 1), (2, 1)])),
            (fe(1), term(vec![(1, 1), (2, 1)])),
        ],
    )
    .unwrap()
}

#[test]
fn test_sumcheck() {
    let g = MultiPoly::from_coefficients_vec(
        3,
        vec![
            (FieldElement::from_u64(2), SparseTerm::new(vec![(0, 3)]).unwrap()),
            (FieldElement::from_u64(1), SparseTerm::new(vec![(0, 1), (2, 1)]).unwrap()),
            (FieldElement::from_u64(1), SparseTerm::new(vec![(1, 1), (2, 1)]).unwrap()),
        ],
    )
    .unwrap();

    let prover = Prover::new(&g);
    let manual_sum = prover.slow_sum();

    let verifier = Verifier::new(&prover, manual_sum);
    assert_eq!(verifier.verify(), Ok(()));
}

#[test]
fn brute_force_sum() {
    let prover = Prover::new(&sample());
    // 2 x0^3 is 2 at four points, each of the two products is 1 at two points
    assert_eq!(prover.slow_sum(), fe(12));
    let g = sample();
    let mut by_hand = ark_bn254::Fr::from(0u64);
    for i in 0..8u64 {
        let point = Prover::n_to_vec(i, 3);
        by_hand += to_ark(&g.evaluate(&point).unwrap());
    }
    assert_eq!(from_ark(by_hand), fe(12));
    let constant =
        MultiPoly::from_coefficients_vec(0, vec![(fe(7), term(vec![]))]).unwrap();
    assert_eq!(Prover::new(&constant).slow_sum(), fe(7));
    let linear =
        MultiPoly::from_coefficients_vec(4, vec![(fe(3), term(vec![(1, 1)]))]).unwrap();
    assert_eq!(Prover::new(&linear).slow_sum(), fe(24));
}

#[test]
fn accepted_on_every_trial() {
    let prover = Prover::new(&sample());
    let verifier = Verifier::new(&prover, prover.slow_sum());
    for _ in 0..20 {
        assert_eq!(verifier.verify(), Ok(()));
    }
    for k in 0..20u64 {
        let challenges = vec![fe(k), fe(3 * k + 1), fe(k * k)];
        assert_eq!(verifier.verify_with_challenges(&challenges), Ok(()));
    }
}

#[test]
fn wrong_claims_are_rejected_in_the_first_round() {
    let prover = Prover::new(&sample());
    for claim in [0u64, 11, 13, 1000] {
        let verifier = Verifier::new(&prover, fe(claim));
        for _ in 0..10 {
            assert_eq!(verifier.verify(), Err(Violation::RoundConsistencyViolation));
        }
        assert_eq!(
            verifier.verify_with_challenges(&vec![fe(1), fe(2), fe(3)]),
            Err(Violation::RoundConsistencyViolation)
        );
    }
}

#[test]
fn challenges_of_the_wrong_length_are_refused() {
    let prover = Prover::new(&sample());
    let verifier = Verifier::new(&prover, fe(12));
    assert_eq!(
        verifier.verify_with_challenges(&vec![fe(1), fe(2)]),
        Err(Violation::DimensionMismatch)
    );
    assert_eq!(
        verifier.verify_with_challenges(&vec![fe(1), fe(2), fe(3), fe(4)]),
        Err(Violation::DimensionMismatch)
    );
}

#[test]
fn round_messages() {
    let mut prover = Prover::new(&sample());
    assert_eq!(prover.r_vec.len(), 0);
    // round 1: the sum over x1, x2 of g(x, x1, x2) = 8 x^3 + 2 x + 1
    let g1 = prover.gen_uni_poly(None);
    assert_eq!(prover.r_vec.len(), 0);
    assert_eq!(g1.coefficient(3), fe(8));
    assert_eq!(g1.coefficient(1), fe(2));
    assert_eq!(g1.coefficient(0), fe(1));
    assert_eq!(g1.coefficient(2), fe(0));
    assert_eq!(g1.degree(), 3);
    assert_eq!(g1.evaluate(&fe(0)), fe(1));
    assert_eq!(g1.evaluate(&fe(1)), fe(11));
    assert_eq!(g1.evaluate(&fe(5)), fe(1011));
    // round 2 after the challenge 5: the sum over x2 of g(5, x, x2) = x + 505
    let g2 = prover.gen_uni_poly(Some(fe(5)));
    assert_eq!(prover.r_vec, vec![fe(5)]);
    assert_eq!(g2.coefficient(1), fe(1));
    assert_eq!(g2.coefficient(0), fe(505));
    assert_eq!(g2.degree(), 1);
    assert_eq!(g2.evaluate(&fe(7)), fe(512));
    // round 3 after the challenge 7: g(5, 7, x) = 12 x + 250
    let g3 = prover.gen_uni_poly(Some(fe(7)));
    assert_eq!(prover.r_vec, vec![fe(5), fe(7)]);
    assert_eq!(g3.coefficient(1), fe(12));
    assert_eq!(g3.coefficient(0), fe(250));
    assert_eq!(g3.degree(), 1);
    assert_eq!(g3.evaluate(&fe(11)), fe(382));
}

#[test]
fn rounds_are_consistent() {
    let g = sample();
    let mut prover = Prover::new(&g);
    let bounds = g.max_degree_per_variable();
    let challenges = [fe(123456789), fe(987654321), fe(5555)];
    let mut message = prover.gen_uni_poly(None);
    let mut expected = prover.slow_sum();
    for round in 0..3 {
        let at_ends = UniPoly::from_coefficients_vec(vec![
            (0, message.evaluate(&fe(0))),
            (0, message.evaluate(&fe(1))),
        ]);
        assert_eq!(at_ends.coefficient(0), expected);
        assert!(message.degree() <= bounds[round]);
        assert_eq!(Verifier::check_round(&message, &expected, bounds[round]), Ok(()));
        expected = message.evaluate(&challenges[round]);
        if round < 2 {
            message = prover.gen_uni_poly(Some(challenges[round]));
        }
    }
    assert_eq!(g.evaluate(&challenges.to_vec()), Ok(expected));
    assert_eq!(Verifier::check_final(&g, &challenges.to_vec(), &expected), Ok(()));
}

#[test]
fn dishonest_messages_are_rejected() {
    // 8 x^3 + 2 x + 1 is the honest first message, with bound 3 and sum 12
    let honest = UniPoly::from_coefficients_vec(vec![(3, fe(8)), (1, fe(2)), (0, fe(1))]);
    assert_eq!(Verifier::check_round(&honest, &fe(12), 3), Ok(()));
    assert_eq!(
        Verifier::check_round(&honest, &fe(13), 3),
        Err(Violation::RoundConsistencyViolation)
    );
    assert_eq!(Verifier::check_round(&honest, &fe(12), 2), Err(Violation::DegreeBoundViolation));
    // the right sum with too high a degree
    let inflated = UniPoly::from_coefficients_vec(vec![(4, fe(8)), (1, fe(2)), (0, fe(1))]);
    assert_eq!(Verifier::check_round(&inflated, &fe(12), 3), Err(Violation::DegreeBoundViolation));
    // both wrong: consistency is checked first
    assert_eq!(
        Verifier::check_round(&inflated, &fe(1), 3),
        Err(Violation::RoundConsistencyViolation)
    );
    let zero = UniPoly::zero();
    assert_eq!(Verifier::check_round(&zero, &fe(0), 0), Ok(()));
    assert_eq!(Verifier::check_round(&zero, &fe(1), 0), Err(Violation::RoundConsistencyViolation));
}

#[test]
fn final_check() {
    let g = sample();
    let point = vec![fe(5), fe(7), fe(11)];
    assert_eq!(Verifier::check_final(&g, &point, &fe(382)), Ok(()));
    assert_eq!(Verifier::check_final(&g, &point, &fe(383)), Err(Violation::FinalCheckViolation));
    assert_eq!(
        Verifier::check_final(&g, &vec![fe(5), fe(7)], &fe(382)),
        Err(Violation::DimensionMismatch)
    );
}

#[test]
fn degree_bounds() {
    let prover = Prover::new(&sample());
    let verifier = Verifier::new(&prover, fe(12));
    assert_eq!(verifier.max_degree(), vec![3, 1, 1]);
    assert_eq!(verifier.c_1, fe(12));
    assert_eq!(verifier.p.r_vec.len(), 0);
    assert_eq!(verifier.p.g.num_vars(), 3);
}

#[test]
fn canonical_points() {
    assert_eq!(Prover::n_to_vec(0, 3), vec![fe(0), fe(0), fe(0)]);
    assert_eq!(Prover::n_to_vec(1, 3), vec![fe(0), fe(0), fe(1)]);
    assert_eq!(Prover::n_to_vec(4, 3), vec![fe(1), fe(0), fe(0)]);
    assert_eq!(Prover::n_to_vec(5, 3), vec![fe(1), fe(0), fe(1)]);
    assert_eq!(Prover::n_to_vec(6, 3), vec![fe(1), fe(1), fe(0)]);
    assert_eq!(Prover::n_to_vec(7, 3), vec![fe(1), fe(1), fe(1)]);
    assert_eq!(Prover::n_to_vec(0, 0), Vec::<FieldElement>::new());
    assert_eq!(Prover::n_to_vec(1, 1), vec![fe(1)]);
    assert_eq!(Prover::n_to_vec(2, 5), vec![fe(0), fe(0), fe(0), fe(1), fe(0)]);
    // the digits beyond the width are left out
    assert_eq!(Prover::n_to_vec(13, 2), vec![fe(0), fe(1)]);
    let wide = Prover::n_to_vec(u64::MAX, 70);
    assert_eq!(wide.len(), 70);
    assert!(wide[..6].iter().all(|b| *b == fe(0)));
    assert!(wide[6..].iter().all(|b| *b == fe(1)));
}

#[test]
fn terms_split_around_the_variable_under_scrutiny() {
    let g = MultiPoly::from_coefficients_vec(4, vec![]).unwrap();
    let mut prover = Prover::new(&g);
    prover.r_vec.push(fe(3));
    // variable 1 is under scrutiny; variables 2 and 3 are read from points[1], points[2]
    let points = vec![fe(100), fe(2), fe(5)];
    let (scalar, fixed) = prover.evaluate_term(&term(vec![(0, 2), (1, 4), (3, 2)]), &points);
    assert_eq!(scalar, fe(9 * 25));
    let fixed = fixed.unwrap();
    assert_eq!((fixed.len(), fixed.get(0)), (1, (1, 4)));
    let (scalar, fixed) = prover.evaluate_term(&term(vec![(0, 1), (2, 3)]), &points);
    assert_eq!(scalar, fe(3 * 8));
    assert!(fixed.is_none());
    let (scalar, fixed) = prover.evaluate_term(&term(vec![]), &points);
    assert_eq!(scalar, fe(1));
    assert!(fixed.is_none());
    let (scalar, fixed) = prover.evaluate_term(&term(vec![(1, 1)]), &points);
    assert_eq!(scalar, fe(1));
    assert_eq!(fixed.unwrap().get(0), (1, 1));
}

#[test]
fn restriction_to_one_variable() {
    let mut prover = Prover::new(&sample());
    // g(x, 1, 1) = 2 x^3 + x + 1; the first coordinate of the point is not read
    let u = prover.evaluate_g_j(vec![fe(0), fe(1), fe(1)]);
    assert_eq!(u.coefficient(3), fe(2));
    assert_eq!(u.coefficient(1), fe(1));
    assert_eq!(u.coefficient(0), fe(1));
    assert_eq!(u.evaluate(&fe(2)), fe(19));
    let v = prover.evaluate_g_j(vec![fe(77), fe(1), fe(1)]);
    assert_eq!(v.evaluate(&fe(2)), fe(19));
    // g(x, 0, 1) = 2 x^3 + x
    let w = prover.evaluate_g_j(vec![fe(0), fe(0), fe(1)]);
    assert_eq!(w.evaluate(&fe(2)), fe(18));
    // after the challenge 5: g(5, x, 1) = 255 + x
    prover.r_vec.push(fe(5));
    let y = prover.evaluate_g_j(vec![fe(0), fe(1)]);
    assert_eq!(y.coefficient(0), fe(255));
    assert_eq!(y.coefficient(1), fe(1));
    assert_eq!(y.degree(), 1);
}

#[test]
fn the_prover_is_copied_into_the_verifier() {
    let mut prover = Prover::new(&sample());
    let verifier = Verifier::new(&prover, fe(12));
    prover.gen_uni_poly(Some(fe(9)));
    assert_eq!(prover.r_vec.len(), 1);
    assert_eq!(verifier.p.r_vec.len(), 0);
    assert_eq!(verifier.verify(), Ok(()));
    let copy = prover.clone();
    assert_eq!(copy.r_vec, vec![fe(9)]);
    assert_eq!(copy.slow_sum(), fe(12));
}

#[test]
fn terms_in_any_order() {
    let g = MultiPoly::from_coefficients_vec(
        3,
        vec![
            (fe(1), term(vec![(2, 1), (1, 1)])),
            (fe(2), term(vec![(0, 3)])),
            (fe(1), term(vec![(2, 1), (0, 1)])),
        ],
    )
    .unwrap();
    let mut prover = Prover::new(&g);
    assert_eq!(prover.slow_sum(), fe(12));
    assert_eq!(Verifier::new(&prover, fe(12)).verify(), Ok(()));
    let g1 = prover.gen_uni_poly(None);
    assert_eq!((g1.coefficient(3), g1.coefficient(1), g1.coefficient(0)), (fe(8), fe(2), fe(1)));
    let g2 = prover.gen_uni_poly(Some(fe(5)));
    assert_eq!((g2.coefficient(1), g2.coefficient(0)), (fe(1), fe(505)));
}

#[test]
fn challenges_are_fresh() {
    let a = Verifier::get_r().unwrap();
    let b = Verifier::get_r().unwrap();
    let c = Verifier::get_r().unwrap();
    assert!(a != b || b != c);
}

#[test]
fn agrees_with_the_polynomial_library() {
    let coefficients: Vec<ark_bn254::Fr> = (0..4).map(|_| rand::random()).collect();
    let shapes: Vec<Vec<(usize, usize)>> =
        vec![vec![(0, 3), (2, 1)], vec![(1, 2)], vec![(0, 1), (1, 1), (3, 4)], vec![]];
    let ours = MultiPoly::from_coefficients_vec(
        4,
        coefficients.iter().zip(shapes.iter()).map(|(c, t)| (from_ark(*c), term(t.clone()))).collect(),
    )
    .unwrap();
    let theirs = SparsePolynomial::from_coefficients_vec(
        4,
        coefficients.iter().zip(shapes.iter()).map(|(c, t)| (*c, ArkTerm::new(t.clone()))).collect(),
    );
    for _ in 0..20 {
        let point: Vec<ark_bn254::Fr> = (0..4).map(|_| rand::random()).collect();
        let mapped: Vec<FieldElement> = point.iter().map(|x| from_ark(*x)).collect();
        assert_eq!(to_ark(&ours.evaluate(&mapped).unwrap()), theirs.evaluate(&point));
    }
    let mut sum = ark_bn254::Fr::from(0u64);
    for i in 0..16u64 {
        let point: Vec<ark_bn254::Fr> =
            (0..4).map(|k| ark_bn254::Fr::from((i >> (3 - k)) & 1)).collect();
        sum += theirs.evaluate(&point);
    }
    let prover = Prover::new(&ours);
    assert_eq!(to_ark(&prover.slow_sum()), sum);
    let verifier = Verifier::new(&prover, from_ark(sum));
    assert_eq!(verifier.verify(), Ok(()));
    let wrong = Verifier::new(&prover, from_ark(sum + ark_bn254::Fr::from(1u64)));
    assert_eq!(wrong.verify(), Err(Violation::RoundConsistencyViolation));
}
