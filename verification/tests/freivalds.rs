use interactive_proofs::freivalds::{freivalds_simulations, Freivalds, FreivaldsError, Matrix, X};

fn matrix(rows: usize, cols: usize, data: Vec<u64>) -> Matrix {
    Matrix::from_shape_vec(rows, cols, data).unwrap()
}

#[test]
fn test_freivalds_verify() {
    let freivalds = Freivalds { field: 1009 };

    let a = matrix(2, 2, vec![1, 2, 3, 4]);
    let b = matrix(2, 2, vec![5, 6, 7, 8]);
    let c = matrix(2, 2, vec![19, 22, 43, 50]);

    assert!(freivalds.verify(&a, &b, &c).unwrap());
}

#[test]
#[should_panic]
fn test_freivalds_verify_incorrect_dimensions() {
    let freivalds = Freivalds { field: 1009 };

    let a = matrix(2, 2, vec![1, 2, 3, 4]);
    let b = matrix(1, 2, vec![5, 6]);
    let c = matrix(2, 2, vec![19, 22, 43, 50]);

    freivalds.verify(&a, &b, &c).unwrap();
}

#[test]
fn test_freivalds_verify_incorrect_result() {
    let freivalds = Freivalds { field: 1009 };

    let a = matrix(2, 2, vec![1, 2, 3, 4]);
    let b = matrix(2, 2, vec![5, 6, 7, 8]);
    let c = matrix(2, 2, vec![18, 22, 43, 50]);

    assert!(!freivalds.verify(&a, &b, &c).unwrap());
}

#[test]
fn correct_product_is_accepted_for_every_seed() {
    let freivalds = Freivalds { field: 1009 };
    let a = matrix(2, 2, vec![1, 2, 3, 4]);
    let b = matrix(2, 2, vec![5, 6, 7, 8]);
    let c = matrix(2, 2, vec![19, 22, 43, 50]);
    for seed in 0..3000u64 {
        assert_eq!(freivalds.verify_with_seed(&a, &b, &c, seed), Ok(true));
    }
    for _ in 0..200 {
        assert_eq!(freivalds.verify(&a, &b, &c), Ok(true));
    }
}

#[test]
fn corrupted_product_is_rejected_unless_the_seed_vanishes() {
    let freivalds = Freivalds { field: 1009 };
    let a = matrix(2, 2, vec![1, 2, 3, 4]);
    let b = matrix(2, 2, vec![5, 6, 7, 8]);
    let c = matrix(2, 2, vec![18, 22, 43, 50]);
    let mut accepted = 0;
    for seed in 0..1009u64 {
        let res = freivalds.verify_with_seed(&a, &b, &c, seed).unwrap();
        // the corrupted entry is multiplied by the first entry of the
        // probing vector, which is zero for the seed zero only
        assert_eq!(res, seed == 0);
        if res {
            accepted += 1;
        }
    }
    assert_eq!(accepted, 1);
}

#[test]
fn corrupted_product_rejection_rate() {
    let freivalds = Freivalds { field: 1009 };
    let a = matrix(2, 2, vec![1, 2, 3, 4]);
    let b = matrix(2, 2, vec![5, 6, 7, 8]);
    let c = matrix(2, 2, vec![18, 22, 43, 50]);
    let trials = 2000;
    let mut rejected = 0;
    for _ in 0..trials {
        if !freivalds.verify(&a, &b, &c).unwrap() {
            rejected += 1;
        }
    }
    assert!(rejected >= trials - 40);
}

#[test]
fn probing_vector_holds_the_powers_of_the_seed() {
    let freivalds = Freivalds { field: 1009 };
    assert_eq!(freivalds.vector_from_seed(3, 4), vec![3, 9, 27, 81]);
    assert_eq!(freivalds.vector_from_seed(1009 + 10, 3), vec![10, 100, 1000]);
    assert_eq!(freivalds.vector_from_seed(1000, 2), vec![1000, 81]);
    assert_eq!(freivalds.vector_from_seed(5, 0), Vec::<u64>::new());
    let v = freivalds.get_vec(7);
    assert_eq!(v.len(), 7);
    assert!(v.iter().all(|x| *x < 1009));
    for i in 1..7 {
        assert_eq!(v[i], v[i - 1] * v[0] % 1009);
    }
}

#[test]
fn probing_vector_in_a_large_field_does_not_overflow() {
    let field = u64::MAX - 58;
    let freivalds = Freivalds { field };
    let v = freivalds.vector_from_seed(field - 1, 3);
    // (-1)^k alternates between field - 1 and 1
    assert_eq!(v, vec![field - 1, 1, field - 1]);
}

#[test]
fn recurrence_steps() {
    let mut x = X::new(7, 10);
    assert_eq!((x.field, x.r, x.prod), (10, 7, 1));
    assert_eq!(x.next(), Some(7));
    assert_eq!(x.next(), Some(9));
    assert_eq!(x.next(), Some(3));
    assert_eq!(x.next(), Some(1));
    assert_eq!(x.prod, 1);
}

#[test]
fn explicit_vector_gives_exact_products() {
    let freivalds = Freivalds { field: 1009 };
    let a = matrix(2, 2, vec![1, 2, 3, 4]);
    let b = matrix(2, 2, vec![5, 6, 7, 8]);
    let c = matrix(2, 2, vec![19, 22, 43, 50]);
    let wrong = matrix(2, 2, vec![19, 22, 43, 51]);
    assert_eq!(freivalds.verify_with_vector(&a, &b, &c, &vec![1, 1]), Ok(true));
    assert_eq!(freivalds.verify_with_vector(&a, &b, &wrong, &vec![1, 1]), Ok(false));
    // the wrong entry is hidden from a vector that vanishes in its column
    assert_eq!(freivalds.verify_with_vector(&a, &b, &wrong, &vec![1, 0]), Ok(true));
    // a matrix that is not the identity changes the vector it is applied to
    let id = matrix(2, 2, vec![1, 0, 0, 1]);
    assert_eq!(freivalds.verify_with_vector(&id, &b, &id, &vec![1, 1]), Ok(false));
    assert_eq!(freivalds.verify_with_vector(&id, &b, &b, &vec![1, 1]), Ok(true));
}

#[test]
fn mismatched_dimensions_are_refused() {
    let freivalds = Freivalds { field: 1009 };
    let a = matrix(2, 2, vec![1, 2, 3, 4]);
    let b = matrix(1, 2, vec![5, 6]);
    let c = matrix(2, 2, vec![19, 22, 43, 50]);
    assert_eq!(freivalds.verify(&a, &b, &c), Err(FreivaldsError::DimensionMismatch));
    assert_eq!(freivalds.verify_with_seed(&a, &b, &c, 1), Err(FreivaldsError::DimensionMismatch));
    assert!(!freivalds.check_matrix_dimensions(&a, &b, &c));
    assert!(freivalds.check_matrix_dimensions(&a, &a, &c));
    // equal shapes that are not square cannot be multiplied either
    let r = matrix(1, 2, vec![1, 2]);
    assert!(freivalds.check_matrix_dimensions(&r, &r, &r));
    assert_eq!(freivalds.verify(&r, &r, &r), Err(FreivaldsError::DimensionMismatch));
    // a probing vector of the wrong length
    assert_eq!(
        freivalds.verify_with_vector(&a, &a, &c, &vec![1, 2, 3]),
        Err(FreivaldsError::DimensionMismatch)
    );
}

#[test]
fn products_that_do_not_fit_are_refused() {
    let freivalds = Freivalds { field: 1009 };
    let big = matrix(2, 2, vec![u64::MAX, 1, 0, 0]);
    let id = matrix(2, 2, vec![1, 0, 0, 1]);
    assert_eq!(
        freivalds.verify_with_vector(&big, &id, &big, &vec![1, 1]),
        Err(FreivaldsError::ArithmeticOverflow)
    );
    assert_eq!(freivalds.verify_with_vector(&big, &id, &big, &vec![1, 0]), Ok(true));
    assert!(big.product_fits(&vec![1, 0]));
    assert!(!big.product_fits(&vec![1, 1]));
    assert!(!big.product_fits(&vec![2, 0]));
}

#[test]
fn matrix_shapes() {
    assert!(Matrix::from_shape_vec(2, 2, vec![1, 2, 3]).is_none());
    assert!(Matrix::from_shape_vec(2, 3, vec![1, 2, 3, 4, 5, 6]).is_some());
    assert!(Matrix::from_shape_vec(0, 0, vec![]).is_some());
    assert!(Matrix::from_shape_vec(usize::MAX, 0, vec![]).is_none());
    let m = matrix(2, 3, vec![1, 2, 3, 4, 5, 6]);
    assert_eq!((m.nrows(), m.ncols()), (2, 3));
    let empty = matrix(0, 0, vec![]);
    let freivalds = Freivalds { field: 1009 };
    assert_eq!(freivalds.verify(&empty, &empty, &empty), Ok(true));
}

#[test]
fn demonstration_accepts() {
    assert!(freivalds_simulations());
}
