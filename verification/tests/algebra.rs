use burau_search::algebra::{Matrix, Polynomial};

#[test]
fn add_polynomial_overlapping_coefficient() {
    let a = Polynomial::new(vec![(1, 1), (2, 2)], 41);
    let b = Polynomial::new(vec![(0, 41 - 1), (1, 1)], 41);
    let c = (&a + &b).data;
    assert_eq!(c.len(), 3);
    assert_eq!(c[0].1, 41 - 1);
    assert_eq!(c[1].1, 2);
    assert_eq!(c[2].1, 2);
    assert_eq!(c[2].0, 2);
}

#[test]
fn add_polynomial_terms_cancel() {
    let a = Polynomial::new(vec![(1, 1), (2, 2)], 41);
    let b = Polynomial::new(vec![(0, 41 - 1), (1, 41 - 1)], 41);
    let c = (&a + &b).data;
    assert_eq!(c.len(), 2);
    assert_eq!(c[0].1, 41 - 1);
    assert_eq!(c[1].0, 2);
    assert_eq!(c[1].1, 2);
}

#[test]
fn add_polynomial_mod_two() {
    let a = Polynomial::new(vec![(1, 1)], 2);
    let c = (&a + &a).data;
    assert_eq!(c.len(), 0);
}

#[test]
fn zero_polynomial_is_zero() {
    let a = Polynomial::zero(41);
    assert!(a.is_zero());
}

#[test]
fn non_zero_polynomial_is_non_zero() {
    let a = Polynomial::new(vec![(0, 2), (1, 1), (5, 2)], 3);
    assert!(!a.is_zero());
}

#[test]
fn identity_matrix_projlen() {
    let mat = Matrix::identity(41);
    assert_eq!(mat.projlen(), 1);
}

fn poly(terms: &[(u16, u8)], p: u8) -> Polynomial {
    Polynomial::new(terms.to_vec(), p)
}

fn is_canonical(q: &Polynomial) -> bool {
    q.data.windows(2).all(|w| w[0].0 < w[1].0) && q.data.iter().all(|t| 0 < t.1 && t.1 < q.p)
}

#[test]
fn new_keeps_terms_and_modulus() {
    let a = Polynomial::new(vec![(3, 2), (9, 1)], 7);
    assert_eq!(a.data, vec![(3, 2), (9, 1)]);
    assert_eq!(a.p, 7);
}

#[test]
fn zero_and_one_have_their_terms() {
    assert_eq!(Polynomial::zero(5).data, vec![]);
    assert_eq!(Polynomial::zero(5).p, 5);
    assert_eq!(Polynomial::one(5).data, vec![(0, 1)]);
    assert_eq!(Polynomial::one(5).p, 5);
    assert!(!Polynomial::one(5).is_zero());
}

#[test]
fn add_merges_by_power() {
    let a = poly(&[(1, 1), (2, 2)], 41);
    let b = poly(&[(0, 40), (1, 1)], 41);
    assert_eq!((&a + &b).data, vec![(0, 40), (1, 2), (2, 2)]);
    assert_eq!((&a + &b).p, 41);
    assert_eq!(a.plus(&b).data, vec![(0, 40), (1, 2), (2, 2)]);
}

#[test]
fn add_by_value_is_add_by_reference() {
    let a = poly(&[(0, 3), (4, 1)], 5);
    let b = poly(&[(0, 2), (2, 4), (4, 3)], 5);
    let by_ref = (&a + &b).data;
    assert_eq!((a + b).data, by_ref);
    assert_eq!(by_ref, vec![(2, 4), (4, 4)]);
}

#[test]
fn add_is_commutative() {
    let samples = [
        poly(&[], 7),
        poly(&[(0, 1)], 7),
        poly(&[(0, 6), (3, 2)], 7),
        poly(&[(1, 3), (3, 5), (8, 1)], 7),
        poly(&[(2, 4), (3, 2), (65535, 6)], 7),
    ];
    for a in &samples {
        for b in &samples {
            assert_eq!((a + b).data, (b + a).data);
        }
    }
}

#[test]
fn add_zero_is_neutral() {
    let a = poly(&[(1, 3), (3, 5), (8, 1)], 7);
    let zero = Polynomial::zero(7);
    assert_eq!((&a + &zero).data, a.data);
    assert_eq!((&zero + &a).data, a.data);
    assert_eq!((&zero + &zero).data, vec![]);
}

#[test]
fn add_gives_canonical_polynomials() {
    let samples = [
        poly(&[(0, 1), (1, 1), (2, 1)], 3),
        poly(&[(0, 2), (1, 2), (2, 2)], 3),
        poly(&[(1, 1), (5, 2)], 3),
        poly(&[(0, 2), (5, 1), (9, 1)], 3),
    ];
    for a in &samples {
        for b in &samples {
            assert!(is_canonical(&(a + b)));
        }
    }
    // 1 + 2 = 0 at every power: everything cancels
    assert_eq!((&samples[0] + &samples[1]).data, vec![]);
}

#[test]
fn add_does_not_overflow_with_a_large_modulus() {
    let a = poly(&[(0, 200), (1, 250)], 251);
    let b = poly(&[(0, 100), (1, 1)], 251);
    // 300 mod 251 = 49, and 251 mod 251 = 0
    assert_eq!((&a + &b).data, vec![(0, 49)]);
}

#[test]
fn mult_by_zero_shift_is_identity() {
    let a = poly(&[(1, 3), (3, 5), (8, 1)], 7);
    assert_eq!(a.mult(0, false).data, a.data);
    assert_eq!(a.mult(0, false).p, 7);
}

#[test]
fn mult_shifts_every_power() {
    let a = poly(&[(1, 3), (3, 5), (8, 1)], 7);
    assert_eq!(a.mult(4, false).data, vec![(5, 3), (7, 5), (12, 1)]);
}

#[test]
fn mult_shifts_compose() {
    let a = poly(&[(1, 3), (3, 5), (8, 1)], 7);
    assert_eq!(a.mult(2, false).mult(3, false).data, a.mult(5, false).data);
    assert_eq!(a.mult(2, true).mult(3, true).data, a.mult(5, false).data);
    assert_eq!(a.mult(2, true).mult(3, false).data, a.mult(5, true).data);
}

#[test]
fn mult_negates_coefficients() {
    let a = poly(&[(1, 3), (3, 5), (8, 1)], 7);
    assert_eq!(a.mult(1, true).data, vec![(2, 4), (4, 2), (9, 6)]);
    let b = poly(&[(0, 1), (2, 1)], 2);
    assert_eq!(b.mult(0, true).data, vec![(0, 1), (2, 1)]);
}

#[test]
fn mult_reaches_the_highest_power() {
    let a = poly(&[(65531, 1)], 3);
    assert_eq!(a.mult(4, true).data, vec![(65535, 2)]);
}

#[test]
fn mult_of_zero_is_zero() {
    assert!(Polynomial::zero(5).mult(3, true).is_zero());
}

#[test]
fn a_polynomial_and_its_negative_cancel() {
    let a = poly(&[(1, 3), (3, 5), (8, 1)], 7);
    assert!((&a + &a.mult(0, true)).is_zero());
}

#[test]
fn min_and_max_power() {
    let a = poly(&[(1, 3), (3, 5), (8, 1)], 7);
    assert_eq!(a.min_power(), 1);
    assert_eq!(a.max_power(), 8);
    let b = poly(&[(4, 1)], 7);
    assert_eq!(b.min_power(), 4);
    assert_eq!(b.max_power(), 4);
}

#[test]
fn polynomial_equality_compares_terms() {
    assert!(poly(&[(1, 3)], 7) == poly(&[(1, 3)], 7));
    assert!(poly(&[(1, 3)], 7) != poly(&[(1, 4)], 7));
    assert!(poly(&[(1, 3)], 7) != poly(&[(2, 3)], 7));
    assert!(poly(&[(1, 3)], 7) != poly(&[(1, 3), (2, 1)], 7));
    assert!(poly(&[], 7) == Polynomial::zero(7));
    // the modulus is not compared
    assert!(poly(&[(1, 3)], 7) == poly(&[(1, 3)], 5));
}

#[test]
fn zero_matrix_has_nine_zero_entries() {
    let m = Matrix::zero(5);
    assert_eq!(m.p, 5);
    assert!(m.d.iter().all(|e| e.is_zero() && e.p == 5));
}

#[test]
fn identity_matrix_has_ones_on_the_diagonal() {
    let m = Matrix::identity(5);
    for i in 0..9 {
        if i % 4 == 0 {
            assert_eq!(m.d[i].data, vec![(0, 1)]);
        } else {
            assert!(m.d[i].is_zero());
        }
    }
}

#[test]
fn identity_projlen_is_one_for_every_modulus() {
    for p in [2u8, 3, 5, 7, 11, 41, 251, 255] {
        assert_eq!(Matrix::identity(p).projlen(), 1);
    }
}

#[test]
fn projlen_spans_all_entries() {
    let mut m = Matrix::zero(5);
    m.d[2] = poly(&[(4, 1), (6, 2)], 5);
    m.d[7] = poly(&[(2, 3)], 5);
    assert_eq!(m.projlen(), 5);
    m.d[8] = poly(&[(9, 1)], 5);
    assert_eq!(m.projlen(), 8);
    m.d[0] = poly(&[(0, 1), (65535, 1)], 5);
    assert_eq!(m.projlen(), 65536);
}

#[test]
fn projlen_of_a_single_term_is_one() {
    let mut m = Matrix::zero(3);
    m.d[5] = poly(&[(17, 2)], 3);
    assert_eq!(m.projlen(), 1);
}

#[test]
fn matrix_equality_compares_entries() {
    let a = Matrix::identity(5);
    let mut b = Matrix::identity(5);
    assert!(a == b);
    b.d[3] = poly(&[(1, 1)], 5);
    assert!(a != b);
    assert!(Matrix::zero(5) != Matrix::identity(5));
}

#[test]
fn canonical_polynomials_are_recognised() {
    assert!(poly(&[], 5).is_canonical());
    assert!(poly(&[(0, 1), (3, 4), (65535, 2)], 5).is_canonical());
    assert!(!poly(&[(0, 1), (3, 5)], 5).is_canonical());
    assert!(!poly(&[(0, 0)], 5).is_canonical());
    assert!(!poly(&[(3, 1), (3, 1)], 5).is_canonical());
    assert!(!poly(&[(4, 1), (3, 1)], 5).is_canonical());
    assert!(!poly(&[(0, 1), (2, 1), (1, 1)], 5).is_canonical());
    assert!(!poly(&[], 0).is_canonical());
    assert!(poly(&[], 1).is_canonical());
    assert!(!Polynomial::one(1).is_canonical());
    assert!(Polynomial::one(2).is_canonical());
}

#[test]
fn canonical_matrices_are_recognised() {
    assert!(Matrix::identity(5).is_canonical());
    assert!(Matrix::zero(1).is_canonical());
    assert!(!Matrix::zero(0).is_canonical());
    assert!(!Matrix::identity(1).is_canonical());
    let mut m = Matrix::identity(5);
    m.d[3] = poly(&[(2, 1)], 7);
    assert!(!m.is_canonical());
    m.d[3] = poly(&[(2, 1), (1, 1)], 5);
    assert!(!m.is_canonical());
    m.d[3] = poly(&[(1, 1), (2, 1)], 5);
    assert!(m.is_canonical());
}

#[test]
fn max_power_of_a_matrix() {
    assert_eq!(Matrix::zero(5).max_power(), 0);
    assert_eq!(Matrix::identity(5).max_power(), 0);
    let mut m = Matrix::identity(5);
    m.d[2] = poly(&[(4, 1), (6, 2)], 5);
    m.d[7] = poly(&[(2, 3), (9, 1)], 5);
    assert_eq!(m.max_power(), 9);
}
