use burau_search::algebra::{Matrix, Polynomial};
use burau_search::garside::{act_by, generate_descendants, generate_matrix_map};
use std::collections::BTreeMap;

fn matrix(entries: [Vec<(u16, u8)>; 9], p: u8) -> Matrix {
    Matrix { d: entries.map(|e| Polynomial::new(e, p)), p }
}

fn reach(factors: &[u32], p: u8) -> Matrix {
    let mut m = Matrix::identity(p);
    for f in factors {
        m = act_by(&m, *f, p);
    }
    m
}

// Multiplication of polynomials as maps from power to coefficient, written
// without the library's own arithmetic.
fn times(a: &Polynomial, b: &Polynomial, p: u8) -> BTreeMap<u32, u32> {
    let mut out = BTreeMap::new();
    for (ka, ca) in &a.data {
        for (kb, cb) in &b.data {
            let at = out.entry(*ka as u32 + *kb as u32).or_insert(0u32);
            *at = (*at + (*ca as u32) * (*cb as u32)) % p as u32;
        }
    }
    out
}

fn product(a: &Matrix, b: &Matrix, p: u8) -> Vec<Vec<(u32, u32)>> {
    let mut out = Vec::new();
    for row in 0..3 {
        for col in 0..3 {
            let mut sum: BTreeMap<u32, u32> = BTreeMap::new();
            for j in 0..3 {
                for (k, c) in times(&a.d[3 * row + j], &b.d[3 * j + col], p) {
                    let at = sum.entry(k).or_insert(0);
                    *at = (*at + c) % p as u32;
                }
            }
            out.push(sum.into_iter().filter(|t| t.1 != 0).collect());
        }
    }
    out
}

fn entries(m: &Matrix) -> Vec<Vec<(u32, u32)>> {
    m.d.iter().map(|e| e.data.iter().map(|t| (t.0 as u32, t.1 as u32)).collect()).collect()
}

#[test]
fn act_by_is_multiplication_by_the_generator_matrix() {
    let p = 5;
    let map = generate_matrix_map(p);
    let samples = [
        Matrix::identity(p),
        reach(&[1], p),
        reach(&[13, 7, 2], p),
        reach(&[10, 13, 10, 13], p),
        reach(&[5, 22, 17, 4, 3, 1, 18, 6, 9], p),
        reach(&[20, 14, 15, 21, 11, 19, 8, 12, 16], p),
    ];
    for m in &samples {
        for g in 1..=22u32 {
            let by_rule = act_by(m, g, p);
            let by_product = product(m, map.get(g).unwrap(), p);
            assert_eq!(entries(&by_rule), by_product, "generator {}", g);
        }
    }
}

#[test]
fn act_by_is_multiplication_over_other_moduli() {
    for p in [2u8, 3, 7] {
        let map = generate_matrix_map(p);
        let m = reach(&[4, 13, 10, 2], p);
        for g in 1..=22u32 {
            assert_eq!(entries(&act_by(&m, g, p)), product(&m, map.get(g).unwrap(), p));
        }
    }
}

#[test]
fn generator_one_on_the_identity() {
    let got = act_by(&Matrix::identity(5), 1, 5);
    let want = matrix(
        [
            vec![(0, 1)],
            vec![],
            vec![],
            vec![],
            vec![(0, 1)],
            vec![],
            vec![],
            vec![(1, 4)],
            vec![(2, 4)],
        ],
        5,
    );
    assert!(got == want);
    assert_eq!(got.p, 5);
    assert!(got.d.iter().all(|e| e.p == 5));
}

#[test]
fn three_generators_in_a_row() {
    let got = reach(&[13, 7, 2], 5);
    let want = matrix(
        [
            vec![(2, 1)],
            vec![(3, 1), (5, 4)],
            vec![(2, 1), (4, 4)],
            vec![(3, 4), (5, 1)],
            vec![(4, 4), (6, 2)],
            vec![(3, 4), (5, 1)],
            vec![(2, 1), (4, 4)],
            vec![(3, 1), (5, 4)],
            vec![(2, 1)],
        ],
        5,
    );
    assert!(got == want);
    assert_eq!(got.projlen(), 5);
}

#[test]
fn an_id_out_of_range_stands_for_generator_22() {
    let m = reach(&[13, 7, 2], 7);
    let want = act_by(&m, 22, 7);
    assert!(act_by(&m, 0, 7) == want);
    assert!(act_by(&m, 23, 7) == want);
    assert!(act_by(&m, u32::MAX, 7) == want);
    assert!(act_by(&m, 21, 7) != want);
    let on_identity = act_by(&Matrix::identity(7), 22, 7);
    let expected = matrix(
        [
            vec![],
            vec![(3, 1)],
            vec![(2, 1)],
            vec![],
            vec![(4, 6)],
            vec![],
            vec![(4, 6)],
            vec![],
            vec![],
        ],
        7,
    );
    assert!(on_identity == expected);
}

#[test]
fn every_generator_keeps_a_matrix_from_becoming_zero() {
    for p in [2u8, 3, 5] {
        let m = reach(&[10, 13, 4], p);
        for g in 1..=22u32 {
            assert!(act_by(&m, g, p).d.iter().any(|e| !e.is_zero()));
        }
    }
}

#[test]
fn the_powers_rise_by_at_most_four() {
    let mut m = Matrix::identity(5);
    for (n, g) in [9u32, 16, 17, 18, 22, 11, 15, 21].iter().enumerate() {
        m = act_by(&m, *g, 5);
        let top = m.d.iter().filter(|e| !e.is_zero()).map(|e| e.max_power()).max().unwrap();
        assert!(top as usize <= 4 * (n + 1));
    }
}

#[test]
fn matrix_map_holds_the_22_generators() {
    let map = generate_matrix_map(5);
    for g in 1..=22u32 {
        let m = map.get(g).unwrap();
        assert_eq!(m.p, 5);
        assert!(m.d.iter().all(|e| e.p == 5 && e.data.len() <= 1));
    }
    assert!(map.get(0).is_none());
    assert!(map.get(23).is_none());
}

#[test]
fn matrix_of_generator_one() {
    let map = generate_matrix_map(5);
    let want = matrix(
        [
            vec![(0, 1)],
            vec![],
            vec![],
            vec![],
            vec![(0, 1)],
            vec![],
            vec![],
            vec![(1, 4)],
            vec![(2, 4)],
        ],
        5,
    );
    assert!(*map.get(1).unwrap() == want);
}

#[test]
fn matrix_of_generator_13_over_two_moduli() {
    let want = |p: u8| {
        matrix(
            [
                vec![(2, p - 1)],
                vec![(1, p - 1)],
                vec![],
                vec![(3, 1)],
                vec![(2, 1)],
                vec![(3, 1)],
                vec![],
                vec![(1, p - 1)],
                vec![(2, p - 1)],
            ],
            p,
        )
    };
    assert!(*generate_matrix_map(7).get(13).unwrap() == want(7));
    assert!(*generate_matrix_map(2).get(13).unwrap() == want(2));
}

#[test]
fn descendants_of_some_generators() {
    let table = generate_descendants();
    assert_eq!(*table.get(1).unwrap(), vec![1, 4, 18]);
    assert_eq!(*table.get(2).unwrap(), vec![2, 3, 12, 13, 16]);
    assert_eq!(*table.get(5).unwrap(), vec![1, 2, 3, 4, 5, 12, 13, 16, 18, 19, 22]);
    assert_eq!(*table.get(14).unwrap(), vec![2, 3, 6, 8, 9, 12, 13, 14, 15, 16, 17]);
    assert_eq!(*table.get(22).unwrap(), vec![2, 3, 6, 8, 9, 12, 13, 14, 15, 16, 17]);
    assert!(table.get(0).is_none());
    assert!(table.get(23).is_none());
}

#[test]
fn every_generator_has_descendants_and_is_one() {
    let table = generate_descendants();
    for g in 1..=22u32 {
        let next = table.get(g).unwrap();
        assert!(!next.is_empty());
        assert!(next.iter().all(|h| (1..=22).contains(h)));
        assert!((1..=22u32).any(|h| h != g && table.get(h).unwrap().contains(&g)));
    }
}
