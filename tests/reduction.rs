use gauss_jordan::classify::{classify, solve, SolutionClassification};
use gauss_jordan::eliminate::{eliminate, find_pivot};
use gauss_jordan::matrix::Matrix;

fn is_nonzero(x: f32) -> bool {
    x != 0.0
}

fn recip(x: f32) -> f32 {
    1.0 / x
}

fn neg(x: f32) -> f32 {
    -x
}

fn times(a: f32, b: f32) -> f32 {
    a * b
}

fn mul_add(a: f32, s: f32, b: f32) -> f32 {
    a + s * b
}

/// An exact rational number kept in lowest terms with a positive denominator.
#[derive(Clone, Copy, Debug, PartialEq)]
struct Q {
    n: i64,
    d: i64,
}

fn gcd(a: i64, b: i64) -> i64 {
    if b == 0 {
        a.abs()
    } else {
        gcd(b, a % b)
    }
}

fn q(n: i64, d: i64) -> Q {
    let g = gcd(n, d).max(1);
    let s = if d < 0 { -1 } else { 1 };
    Q { n: s * n / g, d: s * d / g }
}

fn qi(n: i64) -> Q {
    q(n, 1)
}

fn q_nonzero(x: Q) -> bool {
    x.n != 0
}

fn q_recip(x: Q) -> Q {
    q(x.d, x.n)
}

fn q_neg(x: Q) -> Q {
    q(-x.n, x.d)
}

fn q_times(a: Q, b: Q) -> Q {
    q(a.n * b.n, a.d * b.d)
}

fn q_mul_add(a: Q, s: Q, b: Q) -> Q {
    let p = q_times(s, b);
    q(a.n * p.d + p.n * a.d, a.d * p.d)
}

fn fm(rows: Vec<Vec<f32>>) -> Matrix<f32> {
    Matrix::new_row_major(rows)
}

fn qm(rows: Vec<Vec<i64>>) -> Matrix<Q> {
    Matrix::new_row_major(rows.into_iter().map(|r| r.into_iter().map(qi).collect()).collect())
}

fn rows_of<T: Copy>(m: &Matrix<T>) -> Vec<Vec<T>> {
    (0..m.num_rows()).map(|i| m.row(i).entries.clone()).collect()
}

#[test]
fn three_equations_unique_solution() {
    let mut m = fm(vec![
        vec![2.0, 1.0, -1.0, 8.0],
        vec![-3.0, -1.0, 2.0, -11.0],
        vec![-2.0, 1.0, 2.0, -3.0],
    ]);
    let (pivots, c) = solve(&mut m, is_nonzero, recip, neg, times, mul_add);
    assert_eq!(pivots, vec![0, 1, 2]);
    match c {
        SolutionClassification::Unique(v) => {
            assert_eq!(v.len(), 3);
            let expected = [2.0f32, 3.0, -1.0];
            for k in 0..3 {
                assert!((v[k] - expected[k]).abs() < 1e-4, "{:?}", v);
            }
        }
        other => panic!("expected a unique solution, got {:?}", other),
    }
}

#[test]
fn three_equations_exact_unique_solution() {
    let mut m = qm(vec![vec![2, 1, -1, 8], vec![-3, -1, 2, -11], vec![-2, 1, 2, -3]]);
    let (pivots, c) = solve(&mut m, q_nonzero, q_recip, q_neg, q_times, q_mul_add);
    assert_eq!(pivots, vec![0, 1, 2]);
    assert_eq!(c, SolutionClassification::Unique(vec![qi(2), qi(3), qi(-1)]));
}

#[test]
fn inconsistent_system_has_no_solution() {
    let mut m = fm(vec![vec![1.0, 1.0, 2.0], vec![0.0, 0.0, 1.0]]);
    let (pivots, c) = solve(&mut m, is_nonzero, recip, neg, times, mul_add);
    assert_eq!(pivots, vec![0, 2]);
    assert_eq!(c, SolutionClassification::NoSolution);
}

#[test]
fn dependent_rows_give_many_solutions() {
    let mut m = fm(vec![vec![1.0, 2.0, 1.0], vec![2.0, 4.0, 2.0]]);
    let (pivots, c) = solve(&mut m, is_nonzero, recip, neg, times, mul_add);
    assert_eq!(pivots, vec![0]);
    assert_eq!(c, SolutionClassification::Many);
    assert_eq!(rows_of(&m), vec![vec![1.0, 2.0, 1.0], vec![0.0, 0.0, 0.0]]);
}

#[test]
fn reduced_identity_is_left_unchanged() {
    let rows = vec![vec![1.0, 0.0, 5.0], vec![0.0, 1.0, 7.0]];
    let mut m = fm(rows.clone());
    let (pivots, c) = solve(&mut m, is_nonzero, recip, neg, times, mul_add);
    assert_eq!(pivots, vec![0, 1]);
    assert_eq!(rows_of(&m), rows);
    assert_eq!(c, SolutionClassification::Unique(vec![5.0, 7.0]));
}

#[test]
fn pivots_strictly_increasing_and_bounded() {
    let mut m = qm(vec![
        vec![0, 0, 3, 1, 2],
        vec![0, 0, 6, 2, 4],
        vec![0, 1, 0, 0, 5],
        vec![0, 2, 3, 1, 7],
    ]);
    let pivots = eliminate(&mut m, q_nonzero, q_recip, q_neg, q_times, q_mul_add);
    assert_eq!(pivots, vec![1, 2, 4]);
    assert!(pivots.windows(2).all(|w| w[0] < w[1]));
    assert!(pivots.len() <= 4 && pivots.len() <= 5);
}

#[test]
fn pivot_columns_are_reduced() {
    let mut m = qm(vec![vec![2, 4, 1, 3], vec![1, 2, 3, 4], vec![3, 6, 4, 7]]);
    let pivots = eliminate(&mut m, q_nonzero, q_recip, q_neg, q_times, q_mul_add);
    assert_eq!(pivots, vec![0, 2]);
    for (k, &c) in pivots.iter().enumerate() {
        for i in 0..m.num_rows() {
            let want = if i == k { qi(1) } else { qi(0) };
            assert_eq!(m.entry(i, c), want);
        }
    }
}

#[test]
fn elimination_is_idempotent() {
    let mut m = qm(vec![vec![2, 1, -1, 8], vec![-3, -1, 2, -11], vec![-2, 1, 2, -3]]);
    let first = eliminate(&mut m, q_nonzero, q_recip, q_neg, q_times, q_mul_add);
    let reduced = rows_of(&m);
    let second = eliminate(&mut m, q_nonzero, q_recip, q_neg, q_times, q_mul_add);
    assert_eq!(first, second);
    assert_eq!(rows_of(&m), reduced);
}

#[test]
fn classify_is_deterministic() {
    let mut m = fm(vec![vec![1.0, 0.0, 5.0], vec![0.0, 1.0, 7.0]]);
    let pivots = eliminate(&mut m, is_nonzero, recip, neg, times, mul_add);
    let before = rows_of(&m);
    let a = classify(&m, &pivots);
    let b = classify(&m, &pivots);
    assert_eq!(a, b);
    assert_eq!(rows_of(&m), before);
}

#[test]
fn single_row_with_nonzero_constant_only_is_inconsistent() {
    let mut m = fm(vec![vec![0.0, 0.0, 2.0]]);
    let (pivots, c) = solve(&mut m, is_nonzero, recip, neg, times, mul_add);
    assert_eq!(pivots, vec![2]);
    assert_eq!(c, SolutionClassification::NoSolution);
    assert_eq!(m.entry(0, 2), 1.0);
}

#[test]
fn zero_matrix_has_no_pivots() {
    let mut m = fm(vec![vec![0.0, 0.0], vec![0.0, 0.0]]);
    let (pivots, c) = solve(&mut m, is_nonzero, recip, neg, times, mul_add);
    assert!(pivots.is_empty());
    assert_eq!(c, SolutionClassification::Many);
}

#[test]
fn overdetermined_consistent_system_is_unique() {
    let mut m = fm(vec![vec![1.0, 2.0], vec![2.0, 4.0], vec![3.0, 6.0]]);
    let (pivots, c) = solve(&mut m, is_nonzero, recip, neg, times, mul_add);
    assert_eq!(pivots, vec![0]);
    assert_eq!(c, SolutionClassification::Unique(vec![2.0, 0.0, 0.0]));
}

#[test]
fn classify_reads_pivots_only() {
    let m = fm(vec![vec![1.0, 0.0, 4.0], vec![0.0, 1.0, 9.0]]);
    assert_eq!(classify(&m, &vec![0, 1]), SolutionClassification::Unique(vec![4.0, 9.0]));
    assert_eq!(classify(&m, &vec![0, 2]), SolutionClassification::NoSolution);
    assert_eq!(classify(&m, &vec![1]), SolutionClassification::Many);
    assert_eq!(classify(&m, &vec![]), SolutionClassification::Many);
}

#[test]
fn find_pivot_picks_first_column_then_first_row() {
    let m = fm(vec![vec![0.0, 0.0, 1.0], vec![0.0, 0.0, 0.0], vec![0.0, 5.0, 2.0]]);
    assert_eq!(find_pivot(&m, 0, 0, is_nonzero), Some((2, 1)));
    assert_eq!(find_pivot(&m, 0, 2, is_nonzero), Some((0, 2)));
    assert_eq!(find_pivot(&m, 1, 2, is_nonzero), Some((2, 2)));
    assert_eq!(find_pivot(&m, 0, 3, is_nonzero), None);
    let z = fm(vec![vec![0.0, 0.0], vec![0.0, 0.0]]);
    assert_eq!(find_pivot(&z, 0, 0, is_nonzero), None);
}
