use gauss_jordan::matrix::{IndexConflict, Matrix};

fn sample() -> Matrix<i64> {
    Matrix::new_row_major(vec![vec![1, 2, 3], vec![4, 5, 6]])
}

#[test]
fn dimensions_and_access() {
    let m = sample();
    assert_eq!(m.num_rows(), 2);
    assert_eq!(m.num_cols(), 3);
    assert_eq!(m.entry(1, 2), 6);
    assert_eq!(m.row(0).entries, vec![1, 2, 3]);
    assert_eq!(m.col(1), vec![2, 5]);
}

#[test]
fn set_entry_changes_one_entry() {
    let mut m = sample();
    m.set_entry(0, 1, 9);
    assert_eq!(m.row(0).entries, vec![1, 9, 3]);
    assert_eq!(m.row(1).entries, vec![4, 5, 6]);
}

#[test]
fn swap_exchanges_rows() {
    let mut m = sample();
    assert_eq!(m.ero_swap(0, 1), Ok(()));
    assert_eq!(m.row(0).entries, vec![4, 5, 6]);
    assert_eq!(m.row(1).entries, vec![1, 2, 3]);
}

#[test]
fn swap_same_row_is_index_conflict() {
    let mut m = sample();
    assert_eq!(m.ero_swap(1, 1), Err(IndexConflict { index: 1 }));
    assert_eq!(m.row(1).entries, vec![4, 5, 6]);
}

#[test]
fn scale_multiplies_one_row() {
    let mut m = sample();
    m.ero_scale(1, 3, |a: i64, b: i64| a * b);
    assert_eq!(m.row(0).entries, vec![1, 2, 3]);
    assert_eq!(m.row(1).entries, vec![12, 15, 18]);
}

#[test]
fn scale_by_zero_is_allowed() {
    let mut m = sample();
    m.ero_scale(0, 0, |a: i64, b: i64| a * b);
    assert_eq!(m.row(0).entries, vec![0, 0, 0]);
}

#[test]
fn combine_adds_multiple_of_other_row() {
    let mut m = sample();
    assert_eq!(m.ero(1, -4, 0, |a: i64, s: i64, b: i64| a + s * b), Ok(()));
    assert_eq!(m.row(0).entries, vec![1, 2, 3]);
    assert_eq!(m.row(1).entries, vec![0, -3, -6]);
}

#[test]
fn combine_same_row_is_index_conflict() {
    let mut m = sample();
    assert_eq!(m.ero(0, 2, 0, |a: i64, s: i64, b: i64| a + s * b), Err(IndexConflict { index: 0 }));
    assert_eq!(m.row(0).entries, vec![1, 2, 3]);
}

#[test]
fn column_walk_visits_rows_in_order() {
    let m = sample();
    let mut it = m.col_iter(2);
    assert_eq!(it.next(), Some(3));
    assert_eq!(it.next(), Some(6));
    assert_eq!(it.next(), None);
    assert_eq!(it.next(), None);
}

#[test]
fn row_iter_yields_entries() {
    let m = sample();
    let got: Vec<i64> = m.row(1).iter().copied().collect();
    assert_eq!(got, vec![4, 5, 6]);
}
