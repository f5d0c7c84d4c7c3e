use transportation::matrix::Matrix;
use transportation::Error;

fn grid(rows: &[&[i64]]) -> Matrix {
    Matrix::new(rows.iter().map(|r| r.to_vec()).collect())
}

#[test]
fn dimensions_and_access() {
    let m = grid(&[&[1, 2, 3], &[4, 5, 6]]);
    assert_eq!(m.rows(), 2);
    assert_eq!(m.cols(), 3);
    assert!(!m.is_square());
    assert!(!m.is_empty());
    assert_eq!(m.get(1, 2), Ok(6));
    assert_eq!(m.get(2, 0), Err(Error::IndexOutOfBounds));
    assert_eq!(m.get(0, 3), Err(Error::IndexOutOfBounds));
}

#[test]
fn set_writes_in_bounds_only() {
    let mut m = Matrix::new_empty(2, 2);
    assert_eq!(m.set(0, 1, 7), Ok(()));
    assert_eq!(m.get(0, 1), Ok(7));
    assert_eq!(m.set(2, 0, 1), Err(Error::IndexOutOfBounds));
    assert_eq!(m.get(0, 0), Ok(0));
}

#[test]
fn new_empty_is_all_zero() {
    let m = Matrix::new_empty(3, 2);
    for i in 0..3 {
        for j in 0..2 {
            assert_eq!(m.get(i, j), Ok(0));
        }
    }
}

#[test]
fn transpose_swaps_axes() {
    let m = grid(&[&[1, 2, 3], &[4, 5, 6]]);
    let t = m.transpose();
    assert_eq!(t.rows(), 3);
    assert_eq!(t.cols(), 2);
    assert_eq!(t.get(2, 1), Ok(6));
    assert_eq!(t.get(0, 1), Ok(4));
}

#[test]
fn min_and_index_of() {
    let m = grid(&[&[9, 2], &[3, -4]]);
    assert_eq!(m.min(), Some(-4));
    assert_eq!(m.index_of(-4), Some((1, 1)));
    assert_eq!(m.index_of(3), Some((1, 0)));
    assert_eq!(m.index_of(42), None);
    let empty = Matrix::new_empty(0, 5);
    assert_eq!(empty.min(), None);
    assert!(empty.is_empty());
}

#[test]
fn min_picks_first_of_equal_values() {
    let m = grid(&[&[5, 1], &[1, 5]]);
    assert_eq!(m.min(), Some(1));
    assert_eq!(m.index_of(1), Some((0, 1)));
}

#[test]
fn algebra_elementwise() {
    let a = grid(&[&[1, 2], &[3, 4]]);
    let b = grid(&[&[10, 20], &[30, 40]]);
    let s = a.add(&b);
    assert_eq!(s.get(0, 0), Ok(11));
    assert_eq!(s.get(1, 1), Ok(44));
    let d = b.sub(&a);
    assert_eq!(d.get(0, 1), Ok(18));
    let k = a.scalar_mul(-2);
    assert_eq!(k.get(1, 0), Ok(-6));
}

#[test]
fn matrix_product() {
    let a = grid(&[&[1, 2], &[3, 4]]);
    let b = grid(&[&[5, 6], &[7, 8]]);
    let p = a.mul(&b);
    assert_eq!(p.get(0, 0), Ok(19));
    assert_eq!(p.get(0, 1), Ok(22));
    assert_eq!(p.get(1, 0), Ok(43));
    assert_eq!(p.get(1, 1), Ok(50));
}

#[test]
fn iter_rows_and_cols() {
    let m = grid(&[&[1, 2], &[3, 4]]);
    let rows = m.iter_rows();
    assert_eq!(rows[0], vec![1, 2]);
    assert_eq!(rows[1], vec![3, 4]);
    let cols = m.iter_cols();
    assert_eq!(cols[0], vec![1, 3]);
    assert_eq!(cols[1], vec![2, 4]);
}

#[test]
fn solve_round_trip_recovers_known_solution() {
    // b was assembled as A times the known solution [1, 2].
    let a = grid(&[&[2, 1], &[1, 3]]);
    let b = vec![4, 7];
    assert_eq!(a.solve(&b), Ok(vec![1, 2]));
}

#[test]
fn solve_larger_round_trip() {
    // b is A times [3, -1, 2]; every pivot of this system is a unit, so
    // integer elimination recovers the solution exactly.
    let a = grid(&[&[1, 0, 0], &[1, 1, 0], &[1, 1, 1]]);
    let b = vec![3, 2, 4];
    assert_eq!(a.solve(&b), Ok(vec![3, -1, 2]));
}

#[test]
fn solve_rejects_singular_matrix() {
    let a = grid(&[&[0, 0], &[0, 0]]);
    let b = vec![1, 2];
    assert_eq!(a.solve(&b), Err(Error::SingularMatrix));
}

#[test]
fn solve_rejects_non_integral_solution() {
    // The exact solution 1/2 leaves the scalar type.
    let a = grid(&[&[2]]);
    let b = vec![1];
    assert_eq!(a.solve(&b), Err(Error::NumericOverflow));
}

#[test]
fn solve_empty_system() {
    let a = Matrix::new_empty(0, 0);
    let b: Vec<i64> = Vec::new();
    assert_eq!(a.solve(&b), Ok(Vec::new()));
}
