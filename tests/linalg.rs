use circuit_sim::linalg::{Field, Mat};

fn entries(m: &Mat<i64>) -> Vec<Vec<i64>> {
    (0..m.n_rows())
        .map(|i| (0..m.n_cols()).map(|j| m.get(i, j)).collect())
        .collect()
}

#[test]
fn new_reads_rows() {
    let m = Mat::new([[1i64, 2, 3], [4, 5, 6]]);
    assert_eq!(m.n_rows(), 2);
    assert_eq!(m.n_cols(), 3);
    assert_eq!(entries(&m), vec![vec![1, 2, 3], vec![4, 5, 6]]);
}

#[test]
fn from_raw_is_column_major() {
    let m = Mat::from_raw(2, vec![1i64, 2, 3, 4, 5, 6]);
    assert_eq!(m.n_rows(), 3);
    assert_eq!(m.n_cols(), 2);
    assert_eq!(entries(&m), vec![vec![1, 4], vec![2, 5], vec![3, 6]]);
}

#[test]
fn trace_of_square() {
    let m = Mat::new([[1i64, 2], [3, 4]]);
    assert_eq!(m.tr(), 5);
}

#[test]
fn trace_of_rectangle_uses_shorter_side() {
    let m = Mat::new([[1i64, 2, 3], [4, 5, 6]]);
    assert_eq!(m.tr(), 6);
}

#[test]
fn trace_of_empty_is_zero() {
    let m: Mat<i64> = Mat::new::<0, 0>([]);
    assert_eq!(m.tr(), 0);
}

#[test]
fn transpose_square_in_place() {
    let mut m = Mat::new([[1i64, 2], [3, 4]]);
    m.transpose();
    assert_eq!(entries(&m), vec![vec![1, 3], vec![2, 4]]);
}

#[test]
fn transpose_rectangle() {
    let m = Mat::new([[1i64, 2, 3], [4, 5, 6]]).t();
    assert_eq!(m.n_rows(), 3);
    assert_eq!(m.n_cols(), 2);
    assert_eq!(entries(&m), vec![vec![1, 4], vec![2, 5], vec![3, 6]]);
}

#[test]
fn matmul_permutation_by_column() {
    let a = Mat::new([[0i64, 1], [1, 0]]);
    let b = Mat::new([[2i64], [3]]);
    let c = a.matmul(&b);
    assert_eq!(entries(&c), vec![vec![3], vec![2]]);
}

#[test]
fn matmul_rectangles() {
    let a = Mat::new([[1i64, 2, 3], [4, 5, 6]]);
    let b = Mat::new([[7i64, 8], [9, 10], [11, 12]]);
    let c = a.matmul(&b);
    assert_eq!(c.n_rows(), 2);
    assert_eq!(c.n_cols(), 2);
    assert_eq!(entries(&c), vec![vec![58, 64], vec![139, 154]]);
}

#[test]
fn matmul_wraps_on_overflow() {
    let a = Mat::new([[i64::MAX, 1]]);
    let b = Mat::new([[1i64], [1]]);
    assert_eq!(a.matmul(&b).to_scalar(), i64::MIN);
}

#[test]
fn to_scalar_of_one_by_one() {
    let m = Mat::new([[42i64]]);
    assert_eq!(m.to_scalar(), 42);
}

#[test]
fn set_changes_one_entry() {
    let mut m = Mat::new([[1i64, 2], [3, 4]]);
    m.set(1, 0, 9);
    assert_eq!(entries(&m), vec![vec![1, 2], vec![9, 4]]);
}

#[test]
fn add_and_sub_entrywise() {
    let a = Mat::new([[1i64, 2], [3, 4]]);
    let b = Mat::new([[10i64, 20], [30, 40]]);
    let s = a.clone().add(&b);
    assert_eq!(entries(&s), vec![vec![11, 22], vec![33, 44]]);
    let d = b.sub(&a);
    assert_eq!(entries(&d), vec![vec![9, 18], vec![27, 36]]);
}

#[test]
fn assign_operations() {
    let mut a = Mat::new([[1i64, 2], [3, 4]]);
    let b = Mat::new([[1i64, 1], [1, 1]]);
    a.add_assign(&b);
    assert_eq!(entries(&a), vec![vec![2, 3], vec![4, 5]]);
    a.mul_assign(3);
    assert_eq!(entries(&a), vec![vec![6, 9], vec![12, 15]]);
    a.sub_assign(&b);
    assert_eq!(entries(&a), vec![vec![5, 8], vec![11, 14]]);
}

#[test]
fn field_on_i64_wraps() {
    assert_eq!(<i64 as Field>::zero(), 0);
    assert_eq!(i64::MAX.plus(1), i64::MIN);
    assert_eq!(i64::MIN.minus(1), i64::MAX);
    assert_eq!(3i64.times(-4), -12);
}

#[test]
fn div_assign_truncates_toward_zero() {
    let mut a = Mat::new([[7i64, -7], [6, -1]]);
    a.div_assign(2);
    assert_eq!(entries(&a), vec![vec![3, -3], vec![3, 0]]);
    assert_eq!((-7i64).over(-2), 3);
}
