use sparse_pcg::preconditioner::Preconditioner;
use sparse_pcg::scalar::Scalar;
use sparse_pcg::solver::solver;
use sparse_pcg::sparse_row_matrix::SparseRowMatrix;
use sparse_pcg::sparse_symmetric_matrix::{Entry, SparseSymmetricMatrix};
use sparse_pcg::vector::Vector;

#[derive(Clone, Copy, Debug, PartialEq)]
struct F(f64);

impl Scalar for F {
    // the value of each operation is the operation itself
    fn zero_spec() -> Self {
        Self::zero()
    }
    fn ratio_spec(num: u32, den: u32) -> Self {
        Self::ratio(num, den)
    }
    fn plus_spec(self, other: Self) -> Self {
        self.plus(other)
    }
    fn minus_spec(self, other: Self) -> Self {
        self.minus(other)
    }
    fn times_spec(self, other: Self) -> Self {
        self.times(other)
    }
    fn over_spec(self, other: Self) -> Self {
        self.over(other)
    }
    fn negated_spec(self) -> Self {
        self.negated()
    }
    fn magnitude_spec(self) -> Self {
        self.magnitude()
    }
    fn square_root_spec(self) -> Self {
        self.square_root()
    }
    fn larger_spec(self, other: Self) -> Self {
        self.larger(other)
    }
    fn less_than_spec(self, other: Self) -> bool {
        self.less_than(other)
    }
    fn is_zero_spec(self) -> bool {
        self.is_zero()
    }
    fn is_normal_spec(self) -> bool {
        self.is_normal()
    }
    fn is_finite_spec(self) -> bool {
        self.is_finite()
    }
    fn zero() -> Self {
        F(0.0)
    }
    fn ratio(num: u32, den: u32) -> Self {
        F(num as f64 / den as f64)
    }
    fn plus(self, other: Self) -> Self {
        F(self.0 + other.0)
    }
    fn minus(self, other: Self) -> Self {
        F(self.0 - other.0)
    }
    fn times(self, other: Self) -> Self {
        F(self.0 * other.0)
    }
    fn over(self, other: Self) -> Self {
        F(self.0 / other.0)
    }
    fn negated(self) -> Self {
        F(-self.0)
    }
    fn magnitude(self) -> Self {
        F(self.0.abs())
    }
    fn square_root(self) -> Self {
        F(self.0.sqrt())
    }
    fn larger(self, other: Self) -> Self {
        F(self.0.max(other.0))
    }
    fn less_than(self, other: Self) -> bool {
        self.0 < other.0
    }
    fn is_zero(self) -> bool {
        self.0 == 0.0
    }
    fn is_normal(self) -> bool {
        self.0.is_normal()
    }
    fn is_finite(self) -> bool {
        self.0.is_finite()
    }
}

fn e(x: usize, y: usize, v: f64) -> Entry<F> {
    Entry { x, y, v: F(v) }
}

fn vector(v: &[f64]) -> Vector<F> {
    Vector(v.iter().map(|&x| F(x)).collect())
}

fn plain(v: &[F]) -> Vec<f64> {
    v.iter().map(|x| x.0).collect()
}

fn plain_columns(v: &[Vec<F>]) -> Vec<Vec<f64>> {
    v.iter().map(|c| plain(c)).collect()
}

fn small_matrix() -> SparseSymmetricMatrix<F> {
    SparseSymmetricMatrix::new(&vec![e(0, 0, 1.0), e(0, 1, 5.0), e(0, 2, 6.0), e(1, 1, 2.0)])
}

fn spd_matrix() -> SparseSymmetricMatrix<F> {
    SparseSymmetricMatrix::new(&vec![
        e(0, 0, 0.37),
        e(1, 0, -0.05),
        e(2, 0, -0.05),
        e(3, 0, -0.07),
        e(1, 1, 0.116),
        e(2, 1, 0.0),
        e(3, 1, -0.05),
        e(2, 2, 0.116),
        e(3, 2, -0.05),
        e(3, 3, 0.202),
    ])
}

#[test]
fn sparse_symmetric_matrix_test_construct() {
    let m = SparseSymmetricMatrix::new(&vec![
        e(0, 0, 1.5),
        e(0, 1, 5.5),
        e(0, 2, 6.5),
        e(1, 1, 2.5),
        e(1, 2, 8.5),
        e(2, 2, 9.5),
    ]);
    assert_eq!(m.length, 2);
    assert_eq!(m.indices, vec![vec![0, 1, 2], vec![1, 2], vec![2]]);
    assert_eq!(plain_columns(&m.values), vec![vec![1.5, 5.5, 6.5], vec![2.5, 8.5], vec![9.5]]);
}

#[test]
fn test_mixed_construct() {
    let m = SparseSymmetricMatrix::new(&vec![
        e(2, 2, 9.5),
        e(0, 0, 1.5),
        e(0, 2, 6.5),
        e(1, 1, 2.5),
        e(1, 2, 8.5),
        e(0, 1, 5.5),
    ]);
    assert_eq!(m.length, 2);
    assert_eq!(m.indices, vec![vec![0, 1, 2], vec![1, 2], vec![2]]);
    assert_eq!(plain_columns(&m.values), vec![vec![1.5, 5.5, 6.5], vec![2.5, 8.5], vec![9.5]]);
}

#[test]
fn test_duplicate_construct() {
    let m = SparseSymmetricMatrix::new(&vec![
        e(0, 1, 5.5),
        e(0, 0, 1.5),
        e(1, 1, 2.5),
        e(2, 1, 8.5),
        e(1, 1, 2.5),
        e(0, 2, 6.5),
        e(2, 2, 9.5),
        e(2, 2, 9.5),
        e(2, 0, 6.5),
    ]);
    assert_eq!(m.length, 2);
    assert_eq!(m.indices, vec![vec![0, 1, 2], vec![1, 2], vec![2]]);
    assert_eq!(plain_columns(&m.values), vec![vec![1.5, 5.5, 6.5], vec![2.5, 8.5], vec![9.5]]);
}

#[test]
fn test_sparse_construct() {
    let m = SparseSymmetricMatrix::new(&vec![e(10, 5, 10.0), e(2, 8, 9.0)]);
    assert_eq!(m.length, 10);
    // every column up to the largest index is present, empty or not
    let mut indices: Vec<Vec<usize>> = vec![vec![]; 11];
    indices[2] = vec![8];
    indices[5] = vec![10];
    let mut values: Vec<Vec<f64>> = vec![vec![]; 11];
    values[2] = vec![9.0];
    values[5] = vec![10.0];
    assert_eq!(m.indices, indices);
    assert_eq!(plain_columns(&m.values), values);
}

#[test]
fn later_duplicate_wins() {
    let m = SparseSymmetricMatrix::new(&vec![e(1, 0, 3.0), e(0, 1, 4.0), e(1, 1, 1.0)]);
    assert_eq!(m.indices, vec![vec![1], vec![1]]);
    assert_eq!(plain_columns(&m.values), vec![vec![4.0], vec![1.0]]);
}

#[test]
fn empty_input_gives_one_empty_column() {
    let m: SparseSymmetricMatrix<F> = SparseSymmetricMatrix::new(&vec![]);
    assert_eq!(m.length, 0);
    assert_eq!(m.indices, vec![Vec::<usize>::new()]);
    assert_eq!(m.values.len(), 1);
    assert!(m.values[0].is_empty());
}

#[test]
fn rebuilding_from_stored_entries_changes_nothing() {
    let m = SparseSymmetricMatrix::new(&vec![e(2, 1, 8.5), e(0, 0, 1.5), e(2, 0, 6.5), e(0, 2, 7.5)]);
    let mut canonical = vec![];
    for i in 0..m.indices.len() {
        for p in 0..m.indices[i].len() {
            canonical.push(Entry { x: i, y: m.indices[i][p], v: m.values[i][p] });
        }
    }
    let again = SparseSymmetricMatrix::new(&canonical);
    assert_eq!(again.length, m.length);
    assert_eq!(again.indices, m.indices);
    assert_eq!(plain_columns(&again.values), plain_columns(&m.values));
}

#[test]
fn sparse_row_matrix_test_construct() {
    let srm = SparseRowMatrix::new(&small_matrix());
    assert_eq!(plain(&srm.values), vec![1.0, 5.0, 6.0, 5.0, 2.0, 6.0]);
    assert_eq!(srm.column_index, vec![0, 1, 2, 0, 1, 0]);
    assert_eq!(srm.row_pointers, vec![0, 3, 5, 6]);
}

#[test]
fn test_apply() {
    let srm = SparseRowMatrix::new(&small_matrix());
    let v = vector(&[1.0, 2.0, 3.0]);
    let result = srm.apply(&v);
    assert_eq!(plain(&result.0), vec![29.0, 9.0, 6.0]);
}

#[test]
fn unit_vectors_pick_out_columns() {
    let m = small_matrix();
    let srm = SparseRowMatrix::new(&m);
    let dense = [[1.0, 5.0, 6.0], [5.0, 2.0, 0.0], [6.0, 0.0, 0.0]];
    for i in 0..3 {
        let mut unit = vec![0.0; 3];
        unit[i] = 1.0;
        let column = srm.apply(&vector(&unit));
        let expected: Vec<f64> = (0..3).map(|r| dense[r][i]).collect();
        assert_eq!(plain(&column.0), expected);
    }
}

#[test]
fn product_is_self_adjoint() {
    let srm = SparseRowMatrix::new(&spd_matrix());
    let x = vector(&[1.0, -2.0, 0.5, 3.0]);
    let y = vector(&[0.25, 4.0, -1.0, 2.0]);
    let left = srm.apply(&x).dot(&y).0;
    let right = x.dot(&srm.apply(&y)).0;
    assert!((left - right).abs() < 1e-12);
}

#[test]
fn test_positive_definite_matrix_preconditioner() {
    let p = Preconditioner::new(&spd_matrix());
    assert_eq!(p.length, 4);
    assert_eq!(
        plain(&p.values),
        vec![
            -0.08219949365267866,
            -0.08219949365267866,
            -0.11507929111375013,
            -0.020442828820163496,
            -0.1798968936174387,
            -0.1913900502726929,
        ]
    );
    assert_eq!(p.row_index, vec![1, 2, 3, 2, 3, 3]);
    assert_eq!(p.column_pointers, vec![0, 3, 5, 6, 6]);
    assert_eq!(
        plain(&p.inverse_diagonals),
        vec![1.6439898730535731, 3.0255386653841962, 3.031342410667025, 2.889597639959034]
    );
}

#[test]
fn preconditioner_keeps_zeros() {
    let p = Preconditioner::new(&spd_matrix());
    let z = p.apply(&vector(&[0.0, 0.0, 0.0, 0.0]));
    assert_eq!(plain(&z.0), vec![0.0, 0.0, 0.0, 0.0]);
}

#[test]
fn null_rows_are_skipped() {
    let m = SparseSymmetricMatrix::new(&vec![e(0, 0, 4.0), e(1, 1, 0.0), e(2, 2, 9.0)]);
    let p = Preconditioner::new(&m);
    assert_eq!(p.column_pointers, vec![0, 0, 0, 0]);
    assert_eq!(plain(&p.inverse_diagonals), vec![0.5, 0.0, 1.0 / 3.0]);
}

#[test]
fn eroded_diagonal_falls_back_to_matrix_diagonal() {
    // eliminating column 0 leaves 1 - 0.9 * 0.9 / 1 = 0.19 < 0.25 on the
    // second diagonal, which is then taken from the matrix instead
    let m = SparseSymmetricMatrix::new(&vec![e(0, 0, 1.0), e(1, 0, 0.9), e(1, 1, 1.0)]);
    let p = Preconditioner::new(&m);
    assert_eq!(p.column_pointers, vec![0, 1, 1]);
    assert_eq!(plain(&p.values), vec![0.9]);
    assert_eq!(plain(&p.inverse_diagonals), vec![1.0, 1.0]);
}

#[test]
fn test_solve() {
    let m = small_matrix();
    let v = vector(&[5.0, 6.0, 7.0]);
    let result = solver(&m, &v);
    assert_eq!(result.completed, true);
    assert!(result.iterations <= 3);
    let expected = [1.1667, 0.0833, 0.5694];
    for i in 0..3 {
        assert!((result.best_guess.0[i].0 - expected[i]).abs() < 1e-4);
    }
}

#[test]
fn zero_right_hand_side_returns_at_once() {
    let result = solver(&spd_matrix(), &vector(&[0.0, 0.0, 0.0, 0.0]));
    assert!(!result.completed);
    assert_eq!(result.iterations, 0);
    assert_eq!(plain(&result.best_guess.0), vec![0.0, 0.0, 0.0, 0.0]);
}

#[test]
fn spd_system_converges() {
    let m = spd_matrix();
    let b = vector(&[1.0, 2.0, 3.0, 4.0]);
    let result = solver(&m, &b);
    assert!(result.completed);
    assert!(result.iterations <= 4);
    let product = SparseRowMatrix::new(&m).apply(&result.best_guess);
    for i in 0..4 {
        assert!((product.0[i].0 - b.0[i].0).abs() < 1e-4 * 4.0);
    }
}

#[test]
fn test_largest_absolute_value() {
    let v = vector(&[-10.0, 2.0, 9.9]);
    assert_eq!(v.largest_absolute_value().0, 10.0);
}

#[test]
fn largest_absolute_value_of_empty_is_zero() {
    let v = vector(&[]);
    assert_eq!(v.largest_absolute_value().0, 0.0);
}

#[test]
fn test_dot() {
    let x = vector(&[2.0, 4.0, 6.0]);
    let y = vector(&[-1.0, -2.0, 3.0]);
    assert_eq!(x.dot(&y).0, 8.0);
}

#[test]
fn dot_is_symmetric() {
    let x = vector(&[0.1, -4.5, 6.25, 1e-3]);
    let y = vector(&[-1.5, 2.0, 3.75, 7.0]);
    assert_eq!(x.dot(&y), y.dot(&x));
}

#[test]
fn test_scale() {
    let v = vector(&[2.0, 4.0, 6.0]);
    assert_eq!(plain(&v.scale(F(0.0)).0), vec![0.0, 0.0, 0.0]);
    assert_eq!(plain(&v.scale(F(-2.0)).0), vec![-4.0, -8.0, -12.0]);
}

#[test]
fn test_add() {
    let x = vector(&[2.0, 4.0, 6.0]);
    let y = vector(&[-1.0, -2.0, 3.0]);
    assert_eq!(plain(&x.add(&y).0), vec![1.0, 2.0, 9.0]);
}

#[test]
fn zeros_and_copies() {
    let z: Vector<F> = Vector::zeros(3);
    assert_eq!(plain(&z.0), vec![0.0, 0.0, 0.0]);
    let v = vector(&[1.0, -2.0]);
    assert_eq!(plain(&v.copied().0), vec![1.0, -2.0]);
}

#[test]
fn symmetric_triplets_are_one_based() {
    let (rows, columns, values) = small_matrix().triplets();
    assert_eq!(rows, vec![1, 2, 3, 2]);
    assert_eq!(columns, vec![1, 1, 1, 2]);
    assert_eq!(plain(&values), vec![1.0, 5.0, 6.0, 2.0]);
}

#[test]
fn row_triplets_cover_both_triangles() {
    let (rows, columns, values) = SparseRowMatrix::new(&small_matrix()).triplets();
    assert_eq!(rows, vec![1, 1, 1, 2, 2, 3]);
    assert_eq!(columns, vec![1, 2, 3, 1, 2, 1]);
    assert_eq!(plain(&values), vec![1.0, 5.0, 6.0, 5.0, 2.0, 6.0]);
}

#[test]
fn lower_triangle_reflects() {
    let r = e(4, 1, 2.0).lower_triangle();
    assert_eq!((r.x, r.y, r.v.0), (1, 4, 2.0));
    let same = e(1, 4, 2.0).lower_triangle();
    assert_eq!((same.x, same.y), (1, 4));
}

#[test]
fn row_matrix_len_is_dimension() {
    let srm = SparseRowMatrix::new(&spd_matrix());
    assert_eq!(srm.len(), 4);
}

#[test]
fn dense_product_matches_reference() {
    let m = SparseSymmetricMatrix::new(&vec![
        e(0, 0, 1.5),
        e(0, 1, 5.5),
        e(0, 2, 6.5),
        e(1, 1, 2.5),
        e(1, 2, 8.5),
        e(2, 2, 9.5),
    ]);
    let result = SparseRowMatrix::new(&m).apply(&vector(&[3.0, 2.0, 1.0]));
    assert_eq!(plain(&result.0), vec![22.0, 30.0, 46.0]);
}

#[test]
fn dropped_fill_is_lumped_onto_diagonals() {
    let m = SparseSymmetricMatrix::new(&vec![
        e(0, 0, 4.0),
        e(1, 0, -1.0),
        e(2, 0, -1.0),
        e(1, 1, 4.0),
        e(2, 2, 4.0),
    ]);
    let p = Preconditioner::new(&m);
    assert_eq!(p.row_index, vec![1, 2]);
    assert_eq!(p.column_pointers, vec![0, 2, 2, 2]);
    assert_eq!(plain(&p.values), vec![-0.5, -0.5]);
    let d = 1.0 / (3.75f64 - 0.97 * 0.25).sqrt();
    assert_eq!(plain(&p.inverse_diagonals), vec![0.5, d, d]);
}

#[test]
fn last_element_is_not_rescaled_backward() {
    let m = SparseSymmetricMatrix::new(&vec![e(0, 0, 4.0), e(1, 1, 16.0)]);
    let p = Preconditioner::new(&m);
    let z = p.apply(&vector(&[2.0, 4.0]));
    assert_eq!(plain(&z.0), vec![0.5, 1.0]);
}

#[test]
fn finiteness_is_detected() {
    assert!(vector(&[1.0, -2.0, 0.0]).is_finite());
    assert!(!vector(&[1.0, f64::NAN]).is_finite());
    assert!(!vector(&[f64::INFINITY]).is_finite());
    assert!(vector(&[]).is_finite());
}

#[test]
fn scaling_by_a_subnormal_is_accepted() {
    let tiny = f64::MIN_POSITIVE / 2.0;
    let v = vector(&[2.0, 0.0]);
    assert_eq!(plain(&v.scale(F(tiny)).0), vec![2.0 * tiny, 0.0]);
}
