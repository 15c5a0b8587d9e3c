use vstd::prelude::*;
use crate::scalar::Scalar;
use crate::sparse_symmetric_matrix::{SparseSymmetricMatrix, strictly_increasing};
use crate::vector::Vector;
use crate::sparse_row_matrix::{SparseRowMatrix, row_columns};

verus! {

/// Weight with which dropped fill is lumped onto the diagonal: 97/100.
pub const MODIFIED_PARAMETER_NUMERATOR: u32 = 97;
pub const MODIFIED_PARAMETER_DENOMINATOR: u32 = 100;

/// A running diagonal below this share (1/4) of the matrix diagonal is
/// replaced by the matrix diagonal itself.
pub const MIN_DIAGONAL_RATIO_NUMERATOR: u32 = 1;
pub const MIN_DIAGONAL_RATIO_DENOMINATOR: u32 = 4;

/// The rows strictly below the diagonal among the rows `s` of column `i`.
pub open spec fn strict_part(i: int, s: Seq<usize>) -> Seq<usize> {
    if s.len() > 0 && s[0] == i {
        s.drop_first()
    } else {
        s
    }
}

/// The coefficients that go with [`strict_part`].
pub open spec fn strict_values<T>(i: int, s: Seq<usize>, c: Seq<T>) -> Seq<T> {
    if s.len() > 0 && s[0] == i {
        c.drop_first()
    } else {
        c
    }
}

/// The diagonal coefficient of column `i`, or zero where none is stored.
pub open spec fn diagonal_of<T: Scalar>(i: int, s: Seq<usize>, c: Seq<T>) -> T {
    if s.len() > 0 && s[0] == i {
        c[0]
    } else {
        T::zero_spec()
    }
}

/// The strictly-lower coefficients of columns `0 .. k`, one column after
/// another.
pub open spec fn flat_strict_values<T: Copy>(m: SparseSymmetricMatrix<T>, k: int) -> Seq<T>
    decreases k,
{
    if k <= 0 {
        seq![]
    } else {
        flat_strict_values(m, k - 1) + strict_values(k - 1, m.column(k - 1), m.column_values(k - 1))
    }
}

/// The diagonal coefficient of `m` at `i`, or zero where none is stored.
pub open spec fn matrix_diagonal<T: Scalar>(m: SparseSymmetricMatrix<T>, i: int) -> T {
    diagonal_of(i, m.column(i), m.column_values(i))
}

/// The strictly-lower rows of columns `0 .. k`, one column after another.
pub open spec fn flat_strict<T: Copy>(m: SparseSymmetricMatrix<T>, k: int) -> Seq<usize>
    decreases k,
{
    if k <= 0 {
        seq![]
    } else {
        flat_strict(m, k - 1) + strict_part(k - 1, m.column(k - 1))
    }
}

/// Column `k` of a strictly-lower factor with `n` columns occupies
/// `column_pointers[k] .. column_pointers[k + 1]` of `row_index`, and each of
/// its rows lies strictly below the diagonal.
pub open spec fn lower_layout(n: nat, row_index: Seq<usize>, column_pointers: Seq<usize>) -> bool {
    &&& column_pointers.len() == n + 1
    &&& column_pointers[0] == 0
    &&& column_pointers[n as int] == row_index.len()
    &&& forall|k: int| 0 <= k < n ==> #[trigger] column_pointers[k] <= column_pointers[k + 1]
    &&& forall|k: int| 0 <= k <= n ==> #[trigger] column_pointers[k] <= row_index.len()
    &&& forall|p: int| 0 <= p < row_index.len() ==> #[trigger] row_index[p] < n
    &&& forall|k: int, p: int|
        0 <= k < n && #[trigger] column_pointers[k] <= p < column_pointers[k + 1] ==> k
            < #[trigger] row_index[p]
}

/// The modified incomplete Cholesky factor `L` of a symmetric matrix: its
/// strictly-lower part column by column, and the reciprocals of its diagonal.
#[derive(Clone, Debug)]
pub struct Preconditioner<T> {
    pub length: usize,
    pub values: Vec<T>,
    pub row_index: Vec<usize>,
    pub column_pointers: Vec<usize>,
    pub inverse_diagonals: Vec<T>,
}

impl<T: Copy> Preconditioner<T> {
    pub open spec fn well_formed(&self) -> bool {
        &&& self.length >= 1
        &&& lower_layout(self.length as nat, self.row_index@, self.column_pointers@)
        &&& self.values@.len() == self.row_index@.len()
        &&& self.inverse_diagonals@.len() == self.length
    }

    /// The factor keeps the sparsity pattern of the strict lower triangle of
    /// `m`: column `k` holds exactly the rows below `k` that `m` stores.
    pub open spec fn has_pattern_of(&self, m: SparseSymmetricMatrix<T>) -> bool {
        &&& self.length == m.dim()
        &&& self.row_index@ == flat_strict(m, m.dim() as int)
        &&& forall|k: int| 0 <= k <= m.dim() ==> #[trigger] self.column_pointers@[k] == flat_strict(
            m,
            k,
        ).len()
    }
}

/// Appends the rows of column `i` that lie below the diagonal, with their
/// coefficients, and returns the diagonal coefficient (zero where there is
/// none).
fn split_column<T: Scalar>(
    i: usize,
    rows: &Vec<usize>,
    coefficients: &Vec<T>,
    row_index: &mut Vec<usize>,
    values: &mut Vec<T>,
) -> (diagonal: T)
    requires
        rows@.len() == coefficients@.len(),
        strictly_increasing(rows@),
        forall|p: int| 0 <= p < rows@.len() ==> i <= #[trigger] rows@[p],
        old(values)@.len() == old(row_index)@.len(),
    ensures
        final(row_index)@ == old(row_index)@ + strict_part(i as int, rows@),
        final(values)@ == old(values)@ + strict_values(i as int, rows@, coefficients@),
        diagonal == diagonal_of(i as int, rows@, coefficients@),
{
    let ghost start = row_index@;
    let ghost start_values = values@;
    let mut found = T::zero();
    let mut p: usize = 0;
    while p < rows.len()
        invariant
            p <= rows@.len(),
            rows@.len() == coefficients@.len(),
            strictly_increasing(rows@),
            forall|q: int| 0 <= q < rows@.len() ==> i <= #[trigger] rows@[q],
            row_index@ == start + strict_part(i as int, rows@.subrange(0, p as int)),
            values@ == start_values + strict_values(
                i as int,
                rows@.subrange(0, p as int),
                coefficients@.subrange(0, p as int),
            ),
            found == diagonal_of(i as int, rows@.subrange(0, p as int), coefficients@.subrange(0, p as int)),
        decreases rows@.len() - p,
    {
        let index = rows[p];
        let value = coefficients[p];
        let ghost before = rows@.subrange(0, p as int);
        let ghost upto = rows@.subrange(0, p + 1);
        let ghost cbefore = coefficients@.subrange(0, p as int);
        let ghost cupto = coefficients@.subrange(0, p + 1);
        assert(upto =~= before.push(index));
        assert(cupto =~= cbefore.push(value));
        if index > i {
            row_index.push(index);
            values.push(value);
            proof {
                if p == 0 {
                    assert(strict_part(i as int, upto) =~= upto);
                    assert(strict_part(i as int, before) =~= seq![]);
                    assert(strict_values(i as int, upto, cupto) =~= cupto);
                    assert(strict_values(i as int, before, cbefore) =~= seq![]);
                } else {
                    assert(upto[0] == before[0]);
                    if before[0] == i {
                        assert(upto.drop_first() =~= before.drop_first().push(index));
                        assert(cupto.drop_first() =~= cbefore.drop_first().push(value));
                        assert(cupto[0] == cbefore[0]);
                    }
                }
                assert(row_index@ =~= start + strict_part(i as int, upto));
                assert(values@ =~= start_values + strict_values(i as int, upto, cupto));
            }
        } else {
            found = value;
            proof {
                if p > 0 {
                    assert(rows@[0] < rows@[p as int]);
                }
                assert(strict_part(i as int, upto) =~= seq![]);
                assert(strict_part(i as int, before) =~= seq![]);
                assert(strict_values(i as int, upto, cupto) =~= seq![]);
                assert(strict_values(i as int, before, cbefore) =~= seq![]);
            }
        }
        p = p + 1;
    }
    assert(rows@.subrange(0, p as int) =~= rows@);
    assert(coefficients@.subrange(0, p as int) =~= coefficients@);
    found
}

impl<T: Scalar> Preconditioner<T> {
    /// Computes the modified incomplete Cholesky factor of `matrix`, with no
    /// fill beyond the pattern of its strict lower triangle.
    #[verifier::rlimit(60)]
    pub fn new(matrix: &SparseSymmetricMatrix<T>) -> (r: Preconditioner<T>)
        requires
            matrix.well_formed(),
        ensures
            r.well_formed(),
            r.has_pattern_of(*matrix),
            forall|k: int| 0 <= k < r.length ==> #[trigger] r.column_pointers@[k]
                <= r.column_pointers@[k + 1],
            r.column_pointers@[r.length as int] == r.values@.len(),
            forall|k: int, a: int, b: int|
                #![trigger r.column_pointers@[k], r.row_index@[a], r.row_index@[b]]
                0 <= k < r.length && r.column_pointers@[k] <= a < b < r.column_pointers@[k + 1]
                    ==> r.row_index@[a] < r.row_index@[b],
            r.values@ == factorization(*matrix).0,
            r.inverse_diagonals@ == factorization(*matrix).1,
    {
        let ghost m = *matrix;
        let n = matrix.length + 1;
        let (mut values, row_index, column_pointers, diagonals) = gather_lower(matrix);
        let ghost gathered = values@;
        let diagonal = Vector(diagonals);
        let mut inverse_diagonals = diagonal.copied().0;
        let diagonals = diagonal.0;
        proof {
            lemma_strict_layout(m, row_index@, column_pointers@);
        }
        let length = column_pointers.len() - 1;

        proof {
            assert forall|k: int, a: int, b: int|
                #![trigger column_pointers@[k], row_index@[a], row_index@[b]]
                0 <= k < n && column_pointers@[k] <= a < b < column_pointers@[k + 1]
                    implies row_index@[a] < row_index@[b] by {
                lemma_strict_increasing(m, row_index@, column_pointers@, k, a, b);
            }
        }
        // the full pattern of each row, below the diagonal as well as above
        let full = SparseRowMatrix::new(matrix);
        assert(column_pointers@ =~= strict_pointers(m));
        factor(matrix, &full, &mut values, &row_index, &column_pointers, &diagonals, &mut inverse_diagonals);

        Preconditioner { length, values, row_index, column_pointers, inverse_diagonals }
    }
}

/// The strictly-lower triangle of `matrix` in column-compressed form, and its
/// diagonal.
fn gather_lower<T: Scalar>(matrix: &SparseSymmetricMatrix<T>) -> (r: (Vec<T>, Vec<usize>, Vec<usize>, Vec<T>))
    requires
        matrix.well_formed(),
    ensures
        r.0@ == flat_strict_values(*matrix, matrix.dim() as int),
        r.1@ == flat_strict(*matrix, matrix.dim() as int),
        r.2@.len() == matrix.dim() + 1,
        forall|x: int| 0 <= x <= matrix.dim() ==> #[trigger] r.2@[x] == flat_strict(*matrix, x).len(),
        r.3@ == matrix_diagonals(*matrix),
        r.0@.len() == r.1@.len(),
{
    let ghost m = *matrix;
    let n = matrix.length + 1;
    let mut values: Vec<T> = Vec::new();
    let mut row_index: Vec<usize> = Vec::new();
    let mut column_pointers: Vec<usize> = Vec::new();
    let mut diagonals: Vec<T> = Vec::new();
    let mut i: usize = 0;
    while i < n
        invariant
            m == *matrix,
            m.well_formed(),
            n == m.dim(),
            i <= n,
            column_pointers@.len() == i,
            forall|x: int| 0 <= x < i ==> #[trigger] column_pointers@[x] == flat_strict(m, x).len(),
            row_index@ == flat_strict(m, i as int),
            values@ == flat_strict_values(m, i as int),
            values@.len() == row_index@.len(),
            diagonals@.len() == i,
            forall|x: int| 0 <= x < i ==> #[trigger] diagonals@[x] == matrix_diagonal(m, x),
        decreases n - i,
    {
        column_pointers.push(row_index.len());
        assert(m.column_values(i as int).len() == m.column(i as int).len());
        assert(strictly_increasing(m.column(i as int)));
        proof {
            lemma_flat_strict_lengths(m, i as int);
        }
        let d = split_column(i, &matrix.indices[i], &matrix.values[i], &mut row_index, &mut values);
        diagonals.push(d);
        i = i + 1;
    }
    column_pointers.push(row_index.len());
    assert(diagonals@ =~= matrix_diagonals(m));
    proof {
        lemma_flat_strict_lengths(m, n as int);
    }
    (values, row_index, column_pointers, diagonals)
}

proof fn lemma_flat_strict_lengths<T: Copy>(m: SparseSymmetricMatrix<T>, k: int)
    requires
        m.well_formed(),
        k <= m.dim(),
    ensures
        flat_strict_values(m, k).len() == flat_strict(m, k).len(),
    decreases k,
{
    if k > 0 {
        lemma_flat_strict_lengths(m, k - 1);
        assert(m.column_values(k - 1).len() == m.column(k - 1).len());
    }
}

/// The diagonal of `m`, zero where none is stored.
pub open spec fn matrix_diagonals<T: Scalar>(m: SparseSymmetricMatrix<T>) -> Seq<T> {
    Seq::new(m.dim(), |i: int| matrix_diagonal(m, i))
}

/// The column pointers of the strictly-lower triangle of `m`.
pub open spec fn strict_pointers<T: Copy>(m: SparseSymmetricMatrix<T>) -> Seq<usize> {
    Seq::new(m.dim() + 1, |x: int| flat_strict(m, x).len() as usize)
}

/// Walks the pattern `row` from position `b` looking for `cur`: smaller
/// entries are passed; at `cur` the walk stops; a larger entry first means
/// `cur` would be fill, and `value` joins `missing`.
pub open spec fn probe<T: Scalar>(row: Seq<usize>, cur: usize, value: T, b: int, missing: T) -> (int, T)
    decreases row.len() - b,
{
    if b >= row.len() {
        (b, missing)
    } else if row[b] < cur {
        probe(row, cur, value, b + 1, missing)
    } else if row[b] == cur {
        (b, missing)
    } else {
        (b, missing.plus_spec(value))
    }
}

/// Probes, in turn, each position `a ..` of the eliminated column whose row
/// lies above `j`, against the pattern `row` of row `j`; the cursor into
/// `row` carries over from one probe to the next.
pub open spec fn scan_above<T: Scalar>(
    ri: Seq<usize>,
    vals: Seq<T>,
    row: Seq<usize>,
    j: int,
    col_t: int,
    a: int,
    b: int,
    missing: T,
) -> (int, T)
    decreases col_t - a,
{
    if a < col_t && ri[a] < j {
        let next = probe(row, ri[a], vals[a], b, missing);
        scan_above(ri, vals, row, j, col_t, a + 1, next.0, next.1)
    } else {
        (a, missing)
    }
}

/// Merges the rows `a .. col_t` of the eliminated column with the factor's
/// column `j` at `b .. end`: a shared row is reduced by `multiplier` times
/// the eliminated coefficient; a row that column `j` lacks joins `missing`.
pub open spec fn merge<T: Scalar>(
    ri: Seq<usize>,
    vals: Seq<T>,
    col_t: int,
    end: int,
    multiplier: T,
    a: int,
    b: int,
    missing: T,
) -> (Seq<T>, int, T)
    decreases (col_t - a) + (end - b),
{
    if a < col_t && b < end {
        let cur = ri[a];
        if ri[b] < cur {
            merge(ri, vals, col_t, end, multiplier, a, b + 1, missing)
        } else if ri[b] == cur {
            merge(
                ri,
                vals.update(b, vals[b].minus_spec(multiplier.times_spec(vals[a]))),
                col_t,
                end,
                multiplier,
                a + 1,
                b + 1,
                missing,
            )
        } else {
            merge(ri, vals, col_t, end, multiplier, a + 1, b, missing.plus_spec(vals[a]))
        }
    } else {
        (vals, a, missing)
    }
}

/// Adds the coefficients at `a .. col_t` to `missing`.
pub open spec fn gather<T: Scalar>(vals: Seq<T>, col_t: int, a: int, missing: T) -> T
    decreases col_t - a,
{
    if a < col_t {
        gather(vals, col_t, a + 1, missing.plus_spec(vals[a]))
    } else {
        missing
    }
}

/// The pattern of row `j` is read from the full symmetric matrix: the
/// stored column `j` lists only the rows at or below `j`, so the rows of the
/// eliminated column above `j` are checked against the positions `(j, r)`
/// with `r < j`, which the lower triangle keeps in column `r`.
///
/// The update that position `p` of the column at `col_s .. col_t` makes:
/// with `j` its row and `m_jk` its coefficient, the shared entries of
/// column `j` and its diagonal are reduced, and `tau * m_jk * missing` is
/// taken off that diagonal.
pub open spec fn eliminate_spec<T: Scalar>(
    m: SparseSymmetricMatrix<T>,
    ri: Seq<usize>,
    cp: Seq<usize>,
    vals: Seq<T>,
    inv: Seq<T>,
    col_s: int,
    col_t: int,
    p: int,
) -> (Seq<T>, Seq<T>) {
    let j = ri[p] as int;
    let multiplier = vals[p];
    let first = scan_above(ri, vals, row_columns(m, j), j, col_t, col_s, 0, T::zero_spec());
    let a1 = first.0;
    let inv1 = if a1 < col_t && ri[a1] == j {
        inv.update(j, inv[j].minus_spec(multiplier.times_spec(vals[a1])))
    } else {
        inv
    };
    let a2 = if a1 < col_t { a1 + 1 } else { a1 };
    let second = merge(ri, vals, col_t, cp[j + 1] as int, multiplier, a2, cp[j] as int, first.1);
    let missing = gather(second.0, col_t, second.1, second.2);
    let tau = T::ratio_spec(MODIFIED_PARAMETER_NUMERATOR, MODIFIED_PARAMETER_DENOMINATOR);
    (second.0, inv1.update(j, inv1[j].minus_spec(tau.times_spec(multiplier).times_spec(missing))))
}

/// `vals` with positions `col_s .. p` multiplied by `f`.
pub open spec fn scale_upto<T: Scalar>(vals: Seq<T>, f: T, col_s: int, p: int) -> Seq<T>
    decreases p - col_s,
{
    if p <= col_s {
        vals
    } else {
        let prev = scale_upto(vals, f, col_s, p - 1);
        prev.update(p - 1, prev[p - 1].times_spec(f))
    }
}

/// The updates of positions `col_s .. p` of the eliminated column, in order.
pub open spec fn eliminate_upto<T: Scalar>(
    m: SparseSymmetricMatrix<T>,
    ri: Seq<usize>,
    cp: Seq<usize>,
    vals: Seq<T>,
    inv: Seq<T>,
    col_s: int,
    col_t: int,
    p: int,
) -> (Seq<T>, Seq<T>)
    decreases p - col_s,
{
    if p <= col_s {
        (vals, inv)
    } else {
        let prev = eliminate_upto(m, ri, cp, vals, inv, col_s, col_t, p - 1);
        eliminate_spec(m, ri, cp, prev.0, prev.1, col_s, col_t, p - 1)
    }
}

/// The pivot of column `k`: the running diagonal, or the matrix diagonal
/// where the running one has eroded below a quarter of it.
pub open spec fn pivot_spec<T: Scalar>(diagonal: T, running: T) -> T {
    let ratio = T::ratio_spec(MIN_DIAGONAL_RATIO_NUMERATOR, MIN_DIAGONAL_RATIO_DENOMINATOR);
    if running.less_than_spec(ratio.times_spec(diagonal)) {
        diagonal
    } else {
        running
    }
}

/// Elimination of column `k`: skipped where the matrix diagonal is zero;
/// otherwise the inverse diagonal becomes `1 / sqrt(pivot)`, the column is
/// scaled by it, and each of its positions updates the columns to the right.
pub open spec fn column_step<T: Scalar>(
    m: SparseSymmetricMatrix<T>,
    ri: Seq<usize>,
    cp: Seq<usize>,
    diags: Seq<T>,
    vals: Seq<T>,
    inv: Seq<T>,
    k: int,
) -> (Seq<T>, Seq<T>) {
    if diags[k].is_zero_spec() {
        (vals, inv)
    } else {
        let d = T::ratio_spec(1, 1).over_spec(pivot_spec(diags[k], inv[k]).square_root_spec());
        let inv1 = inv.update(k, d);
        let vals1 = scale_upto(vals, d, cp[k] as int, cp[k + 1] as int);
        eliminate_upto(m, ri, cp, vals1, inv1, cp[k] as int, cp[k + 1] as int, cp[k + 1] as int)
    }
}

/// Coefficients and inverse diagonals after eliminating columns `0 .. k`.
pub open spec fn factor_upto<T: Scalar>(
    m: SparseSymmetricMatrix<T>,
    ri: Seq<usize>,
    cp: Seq<usize>,
    diags: Seq<T>,
    vals: Seq<T>,
    k: int,
) -> (Seq<T>, Seq<T>)
    decreases k,
{
    if k <= 0 {
        (vals, diags)
    } else {
        let prev = factor_upto(m, ri, cp, diags, vals, k - 1);
        column_step(m, ri, cp, diags, prev.0, prev.1, k - 1)
    }
}

/// The coefficients and inverse diagonals of the modified incomplete
/// Cholesky factor of `m`.
pub open spec fn factorization<T: Scalar>(m: SparseSymmetricMatrix<T>) -> (Seq<T>, Seq<T>) {
    factor_upto(
        m,
        flat_strict(m, m.dim() as int),
        strict_pointers(m),
        matrix_diagonals(m),
        flat_strict_values(m, m.dim() as int),
        m.dim() as int,
    )
}

/// Forward substitution within column `i`: `y` after the updates from the
/// stored positions `column_pointers[i] .. j`, each subtracting its
/// coefficient times `y[i]` from the element at its row.
pub open spec fn forward_column<T: Scalar>(p: Preconditioner<T>, y: Seq<T>, i: int, j: int) -> Seq<T>
    decreases j - p.column_pointers@[i],
{
    if j <= p.column_pointers@[i] {
        y
    } else {
        let prev = forward_column(p, y, i, j - 1);
        let row = p.row_index@[j - 1] as int;
        prev.update(row, prev[row].minus_spec(p.values@[j - 1].times_spec(prev[i])))
    }
}

/// Forward substitution `L y = v` through columns `0 .. i`: each column
/// first scales its own element by its inverse diagonal, then updates the
/// elements below it.
pub open spec fn forward_upto<T: Scalar>(p: Preconditioner<T>, v: Seq<T>, i: int) -> Seq<T>
    decreases i,
{
    if i <= 0 {
        v
    } else {
        let y = forward_upto(p, v, i - 1);
        let scaled = y.update(i - 1, y[i - 1].times_spec(p.inverse_diagonals@[i - 1]));
        forward_column(p, scaled, i - 1, p.column_pointers@[i] as int)
    }
}

/// The solution of `L y = v`.
pub open spec fn forward<T: Scalar>(p: Preconditioner<T>, v: Seq<T>) -> Seq<T> {
    forward_upto(p, v, p.length as int)
}

/// Backward substitution within column `i`: `z[i]` after subtracting, for
/// the stored positions `column_pointers[i] .. j`, each coefficient times
/// the element at its row.
pub open spec fn backward_column<T: Scalar>(p: Preconditioner<T>, z: Seq<T>, i: int, j: int) -> Seq<T>
    decreases j - p.column_pointers@[i],
{
    if j <= p.column_pointers@[i] {
        z
    } else {
        let prev = backward_column(p, z, i, j - 1);
        let row = p.row_index@[j - 1] as int;
        prev.update(i, prev[i].minus_spec(p.values@[j - 1].times_spec(prev[row])))
    }
}

/// Backward substitution `L^T z = y` through columns `length - 2` down to
/// `i`: each column gathers from the elements below it, then scales by its
/// inverse diagonal. The last element is left as it is.
pub open spec fn backward_from<T: Scalar>(p: Preconditioner<T>, y: Seq<T>, i: int) -> Seq<T>
    decreases p.length - 1 - i,
{
    if i >= p.length - 1 {
        y
    } else {
        let z = backward_from(p, y, i + 1);
        let w = backward_column(p, z, i, p.column_pointers@[i + 1] as int);
        w.update(i, w[i].times_spec(p.inverse_diagonals@[i]))
    }
}

/// The solution of `L^T z = y`.
pub open spec fn backward<T: Scalar>(p: Preconditioner<T>, y: Seq<T>) -> Seq<T> {
    backward_from(p, y, 0)
}

impl<T: Scalar> Preconditioner<T> {
    /// Applies the preconditioner: solves `L y = v`, then `L^T z = y`.
    pub fn apply(&self, v: &Vector<T>) -> (r: Vector<T>)
        requires
            self.well_formed(),
            v.len_spec() == self.length,
        ensures
            r.len_spec() == self.length,
            r.0@ == backward(*self, forward(*self, v.0@)),
    {
        let z = self.solve_lower(v);
        self.solve_lower_transpose(&z)
    }

    /// Forward substitution with the factor, column by column.
    fn solve_lower(&self, v: &Vector<T>) -> (r: Vector<T>)
        requires
            self.well_formed(),
            v.len_spec() == self.length,
        ensures
            r.len_spec() == self.length,
            r.0@ == forward(*self, v.0@),
    {
        let mut result = v.copied().0;
        let mut i: usize = 0;
        while i < self.length
            invariant
                self.well_formed(),
                result@.len() == self.length,
                i <= self.length,
                result@ == forward_upto(*self, v.0@, i as int),
            decreases self.length - i,
        {
            let scaled = result[i].times(self.inverse_diagonals[i]);
            result.set(i, scaled);
            let ghost start = result@;
            let x = self.column_pointers[i];
            let y = self.column_pointers[i + 1];
            assert(self.column_pointers@[i as int] <= self.column_pointers@[i + 1]);
            assert(self.column_pointers@[i + 1] <= self.row_index@.len());
            let mut j: usize = x;
            while j < y
                invariant
                    self.well_formed(),
                    result@.len() == self.length,
                    i < self.length,
                    x == self.column_pointers@[i as int],
                    x <= j <= y,
                    y <= self.row_index@.len(),
                    result@ == forward_column(*self, start, i as int, j as int),
                decreases y - j,
            {
                let index = self.row_index[j];
                let updated = result[index].minus(self.values[j].times(result[i]));
                result.set(index, updated);
                j = j + 1;
            }
            i = i + 1;
        }
        Vector(result)
    }

    /// Backward substitution with the transposed factor, from the second
    /// last column down to the first.
    fn solve_lower_transpose(&self, v: &Vector<T>) -> (r: Vector<T>)
        requires
            self.well_formed(),
            v.len_spec() == self.length,
        ensures
            r.len_spec() == self.length,
            r.0@ == backward(*self, v.0@),
    {
        let mut result = v.copied().0;
        let n = self.length - 1;
        let mut i: usize = n;
        while i > 0
            invariant
                self.well_formed(),
                result@.len() == self.length,
                i <= n,
                n == self.length - 1,
                result@ == backward_from(*self, v.0@, i as int),
            decreases i,
        {
            i = i - 1;
            let ghost start = result@;
            let x = self.column_pointers[i];
            let y = self.column_pointers[i + 1];
            assert(self.column_pointers@[i as int] <= self.column_pointers@[i + 1]);
            assert(self.column_pointers@[i + 1] <= self.row_index@.len());
            let mut j: usize = x;
            while j < y
                invariant
                    self.well_formed(),
                    result@.len() == self.length,
                    i < self.length,
                    x == self.column_pointers@[i as int],
                    x <= j <= y,
                    y <= self.row_index@.len(),
                    result@ == backward_column(*self, start, i as int, j as int),
                decreases y - j,
            {
                let index = self.row_index[j];
                let updated = result[i].minus(self.values[j].times(result[index]));
                result.set(i, updated);
                j = j + 1;
            }
            let scaled = result[i].times(self.inverse_diagonals[i]);
            result.set(i, scaled);
        }
        Vector(result)
    }
}

/// Eliminates column after column, updating the columns to the right and
/// lumping dropped fill onto their diagonals.
fn factor<T: Scalar>(
    matrix: &SparseSymmetricMatrix<T>,
    full: &SparseRowMatrix<T>,
    values: &mut Vec<T>,
    row_index: &Vec<usize>,
    column_pointers: &Vec<usize>,
    diagonals: &Vec<T>,
    inverse_diagonals: &mut Vec<T>,
)
    requires
        matrix.well_formed(),
        full.well_formed(),
        full.represents(*matrix),
        lower_layout(matrix.dim(), row_index@, column_pointers@),
        old(values)@.len() == row_index@.len(),
        diagonals@.len() == matrix.dim(),
        old(inverse_diagonals)@ == diagonals@,
    ensures
        final(values)@.len() == row_index@.len(),
        final(inverse_diagonals)@.len() == matrix.dim(),
        (final(values)@, final(inverse_diagonals)@) == factor_upto(
            *matrix,
            row_index@,
            column_pointers@,
            diagonals@,
            old(values)@,
            matrix.dim() as int,
        ),
{
    let ghost m = *matrix;
    let ghost start = values@;
    let n = matrix.length + 1;
    let modified = T::ratio(MODIFIED_PARAMETER_NUMERATOR, MODIFIED_PARAMETER_DENOMINATOR);
    let min_ratio = T::ratio(MIN_DIAGONAL_RATIO_NUMERATOR, MIN_DIAGONAL_RATIO_DENOMINATOR);
    let one = T::ratio(1, 1);
    let mut k: usize = 0;
    while k < n
        invariant
            m == *matrix,
            matrix.well_formed(),
            full.well_formed(),
            full.represents(m),
            n == matrix.dim(),
            lower_layout(n as nat, row_index@, column_pointers@),
            values@.len() == row_index@.len(),
            diagonals@.len() == n,
            inverse_diagonals@.len() == n,
            k <= n,
            modified == T::ratio_spec(MODIFIED_PARAMETER_NUMERATOR, MODIFIED_PARAMETER_DENOMINATOR),
            min_ratio == T::ratio_spec(MIN_DIAGONAL_RATIO_NUMERATOR, MIN_DIAGONAL_RATIO_DENOMINATOR),
            one == T::ratio_spec(1, 1),
            (values@, inverse_diagonals@) == factor_upto(
                m,
                row_index@,
                column_pointers@,
                diagonals@,
                start,
                k as int,
            ),
        decreases n - k,
    {
        // a zero diagonal marks a row and column that take no part
        if !diagonals[k].is_zero() {
            let gauss_seidel = inverse_diagonals[k].less_than(min_ratio.times(diagonals[k]));
            let pivot = if gauss_seidel {
                diagonals[k]
            } else {
                inverse_diagonals[k]
            };
            inverse_diagonals.set(k, one.over(pivot.square_root()));

            let col_s = column_pointers[k];
            let col_t = column_pointers[k + 1];
            assert(column_pointers@[k as int] <= column_pointers@[k + 1]);
            assert(column_pointers@[k + 1] <= row_index@.len());
            let ghost unscaled = values@;
            let mut p: usize = col_s;
            while p < col_t
                invariant
                    col_s <= p <= col_t,
                    col_t <= values@.len(),
                    k < inverse_diagonals@.len(),
                    values@.len() == row_index@.len(),
                    values@ == scale_upto(unscaled, inverse_diagonals@[k as int], col_s as int, p as int),
                decreases col_t - p,
            {
                let scaled = values[p].times(inverse_diagonals[k]);
                values.set(p, scaled);
                p = p + 1;
            }
            let ghost scaled_values = values@;
            let ghost pivoted = inverse_diagonals@;
            let mut p: usize = col_s;
            while p < col_t
                invariant
                    m == *matrix,
                    matrix.well_formed(),
                    full.well_formed(),
                    full.represents(m),
                    n == matrix.dim(),
                    lower_layout(n as nat, row_index@, column_pointers@),
                    values@.len() == row_index@.len(),
                    inverse_diagonals@.len() == n,
                    col_s <= p <= col_t,
                    col_t <= row_index@.len(),
                    modified == T::ratio_spec(MODIFIED_PARAMETER_NUMERATOR, MODIFIED_PARAMETER_DENOMINATOR),
                    (values@, inverse_diagonals@) == eliminate_upto(
                        m,
                        row_index@,
                        column_pointers@,
                        scaled_values,
                        pivoted,
                        col_s as int,
                        col_t as int,
                        p as int,
                    ),
                decreases col_t - p,
            {
                eliminate(matrix, full, values, row_index, column_pointers, inverse_diagonals, col_s, col_t, p, modified);
                p = p + 1;
            }
        }
        k = k + 1;
    }
}

/// Applies the entry at position `p` of the column spanning `col_s .. col_t`,
/// with row `j`, to column `j`: updates the coefficients that column `j`
/// shares with the eliminated column and its diagonal, and lumps what would
/// be fill onto that diagonal.
fn eliminate<T: Scalar>(
    matrix: &SparseSymmetricMatrix<T>,
    full: &SparseRowMatrix<T>,
    values: &mut Vec<T>,
    row_index: &Vec<usize>,
    column_pointers: &Vec<usize>,
    inverse_diagonals: &mut Vec<T>,
    col_s: usize,
    col_t: usize,
    p: usize,
    modified: T,
)
    requires
        matrix.well_formed(),
        full.well_formed(),
        full.represents(*matrix),
        lower_layout(matrix.dim(), row_index@, column_pointers@),
        old(values)@.len() == row_index@.len(),
        old(inverse_diagonals)@.len() == matrix.dim(),
        col_s <= p < col_t,
        col_t <= row_index@.len(),
        modified == T::ratio_spec(MODIFIED_PARAMETER_NUMERATOR, MODIFIED_PARAMETER_DENOMINATOR),
    ensures
        final(values)@.len() == row_index@.len(),
        final(inverse_diagonals)@.len() == matrix.dim(),
        (final(values)@, final(inverse_diagonals)@) == eliminate_spec(
            *matrix,
            row_index@,
            column_pointers@,
            old(values)@,
            old(inverse_diagonals)@,
            col_s as int,
            col_t as int,
            p as int,
        ),
{
    let ghost vals = values@;
    let ghost ri = row_index@;
    let j = row_index[p];
    let multiplier = values[p];
    let mut missing = T::zero();
    let mut a: usize = col_s;
    // walk the rows of column k above j against the pattern of row j: what
    // row j lacks would be fill
    let mut b: usize = full.row_pointers[j];
    let row_end = full.row_pointers[j + 1];
    assert(full.start(j as int) <= full.start(j + 1));
    assert(full.start(j + 1) <= full.values@.len());
    let ghost sj = full.start(j as int);
    let ghost row = full.row(j as int);
    assert(row == row_columns(*matrix, j as int));
    let ghost first = scan_above(ri, vals, row, j as int, col_t as int, col_s as int, 0, T::zero_spec());
    while a < col_t && row_index[a] < j
        invariant
            col_s <= a <= col_t,
            col_t <= row_index@.len(),
            values@ == vals,
            row_index@ == ri,
            values@.len() == row_index@.len(),
            sj <= b <= row_end,
            row_end <= full.column_index@.len(),
            0 <= sj <= row_end,
            row.len() == row_end - sj,
            row == full.column_index@.subrange(sj, row_end as int),
            scan_above(ri, vals, row, j as int, col_t as int, a as int, b - sj, missing) == first,
        decreases col_t - a,
    {
        let current_row = row_index[a];
        let value = values[a];
        let ghost target = probe(row, current_row, value, b - sj, missing);
        let mut scanning = true;
        while scanning && b < row_end
            invariant
                sj <= b <= row_end,
                0 <= sj,
                row_end <= full.column_index@.len(),
                row.len() == row_end - sj,
                row == full.column_index@.subrange(sj, row_end as int),
                scanning ==> probe(row, current_row, value, b - sj, missing) == target,
                !scanning ==> (b - sj, missing) == target,
            decreases row_end - b + (if scanning { 1int } else { 0 }),
        {
            let index = full.column_index[b];
            assert(row[b - sj] == index);
            if index < current_row {
                b = b + 1;
            } else if index == current_row {
                scanning = false;
            } else {
                missing = missing.plus(value);
                scanning = false;
            }
        }
        assert((b - sj, missing) == target);
        a = a + 1;
    }

    if a < col_t && row_index[a] == j {
        let updated = inverse_diagonals[j].minus(multiplier.times(values[a]));
        inverse_diagonals.set(j, updated);
    }

    if a < col_t {
        a = a + 1;
    }
    let mut b: usize = column_pointers[j];
    let end = column_pointers[j + 1];
    assert(column_pointers@[j as int] <= column_pointers@[j + 1]);
    assert(column_pointers@[j + 1] <= row_index@.len());
    let ghost second = merge(ri, vals, col_t as int, end as int, multiplier, a as int, b as int, missing);
    while a < col_t && b < end
        invariant
            a <= col_t,
            col_t <= row_index@.len(),
            b <= end,
            end <= row_index@.len(),
            row_index@ == ri,
            values@.len() == row_index@.len(),
            merge(ri, values@, col_t as int, end as int, multiplier, a as int, b as int, missing) == second,
        decreases (col_t - a) + (end - b),
    {
        let current_row = row_index[a];
        if row_index[b] < current_row {
            b = b + 1;
        } else if row_index[b] == current_row {
            let updated = values[b].minus(multiplier.times(values[a]));
            values.set(b, updated);
            a = a + 1;
            b = b + 1;
        } else {
            missing = missing.plus(values[a]);
            a = a + 1;
        }
    }

    let ghost third = gather(values@, col_t as int, a as int, missing);
    while a < col_t
        invariant
            a <= col_t,
            col_t <= values@.len(),
            gather(values@, col_t as int, a as int, missing) == third,
        decreases col_t - a,
    {
        missing = missing.plus(values[a]);
        a = a + 1;
    }

    let updated = inverse_diagonals[j].minus(modified.times(multiplier).times(missing));
    inverse_diagonals.set(j, updated);
}

/// The columns gathered from `m` form a strictly-lower layout.
proof fn lemma_strict_layout<T: Copy>(m: SparseSymmetricMatrix<T>, row_index: Seq<usize>, column_pointers: Seq<usize>)
    requires
        m.well_formed(),
        column_pointers.len() == m.dim() + 1,
        forall|x: int| 0 <= x <= m.dim() ==> #[trigger] column_pointers[x] == flat_strict(m, x).len(),
        row_index == flat_strict(m, m.dim() as int),
    ensures
        lower_layout(m.dim(), row_index, column_pointers),
{
    let n = m.dim() as int;
    assert forall|k: int| 0 <= k < n implies #[trigger] column_pointers[k]
        <= column_pointers[k + 1] by {
        lemma_flat_strict_prefix(m, k, k + 1);
    }
    assert forall|k: int| 0 <= k <= n implies #[trigger] column_pointers[k] <= row_index.len() by {
        lemma_flat_strict_prefix(m, k, n);
    }
    assert forall|k: int, p: int|
        0 <= k < n && #[trigger] column_pointers[k] <= p < column_pointers[k + 1] implies k
        < #[trigger] row_index[p] by {
        lemma_strict_entry(m, row_index, column_pointers, k, p);
    }
    assert forall|p: int| 0 <= p < row_index.len() implies #[trigger] row_index[p] < n by {
        lemma_row_in_some_column(column_pointers, n, p);
        let k = choose|k: int| 0 <= k < n && #[trigger] column_pointers[k] <= p < column_pointers[k + 1];
        lemma_strict_entry(m, row_index, column_pointers, k, p);
    }
}

/// A position of column `k` in the gathered layout holds a row below `k`.
proof fn lemma_strict_entry<T: Copy>(
    m: SparseSymmetricMatrix<T>,
    row_index: Seq<usize>,
    column_pointers: Seq<usize>,
    k: int,
    p: int,
)
    requires
        m.well_formed(),
        column_pointers.len() == m.dim() + 1,
        forall|x: int| 0 <= x <= m.dim() ==> #[trigger] column_pointers[x] == flat_strict(m, x).len(),
        row_index == flat_strict(m, m.dim() as int),
        0 <= k < m.dim(),
        column_pointers[k] <= p < column_pointers[k + 1],
    ensures
        k < row_index[p] <= m.length,
{
    let n = m.dim() as int;
    lemma_flat_strict_slice(m, k, n);
    lemma_flat_strict_prefix(m, k + 1, n);
    lemma_flat_strict_prefix(m, k, k + 1);
    assert(m.column_values(k).len() == m.column(k).len());
    let lo = column_pointers[k] as int;
    let hi = column_pointers[k + 1] as int;
    assert(row_index.subrange(lo, hi)[p - lo] == row_index[p]);
    let col = m.column(k);
    assert(strictly_increasing(col));
    if col.len() > 0 && col[0] == k {
        assert(col[p - lo + 1] == row_index[p]);
        assert(col[0] < col[p - lo + 1]);
    } else {
        assert(col[p - lo] == row_index[p]);
        assert(k <= col[p - lo]);
    }
}

/// Within a column of the gathered layout the rows rise strictly.
proof fn lemma_strict_increasing<T: Copy>(
    m: SparseSymmetricMatrix<T>,
    row_index: Seq<usize>,
    column_pointers: Seq<usize>,
    k: int,
    a: int,
    b: int,
)
    requires
        m.well_formed(),
        column_pointers.len() == m.dim() + 1,
        forall|x: int| 0 <= x <= m.dim() ==> #[trigger] column_pointers[x] == flat_strict(m, x).len(),
        row_index == flat_strict(m, m.dim() as int),
        0 <= k < m.dim(),
        column_pointers[k] <= a < b < column_pointers[k + 1],
    ensures
        row_index[a] < row_index[b],
{
    let n = m.dim() as int;
    lemma_flat_strict_slice(m, k, n);
    lemma_flat_strict_prefix(m, k + 1, n);
    lemma_flat_strict_prefix(m, k, k + 1);
    let lo = column_pointers[k] as int;
    let hi = column_pointers[k + 1] as int;
    let slice = row_index.subrange(lo, hi);
    assert(slice[a - lo] == row_index[a]);
    assert(slice[b - lo] == row_index[b]);
    let col = m.column(k);
    assert(strictly_increasing(col));
    if col.len() > 0 && col[0] == k {
        assert(col[a - lo + 1] < col[b - lo + 1]);
    } else {
        assert(col[a - lo] < col[b - lo]);
    }
}

/// In a layout whose pointers rise from zero to past `p`, some column holds
/// position `p`.
proof fn lemma_row_in_some_column(column_pointers: Seq<usize>, n: int, p: int)
    requires
        0 <= n,
        column_pointers.len() == n + 1,
        column_pointers[0] == 0,
        0 <= p < column_pointers[n],
    ensures
        exists|k: int| 0 <= k < n && #[trigger] column_pointers[k] <= p < column_pointers[k + 1],
    decreases n,
{
    if column_pointers[n - 1] <= p {
        assert(column_pointers[n - 1] <= p < column_pointers[n]);
    } else {
        lemma_row_in_some_column(column_pointers.subrange(0, n), n - 1, p);
        let k = choose|k: int| 0 <= k < n - 1 && #[trigger] column_pointers.subrange(0, n)[k] <= p
            < column_pointers.subrange(0, n)[k + 1];
        assert(column_pointers[k] <= p < column_pointers[k + 1]);
    }
}

proof fn lemma_flat_strict_prefix<T: Copy>(m: SparseSymmetricMatrix<T>, x: int, y: int)
    requires
        0 <= x <= y,
    ensures
        flat_strict(m, x).len() <= flat_strict(m, y).len(),
        flat_strict(m, y).subrange(0, flat_strict(m, x).len() as int) == flat_strict(m, x),
    decreases y - x,
{
    if x < y {
        lemma_flat_strict_prefix(m, x, y - 1);
        assert(flat_strict(m, y).subrange(0, flat_strict(m, x).len() as int)
            =~= flat_strict(m, y - 1).subrange(0, flat_strict(m, x).len() as int));
    } else {
        assert(flat_strict(m, y).subrange(0, flat_strict(m, x).len() as int) =~= flat_strict(m, x));
    }
}

/// Column `k` occupies its own stretch of the flattened columns.
proof fn lemma_flat_strict_slice<T: Copy>(m: SparseSymmetricMatrix<T>, k: int, n: int)
    requires
        0 <= k < n,
    ensures
        flat_strict(m, n).subrange(flat_strict(m, k).len() as int, flat_strict(m, k + 1).len() as int)
            == strict_part(k, m.column(k)),
{
    lemma_flat_strict_prefix(m, k + 1, n);
    let lo = flat_strict(m, k).len() as int;
    let hi = flat_strict(m, k + 1).len() as int;
    assert(flat_strict(m, k + 1).subrange(lo, hi) =~= strict_part(k, m.column(k)));
    assert(flat_strict(m, n).subrange(lo, hi) =~= flat_strict(m, k + 1).subrange(lo, hi));
}

} // verus!
