use vstd::prelude::*;
use crate::scalar::Scalar;
use crate::sparse_symmetric_matrix::{SparseSymmetricMatrix, strictly_increasing};
use crate::vector::Vector;

verus! {

/// The columns `c < j` whose stored part holds row `j`, among the first `c`
/// columns, in increasing order: the upper-triangle half of row `j`.
pub open spec fn mirror_columns<T: Copy>(m: SparseSymmetricMatrix<T>, j: int, c: int) -> Seq<usize>
    decreases c,
{
    if c <= 0 {
        seq![]
    } else {
        let prev = mirror_columns(m, j, c - 1);
        if j > c - 1 && m.column(c - 1).contains(j as usize) {
            prev.push((c - 1) as usize)
        } else {
            prev
        }
    }
}

/// The coefficients that go with [`mirror_columns`].
pub open spec fn mirror_values<T: Copy>(m: SparseSymmetricMatrix<T>, j: int, c: int) -> Seq<T>
    decreases c,
{
    if c <= 0 {
        seq![]
    } else {
        let prev = mirror_values(m, j, c - 1);
        if j > c - 1 && m.column(c - 1).contains(j as usize) {
            prev.push(m.value_at(c - 1, j as usize))
        } else {
            prev
        }
    }
}

/// The column indices of row `r` of the full matrix that `m` stands for.
pub open spec fn row_columns<T: Copy>(m: SparseSymmetricMatrix<T>, r: int) -> Seq<usize> {
    mirror_columns(m, r, m.dim() as int) + m.column(r)
}

/// The coefficients of row `r` of the full matrix that `m` stands for.
pub open spec fn row_values<T: Copy>(m: SparseSymmetricMatrix<T>, r: int) -> Seq<T> {
    mirror_values(m, r, m.dim() as int) + m.column_values(r)
}

/// A full symmetric matrix in compressed-row form, used for products.
#[derive(Clone, Debug)]
pub struct SparseRowMatrix<T> {
    pub values: Vec<T>,
    pub column_index: Vec<usize>,
    pub row_pointers: Vec<usize>,
}

impl<T: Copy> SparseRowMatrix<T> {
    /// The number of rows.
    pub open spec fn rows(&self) -> nat {
        (self.row_pointers@.len() - 1) as nat
    }

    /// Row `r` occupies positions `start(r) .. start(r + 1)`.
    pub open spec fn start(&self, r: int) -> int {
        self.row_pointers@[r] as int
    }

    /// The column indices stored for row `r`.
    pub open spec fn row(&self, r: int) -> Seq<usize> {
        self.column_index@.subrange(self.start(r), self.start(r + 1))
    }

    /// The coefficients stored for row `r`.
    pub open spec fn row_coefficients(&self, r: int) -> Seq<T> {
        self.values@.subrange(self.start(r), self.start(r + 1))
    }

    pub open spec fn well_formed(&self) -> bool {
        &&& self.row_pointers@.len() >= 1
        &&& self.row_pointers@[0] == 0
        &&& self.row_pointers@.last() == self.values@.len()
        &&& self.column_index@.len() == self.values@.len()
        &&& forall|r: int| 0 <= r < self.rows() ==> #[trigger] self.start(r) <= self.start(r + 1)
        &&& forall|r: int| 0 <= r <= self.rows() ==> #[trigger] self.start(r) <= self.values@.len()
        &&& forall|q: int| 0 <= q < self.column_index@.len() ==> #[trigger] self.column_index@[q]
            < self.rows()
    }

    /// `self` holds, row by row with columns in increasing order, every
    /// coefficient of the full matrix that `m` stores one half of.
    pub open spec fn represents(&self, m: SparseSymmetricMatrix<T>) -> bool {
        &&& self.row_pointers@.len() == m.dim() + 1
        &&& forall|r: int| 0 <= r < m.dim() ==> #[trigger] self.row(r) == row_columns(m, r)
        &&& forall|r: int| 0 <= r < m.dim() ==> #[trigger] self.row_coefficients(r) == row_values(m, r)
    }

    /// Builds the compressed-row form of the full matrix from its stored
    /// lower triangle.
    pub fn new(matrix: &SparseSymmetricMatrix<T>) -> (r: SparseRowMatrix<T>)
        requires
            matrix.well_formed(),
        ensures
            r.well_formed(),
            r.represents(*matrix),
    {
        let n = matrix.length + 1;
        let ghost m = *matrix;
        // the upper-triangle half of each row, gathered column by column
        let mut upper_columns: Vec<Vec<usize>> = Vec::new();
        let mut upper_values: Vec<Vec<T>> = Vec::new();
        let mut i: usize = 0;
        while i < n
            invariant
                n == m.dim(),
                i <= n,
                upper_columns@.len() == i,
                upper_values@.len() == i,
                forall|r: int| 0 <= r < i ==> (#[trigger] upper_columns@[r])@ == mirror_columns(
                    m, r, 0),
                forall|r: int| 0 <= r < i ==> (#[trigger] upper_values@[r])@ == mirror_values(
                    m, r, 0),
            decreases n - i,
        {
            upper_columns.push(Vec::new());
            upper_values.push(Vec::new());
            i = i + 1;
        }
        let mut c: usize = 0;
        while c < n
            invariant
                n == m.dim(),
                m == *matrix,
                m.well_formed(),
                c <= n,
                upper_columns@.len() == n,
                upper_values@.len() == n,
                forall|r: int| 0 <= r < n ==> (#[trigger] upper_columns@[r])@ == mirror_columns(
                    m, r, c as int),
                forall|r: int| 0 <= r < n ==> (#[trigger] upper_values@[r])@ == mirror_values(
                    m, r, c as int),
            decreases n - c,
        {
            let len = matrix.indices[c].len();
            assert(m.column_values(c as int).len() == len);
            let mut p: usize = 0;
            while p < len
                invariant
                    n == m.dim(),
                    m == *matrix,
                    m.well_formed(),
                    c < n,
                    len == m.column(c as int).len(),
                    m.column_values(c as int).len() == len,
                    p <= len,
                    upper_columns@.len() == n,
                    upper_values@.len() == n,
                    forall|r: int| 0 <= r < n ==> (#[trigger] upper_columns@[r])@ == if r > c
                        && m.column(c as int).subrange(0, p as int).contains(r as usize) {
                        mirror_columns(m, r, c as int).push(c)
                    } else {
                        mirror_columns(m, r, c as int)
                    },
                    forall|r: int| 0 <= r < n ==> (#[trigger] upper_values@[r])@ == if r > c
                        && m.column(c as int).subrange(0, p as int).contains(r as usize) {
                        mirror_values(m, r, c as int).push(m.value_at(c as int, r as usize))
                    } else {
                        mirror_values(m, r, c as int)
                    },
                decreases len - p,
            {
                let j = matrix.indices[c][p];
                let v = matrix.values[c][p];
                let ghost col = m.column(c as int);
                proof {
                    assert(0 <= p < col.len() && col[p as int] == j);
                    let q = choose|q: int| 0 <= q < col.len() && col[q] == j;
                    assert(strictly_increasing(col));
                    assert(q == p);
                    assert(m.value_at(c as int, j) == v);
                    let before = col.subrange(0, p as int);
                    let upto = col.subrange(0, p + 1);
                    assert(!before.contains(j)) by {
                        if before.contains(j) {
                            let q2 = choose|q2: int| 0 <= q2 < p && #[trigger] before[q2] == j;
                            assert(col[q2] == j);
                        }
                    }
                    assert forall|r: usize| r != j implies (upto.contains(r) <==> before.contains(r))
                        by {
                        if upto.contains(r) {
                            let q2 = choose|q2: int| 0 <= q2 < p + 1 && #[trigger] upto[q2] == r;
                            assert(before[q2] == r);
                        }
                        if before.contains(r) {
                            let q2 = choose|q2: int| 0 <= q2 < p && #[trigger] before[q2] == r;
                            assert(upto[q2] == r);
                        }
                    }
                    assert(col.subrange(0, p + 1)[p as int] == j);
                }
                if j > c {
                    upper_columns[j].push(c);
                    upper_values[j].push(v);
                }
                p = p + 1;
            }
            assert(m.column(c as int).subrange(0, len as int) =~= m.column(c as int));
            c = c + 1;
        }

        let mut values: Vec<T> = Vec::new();
        let mut column_index: Vec<usize> = Vec::new();
        let mut row_pointers: Vec<usize> = Vec::new();
        row_pointers.push(0);
        let mut r: usize = 0;
        while r < n
            invariant
                n == m.dim(),
                m == *matrix,
                m.well_formed(),
                r <= n,
                upper_columns@.len() == n,
                upper_values@.len() == n,
                forall|x: int| 0 <= x < n ==> (#[trigger] upper_columns@[x])@ == mirror_columns(
                    m, x, n as int),
                forall|x: int| 0 <= x < n ==> (#[trigger] upper_values@[x])@ == mirror_values(
                    m, x, n as int),
                row_pointers@.len() == r + 1,
                forall|x: int| 0 <= x <= r ==> #[trigger] row_pointers@[x] == flat_columns(
                    m, x).len(),
                column_index@ == flat_columns(m, r as int),
                values@ == flat_values(m, r as int),
                forall|q: int| 0 <= q < column_index@.len() ==> #[trigger] column_index@[q] < n,
            decreases n - r,
        {
            proof {
                lemma_mirror_facts(m, r as int, n as int);
            }
            let ghost done_columns = column_index@;
            let ghost mlen = mirror_columns(m, r as int, n as int).len();
            append_row(&mut column_index, &mut values, &upper_columns[r], &upper_values[r]);
            assert(m.column_values(r as int).len() == m.column(r as int).len());
            append_row(&mut column_index, &mut values, &matrix.indices[r], &matrix.values[r]);
            proof {
                let whole = row_columns(m, r as int);
                assert(column_index@ =~= done_columns + whole);
                assert forall|y: int| 0 <= y < column_index@.len() implies #[trigger] column_index@[y] < n by {
                    if y < done_columns.len() {
                        assert(column_index@[y] == done_columns[y]);
                    } else {
                        let z = y - done_columns.len();
                        if z >= mlen {
                            assert(whole[z] == m.column(r as int)[z - mlen]);
                        } else {
                            assert(whole[z] == mirror_columns(m, r as int, n as int)[z]);
                        }
                    }
                }
                assert(column_index@ == flat_columns(m, r + 1));
                assert(values@ =~= flat_values(m, r + 1));
            }
            row_pointers.push(column_index.len());
            r = r + 1;
        }
        proof {
            lemma_flat_lengths(m, n as int);
            assert forall|x: int| 0 <= x < n implies #[trigger] row_pointers@[x] <= row_pointers@[x + 1]
                by {
                lemma_flat_prefix(m, x, x + 1);
            }
            assert forall|x: int| 0 <= x <= n implies #[trigger] row_pointers@[x] <= values@.len() by {
                lemma_flat_prefix(m, x, n as int);
            }
        }
        let result = SparseRowMatrix { values, column_index, row_pointers };
        proof {
            assert forall|x: int| 0 <= x < n implies #[trigger] result.row(x) == row_columns(m, x) by {
                lemma_row_slice(m, x, n as int);
            }
            assert forall|x: int| 0 <= x < n implies #[trigger] result.row_coefficients(x) == row_values(
                m, x) by {
                lemma_row_slice(m, x, n as int);
            }
        }
        result
    }
}

/// The sum, in storage order from position `from` up to `j`, of each
/// coefficient times the element of `x` at its column, starting from zero.
pub open spec fn row_sum_upto<T: Scalar>(s: SparseRowMatrix<T>, x: Seq<T>, from: int, j: int) -> T
    decreases j - from,
{
    if j <= from {
        T::zero_spec()
    } else {
        row_sum_upto(s, x, from, j - 1).plus_spec(
            s.values@[j - 1].times_spec(x[s.column_index@[j - 1] as int]),
        )
    }
}

impl<T: Scalar> SparseRowMatrix<T> {
    /// Element `r` of the product with `x`.
    pub open spec fn row_product(&self, x: Seq<T>, r: int) -> T {
        row_sum_upto(*self, x, self.start(r), self.start(r + 1))
    }

    /// The product with `x`.
    pub open spec fn product(&self, x: Seq<T>) -> Seq<T> {
        Seq::new(self.rows(), |i: int| self.row_product(x, i))
    }

    /// The number of rows.
    pub fn len(&self) -> (r: usize)
        requires
            self.well_formed(),
        ensures
            r == self.rows(),
    {
        self.row_pointers.len() - 1
    }

    /// The product with `rhs`: element `i` sums, in storage order, each
    /// coefficient of row `i` times the element of `rhs` at its column.
    pub fn apply(&self, rhs: &Vector<T>) -> (r: Vector<T>)
        requires
            self.well_formed(),
            rhs.len_spec() == self.rows(),
        ensures
            r.len_spec() == self.rows(),
            forall|i: int| 0 <= i < self.rows() ==> #[trigger] r.0@[i] == self.row_product(rhs.0@, i),
            r.0@ == self.product(rhs.0@),
    {
        let n = self.len();
        let mut result: Vec<T> = Vec::with_capacity(n);
        let mut i: usize = 0;
        while i < n
            invariant
                self.well_formed(),
                n == self.rows(),
                rhs.len_spec() == n,
                i <= n,
                result@.len() == i,
                forall|q: int| 0 <= q < i ==> #[trigger] result@[q] == self.row_product(rhs.0@, q),
            decreases n - i,
        {
            let x = self.row_pointers[i];
            let y = self.row_pointers[i + 1];
            assert(self.start(i as int) <= self.start(i + 1));
            assert(self.start(i + 1) <= self.values@.len());
            let mut sum = T::zero();
            let mut j: usize = x;
            while j < y
                invariant
                    self.well_formed(),
                    n == self.rows(),
                    rhs.len_spec() == n,
                    x <= j <= y,
                    y <= self.values@.len(),
                    sum == row_sum_upto(*self, rhs.0@, x as int, j as int),
                decreases y - j,
            {
                let index = self.column_index[j];
                sum = sum.plus(self.values[j].times(rhs.0[index]));
                j = j + 1;
            }
            result.push(sum);
            i = i + 1;
        }
        assert(result@ =~= self.product(rhs.0@));
        Vector(result)
    }
}

impl<T: Copy> SparseRowMatrix<T> {
    /// The stored coefficients as three aligned lists, row by row: one-based
    /// rows, one-based columns, and values.
    pub fn triplets(&self) -> (r: (Vec<usize>, Vec<usize>, Vec<T>))
        requires
            self.well_formed(),
        ensures
            r.0@.len() == self.values@.len(),
            r.1@.len() == self.values@.len(),
            r.2@.len() == self.values@.len(),
            forall|x: int, q: int| #![trigger self.start(x), r.0@[q]]
                0 <= x < self.rows() && self.start(x) <= q < self.start(x + 1) ==> r.0@[q] == x + 1,
            forall|q: int| 0 <= q < self.values@.len() ==> {
                &&& #[trigger] r.1@[q] == self.column_index@[q] + 1
                &&& r.2@[q] == self.values@[q]
            },
    {
        let rows = self.row_numbers();
        let n = self.row_pointers.len() - 1;
        let mut columns: Vec<usize> = Vec::new();
        let mut values: Vec<T> = Vec::new();
        let mut q: usize = 0;
        while q < self.values.len()
            invariant
                self.well_formed(),
                n == self.rows(),
                q <= self.values@.len(),
                columns@.len() == q,
                values@.len() == q,
                forall|y: int| 0 <= y < q ==> {
                    &&& #[trigger] columns@[y] == self.column_index@[y] + 1
                    &&& values@[y] == self.values@[y]
                },
            decreases self.values@.len() - q,
        {
            columns.push(self.column_index[q] + 1);
            values.push(self.values[q]);
            q = q + 1;
        }
        (rows, columns, values)
    }
}

impl<T: Copy> SparseRowMatrix<T> {
    /// The one-based row of each stored position.
    #[verifier::rlimit(50)]
    fn row_numbers(&self) -> (rows: Vec<usize>)
        requires
            self.well_formed(),
        ensures
            rows@.len() == self.values@.len(),
            forall|x: int, q: int| #![trigger self.start(x), rows@[q]]
                0 <= x < self.rows() && self.start(x) <= q < self.start(x + 1) ==> rows@[q] == x + 1,
    {
        let n = self.row_pointers.len() - 1;
        let mut rows: Vec<usize> = Vec::new();
        let mut i: usize = 0;
        while i < n
            invariant
                self.well_formed(),
                n == self.rows(),
                i <= n,
                rows@.len() == self.start(i as int),
                forall|x: int, q: int| #![trigger self.start(x), rows@[q]]
                    0 <= x < i && self.start(x) <= q < self.start(x + 1) ==> rows@[q] == x + 1,
            decreases n - i,
        {
            let y = self.row_pointers[i + 1];
            proof {
                assert(self.start(i as int) <= self.start(i + 1));
                assert(self.start(i + 1) <= self.values@.len());
            }
            let ghost done = rows@;
            fill_to(&mut rows, i + 1, y);
            proof {
                assert forall|x: int, q: int| #![trigger self.start(x), rows@[q]]
                    0 <= x < i + 1 && self.start(x) <= q < self.start(x + 1) implies rows@[q] == x + 1 by {
                    if x < i {
                        lemma_pointers_rise(*self, x + 1, i as int);
                        assert(rows@[q] == done[q]);
                    }
                }
            }
            i = i + 1;
        }
        proof {
            assert(self.row_pointers@.last() == self.row_pointers@[n as int]);
        }
        rows
    }
}

/// Appends `value` until `v` has `len` elements.
fn fill_to(v: &mut Vec<usize>, value: usize, len: usize)
    requires
        old(v)@.len() <= len,
    ensures
        final(v)@.len() == len,
        forall|q: int| 0 <= q < old(v)@.len() ==> #[trigger] final(v)@[q] == old(v)@[q],
        forall|q: int| old(v)@.len() <= q < len ==> #[trigger] final(v)@[q] == value,
{
    let ghost start = v@;
    while v.len() < len
        invariant
            start.len() <= v@.len() <= len,
            forall|q: int| 0 <= q < start.len() ==> #[trigger] v@[q] == start[q],
            forall|q: int| start.len() <= q < v@.len() ==> #[trigger] v@[q] == value,
        decreases len - v@.len(),
    {
        v.push(value);
    }
}

/// Row pointers never fall.
proof fn lemma_pointers_rise<T: Copy>(s: SparseRowMatrix<T>, x: int, y: int)
    requires
        s.well_formed(),
        0 <= x <= y <= s.rows(),
    ensures
        s.start(x) <= s.start(y),
    decreases y - x,
{
    if x < y {
        lemma_pointers_rise(s, x, y - 1);
        assert(s.start(y - 1) <= s.start(y));
    }
}

/// The column indices of rows `0 .. r`, one row after another.
pub open spec fn flat_columns<T: Copy>(m: SparseSymmetricMatrix<T>, r: int) -> Seq<usize>
    decreases r,
{
    if r <= 0 {
        seq![]
    } else {
        flat_columns(m, r - 1) + row_columns(m, r - 1)
    }
}

/// The coefficients of rows `0 .. r`, one row after another.
pub open spec fn flat_values<T: Copy>(m: SparseSymmetricMatrix<T>, r: int) -> Seq<T>
    decreases r,
{
    if r <= 0 {
        seq![]
    } else {
        flat_values(m, r - 1) + row_values(m, r - 1)
    }
}

/// Row `x` occupies its own stretch of the flattened rows.
proof fn lemma_row_slice<T: Copy>(m: SparseSymmetricMatrix<T>, x: int, n: int)
    requires
        m.well_formed(),
        0 <= x < n,
        n == m.dim(),
    ensures
        flat_columns(m, n).subrange(flat_columns(m, x).len() as int, flat_columns(m, x + 1).len() as int)
            == row_columns(m, x),
        flat_values(m, n).subrange(flat_columns(m, x).len() as int, flat_columns(m, x + 1).len() as int)
            == row_values(m, x),
{
    lemma_flat_prefix(m, x + 1, n);
    lemma_flat_lengths(m, x + 1);
    lemma_flat_lengths(m, x);
    let lo = flat_columns(m, x).len() as int;
    let hi = flat_columns(m, x + 1).len() as int;
    assert(flat_columns(m, x + 1).subrange(lo, hi) =~= row_columns(m, x));
    assert(flat_values(m, x + 1).subrange(lo, hi) =~= row_values(m, x));
    assert(flat_columns(m, n).subrange(lo, hi) =~= flat_columns(m, x + 1).subrange(lo, hi));
    assert(flat_values(m, n).subrange(lo, hi) =~= flat_values(m, x + 1).subrange(lo, hi));
}

proof fn lemma_flat_lengths<T: Copy>(m: SparseSymmetricMatrix<T>, r: int)
    requires
        m.well_formed(),
        r <= m.dim(),
    ensures
        flat_values(m, r).len() == flat_columns(m, r).len(),
    decreases r,
{
    if r > 0 {
        lemma_flat_lengths(m, r - 1);
        lemma_mirror_facts(m, r - 1, m.dim() as int);
    }
}

proof fn lemma_flat_prefix<T: Copy>(m: SparseSymmetricMatrix<T>, x: int, y: int)
    requires
        0 <= x <= y,
    ensures
        flat_columns(m, x).len() <= flat_columns(m, y).len(),
        flat_columns(m, y).subrange(0, flat_columns(m, x).len() as int) == flat_columns(m, x),
        flat_values(m, x).len() <= flat_values(m, y).len(),
        flat_values(m, y).subrange(0, flat_values(m, x).len() as int) == flat_values(m, x),
    decreases y - x,
{
    if x < y {
        lemma_flat_prefix(m, x, y - 1);
        assert(flat_columns(m, y).subrange(0, flat_columns(m, x).len() as int)
            =~= flat_columns(m, y - 1).subrange(0, flat_columns(m, x).len() as int));
        assert(flat_values(m, y).subrange(0, flat_values(m, x).len() as int)
            =~= flat_values(m, y - 1).subrange(0, flat_values(m, x).len() as int));
    } else {
        assert(flat_columns(m, y).subrange(0, flat_columns(m, x).len() as int) =~= flat_columns(m, x));
        assert(flat_values(m, y).subrange(0, flat_values(m, x).len() as int) =~= flat_values(m, x));
    }
}

/// Row `r` of the compressed form is row `r` of the full symmetric matrix:
/// its columns rise strictly, column `c` appears exactly where the stored
/// lower triangle holds position `(min(r, c), max(r, c))`, and with that
/// position's coefficient. So the product with the `c`-th unit vector picks
/// out column `c` of the full matrix.
pub proof fn lemma_rows_expand_symmetric<T: Copy>(m: SparseSymmetricMatrix<T>, s: SparseRowMatrix<T>, r: int)
    requires
        m.well_formed(),
        s.represents(m),
        0 <= r < m.dim(),
    ensures
        strictly_increasing(s.row(r)),
        s.row_coefficients(r).len() == s.row(r).len(),
        forall|c: usize| #[trigger] s.row(r).contains(c) <==> (if c < r {
            m.column(c as int).contains(r as usize)
        } else {
            m.column(r).contains(c)
        }),
        forall|q: int| 0 <= q < s.row(r).len() ==> #[trigger] s.row_coefficients(r)[q] == (if s.row(
            r,
        )[q] < r {
            m.value_at(s.row(r)[q] as int, r as usize)
        } else {
            m.value_at(r, s.row(r)[q])
        }),
{
    let n = m.dim() as int;
    lemma_mirror_contents(m, r, n);
    lemma_mirror_facts(m, r, n);
    let mc = mirror_columns(m, r, n);
    let row = row_columns(m, r);
    let col = m.column(r);
    assert(s.row(r) == row);
    assert(m.column_values(r).len() == col.len());
    assert(strictly_increasing(col));
    assert forall|a: int, b: int| 0 <= a < b < row.len() implies row[a] < row[b] by {
        if b < mc.len() {
        } else if a < mc.len() {
            assert(mc[a] < r);
            assert(r <= col[b - mc.len()]);
        } else {
            assert(col[a - mc.len()] < col[b - mc.len()]);
        }
    }
    assert forall|c: usize| #[trigger] row.contains(c) <==> (if c < r {
        col_holds(m, c as int, r)
    } else {
        col.contains(c)
    }) by {
        if row.contains(c) {
            let q = choose|q: int| 0 <= q < row.len() && row[q] == c;
            if q < mc.len() {
                assert(mc.contains(c));
            } else {
                assert(col[q - mc.len()] == c);
                assert(r <= col[q - mc.len()]);
                assert(col.contains(c));
            }
        }
        if c < r && col_holds(m, c as int, r) {
            assert(mc.contains(c));
            let q = choose|q: int| 0 <= q < mc.len() && mc[q] == c;
            assert(row[q] == c);
        }
        if c >= r && col.contains(c) {
            let q = choose|q: int| 0 <= q < col.len() && col[q] == c;
            assert(row[q + mc.len()] == c);
        }
    }
    assert forall|q: int| 0 <= q < row.len() implies #[trigger] row_values(m, r)[q] == (if row[q] < r {
        m.value_at(row[q] as int, r as usize)
    } else {
        m.value_at(r, row[q])
    }) by {
        if q < mc.len() {
            assert(mc[q] < r);
        } else {
            let p = q - mc.len();
            assert(r <= col[p]);
            let chosen = choose|x: int| 0 <= x < col.len() && col[x] == col[p];
            if chosen < p {
                assert(col[chosen] < col[p]);
            } else if chosen > p {
                assert(col[p] < col[chosen]);
            }
        }
    }
}

/// Column `c` stores row `r`.
pub open spec fn col_holds<T: Copy>(m: SparseSymmetricMatrix<T>, c: int, r: int) -> bool {
    m.column(c).contains(r as usize)
}

/// What the mirrored half of row `j` holds among the first `c` columns.
proof fn lemma_mirror_contents<T: Copy>(m: SparseSymmetricMatrix<T>, j: int, c: int)
    requires
        0 <= j,
        c <= m.dim(),
    ensures
        forall|x: usize| #[trigger] mirror_columns(m, j, c).contains(x) <==> (x < c && x < j && col_holds(
            m, x as int, j)),
        forall|q: int| 0 <= q < mirror_columns(m, j, c).len() ==> #[trigger] mirror_values(m, j, c)[q]
            == m.value_at(mirror_columns(m, j, c)[q] as int, j as usize),
        forall|q: int| 0 <= q < mirror_columns(m, j, c).len() ==> #[trigger] mirror_columns(m, j, c)[q] < c,
        strictly_increasing(mirror_columns(m, j, c)),
    decreases c,
{
    lemma_mirror_facts(m, j, c);
    if c > 0 {
        lemma_mirror_contents(m, j, c - 1);
        lemma_mirror_facts(m, j, c - 1);
        let prev = mirror_columns(m, j, c - 1);
        let cur = mirror_columns(m, j, c);
        if j > c - 1 && m.column(c - 1).contains(j as usize) {
            assert(cur == prev.push((c - 1) as usize));
            assert forall|x: usize| #[trigger] cur.contains(x) <==> (x < c && x < j && col_holds(
                m, x as int, j)) by {
                if cur.contains(x) {
                    let q = choose|q: int| 0 <= q < cur.len() && cur[q] == x;
                    if q < prev.len() {
                        assert(prev.contains(x));
                    }
                }
                if x < c && x < j && col_holds(m, x as int, j) {
                    if x < c - 1 {
                        assert(prev.contains(x));
                        let q = choose|q: int| 0 <= q < prev.len() && prev[q] == x;
                        assert(cur[q] == x);
                    } else {
                        assert(cur[prev.len() as int] == x);
                    }
                }
            }
        } else {
            assert forall|x: usize| #[trigger] cur.contains(x) <==> (x < c && x < j && col_holds(
                m, x as int, j)) by {
                if cur.contains(x) {
                    let q = choose|q: int| 0 <= q < cur.len() && cur[q] == x;
                    assert(prev[q] < c - 1);
                }
            }
        }
    }
}

/// Appends one row's column indices and coefficients.
fn append_row<T: Copy>(
    column_index: &mut Vec<usize>,
    values: &mut Vec<T>,
    columns: &Vec<usize>,
    coefficients: &Vec<T>,
)
    requires
        columns@.len() == coefficients@.len(),
    ensures
        final(column_index)@ == old(column_index)@ + columns@,
        final(values)@ == old(values)@ + coefficients@,
{
    let ghost start_columns = column_index@;
    let ghost start_values = values@;
    let mut q: usize = 0;
    while q < columns.len()
        invariant
            q <= columns@.len(),
            columns@.len() == coefficients@.len(),
            column_index@ =~= start_columns + columns@.subrange(0, q as int),
            values@ =~= start_values + coefficients@.subrange(0, q as int),
        decreases columns@.len() - q,
    {
        column_index.push(columns[q]);
        values.push(coefficients[q]);
        q = q + 1;
    }
    assert(columns@.subrange(0, q as int) =~= columns@);
    assert(coefficients@.subrange(0, q as int) =~= coefficients@);
}

/// The mirrored half of row `j` lists columns below `j`, one coefficient each.
proof fn lemma_mirror_facts<T: Copy>(m: SparseSymmetricMatrix<T>, j: int, c: int)
    requires
        0 <= j,
    ensures
        mirror_columns(m, j, c).len() == mirror_values(m, j, c).len(),
        forall|y: int| 0 <= y < mirror_columns(m, j, c).len() ==> #[trigger] mirror_columns(m, j, c)[y] < j,
    decreases c,
{
    if c > 0 {
        lemma_mirror_facts(m, j, c - 1);
    }
}

} // verus!
