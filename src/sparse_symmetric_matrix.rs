use vstd::prelude::*;

verus! {

/// One input coefficient: row `x`, column `y`, value `v`.
#[derive(Clone, Copy, Debug)]
pub struct Entry<T> {
    pub x: usize,
    pub y: usize,
    pub v: T,
}

impl<T: Copy> Entry<T> {
    /// The smaller of the two indices: the column the entry is stored in.
    pub open spec fn low(self) -> usize {
        if self.x <= self.y { self.x } else { self.y }
    }

    /// The larger of the two indices: the row the entry is stored at.
    pub open spec fn high(self) -> usize {
        if self.x <= self.y { self.y } else { self.x }
    }

    /// The same coefficient reflected into the lower triangle.
    pub fn lower_triangle(&self) -> (r: Entry<T>)
        ensures
            r.x == self.low(),
            r.y == self.high(),
            r.v == self.v,
    {
        if self.x <= self.y {
            Entry { x: self.x, y: self.y, v: self.v }
        } else {
            Entry { x: self.y, y: self.x, v: self.v }
        }
    }
}

/// The largest index named by any entry; zero when there is none.
pub open spec fn max_index<T: Copy>(entries: Seq<Entry<T>>) -> nat
    decreases entries.len(),
{
    if entries.len() == 0 {
        0
    } else {
        let rest = max_index(entries.drop_last());
        let h = entries.last().high() as nat;
        if rest >= h { rest } else { h }
    }
}

/// Some entry reflects onto position `(i, j)` of the lower triangle.
pub open spec fn stores<T: Copy>(entries: Seq<Entry<T>>, i: int, j: int) -> bool {
    exists|k: int|
        0 <= k < entries.len() && #[trigger] entries[k].low() == i && entries[k].high() == j
}

/// The value of the last entry that reflects onto `(i, j)`.
pub open spec fn last_value<T: Copy>(entries: Seq<Entry<T>>, i: int, j: int) -> T
    decreases entries.len(),
{
    if entries.len() == 0 {
        arbitrary()
    } else if entries.last().low() == i && entries.last().high() == j {
        entries.last().v
    } else {
        last_value(entries.drop_last(), i, j)
    }
}

pub open spec fn strictly_increasing(s: Seq<usize>) -> bool {
    forall|a: int, b: int| 0 <= a < b < s.len() ==> s[a] < s[b]
}

/// A symmetric matrix stored as its lower triangle, column by column.
///
/// The dimension is `length + 1`. Column `i` lists, in increasing order, the
/// rows `j >= i` that hold a coefficient, and `values[i]` the coefficients at
/// the same positions.
#[derive(Clone, Debug)]
pub struct SparseSymmetricMatrix<T> {
    pub length: usize,
    pub indices: Vec<Vec<usize>>,
    pub values: Vec<Vec<T>>,
}

impl<T: Copy> SparseSymmetricMatrix<T> {
    /// The rows stored in column `i`.
    pub open spec fn column(&self, i: int) -> Seq<usize> {
        self.indices@[i]@
    }

    /// The coefficients stored in column `i`.
    pub open spec fn column_values(&self, i: int) -> Seq<T> {
        self.values@[i]@
    }

    /// The coefficient stored at row `j` of column `i`, where there is one.
    pub open spec fn value_at(&self, i: int, j: usize) -> T {
        self.column_values(i)[choose|p: int| 0 <= p < self.column(i).len() && self.column(i)[p] == j]
    }

    /// The dimension of the matrix.
    pub open spec fn dim(&self) -> nat {
        self.length as nat + 1
    }

    pub open spec fn well_formed(&self) -> bool {
        &&& self.length < usize::MAX
        &&& self.indices@.len() == self.dim()
        &&& self.values@.len() == self.dim()
        &&& forall|i: int| 0 <= i < self.dim() ==> #[trigger] self.column_values(i).len()
            == self.column(i).len()
        &&& forall|i: int| 0 <= i < self.dim() ==> #[trigger] strictly_increasing(self.column(i))
        &&& forall|i: int, p: int| 0 <= i < self.dim() && 0 <= p < self.column(i).len()
            ==> i <= #[trigger] self.column(i)[p] <= self.length
    }

    /// `self` is what assembling `entries` yields: every entry reflected into
    /// the lower triangle, the last one written to a position kept.
    pub open spec fn assembles(&self, entries: Seq<Entry<T>>) -> bool {
        &&& self.well_formed()
        &&& self.length == max_index(entries)
        &&& forall|i: int, j: usize| 0 <= i < self.dim() ==>
            (#[trigger] self.column(i).contains(j) <==> stores(entries, i, j as int))
        &&& forall|i: int, p: int| 0 <= i < self.dim() && 0 <= p < self.column(i).len() ==>
            #[trigger] self.column_values(i)[p] == last_value(entries, i, self.column(i)[p] as int)
    }
}

impl<T: Copy> SparseSymmetricMatrix<T> {
    /// Assembles a matrix from entries given in any order: each entry is
    /// reflected into the lower triangle, and where several entries reflect
    /// onto one position the last of them is kept.
    pub fn new(entries: &Vec<Entry<T>>) -> (m: SparseSymmetricMatrix<T>)
        requires
            max_index(entries@) < usize::MAX,
        ensures
            m.assembles(entries@),
    {
        proof {
            lemma_max_index_bounds(entries@);
        }
        let mut length: usize = 0;
        let mut k: usize = 0;
        while k < entries.len()
            invariant
                k <= entries@.len(),
                length == max_index(entries@.subrange(0, k as int)),
            decreases entries@.len() - k,
        {
            assert(entries@.subrange(0, k + 1).drop_last() =~= entries@.subrange(0, k as int));
            let e = entries[k].lower_triangle();
            if e.y > length {
                length = e.y;
            }
            k = k + 1;
        }
        assert(entries@.subrange(0, entries@.len() as int) =~= entries@);

        let mut indices: Vec<Vec<usize>> = Vec::new();
        let mut values: Vec<Vec<T>> = Vec::new();
        let mut i: usize = 0;
        while i <= length
            invariant
                length < usize::MAX,
                i <= length + 1,
                indices@.len() == i,
                values@.len() == i,
                forall|c: int| 0 <= c < i ==> (#[trigger] indices@[c])@.len() == 0,
                forall|c: int| 0 <= c < i ==> (#[trigger] values@[c])@.len() == 0,
            decreases length + 1 - i,
        {
            indices.push(Vec::new());
            values.push(Vec::new());
            i = i + 1;
        }

        let mut k: usize = 0;
        while k < entries.len()
            invariant
                k <= entries@.len(),
                length == max_index(entries@),
                length < usize::MAX,
                forall|q: int| 0 <= q < entries@.len() ==> #[trigger] entries@[q].high() <= length,
                indices@.len() == length + 1,
                values@.len() == length + 1,
                forall|c: int| 0 <= c <= length ==> {
                    &&& (#[trigger] values@[c])@.len() == indices@[c]@.len()
                    &&& strictly_increasing(indices@[c]@)
                    &&& forall|p: int| 0 <= p < indices@[c]@.len()
                        ==> c <= #[trigger] indices@[c]@[p] <= length
                },
                forall|c: int, j: usize| 0 <= c <= length ==>
                    (#[trigger] indices@[c]@.contains(j) <==> stores(
                        entries@.subrange(0, k as int), c, j as int)),
                forall|c: int, p: int| 0 <= c <= length && 0 <= p < indices@[c]@.len() ==>
                    #[trigger] values@[c]@[p] == last_value(
                        entries@.subrange(0, k as int), c, indices@[c]@[p] as int),
            decreases entries@.len() - k,
        {
            let ghost prefix = entries@.subrange(0, k as int);
            let ghost next = entries@.subrange(0, k + 1);
            assert(next.drop_last() =~= prefix);
            let e = entries[k].lower_triangle();
            let lo = e.x;
            let hi = e.y;
            let mut pos: usize = 0;
            while pos < indices[lo].len() && indices[lo][pos] < hi
                invariant
                    lo <= length,
                    indices@.len() == length + 1,
                    pos <= indices@[lo as int]@.len(),
                    forall|q: int| 0 <= q < pos ==> #[trigger] indices@[lo as int]@[q] < hi,
                decreases indices@[lo as int]@.len() - pos,
            {
                pos = pos + 1;
            }
            let ghost old_indices = indices@;
            let ghost old_values = values@;
            let ghost old_col = indices@[lo as int]@;
            let ghost old_vals = values@[lo as int]@;
            proof {
                assert forall|c: int, j: usize| #[trigger] stores(next, c, j as int) <==> (stores(
                    prefix, c, j as int) || (c == lo && j == hi)) by {
                    lemma_stores_push(next, c, j as int);
                }
            }
            if pos < indices[lo].len() && indices[lo][pos] == hi {
                values[lo][pos] = e.v;
                proof {
                    assert(indices@ == old_indices);
                    assert forall|c: int| 0 <= c <= length implies {
                        &&& (#[trigger] values@[c])@.len() == indices@[c]@.len()
                        &&& strictly_increasing(indices@[c]@)
                        &&& forall|p: int| 0 <= p < indices@[c]@.len()
                            ==> c <= #[trigger] indices@[c]@[p] <= length
                    } by {
                        if c != lo {
                            assert(indices@[c] == old_indices[c]);
                            assert(values@[c] == old_values[c]);
                        }
                    }
                    assert forall|c: int, j: usize| 0 <= c <= length implies (
                    #[trigger] indices@[c]@.contains(j) <==> stores(next, c, j as int)) by {
                        if c == lo {
                            if j == hi {
                                assert(indices@[c]@[pos as int] == j);
                            }
                        }
                    }
                    assert forall|c: int, p: int| 0 <= c <= length && 0 <= p < indices@[c]@.len()
                        implies #[trigger] values@[c]@[p] == last_value(
                        next, c, indices@[c]@[p] as int) by {
                        if c == lo && p != pos {
                            assert(old_col[p] != hi);
                        }
                    }
                }
            } else {
                proof {
                    assert(!old_col.contains(hi)) by {
                        if old_col.contains(hi) {
                            let q = choose|q: int| 0 <= q < old_col.len() && old_col[q] == hi;
                            if q >= pos {
                                assert(old_col[pos as int] <= old_col[q]);
                            }
                        }
                    }
                }
                indices[lo].insert(pos, hi);
                values[lo].insert(pos, e.v);
                proof {
                    let col = indices@[lo as int]@;
                    assert(col =~= old_col.insert(pos as int, hi));
                    assert(values@[lo as int]@ =~= old_vals.insert(pos as int, e.v));
                    assert forall|a: int, b: int| 0 <= a < b < col.len() implies col[a] < col[b] by {
                        if b < pos {
                        } else if b == pos {
                        } else if a < pos {
                            assert(old_col[a] < hi);
                            assert(hi <= old_col[b - 1]);
                        } else if a == pos {
                            assert(hi <= old_col[b - 1]);
                        } else {
                            assert(old_col[a - 1] < old_col[b - 1]);
                        }
                    }
                    assert forall|p: int| 0 <= p < col.len() implies lo <= #[trigger] col[p]
                        <= length by {
                        if p > pos {
                            assert(col[p] == old_col[p - 1]);
                        }
                    }
                    assert forall|c: int| 0 <= c <= length implies {
                        &&& (#[trigger] values@[c])@.len() == indices@[c]@.len()
                        &&& strictly_increasing(indices@[c]@)
                        &&& forall|p: int| 0 <= p < indices@[c]@.len()
                            ==> c <= #[trigger] indices@[c]@[p] <= length
                    } by {
                        if c != lo {
                            assert(indices@[c] == old_indices[c]);
                            assert(values@[c] == old_values[c]);
                        }
                    }
                    assert forall|j: usize| col.contains(j) <==> (old_col.contains(j) || j == hi) by {
                        if col.contains(j) {
                            let q = choose|q: int| 0 <= q < col.len() && col[q] == j;
                            if q < pos {
                                assert(old_col[q] == j);
                            } else if q > pos {
                                assert(old_col[q - 1] == j);
                            }
                        }
                        if old_col.contains(j) {
                            let q = choose|q: int| 0 <= q < old_col.len() && old_col[q] == j;
                            if q < pos {
                                assert(col[q] == j);
                            } else {
                                assert(col[q + 1] == j);
                            }
                        }
                        if j == hi {
                            assert(col[pos as int] == j);
                        }
                    }
                    assert forall|c: int, j: usize| 0 <= c <= length implies (
                    #[trigger] indices@[c]@.contains(j) <==> stores(next, c, j as int)) by {
                    }
                    assert forall|c: int, p: int| 0 <= c <= length && 0 <= p < indices@[c]@.len()
                        implies #[trigger] values@[c]@[p] == last_value(
                        next, c, indices@[c]@[p] as int) by {
                        if c == lo {
                            if p < pos {
                                assert(old_col[p] != hi);
                            } else if p > pos {
                                assert(col[p] == old_col[p - 1]);
                                assert(old_col[p - 1] != hi);
                            }
                        }
                    }
                }
            }
            k = k + 1;
        }
        assert(entries@.subrange(0, entries@.len() as int) =~= entries@);
        let m = SparseSymmetricMatrix { length, indices, values };
        proof {
            assert forall|i: int| 0 <= i < m.dim() implies #[trigger] m.column_values(i).len()
                == m.column(i).len() by {
                assert(m.column(i) == indices@[i]@);
                assert(m.column_values(i) == values@[i]@);
                assert(values@[i]@.len() == indices@[i]@.len());
            }
            assert forall|i: int| 0 <= i < m.dim() implies #[trigger] strictly_increasing(m.column(i)) by {
                assert(m.column(i) == indices@[i]@);
                assert(values@[i]@.len() == indices@[i]@.len());
            }
            assert forall|i: int, p: int| 0 <= i < m.dim() && 0 <= p < m.column(i).len()
                implies i <= #[trigger] m.column(i)[p] <= m.length by {
                assert(m.column(i) == indices@[i]@);
                assert(values@[i]@.len() == indices@[i]@.len());
            }
            assert(m.well_formed());
            assert forall|i: int, j: usize| 0 <= i < m.dim() implies (#[trigger] m.column(i).contains(j)
                <==> stores(entries@, i, j as int)) by {
                assert(m.column(i) == indices@[i]@);
            }
            assert forall|i: int, p: int| 0 <= i < m.dim() && 0 <= p < m.column(i).len() implies
                #[trigger] m.column_values(i)[p] == last_value(entries@, i, m.column(i)[p] as int) by {
                assert(m.column(i) == indices@[i]@);
                assert(m.column_values(i) == values@[i]@);
            }
        }
        m
    }
}

proof fn lemma_max_index_bounds<T: Copy>(entries: Seq<Entry<T>>)
    ensures
        forall|k: int| 0 <= k < entries.len() ==> #[trigger] entries[k].high() <= max_index(entries),
        entries.len() > 0 ==> exists|k: int|
            0 <= k < entries.len() && #[trigger] entries[k].high() == max_index(entries),
    decreases entries.len(),
{
    if entries.len() > 0 {
        let rest = entries.drop_last();
        lemma_max_index_bounds(rest);
        assert forall|k: int| 0 <= k < entries.len() implies #[trigger] entries[k].high()
            <= max_index(entries) by {
            if k < rest.len() {
                assert(rest[k] == entries[k]);
            }
        }
        if rest.len() > 0 && max_index(rest) >= entries.last().high() {
            let k = choose|k: int| 0 <= k < rest.len() && #[trigger] rest[k].high() == max_index(rest);
            assert(entries[k] == rest[k]);
        } else {
            assert(entries[entries.len() - 1].high() == max_index(entries));
        }
    }
}

proof fn lemma_stores_push<T: Copy>(entries: Seq<Entry<T>>, i: int, j: int)
    requires
        entries.len() > 0,
    ensures
        stores(entries, i, j) <==> (stores(entries.drop_last(), i, j) || (entries.last().low() == i
            && entries.last().high() == j)),
{
    let rest = entries.drop_last();
    if stores(entries, i, j) {
        let k = choose|k: int|
            0 <= k < entries.len() && #[trigger] entries[k].low() == i && entries[k].high() == j;
        if k < rest.len() {
            assert(rest[k] == entries[k]);
        }
    }
    if stores(rest, i, j) {
        let k = choose|k: int|
            0 <= k < rest.len() && #[trigger] rest[k].low() == i && rest[k].high() == j;
        assert(rest[k] == entries[k]);
    }
    if entries.last().low() == i && entries.last().high() == j {
        assert(entries[entries.len() - 1].low() == i);
    }
}

} // verus!

verus! {

/// Column `i` of `m` written as entries `(i, row, value)`, in order.
pub open spec fn column_entries<T: Copy>(m: SparseSymmetricMatrix<T>, i: int) -> Seq<Entry<T>> {
    Seq::new(m.column(i).len(), |p: int| stored_entry(m, i, p))
}

/// Position `p` of column `i` of `m` as an entry.
pub open spec fn stored_entry<T: Copy>(m: SparseSymmetricMatrix<T>, i: int, p: int) -> Entry<T> {
    Entry { x: i as usize, y: m.column(i)[p], v: m.column_values(i)[p] }
}

/// The entries of columns `0 .. c`, column after column.
pub open spec fn entries_upto<T: Copy>(m: SparseSymmetricMatrix<T>, c: int) -> Seq<Entry<T>>
    decreases c,
{
    if c <= 0 {
        seq![]
    } else {
        entries_upto(m, c - 1) + column_entries(m, c - 1)
    }
}

/// Every coefficient that `m` stores, as an entry list in canonical order:
/// by column, then by row, each position once.
pub open spec fn stored_entries<T: Copy>(m: SparseSymmetricMatrix<T>) -> Seq<Entry<T>> {
    entries_upto(m, m.dim() as int)
}

impl<T: Copy> SparseSymmetricMatrix<T> {
    /// The stored coefficients as three aligned lists, column by column:
    /// one-based rows, one-based columns, and values.
    pub fn triplets(&self) -> (r: (Vec<usize>, Vec<usize>, Vec<T>))
        requires
            self.well_formed(),
        ensures
            r.0@.len() == stored_entries(*self).len(),
            r.1@.len() == stored_entries(*self).len(),
            r.2@.len() == stored_entries(*self).len(),
            forall|q: int| 0 <= q < stored_entries(*self).len() ==> {
                &&& #[trigger] r.0@[q] == stored_entries(*self)[q].y + 1
                &&& r.1@[q] == stored_entries(*self)[q].x + 1
                &&& r.2@[q] == stored_entries(*self)[q].v
            },
    {
        let ghost m = *self;
        let n = self.length + 1;
        let mut rows: Vec<usize> = Vec::new();
        let mut columns: Vec<usize> = Vec::new();
        let mut values: Vec<T> = Vec::new();
        let mut i: usize = 0;
        while i < n
            invariant
                m == *self,
                m.well_formed(),
                n == m.dim(),
                i <= n,
                rows@.len() == entries_upto(m, i as int).len(),
                columns@.len() == rows@.len(),
                values@.len() == rows@.len(),
                forall|q: int| 0 <= q < rows@.len() ==> {
                    &&& #[trigger] rows@[q] == entries_upto(m, i as int)[q].y + 1
                    &&& columns@[q] == entries_upto(m, i as int)[q].x + 1
                    &&& values@[q] == entries_upto(m, i as int)[q].v
                },
            decreases n - i,
        {
            let ghost before = entries_upto(m, i as int);
            let ghost after = entries_upto(m, i + 1);
            let ghost col = column_entries(m, i as int);
            assert(after == before + col);
            assert(m.column_values(i as int).len() == m.column(i as int).len());
            let len = self.indices[i].len();
            let mut p: usize = 0;
            while p < len
                invariant
                    m == *self,
                    m.well_formed(),
                    n == m.dim(),
                    i < n,
                    after == before + col,
                    col == column_entries(m, i as int),
                    col.len() == len,
                    len == m.column(i as int).len(),
                    m.column_values(i as int).len() == len,
                    p <= len,
                    rows@.len() == before.len() + p,
                    columns@.len() == rows@.len(),
                    values@.len() == rows@.len(),
                    forall|q: int| 0 <= q < rows@.len() ==> {
                        &&& #[trigger] rows@[q] == after[q].y + 1
                        &&& columns@[q] == after[q].x + 1
                        &&& values@[q] == after[q].v
                    },
                decreases len - p,
            {
                assert(m.column(i as int)[p as int] <= m.length);
                assert(after[before.len() + p] == col[p as int]);
                assert(col[p as int] == stored_entry(m, i as int, p as int));
                let ghost old_rows = rows@;
                let ghost old_columns = columns@;
                let ghost old_values = values@;
                rows.push(self.indices[i][p] + 1);
                columns.push(i + 1);
                values.push(self.values[i][p]);
                proof {
                    assert forall|q: int| 0 <= q < rows@.len() implies {
                        &&& #[trigger] rows@[q] == after[q].y + 1
                        &&& columns@[q] == after[q].x + 1
                        &&& values@[q] == after[q].v
                    } by {
                        if q < old_rows.len() {
                            assert(rows@[q] == old_rows[q]);
                            assert(columns@[q] == old_columns[q]);
                            assert(values@[q] == old_values[q]);
                        }
                    }
                }
                p = p + 1;
            }
            i = i + 1;
        }
        (rows, columns, values)
    }
}

/// Assembling a matrix from the entries it stores gives the same matrix:
/// reflecting, ordering and deduplicating a list that is already in
/// canonical form changes nothing.
pub proof fn lemma_assembly_idempotent<T: Copy>(
    m: SparseSymmetricMatrix<T>,
    entries: Seq<Entry<T>>,
    again: SparseSymmetricMatrix<T>,
)
    requires
        m.assembles(entries),
        again.assembles(stored_entries(m)),
    ensures
        again.length == m.length,
        forall|i: int| 0 <= i < m.dim() ==> #[trigger] again.column(i) == m.column(i),
        forall|i: int| 0 <= i < m.dim() ==> #[trigger] again.column_values(i) == m.column_values(i),
{
    let stored = stored_entries(m);
    lemma_entries_upto(m, m.dim() as int);
    lemma_max_index_bounds(stored);
    lemma_max_index_bounds(entries);
    // the largest index is the same for both lists
    if entries.len() > 0 {
        let k = choose|k: int| 0 <= k < entries.len() && #[trigger] entries[k].high() == max_index(entries);
        let lo = entries[k].low() as int;
        let hi = entries[k].high();
        assert(stores(entries, lo, hi as int));
        assert(m.column(lo).contains(hi));
        assert(stores(stored, lo, hi as int));
        let q = choose|q: int| 0 <= q < stored.len() && #[trigger] stored[q].low() == lo && stored[q].high() == hi;
        assert(stored[q].high() <= max_index(stored));
    }
    if stored.len() > 0 {
        let q = choose|q: int| 0 <= q < stored.len() && #[trigger] stored[q].high() == max_index(stored);
        assert(stores(stored, stored[q].low() as int, stored[q].high() as int));
        assert(m.column(stored[q].low() as int).contains(stored[q].high()));
        let lo = stored[q].low() as int;
        let p = choose|p: int| 0 <= p < m.column(lo).len() && m.column(lo)[p] == stored[q].high();
        assert(m.column_values(lo).len() == m.column(lo).len());
        assert(m.column(lo)[p] <= m.length);
    }
    assert(again.length == m.length);
    assert forall|i: int| 0 <= i < m.dim() implies #[trigger] again.column(i) == m.column(i) by {
        assert(again.column_values(i).len() == again.column(i).len());
        assert(m.column_values(i).len() == m.column(i).len());
        assert forall|j: usize| again.column(i).contains(j) <==> m.column(i).contains(j) by {
            assert(again.column(i).contains(j) <==> stores(stored, i, j as int));
        }
        lemma_increasing_equal(again.column(i), m.column(i));
    }
    assert forall|i: int| 0 <= i < m.dim() implies #[trigger] again.column_values(i) == m.column_values(i) by {
        assert(again.column(i) == m.column(i));
        assert(again.column_values(i).len() == again.column(i).len());
        assert(m.column_values(i).len() == m.column(i).len());
        assert forall|p: int| 0 <= p < m.column(i).len() implies again.column_values(i)[p]
            == m.column_values(i)[p] by {
            assert(again.column_values(i)[p] == last_value(stored, i, again.column(i)[p] as int));
        }
        assert(again.column_values(i) =~= m.column_values(i));
    }
}

/// Two strictly increasing sequences with the same elements are equal.
proof fn lemma_increasing_equal(a: Seq<usize>, b: Seq<usize>)
    requires
        strictly_increasing(a),
        strictly_increasing(b),
        forall|j: usize| a.contains(j) <==> b.contains(j),
    ensures
        a == b,
    decreases a.len(),
{
    if a.len() == 0 {
        if b.len() > 0 {
            assert(b.contains(b[0]));
        }
        assert(a =~= b);
    } else {
        assert(a.contains(a[0]));
        let q = choose|q: int| 0 <= q < b.len() && b[q] == a[0];
        assert(b.contains(b[0]));
        let q2 = choose|q2: int| 0 <= q2 < a.len() && a[q2] == b[0];
        if q > 0 {
            assert(b[0] < b[q]);
            if q2 > 0 {
                assert(a[0] < a[q2]);
            }
        }
        assert(a[0] == b[0]);
        let ra = a.drop_first();
        let rb = b.drop_first();
        assert forall|j: usize| ra.contains(j) <==> rb.contains(j) by {
            if ra.contains(j) {
                let x = choose|x: int| 0 <= x < ra.len() && ra[x] == j;
                assert(a[x + 1] == j);
                assert(a.contains(j));
                let y = choose|y: int| 0 <= y < b.len() && b[y] == j;
                assert(a[0] < a[x + 1]);
                if y == 0 {
                    assert(false);
                }
                assert(rb[y - 1] == j);
            }
            if rb.contains(j) {
                let x = choose|x: int| 0 <= x < rb.len() && rb[x] == j;
                assert(b[x + 1] == j);
                assert(b.contains(j));
                let y = choose|y: int| 0 <= y < a.len() && a[y] == j;
                assert(b[0] < b[x + 1]);
                if y == 0 {
                    assert(false);
                }
                assert(ra[y - 1] == j);
            }
        }
        lemma_increasing_equal(ra, rb);
        assert(a.len() == b.len());
        assert forall|x: int| 0 <= x < a.len() implies a[x] == b[x] by {
            if x > 0 {
                assert(a[x] == ra[x - 1]);
                assert(b[x] == rb[x - 1]);
            }
        }
        assert(a =~= b);
    }
}

/// Stores and last values over a concatenation.
proof fn lemma_concat<T: Copy>(a: Seq<Entry<T>>, b: Seq<Entry<T>>, i: int, j: int)
    ensures
        stores(a + b, i, j) <==> (stores(a, i, j) || stores(b, i, j)),
        stores(b, i, j) ==> last_value(a + b, i, j) == last_value(b, i, j),
        !stores(b, i, j) ==> last_value(a + b, i, j) == last_value(a, i, j),
    decreases b.len(),
{
    let ab = a + b;
    if stores(ab, i, j) {
        let k = choose|k: int| 0 <= k < ab.len() && #[trigger] ab[k].low() == i && ab[k].high() == j;
        if k < a.len() {
            assert(a[k] == ab[k]);
        } else {
            assert(b[k - a.len()] == ab[k]);
        }
    }
    if stores(a, i, j) {
        let k = choose|k: int| 0 <= k < a.len() && #[trigger] a[k].low() == i && a[k].high() == j;
        assert(ab[k] == a[k]);
    }
    if stores(b, i, j) {
        let k = choose|k: int| 0 <= k < b.len() && #[trigger] b[k].low() == i && b[k].high() == j;
        assert(ab[k + a.len()] == b[k]);
    }
    if b.len() == 0 {
        assert(ab =~= a);
    } else {
        assert(ab.drop_last() =~= a + b.drop_last());
        lemma_concat(a, b.drop_last(), i, j);
        lemma_stores_push(b, i, j);
    }
}

/// In a list where `(i, j)` occurs once, at `p`, its last value is the one at `p`.
proof fn lemma_last_value_single<T: Copy>(s: Seq<Entry<T>>, i: int, j: int, p: int)
    requires
        0 <= p < s.len(),
        s[p].low() == i && s[p].high() == j,
        forall|q: int| 0 <= q < s.len() && q != p ==> !(#[trigger] s[q].low() == i && s[q].high() == j),
    ensures
        last_value(s, i, j) == s[p].v,
    decreases s.len(),
{
    if p != s.len() - 1 {
        let rest = s.drop_last();
        assert forall|q: int| 0 <= q < rest.len() && q != p implies !(#[trigger] rest[q].low() == i
            && rest[q].high() == j) by {
            assert(rest[q] == s[q]);
        }
        assert(rest[p] == s[p]);
        assert(!(s[s.len() - 1].low() == i && s[s.len() - 1].high() == j));
        lemma_last_value_single(rest, i, j, p);
    }
}

/// What the entries of the first `c` columns store, and with which values.
proof fn lemma_entries_upto<T: Copy>(m: SparseSymmetricMatrix<T>, c: int)
    requires
        m.well_formed(),
        0 <= c <= m.dim(),
    ensures
        forall|i: int, j: usize| 0 <= i < m.dim() ==> (#[trigger] stores(entries_upto(m, c), i, j as int)
            <==> (i < c && m.column(i).contains(j))),
        forall|i: int, p: int| 0 <= i < c && 0 <= p < m.column(i).len() ==> #[trigger] last_value(
            entries_upto(m, c), i, m.column(i)[p] as int) == m.column_values(i)[p],
        forall|k: int| 0 <= k < entries_upto(m, c).len() ==> {
            &&& (#[trigger] entries_upto(m, c)[k]).low() < c
            &&& m.column(entries_upto(m, c)[k].low() as int).contains(entries_upto(m, c)[k].high())
        },
    decreases c,
{
    if c > 0 {
        lemma_entries_upto(m, c - 1);
        let prev = entries_upto(m, c - 1);
        let col = column_entries(m, c - 1);
        let all = entries_upto(m, c);
        let ci = c - 1;
        assert(m.column_values(ci).len() == m.column(ci).len());
        // the entries of column c - 1 sit in the lower triangle as they are
        assert forall|p: int| 0 <= p < col.len() implies #[trigger] col[p].low() == ci
            && col[p].high() == m.column(ci)[p] by {
            assert(ci <= m.column(ci)[p]);
        }
        assert forall|i: int, j: usize| 0 <= i < m.dim() implies (#[trigger] stores(all, i, j as int)
            <==> (i < c && m.column(i).contains(j))) by {
            lemma_concat(prev, col, i, j as int);
            if stores(col, i, j as int) {
                let k = choose|k: int| 0 <= k < col.len() && #[trigger] col[k].low() == i && col[k].high() == j;
                assert(m.column(ci)[k] == j);
            }
            if i == ci && m.column(i).contains(j) {
                let k = choose|k: int| 0 <= k < m.column(i).len() && m.column(i)[k] == j;
                assert(col[k].low() == i && col[k].high() == j);
            }
        }
        assert forall|i: int, p: int| 0 <= i < c && 0 <= p < m.column(i).len() implies #[trigger] last_value(
            all, i, m.column(i)[p] as int) == m.column_values(i)[p] by {
            let j = m.column(i)[p];
            lemma_concat(prev, col, i, j as int);
            if i == ci {
                assert(strictly_increasing(m.column(ci)));
                assert forall|q: int| 0 <= q < col.len() && q != p implies !(#[trigger] col[q].low() == i
                    && col[q].high() == j) by {
                    if q < p {
                        assert(m.column(ci)[q] < m.column(ci)[p]);
                    } else {
                        assert(m.column(ci)[p] < m.column(ci)[q]);
                    }
                }
                lemma_last_value_single(col, i, j as int, p);
            } else {
                if stores(col, i, j as int) {
                    let k = choose|k: int| 0 <= k < col.len() && #[trigger] col[k].low() == i && col[k].high() == j;
                }
            }
        }
        assert forall|k: int| 0 <= k < all.len() implies {
            &&& (#[trigger] all[k]).low() < c
            &&& m.column(all[k].low() as int).contains(all[k].high())
        } by {
            if k < prev.len() {
                assert(all[k] == prev[k]);
            } else {
                let p = k - prev.len();
                assert(all[k] == col[p]);
                assert(m.column(ci)[p] == col[p].high());
            }
        }
    }
}

} // verus!
