//! Sparse row-major count matrices.
use vstd::prelude::*;

verus! {

/// Value at column `c` of a sparse row of (column, count) entries.
pub open spec fn row_value(row: Seq<(usize, usize)>, c: usize) -> nat
    decreases row.len(),
{
    if row.len() == 0 {
        0
    } else if row.last().0 == c {
        row.last().1 as nat
    } else {
        row_value(row.drop_last(), c)
    }
}

/// Columns below `n_cols`, each at most once, counts positive.
pub open spec fn row_wf(row: Seq<(usize, usize)>, n_cols: nat) -> bool {
    &&& forall|p: int| 0 <= p < row.len() ==> (#[trigger] row[p]).0 < n_cols && row[p].1 > 0
    &&& forall|p: int, q: int| 0 <= p < q < row.len() ==> (#[trigger] row[p]).0 != (#[trigger] row[q]).0
}

/// A sparse row-major matrix of token counts.
pub struct CountMatrix {
    pub rows: Vec<Vec<(usize, usize)>>,
    pub n_cols: usize,
}

pub proof fn lemma_row_absent(row: Seq<(usize, usize)>, c: usize)
    requires
        forall|p: int| 0 <= p < row.len() ==> (#[trigger] row[p]).0 != c,
    ensures
        row_value(row, c) == 0,
    decreases row.len(),
{
    if row.len() > 0 {
        assert(row.last() == row[row.len() - 1]);
        let d = row.drop_last();
        assert forall|p: int| 0 <= p < d.len() implies (#[trigger] d[p]).0 != c by {
            assert(d[p] == row[p]);
        }
        lemma_row_absent(d, c);
    }
}

/// Setting the count of an entry changes only that column's value.
pub proof fn lemma_row_update(row: Seq<(usize, usize)>, n: nat, p: int, v: usize, c: usize)
    requires
        row_wf(row, n),
        0 <= p < row.len(),
    ensures
        row_value(row, row[p].0) == row[p].1,
        row_value(row.update(p, (row[p].0, v)), c) == if c == row[p].0 { v as nat } else { row_value(row, c) },
    decreases row.len(),
{
    let u = row.update(p, (row[p].0, v));
    assert(row.last() == row[row.len() - 1]);
    if p == row.len() - 1 {
        assert(u.drop_last() =~= row.drop_last());
        let d = row.drop_last();
        assert forall|q: int| 0 <= q < d.len() implies (#[trigger] d[q]).0 != row[p].0 by {
            assert(d[q] == row[q]);
        }
        lemma_row_absent(d, row[p].0);
    } else {
        let d = row.drop_last();
        assert(u.drop_last() =~= d.update(p, (row[p].0, v)));
        assert(row_wf(d, n)) by {
            assert forall|q: int| 0 <= q < d.len() implies (#[trigger] d[q]).0 < n && d[q].1 > 0 by {
                assert(d[q] == row[q]);
            }
            assert forall|q: int, r: int| 0 <= q < r < d.len() implies (#[trigger] d[q]).0 != (#[trigger] d[r]).0 by {
                assert(d[q] == row[q]);
                assert(d[r] == row[r]);
            }
        }
        assert(d[p] == row[p]);
        lemma_row_update(d, n, p, v, c);
        lemma_row_update(d, n, p, v, row[p].0);
        assert(u.last() == row.last());
    }
}

fn copy_row(row: &Vec<(usize, usize)>) -> (r: Vec<(usize, usize)>)
    ensures
        r@ == row@,
{
    let mut r: Vec<(usize, usize)> = Vec::new();
    let mut i: usize = 0;
    while i < row.len()
        invariant
            i <= row.len(),
            r@ == row@.take(i as int),
        decreases row.len() - i,
    {
        r.push(row[i]);
        i = i + 1;
        assert(r@ =~= row@.take(i as int));
    }
    assert(r@ =~= row@);
    r
}

impl CountMatrix {
    /// Every row is well formed for the matrix's column count.
    pub open spec fn wf(&self) -> bool {
        forall|i: int| 0 <= i < self.rows.len() ==> row_wf(#[trigger] self.rows@[i]@, self.n_cols as nat)
    }

    pub fn n_rows(&self) -> (r: usize)
        ensures
            r == self.rows.len(),
    {
        self.rows.len()
    }

    /// The count at row `row`, column `col`.
    pub fn get(&self, row: usize, col: usize) -> (r: usize)
        requires
            row < self.rows.len(),
        ensures
            r == row_value(self.rows@[row as int]@, col),
    {
        let entries = &self.rows[row];
        assert(entries@ == self.rows@[row as int]@);
        let mut i: usize = entries.len();
        assert(entries@.take(i as int) =~= entries@);
        while i > 0
            invariant
                i <= entries.len(),
                row < self.rows.len(),
                entries@ == self.rows@[row as int]@,
                row_value(entries@, col) == row_value(entries@.take(i as int), col),
            decreases i,
        {
            let ghost t = entries@.take(i as int);
            assert(t.drop_last() =~= entries@.take(i as int - 1));
            assert(t.last() == entries@[i - 1]);
            if entries[i - 1].0 == col {
                assert(row_value(t, col) == t.last().1);
                return entries[i - 1].1;
            }
            i = i - 1;
        }
        0
    }

    /// Number of stored (non-zero) entries.
    pub fn nnz(&self) -> (r: u64)
        ensures
            r as int == if nnz_of(self.rows@.map_values(|v: Vec<(usize, usize)>| v@.len())) <= u64::MAX {
                nnz_of(self.rows@.map_values(|v: Vec<(usize, usize)>| v@.len()))
            } else {
                u64::MAX as nat
            },
    {
        let ghost lens = self.rows@.map_values(|v: Vec<(usize, usize)>| v@.len());
        let mut total: u64 = 0;
        let mut i: usize = 0;
        while i < self.rows.len()
            invariant
                i <= self.rows.len(),
                lens == self.rows@.map_values(|v: Vec<(usize, usize)>| v@.len()),
                total as int == if nnz_of(lens.take(i as int)) <= u64::MAX { nnz_of(lens.take(i as int)) } else { u64::MAX as nat },
            decreases self.rows.len() - i,
        {
            assert(lens.take(i as int + 1).drop_last() =~= lens.take(i as int));
            total = total.saturating_add(self.rows[i].len() as u64);
            i = i + 1;
        }
        assert(lens.take(i as int) =~= lens);
        total
    }

    /// The rows at the given indices, in the order given, over the same columns.
    pub fn select_rows(&self, rows: &Vec<usize>) -> (r: CountMatrix)
        requires
            forall|i: int| 0 <= i < rows.len() ==> rows[i] < self.rows.len(),
        ensures
            r.n_cols == self.n_cols,
            r.rows.len() == rows.len(),
            forall|i: int| 0 <= i < rows.len() ==> (#[trigger] r.rows@[i])@ == self.rows@[rows[i] as int]@,
            self.wf() ==> r.wf(),
    {
        let mut out: Vec<Vec<(usize, usize)>> = Vec::new();
        let mut i: usize = 0;
        while i < rows.len()
            invariant
                i <= rows.len(),
                forall|j: int| 0 <= j < rows.len() ==> rows[j] < self.rows.len(),
                out.len() == i,
                forall|j: int| 0 <= j < i ==> (#[trigger] out@[j])@ == self.rows@[rows[j] as int]@,
            decreases rows.len() - i,
        {
            out.push(copy_row(&self.rows[rows[i]]));
            i = i + 1;
        }
        let r = CountMatrix { rows: out, n_cols: self.n_cols };
        assert(self.wf() ==> r.wf()) by {
            if self.wf() {
                assert forall|i: int| 0 <= i < r.rows.len() implies row_wf(#[trigger] r.rows@[i]@, r.n_cols as nat) by {
                    assert(row_wf(self.rows@[rows[i] as int]@, self.n_cols as nat));
                }
            }
        }
        r
    }
}

/// Sum of a sequence of lengths.
pub open spec fn nnz_of(lens: Seq<nat>) -> nat
    decreases lens.len(),
{
    if lens.len() == 0 { 0 } else { nnz_of(lens.drop_last()) + lens.last() }
}

} // verus!
