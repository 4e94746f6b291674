//! Dense matrices over a field, stored row by row; the row reduction that
//! turns them into rank oracles lives with the field arithmetic.
use vstd::prelude::*;
use vstd::std_specs::cmp::PartialEqSpec;

verus! {

/// A `rows × cols` matrix, entry `(i, j)` at index `i * cols + j`.
pub struct DynMatrix<E> {
    rows: usize,
    cols: usize,
    data: Vec<E>,
}

/// Entry `(i, j)` of a row-major layout with `cols` columns.
pub open spec fn at<E>(data: Seq<E>, cols: nat, i: int, j: int) -> E {
    data[i * cols + j]
}

impl<E: Copy + PartialEq + From<u8>> DynMatrix<E> {
    pub closed spec fn spec_rows(&self) -> nat {
        self.rows as nat
    }

    pub closed spec fn spec_cols(&self) -> nat {
        self.cols as nat
    }

    /// Entry `(i, j)`.
    pub closed spec fn entry(&self, i: int, j: int) -> E {
        at(self.data@, self.cols as nat, i, j)
    }

    pub closed spec fn wf(&self) -> bool {
        self.data@.len() == self.rows * self.cols
    }

    /// Row `i` holds an entry different from `zero`.
    pub open spec fn row_nonzero(&self, i: int, zero: E) -> bool {
        exists|j: int| 0 <= j < self.spec_cols() && !#[trigger] self.entry(i, j).eq_spec(&zero)
    }

    /// Row `k` of `r` is row `kept[k]` of `self`, in increasing order; where
    /// `==` on `E` behaves as `eq_spec` says, the kept rows are exactly those
    /// with an entry different from `zero`.
    pub open spec fn keeps_rows(&self, r: Self, kept: Seq<int>, zero: E) -> bool {
        &&& kept.len() == r.spec_rows()
        &&& forall|a: int, b: int| 0 <= a < b < kept.len() ==> kept[a] < kept[b]
        &&& forall|k: int| 0 <= k < kept.len() ==> 0 <= #[trigger] kept[k] < self.spec_rows()
        &&& forall|k: int, j: int|
            0 <= k < kept.len() && 0 <= j < self.spec_cols() ==> #[trigger] r.entry(k, j)
                == self.entry(kept[k], j)
        &&& (E::obeys_eq_spec() ==> forall|i: int|
            0 <= i < self.spec_rows() ==> (self.row_nonzero(i, zero) <==> kept.contains(i)))
    }

    /// A `rows × cols` matrix with every entry `E::from(0)`.
    pub fn new(rows: usize, cols: usize) -> (r: Self)
        requires
            rows * cols <= usize::MAX,
        ensures
            r.wf(),
            r.spec_rows() == rows,
            r.spec_cols() == cols,
    {
        let mut data: Vec<E> = Vec::new();
        let total = rows * cols;
        let mut k: usize = 0;
        while k < total
            invariant
                k <= total,
                data@.len() == k,
            decreases total - k,
        {
            data.push(E::from(0u8));
            k = k + 1;
        }
        DynMatrix { rows, cols, data }
    }

    /// The number of rows.
    pub fn num_rows(&self) -> (r: usize)
        ensures
            r == self.spec_rows(),
    {
        self.rows
    }

    /// The number of columns.
    pub fn num_cols(&self) -> (r: usize)
        ensures
            r == self.spec_cols(),
    {
        self.cols
    }

    /// Entry `(i, j)`.
    pub fn get(&self, i: usize, j: usize) -> (r: E)
        requires
            self.wf(),
            i < self.spec_rows(),
            j < self.spec_cols(),
        ensures
            r == self.entry(i as int, j as int),
    {
        let len = self.data.len();
        proof {
            lemma_index_in_range(i as int, j as int, self.rows as int, self.cols as int);
            assert(i * self.cols + j < len);
            assert(i * self.cols <= i * self.cols + j);
        }
        self.data[i * self.cols + j]
    }

    /// Sets entry `(i, j)` to `value`.
    pub fn set(&mut self, i: usize, j: usize, value: E)
        requires
            old(self).wf(),
            i < old(self).spec_rows(),
            j < old(self).spec_cols(),
        ensures
            final(self).wf(),
            final(self).spec_rows() == old(self).spec_rows(),
            final(self).spec_cols() == old(self).spec_cols(),
            final(self).entry(i as int, j as int) == value,
            forall|a: int, b: int|
                0 <= a < old(self).spec_rows() && 0 <= b < old(self).spec_cols() && (a != i || b
                    != j) ==> #[trigger] final(self).entry(a, b) == old(self).entry(a, b),
    {
        let len = self.data.len();
        proof {
            lemma_index_in_range(i as int, j as int, self.rows as int, self.cols as int);
            assert(i * self.cols + j < len);
            assert(i * self.cols <= i * self.cols + j);
        }
        let idx = i * self.cols + j;
        self.data.set(idx, value);
        proof {
            assert forall|a: int, b: int|
                0 <= a < old(self).spec_rows() && 0 <= b < old(self).spec_cols() && (a != i || b
                    != j) implies #[trigger] self.entry(a, b) == old(self).entry(a, b) by {
                lemma_index_distinct(a, b, i as int, j as int, self.cols as int);
                lemma_index_in_range(a, b, self.rows as int, self.cols as int);
            }
        }
    }

    /// The matrix whose rows are `rows`; `None` when they differ in length.
    pub fn from_rows(rows: &[&[E]]) -> (r: Option<Self>)
        requires
            rows@.len() > 0,
            rows@.len() * rows@[0]@.len() <= usize::MAX,
        ensures
            r is Some <==> forall|i: int| 0 <= i < rows@.len() ==> #[trigger] rows@[i]@.len()
                == rows@[0]@.len(),
            r matches Some(m) ==> {
                &&& m.wf()
                &&& m.spec_rows() == rows@.len()
                &&& m.spec_cols() == rows@[0]@.len()
                &&& forall|i: int, j: int|
                    0 <= i < rows@.len() && 0 <= j < rows@[0]@.len() ==> #[trigger] m.entry(i, j)
                        == rows@[i]@[j]
            },
    {
        let nrows = rows.len();
        let cols = rows[0].len();
        let mut data: Vec<E> = Vec::new();
        let mut i: usize = 0;
        while i < nrows
            invariant
                nrows == rows@.len(),
                cols == rows@[0]@.len(),
                nrows * cols <= usize::MAX,
                i <= nrows,
                data@.len() == i * cols,
                forall|a: int| 0 <= a < i ==> #[trigger] rows@[a]@.len() == cols,
                forall|a: int, b: int|
                    0 <= a < i && 0 <= b < cols ==> #[trigger] at(data@, cols as nat, a, b)
                        == rows@[a]@[b],
            decreases nrows - i,
        {
            let row = rows[i];
            if row.len() != cols {
                return None;
            }
            let mut j: usize = 0;
            proof {
                lemma_mul_le(i as int, nrows as int, cols as int);
            }
            while j < cols
                invariant
                    nrows == rows@.len(),
                    cols == rows@[0]@.len(),
                    i < nrows,
                    row@ == rows@[i as int]@,
                    row@.len() == cols,
                    j <= cols,
                    data@.len() == i * cols + j,
                    forall|a: int, b: int|
                        0 <= a < i && 0 <= b < cols ==> #[trigger] at(data@, cols as nat, a, b)
                            == rows@[a]@[b],
                    forall|b: int| 0 <= b < j ==> #[trigger] data@[i * cols + b] == rows@[i as int]@[b],
                decreases cols - j,
            {
                let ghost before = data@;
                data.push(row[j]);
                proof {
                    lemma_prefix_stable(before, data@, cols as nat, i as int);
                }
                j = j + 1;
            }
            proof {
                assert forall|a: int, b: int|
                    0 <= a < i + 1 && 0 <= b < cols implies #[trigger] at(data@, cols as nat, a, b)
                    == rows@[a]@[b] by {
                    if a < i {
                        lemma_index_in_range(a, b, i as int, cols as int);
                    }
                }
                assert((i + 1) * cols == i * cols + cols) by (nonlinear_arith);
            }
            i = i + 1;
        }
        Some(DynMatrix { rows: nrows, cols, data })
    }

    /// The matrix whose columns are `columns`; `None` when they differ in
    /// length.
    pub fn from_columns(columns: &[&[E]]) -> (r: Option<Self>)
        requires
            columns@.len() > 0,
            columns@.len() * columns@[0]@.len() <= usize::MAX,
        ensures
            r is Some <==> forall|j: int| 0 <= j < columns@.len() ==> #[trigger] columns@[j]@.len()
                == columns@[0]@.len(),
            r matches Some(m) ==> {
                &&& m.wf()
                &&& m.spec_rows() == columns@[0]@.len()
                &&& m.spec_cols() == columns@.len()
                &&& forall|i: int, j: int|
                    0 <= i < columns@[0]@.len() && 0 <= j < columns@.len() ==> #[trigger] m.entry(
                        i,
                        j,
                    ) == columns@[j]@[i]
            },
    {
        let ncols = columns.len();
        let rows = columns[0].len();
        let mut j: usize = 0;
        while j < ncols
            invariant
                ncols == columns@.len(),
                rows == columns@[0]@.len(),
                j <= ncols,
                forall|b: int| 0 <= b < j ==> #[trigger] columns@[b]@.len() == rows,
            decreases ncols - j,
        {
            if columns[j].len() != rows {
                return None;
            }
            j = j + 1;
        }
        let mut data: Vec<E> = Vec::new();
        let mut i: usize = 0;
        while i < rows
            invariant
                ncols == columns@.len(),
                rows == columns@[0]@.len(),
                ncols * rows <= usize::MAX,
                forall|b: int| 0 <= b < ncols ==> #[trigger] columns@[b]@.len() == rows,
                i <= rows,
                data@.len() == i * ncols,
                forall|a: int, b: int|
                    0 <= a < i && 0 <= b < ncols ==> #[trigger] at(data@, ncols as nat, a, b)
                        == columns@[b]@[a],
            decreases rows - i,
        {
            let mut j: usize = 0;
            proof {
                lemma_mul_le(i as int, rows as int, ncols as int);
                assert(rows * ncols == ncols * rows) by (nonlinear_arith);
            }
            while j < ncols
                invariant
                    ncols == columns@.len(),
                    rows == columns@[0]@.len(),
                    forall|b: int| 0 <= b < ncols ==> #[trigger] columns@[b]@.len() == rows,
                    i < rows,
                    j <= ncols,
                    data@.len() == i * ncols + j,
                    forall|a: int, b: int|
                        0 <= a < i && 0 <= b < ncols ==> #[trigger] at(data@, ncols as nat, a, b)
                            == columns@[b]@[a],
                    forall|b: int| 0 <= b < j ==> #[trigger] data@[i * ncols + b] == columns@[b]@[i as int],
                decreases ncols - j,
            {
                let column = columns[j];
                let ghost before = data@;
                data.push(column[i]);
                proof {
                    lemma_prefix_stable(before, data@, ncols as nat, i as int);
                }
                j = j + 1;
            }
            proof {
                assert forall|a: int, b: int|
                    0 <= a < i + 1 && 0 <= b < ncols implies #[trigger] at(data@, ncols as nat, a, b)
                    == columns@[b]@[a] by {
                    if a < i {
                        lemma_index_in_range(a, b, i as int, ncols as int);
                    }
                }
                assert((i + 1) * ncols == i * ncols + ncols) by (nonlinear_arith);
            }
            i = i + 1;
        }
        proof {
            assert(rows * ncols == ncols * rows) by (nonlinear_arith);
        }
        Some(DynMatrix { rows, cols: ncols, data })
    }

    /// The same matrix without its rows of zeros, in order: row `k` of the
    /// result is row `kept[k]` of `self`, and where `==` on `E` behaves as
    /// `eq_spec` says, the kept rows are exactly those
    /// with an entry different from `E::from(0)`.
    pub fn remove_zero_rows(&self) -> (r: Self)
        requires
            self.wf(),
        ensures
            r.wf(),
            r.spec_cols() == self.spec_cols(),
            r.spec_rows() <= self.spec_rows(),
            exists|kept: Seq<int>, zero: E| #[trigger] self.keeps_rows(r, kept, zero),
    {
        let zero = E::from(0u8);
        let cols = self.cols;
        let mut data: Vec<E> = Vec::new();
        let mut out_rows: usize = 0;
        let ghost mut kept: Seq<int> = Seq::empty();
        let mut i: usize = 0;
        while i < self.rows
            invariant
                self.wf(),
                cols == self.cols,
                i <= self.rows,
                out_rows <= i,
                kept.len() == out_rows,
                data@.len() == out_rows * cols,
                forall|a: int, b: int| 0 <= a < b < kept.len() ==> kept[a] < kept[b],
                forall|k: int| 0 <= k < kept.len() ==> 0 <= #[trigger] kept[k] < i,
                forall|k: int, j: int|
                    0 <= k < kept.len() && 0 <= j < cols ==> #[trigger] at(data@, cols as nat, k, j)
                        == self.entry(kept[k], j),
                E::obeys_eq_spec() ==> forall|a: int|
                    0 <= a < i ==> (self.row_nonzero(a, zero) <==> kept.contains(a)),
            decreases self.rows - i,
        {
            let mut nonzero = false;
            let mut j: usize = 0;
            while j < cols
                invariant
                    self.wf(),
                    cols == self.cols,
                    i < self.rows,
                    j <= cols,
                    E::obeys_eq_spec() ==> (nonzero <==> exists|b: int|
                        0 <= b < j && !#[trigger] self.entry(i as int, b).eq_spec(&zero)),
                decreases cols - j,
            {
                if self.get(i, j) != zero {
                    nonzero = true;
                }
                j = j + 1;
            }
            if nonzero {
                let mut j: usize = 0;
                proof {
                    lemma_mul_le(out_rows as int, self.rows as int, cols as int);
                }
                while j < cols
                    invariant
                        self.wf(),
                        cols == self.cols,
                        i < self.rows,
                        out_rows <= i,
                        kept.len() == out_rows,
                        j <= cols,
                        data@.len() == out_rows * cols + j,
                        forall|k: int, b: int|
                            0 <= k < kept.len() && 0 <= b < cols ==> #[trigger] at(
                                data@,
                                cols as nat,
                                k,
                                b,
                            ) == self.entry(kept[k], b),
                        forall|b: int| 0 <= b < j ==> #[trigger] data@[out_rows * cols + b] == self.entry(i as int, b),
                    decreases cols - j,
                {
                    let ghost before = data@;
                    data.push(self.get(i, j));
                    proof {
                        lemma_prefix_stable(before, data@, cols as nat, out_rows as int);
                    }
                    j = j + 1;
                }
                proof {
                    let old_kept = kept;
                    kept = kept.push(i as int);
                    assert forall|k: int, b: int|
                        0 <= k < kept.len() && 0 <= b < cols implies #[trigger] at(data@, cols as nat, k, b)
                        == self.entry(kept[k], b) by {
                        if k < old_kept.len() {
                            lemma_index_in_range(k, b, out_rows as int, cols as int);
                        }
                    }
                    assert((out_rows + 1) * cols == out_rows * cols + cols) by (nonlinear_arith);
                    if E::obeys_eq_spec() {
                        assert forall|a: int| 0 <= a < i + 1 implies (self.row_nonzero(a, zero) <==> kept.contains(a)) by {
                            if a < i {
                                if old_kept.contains(a) {
                                    let k = choose|k: int| 0 <= k < old_kept.len() && old_kept[k] == a;
                                    assert(kept[k] == a);
                                }
                                if kept.contains(a) {
                                    let k = choose|k: int| 0 <= k < kept.len() && kept[k] == a;
                                    assert(k < old_kept.len());
                                    assert(old_kept[k] == a);
                                }
                            } else {
                                assert(kept[kept.len() - 1] == a);
                            }
                        }
                    }
                }
                out_rows = out_rows + 1;
            } else {
                proof {
                    if E::obeys_eq_spec() {
                        assert forall|a: int| 0 <= a < i + 1 implies (self.row_nonzero(a, zero) <==> kept.contains(a)) by {
                            if a == i {
                                if kept.contains(a) {
                                    let k = choose|k: int| 0 <= k < kept.len() && kept[k] == a;
                                }
                            }
                        }
                    }
                }
            }
            i = i + 1;
        }
        let r = DynMatrix { rows: out_rows, cols, data };
        proof {
            assert(self.keeps_rows(r, kept, zero));
        }
        r
    }
}

/// Appending past the first `i` rows leaves them unchanged.
proof fn lemma_prefix_stable<E>(before: Seq<E>, after: Seq<E>, cols: nat, i: int)
    requires
        0 <= i,
        before.len() >= i * cols,
        after.len() == before.len() + 1,
        forall|k: int| 0 <= k < before.len() ==> after[k] == before[k],
    ensures
        forall|a: int, b: int|
            0 <= a < i && 0 <= b < cols ==> #[trigger] at(after, cols, a, b) == at(before, cols, a, b),
{
    assert forall|a: int, b: int| 0 <= a < i && 0 <= b < cols implies #[trigger] at(after, cols, a, b)
        == at(before, cols, a, b) by {
        lemma_index_in_range(a, b, i, cols as int);
    }
}

proof fn lemma_index_in_range(i: int, j: int, rows: int, cols: int)
    requires
        0 <= i < rows,
        0 <= j < cols,
    ensures
        0 <= i * cols + j < rows * cols,
{
    assert(i * cols + j < rows * cols) by (nonlinear_arith)
        requires
            0 <= i < rows,
            0 <= j < cols,
    ;
    assert(0 <= i * cols) by (nonlinear_arith)
        requires
            0 <= i,
            0 <= cols,
    ;
}

proof fn lemma_index_distinct(a: int, b: int, i: int, j: int, cols: int)
    requires
        0 <= b < cols,
        0 <= j < cols,
        a != i || b != j,
    ensures
        a * cols + b != i * cols + j,
{
    if a == i {
    } else {
        assert(a * cols + b != i * cols + j) by (nonlinear_arith)
            requires
                0 <= b < cols,
                0 <= j < cols,
                a != i,
        ;
    }
}

proof fn lemma_mul_le(i: int, rows: int, cols: int)
    requires
        0 <= i <= rows,
        0 <= cols,
    ensures
        i * cols <= rows * cols,
        (i + 1) * cols == i * cols + cols,
{
    assert(i * cols <= rows * cols) by (nonlinear_arith)
        requires
            0 <= i <= rows,
            0 <= cols,
    ;
    assert((i + 1) * cols == i * cols + cols) by (nonlinear_arith);
}

} // verus!
