//! Compressed row-sparse matrices with interned scalar values.
//!
//! A [`SparseMatrix`] keeps, for every row, its nonzero columns in strictly
//! ascending order.  The view `@` abstracts the storage as one map per row
//! from column index to interned handle; [`hydrate`](SparseMatrix::hydrate)
//! pairs a matrix with an [`Interner`] so the entries can be read as field
//! elements.

use crate::errors::Error;
use crate::field::{fadd, fmul, in_field, vals, FieldElement};
use crate::interner::{InternedFieldElement, Interner};
use vstd::prelude::*;

verus! {

/// Row-sparse storage: `new_row_indices[r]` is the offset of row `r`'s first
/// entry in the parallel `col_indices` / `values` arrays.
#[derive(Clone, Debug)]
pub struct SparseMatrix {
    num_rows: usize,
    num_cols: usize,
    new_row_indices: Vec<u32>,
    col_indices: Vec<u32>,
    values: Vec<InternedFieldElement>,
}

impl View for SparseMatrix {
    type V = Seq<Map<int, InternedFieldElement>>;

    /// One map per row, from column index to interned handle.
    closed spec fn view(&self) -> Seq<Map<int, InternedFieldElement>> {
        Seq::new(self.num_rows as nat, |r: int| self.row_map(r))
    }
}

impl SparseMatrix {
    /// The declared number of columns.
    pub closed spec fn cols(&self) -> nat {
        self.num_cols as nat
    }

    /// The number of stored entries.
    pub closed spec fn entry_count(&self) -> nat {
        self.values@.len()
    }

    spec fn row_lo(&self, r: int) -> int {
        self.new_row_indices@[r] as int
    }

    spec fn row_hi(&self, r: int) -> int {
        if r + 1 < self.num_rows {
            self.new_row_indices@[r + 1] as int
        } else {
            self.values@.len() as int
        }
    }

    spec fn row_has(&self, r: int, c: int) -> bool {
        exists|k: int|
            self.row_lo(r) <= k < self.row_hi(r) && self.col_indices@[k] as int == c
    }

    spec fn row_at(&self, r: int, c: int) -> InternedFieldElement {
        self.values@[choose|k: int|
            self.row_lo(r) <= k < self.row_hi(r) && self.col_indices@[k] as int == c]
    }

    spec fn row_map(&self, r: int) -> Map<int, InternedFieldElement> {
        Map::new(|c: int| self.row_has(r, c), |c: int| self.row_at(r, c))
    }

    /// Structural well-formedness: parallel arrays consistent, row ranges
    /// nested and contiguous, columns strictly ascending and in range.
    pub closed spec fn wf(&self) -> bool {
        &&& self.new_row_indices@.len() == self.num_rows
        &&& self.col_indices@.len() == self.values@.len()
        &&& (self.num_rows as int) * (self.num_cols as int) < u32::MAX as int
        &&& (self.num_rows == 0 ==> self.values@.len() == 0)
        &&& (self.num_rows > 0 ==> self.new_row_indices@[0] == 0)
        &&& forall|r: int|
            0 <= r < self.num_rows ==> 0 <= #[trigger] self.row_lo(r) <= self.row_hi(r)
                <= self.values@.len()
        &&& forall|r: int, k1: int, k2: int|
            #![trigger self.row_lo(r), self.col_indices@[k1], self.col_indices@[k2]]
            0 <= r < self.num_rows && self.row_lo(r) <= k1 < k2 < self.row_hi(r)
                ==> self.col_indices@[k1] < self.col_indices@[k2]
        &&& forall|r: int, k: int|
            #![trigger self.row_lo(r), self.col_indices@[k]]
            0 <= r < self.num_rows && self.row_lo(r) <= k < self.row_hi(r)
                ==> (self.col_indices@[k] as int) < self.num_cols as int
    }

    /// Any entry index inside a row's range witnesses the row map.
    proof fn lemma_entry_in_map(&self, r: int, k: int)
        requires
            self.wf(),
            0 <= r < self@.len(),
            self.row_lo(r) <= k < self.row_hi(r),
        ensures
            self@[r].dom().contains(self.col_indices@[k] as int),
            self@[r][self.col_indices@[k] as int] == self.values@[k],
    {
        let c = self.col_indices@[k] as int;
        assert(self.row_has(r, c));
        let k2 = choose|k2: int|
            self.row_lo(r) <= k2 < self.row_hi(r) && self.col_indices@[k2] as int == c;
        if k2 != k {
            if k2 < k {
                assert(self.col_indices@[k2] < self.col_indices@[k]);
            } else {
                assert(self.col_indices@[k] < self.col_indices@[k2]);
            }
        }
    }

    /// Row starts never exceed `row * num_cols`: the entry arrays cannot
    /// outgrow the matrix shape.
    proof fn lemma_row_lo_bound(&self, r: int)
        requires
            self.wf(),
            0 <= r < self.num_rows,
        ensures
            self.row_lo(r) <= r * (self.num_cols as int),
        decreases r,
    {
        if r == 0 {
            assert(self.row_lo(0) == 0);
        } else {
            self.lemma_row_lo_bound(r - 1);
            self.lemma_row_len_bound(r - 1);
            assert((r - 1) * (self.num_cols as int) + self.num_cols as int
                == r * (self.num_cols as int)) by (nonlinear_arith);
        }
    }

    /// A row with strictly ascending columns below `num_cols` holds at most
    /// `num_cols` entries.
    proof fn lemma_row_len_bound(&self, r: int)
        requires
            self.wf(),
            0 <= r < self.num_rows,
        ensures
            self.row_hi(r) - self.row_lo(r) <= self.num_cols as int,
    {
        let lo = self.row_lo(r);
        let hi = self.row_hi(r);
        if hi - lo > self.num_cols as int {
            self.lemma_col_ge_offset(r, lo + self.num_cols as int);
        }
    }

    /// In a strictly ascending row, the `j`-th column is at least `j`.
    proof fn lemma_col_ge_offset(&self, r: int, k: int)
        requires
            self.wf(),
            0 <= r < self.num_rows,
            self.row_lo(r) <= k < self.row_hi(r),
        ensures
            self.col_indices@[k] as int >= k - self.row_lo(r),
        decreases k,
    {
        if k > self.row_lo(r) {
            self.lemma_col_ge_offset(r, k - 1);
        }
    }

    /// The stored entries never exceed the matrix shape.
    proof fn lemma_entry_capacity(&self)
        requires
            self.wf(),
        ensures
            self.values@.len() <= (self.num_rows as int) * (self.num_cols as int),
    {
        if self.num_rows > 0 {
            let r = self.num_rows - 1;
            self.lemma_row_lo_bound(r as int);
            self.lemma_row_len_bound(r as int);
            assert((self.num_rows - 1) * (self.num_cols as int) + self.num_cols as int
                == (self.num_rows as int) * (self.num_cols as int)) by (nonlinear_arith);
        }
    }

    /// A matrix of the given shape with no entries.
    pub fn new(rows: usize, cols: usize) -> (r: Self)
        requires
            (rows as int) * (cols as int) < u32::MAX as int,
        ensures
            r.wf(),
            r@.len() == rows,
            r.cols() == cols,
            r.entry_count() == 0,
            forall|i: int| 0 <= i < rows ==> r@[i] =~= Map::<int, InternedFieldElement>::empty(),
    {
        let mut new_row_indices: Vec<u32> = Vec::new();
        let mut i: usize = 0;
        while i < rows
            invariant
                i <= rows,
                new_row_indices@.len() == i,
                forall|j: int| 0 <= j < i ==> new_row_indices@[j] == 0,
            decreases rows - i,
        {
            new_row_indices.push(0);
            i += 1;
        }
        let m = SparseMatrix {
            num_rows: rows,
            num_cols: cols,
            new_row_indices,
            col_indices: Vec::new(),
            values: Vec::new(),
        };
        proof {
            assert forall|i: int| 0 <= i < rows implies m@[i]
                =~= Map::<int, InternedFieldElement>::empty() by {
                assert(forall|c: int| !m.row_has(i, c));
            }
        }
        m
    }

    /// The number of stored entries.
    pub fn num_entries(&self) -> (r: usize)
        ensures
            r == self.entry_count(),
    {
        self.values.len()
    }

    /// The number of rows.
    pub fn rows(&self) -> (r: usize)
        ensures
            r == self@.len(),
    {
        self.num_rows
    }

    /// The number of columns.
    pub fn num_columns(&self) -> (r: usize)
        ensures
            r == self.cols(),
    {
        self.num_cols
    }

    /// Monotonically enlarge the matrix.  Shrinking either dimension fails
    /// with [`Error::DimensionMismatch`] and leaves the matrix unchanged.
    pub fn grow(&mut self, rows: usize, cols: usize) -> (res: Result<(), Error>)
        requires
            old(self).wf(),
            (rows as int) * (cols as int) < u32::MAX as int,
        ensures
            final(self).wf(),
            final(self).entry_count() == old(self).entry_count(),
            match res {
                Ok(()) => {
                    &&& rows >= old(self)@.len() && cols >= old(self).cols()
                    &&& final(self)@.len() == rows
                    &&& final(self).cols() == cols
                    &&& forall|i: int| 0 <= i < old(self)@.len() ==> final(self)@[i] == old(self)@[i]
                    &&& forall|i: int|
                        old(self)@.len() <= i < rows ==> final(self)@[i]
                            =~= Map::<int, InternedFieldElement>::empty()
                },
                Err(e) => {
                    &&& e == Error::DimensionMismatch
                    &&& (rows < old(self)@.len() || cols < old(self).cols())
                    &&& *final(self) == *old(self)
                },
            },
    {
        if rows < self.num_rows || cols < self.num_cols {
            return Err(Error::DimensionMismatch);
        }
        let ghost old_self = *self;
        proof {
            self.lemma_entry_capacity();
        }
        let fill = self.values.len() as u32;
        let mut i = self.new_row_indices.len();
        while i < rows
            invariant
                old_self.num_rows <= i <= rows,
                self.new_row_indices@.len() == i,
                self.num_rows == old_self.num_rows,
                self.num_cols == old_self.num_cols,
                self.col_indices == old_self.col_indices,
                self.values == old_self.values,
                fill == old_self.values@.len(),
                forall|j: int|
                    0 <= j < old_self.num_rows ==> self.new_row_indices@[j]
                        == old_self.new_row_indices@[j],
                forall|j: int| old_self.num_rows <= j < i ==> self.new_row_indices@[j] == fill,
            decreases rows - i,
        {
            self.new_row_indices.push(fill);
            i += 1;
        }
        self.num_rows = rows;
        self.num_cols = cols;
        proof {
            self.lemma_grow_view(old_self, rows as int, cols as int);
        }
        Ok(())
    }

    /// After enlarging, old rows keep their maps and new rows are empty.
    proof fn lemma_grow_view(&self, old_self: Self, rows: int, cols: int)
        requires
            old_self.wf(),
            self.num_rows == rows,
            self.num_cols == cols,
            rows >= old_self.num_rows,
            cols >= old_self.num_cols,
            rows * cols < u32::MAX as int,
            self.new_row_indices@.len() == rows,
            self.col_indices == old_self.col_indices,
            self.values == old_self.values,
            forall|j: int|
                0 <= j < old_self.num_rows ==> self.new_row_indices@[j]
                    == old_self.new_row_indices@[j],
            forall|j: int|
                old_self.num_rows <= j < rows ==> self.new_row_indices@[j]
                    == old_self.values@.len(),
        ensures
            self.wf(),
            forall|i: int| 0 <= i < old_self.num_rows ==> self@[i] == old_self@[i],
            forall|i: int|
                old_self.num_rows <= i < rows ==> self@[i]
                    =~= Map::<int, InternedFieldElement>::empty(),
    {
        assert forall|r: int| 0 <= r < rows implies 0 <= #[trigger] self.row_lo(r)
            <= self.row_hi(r) <= self.values@.len() by {
            if r < old_self.num_rows {
                assert(old_self.row_lo(r) <= old_self.row_hi(r));
            }
        }
        assert forall|r: int, k1: int, k2: int|
            #![trigger self.row_lo(r), self.col_indices@[k1], self.col_indices@[k2]]
            0 <= r < self.num_rows && self.row_lo(r) <= k1 < k2 < self.row_hi(r) implies
            self.col_indices@[k1] < self.col_indices@[k2] by {
            if r < old_self.num_rows {
                old_self.lemma_row_sorted(r);
            }
        }
        assert forall|r: int, k: int|
            #![trigger self.row_lo(r), self.col_indices@[k]]
            0 <= r < self.num_rows && self.row_lo(r) <= k < self.row_hi(r) implies (
            self.col_indices@[k] as int) < self.num_cols as int by {
            if r < old_self.num_rows {
                assert(old_self.row_lo(r) <= k < old_self.row_hi(r));
            }
        }
        assert(self.wf());
        assert forall|i: int| 0 <= i < old_self.num_rows implies self@[i] == old_self@[i] by {
            assert(self.row_lo(i) == old_self.row_lo(i));
            assert(self.row_hi(i) == old_self.row_hi(i));
            assert(forall|c: int| self.row_has(i, c) == old_self.row_has(i, c));
            assert(self@[i] =~= old_self@[i]);
        }
        assert forall|i: int| old_self.num_rows <= i < rows implies self@[i]
            =~= Map::<int, InternedFieldElement>::empty() by {
            assert(forall|c: int| !self.row_has(i, c));
        }
    }

    /// The half-open range of entry offsets belonging to `row`.
    fn row_range(&self, row: usize) -> (r: (usize, usize))
        requires
            self.wf(),
            row < self@.len(),
        ensures
            r.0 == self.row_lo(row as int),
            r.1 == self.row_hi(row as int),
            r.0 <= r.1 <= self.entry_count(),
    {
        proof {
            assert(0 <= self.row_lo(row as int) <= self.row_hi(row as int)
                <= self.values@.len());
        }
        let lo = self.new_row_indices[row] as usize;
        let hi = if row + 1 < self.num_rows {
            self.new_row_indices[row + 1] as usize
        } else {
            self.values.len()
        };
        (lo, hi)
    }

    /// The handle stored at `(row, col)`, if any.
    pub fn get(&self, row: usize, col: usize) -> (r: Option<InternedFieldElement>)
        requires
            self.wf(),
            row < self@.len(),
        ensures
            match r {
                Some(v) => self@[row as int].dom().contains(col as int)
                    && v == self@[row as int][col as int],
                None => !self@[row as int].dom().contains(col as int),
            },
    {
        let (lo, hi) = self.row_range(row);
        proof {
            self.lemma_row_sorted(row as int);
        }
        let i = self.lower_bound(lo, hi, col);
        if i < hi && self.col_indices[i] as usize == col {
            proof {
                self.lemma_entry_in_map(row as int, i as int);
            }
            Some(self.values[i])
        } else {
            proof {
                if self.row_has(row as int, col as int) {
                    let k = choose|k: int|
                        self.row_lo(row as int) <= k < self.row_hi(row as int)
                            && self.col_indices@[k] as int == col as int;
                    assert(false);
                }
            }
            None
        }
    }

    /// First offset in `[lo, hi)` whose column is at least `col`.
    fn lower_bound(&self, lo: usize, hi: usize, col: usize) -> (i: usize)
        requires
            self.wf(),
            lo <= hi <= self.entry_count(),
            forall|k1: int, k2: int|
                lo <= k1 < k2 < hi ==> self.col_indices@[k1] < self.col_indices@[k2],
        ensures
            lo <= i <= hi,
            forall|k: int| lo <= k < i ==> (self.col_indices@[k] as int) < col as int,
            forall|k: int| i <= k < hi ==> (self.col_indices@[k] as int) >= col as int,
    {
        let mut l = lo;
        let mut h = hi;
        while l < h
            invariant
                lo <= l <= h <= hi <= self.col_indices@.len(),
                forall|k1: int, k2: int|
                    lo <= k1 < k2 < hi ==> self.col_indices@[k1] < self.col_indices@[k2],
                forall|k: int| lo <= k < l ==> (self.col_indices@[k] as int) < col as int,
                forall|k: int| h <= k < hi ==> (self.col_indices@[k] as int) >= col as int,
            decreases h - l,
        {
            let mid = l + (h - l) / 2;
            if (self.col_indices[mid] as usize) < col {
                proof {
                    assert forall|k: int| lo <= k < mid + 1 implies (self.col_indices@[k] as int)
                        < col as int by {
                        if k < mid {
                            assert(self.col_indices@[k] < self.col_indices@[mid as int]);
                        }
                    }
                }
                l = mid + 1;
            } else {
                proof {
                    assert forall|k: int| mid <= k < hi implies (self.col_indices@[k] as int)
                        >= col as int by {
                        if k > mid {
                            assert(self.col_indices@[mid as int] < self.col_indices@[k]);
                        }
                    }
                }
                h = mid;
            }
        }
        l
    }

    /// Set the entry at `(row, col)`, overwriting any previous handle there.
    /// Out-of-range coordinates fail with [`Error::IndexOutOfBounds`] and
    /// leave the matrix unchanged.
    pub fn set(&mut self, row: usize, col: usize, value: InternedFieldElement) -> (res: Result<
        (),
        Error,
    >)
        requires
            old(self).wf(),
        ensures
            final(self).wf(),
            match res {
                Ok(()) => {
                    &&& row < old(self)@.len() && col < old(self).cols()
                    &&& final(self)@ =~= old(self)@.update(
                        row as int,
                        old(self)@[row as int].insert(col as int, value),
                    )
                    &&& final(self)@.len() == old(self)@.len()
                    &&& final(self).cols() == old(self).cols()
                    &&& final(self).entry_count() == old(self).entry_count() + (
                    if old(self)@[row as int].dom().contains(col as int) {
                        0int
                    } else {
                        1int
                    })
                },
                Err(e) => {
                    &&& e == Error::IndexOutOfBounds
                    &&& (row >= old(self)@.len() || col >= old(self).cols())
                    &&& *final(self) == *old(self)
                },
            },
    {
        if row >= self.num_rows || col >= self.num_cols {
            return Err(Error::IndexOutOfBounds);
        }
        let ghost old_self = *self;
        let (lo, hi) = self.row_range(row);
        proof {
            self.lemma_row_sorted(row as int);
        }
        let i = self.lower_bound(lo, hi, col);
        if i < hi && self.col_indices[i] as usize == col {
            proof {
                old_self.lemma_entry_in_map(row as int, i as int);
            }
            self.values[i] = value;
            proof {
                self.lemma_set_overwrite_view(old_self, row as int, col as int, value, i as int);
            }
        } else {
            proof {
                self.lemma_entry_capacity();
                if old_self.row_has(row as int, col as int) {
                    let k = choose|k: int|
                        old_self.row_lo(row as int) <= k < old_self.row_hi(row as int)
                            && old_self.col_indices@[k] as int == col as int;
                    assert(false);
                }
            }
            self.col_indices.insert(i, col as u32);
            self.values.insert(i, value);
            let mut j = row + 1;
            while j < self.num_rows
                invariant
                    row + 1 <= j <= self.num_rows,
                    self.num_rows == old_self.num_rows,
                    self.num_cols == old_self.num_cols,
                    self.new_row_indices@.len() == old_self.num_rows,
                    self.col_indices@ == old_self.col_indices@.insert(i as int, col as u32),
                    self.values@ == old_self.values@.insert(i as int, value),
                    old_self.values@.len() < u32::MAX,
                    forall|k: int|
                        0 <= k < j && k != row + 1 ==> self.new_row_indices@[k] as int == (if k
                            <= row {
                            old_self.new_row_indices@[k] as int
                        } else {
                            old_self.new_row_indices@[k] as int + 1
                        }),
                    forall|k: int|
                        j <= k < old_self.num_rows ==> self.new_row_indices@[k]
                            == old_self.new_row_indices@[k],
                    forall|k: int|
                        row + 1 <= k < j ==> self.new_row_indices@[k] as int
                            == old_self.new_row_indices@[k] as int + 1,
                    old_self.wf(),
                    forall|k: int|
                        0 <= k < old_self.num_rows ==> #[trigger] old_self.row_lo(k)
                            <= old_self.values@.len(),
                decreases self.num_rows - j,
            {
                let cur = self.new_row_indices[j];
                proof {
                    assert(cur == old_self.row_lo(j as int));
                }
                self.new_row_indices[j] = cur + 1;
                j += 1;
            }
            proof {
                self.lemma_set_insert_view(old_self, row as int, col as int, value, i as int);
            }
        }
        Ok(())
    }

    /// Overwriting an existing column updates exactly that map entry.
    proof fn lemma_set_overwrite_view(
        &self,
        old_self: Self,
        row: int,
        col: int,
        value: InternedFieldElement,
        i: int,
    )
        requires
            old_self.wf(),
            0 <= row < old_self.num_rows,
            0 <= col < old_self.num_cols,
            old_self.row_lo(row) <= i < old_self.row_hi(row),
            old_self.col_indices@[i] as int == col,
            self.num_rows == old_self.num_rows,
            self.num_cols == old_self.num_cols,
            self.new_row_indices == old_self.new_row_indices,
            self.col_indices == old_self.col_indices,
            self.values@ == old_self.values@.update(i, value),
        ensures
            self.wf(),
            self@ =~= old_self@.update(row, old_self@[row].insert(col, value)),
    {
        assert(self.values@.len() == old_self.values@.len());
        assert(self.new_row_indices@ == old_self.new_row_indices@);
        assert(self.col_indices@ == old_self.col_indices@);
        assert forall|r: int| 0 <= r < self.num_rows implies 0 <= #[trigger] self.row_lo(r)
            <= self.row_hi(r) <= self.values@.len() by {
            assert(0 <= old_self.row_lo(r) <= old_self.row_hi(r) <= old_self.values@.len());
        }
        assert forall|r: int, k1: int, k2: int|
            #![trigger self.row_lo(r), self.col_indices@[k1], self.col_indices@[k2]]
            0 <= r < self.num_rows && self.row_lo(r) <= k1 < k2 < self.row_hi(r) implies
            self.col_indices@[k1] < self.col_indices@[k2] by {
            old_self.lemma_row_sorted(r);
        }
        assert forall|r: int, k: int|
            #![trigger self.row_lo(r), self.col_indices@[k]]
            0 <= r < self.num_rows && self.row_lo(r) <= k < self.row_hi(r) implies (
            self.col_indices@[k] as int) < self.num_cols as int by {
            assert(old_self.row_lo(r) <= k < old_self.row_hi(r));
        }
        assert(self.wf());
        old_self.lemma_entry_in_map(row, i);
        assert forall|r: int| 0 <= r < self.num_rows implies self@[r] =~= (if r == row {
            old_self@[row].insert(col, value)
        } else {
            old_self@[r]
        }) by {
            assert(self.row_lo(r) == old_self.row_lo(r));
            assert(self.row_hi(r) == old_self.row_hi(r));
            assert(forall|c: int| self.row_has(r, c) == old_self.row_has(r, c));
            assert forall|c: int| self.row_has(r, c) implies self@[r][c] == (if r == row && c
                == col {
                value
            } else {
                old_self@[r][c]
            }) by {
                let k = choose|k: int|
                    self.row_lo(r) <= k < self.row_hi(r) && self.col_indices@[k] as int == c;
                self.lemma_entry_in_map(r, k);
                old_self.lemma_entry_in_map(r, k);
                if r == row && c == col {
                    if k != i {
                        self.lemma_row_sorted(row);
                        if k < i {
                            assert(self.col_indices@[k] < self.col_indices@[i]);
                        } else {
                            assert(self.col_indices@[i] < self.col_indices@[k]);
                        }
                    }
                } else {
                    if k == i {
                        if r == row {
                            assert(c == col);
                        } else {
                            if r < row {
                                self.lemma_lo_monotone(r + 1, row);
                                assert(self.row_hi(r) <= self.row_lo(row));
                            } else {
                                self.lemma_lo_monotone(row + 1, r);
                                assert(self.row_hi(row) <= self.row_lo(r));
                            }
                            assert(false);
                        }
                    }
                }
            }
        }
    }

    /// Row ranges of distinct rows are disjoint: starts are monotone.
    proof fn lemma_lo_monotone(&self, r1: int, r2: int)
        requires
            self.wf(),
            0 <= r1 <= r2 < self.num_rows,
        ensures
            self.row_lo(r1) <= self.row_lo(r2),
        decreases r2 - r1,
    {
        if r1 < r2 {
            self.lemma_lo_monotone(r1 + 1, r2);
            assert(self.row_lo(r1) <= self.row_hi(r1));
        }
    }

    /// The columns of one row are strictly ascending.
    proof fn lemma_row_sorted(&self, r: int)
        requires
            self.wf(),
            0 <= r < self.num_rows,
        ensures
            forall|k1: int, k2: int|
                self.row_lo(r) <= k1 < k2 < self.row_hi(r) ==> self.col_indices@[k1]
                    < self.col_indices@[k2],
    {
        assert forall|k1: int, k2: int|
            self.row_lo(r) <= k1 < k2 < self.row_hi(r) implies self.col_indices@[k1]
            < self.col_indices@[k2] by {
            assert(0 <= r < self.num_rows && self.row_lo(r) <= k1 < k2 < self.row_hi(r));
        }
    }

    /// Inserting a fresh column shifts the arrays and adds one map entry.
    #[verifier::rlimit(60)]
    proof fn lemma_set_insert_view(
        &self,
        old_self: Self,
        row: int,
        col: int,
        value: InternedFieldElement,
        i: int,
    )
        requires
            old_self.wf(),
            0 <= row < old_self.num_rows,
            0 <= col < old_self.num_cols,
            old_self.row_lo(row) <= i <= old_self.row_hi(row),
            forall|k: int|
                old_self.row_lo(row) <= k < i ==> (old_self.col_indices@[k] as int) < col,
            forall|k: int|
                i <= k < old_self.row_hi(row) ==> (old_self.col_indices@[k] as int) > col,
            self.num_rows == old_self.num_rows,
            self.num_cols == old_self.num_cols,
            self.new_row_indices@.len() == old_self.num_rows,
            forall|k: int|
                0 <= k <= row ==> self.new_row_indices@[k] == old_self.new_row_indices@[k],
            forall|k: int|
                row < k < old_self.num_rows ==> self.new_row_indices@[k] as int
                    == old_self.new_row_indices@[k] as int + 1,
            self.col_indices@ == old_self.col_indices@.insert(i, col as u32),
            self.values@ == old_self.values@.insert(i, value),
        ensures
            self.wf(),
            self@ =~= old_self@.update(row, old_self@[row].insert(col, value)),
    {
        assert(old_self.num_cols < u32::MAX) by (nonlinear_arith)
            requires
                1 <= old_self.num_rows as int,
                0 <= old_self.num_cols as int,
                (old_self.num_rows as int) * (old_self.num_cols as int) < u32::MAX as int,
        ;
        assert((col as u32) as int == col);
        assert(self.values@.len() == old_self.values@.len() + 1);
        assert(self.col_indices@.len() == old_self.col_indices@.len() + 1);
        // Position facts: entries before i unchanged, entry at i fresh,
        // entries after i shifted by one.
        assert(forall|k: int| 0 <= k < i ==> self.col_indices@[k] == old_self.col_indices@[k]);
        assert(self.col_indices@[i] == col as u32);
        assert(forall|k: int|
            i < k < self.col_indices@.len() ==> self.col_indices@[k]
                == old_self.col_indices@[k - 1]);
        assert(forall|k: int| 0 <= k < i ==> self.values@[k] == old_self.values@[k]);
        assert(self.values@[i] == value);
        assert(forall|k: int|
            i < k < self.values@.len() ==> self.values@[k] == old_self.values@[k - 1]);
        // Row ranges: rows before and including `row` keep their start;
        // `row`'s end and all later rows shift by one.
        assert forall|r: int| 0 <= r < self.num_rows implies #[trigger] self.row_lo(r) == (if r
            <= row {
            old_self.row_lo(r)
        } else {
            old_self.row_lo(r) + 1
        }) && self.row_hi(r) == (if r < row {
            old_self.row_hi(r)
        } else {
            old_self.row_hi(r) + 1
        }) by {}
        // The old row ranges other than `row` lie entirely below i or at/above i.
        assert forall|r: int| 0 <= r < self.num_rows && r != row implies (if r < row {
            old_self.row_hi(r) <= i
        } else {
            old_self.row_lo(r) >= i
        }) by {
            if r < row {
                old_self.lemma_lo_monotone(r + 1, row);
            } else {
                old_self.lemma_lo_monotone(row + 1, r);
            }
        }
        // wf is preserved.
        assert forall|r: int, k1: int, k2: int|
            #![trigger self.row_lo(r), self.col_indices@[k1], self.col_indices@[k2]]
            0 <= r < self.num_rows && self.row_lo(r) <= k1 < k2 < self.row_hi(r) implies
            self.col_indices@[k1] < self.col_indices@[k2] by {
            if r == row {
                let olo = old_self.row_lo(row);
                let ohi = old_self.row_hi(row);
                if k1 == i {
                    assert(self.col_indices@[k2] == old_self.col_indices@[k2 - 1]);
                    assert(olo <= k2 - 1 < ohi);
                    assert((old_self.col_indices@[k2 - 1] as int) > col);
                } else if k2 == i {
                    assert(self.col_indices@[k1] == old_self.col_indices@[k1]);
                    assert(olo <= k1 < i);
                    assert((old_self.col_indices@[k1] as int) < col);
                } else {
                    let ko1 = if k1 < i { k1 } else { k1 - 1 };
                    let ko2 = if k2 < i { k2 } else { k2 - 1 };
                    assert(olo <= ko1 < ko2 < ohi);
                    assert(old_self.col_indices@[ko1] < old_self.col_indices@[ko2]);
                }
            } else if r < row {
                old_self.lemma_lo_monotone(r + 1, row);
                assert(old_self.row_hi(r) <= i);
                old_self.lemma_row_sorted(r);
                assert(self.col_indices@[k1] == old_self.col_indices@[k1]);
                assert(self.col_indices@[k2] == old_self.col_indices@[k2]);
                assert(old_self.col_indices@[k1] < old_self.col_indices@[k2]);
            } else {
                old_self.lemma_lo_monotone(row + 1, r);
                assert(old_self.row_lo(r) >= i);
                old_self.lemma_row_sorted(r);
                assert(self.col_indices@[k1] == old_self.col_indices@[k1 - 1]);
                assert(self.col_indices@[k2] == old_self.col_indices@[k2 - 1]);
                assert(old_self.col_indices@[k1 - 1] < old_self.col_indices@[k2 - 1]);
            }
        }
        assert forall|r: int, k: int|
            #![trigger self.row_lo(r), self.col_indices@[k]]
            0 <= r < self.num_rows && self.row_lo(r) <= k < self.row_hi(r) implies (
            self.col_indices@[k] as int) < self.num_cols as int by {}
        assert(self.wf());
        // View correspondence.
        assert forall|r: int| 0 <= r < self.num_rows implies self@[r] =~= (if r == row {
            old_self@[row].insert(col, value)
        } else {
            old_self@[r]
        }) by {
            if r == row {
                assert forall|c: int| self.row_has(row, c) implies (c == col
                    || old_self.row_has(row, c)) && self@[row][c] == (if c == col {
                    value
                } else {
                    old_self@[row][c]
                }) by {
                    let k = choose|k: int|
                        self.row_lo(row) <= k < self.row_hi(row) && self.col_indices@[k] as int
                            == c;
                    self.lemma_entry_in_map(row, k);
                    if k == i {
                        assert(c == col);
                    } else {
                        let ko = if k < i { k } else { k - 1 };
                        assert(old_self.col_indices@[ko] as int == c);
                        old_self.lemma_entry_in_map(row, ko);
                        assert(old_self.row_has(row, c));
                    }
                }
                assert forall|c: int| old_self.row_has(row, c) implies self.row_has(row, c) by {
                    let ko = choose|ko: int|
                        old_self.row_lo(row) <= ko < old_self.row_hi(row)
                            && old_self.col_indices@[ko] as int == c;
                    let k = if ko < i { ko } else { ko + 1 };
                    assert(self.col_indices@[k] as int == c);
                    assert(self.row_lo(row) <= k < self.row_hi(row));
                }
                assert(self.row_has(row, col)) by {
                    assert(self.col_indices@[i] as int == col);
                    assert(self.row_lo(row) <= i < self.row_hi(row));
                }
            } else {
                assert forall|c: int| self.row_has(r, c) implies old_self.row_has(r, c)
                    && self@[r][c] == old_self@[r][c] by {
                    let k = choose|k: int|
                        self.row_lo(r) <= k < self.row_hi(r) && self.col_indices@[k] as int == c;
                    self.lemma_entry_in_map(r, k);
                    let ko = if r < row { k } else { k - 1 };
                    assert(old_self.col_indices@[ko] as int == c);
                    old_self.lemma_entry_in_map(r, ko);
                }
                assert forall|c: int| old_self.row_has(r, c) implies self.row_has(r, c) by {
                    let ko = choose|ko: int|
                        old_self.row_lo(r) <= ko < old_self.row_hi(r)
                            && old_self.col_indices@[ko] as int == c;
                    let k = if r < row { ko } else { ko + 1 };
                    assert(self.col_indices@[k] as int == c);
                    assert(self.row_lo(r) <= k < self.row_hi(r));
                }
            }
        }
    }

    /// The `(column, handle)` pairs of one row, in strictly ascending column
    /// order; exactly the entries of the row's map.
    /// Every stored column index of a well-formed matrix is in range.
    pub proof fn lemma_dom_in_range(&self)
        requires
            self.wf(),
        ensures
            self@.len() <= usize::MAX,
            self.cols() <= usize::MAX,
            forall|i: int, c: int|
                0 <= i < self@.len() && #[trigger] self@[i].dom().contains(c) ==> 0 <= c
                    < self.cols(),
    {
        assert forall|i: int, c: int|
            0 <= i < self@.len() && #[trigger] self@[i].dom().contains(c) implies 0 <= c
            < self.cols() by {
            assert(self.row_has(i, c));
            let k = choose|k: int|
                self.row_lo(i) <= k < self.row_hi(i) && self.col_indices@[k] as int == c;
            assert(self.row_lo(i) <= k < self.row_hi(i));
            assert((self.col_indices@[k] as int) < self.num_cols as int);
        }
    }

    pub fn iter_row(&self, row: usize) -> (r: Vec<(usize, InternedFieldElement)>)
        requires
            self.wf(),
            row < self@.len(),
        ensures
            forall|a: int, b: int| 0 <= a < b < r@.len() ==> r@[a].0 < r@[b].0,
            forall|a: int|
                0 <= a < r@.len() ==> self@[row as int].dom().contains(#[trigger] r@[a].0 as int)
                    && self@[row as int][r@[a].0 as int] == r@[a].1,
            forall|c: int|
                self@[row as int].dom().contains(c) ==> exists|a: int|
                    0 <= a < r@.len() && #[trigger] r@[a].0 as int == c,
            forall|a: int| 0 <= a < r@.len() ==> (#[trigger] r@[a].0 as int) < self.cols(),
    {
        let (lo, hi) = self.row_range(row);
        let mut out: Vec<(usize, InternedFieldElement)> = Vec::new();
        let mut k = lo;
        while k < hi
            invariant
                lo <= k <= hi,
                self.wf(),
                row < self@.len(),
                lo == self.row_lo(row as int),
                hi == self.row_hi(row as int),
                hi <= self.col_indices@.len() == self.values@.len(),
                out@.len() == k - lo,
                forall|a: int|
                    0 <= a < out@.len() ==> out@[a] == (
                    self.col_indices@[lo + a] as usize,
                    self.values@[lo + a],
                ),
            decreases hi - k,
        {
            out.push((self.col_indices[k] as usize, self.values[k]));
            k += 1;
        }
        proof {
            assert forall|a: int| 0 <= a < out@.len() implies self@[row as int].dom().contains(
                #[trigger] out@[a].0 as int,
            ) && self@[row as int][out@[a].0 as int] == out@[a].1 && (out@[a].0 as int)
                < self.cols() by {
                self.lemma_entry_in_map(row as int, lo + a);
            }
            assert forall|c: int| self@[row as int].dom().contains(c) implies exists|a: int|
                0 <= a < out@.len() && #[trigger] out@[a].0 as int == c by {
                let k2 = choose|k2: int|
                    self.row_lo(row as int) <= k2 < self.row_hi(row as int)
                        && self.col_indices@[k2] as int == c;
                assert(out@[k2 - lo].0 as int == c);
            }
        }
        out
    }

    /// All `((row, column), handle)` triples in row-major, column-ascending
    /// order.
    pub fn iter(&self) -> (r: Vec<((usize, usize), InternedFieldElement)>)
        requires
            self.wf(),
        ensures
            forall|a: int, b: int|
                0 <= a < b < r@.len() ==> (r@[a].0.0 < r@[b].0.0 || (r@[a].0.0 == r@[b].0.0
                    && r@[a].0.1 < r@[b].0.1)),
            forall|a: int|
                0 <= a < r@.len() ==> (#[trigger] r@[a].0.0 as int) < self@.len()
                    && self@[r@[a].0.0 as int].dom().contains(r@[a].0.1 as int)
                    && self@[r@[a].0.0 as int][r@[a].0.1 as int] == r@[a].1
                    && (r@[a].0.1 as int) < self.cols(),
            forall|i: int, c: int|
                0 <= i < self@.len() && self@[i].dom().contains(c) ==> exists|a: int|
                    0 <= a < r@.len() && #[trigger] r@[a].0 == ((i as usize, c as usize)),
    {
        let mut out: Vec<((usize, usize), InternedFieldElement)> = Vec::new();
        let mut row: usize = 0;
        while row < self.num_rows
            invariant
                row <= self@.len(),
                self.wf(),
                self.num_rows == self@.len(),
                forall|a: int, b: int|
                    0 <= a < b < out@.len() ==> (out@[a].0.0 < out@[b].0.0 || (out@[a].0.0
                        == out@[b].0.0 && out@[a].0.1 < out@[b].0.1)),
                forall|a: int|
                    0 <= a < out@.len() ==> (#[trigger] out@[a].0.0 as int) < row
                        && self@[out@[a].0.0 as int].dom().contains(out@[a].0.1 as int)
                        && self@[out@[a].0.0 as int][out@[a].0.1 as int] == out@[a].1
                        && (out@[a].0.1 as int) < self.cols(),
                forall|i: int, c: int|
                    0 <= i < row && self@[i].dom().contains(c) ==> exists|a: int|
                        0 <= a < out@.len() && #[trigger] out@[a].0 == ((i as usize, c as usize)),
            decreases self@.len() - row,
        {
            let row_entries = self.iter_row(row);
            let mut t: usize = 0;
            let ghost out_before = out@;
            while t < row_entries.len()
                invariant
                    t <= row_entries@.len(),
                    row < self@.len(),
                    out@.len() == out_before.len() + t,
                    forall|a: int| 0 <= a < out_before.len() ==> out@[a] == out_before[a],
                    forall|a: int, b: int|
                        0 <= a < b < out_before.len() ==> (out_before[a].0.0 < out_before[b].0.0
                            || (out_before[a].0.0 == out_before[b].0.0 && out_before[a].0.1
                            < out_before[b].0.1)),
                    forall|a: int|
                        0 <= a < out_before.len() ==> (#[trigger] out_before[a].0.0 as int) < row
                            && self@[out_before[a].0.0 as int].dom().contains(
                            out_before[a].0.1 as int,
                        ) && self@[out_before[a].0.0 as int][out_before[a].0.1 as int]
                            == out_before[a].1 && (out_before[a].0.1 as int) < self.cols(),
                    forall|i2: int, c: int|
                        0 <= i2 < row && self@[i2].dom().contains(c) ==> exists|a: int|
                            0 <= a < out_before.len() && #[trigger] out_before[a].0 == ((
                            i2 as usize,
                            c as usize,
                        )),
                    forall|a: int|
                        out_before.len() <= a < out@.len() ==> out@[a] == (
                        (row, row_entries@[a - out_before.len()].0),
                        row_entries@[a - out_before.len()].1,
                    ),
                    forall|a: int, b: int|
                        0 <= a < b < row_entries@.len() ==> row_entries@[a].0
                            < row_entries@[b].0,
                decreases row_entries@.len() - t,
            {
                out.push(((row, row_entries[t].0), row_entries[t].1));
                t += 1;
            }
            proof {
                assert forall|a: int, b: int| 0 <= a < b < out@.len() implies (out@[a].0.0
                    < out@[b].0.0 || (out@[a].0.0 == out@[b].0.0 && out@[a].0.1
                    < out@[b].0.1)) by {
                    let n0 = out_before.len() as int;
                    if b >= n0 {
                        assert(out@[b].0.0 == row);
                        if a >= n0 {
                            assert(row_entries@[a - n0].0 < row_entries@[b - n0].0);
                        } else {
                            assert(out@[a] == out_before[a]);
                            assert((out_before[a].0.0 as int) < row);
                        }
                    } else {
                        assert(out@[a] == out_before[a]);
                        assert(out@[b] == out_before[b]);
                        assert(out_before[a].0.0 < out_before[b].0.0 || (out_before[a].0.0
                            == out_before[b].0.0 && out_before[a].0.1 < out_before[b].0.1));
                    }
                }
                assert forall|a: int| 0 <= a < out@.len() implies (#[trigger] out@[a].0.0 as int)
                    < row + 1 && self@[out@[a].0.0 as int].dom().contains(out@[a].0.1 as int)
                    && self@[out@[a].0.0 as int][out@[a].0.1 as int] == out@[a].1
                    && (out@[a].0.1 as int) < self.cols() by {
                    let n0 = out_before.len() as int;
                    if a >= n0 {
                        assert(out@[a].0.0 == row);
                        assert(out@[a].0.1 == row_entries@[a - n0].0);
                        assert(self@[row as int].dom().contains(row_entries@[a - n0].0 as int));
                    } else {
                        assert(out@[a] == out_before[a]);
                        assert((out_before[a].0.0 as int) < row
                            && self@[out_before[a].0.0 as int].dom().contains(
                            out_before[a].0.1 as int,
                        ) && self@[out_before[a].0.0 as int][out_before[a].0.1 as int]
                            == out_before[a].1 && (out_before[a].0.1 as int) < self.cols());
                    }
                }
                assert forall|i: int, c: int|
                    0 <= i < row + 1 && self@[i].dom().contains(c) implies exists|a: int|
                    0 <= a < out@.len() && #[trigger] out@[a].0 == ((i as usize, c as usize)) by {
                    if i < row {
                        let a = choose|a: int|
                            0 <= a < out_before.len() && #[trigger] out_before[a].0 == ((
                            i as usize,
                            c as usize,
                            ));
                        assert(out@[a] == out_before[a]);
                        assert(out@[a].0 == ((i as usize, c as usize)));
                    } else {
                        let a = choose|a: int|
                            0 <= a < row_entries@.len() && #[trigger] row_entries@[a].0 as int
                                == c;
                        assert(out@[out_before.len() + a].0 == ((i as usize, c as usize)));
                    }
                }
            }
            row += 1;
        }
        out
    }

    /// Pair the matrix with the interner resolving its handles.
    pub fn hydrate<'a>(&'a self, interner: &'a Interner) -> (r: HydratedSparseMatrix<'a>)
        ensures
            r.matrix == self,
            r.interner == interner,
    {
        HydratedSparseMatrix { matrix: self, interner }
    }
}

/// A sparse matrix together with the interner that resolves its handles.
#[derive(Clone, Copy)]
pub struct HydratedSparseMatrix<'a> {
    /// The underlying matrix of interned handles.
    pub matrix: &'a SparseMatrix,
    /// The value store behind the handles.
    pub interner: &'a Interner,
}

impl<'a> HydratedSparseMatrix<'a> {
    /// Every handle stored in the matrix resolves in the interner.
    pub open spec fn compatible(self) -> bool {
        compat(*self.matrix, *self.interner)
    }

    /// The residue at `(r, c)`, zero where no entry is stored.
    pub open spec fn entry_or_zero(self, r: int, c: int) -> int {
        if self.matrix@[r].dom().contains(c) {
            self.interner@[self.matrix@[r][c] as int]
        } else {
            0
        }
    }

    /// The `(column, residue)` pairs of one row, in strictly ascending column
    /// order.
    pub fn iter_row(&self, row: usize) -> (r: Vec<(usize, FieldElement)>)
        requires
            self.matrix.wf(),
            row < self.matrix@.len(),
            self.compatible(),
        ensures
            forall|a: int, b: int| 0 <= a < b < r@.len() ==> r@[a].0 < r@[b].0,
            forall|a: int|
                0 <= a < r@.len() ==> self.matrix@[row as int].dom().contains(
                    #[trigger] r@[a].0 as int,
                ) && r@[a].1@ == self.entry_or_zero(row as int, r@[a].0 as int),
            forall|c: int|
                self.matrix@[row as int].dom().contains(c) ==> exists|a: int|
                    0 <= a < r@.len() && #[trigger] r@[a].0 as int == c,
    {
        let raw = self.matrix.iter_row(row);
        let mut out: Vec<(usize, FieldElement)> = Vec::new();
        let mut k: usize = 0;
        while k < raw.len()
            invariant
                k <= raw@.len(),
                out@.len() == k,
                row < self.matrix@.len(),
                self.compatible(),
                forall|a: int, b: int| 0 <= a < b < raw@.len() ==> raw@[a].0 < raw@[b].0,
                forall|a: int|
                    0 <= a < raw@.len() ==> self.matrix@[row as int].dom().contains(
                        #[trigger] raw@[a].0 as int,
                    ) && self.matrix@[row as int][raw@[a].0 as int] == raw@[a].1,
                forall|c: int|
                    self.matrix@[row as int].dom().contains(c) ==> exists|a: int|
                        0 <= a < raw@.len() && #[trigger] raw@[a].0 as int == c,
                forall|a: int|
                    0 <= a < out@.len() ==> out@[a].0 == raw@[a].0 && out@[a].1@
                        == self.entry_or_zero(row as int, raw@[a].0 as int),
            decreases raw@.len() - k,
        {
            let (c, h) = raw[k];
            match self.interner.get(h) {
                Some(v) => {
                    out.push((c, v));
                },
                None => {
                    proof {
                        assert(false);
                    }
                },
            }
            k += 1;
        }
        proof {
            assert forall|c: int| self.matrix@[row as int].dom().contains(c) implies exists|a: int|
                0 <= a < out@.len() && #[trigger] out@[a].0 as int == c by {
                let a = choose|a: int| 0 <= a < raw@.len() && #[trigger] raw@[a].0 as int == c;
                assert(out@[a].0 as int == c);
            }
        }
        out
    }

    /// All `((row, column), residue)` triples in row-major order.
    pub fn iter(&self) -> (r: Vec<((usize, usize), FieldElement)>)
        requires
            self.matrix.wf(),
            self.compatible(),
        ensures
            forall|a: int, b: int|
                0 <= a < b < r@.len() ==> (r@[a].0.0 < r@[b].0.0 || (r@[a].0.0 == r@[b].0.0
                    && r@[a].0.1 < r@[b].0.1)),
            forall|a: int|
                0 <= a < r@.len() ==> (#[trigger] r@[a].0.0 as int) < self.matrix@.len()
                    && self.matrix@[r@[a].0.0 as int].dom().contains(r@[a].0.1 as int)
                    && r@[a].1@ == self.entry_or_zero(r@[a].0.0 as int, r@[a].0.1 as int)
                    && (r@[a].0.1 as int) < self.matrix.cols(),
            forall|i: int, c: int|
                0 <= i < self.matrix@.len() && self.matrix@[i].dom().contains(c) ==> exists|a: int|
                    0 <= a < r@.len() && #[trigger] r@[a].0 == ((i as usize, c as usize)),
    {
        let raw = self.matrix.iter();
        let mut out: Vec<((usize, usize), FieldElement)> = Vec::new();
        let mut k: usize = 0;
        while k < raw.len()
            invariant
                k <= raw@.len(),
                out@.len() == k,
                self.compatible(),
                forall|a: int, b: int|
                    0 <= a < b < raw@.len() ==> (raw@[a].0.0 < raw@[b].0.0 || (raw@[a].0.0
                        == raw@[b].0.0 && raw@[a].0.1 < raw@[b].0.1)),
                forall|a: int|
                    0 <= a < raw@.len() ==> (#[trigger] raw@[a].0.0 as int) < self.matrix@.len()
                        && self.matrix@[raw@[a].0.0 as int].dom().contains(raw@[a].0.1 as int)
                        && self.matrix@[raw@[a].0.0 as int][raw@[a].0.1 as int] == raw@[a].1,
                forall|i: int, c: int|
                    0 <= i < self.matrix@.len() && self.matrix@[i].dom().contains(c) ==> exists|
                        a: int,
                    |
                        0 <= a < raw@.len() && #[trigger] raw@[a].0 == ((i as usize, c as usize)),
                forall|a: int|
                    0 <= a < raw@.len() ==> (#[trigger] raw@[a].0.0 as int)
                        < self.matrix@.len() && (raw@[a].0.1 as int) < self.matrix.cols(),
                forall|a: int|
                    0 <= a < out@.len() ==> out@[a].0 == raw@[a].0 && out@[a].1@
                        == self.entry_or_zero(raw@[a].0.0 as int, raw@[a].0.1 as int),
            decreases raw@.len() - k,
        {
            let ((i, c), h) = raw[k];
            match self.interner.get(h) {
                Some(v) => {
                    out.push(((i, c), v));
                },
                None => {
                    proof {
                        assert(false);
                    }
                },
            }
            k += 1;
        }
        proof {
            assert forall|i: int, c: int|
                0 <= i < self.matrix@.len() && self.matrix@[i].dom().contains(c) implies exists|
                a: int,
            |
                0 <= a < out@.len() && #[trigger] out@[a].0 == ((i as usize, c as usize)) by {
                let a = choose|a: int|
                    0 <= a < raw@.len() && #[trigger] raw@[a].0 == ((i as usize, c as usize));
                assert(out@[a].0 == ((i as usize, c as usize)));
            }
        }
        out
    }
}

/// A row as a map from column to residue, the zero residue where no entry is
/// stored.
pub open spec fn entry0(row: Map<int, int>, c: int) -> int {
    if row.dom().contains(c) {
        row[c]
    } else {
        0
    }
}

/// The dot product of a residue row with the first `n` coordinates of `x`.
pub open spec fn row_dot(row: Map<int, int>, x: Seq<int>, n: int) -> int
    decreases n,
{
    if n <= 0 {
        0
    } else {
        fadd(row_dot(row, x, n - 1), fmul(entry0(row, n - 1), x[n - 1]))
    }
}

/// Dot products are reduced residues.
pub proof fn lemma_row_dot_in_field(row: Map<int, int>, x: Seq<int>, n: int)
    ensures
        in_field(row_dot(row, x, n)),
    decreases n,
{
    if n <= 0 {
        crate::field::lemma_field_closed(0, 0);
        assert(row_dot(row, x, n) == 0);
    } else {
        crate::field::lemma_field_closed(
            row_dot(row, x, n - 1),
            fmul(entry0(row, n - 1), x[n - 1]),
        );
    }
}

/// Columns without an entry do not change the dot product.
pub proof fn lemma_row_dot_skip(row: Map<int, int>, x: Seq<int>, a: int, b: int)
    requires
        0 <= a <= b,
        forall|c: int| a <= c < b ==> !row.dom().contains(c),
    ensures
        row_dot(row, x, b) == row_dot(row, x, a),
    decreases b - a,
{
    if a < b {
        lemma_row_dot_skip(row, x, a, b - 1);
        assert(entry0(row, b - 1) == 0);
        crate::field::lemma_fmul_zero(x[b - 1]);
        lemma_row_dot_in_field(row, x, b - 1);
        crate::field::lemma_fadd_zero(row_dot(row, x, b - 1));
    }
}

impl<'a> HydratedSparseMatrix<'a> {
    /// The residues of one row, as a map from column index.
    pub open spec fn hyd_row(self, r: int) -> Map<int, int> {
        hyd_row_of(*self.matrix, *self.interner, r)
    }

    /// Right multiplication by a vector: one dot product per row.
    pub fn mul_vec(&self, x: &Vec<FieldElement>) -> (r: Vec<FieldElement>)
        requires
            self.matrix.wf(),
            self.compatible(),
            x@.len() == self.matrix.cols(),
        ensures
            r@.len() == self.matrix@.len(),
            forall|i: int|
                0 <= i < r@.len() ==> r@[i]@ == row_dot(
                    self.hyd_row(i),
                    vals(x@),
                    self.matrix.cols() as int,
                ),
    {
        let rows = self.matrix.rows();
        let cols = self.matrix.num_columns();
        let mut out: Vec<FieldElement> = Vec::new();
        let mut i: usize = 0;
        while i < rows
            invariant
                i <= rows,
                rows == self.matrix@.len(),
                cols == self.matrix.cols(),
                self.matrix.wf(),
                self.compatible(),
                x@.len() == cols,
                out@.len() == i,
                forall|j: int|
                    0 <= j < i ==> out@[j]@ == row_dot(
                        self.hyd_row(j),
                        vals(x@),
                        cols as int,
                    ),
            decreases rows - i,
        {
            let v = self.row_dot_exec(i, x);
            out.push(v);
            i += 1;
        }
        out
    }

    /// The dot product of row `row` with `x`.
    fn row_dot_exec(&self, row: usize, x: &Vec<FieldElement>) -> (r: FieldElement)
        requires
            self.matrix.wf(),
            self.compatible(),
            row < self.matrix@.len(),
            x@.len() == self.matrix.cols(),
        ensures
            r@ == row_dot(self.hyd_row(row as int), vals(x@), self.matrix.cols() as int),
    {
        let ghost hrow = self.hyd_row(row as int);
        let ghost xs = vals(x@);
        let cols = self.matrix.num_columns();
        let pairs = self.iter_row(row);
        let mut acc = FieldElement::zero();
        let mut k: usize = 0;
        proof {
            let cb = if pairs@.len() > 0 {
                pairs@[0].0 as int
            } else {
                cols as int
            };
            assert forall|c: int| 0 <= c < cb implies !hrow.dom().contains(c) by {
                if self.matrix@[row as int].dom().contains(c) {
                    let a = choose|a: int|
                        0 <= a < pairs@.len() && #[trigger] pairs@[a].0 as int == c;
                    assert(pairs@[0].0 <= pairs@[a].0);
                }
            }
            lemma_row_dot_skip(hrow, xs, 0, cb);
        }
        while k < pairs.len()
            invariant
                k <= pairs@.len(),
                self.matrix.wf(),
                self.compatible(),
                row < self.matrix@.len(),
                x@.len() == self.matrix.cols(),
                cols == self.matrix.cols(),
                hrow == self.hyd_row(row as int),
                xs == vals(x@),
                forall|a: int, b: int| 0 <= a < b < pairs@.len() ==> pairs@[a].0 < pairs@[b].0,
                forall|a: int|
                    0 <= a < pairs@.len() ==> self.matrix@[row as int].dom().contains(
                        #[trigger] pairs@[a].0 as int,
                    ) && pairs@[a].1@ == self.entry_or_zero(row as int, pairs@[a].0 as int),
                forall|c: int|
                    self.matrix@[row as int].dom().contains(c) ==> exists|a: int|
                        0 <= a < pairs@.len() && #[trigger] pairs@[a].0 as int == c,
                forall|a: int| 0 <= a < pairs@.len() ==> (#[trigger] pairs@[a].0 as int) < cols,
                acc@ == row_dot(
                    hrow,
                    xs,
                    if k < pairs@.len() {
                        pairs@[k as int].0 as int
                    } else {
                        cols as int
                    },
                ),
            decreases pairs@.len() - k,
        {
            let (c, v) = pairs[k];
            acc = acc.add(v.mul(x[c]));
            proof {
                let cb = pairs@[k as int].0 as int;
                assert(hrow.dom().contains(cb));
                assert(hrow[cb] == self.entry_or_zero(row as int, cb));
                assert(entry0(hrow, cb) == v@);
                assert(xs[cb] == x@[cb]@);
                assert(acc@ == row_dot(hrow, xs, cb + 1));
                let cb2 = if k + 1 < pairs@.len() {
                    pairs@[k as int + 1].0 as int
                } else {
                    cols as int
                };
                assert forall|c2: int| cb + 1 <= c2 < cb2 implies !hrow.dom().contains(c2) by {
                    if self.matrix@[row as int].dom().contains(c2) {
                        let a = choose|a: int|
                            0 <= a < pairs@.len() && #[trigger] pairs@[a].0 as int == c2;
                        if a <= k {
                            assert(pairs@[a].0 <= pairs@[k as int].0);
                        } else {
                            assert(pairs@[k as int + 1].0 <= pairs@[a].0);
                        }
                    }
                }
                lemma_row_dot_skip(hrow, xs, cb + 1, cb2);
            }
            k += 1;
        }
        acc
    }

    /// The per-column dot product `sum over rows i < n of x[i] * m[i][c]`.
    pub open spec fn col_dot(self, x: Seq<int>, c: int, n: int) -> int {
        col_dot_of(*self.matrix, *self.interner, x, c, n)
    }

    /// Column dot products are reduced residues.
    pub proof fn lemma_col_dot_in_field(self, x: Seq<int>, c: int, n: int)
        ensures
            in_field(self.col_dot(x, c, n)),
        decreases n,
    {
        if n <= 0 {
            crate::field::lemma_field_closed(0, 0);
        } else {
            crate::field::lemma_field_closed(
                self.col_dot(x, c, n - 1),
                fmul(x[n - 1], entry0(self.hyd_row(n - 1), c)),
            );
        }
    }

    /// Left multiplication by a vector: scale each row by `x[row]` and
    /// scatter-add into a column accumulator, one row at a time.
    pub fn vec_mul(&self, x: &Vec<FieldElement>) -> (r: Vec<FieldElement>)
        requires
            self.matrix.wf(),
            self.compatible(),
            x@.len() == self.matrix@.len(),
        ensures
            r@.len() == self.matrix.cols(),
            forall|c: int|
                0 <= c < r@.len() ==> r@[c]@ == self.col_dot(
                    vals(x@),
                    c,
                    self.matrix@.len() as int,
                ),
    {
        let ghost xs = vals(x@);
        let rows = self.matrix.rows();
        let cols = self.matrix.num_columns();
        let mut acc: Vec<FieldElement> = Vec::new();
        let mut c0: usize = 0;
        while c0 < cols
            invariant
                c0 <= cols,
                acc@.len() == c0,
                forall|c: int| 0 <= c < c0 ==> acc@[c]@ == 0,
            decreases cols - c0,
        {
            acc.push(FieldElement::zero());
            c0 += 1;
        }
        proof {
            assert forall|c: int| 0 <= c < cols implies acc@[c]@ == self.col_dot(xs, c, 0) by {}
        }
        let mut i: usize = 0;
        while i < rows
            invariant
                i <= rows,
                rows == self.matrix@.len(),
                cols == self.matrix.cols(),
                self.matrix.wf(),
                self.compatible(),
                x@.len() == rows,
                xs == vals(x@),
                acc@.len() == cols,
                forall|c: int| 0 <= c < cols ==> (#[trigger] acc@[c]@) == self.col_dot(xs, c, i as int),
            decreases rows - i,
        {
            let pairs = self.iter_row(i);
            let xi = x[i];
            let ghost hrow = self.hyd_row(i as int);
            let ghost acc_start = acc@;
            let mut k: usize = 0;
            while k < pairs.len()
                invariant
                    k <= pairs@.len(),
                    i < rows,
                    rows == self.matrix@.len(),
                    cols == self.matrix.cols(),
                    self.matrix.wf(),
                    self.compatible(),
                    x@.len() == rows,
                    xs == vals(x@),
                    xi == x@[i as int],
                    hrow == self.hyd_row(i as int),
                    acc@.len() == cols,
                    forall|a: int, b: int| 0 <= a < b < pairs@.len() ==> pairs@[a].0 < pairs@[b].0,
                    forall|a: int|
                        0 <= a < pairs@.len() ==> self.matrix@[i as int].dom().contains(
                            #[trigger] pairs@[a].0 as int,
                        ) && pairs@[a].1@ == self.entry_or_zero(i as int, pairs@[a].0 as int),
                    forall|c: int|
                        self.matrix@[i as int].dom().contains(c) ==> exists|a: int|
                            0 <= a < pairs@.len() && #[trigger] pairs@[a].0 as int == c,
                    forall|a: int|
                        0 <= a < pairs@.len() ==> (#[trigger] pairs@[a].0 as int) < cols,
                    forall|a: int| 0 <= a < k ==> (#[trigger] pairs@[a].0 as int) >= 0,
                    forall|c: int|
                        0 <= c < cols ==> (#[trigger] acc@[c]@) == (
                        if hrow.dom().contains(c) && (exists|a: int|
                            0 <= a < k && #[trigger] pairs@[a].0 as int == c) {
                            fadd(self.col_dot(xs, c, i as int), fmul(xs[i as int], hrow[c]))
                        } else {
                            self.col_dot(xs, c, i as int)
                        }),
                decreases pairs@.len() - k,
            {
                let (c, v) = pairs[k];
                let cur = acc[c];
                let upd = cur.add(xi.mul(v));
                acc[c] = upd;
                proof {
                    let ci = c as int;
                    assert(hrow.dom().contains(ci));
                    assert(entry0(hrow, ci) == v@);
                    assert(upd@ == fadd(self.col_dot(xs, ci, i as int), fmul(xs[i as int], hrow[ci])));
                    assert forall|c2: int| 0 <= c2 < cols implies (#[trigger] acc@[c2]@) == (
                        if hrow.dom().contains(c2) && (exists|a: int|
                            0 <= a < k + 1 && #[trigger] pairs@[a].0 as int == c2) {
                            fadd(self.col_dot(xs, c2, i as int), fmul(xs[i as int], hrow[c2]))
                        } else {
                            self.col_dot(xs, c2, i as int)
                        }) by {
                        if c2 == ci {
                            assert(pairs@[k as int].0 as int == c2);
                        } else {
                            if exists|a: int|
                                0 <= a < k + 1 && #[trigger] pairs@[a].0 as int == c2 {
                                let a = choose|a: int|
                                    0 <= a < k + 1 && #[trigger] pairs@[a].0 as int == c2;
                                assert(a < k);
                            }
                        }
                    }
                }
                k += 1;
            }
            proof {
                assert forall|c: int| 0 <= c < cols implies (#[trigger] acc@[c]@)
                    == self.col_dot(xs, c, i as int + 1) by {
                    if hrow.dom().contains(c) {
                        let a = choose|a: int|
                            0 <= a < pairs@.len() && #[trigger] pairs@[a].0 as int == c;
                        assert(exists|a2: int|
                            0 <= a2 < pairs@.len() && #[trigger] pairs@[a2].0 as int == c);
                        assert(acc@[c]@ == fadd(
                            self.col_dot(xs, c, i as int),
                            fmul(xs[i as int], hrow[c]),
                        ));
                        assert(entry0(hrow, c) == hrow[c]);
                    } else {
                        crate::field::lemma_fmul_zero(xs[i as int]);
                        self.lemma_col_dot_in_field(xs, c, i as int);
                        crate::field::lemma_fadd_zero(self.col_dot(xs, c, i as int));
                        assert(entry0(hrow, c) == 0);
                    }
                }
            }
            i += 1;
        }
        acc
    }
}

/// The dot product of the empty row is zero.
pub proof fn lemma_row_dot_empty(x: Seq<int>, n: int)
    ensures
        row_dot(Map::<int, int>::empty(), x, n) == 0,
{
    if n > 0 {
        lemma_row_dot_skip(Map::<int, int>::empty(), x, 0, n);
    }
}

/// Inserting a fresh entry adds one product term to the dot product.
pub proof fn lemma_row_dot_insert(row: Map<int, int>, x: Seq<int>, n: int, c: int, v: int)
    requires
        !row.dom().contains(c),
        0 <= c < n,
    ensures
        row_dot(row.insert(c, v), x, n) == fadd(row_dot(row, x, n), fmul(v, x[c])),
    decreases n,
{
    let row2 = row.insert(c, v);
    if c == n - 1 {
        assert(row_dot(row2, x, n) == fadd(row_dot(row2, x, n - 1), fmul(v, x[n - 1])));
        assert(row_dot(row2, x, n - 1) == row_dot(row, x, n - 1)) by {
            lemma_row_dot_agree(row, row2, x, n - 1);
        }
        assert(entry0(row, n - 1) == 0);
        crate::field::lemma_fmul_zero(x[n - 1]);
        lemma_row_dot_in_field(row, x, n - 1);
        crate::field::lemma_fadd_zero(row_dot(row, x, n - 1));
    } else {
        lemma_row_dot_insert(row, x, n - 1, c, v);
        assert(entry0(row2, n - 1) == entry0(row, n - 1));
        // (d + vc) + t == (d + t) + vc
        crate::field::lemma_fadd_shuffle2(
            row_dot(row, x, n - 1),
            fmul(v, x[c]),
            fmul(entry0(row, n - 1), x[n - 1]),
        );
    }
}

/// Rows that agree on all columns below `n` have the same dot product.
pub proof fn lemma_row_dot_agree(r1: Map<int, int>, r2: Map<int, int>, x: Seq<int>, n: int)
    requires
        forall|c: int| 0 <= c < n ==> entry0(r1, c) == entry0(r2, c),
    ensures
        row_dot(r1, x, n) == row_dot(r2, x, n),
    decreases n,
{
    if n > 0 {
        lemma_row_dot_agree(r1, r2, x, n - 1);
    }
}

/// The dot product only reads coordinates at stored columns: extending the
/// vector beyond every stored column leaves it unchanged.
pub proof fn lemma_row_dot_extend(row: Map<int, int>, x1: Seq<int>, x2: Seq<int>, n: int)
    requires
        forall|c: int| #[trigger] row.dom().contains(c) ==> 0 <= c < x1.len(),
        x1.len() <= x2.len(),
        forall|c: int| 0 <= c < x1.len() ==> x1[c] == x2[c],
    ensures
        row_dot(row, x1, n) == row_dot(row, x2, n),
    decreases n,
{
    if n > 0 {
        lemma_row_dot_extend(row, x1, x2, n - 1);
        if row.dom().contains(n - 1) {
            assert(x1[n - 1] == x2[n - 1]);
        } else {
            assert(entry0(row, n - 1) == 0);
            crate::field::lemma_fmul_zero(x1[n - 1]);
            crate::field::lemma_fmul_zero(x2[n - 1]);
        }
    }
}

/// The residues of one row of a matrix under an interner, as a map from
/// column index.
pub open spec fn hyd_row_of(m: SparseMatrix, interner: Interner, r: int) -> Map<int, int> {
    Map::new(
        |c: int| m@[r].dom().contains(c),
        |c: int| interner@[m@[r][c] as int],
    )
}

/// Every handle stored in the matrix resolves in the interner.
pub open spec fn compat(m: SparseMatrix, interner: Interner) -> bool {
    forall|r: int, c: int|
        0 <= r < m@.len() && (#[trigger] m@[r].dom().contains(c)) ==> (m@[r][c] as int)
            < interner@.len()
}

/// Growing the interner does not change how existing rows hydrate.
pub proof fn lemma_hyd_stable(m: SparseMatrix, i1: Interner, i2: Interner)
    requires
        compat(m, i1),
        i1@.len() <= i2@.len(),
        forall|k: int| 0 <= k < i1@.len() ==> i1@[k] == i2@[k],
    ensures
        forall|r: int| 0 <= r < m@.len() ==> hyd_row_of(m, i2, r) =~= hyd_row_of(m, i1, r),
{
    assert forall|r: int| 0 <= r < m@.len() implies hyd_row_of(m, i2, r) =~= hyd_row_of(
        m,
        i1,
        r,
    ) by {
        assert forall|c: int| #[trigger] m@[r].dom().contains(c) implies i2@[m@[r][c] as int]
            == i1@[m@[r][c] as int] by {}
    }
}

/// Adding one `v * x[c]` term to the value stored at column `c` adds one
/// product term to the dot product.
pub proof fn lemma_row_dot_accumulate(row: Map<int, int>, x: Seq<int>, n: int, c: int, m: int)
    ensures
        0 <= c < n ==> row_dot(row.insert(c, fadd(entry0(row, c), m)), x, n) == fadd(
            row_dot(row, x, n),
            fmul(m, x[c]),
        ),
{
    if 0 <= c < n {
        let base = row.remove(c);
        let v0 = entry0(row, c);
        if row.dom().contains(c) {
            assert(row =~= base.insert(c, v0));
            lemma_row_dot_insert(base, x, n, c, v0);
        } else {
            assert(row =~= base);
            assert(entry0(row, c) == 0);
        }
        lemma_row_dot_insert(base, x, n, c, fadd(v0, m));
        assert(row.insert(c, fadd(v0, m)) =~= base.insert(c, fadd(v0, m)));
        // (d + (v0 + m) * xc) == ((d + v0 * xc) + m * xc)
        let d = row_dot(base, x, n);
        crate::field::lemma_fmul_dist_right(v0, m, x[c]);
        crate::field::lemma_fadd_assoc(d, fmul(v0, x[c]), fmul(m, x[c]));
        if !row.dom().contains(c) {
            crate::field::lemma_fmul_zero(x[c]);
            lemma_row_dot_in_field(base, x, n);
            crate::field::lemma_fadd_zero(d);
            crate::field::lemma_fadd_mod_left_zero(m, x[c]);
        }
    }
}

/// A larger interner keeps a matrix compatible.
pub proof fn lemma_compat_extend(m: SparseMatrix, i1: Interner, i2: Interner)
    requires
        compat(m, i1),
        i1@.len() <= i2@.len(),
    ensures
        compat(m, i2),
{
}

/// Two rows merged entrywise: each column holds the sum of the two stored
/// values, a missing entry counting as zero.
pub open spec fn merged_row(r1: Map<int, int>, r2: Map<int, int>) -> Map<int, int> {
    Map::new(
        |c: int| r1.dom().contains(c) || r2.dom().contains(c),
        |c: int| fadd(entry0(r1, c), entry0(r2, c)),
    )
}

/// Linearity of the matrix-vector product: the dot product of an
/// entrywise-merged row equals the sum of the two rows' dot products, on
/// every prefix of coordinates.  Lifted over all rows, the product of the
/// entrywise sum of two equal-shape matrices with a vector is the entrywise
/// sum of the two products.
pub proof fn lemma_row_dot_linear(r1: Map<int, int>, r2: Map<int, int>, x: Seq<int>, n: int)
    ensures
        row_dot(merged_row(r1, r2), x, n) == fadd(row_dot(r1, x, n), row_dot(r2, x, n)),
    decreases n,
{
    let m = merged_row(r1, r2);
    if n <= 0 {
        crate::field::lemma_field_closed(0, 0);
        assert(fadd(0, 0) == 0) by {
            vstd::arithmetic::div_mod::lemma_small_mod(0nat, crate::field::p() as nat);
        }
    } else {
        lemma_row_dot_linear(r1, r2, x, n - 1);
        let c = n - 1;
        let e1 = entry0(r1, c);
        let e2 = entry0(r2, c);
        assert(entry0(m, c) == fadd(e1, e2)) by {
            if !r1.dom().contains(c) && !r2.dom().contains(c) {
                assert(entry0(m, c) == 0);
                vstd::arithmetic::div_mod::lemma_small_mod(0nat, crate::field::p() as nat);
            }
        }
        crate::field::lemma_fmul_dist_right(e1, e2, x[c]);
        crate::field::lemma_fadd_shuffle(
            row_dot(r1, x, c),
            fmul(e1, x[c]),
            row_dot(r2, x, c),
            fmul(e2, x[c]),
        );
    }
}

/// The per-column dot product `sum over rows i < n of x[i] * m[i][c]`.
pub open spec fn col_dot_of(m: SparseMatrix, interner: Interner, x: Seq<int>, c: int, n: int) -> int
    decreases n,
{
    if n <= 0 {
        0
    } else {
        fadd(
            col_dot_of(m, interner, x, c, n - 1),
            fmul(x[n - 1], entry0(hyd_row_of(m, interner, n - 1), c)),
        )
    }
}

} // verus!
