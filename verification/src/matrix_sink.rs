//! A constraint sink that accumulates rows into three sparse matrices.

use crate::compiler::set_entry;
use crate::errors::Error;
use crate::field::FieldElement;
use crate::interner::Interner;
use crate::sparse_matrix::{
    compat, hyd_row_of, lemma_compat_extend, lemma_hyd_stable, SparseMatrix,
};
use vstd::prelude::*;

verus! {

/// The residue map a list of sparse `(coefficient, column)` entries builds
/// over a base row, applied in order.
pub open spec fn row_with_entries(
    base: Map<int, int>,
    entries: Seq<(FieldElement, usize)>,
    n: int,
) -> Map<int, int>
    decreases n,
{
    if n <= 0 {
        base
    } else {
        row_with_entries(base, entries, n - 1).insert(
            entries[n - 1].1 as int,
            entries[n - 1].0@,
        )
    }
}

/// A consumer of R1CS constraints.
pub trait ConstraintSink {
    /// The sink's internal consistency, preserved by every added row.
    spec fn sink_inv(&self) -> bool;

    /// How many rows the sink has accepted so far.
    spec fn row_count(&self) -> int;

    /// The stored `A` row at index `i`, as a residue map.
    spec fn row_a(&self, i: int) -> Map<int, int>;

    /// The stored `B` row at index `i`, as a residue map.
    spec fn row_b(&self, i: int) -> Map<int, int>;

    /// The stored `C` row at index `i`, as a residue map.
    spec fn row_c(&self, i: int) -> Map<int, int>;

    /// Add one constraint row, given as the sparse `(coefficient, column)`
    /// entries of `A`, `B` and `C`.  On success the next row of each matrix
    /// holds exactly the given entries; on failure no accepted row is
    /// touched and the row count does not advance.
    fn add_constraint(
        &mut self,
        a: &Vec<(FieldElement, usize)>,
        b: &Vec<(FieldElement, usize)>,
        c: &Vec<(FieldElement, usize)>,
    ) -> (r: Result<(), Error>)
        requires
            old(self).sink_inv(),
        ensures
            final(self).sink_inv(),
            final(self).row_count() == old(self).row_count() + (if r is Ok {
                1int
            } else {
                0int
            }),
            forall|i: int|
                0 <= i < old(self).row_count() ==> #[trigger] final(self).row_a(i) == old(
                    self,
                ).row_a(i),
            forall|i: int|
                0 <= i < old(self).row_count() ==> #[trigger] final(self).row_b(i) == old(
                    self,
                ).row_b(i),
            forall|i: int|
                0 <= i < old(self).row_count() ==> #[trigger] final(self).row_c(i) == old(
                    self,
                ).row_c(i),
            r is Ok ==> final(self).row_a(old(self).row_count()) == row_with_entries(
                old(self).row_a(old(self).row_count()),
                a@,
                a@.len() as int,
            ),
            r is Ok ==> final(self).row_b(old(self).row_count()) == row_with_entries(
                old(self).row_b(old(self).row_count()),
                b@,
                b@.len() as int,
            ),
            r is Ok ==> final(self).row_c(old(self).row_count()) == row_with_entries(
                old(self).row_c(old(self).row_count()),
                c@,
                c@.len() as int,
            ),
    ;
}

/// A sink storing the constraints as three sparse matrices over one
/// interner.
#[derive(Debug)]
pub struct MatrixSink {
    /// The left constraint matrix.
    pub a: SparseMatrix,
    /// The right constraint matrix.
    pub b: SparseMatrix,
    /// The output constraint matrix.
    pub c: SparseMatrix,
    /// The value store behind the matrices.
    pub interner: Interner,
    /// The next constraint row to fill.
    pub next_row: usize,
}

impl MatrixSink {
    /// Empty matrices of the given shape.
    pub fn new(witnesses: usize, constraints: usize) -> (r: Result<MatrixSink, Error>)
        ensures
            match r {
                Ok(s) => {
                    &&& s.a.wf() && s.b.wf() && s.c.wf()
                    &&& s.a@.len() == constraints && s.b@.len() == constraints && s.c@.len()
                        == constraints
                    &&& s.a.cols() == witnesses && s.b.cols() == witnesses && s.c.cols()
                        == witnesses
                    &&& s.next_row == 0
                    &&& s.sink_inv()
                },
                Err(e) => e == Error::DimensionMismatch,
            },
    {
        if !(witnesses as u64 <= u32::MAX as u64 && constraints as u64 <= u32::MAX as u64) {
            return Err(Error::DimensionMismatch);
        }
        if !(constraints == 0 || (witnesses as u64) < (u32::MAX as u64) / (constraints as u64)) {
            return Err(Error::DimensionMismatch);
        }
        proof {
            if constraints != 0 {
                let w = witnesses as int;
                let cc = constraints as int;
                assert(w * cc < u32::MAX as int) by (nonlinear_arith)
                    requires
                        0 <= w,
                        1 <= cc <= u32::MAX as int,
                        w < (u32::MAX as int) / cc,
                ;
                assert(cc * w < u32::MAX as int) by (nonlinear_arith)
                    requires
                        w * cc < u32::MAX as int,
                ;
            }
        }
        let s = MatrixSink {
            a: SparseMatrix::new(constraints, witnesses),
            b: SparseMatrix::new(constraints, witnesses),
            c: SparseMatrix::new(constraints, witnesses),
            interner: Interner::new(),
            next_row: 0,
        };
        proof {
            assert(compat(s.a, s.interner)) by {
                assert forall|r2: int, c2: int|
                    0 <= r2 < s.a@.len() && (#[trigger] s.a@[r2].dom().contains(c2)) implies (
                s.a@[r2][c2] as int) < s.interner@.len() by {
                    assert(s.a@[r2] =~= Map::<int, crate::interner::InternedFieldElement>::empty());
                }
            }
            assert(compat(s.b, s.interner)) by {
                assert forall|r2: int, c2: int|
                    0 <= r2 < s.b@.len() && (#[trigger] s.b@[r2].dom().contains(c2)) implies (
                s.b@[r2][c2] as int) < s.interner@.len() by {
                    assert(s.b@[r2] =~= Map::<int, crate::interner::InternedFieldElement>::empty());
                }
            }
            assert(compat(s.c, s.interner)) by {
                assert forall|r2: int, c2: int|
                    0 <= r2 < s.c@.len() && (#[trigger] s.c@[r2].dom().contains(c2)) implies (
                s.c@[r2][c2] as int) < s.interner@.len() by {
                    assert(s.c@[r2] =~= Map::<int, crate::interner::InternedFieldElement>::empty());
                }
            }
        }
        Ok(s)
    }
}

impl ConstraintSink for MatrixSink {
    open spec fn sink_inv(&self) -> bool {
        &&& self.a.wf() && self.b.wf() && self.c.wf()
        &&& compat(self.a, self.interner) && compat(self.b, self.interner) && compat(
            self.c,
            self.interner,
        )
        &&& self.a@.len() == self.b@.len() && self.a@.len() == self.c@.len()
        &&& self.a.cols() == self.b.cols() && self.a.cols() == self.c.cols()
        &&& self.next_row <= self.a@.len()
    }

    open spec fn row_count(&self) -> int {
        self.next_row as int
    }

    open spec fn row_a(&self, i: int) -> Map<int, int> {
        hyd_row_of(self.a, self.interner, i)
    }

    open spec fn row_b(&self, i: int) -> Map<int, int> {
        hyd_row_of(self.b, self.interner, i)
    }

    open spec fn row_c(&self, i: int) -> Map<int, int> {
        hyd_row_of(self.c, self.interner, i)
    }

    fn add_constraint(
        &mut self,
        a: &Vec<(FieldElement, usize)>,
        b: &Vec<(FieldElement, usize)>,
        c: &Vec<(FieldElement, usize)>,
    ) -> (r: Result<(), Error>) {
        let ghost s0 = *self;
        if self.next_row >= self.a.rows() {
            return Err(Error::IndexOutOfBounds);
        }
        let row = self.next_row;
        let ghost rowi = row as int;
        let mut k: usize = 0;
        while k < a.len()
            invariant
                k <= a@.len(),
                self.sink_inv(),
                s0 == *old(self),
                s0.sink_inv(),
                rowi == row as int,
                row == self.next_row,
                row < self.a@.len(),
                self.next_row == s0.next_row,
                self.a@.len() == s0.a@.len() && self.a.cols() == s0.a.cols(),
                self.b == s0.b && self.c == s0.c,
                s0.interner@.len() <= self.interner@.len(),
                forall|j: int|
                    0 <= j < s0.interner@.len() ==> #[trigger] self.interner@[j]
                        == s0.interner@[j],
                hyd_row_of(self.a, self.interner, rowi) =~= row_with_entries(
                    hyd_row_of(s0.a, s0.interner, rowi),
                    a@,
                    k as int,
                ),
                forall|i: int|
                    0 <= i < self.a@.len() && i != rowi ==> #[trigger] hyd_row_of(
                        self.a,
                        self.interner,
                        i,
                    ) =~= hyd_row_of(s0.a, s0.interner, i),
            decreases a@.len() - k,
        {
            if self.interner.len() >= (u32::MAX - 1) as usize {
                return Err(Error::DimensionMismatch);
            }
            let (v, col) = a[k];
            if col >= self.a.num_columns() {
                return Err(Error::IndexOutOfBounds);
            }
            let ghost q0 = *self;
            set_entry(&mut self.a, &mut self.interner, row, col, v);
            proof {
                lemma_hyd_stable(s0.a, q0.interner, self.interner);
                lemma_compat_extend(self.b, q0.interner, self.interner);
                lemma_compat_extend(self.c, q0.interner, self.interner);
            }
            k += 1;
        }
        let ghost s1 = *self;
        let mut k2: usize = 0;
        while k2 < b.len()
            invariant
                k2 <= b@.len(),
                self.sink_inv(),
                s0 == *old(self),
                s0.sink_inv(),
                s1.sink_inv(),
                rowi == row as int,
                row == self.next_row,
                row < self.a@.len(),
                self.next_row == s0.next_row,
                self.a@.len() == s0.a@.len() && self.a.cols() == s0.a.cols(),
                self.a == s1.a && self.c == s0.c,
                s0.interner@.len() <= self.interner@.len(),
                forall|j: int|
                    0 <= j < s0.interner@.len() ==> #[trigger] self.interner@[j]
                        == s0.interner@[j],
                s1.interner@.len() <= self.interner@.len(),
                forall|j: int|
                    0 <= j < s1.interner@.len() ==> #[trigger] self.interner@[j]
                        == s1.interner@[j],
                hyd_row_of(self.a, self.interner, rowi) =~= row_with_entries(
                    hyd_row_of(s0.a, s0.interner, rowi),
                    a@,
                    a@.len() as int,
                ),
                forall|i: int|
                    0 <= i < self.a@.len() && i != rowi ==> #[trigger] hyd_row_of(
                        self.a,
                        self.interner,
                        i,
                    ) =~= hyd_row_of(s0.a, s0.interner, i),
                hyd_row_of(self.b, self.interner, rowi) =~= row_with_entries(
                    hyd_row_of(s0.b, s0.interner, rowi),
                    b@,
                    k2 as int,
                ),
                forall|i: int|
                    0 <= i < self.b@.len() && i != rowi ==> #[trigger] hyd_row_of(
                        self.b,
                        self.interner,
                        i,
                    ) =~= hyd_row_of(s0.b, s0.interner, i),
            decreases b@.len() - k2,
        {
            if self.interner.len() >= (u32::MAX - 1) as usize {
                return Err(Error::DimensionMismatch);
            }
            let (v, col) = b[k2];
            if col >= self.b.num_columns() {
                return Err(Error::IndexOutOfBounds);
            }
            let ghost q0 = *self;
            set_entry(&mut self.b, &mut self.interner, row, col, v);
            proof {
                lemma_hyd_stable(s0.b, q0.interner, self.interner);
                lemma_hyd_stable(q0.a, q0.interner, self.interner);
                lemma_compat_extend(self.a, q0.interner, self.interner);
                lemma_compat_extend(self.c, q0.interner, self.interner);
            }
            k2 += 1;
        }
        let ghost s2 = *self;
        let mut k3: usize = 0;
        while k3 < c.len()
            invariant
                k3 <= c@.len(),
                self.sink_inv(),
                s0 == *old(self),
                s0.sink_inv(),
                rowi == row as int,
                row == self.next_row,
                row < self.a@.len(),
                self.next_row == s0.next_row,
                self.a@.len() == s0.a@.len() && self.a.cols() == s0.a.cols(),
                self.a == s2.a && self.b == s2.b,
                s0.interner@.len() <= self.interner@.len(),
                forall|j: int|
                    0 <= j < s0.interner@.len() ==> #[trigger] self.interner@[j]
                        == s0.interner@[j],
                s2.interner@.len() <= self.interner@.len(),
                forall|j: int|
                    0 <= j < s2.interner@.len() ==> #[trigger] self.interner@[j]
                        == s2.interner@[j],
                hyd_row_of(self.a, self.interner, rowi) =~= row_with_entries(
                    hyd_row_of(s0.a, s0.interner, rowi),
                    a@,
                    a@.len() as int,
                ),
                forall|i: int|
                    0 <= i < self.a@.len() && i != rowi ==> #[trigger] hyd_row_of(
                        self.a,
                        self.interner,
                        i,
                    ) =~= hyd_row_of(s0.a, s0.interner, i),
                hyd_row_of(self.b, self.interner, rowi) =~= row_with_entries(
                    hyd_row_of(s0.b, s0.interner, rowi),
                    b@,
                    b@.len() as int,
                ),
                forall|i: int|
                    0 <= i < self.b@.len() && i != rowi ==> #[trigger] hyd_row_of(
                        self.b,
                        self.interner,
                        i,
                    ) =~= hyd_row_of(s0.b, s0.interner, i),
                hyd_row_of(self.c, self.interner, rowi) =~= row_with_entries(
                    hyd_row_of(s0.c, s0.interner, rowi),
                    c@,
                    k3 as int,
                ),
                forall|i: int|
                    0 <= i < self.c@.len() && i != rowi ==> #[trigger] hyd_row_of(
                        self.c,
                        self.interner,
                        i,
                    ) =~= hyd_row_of(s0.c, s0.interner, i),
            decreases c@.len() - k3,
        {
            if self.interner.len() >= (u32::MAX - 1) as usize {
                return Err(Error::DimensionMismatch);
            }
            let (v, col) = c[k3];
            if col >= self.c.num_columns() {
                return Err(Error::IndexOutOfBounds);
            }
            let ghost q0 = *self;
            set_entry(&mut self.c, &mut self.interner, row, col, v);
            proof {
                lemma_hyd_stable(s0.c, q0.interner, self.interner);
                lemma_hyd_stable(q0.a, q0.interner, self.interner);
                lemma_hyd_stable(q0.b, q0.interner, self.interner);
                lemma_compat_extend(self.a, q0.interner, self.interner);
                lemma_compat_extend(self.b, q0.interner, self.interner);
            }
            k3 += 1;
        }
        self.next_row = row + 1;
        Ok(())
    }
}

} // verus!
