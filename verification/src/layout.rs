//! Tensor memory layouts.
//!
//! A [`Layout`] maps multi-dimensional indices to flat offsets through a
//! shape and a stride per dimension, both zero-padded to a fixed maximum
//! rank.  Layouts derived by [`transpose`](Layout::transpose),
//! [`select`](Layout::select), [`chunk`](Layout::chunk),
//! [`unflatten`](Layout::unflatten) and [`flatten`](Layout::flatten) only
//! reindex the set of offsets of the original layout.

use vstd::prelude::*;

verus! {

/// The number of leading nonzero dimensions.
pub open spec fn rank_of(shape: Seq<u32>) -> int
    decreases shape.len(),
{
    if shape.len() == 0 {
        0
    } else if shape.first() == 0 {
        0
    } else {
        1 + rank_of(shape.drop_first())
    }
}

/// The product of the first `n` dimensions.
pub open spec fn prod_of(shape: Seq<u32>, n: int) -> int
    decreases n,
{
    if n <= 0 {
        1
    } else {
        prod_of(shape, n - 1) * shape[n - 1]
    }
}

/// The flat offset of an index: the stride-weighted sum of its coordinates.
pub open spec fn offset_of(index: Seq<usize>, stride: Seq<u32>, n: int) -> int
    decreases n,
{
    if n <= 0 {
        0
    } else {
        offset_of(index, stride, n - 1) + index[n - 1] * stride[n - 1]
    }
}

/// The rank is bounded by the length, and every dimension below it is
/// nonzero.
pub proof fn lemma_rank_of(shape: Seq<u32>)
    ensures
        0 <= rank_of(shape) <= shape.len(),
        forall|i: int| 0 <= i < rank_of(shape) ==> shape[i] != 0,
        rank_of(shape) < shape.len() ==> shape[rank_of(shape)] == 0,
    decreases shape.len(),
{
    if shape.len() > 0 && shape.first() != 0 {
        lemma_rank_of(shape.drop_first());
        assert forall|i: int| 0 <= i < rank_of(shape) implies shape[i] != 0 by {
            if i > 0 {
                assert(shape.drop_first()[i - 1] != 0);
            }
        }
        if rank_of(shape) < shape.len() {
            assert(shape.drop_first()[rank_of(shape) - 1] == 0);
        }
    }
}

/// A tensor memory layout with at most `MAX_RANK` dimensions.
#[derive(Clone, Copy, Debug, PartialEq, Eq)]
pub struct Layout<const MAX_RANK: usize> {
    shape: [u32; MAX_RANK],
    stride: [u32; MAX_RANK],
}

impl<const MAX_RANK: usize> Layout<MAX_RANK> {
    /// The dimension sizes, zero-padded.
    pub closed spec fn shape_seq(&self) -> Seq<u32> {
        self.shape@
    }

    /// The dimension strides, zero-padded.
    pub closed spec fn stride_seq(&self) -> Seq<u32> {
        self.stride@
    }

    /// The number of dimensions.
    pub open spec fn rank_spec(&self) -> int {
        rank_of(self.shape_seq())
    }

    /// A contiguous one-dimensional layout of the given size.
    pub fn from_size(size: usize) -> (r: Self)
        requires
            MAX_RANK >= 1,
            size <= u32::MAX,
        ensures
            r.shape_seq()[0] == size as u32,
            r.stride_seq()[0] == 1,
            forall|i: int| 1 <= i < MAX_RANK ==> r.shape_seq()[i] == 0,
            forall|i: int| 1 <= i < MAX_RANK ==> r.stride_seq()[i] == 0,
            size > 0 ==> r.rank_spec() == 1,
    {
        let mut shape = [0u32; MAX_RANK];
        let mut stride = [0u32; MAX_RANK];
        shape[0] = size as u32;
        stride[0] = 1;
        let r = Layout { shape, stride };
        proof {
            if size > 0 {
                lemma_rank_of(r.shape_seq());
                assert(r.shape_seq().drop_first().first() == 0 || r.shape_seq().len() == 1);
                if r.rank_spec() > 1 {
                    lemma_rank_of(r.shape_seq());
                    assert(r.shape_seq()[1] != 0);
                }
            }
        }
        r
    }

    /// The number of dimensions: the position of the first zero-sized one.
    pub fn rank(&self) -> (r: usize)
        ensures
            r == self.rank_spec(),
    {
        proof {
            lemma_rank_of(self.shape_seq());
        }
        let mut i: usize = 0;
        while i < MAX_RANK
            invariant
                i <= MAX_RANK,
                self.shape@.len() == MAX_RANK,
                forall|j: int| 0 <= j < i ==> self.shape@[j] != 0,
                rank_of(self.shape_seq()) >= i,
            decreases MAX_RANK - i,
        {
            if self.shape[i] == 0 {
                proof {
                    lemma_rank_of(self.shape_seq());
                    if self.rank_spec() > i {
                        assert(self.shape_seq()[i as int] != 0);
                    }
                    lemma_rank_lower(self.shape_seq(), i as int);
                }
                return i;
            }
            proof {
                lemma_rank_lower(self.shape_seq(), i as int + 1);
            }
            i += 1;
        }
        i
    }

    /// The size of one dimension.
    pub fn shape(&self, dim: usize) -> (r: usize)
        requires
            dim < self.rank_spec(),
        ensures
            r == self.shape_seq()[dim as int],
    {
        proof {
            lemma_rank_of(self.shape_seq());
        }
        self.shape[dim] as usize
    }

    /// The total number of elements: the product of all dimensions.
    pub fn size(&self) -> (r: usize)
        requires
            prod_of(self.shape_seq(), self.rank_spec()) <= u32::MAX,
        ensures
            r == prod_of(self.shape_seq(), self.rank_spec()),
    {
        proof {
            lemma_rank_of(self.shape_seq());
        }
        let rank = self.rank();
        let mut acc: u64 = 1;
        let mut i: usize = 0;
        while i < rank
            invariant
                i <= rank,
                rank == self.rank_spec(),
                self.shape@.len() == MAX_RANK,
                rank <= MAX_RANK,
                acc == prod_of(self.shape_seq(), i as int),
                acc <= u32::MAX,
                prod_of(self.shape_seq(), rank as int) <= u32::MAX,
                forall|j: int| 0 <= j < rank ==> self.shape_seq()[j] != 0,
            decreases rank - i,
        {
            proof {
                lemma_prod_prefix_le(self.shape_seq(), i as int + 1, rank as int);
                assert(acc * self.shape@[i as int] == prod_of(self.shape_seq(), i as int + 1));
            }
            acc = acc * (self.shape[i] as u64);
            i += 1;
        }
        acc as usize
    }

    /// The flat offset of a full index.
    pub fn offset(&self, index: &[usize]) -> (r: usize)
        requires
            index@.len() == self.rank_spec(),
            forall|d: int|
                0 <= d < index@.len() ==> (#[trigger] index@[d]) < self.shape_seq()[d],
            offset_of(index@, self.stride_seq(), index@.len() as int) <= usize::MAX,
        ensures
            r == offset_of(index@, self.stride_seq(), index@.len() as int),
    {
        proof {
            lemma_rank_of(self.shape_seq());
        }
        let n = index.len();
        proof {
            lemma_offset_prefix_le(index@, self.stride_seq(), 0, n as int);
        }
        let mut acc: u128 = 0;
        let mut d: usize = 0;
        while d < n
            invariant
                d <= n,
                n == index@.len(),
                n == self.rank_spec(),
                self.stride@.len() == MAX_RANK,
                n <= MAX_RANK,
                acc == offset_of(index@, self.stride_seq(), d as int),
                acc <= offset_of(index@, self.stride_seq(), n as int),
                offset_of(index@, self.stride_seq(), n as int) <= usize::MAX,
            decreases n - d,
        {
            proof {
                lemma_offset_prefix_le(index@, self.stride_seq(), d as int + 1, n as int);
                assert(index@[d as int] * self.stride@[d as int] >= 0) by (nonlinear_arith);
            }
            acc = acc + (index[d] as u128) * (self.stride[d] as u128);
            d += 1;
        }
        acc as usize
    }

    /// The same layout under a different maximum rank.
    pub fn with_max_rank<const N: usize>(&self) -> (r: Layout<N>)
        requires
            N >= self.rank_spec(),
        ensures
            forall|i: int| 0 <= i < self.rank_spec() ==> r.shape_seq()[i] == self.shape_seq()[i],
            forall|i: int|
                0 <= i < self.rank_spec() ==> r.stride_seq()[i] == self.stride_seq()[i],
            forall|i: int| self.rank_spec() <= i < N ==> r.shape_seq()[i] == 0,
    {
        proof {
            lemma_rank_of(self.shape_seq());
        }
        let rank = self.rank();
        let mut shape = [0u32; N];
        let mut stride = [0u32; N];
        let mut i: usize = 0;
        while i < rank
            invariant
                i <= rank,
                rank == self.rank_spec(),
                rank <= N,
                rank <= MAX_RANK,
                self.shape@.len() == MAX_RANK,
                self.stride@.len() == MAX_RANK,
                shape@.len() == N,
                stride@.len() == N,
                forall|j: int| 0 <= j < i ==> shape@[j] == self.shape@[j],
                forall|j: int| 0 <= j < i ==> stride@[j] == self.stride@[j],
                forall|j: int| i <= j < N ==> shape@[j] == 0,
            decreases rank - i,
        {
            shape[i] = self.shape[i];
            stride[i] = self.stride[i];
            i += 1;
        }
        Layout { shape, stride }
    }

    /// Permute the dimensions according to `axes`.
    pub fn transpose(&self, axes: &[usize]) -> (r: Self)
        requires
            axes@.len() == self.rank_spec(),
            forall|i: int| 0 <= i < axes@.len() ==> (#[trigger] axes@[i]) < self.rank_spec(),
            forall|i: int, j: int| 0 <= i < j < axes@.len() ==> axes@[i] != axes@[j],
        ensures
            forall|i: int|
                0 <= i < axes@.len() ==> r.shape_seq()[i] == self.shape_seq()[axes@[i] as int]
                    && r.stride_seq()[i] == self.stride_seq()[axes@[i] as int],
            forall|i: int| axes@.len() <= i < MAX_RANK ==> r.shape_seq()[i] == 0,
    {
        proof {
            lemma_rank_of(self.shape_seq());
        }
        let mut shape = [0u32; MAX_RANK];
        let mut stride = [0u32; MAX_RANK];
        let n = axes.len();
        let mut i: usize = 0;
        while i < n
            invariant
                i <= n,
                n == axes@.len(),
                n == self.rank_spec(),
                n <= MAX_RANK,
                self.shape@.len() == MAX_RANK,
                self.stride@.len() == MAX_RANK,
                shape@.len() == MAX_RANK,
                stride@.len() == MAX_RANK,
                forall|j: int| 0 <= j < axes@.len() ==> (#[trigger] axes@[j]) < n,
                forall|j: int|
                    0 <= j < i ==> shape@[j] == self.shape@[axes@[j] as int] && stride@[j]
                        == self.stride@[axes@[j] as int],
                forall|j: int| i <= j < MAX_RANK ==> shape@[j] == 0,
            decreases n - i,
        {
            shape[i] = self.shape[axes[i]];
            stride[i] = self.stride[axes[i]];
            i += 1;
        }
        Layout { shape, stride }
    }

    /// The subtensor at one index of one dimension: the offset where it
    /// starts and a layout of rank one less.
    pub fn select(&self, dim: usize, index: usize) -> (r: (usize, Self))
        requires
            dim < self.rank_spec(),
            index < self.shape_seq()[dim as int],
            index * self.stride_seq()[dim as int] <= usize::MAX,
        ensures
            r.0 == index * self.stride_seq()[dim as int],
            forall|i: int|
                0 <= i < dim ==> r.1.shape_seq()[i] == self.shape_seq()[i]
                    && r.1.stride_seq()[i] == self.stride_seq()[i],
            forall|i: int|
                dim <= i < self.rank_spec() - 1 ==> r.1.shape_seq()[i] == self.shape_seq()[i + 1]
                    && r.1.stride_seq()[i] == self.stride_seq()[i + 1],
            forall|i: int| self.rank_spec() - 1 <= i < MAX_RANK ==> r.1.shape_seq()[i] == 0,
    {
        proof {
            lemma_rank_of(self.shape_seq());
            assert((index as int) * (self.stride@[dim as int] as int) >= 0) by (nonlinear_arith);
        }
        let offset = index * (self.stride[dim] as usize);
        let mut shape = [0u32; MAX_RANK];
        let mut stride = [0u32; MAX_RANK];
        let rank = self.rank();
        let mut i: usize = 0;
        while i < rank
            invariant
                i <= rank,
                rank == self.rank_spec(),
                rank <= MAX_RANK,
                dim < rank,
                self.shape@.len() == MAX_RANK,
                self.stride@.len() == MAX_RANK,
                shape@.len() == MAX_RANK,
                stride@.len() == MAX_RANK,
                forall|j: int|
                    0 <= j < i && j < dim ==> shape@[j] == self.shape@[j] && stride@[j]
                        == self.stride@[j],
                forall|j: int|
                    dim < j < i ==> shape@[j - 1] == self.shape@[j] && stride@[j - 1]
                        == self.stride@[j],
                forall|j: int|
                    (if i > dim {
                        i - 1
                    } else {
                        i as int
                    }) <= j < MAX_RANK ==> shape@[j] == 0,
            decreases rank - i,
        {
            if i < dim {
                shape[i] = self.shape[i];
                stride[i] = self.stride[i];
            } else if i > dim {
                shape[i - 1] = self.shape[i];
                stride[i - 1] = self.stride[i];
            }
            i += 1;
        }
        (offset, Layout { shape, stride })
    }

    /// A contiguous subrange along one dimension: the offset where it
    /// starts and the narrowed layout.
    pub fn chunk(&self, dim: usize, start: usize, end: usize) -> (r: (usize, Self))
        requires
            dim < self.rank_spec(),
            start <= end,
            end <= self.shape_seq()[dim as int],
            start * self.stride_seq()[dim as int] <= usize::MAX,
        ensures
            r.0 == start * self.stride_seq()[dim as int],
            r.1.shape_seq() == self.shape_seq().update(dim as int, (end - start) as u32),
            r.1.stride_seq() == self.stride_seq(),
    {
        proof {
            lemma_rank_of(self.shape_seq());
            assert((start as int) * (self.stride@[dim as int] as int) >= 0) by (nonlinear_arith);
        }
        let offset = start * (self.stride[dim] as usize);
        let mut result = *self;
        result.shape[dim] = (end - start) as u32;
        proof {
            assert(result.shape@ =~= self.shape@.update(dim as int, (end - start) as u32));
        }
        (offset, result)
    }

    /// Split one dimension into several, interpreting it in row-major
    /// order.
    pub fn unflatten(&self, dim: usize, sizes: &[usize]) -> (r: Self)
        requires
            dim < self.rank_spec(),
            sizes@.len() >= 1,
            self.rank_spec() + sizes@.len() - 1 <= MAX_RANK,
            forall|i: int| 0 <= i < sizes@.len() ==> (#[trigger] sizes@[i]) <= u32::MAX,
            prod_of_sizes(sizes@, sizes@.len() as int) == self.shape_seq()[dim as int],
            (self.stride_seq()[dim as int] as int) * (self.shape_seq()[dim as int] as int)
                <= u32::MAX,
        ensures
            forall|j: int| 0 <= j < dim ==> #[trigger] r.shape_seq()[j] == self.shape_seq()[j],
            forall|j: int| 0 <= j < dim ==> #[trigger] r.stride_seq()[j] == self.stride_seq()[j],
            forall|t: int|
                0 <= t < sizes@.len() ==> #[trigger] r.shape_seq()[dim + t] == sizes@[t] as u32,
            r.stride_seq()[dim + sizes@.len() - 1] == self.stride_seq()[dim as int],
            forall|t: int|
                0 <= t < sizes@.len() ==> (#[trigger] r.stride_seq()[dim + t]) as int
                    == (self.stride_seq()[dim as int] as int) * suffix_prod(sizes@, t + 1),
            forall|j: int|
                dim < j < self.rank_spec() ==> #[trigger] r.shape_seq()[j + sizes@.len() - 1]
                    == self.shape_seq()[j],
            forall|j: int|
                dim < j < self.rank_spec() ==> #[trigger] r.stride_seq()[j + sizes@.len() - 1]
                    == self.stride_seq()[j],
    {
        proof {
            lemma_rank_of(self.shape_seq());
        }
        let rank = self.rank();
        let mut result = *self;
        // Shift the tail dimensions up to make room.
        let extra = sizes.len() - 1;
        let mut i: usize = rank;
        while i > dim + 1
            invariant
                dim + 1 <= i <= rank,
                rank <= MAX_RANK,
                rank + extra <= MAX_RANK,
                result.shape@.len() == MAX_RANK,
                result.stride@.len() == MAX_RANK,
                self.shape@.len() == MAX_RANK,
                self.stride@.len() == MAX_RANK,
                forall|j: int|
                    i + extra <= j < rank + extra ==> result.shape@[j] == self.shape@[j - extra]
                        && result.stride@[j] == self.stride@[j - extra],
                forall|j: int| 0 <= j < i ==> result.shape@[j] == self.shape@[j],
                forall|j: int| 0 <= j < i ==> result.stride@[j] == self.stride@[j],
            decreases i,
        {
            i -= 1;
            result.shape[i + extra] = self.shape[i];
            result.stride[i + extra] = self.stride[i];
        }
        // Fill the split dimensions, last first, accumulating the stride.
        proof {
            assert(dim + sizes@.len() <= MAX_RANK);
        }
        proof {
            lemma_rank_of(self.shape_seq());
            assert(self.shape_seq()[dim as int] != 0);
            assert forall|i2: int| 0 <= i2 < sizes@.len() implies (#[trigger] sizes@[i2])
                >= 1 by {
                if sizes@[i2] == 0 {
                    lemma_prod_of_sizes_zero(sizes@, sizes@.len() as int, i2);
                }
            }
            assert(suffix_prod(sizes@, sizes@.len() as int) == 1);
        }
        let mut stride_acc: u64 = self.stride[dim] as u64;
        let mut t: usize = sizes.len();
        while t > 0
            invariant
                t <= sizes@.len(),
                dim + sizes@.len() <= MAX_RANK,
                dim < self.rank_spec(),
                rank == self.rank_spec(),
                rank + extra <= MAX_RANK,
                extra == sizes@.len() - 1,
                result.shape@.len() == MAX_RANK,
                result.stride@.len() == MAX_RANK,
                self.shape@.len() == MAX_RANK,
                self.stride@.len() == MAX_RANK,
                forall|i2: int| 0 <= i2 < sizes@.len() ==> (#[trigger] sizes@[i2]) <= u32::MAX,
                forall|i2: int| 0 <= i2 < sizes@.len() ==> (#[trigger] sizes@[i2]) >= 1,
                prod_of_sizes(sizes@, sizes@.len() as int) == self.shape_seq()[dim as int],
                (self.stride_seq()[dim as int] as int) * (self.shape_seq()[dim as int] as int)
                    <= u32::MAX,
                stride_acc as int == (self.stride_seq()[dim as int] as int) * suffix_prod(
                    sizes@,
                    t as int,
                ),
                stride_acc <= u32::MAX,
                forall|u: int|
                    t <= u < sizes@.len() ==> (#[trigger] result.stride@[dim + u]) as int == (
                    self.stride_seq()[dim as int] as int) * suffix_prod(sizes@, u + 1),
                forall|j: int| 0 <= j < dim ==> #[trigger] result.shape@[j] == self.shape@[j],
                forall|j: int| 0 <= j < dim ==> #[trigger] result.stride@[j] == self.stride@[j],
                forall|j2: int|
                    dim + sizes@.len() <= j2 < rank + extra ==> #[trigger] result.shape@[j2]
                        == self.shape@[j2 - extra],
                forall|j2: int|
                    dim + sizes@.len() <= j2 < rank + extra ==> #[trigger] result.stride@[j2]
                        == self.stride@[j2 - extra],
                forall|u: int|
                    t <= u < sizes@.len() ==> #[trigger] result.shape@[dim + u] == sizes@[u]
                        as u32,
                t == sizes@.len() ==> stride_acc == self.stride@[dim as int],
                t < sizes@.len() ==> result.stride@[dim + sizes@.len() - 1]
                    == self.stride@[dim as int],
            decreases t,
        {
            t -= 1;
            let ghost pre_shape = result.shape@;
            let ghost pre_stride = result.stride@;
            result.shape[dim + t] = sizes[t] as u32;
            result.stride[dim + t] = stride_acc as u32;
            proof {
                assert forall|j2: int|
                    dim + sizes@.len() <= j2 < rank + extra implies #[trigger] result.shape@[j2]
                        == self.shape@[j2 - extra] by {
                    assert(dim + t < j2);
                    assert(pre_shape[j2] == self.shape@[j2 - extra]);
                    assert(result.shape@[j2] == pre_shape[j2]);
                }
                assert forall|j2: int|
                    dim + sizes@.len() <= j2 < rank + extra implies #[trigger] result.stride@[j2]
                        == self.stride@[j2 - extra] by {
                    assert(dim + t < j2);
                    assert(pre_stride[j2] == self.stride@[j2 - extra]);
                    assert(result.stride@[j2] == pre_stride[j2]);
                }
                let sa = stride_acc as int;
                let sz = sizes@[t as int] as int;
                assert(sa * sz <= 0xffff_ffff * 0xffff_ffffint) by (nonlinear_arith)
                    requires
                        0 <= sa <= 0xffff_ffffint,
                        0 <= sz <= 0xffff_ffffint,
                ;
            }
            proof {
                let sd = self.stride_seq()[dim as int] as int;
                assert(stride_acc as int * (sizes@[t as int] as int) == sd * suffix_prod(
                    sizes@,
                    t as int,
                )) by (nonlinear_arith)
                    requires
                        stride_acc as int == sd * suffix_prod(sizes@, t as int + 1),
                        suffix_prod(sizes@, t as int) == (sizes@[t as int] as int)
                            * suffix_prod(sizes@, t as int + 1),
                ;
                lemma_suffix_prod_le(sizes@, t as int);
                assert(sd * suffix_prod(sizes@, t as int) <= sd * prod_of_sizes(
                    sizes@,
                    sizes@.len() as int,
                )) by (nonlinear_arith)
                    requires
                        sd >= 0,
                        suffix_prod(sizes@, t as int) <= prod_of_sizes(
                            sizes@,
                            sizes@.len() as int,
                        ),
                ;
            }
            let next = stride_acc * (sizes[t] as u64);
            proof {
                assert(next <= u32::MAX);
            }
            stride_acc = if next <= u32::MAX as u64 {
                next
            } else {
                u32::MAX as u64
            };
        }
        proof {
            assert forall|j: int| dim < j < self.rank_spec() implies #[trigger] result.shape@[j
                + extra] == self.shape@[j] by {
                assert(result.shape@[j + extra] == self.shape@[j + extra - extra]);
            }
            assert forall|j: int| dim < j < self.rank_spec() implies #[trigger] result.stride@[j
                + extra] == self.stride@[j] by {
                assert(result.stride@[j + extra] == self.stride@[j + extra - extra]);
            }
        }
        result
    }

    /// Merge a range of row-major dimensions into one.  Returns `None` when
    /// the dimensions are not in row-major order.
    pub fn flatten(&self, start: usize, end: usize) -> (r: Option<Self>)
        requires
            start <= end,
            end <= self.rank_spec(),
            prod_of(self.shape_seq(), self.rank_spec()) <= u32::MAX,
        ensures
            ({
                match r {
                    Some(l) => {
                        if start == end {
                            l == *self
                        } else {
                            &&& l.shape_seq()[start as int] == range_prod(
                                self.shape_seq(),
                                start as int,
                                end as int,
                            )
                            &&& l.stride_seq()[start as int] == self.stride_seq()[end - 1]
                            &&& forall|j: int|
                                0 <= j < start ==> #[trigger] l.shape_seq()[j]
                                    == self.shape_seq()[j]
                            &&& forall|j: int|
                                0 <= j < start ==> #[trigger] l.stride_seq()[j]
                                    == self.stride_seq()[j]
                            &&& forall|j: int|
                                end <= j < self.rank_spec() ==> #[trigger] l.shape_seq()[j - (end
                                    - start - 1)] == self.shape_seq()[j]
                            &&& forall|j: int|
                                end <= j < self.rank_spec() ==> #[trigger] l.stride_seq()[j - (end
                                    - start - 1)] == self.stride_seq()[j]
                        }
                    },
                    None => start < end && !row_major_ok(
                        self.shape_seq(),
                        self.stride_seq(),
                        start as int,
                        end as int,
                    ),
                }
            }),
            r is Some && start < end ==> row_major_ok(
                self.shape_seq(),
                self.stride_seq(),
                start as int,
                end as int,
            ),
    {
        proof {
            lemma_rank_of(self.shape_seq());
        }
        if start >= end {
            return Some(*self);
        }
        let rank = self.rank();
        // Check row-major order and compute the merged size.
        let mut stride_acc: u128 = self.stride[end - 1] as u128;
        let mut prod: u64 = 1;
        let mut d: usize = end;
        while d > start
            invariant
                start <= d <= end,
                start < end,
                end <= rank,
                rank == self.rank_spec(),
                rank <= MAX_RANK,
                self.shape@.len() == MAX_RANK,
                self.stride@.len() == MAX_RANK,
                prod_of(self.shape_seq(), self.rank_spec()) <= u32::MAX,
                forall|i: int| 0 <= i < rank ==> self.shape_seq()[i] != 0,
                stride_acc <= 0x1_0000_0000_0000_0000u128,
                prod <= u32::MAX,
                prod == range_prod(self.shape_seq(), d as int, end as int),
                row_major_ok(self.shape_seq(), self.stride_seq(), d as int, end as int),
                d < end ==> stride_acc == (self.stride_seq()[d as int] as int) * (
                self.shape_seq()[d as int] as int),
                d == end ==> stride_acc == self.stride_seq()[end - 1],
            decreases d,
        {
            d -= 1;
            if (self.stride[d] as u128) != stride_acc {
                proof {
                    if d + 1 < end {
                        assert(stride_acc as int == (self.stride_seq()[d + 1] as int) * (
                        self.shape_seq()[d + 1] as int));
                        assert((self.stride_seq()[d + 1] as int) * (self.shape_seq()[d
                            + 1] as int) == (self.shape_seq()[d + 1] as int) * (
                        self.stride_seq()[d + 1] as int)) by (nonlinear_arith);
                        assert((self.stride_seq()[d as int] as int) != stride_acc as int);
                        assert((self.stride_seq()[d as int] as int) != (self.shape_seq()[d
                            + 1] as int) * (self.stride_seq()[d + 1] as int));
                        assert(!row_major_ok(
                            self.shape_seq(),
                            self.stride_seq(),
                            start as int,
                            end as int,
                        ));
                    }
                }
                return None;
            }
            proof {
                let pa = prod as int;
                let sh = self.shape@[d as int] as int;
                assert(pa * sh <= 0xffff_ffff * 0xffff_ffffint) by (nonlinear_arith)
                    requires
                        0 <= pa <= 0xffff_ffffint,
                        0 <= sh <= 0xffff_ffffint,
                ;
                let sa = stride_acc as int;
                assert(sa * sh <= 0x1_0000_0000_0000_0000 * 0xffff_ffffint) by (nonlinear_arith)
                    requires
                        0 <= sa <= 0x1_0000_0000_0000_0000int,
                        0 <= sh <= 0xffff_ffffint,
                ;
                assert(range_prod(self.shape_seq(), d as int, end as int) == sh * (prod as int));
                lemma_range_prod_le(self.shape_seq(), d as int, end as int, rank as int);
                assert(sh * (prod as int) <= u32::MAX);
            }
            let next_prod = prod * (self.shape[d] as u64);
            if next_prod > u32::MAX as u64 {
                return None;
            }
            proof {
                assert(next_prod == range_prod(self.shape_seq(), d as int, end as int));
                assert forall|d2: int|
                    d as int <= d2 < end - 1 implies (#[trigger] self.stride_seq()[d2]) as int
                    == (self.shape_seq()[d2 + 1] as int) * (self.stride_seq()[d2 + 1] as int) by {
                    if d2 > d as int {
                        assert(row_major_ok(
                            self.shape_seq(),
                            self.stride_seq(),
                            d as int + 1,
                            end as int,
                        ));
                    }
                }
                let sd = self.stride_seq()[d as int] as int;
                let shd = self.shape_seq()[d as int] as int;
                assert(sd <= 0xffff_ffffint && shd <= 0xffff_ffffint);
                assert(sd * shd <= 0xffff_ffff * 0xffff_ffffint) by (nonlinear_arith)
                    requires
                        0 <= sd <= 0xffff_ffffint,
                        0 <= shd <= 0xffff_ffffint,
                ;
            }
            prod = next_prod;
            let next_stride = stride_acc * (self.shape[d] as u128);
            stride_acc = if next_stride <= 0x1_0000_0000_0000_0000u128 {
                next_stride
            } else {
                0x1_0000_0000_0000_0000u128
            };
        }
        let mut result = *self;
        result.shape[start] = prod as u32;
        result.stride[start] = self.stride[end - 1];
        let removed = end - start - 1;
        let mut j: usize = end;
        while j < rank
            invariant
                end <= j <= rank,
                rank <= MAX_RANK,
                removed == end - start - 1,
                start < end,
                end <= rank,
                rank == self.rank_spec(),
                result.shape@.len() == MAX_RANK,
                result.stride@.len() == MAX_RANK,
                self.shape@.len() == MAX_RANK,
                self.stride@.len() == MAX_RANK,
                forall|j2: int| 0 <= j2 < start ==> #[trigger] result.shape@[j2]
                    == self.shape@[j2],
                forall|j2: int| 0 <= j2 < start ==> #[trigger] result.stride@[j2]
                    == self.stride@[j2],
                result.shape@[start as int] == prod as u32,
                result.stride@[start as int] == self.stride@[end - 1],
                forall|u: int|
                    end <= u < j ==> #[trigger] result.shape@[u - removed] == self.shape@[u],
                forall|u: int|
                    end <= u < j ==> #[trigger] result.stride@[u - removed] == self.stride@[u],
            decreases rank - j,
        {
            let ghost pre_shape = result.shape@;
            let ghost pre_stride = result.stride@;
            result.shape[j - removed] = self.shape[j];
            result.stride[j - removed] = self.stride[j];
            proof {
                assert forall|u: int|
                    end <= u < j + 1 implies #[trigger] result.shape@[u - removed]
                        == self.shape@[u] by {
                    if u < j {
                        assert(pre_shape[u - removed] == self.shape@[u]);
                        assert(result.shape@[u - removed] == pre_shape[u - removed]);
                    }
                }
                assert forall|u: int|
                    end <= u < j + 1 implies #[trigger] result.stride@[u - removed]
                        == self.stride@[u] by {
                    if u < j {
                        assert(pre_stride[u - removed] == self.stride@[u]);
                        assert(result.stride@[u - removed] == pre_stride[u - removed]);
                    }
                }
            }
            j += 1;
        }
        let mut z: usize = rank - removed;
        while z < MAX_RANK
            invariant
                rank - removed <= z <= MAX_RANK,
                rank <= MAX_RANK,
                removed == end - start - 1,
                start < end,
                end <= rank,
                rank == self.rank_spec(),
                result.shape@.len() == MAX_RANK,
                result.stride@.len() == MAX_RANK,
                self.shape@.len() == MAX_RANK,
                self.stride@.len() == MAX_RANK,
                forall|j2: int| 0 <= j2 < start ==> #[trigger] result.shape@[j2]
                    == self.shape@[j2],
                forall|j2: int| 0 <= j2 < start ==> #[trigger] result.stride@[j2]
                    == self.stride@[j2],
                result.shape@[start as int] == prod as u32,
                result.stride@[start as int] == self.stride@[end - 1],
                forall|u: int|
                    end <= u < rank ==> #[trigger] result.shape@[u - removed] == self.shape@[u],
                forall|u: int|
                    end <= u < rank ==> #[trigger] result.stride@[u - removed] == self.stride@[u],
            decreases MAX_RANK - z,
        {
            let ghost pre_shape = result.shape@;
            let ghost pre_stride = result.stride@;
            result.shape[z] = 0;
            result.stride[z] = 0;
            proof {
                assert forall|u: int|
                    end <= u < rank implies #[trigger] result.shape@[u - removed]
                        == self.shape@[u] by {
                    assert(u - removed < rank - removed);
                    assert(pre_shape[u - removed] == self.shape@[u]);
                    assert(result.shape@[u - removed] == pre_shape[u - removed]);
                }
                assert forall|u: int|
                    end <= u < rank implies #[trigger] result.stride@[u - removed]
                        == self.stride@[u] by {
                    assert(u - removed < rank - removed);
                    assert(pre_stride[u - removed] == self.stride@[u]);
                    assert(result.stride@[u - removed] == pre_stride[u - removed]);
                }
            }
            z += 1;
        }
        Some(result)
    }
}

/// The product of the dimension sizes in `[a, b)`.
pub open spec fn range_prod(shape: Seq<u32>, a: int, b: int) -> int
    decreases b - a,
{
    if a >= b {
        1
    } else {
        shape[a] * range_prod(shape, a + 1, b)
    }
}

/// Whether the dimensions in `[start, end)` are contiguous in row-major
/// order: each stride is the next dimension's size times its stride.
pub open spec fn row_major_ok(shape: Seq<u32>, stride: Seq<u32>, start: int, end: int) -> bool {
    forall|d: int|
        start <= d < end - 1 ==> (#[trigger] stride[d]) as int == (shape[d + 1] as int) * (
        stride[d + 1] as int)
}

/// A prefix product times the matching range product is the longer prefix
/// product.
proof fn lemma_prod_split(shape: Seq<u32>, a: int, n: int)
    requires
        0 <= a <= n <= shape.len(),
    ensures
        prod_of(shape, n) == prod_of(shape, a) * range_prod(shape, a, n),
    decreases n - a,
{
    if a == n {
        assert(range_prod(shape, a, n) == 1);
    } else {
        lemma_prod_split(shape, a + 1, n);
        assert(prod_of(shape, a + 1) == prod_of(shape, a) * shape[a]);
        assert(range_prod(shape, a, n) == shape[a] * range_prod(shape, a + 1, n));
        assert((prod_of(shape, a) * shape[a]) * range_prod(shape, a + 1, n) == prod_of(
            shape,
            a,
        ) * (shape[a] * range_prod(shape, a + 1, n))) by (nonlinear_arith);
    }
}

/// With nonzero dimensions, prefix and range products are at least one.
proof fn lemma_prod_pos_range(shape: Seq<u32>, a: int, b: int)
    requires
        0 <= a <= b <= shape.len(),
        forall|i: int| a <= i < b ==> (#[trigger] shape[i]) != 0,
    ensures
        range_prod(shape, a, b) >= 1,
    decreases b - a,
{
    if a < b {
        lemma_prod_pos_range(shape, a + 1, b);
        assert(shape[a] * range_prod(shape, a + 1, b) >= 1) by (nonlinear_arith)
            requires
                shape[a] >= 1,
                range_prod(shape, a + 1, b) >= 1,
        ;
    }
}

/// A range product of nonzero leading dimensions is bounded by the whole
/// product.
proof fn lemma_range_prod_le(shape: Seq<u32>, a: int, b: int, n: int)
    requires
        0 <= a <= b <= n <= shape.len(),
        forall|i: int| 0 <= i < n ==> (#[trigger] shape[i]) != 0,
    ensures
        1 <= range_prod(shape, a, b) <= prod_of(shape, n),
{
    lemma_prod_split(shape, a, b);
    lemma_prod_split(shape, 0, a);
    lemma_prod_pos_range(shape, a, b);
    lemma_prod_pos_range(shape, 0, a);
    lemma_prod_pos_range(shape, b, n);
    lemma_prod_split(shape, b, n);
    assert(prod_of(shape, 0) == 1);
    assert(prod_of(shape, a) == 1 * range_prod(shape, 0, a));
    assert(prod_of(shape, n) == prod_of(shape, b) * range_prod(shape, b, n));
    assert(prod_of(shape, b) == prod_of(shape, a) * range_prod(shape, a, b));
    assert(prod_of(shape, n) == (range_prod(shape, 0, a) * range_prod(shape, a, b))
        * range_prod(shape, b, n));
    assert(range_prod(shape, a, b) <= (range_prod(shape, 0, a) * range_prod(shape, a, b))
        * range_prod(shape, b, n)) by (nonlinear_arith)
        requires
            range_prod(shape, 0, a) >= 1,
            range_prod(shape, a, b) >= 1,
            range_prod(shape, b, n) >= 1,
    ;
}

/// The product of a list of split sizes.
pub open spec fn prod_of_sizes(sizes: Seq<usize>, n: int) -> int
    decreases n,
{
    if n <= 0 {
        1
    } else {
        prod_of_sizes(sizes, n - 1) * sizes[n - 1]
    }
}

/// The product of the split sizes from position `t` on.
pub open spec fn suffix_prod(sizes: Seq<usize>, t: int) -> int
    decreases sizes.len() - t,
{
    if t < 0 || t >= sizes.len() {
        1
    } else {
        sizes[t] * suffix_prod(sizes, t + 1)
    }
}

/// A prefix product times the matching suffix product is the whole product.
proof fn lemma_prefix_suffix(sizes: Seq<usize>, n: int)
    requires
        0 <= n <= sizes.len(),
    ensures
        prod_of_sizes(sizes, n) * suffix_prod(sizes, n) == prod_of_sizes(
            sizes,
            sizes.len() as int,
        ),
    decreases sizes.len() - n,
{
    if n == sizes.len() {
        assert(suffix_prod(sizes, n) == 1);
    } else {
        lemma_prefix_suffix(sizes, n + 1);
        assert(prod_of_sizes(sizes, n + 1) == prod_of_sizes(sizes, n) * sizes[n]);
        assert(suffix_prod(sizes, n) == sizes[n] * suffix_prod(sizes, n + 1));
        assert((prod_of_sizes(sizes, n) * sizes[n]) * suffix_prod(sizes, n + 1) == prod_of_sizes(
            sizes,
            n,
        ) * (sizes[n] * suffix_prod(sizes, n + 1))) by (nonlinear_arith);
    }
}

/// With every split size positive, each suffix product is positive and at
/// most the whole product.
proof fn lemma_suffix_prod_le(sizes: Seq<usize>, t: int)
    requires
        0 <= t <= sizes.len(),
        forall|i: int| 0 <= i < sizes.len() ==> (#[trigger] sizes[i]) >= 1,
    ensures
        1 <= suffix_prod(sizes, t) <= prod_of_sizes(sizes, sizes.len() as int),
    decreases sizes.len() - t,
{
    lemma_prefix_suffix(sizes, t);
    lemma_prod_of_sizes_pos(sizes, t);
    let pp = prod_of_sizes(sizes, t);
    let sp = suffix_prod(sizes, t);
    if t == sizes.len() {
        assert(sp == 1);
        assert(pp * 1 == pp);
        assert(pp >= 1);
    } else {
        lemma_suffix_prod_le(sizes, t + 1);
        assert(sp == sizes[t] * suffix_prod(sizes, t + 1));
        assert(sp >= 1) by (nonlinear_arith)
            requires
                sizes[t] >= 1,
                suffix_prod(sizes, t + 1) >= 1,
                sp == sizes[t] * suffix_prod(sizes, t + 1),
        ;
    }
    assert(sp <= pp * sp) by (nonlinear_arith)
        requires
            pp >= 1,
            sp >= 1,
    ;
}

/// With every split size positive, each prefix product is at least one.
proof fn lemma_prod_of_sizes_pos(sizes: Seq<usize>, n: int)
    requires
        0 <= n <= sizes.len(),
        forall|i: int| 0 <= i < sizes.len() ==> (#[trigger] sizes[i]) >= 1,
    ensures
        prod_of_sizes(sizes, n) >= 1,
    decreases n,
{
    if n > 0 {
        lemma_prod_of_sizes_pos(sizes, n - 1);
        assert(prod_of_sizes(sizes, n) == prod_of_sizes(sizes, n - 1) * sizes[n - 1]);
        assert(prod_of_sizes(sizes, n - 1) * sizes[n - 1] >= 1) by (nonlinear_arith)
            requires
                prod_of_sizes(sizes, n - 1) >= 1,
                sizes[n - 1] >= 1,
        ;
    }
}

/// A zero split size makes the whole product zero.
proof fn lemma_prod_of_sizes_zero(sizes: Seq<usize>, n: int, i: int)
    requires
        0 <= i < n <= sizes.len(),
        sizes[i] == 0,
    ensures
        prod_of_sizes(sizes, n) == 0,
    decreases n,
{
    if i == n - 1 {
        assert(prod_of_sizes(sizes, n) == prod_of_sizes(sizes, n - 1) * 0);
        assert(prod_of_sizes(sizes, n - 1) * 0 == 0) by (nonlinear_arith);
    } else {
        lemma_prod_of_sizes_zero(sizes, n - 1, i);
        assert(prod_of_sizes(sizes, n) == 0 * sizes[n - 1]);
        assert(0 * sizes[n - 1] == 0) by (nonlinear_arith);
    }
}

/// If the first `n` dimensions are nonzero, the rank is at least `n`.
proof fn lemma_rank_lower(shape: Seq<u32>, n: int)
    requires
        0 <= n <= shape.len(),
        forall|j: int| 0 <= j < n ==> shape[j] != 0,
    ensures
        rank_of(shape) >= n,
    decreases n,
{
    lemma_rank_of(shape);
    if n > 0 {
        assert(shape.first() != 0);
        assert forall|j: int| 0 <= j < n - 1 implies shape.drop_first()[j] != 0 by {
            assert(shape[j + 1] != 0);
        }
        lemma_rank_lower(shape.drop_first(), n - 1);
        assert(rank_of(shape) == 1 + rank_of(shape.drop_first()));
    }
}

/// Prefix products of nonzero dimensions are bounded by the full product.
proof fn lemma_prod_prefix_le(shape: Seq<u32>, i: int, n: int)
    requires
        0 <= i <= n <= shape.len(),
        forall|j: int| 0 <= j < n ==> shape[j] != 0,
    ensures
        prod_of(shape, i) <= prod_of(shape, n),
        prod_of(shape, i) >= 1,
    decreases n - i,
{
    if i < n {
        lemma_prod_prefix_le(shape, i + 1, n);
        assert(prod_of(shape, i + 1) == prod_of(shape, i) * shape[i]);
        assert(prod_of(shape, i) * shape[i] >= prod_of(shape, i)) by (nonlinear_arith)
            requires
                prod_of(shape, i) >= 1 || prod_of(shape, i) * shape[i] >= 1,
                shape[i] >= 1,
        ;
        assert(prod_of(shape, i) >= 1) by {
            lemma_prod_pos(shape, i, n);
        }
    } else {
        lemma_prod_pos(shape, i, n);
    }
}

/// Products of nonzero dimensions are positive.
proof fn lemma_prod_pos(shape: Seq<u32>, i: int, n: int)
    requires
        0 <= i <= n <= shape.len(),
        forall|j: int| 0 <= j < n ==> shape[j] != 0,
    ensures
        prod_of(shape, i) >= 1,
    decreases i,
{
    if i > 0 {
        lemma_prod_pos(shape, i - 1, n);
        assert(prod_of(shape, i) == prod_of(shape, i - 1) * shape[i - 1]);
        assert(prod_of(shape, i - 1) * shape[i - 1] >= 1) by (nonlinear_arith)
            requires
                prod_of(shape, i - 1) >= 1,
                shape[i - 1] >= 1,
        ;
    }
}

/// Prefix offsets are bounded by the full offset.
proof fn lemma_offset_prefix_le(index: Seq<usize>, stride: Seq<u32>, i: int, n: int)
    requires
        0 <= i <= n <= index.len(),
        n <= stride.len(),
    ensures
        offset_of(index, stride, i) <= offset_of(index, stride, n),
        offset_of(index, stride, i) >= 0,
    decreases n - i,
{
    if i < n {
        lemma_offset_prefix_le(index, stride, i + 1, n);
        assert(index[i] * stride[i] >= 0) by (nonlinear_arith);
    }
    lemma_offset_nonneg(index, stride, i);
}

/// Offsets are sums of nonnegative terms.
proof fn lemma_offset_nonneg(index: Seq<usize>, stride: Seq<u32>, i: int)
    requires
        0 <= i <= index.len(),
        i <= stride.len(),
    ensures
        offset_of(index, stride, i) >= 0,
    decreases i,
{
    if i > 0 {
        lemma_offset_nonneg(index, stride, i - 1);
        assert(index[i - 1] * stride[i - 1] >= 0) by (nonlinear_arith);
    }
}

} // verus!
