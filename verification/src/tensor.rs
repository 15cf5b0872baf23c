//! A simple owned tensor over a [`Layout`].
//!
//! The tensor holds its elements in row-major storage together with the
//! layout that maps multi-dimensional indices to flat offsets.  Reshaping
//! operations consume the tensor and return it with an adjusted layout over
//! the same storage.

use crate::layout::{offset_of, prod_of_sizes, range_prod, row_major_ok, suffix_prod, Layout};
use vstd::prelude::*;

verus! {

/// A tensor owning its elements, indexed through a [`Layout`].
pub struct TensorMut<T, const MAX_RANK: usize> {
    /// The element storage, in the layout's offset space.
    data: Vec<T>,
    /// The memory layout of the dimensions.
    layout: Layout<MAX_RANK>,
}

impl<T, const MAX_RANK: usize> TensorMut<T, MAX_RANK> {
    /// The element storage.
    pub closed spec fn data_seq(&self) -> Seq<T> {
        self.data@
    }

    /// The layout.
    pub closed spec fn layout_spec(&self) -> Layout<MAX_RANK> {
        self.layout
    }

    /// A one-dimensional tensor over the given elements.
    pub fn from_vec(value: Vec<T>) -> (r: Self)
        requires
            MAX_RANK >= 1,
            value@.len() <= u32::MAX,
        ensures
            r.data_seq() == value@,
            r.layout_spec().shape_seq()[0] == value@.len() as u32,
            r.layout_spec().stride_seq()[0] == 1,
            value@.len() > 0 ==> r.layout_spec().rank_spec() == 1,
    {
        let n = value.len();
        TensorMut { layout: Layout::from_size(n), data: value }
    }

    /// The number of dimensions.
    pub fn rank(&self) -> (r: usize)
        ensures
            r == self.layout_spec().rank_spec(),
    {
        self.layout.rank()
    }

    /// The size of one dimension.
    pub fn shape(&self, dim: usize) -> (r: usize)
        requires
            dim < self.layout_spec().rank_spec(),
        ensures
            r == self.layout_spec().shape_seq()[dim as int],
    {
        self.layout.shape(dim)
    }

    /// The total number of elements.
    pub fn size(&self) -> (r: usize)
        requires
            crate::layout::prod_of(
                self.layout_spec().shape_seq(),
                self.layout_spec().rank_spec(),
            ) <= u32::MAX,
        ensures
            r == crate::layout::prod_of(
                self.layout_spec().shape_seq(),
                self.layout_spec().rank_spec(),
            ),
    {
        self.layout.size()
    }

    /// The whole storage, in offset order.
    pub fn as_mut_slice(&mut self) -> (r: &mut Vec<T>)
        ensures
            (*r)@ == old(self).data_seq(),
            final(r)@ == final(self).data_seq(),
            final(self).layout_spec() == old(self).layout_spec(),
    {
        &mut self.data
    }

    /// The element at a full index.
    pub fn at(&self, index: &[usize]) -> (r: &T)
        requires
            index@.len() == self.layout_spec().rank_spec(),
            forall|d: int|
                0 <= d < index@.len() ==> (#[trigger] index@[d])
                    < self.layout_spec().shape_seq()[d],
            offset_of(index@, self.layout_spec().stride_seq(), index@.len() as int)
                < self.data_seq().len(),
        ensures
            r == &self.data_seq()[offset_of(
                index@,
                self.layout_spec().stride_seq(),
                index@.len() as int,
            )],
    {
        let _n = self.data.len();
        let off = self.layout.offset(index);
        &self.data[off]
    }

    /// Overwrite the element at a full index.
    pub fn set_at(&mut self, index: &[usize], value: T)
        requires
            index@.len() == old(self).layout_spec().rank_spec(),
            forall|d: int|
                0 <= d < index@.len() ==> (#[trigger] index@[d]) < old(
                    self,
                ).layout_spec().shape_seq()[d],
            offset_of(index@, old(self).layout_spec().stride_seq(), index@.len() as int) < old(
                self,
            ).data_seq().len(),
        ensures
            final(self).layout_spec() == old(self).layout_spec(),
            final(self).data_seq() == old(self).data_seq().update(
                offset_of(index@, old(self).layout_spec().stride_seq(), index@.len() as int),
                value,
            ),
    {
        let _n = self.data.len();
        let off = self.layout.offset(index);
        self.data[off] = value;
    }

    /// The same tensor under a different maximum rank.
    pub fn with_max_rank<const N: usize>(self) -> (r: TensorMut<T, N>)
        requires
            N >= self.layout_spec().rank_spec(),
        ensures
            r.data_seq() == self.data_seq(),
            forall|i: int|
                0 <= i < self.layout_spec().rank_spec() ==> r.layout_spec().shape_seq()[i]
                    == self.layout_spec().shape_seq()[i],
            forall|i: int|
                0 <= i < self.layout_spec().rank_spec() ==> r.layout_spec().stride_seq()[i]
                    == self.layout_spec().stride_seq()[i],
            forall|i: int|
                self.layout_spec().rank_spec() <= i < N ==> r.layout_spec().shape_seq()[i] == 0,
    {
        let layout = self.layout.with_max_rank();
        TensorMut { data: self.data, layout }
    }

    /// Permute the dimensions according to `axes`.
    pub fn transpose(self, axes: &[usize]) -> (r: Self)
        requires
            axes@.len() == self.layout_spec().rank_spec(),
            forall|i: int|
                0 <= i < axes@.len() ==> (#[trigger] axes@[i]) < self.layout_spec().rank_spec(),
            forall|i: int, j: int| 0 <= i < j < axes@.len() ==> axes@[i] != axes@[j],
        ensures
            r.data_seq() == self.data_seq(),
            forall|i: int|
                0 <= i < axes@.len() ==> r.layout_spec().shape_seq()[i]
                    == self.layout_spec().shape_seq()[axes@[i] as int]
                    && r.layout_spec().stride_seq()[i] == self.layout_spec().stride_seq()[
                    axes@[i] as int],
            forall|i: int|
                axes@.len() <= i < MAX_RANK ==> r.layout_spec().shape_seq()[i] == 0,
    {
        let layout = self.layout.transpose(axes);
        TensorMut { data: self.data, layout }
    }

    /// Split one dimension into several row-major dimensions.
    pub fn unflatten(self, dim: usize, sizes: &[usize]) -> (r: Self)
        requires
            dim < self.layout_spec().rank_spec(),
            sizes@.len() >= 1,
            self.layout_spec().rank_spec() + sizes@.len() - 1 <= MAX_RANK,
            forall|i: int| 0 <= i < sizes@.len() ==> (#[trigger] sizes@[i]) <= u32::MAX,
            prod_of_sizes(sizes@, sizes@.len() as int) == self.layout_spec().shape_seq()[
                dim as int],
            (self.layout_spec().stride_seq()[dim as int] as int) * (
            self.layout_spec().shape_seq()[dim as int] as int) <= u32::MAX,
        ensures
            r.data_seq() == self.data_seq(),
            forall|j: int|
                0 <= j < dim ==> #[trigger] r.layout_spec().shape_seq()[j]
                    == self.layout_spec().shape_seq()[j],
            forall|j: int|
                0 <= j < dim ==> #[trigger] r.layout_spec().stride_seq()[j]
                    == self.layout_spec().stride_seq()[j],
            forall|t: int|
                0 <= t < sizes@.len() ==> #[trigger] r.layout_spec().shape_seq()[dim + t]
                    == sizes@[t] as u32,
            forall|t: int|
                0 <= t < sizes@.len() ==> (#[trigger] r.layout_spec().stride_seq()[dim
                    + t]) as int == (self.layout_spec().stride_seq()[dim as int] as int)
                    * suffix_prod(sizes@, t + 1),
            forall|j: int|
                dim < j < self.layout_spec().rank_spec() ==> #[trigger] r.layout_spec(
                ).shape_seq()[j + sizes@.len() - 1] == self.layout_spec().shape_seq()[j],
            forall|j: int|
                dim < j < self.layout_spec().rank_spec() ==> #[trigger] r.layout_spec(
                ).stride_seq()[j + sizes@.len() - 1] == self.layout_spec().stride_seq()[j],
    {
        let layout = self.layout.unflatten(dim, sizes);
        TensorMut { data: self.data, layout }
    }

    /// Merge a range of row-major dimensions into one.  Returns the tensor
    /// unchanged alongside `None` when the dimensions are not row-major.
    pub fn flatten(self, start: usize, end: usize) -> (r: (Self, bool))
        requires
            start <= end,
            end <= self.layout_spec().rank_spec(),
            crate::layout::prod_of(
                self.layout_spec().shape_seq(),
                self.layout_spec().rank_spec(),
            ) <= u32::MAX,
        ensures
            r.0.data_seq() == self.data_seq(),
            r.1 <==> (start == end || row_major_ok(
                self.layout_spec().shape_seq(),
                self.layout_spec().stride_seq(),
                start as int,
                end as int,
            )),
            !r.1 ==> r.0.layout_spec() == self.layout_spec(),
            r.1 && start == end ==> r.0.layout_spec() == self.layout_spec(),
            r.1 && start < end ==> {
                &&& r.0.layout_spec().shape_seq()[start as int] == range_prod(
                    self.layout_spec().shape_seq(),
                    start as int,
                    end as int,
                )
                &&& r.0.layout_spec().stride_seq()[start as int]
                    == self.layout_spec().stride_seq()[end - 1]
                &&& forall|j: int|
                    0 <= j < start ==> #[trigger] r.0.layout_spec().shape_seq()[j]
                        == self.layout_spec().shape_seq()[j]
                &&& forall|j: int|
                    0 <= j < start ==> #[trigger] r.0.layout_spec().stride_seq()[j]
                        == self.layout_spec().stride_seq()[j]
                &&& forall|j: int|
                    end <= j < self.layout_spec().rank_spec() ==> #[trigger] r.0.layout_spec(
                    ).shape_seq()[j - (end - start - 1)] == self.layout_spec().shape_seq()[j]
                &&& forall|j: int|
                    end <= j < self.layout_spec().rank_spec() ==> #[trigger] r.0.layout_spec(
                    ).stride_seq()[j - (end - start - 1)] == self.layout_spec().stride_seq()[j]
            },
    {
        match self.layout.flatten(start, end) {
            Some(layout) => (TensorMut { data: self.data, layout }, true),
            None => (self, false),
        }
    }
}

} // verus!
