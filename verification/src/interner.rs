//! Interning of field elements.
//!
//! Matrices store repeated scalar values as small integer handles into an
//! [`Interner`]; hydrating a matrix resolves the handles back to scalars.

use crate::field::FieldElement;
use vstd::prelude::*;

verus! {

/// A handle into an [`Interner`].
pub type InternedFieldElement = u32;

/// A deduplicating store of field elements, addressed by dense handles.
#[derive(Clone, Debug)]
pub struct Interner {
    values: Vec<FieldElement>,
}

impl View for Interner {
    type V = Seq<int>;

    /// The residues stored, by handle.
    closed spec fn view(&self) -> Seq<int> {
        self.values@.map_values(|x: FieldElement| x@)
    }
}

impl Interner {
    /// An empty interner.
    pub fn new() -> (r: Self)
        ensures
            r@ =~= Seq::<int>::empty(),
    {
        Interner { values: Vec::new() }
    }

    /// Number of distinct handles given out so far.
    pub fn len(&self) -> (r: usize)
        ensures
            r == self@.len(),
    {
        self.values.len()
    }

    /// The handle for `value`, allocating a new one for a residue not seen
    /// before.  Returns the smallest handle carrying the residue.
    pub fn intern(&mut self, value: FieldElement) -> (h: InternedFieldElement)
        requires
            old(self)@.len() < u32::MAX,
        ensures
            h < final(self)@.len(),
            final(self)@[h as int] == value@,
            forall|j: int| 0 <= j < h ==> final(self)@[j] != value@,
            final(self)@ == if old(self)@.contains(value@) {
                old(self)@
            } else {
                old(self)@.push(value@)
            },
    {
        let n = self.values.len();
        let mut i: usize = 0;
        while i < n
            invariant
                i <= n,
                n == self@.len(),
                n < u32::MAX,
                self == old(self),
                forall|j: int| 0 <= j < i ==> self@[j] != value@,
            decreases n - i,
        {
            if self.values[i].eq_value(&value) {
                proof {
                    assert(self@.contains(value@)) by {
                        assert(self@[i as int] == value@);
                    }
                }
                return i as u32;
            }
            i += 1;
        }
        proof {
            assert(!old(self)@.contains(value@));
        }
        self.values.push(value);
        proof {
            assert(self@ =~= old(self)@.push(value@));
        }
        n as u32
    }

    /// The scalar behind a handle, if the handle is valid.
    pub fn get(&self, h: InternedFieldElement) -> (r: Option<FieldElement>)
        ensures
            match r {
                Some(v) => h < self@.len() && v@ == self@[h as int],
                None => h >= self@.len(),
            },
    {
        if (h as usize) < self.values.len() {
            Some(self.values[h as usize])
        } else {
            None
        }
    }
}

} // verus!
