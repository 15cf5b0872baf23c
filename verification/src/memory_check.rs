//! The initialization-memory grand product, behind the interface its
//! callers implement against.

use crate::errors::Error;
use crate::field::{encode_scalar, vals, FieldElement};
use crate::grand_product_argument::{
    fingerprints, init_addrs, seq_product, zero_col, GrandProductArgument,
};
use crate::transcript::ProverTranscript;
use vstd::arithmetic::power2::pow2;
use vstd::prelude::*;

verus! {

/// The initialization memory of an offline memory check: addresses
/// `0..2^variable_count` holding the eq-table values, timestamps all zero.
pub struct GPAInit {
    /// The log of the memory size.
    pub variable_count: u64,
    /// The memory values.
    pub eq: Vec<FieldElement>,
}

/// A grand-product argument driver.
pub trait GPA {
    /// Whether this instance's shape admits the argument.
    spec fn ok_on(&self) -> bool;

    /// The leaf fingerprints this instance commits to under `tau` and
    /// `gamma`.
    spec fn leaves(&self, tau: int, gamma: int) -> Seq<int>;

    /// Run the argument over this instance's memory.  On success the first
    /// eight appended proof bytes encode the grand product of the leaves.
    fn run(self, merlin: &mut ProverTranscript, tau: FieldElement, gamma: FieldElement) -> (r:
        Result<(), Error>)
        ensures
            r is Ok <==> self.ok_on(),
            r is Ok ==> final(merlin).data().len() >= old(merlin).data().len() + 8,
            r is Ok ==> final(merlin).data().subrange(0, old(merlin).data().len() as int) == old(
                merlin,
            ).data(),
            r is Ok ==> final(merlin).data().subrange(
                old(merlin).data().len() as int,
                old(merlin).data().len() as int + 8,
            ) == encode_scalar(seq_product(self.leaves(tau@, gamma@))),
    ;
}

impl GPA for GPAInit {
    open spec fn ok_on(&self) -> bool {
        self.variable_count <= 28 && self.eq@.len() == pow2(self.variable_count as nat)
    }

    open spec fn leaves(&self, tau: int, gamma: int) -> Seq<int> {
        fingerprints(gamma, tau, init_addrs(self.eq@.len()), vals(self.eq@), zero_col(
            self.eq@.len(),
        ))
    }

    fn run(self, merlin: &mut ProverTranscript, tau: FieldElement, gamma: FieldElement) -> (r:
        Result<(), Error>) {
        let n = self.eq.len();
        let mut addr: Vec<FieldElement> = Vec::new();
        let mut ts: Vec<FieldElement> = Vec::new();
        let mut i: usize = 0;
        while i < n
            invariant
                i <= n,
                addr@.len() == i,
                ts@.len() == i,
                forall|t: int| 0 <= t < i ==> (#[trigger] addr@[t]@) == t % crate::field::p(),
                forall|t: int| 0 <= t < i ==> (#[trigger] ts@[t]@) == 0,
            decreases n - i,
        {
            addr.push(FieldElement::from_u64(i as u64));
            ts.push(FieldElement::zero());
            i += 1;
        }
        if !(self.variable_count <= 28 && n == 1usize << (self.variable_count as usize)) {
            proof {
                if self.variable_count <= 28 {
                    crate::memory_check::lemma_shift_pow2(self.variable_count as nat);
                }
            }
            return Err(Error::DimensionMismatch);
        }
        proof {
            crate::memory_check::lemma_shift_pow2(self.variable_count as nat);
            assert(vals(addr@) =~= init_addrs(self.eq@.len()));
            assert(vals(ts@) =~= zero_col(self.eq@.len()));
            let k = self.variable_count as nat;
            assert(k <= 28 && addr@.len() == pow2(k));
            let kc = choose|k: nat| k <= 28 && addr@.len() == pow2(k);
            assert(kc == k) by {
                if kc < k {
                    vstd::arithmetic::power2::lemma_pow2_strictly_increases(kc, k);
                } else if kc > k {
                    vstd::arithmetic::power2::lemma_pow2_strictly_increases(k, kc);
                }
            }
        }
        GrandProductArgument::new(addr, self.eq, ts, tau, gamma, merlin);
        Ok(())
    }
}

/// For small exponents, shifting one left by `k` is `2^k`.
proof fn lemma_shift_pow2(k: nat)
    requires
        k <= 28,
    ensures
        (1usize << k) == pow2(k),
{
    vstd::arithmetic::power2::lemma_pow2_strictly_increases(k, 30);
    vstd::arithmetic::power2::lemma2_to64();
    vstd::bits::lemma_usize_shl_is_mul(1usize, k as usize);
}

} // verus!
