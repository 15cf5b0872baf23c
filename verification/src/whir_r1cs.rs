//! The proving scheme: R1CS satisfaction reduced to a multilinear sumcheck.
//!
//! [`WhirR1CSScheme::prove`] runs the Spartan-style sumcheck over
//! `eq(r, x) * (A(x)w * B(x)w - C(x)w)`, then computes the three "external
//! rows" (the sumcheck challenge vector multiplied from the left into each
//! constraint matrix) and appends the three claimed witness evaluations to
//! the transcript; a polynomial-commitment collaborator would bind them to a
//! committed witness.  [`WhirR1CSScheme::verify`] replays the sumcheck from
//! the proof bytes and checks the Spartan closing identity
//! `last == (claim_A * claim_B - claim_C) * eq(r, alpha)`.

use crate::compiler::R1CS;
use crate::errors::Error;
use crate::field::{encode_scalar, fadd, fmul, fsub, in_field, vals, FieldElement};
use crate::sparse_matrix::{col_dot_of, hyd_row_of, row_dot};
use crate::sumcheck::{
    calculate_eq, calculate_evaluations_over_boolean_hypercube_for_eq, comb_inf, comb_minus_one,
    eq_pair, eq_point, eval_cubic, eval_qubic_poly, fold_spec, fold_table, low_half,
    round_coeffs_spec, round_coefficients, spartan_round_evals, sum_prod3, sum_spartan,
};
use crate::transcript::{
    challenge_scalar_at, encode3, encode4, lemma_encode3, lemma_encode4, xof_of,
    ProverTranscript, VerifierTranscript,
};
use vstd::arithmetic::power2::pow2;
use vstd::prelude::*;

verus! {

/// A polynomial-commitment configuration handle, sized by the number of
/// variables of the committed multilinear polynomial.
#[derive(Clone, Copy, Debug)]
pub struct WhirConfig {
    /// The number of variables of the committed polynomial.
    pub num_variables: usize,
}

/// The commitment configuration for a polynomial over `num_variables`
/// variables.
pub fn new_whir_config_for_size(num_variables: usize) -> (r: WhirConfig)
    ensures
        r.num_variables == num_variables,
{
    WhirConfig { num_variables }
}

/// The smallest `k` with `n <= 2^k`.
pub fn ceil_log2(n: usize) -> (r: usize)
    ensures
        r <= 64,
        n <= pow2(r as nat),
        r > 0 ==> pow2((r - 1) as nat) < n,
{
    proof {
        vstd::arithmetic::power2::lemma2_to64();
    }
    let mut k: usize = 0;
    let mut p: u128 = 1;
    while p < n as u128
        invariant
            k <= 64,
            p == pow2(k as nat) as u128,
            p <= 0x1_0000_0000_0000_0000u128,
            k > 0 ==> pow2((k - 1) as nat) < n,
        decreases 64 - k,
    {
        proof {
            assert(n as u128 <= u64::MAX as u128);
            assert(k < 64) by {
                if k >= 64 {
                    vstd::arithmetic::power2::lemma2_to64_rest();
                    if k > 64 {
                        vstd::arithmetic::power2::lemma_pow2_strictly_increases(64, k as nat);
                    }
                }
            }
            vstd::arithmetic::power2::lemma_pow2_unfold(k as nat + 1);
            if k + 1 < 64 {
                vstd::arithmetic::power2::lemma_pow2_strictly_increases(k as nat + 1, 64);
            }
            vstd::arithmetic::power2::lemma2_to64_rest();
        }
        p = p * 2;
        k = k + 1;
    }
    k
}

/// Extend a vector of scalars with zeros up to length `n`.
pub fn pad_to_length(v: Vec<FieldElement>, n: usize) -> (r: Vec<FieldElement>)
    requires
        v@.len() <= n,
    ensures
        r@.len() == n,
        forall|i: int| 0 <= i < v@.len() ==> #[trigger] r@[i] == v@[i],
        forall|i: int| v@.len() <= i < n ==> (#[trigger] r@[i]@) == 0,
{
    let mut out = v;
    while out.len() < n
        invariant
            v@.len() <= out@.len() <= n || out@.len() == v@.len(),
            forall|i: int| 0 <= i < v@.len() ==> #[trigger] out@[i] == v@[i],
            forall|i: int| v@.len() <= i < out@.len() ==> (#[trigger] out@[i]@) == 0,
        decreases n - out.len(),
    {
        out.push(FieldElement::zero());
    }
    out
}

/// The sum `sum over i < n of x[i] * y[i]`.
pub open spec fn vec_dot(x: Seq<int>, y: Seq<int>, n: int) -> int
    decreases n,
{
    if n <= 0 {
        0
    } else {
        fadd(vec_dot(x, y, n - 1), fmul(x[n - 1], y[n - 1]))
    }
}

/// The dot product of two equally long scalar vectors.
pub fn dot_product(x: &Vec<FieldElement>, y: &Vec<FieldElement>) -> (r: FieldElement)
    requires
        x@.len() == y@.len(),
    ensures
        r@ == vec_dot(vals(x@), vals(y@), x@.len() as int),
{
    let mut acc = FieldElement::zero();
    let mut i: usize = 0;
    while i < x.len()
        invariant
            i <= x@.len(),
            x@.len() == y@.len(),
            acc@ == vec_dot(vals(x@), vals(y@), i as int),
        decreases x@.len() - i,
    {
        acc = acc.add(x[i].mul(y[i]));
        i += 1;
    }
    acc
}

/// The scheme's size parameters: `m = ceil(log2(witnesses))`,
/// `m_0 = ceil(log2(constraints))`, and commitment configurations sized to
/// the witness, the constraints, and the nonzero entries of `A`.
#[derive(Clone, Copy, Debug)]
pub struct WhirR1CSScheme {
    /// Log-width: the witness polynomial has `m` variables.
    pub m: usize,
    /// Log-height: the sumcheck runs for `m_0` rounds.
    pub m_0: usize,
    /// Log of the nonzero-entry count of matrix `A`.
    pub a_num_terms: usize,
    /// Commitment configuration sized to the constraint rows.
    pub whir_config_row: WhirConfig,
    /// Commitment configuration sized to the witness columns.
    pub whir_config_col: WhirConfig,
    /// Commitment configuration sized to `A`'s nonzero entries.
    pub whir_config_a_num_terms: WhirConfig,
}

/// A proof: the Fiat-Shamir transcript bytes.
#[derive(Clone, Debug)]
pub struct WhirR1CSProof {
    /// The serialized transcript.
    pub transcript: Vec<u8>,
}

/// What the sumcheck verifier extracts from a transcript: the combination
/// randomness `r`, the round challenges `alpha`, and the final claim.
pub struct DataFromSumcheckVerifier {
    /// The combination randomness drawn before the first round.
    pub r: Vec<FieldElement>,
    /// The round challenges, in round order.
    pub alpha: Vec<FieldElement>,
    /// The running claim after the last round.
    pub last_sumcheck_val: FieldElement,
}

/// Whether a proof byte string is accepted by the scheme's verifier: the
/// sumcheck rounds replay cleanly from a zero claim, the three claimed
/// evaluations parse, and the Spartan closing identity holds at the drawn
/// point.
pub open spec fn scheme_accepts(m: usize, m_0: usize, bytes: Seq<u8>) -> bool {
    let label = vstd::bytes::spec_u64_to_le_bytes(m as u64)
        + vstd::bytes::spec_u64_to_le_bytes(m_0 as u64);
    let absorbed1 = label + xof_of(label, (16 * m_0) as nat);
    let rr = rounds_replay(bytes, 0, absorbed1, 0, m_0 as nat);
    let rs = drawn_challenges(label, m_0 as nat);
    let s0 = vstd::bytes::spec_u64_from_le_bytes(bytes.subrange(rr.1, rr.1 + 8)) as int;
    let s1 = vstd::bytes::spec_u64_from_le_bytes(bytes.subrange(rr.1 + 8, rr.1 + 16)) as int;
    let s2 = vstd::bytes::spec_u64_from_le_bytes(bytes.subrange(rr.1 + 16, rr.1 + 24)) as int;
    &&& rr.0
    &&& rr.1 + 24 <= bytes.len()
    &&& forall|i: int|
        0 <= i < 3 ==> vstd::bytes::spec_u64_from_le_bytes(
            #[trigger] bytes.subrange(rr.1 + 8 * i, rr.1 + 8 * i + 8),
        ) < crate::field::MODULUS
    &&& rr.4 == fmul(fsub(fmul(s0, s1), s2), eq_pair(rs, rr.3))
}

/// The proof byte string the honest prover produces for a witness: the
/// Spartan sumcheck walk followed by the three claimed witness evaluations.
pub open spec fn proof_bytes(
    m: usize,
    m_0: usize,
    a: crate::sparse_matrix::SparseMatrix,
    b: crate::sparse_matrix::SparseMatrix,
    c: crate::sparse_matrix::SparseMatrix,
    interner: crate::interner::Interner,
    z: Seq<int>,
) -> Seq<u8> {
    let label = vstd::bytes::spec_u64_to_le_bytes(m as u64)
        + vstd::bytes::spec_u64_to_le_bytes(m_0 as u64);
    let absorbed1 = label + xof_of(label, (16 * m_0) as nat);
    let rs = drawn_challenges(label, m_0 as nat);
    let w = spartan_walk(
        eq_table(rs, pow2(m_0 as nat)),
        bound_table(a, interner, z, pow2(m_0 as nat)),
        bound_table(b, interner, z, pow2(m_0 as nat)),
        bound_table(c, interner, z, pow2(m_0 as nat)),
        0,
        absorbed1,
        m_0 as nat,
    );
    let zz = padded(z, pow2(m as nat));
    let sa = vec_dot(external_row(a, interner, w.2, pow2(m as nat)), zz, pow2(m as nat) as int);
    let sb = vec_dot(external_row(b, interner, w.2, pow2(m as nat)), zz, pow2(m as nat) as int);
    let sc = vec_dot(external_row(c, interner, w.2, pow2(m as nat)), zz, pow2(m as nat) as int);
    w.1 + encode3(seq![sa, sb, sc])
}

impl WhirR1CSScheme {
    /// Size bounds under which the scheme's table allocations fit.
    pub open spec fn wf(&self) -> bool {
        self.m < 30 && self.m_0 < 30
    }

    /// Derive the scheme parameters from an R1CS instance.
    pub fn new_for_r1cs(r1cs: &R1CS) -> (r: WhirR1CSScheme)
        requires
            r1cs.a.cols() < 0x10000000,
            r1cs.a@.len() < 0x10000000,
        ensures
            r.wf(),
            pow2(r.m as nat) >= r1cs.a.cols(),
            r.m > 0 ==> pow2((r.m - 1) as nat) < r1cs.a.cols(),
            pow2(r.m_0 as nat) >= r1cs.a@.len(),
            r.m_0 > 0 ==> pow2((r.m_0 - 1) as nat) < r1cs.a@.len(),
            pow2(r.a_num_terms as nat) >= r1cs.a.entry_count(),
            r.a_num_terms > 0 ==> pow2((r.a_num_terms - 1) as nat) < r1cs.a.entry_count(),
            r.whir_config_row.num_variables == r.m_0,
            r.whir_config_col.num_variables == r.m,
            r.whir_config_a_num_terms.num_variables == r.a_num_terms,
    {
        let m = ceil_log2(r1cs.num_witnesses());
        let m_0 = ceil_log2(r1cs.num_constraints());
        let a_num_terms = ceil_log2(r1cs.a.num_entries());
        proof {
            if m >= 30 {
                vstd::arithmetic::power2::lemma_pow2_strictly_increases(28, (m - 1) as nat);
                vstd::arithmetic::power2::lemma2_to64();
            }
            if m_0 >= 30 {
                vstd::arithmetic::power2::lemma_pow2_strictly_increases(28, (m_0 - 1) as nat);
                vstd::arithmetic::power2::lemma2_to64();
            }
        }
        WhirR1CSScheme {
            m,
            m_0,
            a_num_terms,
            whir_config_row: new_whir_config_for_size(m_0),
            whir_config_col: new_whir_config_for_size(m),
            whir_config_a_num_terms: new_whir_config_for_size(a_num_terms),
        }
    }

    /// The domain-separation label: the scheme's shape, as bytes.
    pub fn create_io_pattern(&self) -> (r: Vec<u8>)
        ensures
            r@ == vstd::bytes::spec_u64_to_le_bytes(self.m as u64)
                + vstd::bytes::spec_u64_to_le_bytes(self.m_0 as u64),
    {
        let mut label = vstd::bytes::u64_to_le_bytes(self.m as u64);
        let tail = vstd::bytes::u64_to_le_bytes(self.m_0 as u64);
        label.extend_from_slice(tail.as_slice());
        label
    }

    /// Prove satisfaction of `r1cs` under `witness`.  The witness length
    /// must match the system; a system larger than the scheme's power-of-two
    /// bounds fails with [`Error::SchemeCapacityExceeded`].
    pub fn prove(&self, r1cs: &R1CS, witness: Vec<FieldElement>) -> (r: Result<
        WhirR1CSProof,
        Error,
    >)
        requires
            self.wf(),
            r1cs.wf(),
        ensures
            match r {
                Ok(p) => witness@.len() == r1cs.a.cols() && r1cs.a.cols() <= pow2(self.m as nat)
                    && r1cs.a@.len() <= pow2(self.m_0 as nat) && p.transcript@ == proof_bytes(
                    self.m,
                    self.m_0,
                    r1cs.a,
                    r1cs.b,
                    r1cs.c,
                    r1cs.interner,
                    vals(witness@),
                ),
                Err(e) => (e == Error::DimensionMismatch && witness@.len() != r1cs.a.cols()) || (
                e == Error::SchemeCapacityExceeded && witness@.len() == r1cs.a.cols() && (
                r1cs.a.cols() > pow2(self.m as nat) || r1cs.a@.len() > pow2(self.m_0 as nat))),
            },
    {
        if witness.len() != r1cs.num_witnesses() {
            return Err(Error::DimensionMismatch);
        }
        proof {
            pow2_30_bounds(self.m as nat);
            pow2_30_bounds(self.m_0 as nat);
        }
        if r1cs.num_witnesses() > 1usize << self.m {
            return Err(Error::SchemeCapacityExceeded);
        }
        if r1cs.num_constraints() > 1usize << self.m_0 {
            return Err(Error::SchemeCapacityExceeded);
        }
        let label = self.create_io_pattern();
        let mut merlin = ProverTranscript::new(label.as_slice());
        let alpha = run_sumcheck_prover(r1cs, &witness, &mut merlin, self.m_0);
        let (ra, rb, rc) = calculate_external_row_of_r1cs_matrices(&alpha, r1cs, self.m);
        let z = pad_to_length(witness, 1usize << self.m);
        let sum_a = dot_product(&ra, &z);
        let sum_b = dot_product(&rb, &z);
        let sum_c = dot_product(&rc, &z);
        let mut sums: Vec<FieldElement> = Vec::new();
        sums.push(sum_a);
        sums.push(sum_b);
        sums.push(sum_c);
        proof {
            lemma_encode3(sums@);
        }
        merlin.add_scalars(&sums);
        let transcript = merlin.narg_string();
        proof {
            let n = pow2(self.m as nat);
            let zz = padded(vals(witness@), n);
            assert(vals(z@) =~= zz);
            assert(vals(sums@) =~= seq![sum_a@, sum_b@, sum_c@]);
            assert(transcript@ =~= proof_bytes(
                self.m,
                self.m_0,
                r1cs.a,
                r1cs.b,
                r1cs.c,
                r1cs.interner,
                vals(witness@),
            ));
        }
        Ok(WhirR1CSProof { transcript })
    }

    /// Verify a proof: replay the sumcheck, read the three claimed
    /// evaluations, and check the Spartan closing identity.  Never panics on
    /// adversarial bytes: malformed transcripts fail with
    /// [`Error::SerializationError`], inconsistent ones with
    /// [`Error::SumcheckEqualityViolation`].
    pub fn verify(&self, proof: &WhirR1CSProof) -> (r: Result<(), Error>)
        requires
            self.wf(),
        ensures
            r is Ok <==> scheme_accepts(self.m, self.m_0, proof.transcript@),
            r is Err ==> (r.get_Err_0() == Error::SerializationError || r.get_Err_0()
                == Error::SumcheckEqualityViolation),
    {
        let label = self.create_io_pattern();
        let mut arthur = VerifierTranscript::new(label.as_slice(), proof.transcript.as_slice());
        let ghost bytes = proof.transcript@;
        let ghost label_s = vstd::bytes::spec_u64_to_le_bytes(self.m as u64)
            + vstd::bytes::spec_u64_to_le_bytes(self.m_0 as u64);
        let ghost absorbed1 = label_s + xof_of(label_s, (16 * self.m_0) as nat);
        let ghost rr = rounds_replay(bytes, 0, absorbed1, 0, self.m_0 as nat);
        let data = match run_sumcheck_verifier(&mut arthur, self.m_0) {
            Ok(d) => d,
            Err(e) => {
                proof {
                    assert(!rr.0);
                    assert(!scheme_accepts(self.m, self.m_0, bytes));
                }
                return Err(e);
            },
        };
        let sums = match arthur.next_scalars(3) {
            Ok(s) => s,
            Err(_) => {
                proof {
                    assert(!(rr.1 + 24 <= bytes.len() && forall|i: int|
                        0 <= i < 3 ==> vstd::bytes::spec_u64_from_le_bytes(
                            #[trigger] bytes.subrange(rr.1 + 8 * i, rr.1 + 8 * i + 8),
                        ) < crate::field::MODULUS));
                    assert(!scheme_accepts(self.m, self.m_0, bytes));
                }
                return Err(Error::SerializationError);
            },
        };
        let eq_r_alpha = calculate_eq(&data.r, &data.alpha);
        let expected = sums[0].mul(sums[1]).sub(sums[2]).mul(eq_r_alpha);
        proof {
            let rs = drawn_challenges(label_s, self.m_0 as nat);
            let s0 = vstd::bytes::spec_u64_from_le_bytes(bytes.subrange(rr.1, rr.1 + 8)) as int;
            let s1 = vstd::bytes::spec_u64_from_le_bytes(
                bytes.subrange(rr.1 + 8, rr.1 + 16),
            ) as int;
            let s2 = vstd::bytes::spec_u64_from_le_bytes(
                bytes.subrange(rr.1 + 16, rr.1 + 24),
            ) as int;
            assert(sums@[0]@ == s0 && sums@[1]@ == s1 && sums@[2]@ == s2);
            assert(eq_r_alpha@ == eq_pair(rs, rr.3));
            assert(expected@ == fmul(fsub(fmul(s0, s1), s2), eq_pair(rs, rr.3)));
            assert(data.last_sumcheck_val@ == rr.4);
        }
        if !data.last_sumcheck_val.eq_value(&expected) {
            proof {
                assert(!scheme_accepts(self.m, self.m_0, bytes));
            }
            return Err(Error::SumcheckEqualityViolation);
        }
        proof {
            assert(scheme_accepts(self.m, self.m_0, bytes));
        }
        Ok(())
    }
}

/// `2^k` fits comfortably in a machine word for the scheme's bounds.
proof fn pow2_30_bounds(k: nat)
    requires
        k < 30,
    ensures
        pow2(k) < 0x40000000,
        pow2(k) == (1usize << k),
{
    vstd::arithmetic::power2::lemma_pow2_strictly_increases(k, 30);
    vstd::arithmetic::power2::lemma2_to64();
    assert(pow2(k) == (1usize << k)) by {
        vstd::bits::lemma_usize_shl_is_mul(1usize, k as usize);
    }
}

/// The three folded tables `A w`, `B w`, `C w`, each padded to `2^m_0`.
pub fn calculate_witness_bounds(r1cs: &R1CS, z: &Vec<FieldElement>, m_0: usize) -> (r: (
    Vec<FieldElement>,
    Vec<FieldElement>,
    Vec<FieldElement>,
))
    requires
        r1cs.wf(),
        z@.len() == r1cs.a.cols(),
        m_0 < 30,
        r1cs.a@.len() <= pow2(m_0 as nat),
    ensures
        r.0@.len() == pow2(m_0 as nat),
        r.1@.len() == pow2(m_0 as nat),
        r.2@.len() == pow2(m_0 as nat),
        forall|i: int|
            0 <= i < r1cs.a@.len() ==> (#[trigger] r.0@[i]@) == row_dot(
                hyd_row_of(r1cs.a, r1cs.interner, i),
                vals(z@),
                r1cs.a.cols() as int,
            ),
        forall|i: int|
            0 <= i < r1cs.a@.len() ==> (#[trigger] r.1@[i]@) == row_dot(
                hyd_row_of(r1cs.b, r1cs.interner, i),
                vals(z@),
                r1cs.a.cols() as int,
            ),
        forall|i: int|
            0 <= i < r1cs.a@.len() ==> (#[trigger] r.2@[i]@) == row_dot(
                hyd_row_of(r1cs.c, r1cs.interner, i),
                vals(z@),
                r1cs.a.cols() as int,
            ),
        forall|i: int| r1cs.a@.len() <= i < r.0@.len() ==> (#[trigger] r.0@[i]@) == 0,
        forall|i: int| r1cs.a@.len() <= i < r.1@.len() ==> (#[trigger] r.1@[i]@) == 0,
        forall|i: int| r1cs.a@.len() <= i < r.2@.len() ==> (#[trigger] r.2@[i]@) == 0,
{
    proof {
        pow2_30_bounds(m_0 as nat);
    }
    let n = 1usize << m_0;
    let ha = r1cs.a();
    let hb = r1cs.b();
    let hc = r1cs.c();
    let aw = ha.mul_vec(z);
    let bw = hb.mul_vec(z);
    let cw = hc.mul_vec(z);
    proof {
        assert forall|i: int| 0 <= i < r1cs.a@.len() implies (#[trigger] aw@[i]@) == row_dot(
            hyd_row_of(r1cs.a, r1cs.interner, i),
            vals(z@),
            r1cs.a.cols() as int,
        ) by {
            assert(ha.hyd_row(i) =~= hyd_row_of(r1cs.a, r1cs.interner, i));
            crate::sparse_matrix::lemma_row_dot_agree(
                ha.hyd_row(i),
                hyd_row_of(r1cs.a, r1cs.interner, i),
                vals(z@),
                r1cs.a.cols() as int,
            );
        }
        assert forall|i: int| 0 <= i < r1cs.a@.len() implies (#[trigger] bw@[i]@) == row_dot(
            hyd_row_of(r1cs.b, r1cs.interner, i),
            vals(z@),
            r1cs.a.cols() as int,
        ) by {
            assert(hb.hyd_row(i) =~= hyd_row_of(r1cs.b, r1cs.interner, i));
            crate::sparse_matrix::lemma_row_dot_agree(
                hb.hyd_row(i),
                hyd_row_of(r1cs.b, r1cs.interner, i),
                vals(z@),
                r1cs.a.cols() as int,
            );
        }
        assert forall|i: int| 0 <= i < r1cs.a@.len() implies (#[trigger] cw@[i]@) == row_dot(
            hyd_row_of(r1cs.c, r1cs.interner, i),
            vals(z@),
            r1cs.a.cols() as int,
        ) by {
            assert(hc.hyd_row(i) =~= hyd_row_of(r1cs.c, r1cs.interner, i));
            crate::sparse_matrix::lemma_row_dot_agree(
                hc.hyd_row(i),
                hyd_row_of(r1cs.c, r1cs.interner, i),
                vals(z@),
                r1cs.a.cols() as int,
            );
        }
    }
    let pa = pad_to_length(aw, n);
    let pb = pad_to_length(bw, n);
    let pc = pad_to_length(cw, n);
    (pa, pb, pc)
}

/// The cubic coefficients one Spartan round announces, from the current
/// tables and the running claim.
pub open spec fn spartan_round_coeffs(
    eq: Seq<int>,
    a: Seq<int>,
    b: Seq<int>,
    c: Seq<int>,
    claim: int,
) -> Seq<int> {
    round_coeffs_spec(
        claim,
        sum_spartan(low_half(eq), low_half(a), low_half(b), low_half(c), (eq.len() / 2) as int),
        sum_spartan(
            comb_minus_one(eq),
            comb_minus_one(a),
            comb_minus_one(b),
            comb_minus_one(c),
            (eq.len() / 2) as int,
        ),
        sum_prod3(comb_inf(eq), comb_inf(a), comb_inf(b), (eq.len() / 2) as int),
    )
}

/// The whole Spartan sumcheck walk, as a function of the starting tables,
/// claim and absorbed transcript prefix: the final absorbed bytes, the
/// appended proof bytes, and the drawn challenges, in round order.
pub open spec fn spartan_walk(
    eq: Seq<int>,
    a: Seq<int>,
    b: Seq<int>,
    c: Seq<int>,
    claim: int,
    absorbed: Seq<u8>,
    rounds: nat,
) -> (Seq<u8>, Seq<u8>, Seq<int>)
    decreases rounds,
{
    if rounds == 0 {
        (absorbed, Seq::empty(), Seq::empty())
    } else {
        let cs = spartan_round_coeffs(eq, a, b, c, claim);
        let msg = encode4(cs);
        let absorbed1 = absorbed + msg;
        let stream = xof_of(absorbed1, 16);
        let alpha = challenge_scalar_at(stream, 0);
        let absorbed2 = absorbed1 + stream;
        let rest = spartan_walk(
            fold_spec(eq, alpha),
            fold_spec(a, alpha),
            fold_spec(b, alpha),
            fold_spec(c, alpha),
            eval_cubic(cs, alpha),
            absorbed2,
            (rounds - 1) as nat,
        );
        (rest.0, msg + rest.1, seq![alpha] + rest.2)
    }
}

/// The challenge scalars drawn from one squeeze over `absorbed`.
pub open spec fn drawn_challenges(absorbed: Seq<u8>, n: nat) -> Seq<int> {
    Seq::new(n, |i: int| challenge_scalar_at(xof_of(absorbed, (16 * n) as nat), i))
}

/// The folded table `M w`, padded with zeros to length `n`.
pub open spec fn bound_table(
    m: crate::sparse_matrix::SparseMatrix,
    interner: crate::interner::Interner,
    z: Seq<int>,
    n: nat,
) -> Seq<int> {
    Seq::new(
        n,
        |i: int|
            if i < m@.len() {
                row_dot(hyd_row_of(m, interner, i), z, m.cols() as int)
            } else {
                0
            },
    )
}

/// The eq table over a point, as a sequence.
pub open spec fn eq_table(r: Seq<int>, n: nat) -> Seq<int> {
    Seq::new(n, |x: int| eq_point(r, x))
}

/// A sequence padded with zeros to length `n`.
pub open spec fn padded(z: Seq<int>, n: nat) -> Seq<int> {
    Seq::new(
        n,
        |i: int|
            if i < z.len() {
                z[i]
            } else {
                0
            },
    )
}

/// One external row: the eq-expansion of the sumcheck challenges multiplied
/// from the left into a matrix, padded to length `n`.
pub open spec fn external_row(
    m: crate::sparse_matrix::SparseMatrix,
    interner: crate::interner::Interner,
    alphas: Seq<int>,
    n: nat,
) -> Seq<int> {
    Seq::new(
        n,
        |c: int|
            if c < m.cols() {
                col_dot_of(m, interner, eq_table(alphas, m@.len()), c, m@.len() as int)
            } else {
                0
            },
    )
}

/// The prover side of the R1CS sumcheck: `m_0` rounds over the tables
/// `eq(r, x)`, `A w`, `B w`, `C w`.  The appended proof bytes, the final
/// absorbed state and the returned challenges are exactly those of
/// [`spartan_walk`] from the drawn combination randomness.
/// Run the Spartan sumcheck rounds over the given tables, starting from a
/// zero claim: the transcript and the returned challenges follow
/// [`spartan_walk`] exactly.
#[verifier::rlimit(100)]
#[verifier::spinoff_prover]
fn spartan_sumcheck_rounds(
    merlin: &mut ProverTranscript,
    eq_in: Vec<FieldElement>,
    a_in: Vec<FieldElement>,
    b_in: Vec<FieldElement>,
    c_in: Vec<FieldElement>,
    m_0: usize,
) -> (alpha: Vec<FieldElement>)
    requires
        m_0 < 30,
        eq_in@.len() == pow2(m_0 as nat),
        a_in@.len() == eq_in@.len(),
        b_in@.len() == eq_in@.len(),
        c_in@.len() == eq_in@.len(),
    ensures
        alpha@.len() == m_0,
        ({
            let w = spartan_walk(
                vals(eq_in@),
                vals(a_in@),
                vals(b_in@),
                vals(c_in@),
                0,
                old(merlin).absorbed(),
                m_0 as nat,
            );
            &&& final(merlin).absorbed() == w.0
            &&& final(merlin).data() == old(merlin).data() + w.1
            &&& vals(alpha@) == w.2
        }),
{
    let mut eq = eq_in;
    let mut a = a_in;
    let mut b = b_in;
    let mut c = c_in;
    let mut claim = FieldElement::zero();
    let mut alpha: Vec<FieldElement> = Vec::new();
    let ghost full = spartan_walk(
        vals(eq@),
        vals(a@),
        vals(b@),
        vals(c@),
        0,
        merlin.absorbed(),
        m_0 as nat,
    );
    let ghost mut consumed: Seq<u8> = Seq::empty();
    let ghost mut tgt_data = full.1;
    let ghost mut tgt_alphas = full.2;
    let ghost data0 = merlin.data();
    proof {
        assert(data0 + consumed =~= data0);
        assert(consumed + tgt_data =~= full.1);
        assert(vals(alpha@) + tgt_alphas =~= full.2);
    }
    let mut round: usize = 0;
    while round < m_0
        invariant
            round <= m_0,
            m_0 < 30,
            alpha@.len() == round,
            a@.len() == pow2((m_0 - round) as nat),
            b@.len() == a@.len(),
            c@.len() == a@.len(),
            eq@.len() == a@.len(),
            spartan_walk(
                vals(eq@),
                vals(a@),
                vals(b@),
                vals(c@),
                claim@,
                merlin.absorbed(),
                (m_0 - round) as nat,
            ) == (full.0, tgt_data, tgt_alphas),
            merlin.data() == data0 + consumed,
            consumed + tgt_data == full.1,
            vals(alpha@) + tgt_alphas == full.2,
        decreases m_0 - round,
    {
        proof {
            vstd::arithmetic::power2::lemma_pow2_unfold((m_0 - round) as nat);
            vstd::arithmetic::power2::lemma_pow2_pos((m_0 - round - 1) as nat);
        }
        let ghost cur_eq = vals(eq@);
        let ghost cur_a = vals(a@);
        let ghost cur_b = vals(b@);
        let ghost cur_c = vals(c@);
        let ghost claim0 = claim@;
        let ghost abs0 = merlin.absorbed();
        let ghost rem = (m_0 - round) as nat;
        let (e0, em1, einf) = spartan_round_evals(&eq, &a, &b, &c);
        let coeffs = round_coefficients(&claim, &e0, &em1, &einf);
        let mut msg: Vec<FieldElement> = Vec::new();
        msg.push(coeffs[0]);
        msg.push(coeffs[1]);
        msg.push(coeffs[2]);
        msg.push(coeffs[3]);
        proof {
            assert(vals(msg@) =~= spartan_round_coeffs(cur_eq, cur_a, cur_b, cur_c, claim0));
            lemma_encode4(msg@);
        }
        merlin.add_scalars(&msg);
        let ch = merlin.challenge_scalars(1);
        let alpha_i = ch[0];
        a = fold_table(&a, &alpha_i);
        b = fold_table(&b, &alpha_i);
        c = fold_table(&c, &alpha_i);
        eq = fold_table(&eq, &alpha_i);
        claim = eval_qubic_poly(&coeffs, &alpha_i);
        let ghost prev_alphas = vals(alpha@);
        alpha.push(alpha_i);
        proof {
            let cs = spartan_round_coeffs(cur_eq, cur_a, cur_b, cur_c, claim0);
            let msgb = encode4(cs);
            let absorbed1 = abs0 + msgb;
            let stream = xof_of(absorbed1, 16);
            let alpha_s = challenge_scalar_at(stream, 0);
            assert(alpha_i@ == alpha_s);
            let rest = spartan_walk(
                fold_spec(cur_eq, alpha_s),
                fold_spec(cur_a, alpha_s),
                fold_spec(cur_b, alpha_s),
                fold_spec(cur_c, alpha_s),
                eval_cubic(cs, alpha_s),
                absorbed1 + stream,
                (rem - 1) as nat,
            );
            assert(spartan_walk(cur_eq, cur_a, cur_b, cur_c, claim0, abs0, rem) == (
                rest.0,
                msgb + rest.1,
                seq![alpha_s] + rest.2,
            ));
            assert(vals(eq@) == fold_spec(cur_eq, alpha_s)) by {
                assert(vals(eq@) =~= fold_spec(cur_eq, alpha_s));
            }
            assert(vals(a@) == fold_spec(cur_a, alpha_s)) by {
                assert(vals(a@) =~= fold_spec(cur_a, alpha_s));
            }
            assert(vals(b@) == fold_spec(cur_b, alpha_s)) by {
                assert(vals(b@) =~= fold_spec(cur_b, alpha_s));
            }
            assert(vals(c@) == fold_spec(cur_c, alpha_s)) by {
                assert(vals(c@) =~= fold_spec(cur_c, alpha_s));
            }
            assert(claim@ == eval_cubic(cs, alpha_s));
            assert(merlin.absorbed() == absorbed1 + stream);
            assert(merlin.data() == data0 + consumed + msgb);
            consumed = consumed + msgb;
            assert(tgt_data == msgb + rest.1);
            assert(tgt_alphas == seq![alpha_s] + rest.2);
            tgt_data = rest.1;
            tgt_alphas = rest.2;
            assert(merlin.data() =~= data0 + consumed);
            assert(consumed + tgt_data =~= full.1);
            assert(vals(alpha@) =~= prev_alphas + seq![alpha_s]);
            assert((prev_alphas + seq![alpha_s]) + rest.2 =~= prev_alphas + (seq![alpha_s]
                + rest.2));
            assert(vals(alpha@) + tgt_alphas =~= full.2);
        }
        round += 1;
    }
    proof {
        assert(spartan_walk(
            vals(eq@),
            vals(a@),
            vals(b@),
            vals(c@),
            claim@,
            merlin.absorbed(),
            0,
        ) == (merlin.absorbed(), Seq::<u8>::empty(), Seq::<int>::empty()));
        assert(tgt_data =~= Seq::<u8>::empty());
        assert(tgt_alphas =~= Seq::<int>::empty());
        assert(consumed =~= full.1);
        assert(vals(alpha@) =~= full.2);
        assert(merlin.data() =~= data0 + full.1);
    }
    alpha
}

/// The prover side of the R1CS sumcheck: `m_0` rounds over the tables
/// `eq(r, x)`, `A w`, `B w`, `C w`.  The appended proof bytes, the final
/// absorbed state and the returned challenges are exactly those of
/// [`spartan_walk`] from the drawn combination randomness.
pub fn run_sumcheck_prover(
    r1cs: &R1CS,
    z: &Vec<FieldElement>,
    merlin: &mut ProverTranscript,
    m_0: usize,
) -> (alpha: Vec<FieldElement>)
    requires
        r1cs.wf(),
        z@.len() == r1cs.a.cols(),
        m_0 < 30,
        r1cs.a@.len() <= pow2(m_0 as nat),
    ensures
        alpha@.len() == m_0,
        ({
            let rs = drawn_challenges(old(merlin).absorbed(), m_0 as nat);
            let absorbed1 = old(merlin).absorbed() + xof_of(
                old(merlin).absorbed(),
                (16 * m_0) as nat,
            );
            let w = spartan_walk(
                eq_table(rs, pow2(m_0 as nat)),
                bound_table(r1cs.a, r1cs.interner, vals(z@), pow2(m_0 as nat)),
                bound_table(r1cs.b, r1cs.interner, vals(z@), pow2(m_0 as nat)),
                bound_table(r1cs.c, r1cs.interner, vals(z@), pow2(m_0 as nat)),
                0,
                absorbed1,
                m_0 as nat,
            );
            &&& final(merlin).absorbed() == w.0
            &&& final(merlin).data() == old(merlin).data() + w.1
            &&& vals(alpha@) == w.2
        }),
{
    let ghost rs = drawn_challenges(old(merlin).absorbed(), m_0 as nat);
    let r = merlin.challenge_scalars(m_0);
    let (a, b, c) = calculate_witness_bounds(r1cs, z, m_0);
    let eq = calculate_evaluations_over_boolean_hypercube_for_eq(&r);
    proof {
        let n = pow2(m_0 as nat);
        assert(vals(r@) =~= rs);
        assert(vals(a@) =~= bound_table(r1cs.a, r1cs.interner, vals(z@), n));
        assert(vals(b@) =~= bound_table(r1cs.b, r1cs.interner, vals(z@), n));
        assert(vals(c@) =~= bound_table(r1cs.c, r1cs.interner, vals(z@), n));
        assert(vals(eq@) =~= eq_table(rs, n));
    }
    spartan_sumcheck_rounds(merlin, eq, a, b, c, m_0)
}

/// The four cubic coefficients decoded from 32 proof bytes at `pos`.
pub open spec fn decoded_coeffs(bytes: Seq<u8>, pos: int) -> Seq<int> {
    seq![
        vstd::bytes::spec_u64_from_le_bytes(bytes.subrange(pos, pos + 8)) as int,
        vstd::bytes::spec_u64_from_le_bytes(bytes.subrange(pos + 8, pos + 16)) as int,
        vstd::bytes::spec_u64_from_le_bytes(bytes.subrange(pos + 16, pos + 24)) as int,
        vstd::bytes::spec_u64_from_le_bytes(bytes.subrange(pos + 24, pos + 32)) as int,
    ]
}

/// Whether the four words at `pos` are reduced residues.
pub open spec fn coeffs_canonical(bytes: Seq<u8>, pos: int) -> bool {
    forall|i: int|
        0 <= i < 4 ==> vstd::bytes::spec_u64_from_le_bytes(
            #[trigger] bytes.subrange(pos + 8 * i, pos + 8 * i + 8),
        ) < crate::field::MODULUS
}

/// Replaying consecutive sumcheck rounds from proof bytes: whether every
/// round parses and matches the running claim, with the final cursor,
/// absorbed state, drawn challenges and claim.
pub open spec fn rounds_replay(
    bytes: Seq<u8>,
    pos: int,
    absorbed: Seq<u8>,
    claim: int,
    rounds: nat,
) -> (bool, int, Seq<u8>, Seq<int>, int)
    decreases rounds,
{
    if rounds == 0 {
        (true, pos, absorbed, Seq::empty(), claim)
    } else if !(pos + 32 <= bytes.len() && coeffs_canonical(bytes, pos)) {
        (false, pos, absorbed, Seq::empty(), claim)
    } else {
        let cs = decoded_coeffs(bytes, pos);
        if fadd(eval_cubic(cs, 0), eval_cubic(cs, 1)) != claim {
            (false, pos, absorbed, Seq::empty(), claim)
        } else {
            let absorbed1 = absorbed + bytes.subrange(pos, pos + 32);
            let stream = xof_of(absorbed1, 16);
            let alpha = challenge_scalar_at(stream, 0);
            let rest = rounds_replay(
                bytes,
                pos + 32,
                absorbed1 + stream,
                eval_cubic(cs, alpha),
                (rounds - 1) as nat,
            );
            (rest.0, rest.1, rest.2, seq![alpha] + rest.3, rest.4)
        }
    }
}


/// The error a failing replay reports: a parse or canonicality failure is a
/// serialization error, a claim mismatch a sumcheck violation.
pub open spec fn replay_error(
    bytes: Seq<u8>,
    pos: int,
    absorbed: Seq<u8>,
    claim: int,
    rounds: nat,
) -> Error
    decreases rounds,
{
    if rounds == 0 {
        Error::SerializationError
    } else if !(pos + 32 <= bytes.len() && coeffs_canonical(bytes, pos)) {
        Error::SerializationError
    } else {
        let cs = decoded_coeffs(bytes, pos);
        if fadd(eval_cubic(cs, 0), eval_cubic(cs, 1)) != claim {
            Error::SumcheckEqualityViolation
        } else {
            let absorbed1 = absorbed + bytes.subrange(pos, pos + 32);
            let stream = xof_of(absorbed1, 16);
            let alpha = challenge_scalar_at(stream, 0);
            replay_error(
                bytes,
                pos + 32,
                absorbed1 + stream,
                eval_cubic(cs, alpha),
                (rounds - 1) as nat,
            )
        }
    }
}

/// An unparsable or non-canonical round message makes the replay reject.
pub proof fn lemma_replay_fail_parse(bytes: Seq<u8>, pos: int, absorbed: Seq<u8>, claim: int, rounds: nat)
    requires
        rounds > 0,
        !(pos + 32 <= bytes.len() && coeffs_canonical(bytes, pos)),
    ensures
        !rounds_replay(bytes, pos, absorbed, claim, rounds).0,
        replay_error(bytes, pos, absorbed, claim, rounds) == Error::SerializationError,
{
}

/// A round message that does not match the running claim makes the replay
/// reject.
pub proof fn lemma_replay_fail_claim(bytes: Seq<u8>, pos: int, absorbed: Seq<u8>, claim: int, rounds: nat)
    requires
        rounds > 0,
        pos + 32 <= bytes.len(),
        coeffs_canonical(bytes, pos),
        fadd(
            eval_cubic(decoded_coeffs(bytes, pos), 0),
            eval_cubic(decoded_coeffs(bytes, pos), 1),
        ) != claim,
    ensures
        !rounds_replay(bytes, pos, absorbed, claim, rounds).0,
        replay_error(bytes, pos, absorbed, claim, rounds)
            == Error::SumcheckEqualityViolation,
{
}

/// One accepted round unfolds the replay by one step.
pub proof fn lemma_replay_step(bytes: Seq<u8>, pos: int, absorbed: Seq<u8>, claim: int, rounds: nat)
    requires
        rounds > 0,
        pos + 32 <= bytes.len(),
        coeffs_canonical(bytes, pos),
        fadd(
            eval_cubic(decoded_coeffs(bytes, pos), 0),
            eval_cubic(decoded_coeffs(bytes, pos), 1),
        ) == claim,
    ensures
        ({
            let cs = decoded_coeffs(bytes, pos);
            let absorbed1 = absorbed + bytes.subrange(pos, pos + 32);
            let stream = xof_of(absorbed1, 16);
            let alpha = challenge_scalar_at(stream, 0);
            let rest = rounds_replay(
                bytes,
                pos + 32,
                absorbed1 + stream,
                eval_cubic(cs, alpha),
                (rounds - 1) as nat,
            );
            &&& rounds_replay(bytes, pos, absorbed, claim, rounds) == (
                rest.0,
                rest.1,
                rest.2,
                seq![alpha] + rest.3,
                rest.4,
            )
            &&& replay_error(bytes, pos, absorbed, claim, rounds) == replay_error(
                bytes,
                pos + 32,
                absorbed1 + stream,
                eval_cubic(cs, alpha),
                (rounds - 1) as nat,
            )
        }),
{
}

/// The coefficients of one Spartan round message are reduced residues.
proof fn lemma_spartan_coeffs_in_field(
    eq: Seq<int>,
    a: Seq<int>,
    b: Seq<int>,
    c: Seq<int>,
    claim: int,
)
    ensures
        ({
            let cs = spartan_round_coeffs(eq, a, b, c, claim);
            &&& in_field(cs[0])
            &&& in_field(cs[1])
            &&& in_field(cs[2])
            &&& in_field(cs[3])
        }),
{
    let n = (eq.len() / 2) as int;
    let e0 = sum_spartan(low_half(eq), low_half(a), low_half(b), low_half(c), n);
    let em1 = sum_spartan(
        comb_minus_one(eq),
        comb_minus_one(a),
        comb_minus_one(b),
        comb_minus_one(c),
        n,
    );
    let einf = sum_prod3(comb_inf(eq), comb_inf(a), comb_inf(b), n);
    if n <= 0 {
        assert(e0 == 0 && einf == 0);
    } else {
        crate::field::lemma_field_closed(
            sum_spartan(low_half(eq), low_half(a), low_half(b), low_half(c), n - 1),
            fmul(
                low_half(eq)[n - 1],
                fsub(fmul(low_half(a)[n - 1], low_half(b)[n - 1]), low_half(c)[n - 1]),
            ),
        );
        crate::field::lemma_field_closed(
            sum_prod3(comb_inf(eq), comb_inf(a), comb_inf(b), n - 1),
            fmul(fmul(comb_inf(eq)[n - 1], comb_inf(a)[n - 1]), comb_inf(b)[n - 1]),
        );
    }
    let c2 = fmul(
        crate::field::HALF as int,
        fsub(fsub(fsub(fadd(claim, em1), e0), e0), e0),
    );
    crate::field::lemma_field_closed(
        crate::field::HALF as int,
        fsub(fsub(fsub(fadd(claim, em1), e0), e0), e0),
    );
    crate::field::lemma_field_closed(fsub(fsub(claim, e0), e0), fadd(einf, c2));
    let cs = spartan_round_coeffs(eq, a, b, c, claim);
    assert(cs[0] == e0 && cs[2] == c2 && cs[3] == einf);
    assert(cs[1] == fsub(fsub(fsub(fsub(claim, cs[0]), cs[0]), cs[3]), cs[2]));
    crate::field::lemma_field_closed(fsub(fsub(fsub(claim, cs[0]), cs[0]), cs[3]), cs[2]);
    assert(in_field(cs[1]));
    assert(in_field(cs[0])) by {
        if n <= 0 {
        }
    }
}

/// A sumcheck round walk is `32` bytes per round.
proof fn lemma_walk_len(
    eq: Seq<int>,
    a: Seq<int>,
    b: Seq<int>,
    c: Seq<int>,
    claim: int,
    absorbed: Seq<u8>,
    rounds: nat,
)
    ensures
        spartan_walk(eq, a, b, c, claim, absorbed, rounds).1.len() == 32 * rounds,
    decreases rounds,
{
    if rounds > 0 {
        let cs = spartan_round_coeffs(eq, a, b, c, claim);
        let msg = encode4(cs);
        let absorbed1 = absorbed + msg;
        let stream = xof_of(absorbed1, 16);
        let alpha = challenge_scalar_at(stream, 0);
        lemma_spartan_coeffs_in_field(eq, a, b, c, claim);
        crate::transcript::lemma_encode_scalar_len(cs[0]);
        crate::transcript::lemma_encode_scalar_len(cs[1]);
        crate::transcript::lemma_encode_scalar_len(cs[2]);
        crate::transcript::lemma_encode_scalar_len(cs[3]);
        lemma_walk_len(
            fold_spec(eq, alpha),
            fold_spec(a, alpha),
            fold_spec(b, alpha),
            fold_spec(c, alpha),
            eval_cubic(cs, alpha),
            absorbed1 + stream,
            (rounds - 1) as nat,
        );
    }
}

/// One honest round message parses canonically to its coefficients and
/// passes the verifier's round check.
#[verifier::rlimit(100)]
#[verifier::spinoff_prover]
proof fn lemma_one_round_accepted(
    eq: Seq<int>,
    a: Seq<int>,
    b: Seq<int>,
    c: Seq<int>,
    claim: int,
    bytes: Seq<u8>,
    pos: int,
)
    requires
        in_field(claim),
        0 <= pos,
        pos + 32 <= bytes.len(),
        bytes.subrange(pos, pos + 32) == encode4(spartan_round_coeffs(eq, a, b, c, claim)),
    ensures
        ({
            let cs = spartan_round_coeffs(eq, a, b, c, claim);
            &&& coeffs_canonical(bytes, pos)
            &&& decoded_coeffs(bytes, pos) == cs
            &&& fadd(eval_cubic(cs, 0), eval_cubic(cs, 1)) == claim
        }),
{
    let cs = spartan_round_coeffs(eq, a, b, c, claim);
    let msg = encode4(cs);
    lemma_spartan_coeffs_in_field(eq, a, b, c, claim);
    crate::field::lemma_scalar_codec_roundtrip(cs[0]);
    crate::field::lemma_scalar_codec_roundtrip(cs[1]);
    crate::field::lemma_scalar_codec_roundtrip(cs[2]);
    crate::field::lemma_scalar_codec_roundtrip(cs[3]);
    assert(bytes.subrange(pos, pos + 8) =~= encode_scalar(cs[0]));
    assert(bytes.subrange(pos + 8, pos + 16) =~= encode_scalar(cs[1])) by {
        assert forall|i: int|
            0 <= i < 8 implies bytes.subrange(pos + 8, pos + 16)[i] == encode_scalar(cs[1])[i]
            by {
            assert(bytes.subrange(pos, pos + 32)[8 + i] == msg[8 + i]);
            assert(msg[8 + i] == encode_scalar(cs[1])[i]);
        }
    }
    assert(bytes.subrange(pos + 16, pos + 24) =~= encode_scalar(cs[2])) by {
        assert forall|i: int|
            0 <= i < 8 implies bytes.subrange(pos + 16, pos + 24)[i] == encode_scalar(cs[2])[i]
            by {
            assert(bytes.subrange(pos, pos + 32)[16 + i] == msg[16 + i]);
            assert(msg[16 + i] == encode_scalar(cs[2])[i]);
        }
    }
    assert(bytes.subrange(pos + 24, pos + 32) =~= encode_scalar(cs[3])) by {
        assert forall|i: int|
            0 <= i < 8 implies bytes.subrange(pos + 24, pos + 32)[i] == encode_scalar(cs[3])[i]
            by {
            assert(bytes.subrange(pos, pos + 32)[24 + i] == msg[24 + i]);
            assert(msg[24 + i] == encode_scalar(cs[3])[i]);
        }
    }
    assert(decoded_coeffs(bytes, pos) =~= cs);
    assert(coeffs_canonical(bytes, pos)) by {
        assert forall|i: int|
            0 <= i < 4 implies vstd::bytes::spec_u64_from_le_bytes(
            #[trigger] bytes.subrange(pos + 8 * i, pos + 8 * i + 8),
        ) < crate::field::MODULUS by {
            if i == 0 {
                assert(bytes.subrange(pos + 8 * i, pos + 8 * i + 8) =~= bytes.subrange(
                    pos,
                    pos + 8,
                ));
            } else if i == 1 {
                assert(bytes.subrange(pos + 8 * i, pos + 8 * i + 8) =~= bytes.subrange(
                    pos + 8,
                    pos + 16,
                ));
            } else if i == 2 {
                assert(bytes.subrange(pos + 8 * i, pos + 8 * i + 8) =~= bytes.subrange(
                    pos + 16,
                    pos + 24,
                ));
            } else {
                assert(bytes.subrange(pos + 8 * i, pos + 8 * i + 8) =~= bytes.subrange(
                    pos + 24,
                    pos + 32,
                ));
            }
        }
    }
    let n = (eq.len() / 2) as int;
    let e0 = sum_spartan(low_half(eq), low_half(a), low_half(b), low_half(c), n);
    let em1 = sum_spartan(
        comb_minus_one(eq),
        comb_minus_one(a),
        comb_minus_one(b),
        comb_minus_one(c),
        n,
    );
    let einf = sum_prod3(comb_inf(eq), comb_inf(a), comb_inf(b), n);
    assert(in_field(einf)) by {
        if n <= 0 {
        } else {
            crate::field::lemma_field_closed(
                sum_prod3(comb_inf(eq), comb_inf(a), comb_inf(b), n - 1),
                fmul(fmul(comb_inf(eq)[n - 1], comb_inf(a)[n - 1]), comb_inf(b)[n - 1]),
            );
        }
    }
    crate::sumcheck::lemma_round_coeffs_accepted(claim, e0, em1, einf);
}

/// Completeness of the sumcheck rounds: the byte messages an honest walk
/// appends pass every round check of the replay, which threads the same
/// challenges and absorbed state.
#[verifier::rlimit(100)]
#[verifier::spinoff_prover]
pub proof fn lemma_walk_rounds_accepted(
    eq: Seq<int>,
    a: Seq<int>,
    b: Seq<int>,
    c: Seq<int>,
    claim: int,
    absorbed: Seq<u8>,
    rounds: nat,
    bytes: Seq<u8>,
    pos: int,
)
    requires
        in_field(claim),
        0 <= pos,
        pos + spartan_walk(eq, a, b, c, claim, absorbed, rounds).1.len() <= bytes.len(),
        bytes.subrange(
            pos,
            pos + spartan_walk(eq, a, b, c, claim, absorbed, rounds).1.len() as int,
        ) == spartan_walk(eq, a, b, c, claim, absorbed, rounds).1,
    ensures
        ({
            let w = spartan_walk(eq, a, b, c, claim, absorbed, rounds);
            let rr = rounds_replay(bytes, pos, absorbed, claim, rounds);
            &&& rr.0
            &&& rr.1 == pos + w.1.len()
            &&& rr.2 == w.0
            &&& rr.3 == w.2
            &&& in_field(rr.4)
        }),
    decreases rounds,
{
    let w = spartan_walk(eq, a, b, c, claim, absorbed, rounds);
    lemma_walk_len(eq, a, b, c, claim, absorbed, rounds);
    if rounds == 0 {
        assert(w.1.len() == 0);
    } else {
        let cs = spartan_round_coeffs(eq, a, b, c, claim);
        let msg = encode4(cs);
        let absorbed1 = absorbed + msg;
        let stream = xof_of(absorbed1, 16);
        let alpha = challenge_scalar_at(stream, 0);
        let rest_w = spartan_walk(
            fold_spec(eq, alpha),
            fold_spec(a, alpha),
            fold_spec(b, alpha),
            fold_spec(c, alpha),
            eval_cubic(cs, alpha),
            absorbed1 + stream,
            (rounds - 1) as nat,
        );
        lemma_spartan_coeffs_in_field(eq, a, b, c, claim);
        crate::transcript::lemma_encode_scalar_len(cs[0]);
        crate::transcript::lemma_encode_scalar_len(cs[1]);
        crate::transcript::lemma_encode_scalar_len(cs[2]);
        crate::transcript::lemma_encode_scalar_len(cs[3]);
        lemma_walk_len(
            fold_spec(eq, alpha),
            fold_spec(a, alpha),
            fold_spec(b, alpha),
            fold_spec(c, alpha),
            eval_cubic(cs, alpha),
            absorbed1 + stream,
            (rounds - 1) as nat,
        );
        assert(bytes.subrange(pos, pos + 32) =~= msg) by {
            assert forall|i: int| 0 <= i < 32 implies bytes.subrange(pos, pos + 32)[i] == msg[i]
                by {
                assert(bytes.subrange(pos, pos + w.1.len() as int)[i] == w.1[i]);
                assert(w.1[i] == (msg + rest_w.1)[i]);
            }
        }
        lemma_one_round_accepted(eq, a, b, c, claim, bytes, pos);
        crate::field::lemma_field_closed(
            cs[0],
            fmul(alpha, fadd(cs[1], fmul(alpha, fadd(cs[2], fmul(alpha, cs[3]))))),
        );
        assert(in_field(eval_cubic(cs, alpha)));
        assert(bytes.subrange(pos + 32, pos + 32 + rest_w.1.len() as int) =~= rest_w.1) by {
            assert forall|i: int| 0 <= i < rest_w.1.len() implies bytes.subrange(
                pos + 32,
                pos + 32 + rest_w.1.len() as int,
            )[i] == rest_w.1[i] by {
                assert(bytes.subrange(pos, pos + w.1.len() as int)[32 + i] == w.1[32 + i]);
                assert(w.1[32 + i] == (msg + rest_w.1)[32 + i]);
            }
        }
        lemma_walk_rounds_accepted(
            fold_spec(eq, alpha),
            fold_spec(a, alpha),
            fold_spec(b, alpha),
            fold_spec(c, alpha),
            eval_cubic(cs, alpha),
            absorbed1 + stream,
            (rounds - 1) as nat,
            bytes,
            pos + 32,
        );
        lemma_replay_step(bytes, pos, absorbed, claim, rounds);
    }
}

/// The verifier side of the R1CS sumcheck: draw the combination
/// randomness, then accept exactly when [`rounds_replay`] accepts the proof
/// bytes, returning the drawn challenges and the final claim.
#[verifier::rlimit(100)]
#[verifier::spinoff_prover]
pub fn run_sumcheck_verifier(arthur: &mut VerifierTranscript, m_0: usize) -> (r: Result<
    DataFromSumcheckVerifier,
    Error,
>)
    requires
        m_0 < 30,
    ensures
        ({
            let absorbed1 = old(arthur).absorbed() + xof_of(
                old(arthur).absorbed(),
                (16 * m_0) as nat,
            );
            let rr = rounds_replay(
                old(arthur).data(),
                old(arthur).pos(),
                absorbed1,
                0,
                m_0 as nat,
            );
            match r {
                Ok(d) => {
                    &&& rr.0
                    &&& d.r@.len() == m_0
                    &&& vals(d.r@) == drawn_challenges(old(arthur).absorbed(), m_0 as nat)
                    &&& d.alpha@.len() == m_0
                    &&& vals(d.alpha@) == rr.3
                    &&& d.last_sumcheck_val@ == rr.4
                    &&& final(arthur).pos() == rr.1
                    &&& final(arthur).absorbed() == rr.2
                    &&& final(arthur).data() == old(arthur).data()
                },
                Err(e) => {
                    &&& !rr.0
                    &&& e == replay_error(
                        old(arthur).data(),
                        old(arthur).pos(),
                        absorbed1,
                        0,
                        m_0 as nat,
                    )
                    &&& (e == Error::SerializationError || e == Error::SumcheckEqualityViolation)
                    &&& final(arthur).data() == old(arthur).data()
                },
            }
        }),
{
    let rr_vec = arthur.challenge_scalars(m_0);
    proof {
        assert(vals(rr_vec@) =~= drawn_challenges(old(arthur).absorbed(), m_0 as nat));
    }
    match crate::spark::run_sumcheck_verifier_spark(arthur, m_0, FieldElement::zero()) {
        Ok((alpha, last)) => Ok(
            DataFromSumcheckVerifier { r: rr_vec, alpha, last_sumcheck_val: last },
        ),
        Err(e) => Err(e),
    }
}

/// The three "external rows": the eq-expansion of the sumcheck challenges,
/// multiplied from the left into each constraint matrix and padded to `2^m`.
pub fn calculate_external_row_of_r1cs_matrices(
    alpha: &Vec<FieldElement>,
    r1cs: &R1CS,
    m: usize,
) -> (r: (Vec<FieldElement>, Vec<FieldElement>, Vec<FieldElement>))
    requires
        r1cs.wf(),
        alpha@.len() < 30,
        m < 30,
        r1cs.a@.len() <= pow2(alpha@.len()),
        r1cs.a.cols() <= pow2(m as nat),
    ensures
        r.0@.len() == pow2(m as nat),
        r.1@.len() == pow2(m as nat),
        r.2@.len() == pow2(m as nat),
        vals(r.0@) == external_row(r1cs.a, r1cs.interner, vals(alpha@), pow2(m as nat)),
        vals(r.1@) == external_row(r1cs.b, r1cs.interner, vals(alpha@), pow2(m as nat)),
        vals(r.2@) == external_row(r1cs.c, r1cs.interner, vals(alpha@), pow2(m as nat)),
{
    proof {
        pow2_30_bounds(m as nat);
        pow2_30_bounds(alpha@.len());
    }
    let eq_alpha = calculate_evaluations_over_boolean_hypercube_for_eq(alpha);
    let rows = r1cs.num_constraints();
    let mut eq_rows: Vec<FieldElement> = Vec::new();
    let mut i: usize = 0;
    while i < rows
        invariant
            i <= rows,
            rows <= eq_alpha@.len(),
            eq_rows@.len() == i,
            forall|t: int| 0 <= t < i ==> #[trigger] eq_rows@[t] == eq_alpha@[t],
        decreases rows - i,
    {
        eq_rows.push(eq_alpha[i]);
        i += 1;
    }
    let n = 1usize << m;
    let ha = r1cs.a();
    let hb = r1cs.b();
    let hc = r1cs.c();
    let va = ha.vec_mul(&eq_rows);
    let vb = hb.vec_mul(&eq_rows);
    let vc = hc.vec_mul(&eq_rows);
    let ra = pad_to_length(va, n);
    let rb = pad_to_length(vb, n);
    let rc = pad_to_length(vc, n);
    proof {
        let nn = pow2(m as nat);
        let rows_i = r1cs.a@.len() as int;
        assert(vals(eq_rows@) =~= eq_table(vals(alpha@), r1cs.a@.len()));
        assert(vals(eq_rows@) == eq_table(vals(alpha@), r1cs.a@.len()));
        assert forall|cc: int| 0 <= cc < nn implies vals(ra@)[cc] == external_row(
            r1cs.a,
            r1cs.interner,
            vals(alpha@),
            nn,
        )[cc] by {
            if cc < r1cs.a.cols() {
                assert(ra@[cc] == va@[cc]);
                assert(va@[cc]@ == ha.col_dot(vals(eq_rows@), cc, rows_i));
            } else {
                assert(ra@[cc]@ == 0);
            }
        }
        assert(vals(ra@) =~= external_row(r1cs.a, r1cs.interner, vals(alpha@), nn));
        assert forall|cc: int| 0 <= cc < nn implies vals(rb@)[cc] == external_row(
            r1cs.b,
            r1cs.interner,
            vals(alpha@),
            nn,
        )[cc] by {
            if cc < r1cs.b.cols() {
                assert(rb@[cc] == vb@[cc]);
                assert(vb@[cc]@ == hb.col_dot(vals(eq_rows@), cc, rows_i));
            } else {
                assert(rb@[cc]@ == 0);
            }
        }
        assert(vals(rb@) =~= external_row(r1cs.b, r1cs.interner, vals(alpha@), nn));
        assert forall|cc: int| 0 <= cc < nn implies vals(rc@)[cc] == external_row(
            r1cs.c,
            r1cs.interner,
            vals(alpha@),
            nn,
        )[cc] by {
            if cc < r1cs.c.cols() {
                assert(rc@[cc] == vc@[cc]);
                assert(vc@[cc]@ == hc.col_dot(vals(eq_rows@), cc, rows_i));
            } else {
                assert(rc@[cc]@ == 0);
            }
        }
        assert(vals(rc@) =~= external_row(r1cs.c, r1cs.interner, vals(alpha@), nn));
    }
    (ra, rb, rc)
}

} // verus!
