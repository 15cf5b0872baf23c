//! The multilinear sumcheck round protocol.
//!
//! One round of sumcheck reduces a claim `claim = h(0) + h(1)` about a cubic
//! round polynomial `h` to the claim `h(alpha)` at a random challenge.  The
//! prover never interpolates `h` from four points: it evaluates the combiner
//! at `0`, at `-1` and "at infinity" and reconstructs the coefficients from
//! those three values and the running claim.  The reconstruction forces
//! `h(0) + h(1) == claim`, which is exactly the equation the verifier checks:
//! [`lemma_round_coeffs_accepted`] states that completeness fact.
//!
//! Tables are indexed most-significant-bit first: folding a table at a
//! challenge binds its first variable, pairing entry `j` with entry
//! `j + len/2`.

use crate::field::{
    fadd, fmul, fsub, in_field, lemma_field_closed, lemma_fmul_one, lemma_fmul_zero, vals,
    FieldElement, HALF,
};
use vstd::arithmetic::div_mod::{lemma_add_mod_noop, lemma_mod_twice, lemma_small_mod};
use vstd::arithmetic::power2::pow2;
use vstd::prelude::*;

verus! {

/// Evaluation of a cubic polynomial, coefficients low-to-high, by Horner's
/// rule.
pub open spec fn eval_cubic(c: Seq<int>, x: int) -> int {
    fadd(c[0], fmul(x, fadd(c[1], fmul(x, fadd(c[2], fmul(x, c[3]))))))
}

/// Evaluation of a linear polynomial `c[0] + x * c[1]`.
pub open spec fn eval_linear(c: Seq<int>, x: int) -> int {
    fadd(c[0], fmul(x, c[1]))
}

/// The equality indicator polynomial `eq(r, x)` for an `r.len()`-bit index
/// `x`: the last entry of `r` corresponds to the least significant bit.
pub open spec fn eq_point(r: Seq<int>, x: int) -> int
    decreases r.len(),
{
    if r.len() == 0 {
        1
    } else {
        fmul(eq_point(r.drop_last(), x / 2), eq_bit_factor(r.last(), x % 2))
    }
}

/// `r_i` where the bit is set, `1 - r_i` where it is clear.
pub open spec fn eq_bit_factor(ri: int, b: int) -> int {
    if b == 1 {
        ri
    } else {
        fsub(1, ri)
    }
}

/// The equality polynomial at a pair of points,
/// `prod over i of (r_i a_i + (1 - r_i)(1 - a_i))`.
pub open spec fn eq_pair(r: Seq<int>, a: Seq<int>) -> int
    decreases r.len(),
{
    if r.len() == 0 || a.len() == 0 {
        1
    } else {
        fmul(eq_pair(r.drop_last(), a.drop_last()), eq_pair_factor(r.last(), a.last()))
    }
}

/// One coordinate's contribution to `eq_pair`.
pub open spec fn eq_pair_factor(ri: int, ai: int) -> int {
    fadd(fmul(ri, ai), fmul(fsub(1, ri), fsub(1, ai)))
}

/// Sum of entrywise products of three tables over indices below `n`.
pub open spec fn sum_prod3(u0: Seq<int>, u1: Seq<int>, u2: Seq<int>, n: int) -> int
    decreases n,
{
    if n <= 0 {
        0
    } else {
        fadd(sum_prod3(u0, u1, u2, n - 1), fmul(fmul(u0[n - 1], u1[n - 1]), u2[n - 1]))
    }
}

/// Sum of the Spartan combiner `eq * (a * b - c)` over indices below `n`.
pub open spec fn sum_spartan(e: Seq<int>, a: Seq<int>, b: Seq<int>, c: Seq<int>, n: int) -> int
    decreases n,
{
    if n <= 0 {
        0
    } else {
        fadd(
            sum_spartan(e, a, b, c, n - 1),
            fmul(e[n - 1], fsub(fmul(a[n - 1], b[n - 1]), c[n - 1])),
        )
    }
}

/// The low half of a table: the round variable set to `0`.
pub open spec fn low_half(t: Seq<int>) -> Seq<int> {
    Seq::new((t.len() / 2) as nat, |j: int| t[j])
}

/// The table combined at `-1`: `2 t[j] - t[j + half]`.
pub open spec fn comb_minus_one(t: Seq<int>) -> Seq<int> {
    Seq::new((t.len() / 2) as nat, |j: int| fsub(fadd(t[j], t[j]), t[j + t.len() / 2]))
}

/// The table combined at infinity: `t[j + half] - t[j]`.
pub open spec fn comb_inf(t: Seq<int>) -> Seq<int> {
    Seq::new((t.len() / 2) as nat, |j: int| fsub(t[j + t.len() / 2], t[j]))
}

/// A table folded at a challenge: entry `j` becomes
/// `t[j] + alpha * (t[j + half] - t[j])`, binding the first variable.
pub open spec fn fold_spec(t: Seq<int>, alpha: int) -> Seq<int> {
    Seq::new((t.len() / 2) as nat, |j: int| fadd(t[j], fmul(alpha, fsub(t[j + t.len() / 2], t[j]))))
}

/// The four cubic coefficients a prover announces in one round, reconstructed
/// from the running claim and the evaluations at `0`, `-1` and infinity.
pub open spec fn round_coeffs_spec(claim: int, e0: int, em1: int, einf: int) -> Seq<int> {
    let c0 = e0;
    let c2 = fmul(HALF as int, fsub(fsub(fsub(fadd(claim, em1), e0), e0), e0));
    let c3 = einf;
    let c1 = fsub(fsub(fsub(fsub(claim, c0), c0), c3), c2);
    seq![c0, c1, c2, c3]
}

/// Completeness of one sumcheck round: whatever the three evaluations are,
/// the reconstructed coefficients satisfy the verifier's equation
/// `h(0) + h(1) == claim`.
pub proof fn lemma_round_coeffs_accepted(claim: int, e0: int, em1: int, einf: int)
    requires
        in_field(claim),
        in_field(einf),
    ensures
        ({
            let c = round_coeffs_spec(claim, e0, em1, einf);
            fadd(eval_cubic(c, 0), eval_cubic(c, 1)) == claim
        }),
{
    let c = round_coeffs_spec(claim, e0, em1, einf);
    let c0 = c[0];
    let c1 = c[1];
    let c2 = c[2];
    let c3 = c[3];
    // h(0) == fadd(c0, 0).
    assert(eval_cubic(c, 0) == fadd(c0, 0)) by {
        lemma_fmul_zero(fadd(c1, fmul(0, fadd(c2, fmul(0, c3)))));
    }
    // h(1) == c0 + (c1 + (c2 + c3)), since multiplying by one is the
    // identity on reduced residues.
    assert(eval_cubic(c, 1) == fadd(c0, fadd(c1, fadd(c2, c3)))) by {
        lemma_field_closed(0, c3);
        lemma_fmul_one(c3);
        lemma_field_closed(c2, c3);
        lemma_fmul_one(fadd(c2, c3));
        lemma_field_closed(c1, fadd(c2, c3));
        lemma_fmul_one(fadd(c1, fadd(c2, c3)));
    }
    // Unwind the reconstruction of c1 by cancelling one subtraction at a
    // time.
    let b1 = fsub(claim, c0);
    let b2 = fsub(b1, c0);
    let b3 = fsub(b2, c3);
    assert(c1 == fsub(b3, c2));
    assert(fadd(c1, fadd(c2, c3)) == fadd(fadd(c1, c2), c3)) by {
        crate::field::lemma_fadd_assoc(c1, c2, c3);
    }
    assert(fadd(c1, c2) == b3) by {
        lemma_field_closed(b2, c3);
        crate::field::lemma_fsub_fadd_cancel(b3, c2);
    }
    assert(fadd(b3, c3) == b2) by {
        lemma_field_closed(b1, c0);
        crate::field::lemma_fsub_fadd_cancel(b2, c3);
    }
    assert(fadd(c0, b2) == fadd(b2, c0)) by {
        crate::field::lemma_fadd_comm(c0, b2);
    }
    assert(fadd(b2, c0) == b1) by {
        lemma_field_closed(claim, c0);
        crate::field::lemma_fsub_fadd_cancel(b1, c0);
    }
    // Finally (c0 + 0) + (claim - c0) == claim.
    assert(fadd(fadd(c0, 0), b1) == claim) by {
        crate::field::lemma_fadd_mod(c0, b1);
        crate::field::lemma_fsub_mod(claim, c0);
        crate::field::lemma_fadd_mod(c0, claim - c0);
        lemma_small_mod(claim as nat, crate::field::p() as nat);
    }
}

/// Evaluate a cubic polynomial at a point.
pub fn eval_qubic_poly(poly: &[FieldElement; 4], point: &FieldElement) -> (r: FieldElement)
    ensures
        r@ == eval_cubic(vals(poly@), point@),
{
    let x = *point;
    poly[0].add(x.mul(poly[1].add(x.mul(poly[2].add(x.mul(poly[3]))))))
}

/// Evaluate a linear polynomial at a point.
pub fn eval_linear_poly(poly: &[FieldElement], point: &FieldElement) -> (r: FieldElement)
    requires
        poly@.len() == 2,
    ensures
        r@ == eval_linear(vals(poly@), point@),
{
    poly[0].add(point.mul(poly[1]))
}

/// The table of `eq(r, x)` over all points `x` of the boolean hypercube,
/// indexed with `r`'s first coordinate as the most significant bit.
pub fn calculate_evaluations_over_boolean_hypercube_for_eq(r: &Vec<FieldElement>) -> (out: Vec<
    FieldElement,
>)
    requires
        r@.len() < 30,
    ensures
        out@.len() == pow2(r@.len()),
        forall|x: int| 0 <= x < out@.len() ==> (#[trigger] out@[x]@) == eq_point(vals(r@), x),
{
    let mut out: Vec<FieldElement> = Vec::new();
    out.push(FieldElement::one());
    proof {
        vstd::arithmetic::power2::lemma2_to64();
        assert(eq_point(vals(r@).take(0), 0) == 1);
        lemma_small_mod(1nat, crate::field::p() as nat);
    }
    let mut i: usize = 0;
    while i < r.len()
        invariant
            i <= r@.len(),
            r@.len() < 30,
            out@.len() == pow2(i as nat),
            out@.len() >= 1,
            forall|x: int|
                0 <= x < out@.len() ==> (#[trigger] out@[x]@) == eq_point(vals(r@).take(i as int), x),
        decreases r@.len() - i,
    {
        proof {
            vstd::arithmetic::power2::lemma_pow2_strictly_increases(i as nat, 30);
            vstd::arithmetic::power2::lemma2_to64();
        }
        let ri = r[i];
        let one_minus_ri = FieldElement::one().sub(ri);
        let mut next: Vec<FieldElement> = Vec::new();
        let mut j: usize = 0;
        while j < out.len()
            invariant
                j <= out@.len(),
                i < r@.len(),
                ri == r@[i as int],
                one_minus_ri@ == fsub(1, r@[i as int]@),
                next@.len() == 2 * j,
                forall|x: int|
                    0 <= x < out@.len() ==> (#[trigger] out@[x]@) == eq_point(
                        vals(r@).take(i as int),
                        x,
                    ),
                forall|x: int|
                    0 <= x < next@.len() ==> (#[trigger] next@[x]@) == eq_point(
                        vals(r@).take(i as int + 1),
                        x,
                    ),
            decreases out@.len() - j,
        {
            let base = out[j];
            next.push(base.mul(one_minus_ri));
            next.push(base.mul(ri));
            proof {
                let pref = vals(r@).take(i as int + 1);
                assert(pref.drop_last() =~= vals(r@).take(i as int));
                assert(pref.last() == r@[i as int]@);
                let x0 = 2 * j as int;
                let x1 = 2 * j as int + 1;
                assert(x0 / 2 == j as int && x0 % 2 == 0);
                assert(x1 / 2 == j as int && x1 % 2 == 1);
                assert(next@[x0]@ == eq_point(pref, x0)) by {
                    crate::field::lemma_fmul_comm(out@[j as int]@, fsub(1, r@[i as int]@));
                }
                assert(next@[x1]@ == eq_point(pref, x1)) by {
                    crate::field::lemma_fmul_comm(out@[j as int]@, r@[i as int]@);
                }
            }
            j += 1;
        }
        out = next;
        proof {
            vstd::arithmetic::power2::lemma_pow2_unfold(i as nat + 1);
        }
        i += 1;
    }
    proof {
        assert(vals(r@).take(r@.len() as int) =~= vals(r@));
    }
    out
}

/// The equality polynomial `eq(r, a)` at a pair of points.
pub fn calculate_eq(r: &Vec<FieldElement>, a: &Vec<FieldElement>) -> (out: FieldElement)
    requires
        r@.len() == a@.len(),
    ensures
        out@ == eq_pair(vals(r@), vals(a@)),
{
    let mut acc = FieldElement::one();
    proof {
        lemma_small_mod(1nat, crate::field::p() as nat);
        assert(eq_pair(vals(r@).take(0), vals(a@).take(0)) == 1);
    }
    let mut i: usize = 0;
    while i < r.len()
        invariant
            i <= r@.len(),
            r@.len() == a@.len(),
            acc@ == eq_pair(vals(r@).take(i as int), vals(a@).take(i as int)),
        decreases r@.len() - i,
    {
        let ri = r[i];
        let ai = a[i];
        let one = FieldElement::one();
        let factor = ri.mul(ai).add(one.sub(ri).mul(one.sub(ai)));
        acc = acc.mul(factor);
        proof {
            let rp = vals(r@).take(i as int + 1);
            let ap = vals(a@).take(i as int + 1);
            assert(rp.drop_last() =~= vals(r@).take(i as int));
            assert(ap.drop_last() =~= vals(a@).take(i as int));
            assert(rp.last() == r@[i as int]@ && ap.last() == a@[i as int]@);
        }
        i += 1;
    }
    proof {
        assert(vals(r@).take(r@.len() as int) =~= vals(r@));
        assert(vals(a@).take(a@.len() as int) =~= vals(a@));
    }
    acc
}

/// Fold a table at a challenge, halving its length by binding the first
/// variable.
pub fn fold_table(t: &Vec<FieldElement>, alpha: &FieldElement) -> (r: Vec<FieldElement>)
    requires
        t@.len() % 2 == 0,
    ensures
        r@.len() == t@.len() / 2,
        vals(r@) =~= fold_spec(vals(t@), alpha@),
{
    let half = t.len() / 2;
    let mut out: Vec<FieldElement> = Vec::new();
    let mut j: usize = 0;
    while j < half
        invariant
            j <= half,
            half == t@.len() / 2,
            t@.len() % 2 == 0,
            t@.len() <= usize::MAX,
            out@.len() == j,
            forall|k: int|
                0 <= k < j ==> (#[trigger] out@[k]@) == fadd(
                    t@[k]@,
                    fmul(alpha@, fsub(t@[k + t@.len() / 2]@, t@[k]@)),
                ),
        decreases half - j,
    {
        let v = t[j].add(alpha.mul(t[j + half].sub(t[j])));
        out.push(v);
        j += 1;
    }
    out
}

/// The three aggregate evaluations of a product-of-three combiner: at `0`,
/// at `-1`, and at infinity.
pub fn product3_round_evals(t0: &Vec<FieldElement>, t1: &Vec<FieldElement>, t2: &Vec<FieldElement>)
    -> (r: (FieldElement, FieldElement, FieldElement))
    requires
        t0@.len() == t1@.len() == t2@.len(),
        t0@.len() % 2 == 0,
    ensures
        r.0@ == sum_prod3(
            low_half(vals(t0@)),
            low_half(vals(t1@)),
            low_half(vals(t2@)),
            (t0@.len() / 2) as int,
        ),
        r.1@ == sum_prod3(
            comb_minus_one(vals(t0@)),
            comb_minus_one(vals(t1@)),
            comb_minus_one(vals(t2@)),
            (t0@.len() / 2) as int,
        ),
        r.2@ == sum_prod3(
            comb_inf(vals(t0@)),
            comb_inf(vals(t1@)),
            comb_inf(vals(t2@)),
            (t0@.len() / 2) as int,
        ),
{
    let half = t0.len() / 2;
    let mut e0 = FieldElement::zero();
    let mut em1 = FieldElement::zero();
    let mut einf = FieldElement::zero();
    let mut j: usize = 0;
    while j < half
        invariant
            j <= half,
            half == t0@.len() / 2,
            t0@.len() == t1@.len() == t2@.len(),
            t0@.len() % 2 == 0,
            t0@.len() <= usize::MAX,
            e0@ == sum_prod3(
                low_half(vals(t0@)),
                low_half(vals(t1@)),
                low_half(vals(t2@)),
                j as int,
            ),
            em1@ == sum_prod3(
                comb_minus_one(vals(t0@)),
                comb_minus_one(vals(t1@)),
                comb_minus_one(vals(t2@)),
                j as int,
            ),
            einf@ == sum_prod3(
                comb_inf(vals(t0@)),
                comb_inf(vals(t1@)),
                comb_inf(vals(t2@)),
                j as int,
            ),
        decreases half - j,
    {
        let (a0, a1) = (t0[j], t0[j + half]);
        let (b0, b1) = (t1[j], t1[j + half]);
        let (c0, c1) = (t2[j], t2[j + half]);
        e0 = e0.add(a0.mul(b0).mul(c0));
        em1 = em1.add(a0.add(a0).sub(a1).mul(b0.add(b0).sub(b1)).mul(c0.add(c0).sub(c1)));
        einf = einf.add(a1.sub(a0).mul(b1.sub(b0)).mul(c1.sub(c0)));
        j += 1;
    }
    (e0, em1, einf)
}

/// The three aggregate evaluations of the Spartan combiner
/// `eq * (a * b - c)`: at `0`, at `-1`, and at infinity (where `c` drops
/// out).
pub fn spartan_round_evals(
    eq: &Vec<FieldElement>,
    a: &Vec<FieldElement>,
    b: &Vec<FieldElement>,
    c: &Vec<FieldElement>,
) -> (r: (FieldElement, FieldElement, FieldElement))
    requires
        eq@.len() == a@.len() == b@.len() == c@.len(),
        eq@.len() % 2 == 0,
    ensures
        r.0@ == sum_spartan(
            low_half(vals(eq@)),
            low_half(vals(a@)),
            low_half(vals(b@)),
            low_half(vals(c@)),
            (eq@.len() / 2) as int,
        ),
        r.1@ == sum_spartan(
            comb_minus_one(vals(eq@)),
            comb_minus_one(vals(a@)),
            comb_minus_one(vals(b@)),
            comb_minus_one(vals(c@)),
            (eq@.len() / 2) as int,
        ),
        r.2@ == sum_prod3(
            comb_inf(vals(eq@)),
            comb_inf(vals(a@)),
            comb_inf(vals(b@)),
            (eq@.len() / 2) as int,
        ),
{
    let half = eq.len() / 2;
    let mut e0 = FieldElement::zero();
    let mut em1 = FieldElement::zero();
    let mut einf = FieldElement::zero();
    let mut j: usize = 0;
    while j < half
        invariant
            j <= half,
            half == eq@.len() / 2,
            eq@.len() == a@.len() == b@.len() == c@.len(),
            eq@.len() % 2 == 0,
            eq@.len() <= usize::MAX,
            e0@ == sum_spartan(
                low_half(vals(eq@)),
                low_half(vals(a@)),
                low_half(vals(b@)),
                low_half(vals(c@)),
                j as int,
            ),
            em1@ == sum_spartan(
                comb_minus_one(vals(eq@)),
                comb_minus_one(vals(a@)),
                comb_minus_one(vals(b@)),
                comb_minus_one(vals(c@)),
                j as int,
            ),
            einf@ == sum_prod3(
                comb_inf(vals(eq@)),
                comb_inf(vals(a@)),
                comb_inf(vals(b@)),
                j as int,
            ),
        decreases half - j,
    {
        let (q0, q1) = (eq[j], eq[j + half]);
        let (a0, a1) = (a[j], a[j + half]);
        let (b0, b1) = (b[j], b[j + half]);
        let (c0, c1) = (c[j], c[j + half]);
        e0 = e0.add(q0.mul(a0.mul(b0).sub(c0)));
        em1 = em1.add(
            q0.add(q0).sub(q1).mul(
                a0.add(a0).sub(a1).mul(b0.add(b0).sub(b1)).sub(c0.add(c0).sub(c1)),
            ),
        );
        einf = einf.add(q1.sub(q0).mul(a1.sub(a0)).mul(b1.sub(b0)));
        j += 1;
    }
    (e0, em1, einf)
}

/// Reconstruct the four cubic coefficients of a round polynomial from the
/// running claim and the three aggregate evaluations.  The reconstruction
/// guarantees the verifier's equation `h(0) + h(1) == claim`; a broken
/// prover cannot even be compiled against this contract.
pub fn round_coefficients(
    claim: &FieldElement,
    e0: &FieldElement,
    em1: &FieldElement,
    einf: &FieldElement,
) -> (c: [FieldElement; 4])
    ensures
        vals(c@) =~= round_coeffs_spec(claim@, e0@, em1@, einf@),
        fadd(eval_cubic(vals(c@), 0), eval_cubic(vals(c@), 1)) == claim@,
{
    let half = FieldElement::half();
    let c0 = *e0;
    let c2 = half.mul(claim.add(*em1).sub(*e0).sub(*e0).sub(*e0));
    let c3 = *einf;
    let c1 = claim.sub(c0).sub(c0).sub(c3).sub(c2);
    let out = [c0, c1, c2, c3];
    proof {
        crate::field::lemma_in_field(*claim);
        crate::field::lemma_in_field(*einf);
        assert(vals(out@) =~= round_coeffs_spec(claim@, e0@, em1@, einf@));
        lemma_round_coeffs_accepted(claim@, e0@, em1@, einf@);
    }
    out
}

} // verus!
