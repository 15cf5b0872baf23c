//! The grand-product argument: a binary multiplication tree whose claimed
//! root is tied to its leaves by a chain of sumcheck instances.
//!
//! Leaves are offline memory-checking combinations
//! `gamma^2 * addr + gamma * value + timestamp - tau`.  The prover commits
//! the tree's root layer, then for each deeper layer runs one sumcheck whose
//! combiner is `eq(alpha, x) * v0(x) * v1(x)`, where `v0`/`v1` are the even-
//! and odd-indexed halves of the layer.  The verifier recomputes the
//! memory-consistency identity at the final random point.

use crate::errors::Error;
use crate::field::{fadd, fmul, fsub, in_field, vals, FieldElement};
use crate::sumcheck::{
    calculate_eq, calculate_evaluations_over_boolean_hypercube_for_eq, comb_inf, comb_minus_one,
    eq_pair, eval_cubic, eval_linear, eval_qubic_poly, fold_spec, fold_table, low_half,
    product3_round_evals, round_coeffs_spec, round_coefficients, sum_prod3,
};
use crate::whir_r1cs::{
    lemma_replay_fail_claim, lemma_replay_fail_parse, lemma_replay_step, rounds_replay,
};
use crate::transcript::{
    challenge_scalar_at, encode4, encode_scalars, lemma_encode4, xof_of, ProverTranscript,
    VerifierTranscript,
};
use vstd::arithmetic::power2::pow2;
use vstd::prelude::*;

verus! {

/// The product of all residues of a sequence.
pub open spec fn seq_product(s: Seq<int>) -> int
    decreases s.len(),
{
    if s.len() == 0 {
        1
    } else {
        fmul(seq_product(s.drop_last()), s.last())
    }
}

/// The sequence of products of adjacent pairs.
pub open spec fn pair_products(s: Seq<int>) -> Seq<int> {
    Seq::new((s.len() / 2) as nat, |i: int| fmul(s[2 * i], s[2 * i + 1]))
}

/// Multiplying adjacent pairs first does not change the overall product.
pub proof fn lemma_pair_products_keep_product(s: Seq<int>)
    requires
        s.len() % 2 == 0,
    ensures
        seq_product(pair_products(s)) == seq_product(s),
    decreases s.len(),
{
    if s.len() == 0 {
        assert(pair_products(s) =~= Seq::<int>::empty());
    } else {
        let st = s.drop_last().drop_last();
        lemma_pair_products_keep_product(st);
        assert(pair_products(s).drop_last() =~= pair_products(st));
        let x = s[s.len() - 2];
        let y = s[s.len() - 1];
        assert(pair_products(s).last() == fmul(x, y));
        assert(s.drop_last().drop_last() =~= st);
        assert(s.drop_last().last() == x);
        assert(seq_product(s.drop_last()) == fmul(seq_product(st), x));
        assert(seq_product(s) == fmul(fmul(seq_product(st), x), y));
        assert(seq_product(pair_products(s)) == fmul(seq_product(pair_products(st)), fmul(x, y)));
        crate::field::lemma_fmul_assoc(seq_product(st), x, y);
    }
}


/// The cubic coefficients one product-combiner round announces.
pub open spec fn product3_round_coeffs(t0: Seq<int>, t1: Seq<int>, t2: Seq<int>, claim: int)
    -> Seq<int> {
    round_coeffs_spec(
        claim,
        sum_prod3(low_half(t0), low_half(t1), low_half(t2), (t0.len() / 2) as int),
        sum_prod3(
            comb_minus_one(t0),
            comb_minus_one(t1),
            comb_minus_one(t2),
            (t0.len() / 2) as int,
        ),
        sum_prod3(comb_inf(t0), comb_inf(t1), comb_inf(t2), (t0.len() / 2) as int),
    )
}

/// The whole product-combiner sumcheck walk: the final absorbed bytes, the
/// appended proof bytes, the drawn challenges, and the fully folded tables.
pub open spec fn product3_walk(
    t0: Seq<int>,
    t1: Seq<int>,
    t2: Seq<int>,
    claim: int,
    absorbed: Seq<u8>,
    rounds: nat,
) -> (Seq<u8>, Seq<u8>, Seq<int>, Seq<int>, Seq<int>, Seq<int>)
    decreases rounds,
{
    if rounds == 0 {
        (absorbed, Seq::empty(), Seq::empty(), t0, t1, t2)
    } else {
        let cs = product3_round_coeffs(t0, t1, t2, claim);
        let msg = encode4(cs);
        let absorbed1 = absorbed + msg;
        let stream = xof_of(absorbed1, 16);
        let alpha = challenge_scalar_at(stream, 0);
        let rest = product3_walk(
            fold_spec(t0, alpha),
            fold_spec(t1, alpha),
            fold_spec(t2, alpha),
            eval_cubic(cs, alpha),
            absorbed1 + stream,
            (rounds - 1) as nat,
        );
        (rest.0, msg + rest.1, seq![alpha] + rest.2, rest.3, rest.4, rest.5)
    }
}

/// The combined memory-checking fingerprints `gamma^2 a + gamma v + t - tau`
/// of three equal-length columns.
pub open spec fn fingerprints(
    gamma: int,
    tau: int,
    addr: Seq<int>,
    value: Seq<int>,
    ts: Seq<int>,
) -> Seq<int> {
    Seq::new(
        addr.len(),
        |i: int|
            fsub(
                fadd(fadd(fmul(fmul(gamma, gamma), addr[i]), fmul(gamma, value[i])), ts[i]),
                tau,
            ),
    )
}

/// The layer `n` steps above the leaves: adjacent pairs multiplied `n`
/// times.
pub open spec fn iter_pairs(s: Seq<int>, n: nat) -> Seq<int>
    decreases n,
{
    if n == 0 {
        s
    } else {
        pair_products(iter_pairs(s, (n - 1) as nat))
    }
}

/// The prover's walk over the tree layers below the first line: for each
/// layer an eq-weighted product sumcheck followed by an interpolating line,
/// threading the drawn challenges.  Returns the final absorbed bytes, the
/// appended proof bytes, the final randomness and the final line challenge.
pub open spec fn layers_walk(
    leaves: Seq<int>,
    k: nat,
    li: nat,
    r: int,
    saved: int,
    prev: Seq<int>,
    absorbed: Seq<u8>,
) -> (Seq<u8>, Seq<u8>, Seq<int>, int)
    decreases k + 1 - li,
{
    if li > k || li < 1 {
        (absorbed, Seq::empty(), prev, r)
    } else {
        let layer = iter_pairs(leaves, (k - li) as nat);
        let w = product3_walk(
            crate::whir_r1cs::eq_table(prev + seq![r], pow2((li - 1) as nat)),
            even_half(layer),
            odd_half(layer),
            saved,
            absorbed,
            (li - 1) as nat,
        );
        let st = line_step(w.4[0], w.5[0], w.0);
        let rest = layers_walk(
            leaves,
            k,
            (li + 1) as nat,
            st.2,
            fadd(w.4[0], fmul(st.2, fsub(w.5[0], w.4[0]))),
            w.2,
            st.1,
        );
        (rest.0, w.1 + st.0 + rest.1, rest.2, rest.3)
    }
}

/// Every layer of a multiplication tree is the iterated pair product of its
/// leaf layer.
proof fn lemma_layers_iter_pairs(layers: Seq<Vec<FieldElement>>, j: int)
    requires
        layers.len() >= 1,
        forall|u: int| 0 <= u < layers.len() ==> (#[trigger] layers[u]@.len()) == pow2(u as nat),
        forall|u: int, i: int|
            0 <= u < layers.len() - 1 && 0 <= i < layers[u]@.len() ==> (#[trigger] layers[u]@[i]@)
                == fmul(layers[u + 1]@[2 * i]@, layers[u + 1]@[2 * i + 1]@),
        0 <= j < layers.len(),
    ensures
        vals(layers[j]@) == iter_pairs(
            vals(layers[layers.len() - 1]@),
            (layers.len() - 1 - j) as nat,
        ),
    decreases layers.len() - j,
{
    let leaves = vals(layers[layers.len() - 1]@);
    if j == layers.len() - 1 {
        assert(iter_pairs(leaves, 0) == leaves);
    } else {
        lemma_layers_iter_pairs(layers, j + 1);
        let below = iter_pairs(leaves, (layers.len() - 2 - j) as nat);
        assert(vals(layers[j + 1]@) == below);
        vstd::arithmetic::power2::lemma_pow2_unfold((j + 1) as nat);
        assert forall|i: int| 0 <= i < vals(layers[j]@).len() implies vals(layers[j]@)[i]
            == pair_products(below)[i] by {
            assert(layers[j]@[i]@ == fmul(layers[j + 1]@[2 * i]@, layers[j + 1]@[2 * i + 1]@));
            assert(below[2 * i] == layers[j + 1]@[2 * i]@);
            assert(below[2 * i + 1] == layers[j + 1]@[2 * i + 1]@);
        }
        assert(vals(layers[j]@) =~= pair_products(below));
        assert(iter_pairs(leaves, (layers.len() - 1 - j) as nat) == pair_products(below));
    }
}

/// The grand product of residues is a residue.
pub proof fn lemma_seq_product_in_field(s: Seq<int>)
    ensures
        in_field(seq_product(s)),
    decreases s.len(),
{
    if s.len() == 0 {
        assert(seq_product(s) == 1);
    } else {
        lemma_seq_product_in_field(s.drop_last());
        crate::field::lemma_field_closed(seq_product(s.drop_last()), s.last());
    }
}

/// The claimed product a replay reads off an honestly committed root is
/// the committed value itself.
pub proof fn lemma_gpa_claimed_product(
    bytes: Seq<u8>,
    pos: int,
    absorbed: Seq<u8>,
    layers: nat,
    product: int,
)
    requires
        in_field(product),
        0 <= pos,
        pos + 8 <= bytes.len(),
        bytes.subrange(pos, pos + 8) == crate::field::encode_scalar(product),
    ensures
        gpa_replay(bytes, pos, absorbed, layers).5 == product,
{
    crate::field::lemma_scalar_codec_roundtrip(product);
    assert(bytes.subrange(pos + 8 * 0, pos + 8 * 0 + 8) =~= bytes.subrange(pos, pos + 8));
    assert(words_canonical(bytes, pos, 1)) by {
        assert forall|i: int|
            0 <= i < 1 implies vstd::bytes::spec_u64_from_le_bytes(
            #[trigger] bytes.subrange(pos + 8 * i, pos + 8 * i + 8),
        ) < crate::field::MODULUS by {
            assert(bytes.subrange(pos + 8 * i, pos + 8 * i + 8) =~= bytes.subrange(
                pos,
                pos + 8,
            ));
        }
    }
    assert(decoded_scalar(bytes, pos) == product);
}

/// The even-indexed entries of a layer.
pub open spec fn even_half(s: Seq<int>) -> Seq<int> {
    Seq::new(s.len() / 2, |i: int| s[2 * i])
}

/// The odd-indexed entries of a layer.
pub open spec fn odd_half(s: Seq<int>) -> Seq<int> {
    Seq::new(s.len() / 2, |i: int| s[2 * i + 1])
}

/// One interpolating-line step of the layer walk: the two appended scalar
/// encodings, the absorbed bytes afterwards, and the challenge drawn.
pub open spec fn line_step(c0: int, c1: int, absorbed: Seq<u8>) -> (Seq<u8>, Seq<u8>, int) {
    let msg = crate::field::encode_scalar(c0) + crate::field::encode_scalar(fsub(c1, c0));
    let absorbed1 = absorbed + msg;
    let stream = xof_of(absorbed1, 16);
    (msg, absorbed1 + stream, challenge_scalar_at(stream, 0))
}

/// The coefficients of one product-combiner round message are reduced
/// residues.
proof fn lemma_product3_coeffs_in_field(t0: Seq<int>, t1: Seq<int>, t2: Seq<int>, claim: int)
    ensures
        ({
            let cs = product3_round_coeffs(t0, t1, t2, claim);
            &&& in_field(cs[0])
            &&& in_field(cs[1])
            &&& in_field(cs[2])
            &&& in_field(cs[3])
        }),
{
    let n = (t0.len() / 2) as int;
    let e0 = sum_prod3(low_half(t0), low_half(t1), low_half(t2), n);
    let em1 = sum_prod3(comb_minus_one(t0), comb_minus_one(t1), comb_minus_one(t2), n);
    let einf = sum_prod3(comb_inf(t0), comb_inf(t1), comb_inf(t2), n);
    if n > 0 {
        crate::field::lemma_field_closed(
            sum_prod3(low_half(t0), low_half(t1), low_half(t2), n - 1),
            fmul(fmul(low_half(t0)[n - 1], low_half(t1)[n - 1]), low_half(t2)[n - 1]),
        );
        crate::field::lemma_field_closed(
            sum_prod3(comb_inf(t0), comb_inf(t1), comb_inf(t2), n - 1),
            fmul(fmul(comb_inf(t0)[n - 1], comb_inf(t1)[n - 1]), comb_inf(t2)[n - 1]),
        );
    }
    let c2 = fmul(
        crate::field::HALF as int,
        fsub(fsub(fsub(fadd(claim, em1), e0), e0), e0),
    );
    crate::field::lemma_field_closed(
        crate::field::HALF as int,
        fsub(fsub(fsub(fadd(claim, em1), e0), e0), e0),
    );
    let cs = product3_round_coeffs(t0, t1, t2, claim);
    assert(cs[0] == e0 && cs[2] == c2 && cs[3] == einf);
    assert(cs[1] == fsub(fsub(fsub(fsub(claim, cs[0]), cs[0]), cs[3]), cs[2]));
    crate::field::lemma_field_closed(fsub(fsub(fsub(claim, cs[0]), cs[0]), cs[3]), cs[2]);
}

/// One honest product-combiner round message parses canonically and passes
/// the verifier's round check.
#[verifier::rlimit(100)]
#[verifier::spinoff_prover]
proof fn lemma_product3_one_round_accepted(
    t0: Seq<int>,
    t1: Seq<int>,
    t2: Seq<int>,
    claim: int,
    bytes: Seq<u8>,
    pos: int,
)
    requires
        in_field(claim),
        0 <= pos,
        pos + 32 <= bytes.len(),
        bytes.subrange(pos, pos + 32) == encode4(product3_round_coeffs(t0, t1, t2, claim)),
    ensures
        ({
            let cs = product3_round_coeffs(t0, t1, t2, claim);
            &&& crate::whir_r1cs::coeffs_canonical(bytes, pos)
            &&& crate::whir_r1cs::decoded_coeffs(bytes, pos) == cs
            &&& fadd(eval_cubic(cs, 0), eval_cubic(cs, 1)) == claim
        }),
{
    let cs = product3_round_coeffs(t0, t1, t2, claim);
    let msg = encode4(cs);
    lemma_product3_coeffs_in_field(t0, t1, t2, claim);
    crate::field::lemma_scalar_codec_roundtrip(cs[0]);
    crate::field::lemma_scalar_codec_roundtrip(cs[1]);
    crate::field::lemma_scalar_codec_roundtrip(cs[2]);
    crate::field::lemma_scalar_codec_roundtrip(cs[3]);
    assert(bytes.subrange(pos, pos + 8) =~= crate::field::encode_scalar(cs[0]));
    assert(bytes.subrange(pos + 8, pos + 16) =~= crate::field::encode_scalar(cs[1])) by {
        assert forall|i: int|
            0 <= i < 8 implies bytes.subrange(pos + 8, pos + 16)[i] == crate::field::encode_scalar(
            cs[1],
        )[i] by {
            assert(bytes.subrange(pos, pos + 32)[8 + i] == msg[8 + i]);
            assert(msg[8 + i] == crate::field::encode_scalar(cs[1])[i]);
        }
    }
    assert(bytes.subrange(pos + 16, pos + 24) =~= crate::field::encode_scalar(cs[2])) by {
        assert forall|i: int|
            0 <= i < 8 implies bytes.subrange(pos + 16, pos + 24)[i]
            == crate::field::encode_scalar(cs[2])[i] by {
            assert(bytes.subrange(pos, pos + 32)[16 + i] == msg[16 + i]);
            assert(msg[16 + i] == crate::field::encode_scalar(cs[2])[i]);
        }
    }
    assert(bytes.subrange(pos + 24, pos + 32) =~= crate::field::encode_scalar(cs[3])) by {
        assert forall|i: int|
            0 <= i < 8 implies bytes.subrange(pos + 24, pos + 32)[i]
            == crate::field::encode_scalar(cs[3])[i] by {
            assert(bytes.subrange(pos, pos + 32)[24 + i] == msg[24 + i]);
            assert(msg[24 + i] == crate::field::encode_scalar(cs[3])[i]);
        }
    }
    assert(crate::whir_r1cs::decoded_coeffs(bytes, pos) =~= cs);
    assert(crate::whir_r1cs::coeffs_canonical(bytes, pos)) by {
        assert forall|i: int|
            0 <= i < 4 implies vstd::bytes::spec_u64_from_le_bytes(
            #[trigger] bytes.subrange(pos + 8 * i, pos + 8 * i + 8),
        ) < crate::field::MODULUS by {
            if i == 0 {
                assert(bytes.subrange(pos + 8 * i, pos + 8 * i + 8) =~= bytes.subrange(
                    pos,
                    pos + 8,
                ));
            } else if i == 1 {
                assert(bytes.subrange(pos + 8 * i, pos + 8 * i + 8) =~= bytes.subrange(
                    pos + 8,
                    pos + 16,
                ));
            } else if i == 2 {
                assert(bytes.subrange(pos + 8 * i, pos + 8 * i + 8) =~= bytes.subrange(
                    pos + 16,
                    pos + 24,
                ));
            } else {
                assert(bytes.subrange(pos + 8 * i, pos + 8 * i + 8) =~= bytes.subrange(
                    pos + 24,
                    pos + 32,
                ));
            }
        }
    }
    let n = (t0.len() / 2) as int;
    let e0 = sum_prod3(low_half(t0), low_half(t1), low_half(t2), n);
    let em1 = sum_prod3(comb_minus_one(t0), comb_minus_one(t1), comb_minus_one(t2), n);
    let einf = sum_prod3(comb_inf(t0), comb_inf(t1), comb_inf(t2), n);
    assert(in_field(einf)) by {
        if n > 0 {
            crate::field::lemma_field_closed(
                sum_prod3(comb_inf(t0), comb_inf(t1), comb_inf(t2), n - 1),
                fmul(fmul(comb_inf(t0)[n - 1], comb_inf(t1)[n - 1]), comb_inf(t2)[n - 1]),
            );
        }
    }
    crate::sumcheck::lemma_round_coeffs_accepted(claim, e0, em1, einf);
}

/// A product-combiner walk is `32` bytes per round.
proof fn lemma_product3_walk_len(
    t0: Seq<int>,
    t1: Seq<int>,
    t2: Seq<int>,
    claim: int,
    absorbed: Seq<u8>,
    rounds: nat,
)
    ensures
        product3_walk(t0, t1, t2, claim, absorbed, rounds).1.len() == 32 * rounds,
    decreases rounds,
{
    if rounds > 0 {
        let cs = product3_round_coeffs(t0, t1, t2, claim);
        let msg = encode4(cs);
        let absorbed1 = absorbed + msg;
        let stream = xof_of(absorbed1, 16);
        let alpha = challenge_scalar_at(stream, 0);
        lemma_product3_coeffs_in_field(t0, t1, t2, claim);
        crate::transcript::lemma_encode_scalar_len(cs[0]);
        crate::transcript::lemma_encode_scalar_len(cs[1]);
        crate::transcript::lemma_encode_scalar_len(cs[2]);
        crate::transcript::lemma_encode_scalar_len(cs[3]);
        lemma_product3_walk_len(
            fold_spec(t0, alpha),
            fold_spec(t1, alpha),
            fold_spec(t2, alpha),
            eval_cubic(cs, alpha),
            absorbed1 + stream,
            (rounds - 1) as nat,
        );
    }
}

/// Completeness of a product-combiner sumcheck's rounds: the byte messages
/// an honest walk appends pass every round check of the replay, which
/// threads the same challenges and absorbed state.
#[verifier::rlimit(100)]
#[verifier::spinoff_prover]
pub proof fn lemma_product3_rounds_accepted(
    t0: Seq<int>,
    t1: Seq<int>,
    t2: Seq<int>,
    claim: int,
    absorbed: Seq<u8>,
    rounds: nat,
    bytes: Seq<u8>,
    pos: int,
)
    requires
        in_field(claim),
        0 <= pos,
        pos + product3_walk(t0, t1, t2, claim, absorbed, rounds).1.len() <= bytes.len(),
        bytes.subrange(
            pos,
            pos + product3_walk(t0, t1, t2, claim, absorbed, rounds).1.len() as int,
        ) == product3_walk(t0, t1, t2, claim, absorbed, rounds).1,
    ensures
        ({
            let w = product3_walk(t0, t1, t2, claim, absorbed, rounds);
            let rr = rounds_replay(bytes, pos, absorbed, claim, rounds);
            &&& rr.0
            &&& rr.1 == pos + w.1.len()
            &&& rr.2 == w.0
            &&& rr.3 == w.2
            &&& in_field(rr.4)
        }),
    decreases rounds,
{
    let w = product3_walk(t0, t1, t2, claim, absorbed, rounds);
    lemma_product3_walk_len(t0, t1, t2, claim, absorbed, rounds);
    if rounds == 0 {
        assert(w.1.len() == 0);
    } else {
        let cs = product3_round_coeffs(t0, t1, t2, claim);
        let msg = encode4(cs);
        let absorbed1 = absorbed + msg;
        let stream = xof_of(absorbed1, 16);
        let alpha = challenge_scalar_at(stream, 0);
        let rest_w = product3_walk(
            fold_spec(t0, alpha),
            fold_spec(t1, alpha),
            fold_spec(t2, alpha),
            eval_cubic(cs, alpha),
            absorbed1 + stream,
            (rounds - 1) as nat,
        );
        lemma_product3_coeffs_in_field(t0, t1, t2, claim);
        crate::transcript::lemma_encode_scalar_len(cs[0]);
        crate::transcript::lemma_encode_scalar_len(cs[1]);
        crate::transcript::lemma_encode_scalar_len(cs[2]);
        crate::transcript::lemma_encode_scalar_len(cs[3]);
        lemma_product3_walk_len(
            fold_spec(t0, alpha),
            fold_spec(t1, alpha),
            fold_spec(t2, alpha),
            eval_cubic(cs, alpha),
            absorbed1 + stream,
            (rounds - 1) as nat,
        );
        assert(bytes.subrange(pos, pos + 32) =~= msg) by {
            assert forall|i: int| 0 <= i < 32 implies bytes.subrange(pos, pos + 32)[i] == msg[i]
                by {
                assert(bytes.subrange(pos, pos + w.1.len() as int)[i] == w.1[i]);
                assert(w.1[i] == (msg + rest_w.1)[i]);
            }
        }
        lemma_product3_one_round_accepted(t0, t1, t2, claim, bytes, pos);
        crate::field::lemma_field_closed(
            cs[0],
            fmul(alpha, fadd(cs[1], fmul(alpha, fadd(cs[2], fmul(alpha, cs[3]))))),
        );
        assert(in_field(eval_cubic(cs, alpha)));
        assert(bytes.subrange(pos + 32, pos + 32 + rest_w.1.len() as int) =~= rest_w.1) by {
            assert forall|i: int| 0 <= i < rest_w.1.len() implies bytes.subrange(
                pos + 32,
                pos + 32 + rest_w.1.len() as int,
            )[i] == rest_w.1[i] by {
                assert(bytes.subrange(pos, pos + w.1.len() as int)[32 + i] == w.1[32 + i]);
                assert(w.1[32 + i] == (msg + rest_w.1)[32 + i]);
            }
        }
        lemma_product3_rounds_accepted(
            fold_spec(t0, alpha),
            fold_spec(t1, alpha),
            fold_spec(t2, alpha),
            eval_cubic(cs, alpha),
            absorbed1 + stream,
            (rounds - 1) as nat,
            bytes,
            pos + 32,
        );
        crate::whir_r1cs::lemma_replay_step(bytes, pos, absorbed, claim, rounds);
    }
}

/// The products of adjacent pairs of a layer.
fn half_products(v: &Vec<FieldElement>) -> (r: Vec<FieldElement>)
    requires
        v@.len() % 2 == 0,
    ensures
        r@.len() == v@.len() / 2,
        vals(r@) =~= pair_products(vals(v@)),
        seq_product(vals(r@)) == seq_product(vals(v@)),
{
    let half = v.len() / 2;
    let mut next: Vec<FieldElement> = Vec::new();
    let mut i: usize = 0;
    while i < half
        invariant
            i <= half,
            half == v@.len() / 2,
            v@.len() % 2 == 0,
            v@.len() <= usize::MAX,
            next@.len() == i,
            forall|t: int|
                0 <= t < i ==> (#[trigger] next@[t]@) == fmul(
                    vals(v@)[2 * t],
                    vals(v@)[2 * t + 1],
                ),
        decreases half - i,
    {
        next.push(v[2 * i].mul(v[2 * i + 1]));
        i += 1;
    }
    proof {
        assert(vals(next@) =~= pair_products(vals(v@)));
        lemma_pair_products_keep_product(vals(v@));
    }
    next
}

/// A grand-product argument instance: the accumulated randomness at which
/// the leaf layer was finally evaluated.
pub struct GrandProductArgument {
    /// The accumulated evaluation point, most significant coordinate first.
    pub randomness: Vec<FieldElement>,
}

impl GrandProductArgument {
    /// The memory-checking combination `gamma^2 a + gamma v + t`.
    pub fn h(gamma: &FieldElement, a: &FieldElement, v: &FieldElement, t: &FieldElement) -> (r:
        FieldElement)
        ensures
            r@ == fadd(fadd(fmul(fmul(gamma@, gamma@), a@), fmul(gamma@, v@)), t@),
    {
        gamma.mul(*gamma).mul(*a).add(gamma.mul(*v)).add(*t)
    }

    /// Build the binary multiplication tree over a power-of-two leaf layer.
    /// Layers run from the root (one entry, provably the product of all
    /// leaves) down to the leaf layer itself.
    #[verifier::rlimit(100)]
    #[verifier::spinoff_prover]
    pub fn calculate_binary_multiplication_tree(array_to_prove: Vec<FieldElement>) -> (layers:
        Vec<Vec<FieldElement>>)
        requires
            exists|k: nat| k <= 30 && array_to_prove@.len() == pow2(k),
        ensures
            layers@.len() >= 1,
            forall|j: int|
                0 <= j < layers@.len() ==> (#[trigger] layers@[j]@.len()) == pow2(j as nat),
            layers@[layers@.len() - 1]@ == array_to_prove@,
            layers@[0]@[0]@ == seq_product(vals(array_to_prove@)),
            forall|j: int, i: int|
                0 <= j < layers@.len() - 1 && 0 <= i < layers@[j]@.len()
                    ==> (#[trigger] layers@[j]@[i]@) == fmul(
                    layers@[j + 1]@[2 * i]@,
                    layers@[j + 1]@[2 * i + 1]@,
                ),
        decreases array_to_prove@.len(),
    {
        proof {
            vstd::arithmetic::power2::lemma2_to64();
        }
        if array_to_prove.len() <= 1 {
            proof {
                let k = choose|k: nat| k <= 30 && array_to_prove@.len() == pow2(k);
                vstd::arithmetic::power2::lemma_pow2_pos(k);
                assert(array_to_prove@.len() == 1);
                let x = vals(array_to_prove@);
                assert(x.drop_last() =~= Seq::<int>::empty());
                crate::field::lemma_in_field(array_to_prove@[0]);
                crate::field::lemma_fmul_one(x.last());
            }
            let ghost leaves = array_to_prove@;
            let mut layers: Vec<Vec<FieldElement>> = Vec::new();
            layers.push(array_to_prove);
            proof {
                assert(layers@[0]@ == leaves);
                assert(vals(leaves).len() == 1);
                assert(seq_product(vals(leaves)) == fmul(
                    seq_product(vals(leaves).drop_last()),
                    vals(leaves).last(),
                ));
                assert(seq_product(vals(leaves).drop_last()) == 1);
                assert(layers@[0]@[0]@ == seq_product(vals(leaves)));
            }
            return layers;
        }
        proof {
            let k = choose|k: nat| k <= 30 && array_to_prove@.len() == pow2(k);
            assert(k >= 1) by {
                if k == 0 {
                    assert(array_to_prove@.len() == 1);
                }
            }
            vstd::arithmetic::power2::lemma_pow2_unfold(k);
            assert(array_to_prove@.len() / 2 == pow2((k - 1) as nat));
            assert(array_to_prove@.len() % 2 == 0) by {
                assert(array_to_prove@.len() == 2 * pow2((k - 1) as nat));
            }
        }
        let next = half_products(&array_to_prove);
        let ghost next_view = next@;
        let mut layers = Self::calculate_binary_multiplication_tree(next);
        let ghost upper = layers@;
        layers.push(array_to_prove);
        proof {
            lemma_tree_adjacency(layers@, upper, next_view, array_to_prove@);
            assert forall|j: int| 0 <= j < layers@.len() implies (#[trigger] layers@[j]@.len())
                == pow2(j as nat) by {
                if j < layers@.len() - 1 {
                    assert(layers@[j] == upper[j]);
                    assert(upper[j]@.len() == pow2(j as nat));
                } else {
                    assert(upper[upper.len() - 1]@.len() == pow2((upper.len() - 1) as nat));
                    vstd::arithmetic::power2::lemma_pow2_unfold(j as nat);
                }
            }
            assert(layers@[0]@[0]@ == seq_product(vals(array_to_prove@))) by {
                assert(layers@[0] == upper[0]);
                assert(upper[0]@[0]@ == seq_product(vals(next@)));
                assert(seq_product(vals(next@)) == seq_product(vals(array_to_prove@)));
            }
        }
        layers
    }

    /// Evaluate the linear polynomial whose coefficients are `poly[0]`,
    /// `poly[1]` at a point.
    pub fn eval_linear_poly(poly: &[FieldElement], point: &FieldElement) -> (r: FieldElement)
        requires
            poly@.len() == 2,
        ensures
            r@ == eval_linear(vals(poly@), point@),
    {
        crate::sumcheck::eval_linear_poly(poly, point)
    }

    /// Commit a two-entry layer as a line: absorb its two coefficients in
    /// the monomial basis, draw the evaluation point, and return it with the
    /// line's value there.
    fn add_line_to_merlin(merlin: &mut ProverTranscript, arr: &Vec<FieldElement>) -> (r: (
        FieldElement,
        FieldElement,
    ))
        requires
            arr@.len() == 2,
        ensures
            r.1@ == fadd(arr@[0]@, fmul(r.0@, fsub(arr@[1]@, arr@[0]@))),
            ({
                let st = line_step(arr@[0]@, arr@[1]@, old(merlin).absorbed());
                &&& final(merlin).data() == old(merlin).data() + st.0
                &&& final(merlin).absorbed() == st.1
                &&& r.0@ == st.2
            }),
    {
        let c0 = arr[0];
        let c1 = arr[1].sub(arr[0]);
        let mut l: Vec<FieldElement> = Vec::new();
        l.push(c0);
        l.push(c1);
        proof {
            crate::transcript::lemma_encode2(l@);
        }
        merlin.add_scalars(&l);
        let ch = merlin.challenge_scalars(1);
        let rr = ch[0];
        let saved = crate::sumcheck::eval_linear_poly(l.as_slice(), &rr);
        proof {
            crate::field::lemma_fmul_comm(rr@, fsub(arr@[1]@, arr@[0]@));
        }
        (rr, saved)
    }

    /// Split a layer into its even- and odd-indexed halves.
    pub fn split_by_index(input: &Vec<FieldElement>) -> (r: (
        Vec<FieldElement>,
        Vec<FieldElement>,
    ))
        requires
            input@.len() % 2 == 0,
        ensures
            r.0@.len() == input@.len() / 2,
            r.1@.len() == input@.len() / 2,
            forall|i: int| 0 <= i < r.0@.len() ==> #[trigger] r.0@[i] == input@[2 * i],
            forall|i: int| 0 <= i < r.1@.len() ==> #[trigger] r.1@[i] == input@[2 * i + 1],
    {
        let mut even: Vec<FieldElement> = Vec::new();
        let mut odd: Vec<FieldElement> = Vec::new();
        let half = input.len() / 2;
        let mut i: usize = 0;
        while i < half
            invariant
                i <= half,
                half == input@.len() / 2,
                input@.len() % 2 == 0,
                input@.len() <= usize::MAX,
                even@.len() == i,
                odd@.len() == i,
                forall|t: int| 0 <= t < i ==> #[trigger] even@[t] == input@[2 * t],
                forall|t: int| 0 <= t < i ==> #[trigger] odd@[t] == input@[2 * t + 1],
            decreases half - i,
        {
            even.push(input[2 * i]);
            odd.push(input[2 * i + 1]);
            i += 1;
        }
        (even, odd)
    }

    /// One layer transition: run a sumcheck over
    /// `eq(alpha, x) * v0(x) * v1(x)`, whose transcript and outputs follow
    /// [`product3_walk`], and return the two folded layer halves with this
    /// layer's round challenges.
    #[verifier::rlimit(100)]
    #[verifier::spinoff_prover]
    fn run_sumcheck(
        merlin: &mut ProverTranscript,
        r: &FieldElement,
        layer: Vec<FieldElement>,
        saved: FieldElement,
        alpha_prev: Vec<FieldElement>,
        Ghost(depth): Ghost<nat>,
    ) -> (out: ([FieldElement; 2], Vec<FieldElement>))
        requires
            depth < 29,
            alpha_prev@.len() + 1 == depth,
            layer@.len() == pow2(depth + 1),
        ensures
            ({
                let w = product3_walk(
                    crate::whir_r1cs::eq_table(vals(alpha_prev@) + seq![r@], pow2(depth)),
                    even_half(vals(layer@)),
                    odd_half(vals(layer@)),
                    saved@,
                    old(merlin).absorbed(),
                    depth,
                );
                &&& out.1@.len() == depth
                &&& vals(out.1@) == w.2
                &&& out.0@[0]@ == w.4[0] && out.0@[1]@ == w.5[0]
                &&& final(merlin).data() == old(merlin).data() + w.1
                &&& final(merlin).absorbed() == w.0
            }),
    {
        proof {
            vstd::arithmetic::power2::lemma_pow2_unfold(depth + 1);
        }
        let (mut v0, mut v1) = Self::split_by_index(&layer);
        let mut alpha_point = alpha_prev;
        alpha_point.push(*r);
        let mut eq_r = calculate_evaluations_over_boolean_hypercube_for_eq(&alpha_point);
        let mut claim = saved;
        let mut alpha: Vec<FieldElement> = Vec::new();
        let rounds = alpha_point.len();
        proof {
            vstd::arithmetic::power2::lemma_pow2_strictly_increases(depth, 30);
            assert(vals(eq_r@) =~= crate::whir_r1cs::eq_table(
                vals(alpha_point@),
                pow2(depth),
            ));
            assert(vals(alpha_point@) =~= vals(alpha_prev@) + seq![r@]);
            assert(vals(v0@) =~= even_half(vals(layer@)));
            assert(vals(v1@) =~= odd_half(vals(layer@)));
        }
        let ghost full = product3_walk(
            vals(eq_r@),
            vals(v0@),
            vals(v1@),
            claim@,
            merlin.absorbed(),
            depth,
        );
        let ghost mut consumed: Seq<u8> = Seq::empty();
        let ghost mut tgt_data = full.1;
        let ghost mut tgt_alphas = full.2;
        let ghost data0 = merlin.data();
        proof {
            assert(data0 + consumed =~= data0);
            assert(consumed + tgt_data =~= full.1);
            assert(vals(alpha@) + tgt_alphas =~= full.2);
        }
        let mut round: usize = 0;
        while round < rounds
            invariant
                round <= rounds,
                rounds == depth,
                depth < 29,
                alpha@.len() == round,
                v0@.len() == pow2((depth - round) as nat),
                v1@.len() == v0@.len(),
                eq_r@.len() == v0@.len(),
                product3_walk(
                    vals(eq_r@),
                    vals(v0@),
                    vals(v1@),
                    claim@,
                    merlin.absorbed(),
                    (depth - round) as nat,
                ) == (full.0, tgt_data, tgt_alphas, full.3, full.4, full.5),
                merlin.data() == data0 + consumed,
                consumed + tgt_data == full.1,
                vals(alpha@) + tgt_alphas == full.2,
            decreases rounds - round,
        {
            proof {
                vstd::arithmetic::power2::lemma_pow2_unfold((depth - round) as nat);
                vstd::arithmetic::power2::lemma_pow2_pos((depth - round - 1) as nat);
            }
            let ghost cur0 = vals(eq_r@);
            let ghost cur1 = vals(v0@);
            let ghost cur2 = vals(v1@);
            let ghost claim0 = claim@;
            let ghost abs0 = merlin.absorbed();
            let ghost rem = (depth - round) as nat;
            let (e0, em1, einf) = product3_round_evals(&eq_r, &v0, &v1);
            let coeffs = round_coefficients(&claim, &e0, &em1, &einf);
            let mut msg: Vec<FieldElement> = Vec::new();
            msg.push(coeffs[0]);
            msg.push(coeffs[1]);
            msg.push(coeffs[2]);
            msg.push(coeffs[3]);
            proof {
                assert(vals(msg@) =~= product3_round_coeffs(cur0, cur1, cur2, claim0));
                lemma_encode4(msg@);
            }
            merlin.add_scalars(&msg);
            let ch = merlin.challenge_scalars(1);
            let alpha_i = ch[0];
            eq_r = fold_table(&eq_r, &alpha_i);
            v0 = fold_table(&v0, &alpha_i);
            v1 = fold_table(&v1, &alpha_i);
            claim = eval_qubic_poly(&coeffs, &alpha_i);
            let ghost prev_alphas = vals(alpha@);
            alpha.push(alpha_i);
            proof {
                let cs = product3_round_coeffs(cur0, cur1, cur2, claim0);
                let msgb = encode4(cs);
                let absorbed1 = abs0 + msgb;
                let stream = xof_of(absorbed1, 16);
                let alpha_s = challenge_scalar_at(stream, 0);
                assert(alpha_i@ == alpha_s);
                let rest = product3_walk(
                    fold_spec(cur0, alpha_s),
                    fold_spec(cur1, alpha_s),
                    fold_spec(cur2, alpha_s),
                    eval_cubic(cs, alpha_s),
                    absorbed1 + stream,
                    (rem - 1) as nat,
                );
                assert(product3_walk(cur0, cur1, cur2, claim0, abs0, rem) == (
                    rest.0,
                    msgb + rest.1,
                    seq![alpha_s] + rest.2,
                    rest.3,
                    rest.4,
                    rest.5,
                ));
                assert(vals(eq_r@) == fold_spec(cur0, alpha_s)) by {
                    assert(vals(eq_r@) =~= fold_spec(cur0, alpha_s));
                }
                assert(vals(v0@) == fold_spec(cur1, alpha_s)) by {
                    assert(vals(v0@) =~= fold_spec(cur1, alpha_s));
                }
                assert(vals(v1@) == fold_spec(cur2, alpha_s)) by {
                    assert(vals(v1@) =~= fold_spec(cur2, alpha_s));
                }
                assert(claim@ == eval_cubic(cs, alpha_s));
                assert(merlin.absorbed() == absorbed1 + stream);
                assert(merlin.data() == data0 + consumed + msgb);
                consumed = consumed + msgb;
                assert(tgt_data == msgb + rest.1);
                assert(tgt_alphas == seq![alpha_s] + rest.2);
                tgt_data = rest.1;
                tgt_alphas = rest.2;
                assert(merlin.data() =~= data0 + consumed);
                assert(consumed + tgt_data =~= full.1);
                assert(vals(alpha@) =~= prev_alphas + seq![alpha_s]);
                assert((prev_alphas + seq![alpha_s]) + rest.2 =~= prev_alphas + (seq![alpha_s]
                    + rest.2));
                assert(vals(alpha@) + tgt_alphas =~= full.2);
            }
            round += 1;
        }
        proof {
            vstd::arithmetic::power2::lemma2_to64();
            assert(product3_walk(
                vals(eq_r@),
                vals(v0@),
                vals(v1@),
                claim@,
                merlin.absorbed(),
                0,
            ) == (merlin.absorbed(), Seq::<u8>::empty(), Seq::<int>::empty(), vals(eq_r@), vals(
                v0@,
            ), vals(v1@)));
            assert(tgt_data =~= Seq::<u8>::empty());
            assert(tgt_alphas =~= Seq::<int>::empty());
            assert(consumed =~= full.1);
            assert(vals(alpha@) =~= full.2);
            assert(vals(v0@) == full.4 && vals(v1@) == full.5);
        }
        ([v0[0], v1[0]], alpha)
    }

    /// Walk a power-of-two leaf vector: build the tree, commit the root,
    /// and run one sumcheck per layer, returning the accumulated randomness.
    /// The first eight bytes appended to the transcript encode the product
    /// of all leaves, and the remaining messages follow the interpolating
    /// line and [`layers_walk`] of the tree.
    #[verifier::rlimit(100)]
    #[verifier::spinoff_prover]
    pub fn prove_product(merlin: &mut ProverTranscript, h: Vec<FieldElement>) -> (out:
        GrandProductArgument)
        requires
            exists|k: nat| k <= 28 && h@.len() == pow2(k),
        ensures
            out.randomness@.len() == (choose|k: nat| k <= 28 && h@.len() == pow2(k)),
            final(merlin).data().len() >= old(merlin).data().len() + 8,
            final(merlin).data().subrange(0, old(merlin).data().len() as int) == old(
                merlin,
            ).data(),
            final(merlin).data().subrange(
                old(merlin).data().len() as int,
                old(merlin).data().len() as int + 8,
            ) == crate::field::encode_scalar(seq_product(vals(h@))),
            ({
                let k = choose|k: nat| k <= 28 && h@.len() == pow2(k);
                let leaves = vals(h@);
                let root_msg = crate::field::encode_scalar(seq_product(leaves));
                if k == 0 {
                    &&& final(merlin).data() == old(merlin).data() + root_msg
                    &&& final(merlin).absorbed() == old(merlin).absorbed() + root_msg
                } else {
                    let l1 = iter_pairs(leaves, (k - 1) as nat);
                    let st0 = line_step(l1[0], l1[1], old(merlin).absorbed() + root_msg);
                    let lw = layers_walk(
                        leaves,
                        k,
                        2,
                        st0.2,
                        fadd(l1[0], fmul(st0.2, fsub(l1[1], l1[0]))),
                        Seq::empty(),
                        st0.1,
                    );
                    &&& final(merlin).data() == old(merlin).data() + root_msg + st0.0 + lw.1
                    &&& final(merlin).absorbed() == lw.0
                    &&& vals(out.randomness@) == lw.2 + seq![lw.3]
                }
            }),
    {
        let ghost data0 = merlin.data();
        let ghost abs0 = merlin.absorbed();
        let ghost leaves = vals(h@);
        let ghost rootv = seq_product(leaves);
        let ghost root_msg = crate::field::encode_scalar(rootv);
        let ghost ke = choose|k: nat| k <= 28 && h@.len() == pow2(k);
        let layers = Self::calculate_binary_multiplication_tree(h);
        proof {
            vstd::arithmetic::power2::lemma2_to64();
            let k = choose|k: nat| k <= 28 && layers@[layers@.len() - 1]@.len() == pow2(k);
            assert(layers@[layers@.len() - 1]@.len() == pow2((layers@.len() - 1) as nat));
            assert(layers@.len() - 1 == k) by {
                if layers@.len() - 1 < k {
                    vstd::arithmetic::power2::lemma_pow2_strictly_increases(
                        (layers@.len() - 1) as nat,
                        k,
                    );
                } else if layers@.len() - 1 > k {
                    vstd::arithmetic::power2::lemma_pow2_strictly_increases(
                        k,
                        (layers@.len() - 1) as nat,
                    );
                }
            }
            assert(layers@.len() <= 29);
            assert(ke == layers@.len() - 1) by {
                if ke < layers@.len() - 1 {
                    vstd::arithmetic::power2::lemma_pow2_strictly_increases(
                        ke,
                        (layers@.len() - 1) as nat,
                    );
                } else if ke > layers@.len() - 1 {
                    vstd::arithmetic::power2::lemma_pow2_strictly_increases(
                        (layers@.len() - 1) as nat,
                        ke,
                    );
                }
            }
            assert(vals(layers@[layers@.len() - 1]@) == leaves);
            assert(encode_scalars(layers@[0]@) =~= root_msg) by {
                let s = layers@[0]@;
                assert(s.len() == pow2(0));
                assert(s.drop_last() =~= Seq::<FieldElement>::empty());
                assert(encode_scalars(s.drop_last()) == Seq::<u8>::empty());
                assert(s.last() == s[0]);
                assert(encode_scalars(s) == encode_scalars(s.drop_last())
                    + crate::field::encode_scalar(s[0]@));
                assert(s[0]@ == rootv);
            }
            crate::transcript::lemma_encode_scalar_len(rootv);
        }
        merlin.add_scalars(&layers[0]);
        proof {
            assert(merlin.data() == data0 + root_msg);
            assert(merlin.absorbed() == abs0 + root_msg);
            assert(merlin.data().subrange(0, data0.len() as int) =~= data0);
            assert(merlin.data().subrange(data0.len() as int, data0.len() as int + 8)
                =~= root_msg);
        }
        if layers.len() == 1 {
            return GrandProductArgument { randomness: Vec::new() };
        }
        proof {
            assert(layers@[1]@.len() == pow2(1));
            lemma_layers_iter_pairs(layers@, 1);
            assert(vals(layers@[1]@) == iter_pairs(leaves, (ke - 1) as nat));
        }
        let ghost l1 = iter_pairs(leaves, (ke - 1) as nat);
        let (mut r, mut saved) = Self::add_line_to_merlin(merlin, &layers[1]);
        let ghost st0 = line_step(l1[0], l1[1], abs0 + root_msg);
        let ghost data1 = data0 + root_msg + st0.0;
        let ghost full = layers_walk(
            leaves,
            ke,
            2,
            st0.2,
            fadd(l1[0], fmul(st0.2, fsub(l1[1], l1[0]))),
            Seq::<int>::empty(),
            st0.1,
        );
        let mut alpha: Vec<FieldElement> = Vec::new();
        let total = layers.len();
        let ghost mut consumed: Seq<u8> = Seq::empty();
        let ghost mut tgt_data = full.1;
        proof {
            assert(layers@[1]@[0]@ == l1[0] && layers@[1]@[1]@ == l1[1]);
            assert(r@ == st0.2 && saved@ == fadd(l1[0], fmul(st0.2, fsub(l1[1], l1[0]))));
            assert(merlin.data() =~= data1 + consumed);
            assert(merlin.absorbed() == st0.1);
            assert(vals(alpha@) =~= Seq::<int>::empty());
            assert(consumed + tgt_data =~= full.1);
        }
        let mut li: usize = 2;
        while li < total
            invariant
                2 <= li <= total,
                total == layers@.len(),
                total <= 29,
                ke == total - 1,
                forall|j: int|
                    0 <= j < layers@.len() ==> (#[trigger] layers@[j]@.len()) == pow2(j as nat),
                forall|u: int, i: int|
                    0 <= u < layers@.len() - 1 && 0 <= i < layers@[u]@.len() ==> (
                    #[trigger] layers@[u]@[i]@) == fmul(
                        layers@[u + 1]@[2 * i]@,
                        layers@[u + 1]@[2 * i + 1]@,
                    ),
                vals(layers@[layers@.len() - 1]@) == leaves,
                alpha@.len() == li - 2,
                full == layers_walk(
                    leaves,
                    ke,
                    2,
                    st0.2,
                    fadd(l1[0], fmul(st0.2, fsub(l1[1], l1[0]))),
                    Seq::<int>::empty(),
                    st0.1,
                ),
                layers_walk(leaves, ke, li as nat, r@, saved@, vals(alpha@), merlin.absorbed())
                    == (full.0, tgt_data, full.2, full.3),
                merlin.data() == data1 + consumed,
                data1 == data0 + root_msg + st0.0,
                consumed + tgt_data == full.1,
                merlin.data().len() >= data0.len() + 8,
                merlin.data().subrange(0, data0.len() as int) == data0,
                merlin.data().subrange(data0.len() as int, data0.len() as int + 8) == root_msg,
            decreases total - li,
        {
            let mut layer: Vec<FieldElement> = Vec::new();
            let src = &layers[li];
            let mut t: usize = 0;
            while t < src.len()
                invariant
                    t <= src@.len(),
                    layer@.len() == t,
                    src == &layers@[li as int],
                    li < layers@.len(),
                    forall|u: int| 0 <= u < t ==> #[trigger] layer@[u] == src@[u],
                decreases src@.len() - t,
            {
                layer.push(src[t]);
                t += 1;
            }
            proof {
                assert(layer@ =~= layers@[li as int]@);
                assert(layers@[li as int]@.len() == pow2(li as nat));
                lemma_layers_iter_pairs(layers@, li as int);
                assert(vals(layer@) == iter_pairs(leaves, (ke - li) as nat));
            }
            let ghost cur_layer = iter_pairs(leaves, (ke - li) as nat);
            let ghost r0v = r@;
            let ghost saved0v = saved@;
            let ghost prev0 = vals(alpha@);
            let ghost abs_pre = merlin.absorbed();
            let ghost w = product3_walk(
                crate::whir_r1cs::eq_table(prev0 + seq![r0v], pow2((li - 1) as nat)),
                even_half(cur_layer),
                odd_half(cur_layer),
                saved0v,
                abs_pre,
                (li - 1) as nat,
            );
            let ghost d_pre = merlin.data();
            let (line_evals, alpha_new) = Self::run_sumcheck(
                merlin,
                &r,
                layer,
                saved,
                alpha,
                Ghost((li - 1) as nat),
            );
            proof {
                assert(merlin.data() == d_pre + w.1);
                assert(merlin.absorbed() == w.0);
                assert(vals(alpha_new@) == w.2);
                assert(line_evals@[0]@ == w.4[0] && line_evals@[1]@ == w.5[0]);
                assert(merlin.data().subrange(0, data0.len() as int) =~= d_pre.subrange(
                    0,
                    data0.len() as int,
                ));
                assert(merlin.data().subrange(data0.len() as int, data0.len() as int + 8)
                    =~= d_pre.subrange(data0.len() as int, data0.len() as int + 8));
            }
            let mut lv: Vec<FieldElement> = Vec::new();
            lv.push(line_evals[0]);
            lv.push(line_evals[1]);
            let ghost d_pre2 = merlin.data();
            let (r2, saved2) = Self::add_line_to_merlin(merlin, &lv);
            proof {
                let st = line_step(w.4[0], w.5[0], w.0);
                assert(merlin.data() == d_pre2 + st.0);
                assert(merlin.absorbed() == st.1);
                assert(r2@ == st.2);
                assert(saved2@ == fadd(w.4[0], fmul(st.2, fsub(w.5[0], w.4[0]))));
                let rest = layers_walk(
                    leaves,
                    ke,
                    (li + 1) as nat,
                    st.2,
                    fadd(w.4[0], fmul(st.2, fsub(w.5[0], w.4[0]))),
                    w.2,
                    st.1,
                );
                assert(layers_walk(leaves, ke, li as nat, r0v, saved0v, prev0, abs_pre) == (
                    rest.0,
                    w.1 + st.0 + rest.1,
                    rest.2,
                    rest.3,
                ));
                assert(tgt_data == w.1 + st.0 + rest.1);
                consumed = consumed + w.1 + st.0;
                tgt_data = rest.1;
                assert(merlin.data() =~= data1 + consumed);
                assert(consumed + tgt_data =~= full.1);
                assert(merlin.data().subrange(0, data0.len() as int) =~= d_pre2.subrange(
                    0,
                    data0.len() as int,
                ));
                assert(merlin.data().subrange(data0.len() as int, data0.len() as int + 8)
                    =~= d_pre2.subrange(data0.len() as int, data0.len() as int + 8));
            }
            r = r2;
            saved = saved2;
            alpha = alpha_new;
            li += 1;
        }
        proof {
            assert(li == total && li as nat > ke);
            assert(layers_walk(leaves, ke, li as nat, r@, saved@, vals(alpha@), merlin.absorbed())
                == (merlin.absorbed(), Seq::<u8>::empty(), vals(alpha@), r@));
            assert(full.0 == merlin.absorbed() && full.2 == vals(alpha@) && full.3 == r@);
            assert(tgt_data =~= Seq::<u8>::empty());
            assert(consumed =~= full.1);
            assert(merlin.data() =~= data0 + root_msg + st0.0 + full.1);
        }
        alpha.push(r);
        proof {
            assert(vals(alpha@) =~= full.2 + seq![full.3]);
        }
        GrandProductArgument { randomness: alpha }
    }

    /// Run the whole argument: combine the inputs into leaves, build the
    /// tree, commit the root, and walk the layers with one sumcheck each.
    /// The first eight bytes appended to the transcript encode the grand
    /// product of the fingerprints.
    pub fn new(
        addr: Vec<FieldElement>,
        value: Vec<FieldElement>,
        time_stamp: Vec<FieldElement>,
        tau: FieldElement,
        gamma: FieldElement,
        merlin: &mut ProverTranscript,
    ) -> (out: GrandProductArgument)
        requires
            addr@.len() == value@.len(),
            addr@.len() == time_stamp@.len(),
            exists|k: nat| k <= 28 && addr@.len() == pow2(k),
        ensures
            out.randomness@.len() == (choose|k: nat| k <= 28 && addr@.len() == pow2(k)),
            final(merlin).data().len() >= old(merlin).data().len() + 8,
            final(merlin).data().subrange(0, old(merlin).data().len() as int) == old(
                merlin,
            ).data(),
            final(merlin).data().subrange(
                old(merlin).data().len() as int,
                old(merlin).data().len() as int + 8,
            ) == crate::field::encode_scalar(
                seq_product(
                    fingerprints(
                        gamma@,
                        tau@,
                        vals(addr@),
                        vals(value@),
                        vals(time_stamp@),
                    ),
                ),
            ),
            ({
                let k = choose|k: nat| k <= 28 && addr@.len() == pow2(k);
                let leaves = fingerprints(gamma@, tau@, vals(addr@), vals(value@), vals(
                    time_stamp@,
                ));
                let root_msg = crate::field::encode_scalar(seq_product(leaves));
                if k == 0 {
                    &&& final(merlin).data() == old(merlin).data() + root_msg
                    &&& final(merlin).absorbed() == old(merlin).absorbed() + root_msg
                } else {
                    let l1 = iter_pairs(leaves, (k - 1) as nat);
                    let st0 = line_step(l1[0], l1[1], old(merlin).absorbed() + root_msg);
                    let lw = layers_walk(
                        leaves,
                        k,
                        2,
                        st0.2,
                        fadd(l1[0], fmul(st0.2, fsub(l1[1], l1[0]))),
                        Seq::empty(),
                        st0.1,
                    );
                    &&& final(merlin).data() == old(merlin).data() + root_msg + st0.0 + lw.1
                    &&& final(merlin).absorbed() == lw.0
                    &&& vals(out.randomness@) == lw.2 + seq![lw.3]
                }
            }),
    {
        let ghost fps = fingerprints(gamma@, tau@, vals(addr@), vals(value@), vals(time_stamp@));
        let n = addr.len();
        let mut h: Vec<FieldElement> = Vec::new();
        let mut i: usize = 0;
        while i < n
            invariant
                i <= n,
                n == addr@.len(),
                addr@.len() == value@.len(),
                addr@.len() == time_stamp@.len(),
                h@.len() == i,
                fps == fingerprints(gamma@, tau@, vals(addr@), vals(value@), vals(time_stamp@)),
                forall|t: int| 0 <= t < i ==> (#[trigger] h@[t]@) == fps[t],
            decreases n - i,
        {
            h.push(Self::h(&gamma, &addr[i], &value[i], &time_stamp[i]).sub(tau));
            i += 1;
        }
        proof {
            let k = choose|k: nat| k <= 28 && addr@.len() == pow2(k);
            assert(k <= 28 && h@.len() == pow2(k));
            assert(vals(h@) =~= fps);
            let kh = choose|k: nat| k <= 28 && h@.len() == pow2(k);
            assert(kh == k) by {
                if kh < k {
                    vstd::arithmetic::power2::lemma_pow2_strictly_increases(kh, k);
                } else if kh > k {
                    vstd::arithmetic::power2::lemma_pow2_strictly_increases(k, kh);
                }
            }
        }
        Self::prove_product(merlin, h)
    }
}

/// The scalar decoded from eight proof bytes at `pos`.
pub open spec fn decoded_scalar(bytes: Seq<u8>, pos: int) -> int {
    vstd::bytes::spec_u64_from_le_bytes(bytes.subrange(pos, pos + 8)) as int
}

/// Whether `n` consecutive eight-byte words at `pos` are reduced residues.
pub open spec fn words_canonical(bytes: Seq<u8>, pos: int, n: int) -> bool {
    forall|i: int|
        0 <= i < n ==> vstd::bytes::spec_u64_from_le_bytes(
            #[trigger] bytes.subrange(pos + 8 * i, pos + 8 * i + 8),
        ) < crate::field::MODULUS
}

/// Replaying the layer walk of a grand-product argument from proof bytes:
/// each layer runs one sumcheck whose final claim must match the
/// eq-weighted product of the layer's interpolating line, which then
/// reduces the claim for the next layer.  Returns acceptance, the final
/// cursor, absorbed state, accumulated randomness and final claim.
pub open spec fn layer_replay(
    bytes: Seq<u8>,
    pos: int,
    absorbed: Seq<u8>,
    claim: int,
    prev: Seq<int>,
    layers: nat,
) -> (bool, int, Seq<u8>, Seq<int>, int)
    decreases layers,
{
    if layers == 0 {
        (true, pos, absorbed, prev, claim)
    } else {
        let rr = rounds_replay(bytes, pos, absorbed, claim, prev.len());
        if !rr.0 {
            (false, rr.1, rr.2, prev, rr.4)
        } else if !(rr.1 + 16 <= bytes.len() && words_canonical(bytes, rr.1, 2)) {
            (false, rr.1, rr.2, prev, rr.4)
        } else {
            let lc = seq![decoded_scalar(bytes, rr.1), decoded_scalar(bytes, rr.1 + 8)];
            let absorbed1 = rr.2 + bytes.subrange(rr.1, rr.1 + 16);
            let stream = xof_of(absorbed1, 16);
            let ch = challenge_scalar_at(stream, 0);
            if fmul(fmul(eq_pair(prev, rr.3), eval_linear(lc, 0)), eval_linear(lc, 1)) != rr.4 {
                (false, rr.1 + 16, absorbed1 + stream, prev, rr.4)
            } else {
                layer_replay(
                    bytes,
                    rr.1 + 16,
                    absorbed1 + stream,
                    eval_linear(lc, ch),
                    rr.3 + seq![ch],
                    (layers - 1) as nat,
                )
            }
        }
    }
}

/// The whole grand-product verifier replay: the claimed product is read
/// first, then the layer walk runs from it.  The last component is the
/// claimed product itself.
pub open spec fn gpa_replay(bytes: Seq<u8>, pos: int, absorbed: Seq<u8>, layers: nat) -> (
    bool,
    int,
    Seq<u8>,
    Seq<int>,
    int,
    int,
) {
    if !(pos + 8 <= bytes.len() && words_canonical(bytes, pos, 1)) {
        (false, pos, absorbed, Seq::empty(), 0, 0)
    } else {
        let claimed = decoded_scalar(bytes, pos);
        let lr = layer_replay(
            bytes,
            pos + 8,
            absorbed + bytes.subrange(pos, pos + 8),
            claimed,
            Seq::empty(),
            layers,
        );
        (lr.0, lr.1, lr.2, lr.3, lr.4, claimed)
    }
}

/// The error a failing layer walk reports: inner-round failures keep their
/// replay error, an unparsable line is a serialization error, and a line
/// missing the claim is a sumcheck violation.
pub open spec fn layer_error(
    bytes: Seq<u8>,
    pos: int,
    absorbed: Seq<u8>,
    claim: int,
    prev: Seq<int>,
    layers: nat,
) -> Error
    decreases layers,
{
    if layers == 0 {
        Error::SerializationError
    } else {
        let rr = rounds_replay(bytes, pos, absorbed, claim, prev.len());
        if !rr.0 {
            crate::whir_r1cs::replay_error(bytes, pos, absorbed, claim, prev.len())
        } else if !(rr.1 + 16 <= bytes.len() && words_canonical(bytes, rr.1, 2)) {
            Error::SerializationError
        } else {
            let lc = seq![decoded_scalar(bytes, rr.1), decoded_scalar(bytes, rr.1 + 8)];
            let absorbed1 = rr.2 + bytes.subrange(rr.1, rr.1 + 16);
            let stream = xof_of(absorbed1, 16);
            let ch = challenge_scalar_at(stream, 0);
            if fmul(fmul(eq_pair(prev, rr.3), eval_linear(lc, 0)), eval_linear(lc, 1)) != rr.4 {
                Error::SumcheckEqualityViolation
            } else {
                layer_error(
                    bytes,
                    rr.1 + 16,
                    absorbed1 + stream,
                    eval_linear(lc, ch),
                    rr.3 + seq![ch],
                    (layers - 1) as nat,
                )
            }
        }
    }
}

/// The error a failing grand-product replay reports.
pub open spec fn gpa_error(bytes: Seq<u8>, pos: int, absorbed: Seq<u8>, layers: nat) -> Error {
    if !(pos + 8 <= bytes.len() && words_canonical(bytes, pos, 1)) {
        Error::SerializationError
    } else {
        layer_error(
            bytes,
            pos + 8,
            absorbed + bytes.subrange(pos, pos + 8),
            decoded_scalar(bytes, pos),
            Seq::empty(),
            layers,
        )
    }
}

/// A failing inner sumcheck makes the layer replay reject.
proof fn lemma_layer_fail_rounds(
    bytes: Seq<u8>,
    pos: int,
    absorbed: Seq<u8>,
    claim: int,
    prev: Seq<int>,
    layers: nat,
)
    requires
        layers > 0,
        !rounds_replay(bytes, pos, absorbed, claim, prev.len()).0,
    ensures
        !layer_replay(bytes, pos, absorbed, claim, prev, layers).0,
        layer_error(bytes, pos, absorbed, claim, prev, layers)
            == crate::whir_r1cs::replay_error(bytes, pos, absorbed, claim, prev.len()),
{
}

/// An unparsable or non-canonical line message makes the layer replay
/// reject.
proof fn lemma_layer_fail_line(
    bytes: Seq<u8>,
    pos: int,
    absorbed: Seq<u8>,
    claim: int,
    prev: Seq<int>,
    layers: nat,
)
    requires
        layers > 0,
        rounds_replay(bytes, pos, absorbed, claim, prev.len()).0,
        !(rounds_replay(bytes, pos, absorbed, claim, prev.len()).1 + 16 <= bytes.len()
            && words_canonical(bytes, rounds_replay(bytes, pos, absorbed, claim, prev.len()).1, 2)),
    ensures
        !layer_replay(bytes, pos, absorbed, claim, prev, layers).0,
        layer_error(bytes, pos, absorbed, claim, prev, layers) == Error::SerializationError,
{
}

/// A line whose eq-weighted endpoint product misses the sumcheck's final
/// claim makes the layer replay reject.
proof fn lemma_layer_fail_check(
    bytes: Seq<u8>,
    pos: int,
    absorbed: Seq<u8>,
    claim: int,
    prev: Seq<int>,
    layers: nat,
)
    requires
        layers > 0,
        ({
            let rr = rounds_replay(bytes, pos, absorbed, claim, prev.len());
            let lc = seq![decoded_scalar(bytes, rr.1), decoded_scalar(bytes, rr.1 + 8)];
            &&& rr.0
            &&& rr.1 + 16 <= bytes.len()
            &&& words_canonical(bytes, rr.1, 2)
            &&& fmul(fmul(eq_pair(prev, rr.3), eval_linear(lc, 0)), eval_linear(lc, 1)) != rr.4
        }),
    ensures
        !layer_replay(bytes, pos, absorbed, claim, prev, layers).0,
        layer_error(bytes, pos, absorbed, claim, prev, layers)
            == Error::SumcheckEqualityViolation,
{
}

/// A layer whose checks all pass reduces the replay to the next layer.
proof fn lemma_layer_step(
    bytes: Seq<u8>,
    pos: int,
    absorbed: Seq<u8>,
    claim: int,
    prev: Seq<int>,
    layers: nat,
)
    requires
        layers > 0,
        ({
            let rr = rounds_replay(bytes, pos, absorbed, claim, prev.len());
            let lc = seq![decoded_scalar(bytes, rr.1), decoded_scalar(bytes, rr.1 + 8)];
            &&& rr.0
            &&& rr.1 + 16 <= bytes.len()
            &&& words_canonical(bytes, rr.1, 2)
            &&& fmul(fmul(eq_pair(prev, rr.3), eval_linear(lc, 0)), eval_linear(lc, 1)) == rr.4
        }),
    ensures
        ({
            let rr = rounds_replay(bytes, pos, absorbed, claim, prev.len());
            let lc = seq![decoded_scalar(bytes, rr.1), decoded_scalar(bytes, rr.1 + 8)];
            let absorbed1 = rr.2 + bytes.subrange(rr.1, rr.1 + 16);
            let stream = xof_of(absorbed1, 16);
            let ch = challenge_scalar_at(stream, 0);
            &&& layer_replay(bytes, pos, absorbed, claim, prev, layers) == layer_replay(
                bytes,
                rr.1 + 16,
                absorbed1 + stream,
                eval_linear(lc, ch),
                rr.3 + seq![ch],
                (layers - 1) as nat,
            )
            &&& layer_error(bytes, pos, absorbed, claim, prev, layers) == layer_error(
                bytes,
                rr.1 + 16,
                absorbed1 + stream,
                eval_linear(lc, ch),
                rr.3 + seq![ch],
                (layers - 1) as nat,
            )
        }),
{
}

/// The field element whose binary expansion, most significant bit first, is
/// read off a point coordinate-wise: `sum of alpha_i * 2^(n-1-i)`.
pub open spec fn adr_spec(s: Seq<int>) -> int
    decreases s.len(),
{
    if s.len() == 0 {
        0
    } else {
        fadd(fmul(2, adr_spec(s.drop_last())), s.last())
    }
}

/// The weighted binary reconstruction of an evaluation point.
pub fn calculate_adr(alpha: &Vec<FieldElement>) -> (r: FieldElement)
    ensures
        r@ == adr_spec(vals(alpha@)),
{
    let two = FieldElement::from_u64(2);
    let mut ans = FieldElement::zero();
    let mut i: usize = 0;
    proof {
        vstd::arithmetic::div_mod::lemma_small_mod(2nat, crate::field::p() as nat);
        assert(vals(alpha@).take(0) =~= Seq::<int>::empty());
    }
    while i < alpha.len()
        invariant
            i <= alpha@.len(),
            two@ == 2,
            ans@ == adr_spec(vals(alpha@).take(i as int)),
        decreases alpha@.len() - i,
    {
        ans = two.mul(ans).add(alpha[i]);
        proof {
            assert(vals(alpha@).take(i as int + 1).drop_last() =~= vals(alpha@).take(i as int));
            assert(vals(alpha@).take(i as int + 1).last() == alpha@[i as int]@);
        }
        i += 1;
    }
    proof {
        assert(vals(alpha@).take(alpha@.len() as int) =~= vals(alpha@));
    }
    ans
}

/// What the grand-product sumcheck verifier extracts from a transcript.
pub struct GPASumcheckResult {
    /// The product the prover committed at the root.
    pub claimed_product: FieldElement,
    /// The running claim after the last layer.
    pub last_sumcheck_value: FieldElement,
    /// The accumulated evaluation point of the leaf layer.
    pub randomness: Vec<FieldElement>,
}

/// Evaluate the linear polynomial `poly[0] + point * poly[1]`.
pub fn eval_linear_poly(poly: &[FieldElement], point: &FieldElement) -> (r: FieldElement)
    requires
        poly@.len() == 2,
    ensures
        r@ == eval_linear(vals(poly@), point@),
{
    crate::sumcheck::eval_linear_poly(poly, point)
}

/// Replay a grand-product argument from a transcript, checking every
/// One layer of the grand-product verifier: the inner sumcheck, the line
/// message, and the eq-weighted endpoint check, advancing the replay by one
/// layer.
#[verifier::rlimit(100)]
#[verifier::spinoff_prover]
fn gpa_verify_layer(
    arthur: &mut VerifierTranscript,
    prev_rand: Vec<FieldElement>,
    last: FieldElement,
    Ghost(rem): Ghost<nat>,
) -> (out: Result<(Vec<FieldElement>, FieldElement), Error>)
    requires
        rem > 0,
        prev_rand@.len() < 29,
    ensures
        ({
            let lr = layer_replay(
                old(arthur).data(),
                old(arthur).pos(),
                old(arthur).absorbed(),
                last@,
                vals(prev_rand@),
                rem,
            );
            match out {
                Ok(d) => {
                    &&& d.0@.len() == prev_rand@.len() + 1
                    &&& final(arthur).data() == old(arthur).data()
                    &&& layer_replay(
                        old(arthur).data(),
                        final(arthur).pos(),
                        final(arthur).absorbed(),
                        d.1@,
                        vals(d.0@),
                        (rem - 1) as nat,
                    ) == lr
                    &&& layer_error(
                        old(arthur).data(),
                        final(arthur).pos(),
                        final(arthur).absorbed(),
                        d.1@,
                        vals(d.0@),
                        (rem - 1) as nat,
                    ) == layer_error(
                        old(arthur).data(),
                        old(arthur).pos(),
                        old(arthur).absorbed(),
                        last@,
                        vals(prev_rand@),
                        rem,
                    )
                },
                Err(e) => {
                    &&& !lr.0
                    &&& e == layer_error(
                        old(arthur).data(),
                        old(arthur).pos(),
                        old(arthur).absorbed(),
                        last@,
                        vals(prev_rand@),
                        rem,
                    )
                    &&& (e == Error::SerializationError || e
                        == Error::SumcheckEqualityViolation)
                    &&& final(arthur).data() == old(arthur).data()
                },
            }
        }),
{
    let ghost data0 = arthur.data();
    let ghost lpos0 = arthur.pos();
    let ghost labs0 = arthur.absorbed();
    let ghost llast0 = last@;
    let ghost prevv = vals(prev_rand@);
    let i = prev_rand.len();
    let ghost lrr = rounds_replay(data0, lpos0, labs0, llast0, i as nat);
    let (rand, last2) = match crate::spark::run_sumcheck_verifier_spark(arthur, i, last) {
        Ok(d) => d,
        Err(e) => {
            proof {
                assert(!lrr.0);
                lemma_layer_fail_rounds(data0, lpos0, labs0, llast0, prevv, rem);
                assert(e == crate::whir_r1cs::replay_error(
                    data0,
                    lpos0,
                    labs0,
                    llast0,
                    prevv.len() as nat,
                ));
                assert(e == layer_error(data0, lpos0, labs0, llast0, prevv, rem));
            }
            return Err(e);
        },
    };
    let last = last2;
    proof {
        assert(lrr.0 && lrr.1 == arthur.pos() && lrr.2 == arthur.absorbed() && lrr.4 == last@);
        assert(vals(rand@) == lrr.3);
    }
    let ghost wpos0 = arthur.pos();
    let ghost wabs0 = arthur.absorbed();
    let l = match arthur.next_scalars(2) {
        Ok(l) => l,
        Err(_) => {
            proof {
                if wpos0 + 16 <= data0.len() && words_canonical(data0, wpos0, 2) {
                    assert(vstd::bytes::spec_u64_from_le_bytes(
                        data0.subrange(wpos0 + 8 * 0, wpos0 + 8 * 0 + 8),
                    ) < crate::field::MODULUS);
                    assert(vstd::bytes::spec_u64_from_le_bytes(
                        data0.subrange(wpos0 + 8 * 1, wpos0 + 8 * 1 + 8),
                    ) < crate::field::MODULUS);
                }
                assert(!(wpos0 + 16 <= data0.len() && words_canonical(data0, wpos0, 2)));
                lemma_layer_fail_line(data0, lpos0, labs0, llast0, prevv, rem);
            }
            return Err(Error::SerializationError);
        },
    };
    let lc = [l[0], l[1]];
    let ghost lcv = seq![decoded_scalar(data0, wpos0), decoded_scalar(data0, wpos0 + 8)];
    proof {
        assert forall|t: int|
            0 <= t < 2 implies vstd::bytes::spec_u64_from_le_bytes(
            #[trigger] data0.subrange(wpos0 + 8 * t, wpos0 + 8 * t + 8),
        ) < crate::field::MODULUS by {
            assert(l@[t]@ >= 0);
        }
        assert(data0.subrange(wpos0 + 8 * 0, wpos0 + 8 * 0 + 8) =~= data0.subrange(
            wpos0,
            wpos0 + 8,
        ));
        assert(data0.subrange(wpos0 + 8 * 1, wpos0 + 8 * 1 + 8) =~= data0.subrange(
            wpos0 + 8,
            wpos0 + 16,
        ));
        assert(wpos0 + 16 <= data0.len() && words_canonical(data0, wpos0, 2));
        assert(vals(lc@) =~= lcv);
        assert(arthur.absorbed() =~= wabs0 + data0.subrange(wpos0, wpos0 + 16));
    }
    let ch = arthur.challenge_scalars(1);
    proof {
        assert(prev_rand@.len() == rand@.len());
    }
    let claimed_last = calculate_eq(&prev_rand, &rand).mul(
        eval_linear_poly(&lc, &FieldElement::zero()),
    ).mul(eval_linear_poly(&lc, &FieldElement::one()));
    if !claimed_last.eq_value(&last) {
        proof {
            assert(claimed_last@ == fmul(
                fmul(eq_pair(prevv, lrr.3), eval_linear(lcv, 0)),
                eval_linear(lcv, 1),
            ));
            assert(claimed_last@ != lrr.4);
            lemma_layer_fail_check(data0, lpos0, labs0, llast0, prevv, rem);
        }
        return Err(Error::SumcheckEqualityViolation);
    }
    let mut rand2 = rand;
    rand2.push(ch[0]);
    let new_last = eval_linear_poly(&lc, &ch[0]);
    proof {
        let absorbed1 = lrr.2 + data0.subrange(lrr.1, lrr.1 + 16);
        let stream = xof_of(absorbed1, 16);
        let chs = challenge_scalar_at(stream, 0);
        assert(ch@[0]@ == chs);
        assert(claimed_last@ == fmul(
            fmul(eq_pair(prevv, lrr.3), eval_linear(lcv, 0)),
            eval_linear(lcv, 1),
        ));
        assert(claimed_last@ == lrr.4);
        lemma_layer_step(data0, lpos0, labs0, llast0, prevv, rem);
        assert(layer_replay(
            data0,
            lrr.1 + 16,
            absorbed1 + stream,
            eval_linear(lcv, chs),
            lrr.3 + seq![chs],
            (rem - 1) as nat,
        ) == layer_replay(data0, lpos0, labs0, llast0, prevv, rem));
        assert(arthur.pos() == lrr.1 + 16);
        assert(arthur.absorbed() == absorbed1 + stream);
        assert(new_last@ == eval_linear(lcv, chs));
        assert(vals(rand2@) =~= lrr.3 + seq![chs]);
    }
    Ok((rand2, new_last))
}

/// The verifier of a grand-product argument's layer walk: it accepts
/// exactly when the transcript replay accepts, and its outputs are the
/// replay's claimed product, randomness and final claim.
#[verifier::rlimit(100)]
#[verifier::spinoff_prover]
pub fn gpa_sumcheck_verifier(arthur: &mut VerifierTranscript, height_of_binary_tree: usize) -> (r:
    Result<GPASumcheckResult, Error>)
    requires
        1 <= height_of_binary_tree < 30,
    ensures
        ({
            let g = gpa_replay(
                old(arthur).data(),
                old(arthur).pos(),
                old(arthur).absorbed(),
                (height_of_binary_tree - 1) as nat,
            );
            match r {
                Ok(d) => {
                    &&& g.0
                    &&& d.randomness@.len() == height_of_binary_tree - 1
                    &&& vals(d.randomness@) == g.3
                    &&& d.last_sumcheck_value@ == g.4
                    &&& d.claimed_product@ == g.5
                    &&& final(arthur).pos() == g.1
                    &&& final(arthur).absorbed() == g.2
                    &&& final(arthur).data() == old(arthur).data()
                },
                Err(e) => {
                    &&& !g.0
                    &&& e == gpa_error(
                        old(arthur).data(),
                        old(arthur).pos(),
                        old(arthur).absorbed(),
                        (height_of_binary_tree - 1) as nat,
                    )
                    &&& (e == Error::SerializationError || e
                        == Error::SumcheckEqualityViolation)
                    &&& final(arthur).data() == old(arthur).data()
                },
            }
        }),
{
    let ghost data0 = arthur.data();
    let ghost pos0 = arthur.pos();
    let ghost abs0 = arthur.absorbed();
    let ghost lcount = (height_of_binary_tree - 1) as nat;
    let claimed = match arthur.next_scalars(1) {
        Ok(v) => v,
        Err(_) => {
            proof {
                if pos0 + 8 <= data0.len() && words_canonical(data0, pos0, 1) {
                    assert(vstd::bytes::spec_u64_from_le_bytes(
                        data0.subrange(pos0 + 8 * 0, pos0 + 8 * 0 + 8),
                    ) < crate::field::MODULUS);
                }
                assert(!(pos0 + 8 <= data0.len() && words_canonical(data0, pos0, 1)));
            }
            return Err(Error::SerializationError);
        },
    };
    let ghost cl = decoded_scalar(data0, pos0);
    let ghost abs1 = abs0 + data0.subrange(pos0, pos0 + 8);
    let ghost full = layer_replay(data0, pos0 + 8, abs1, cl, Seq::<int>::empty(), lcount);
    let ghost full_err = layer_error(data0, pos0 + 8, abs1, cl, Seq::<int>::empty(), lcount);
    proof {
        assert forall|t: int|
            0 <= t < 1 implies vstd::bytes::spec_u64_from_le_bytes(
            #[trigger] data0.subrange(pos0 + 8 * t, pos0 + 8 * t + 8),
        ) < crate::field::MODULUS by {
            assert(claimed@[t]@ >= 0);
        }
        assert(data0.subrange(pos0 + 8 * 0, pos0 + 8 * 0 + 8) =~= data0.subrange(pos0, pos0 + 8));
        assert(pos0 + 8 <= data0.len() && words_canonical(data0, pos0, 1));
        assert(claimed@[0]@ == cl);
        assert(gpa_replay(data0, pos0, abs0, lcount) == (full.0, full.1, full.2, full.3, full.4, cl));
        assert(arthur.pos() == pos0 + 8);
        assert(arthur.absorbed() == abs1);
    }
    let mut prev_rand: Vec<FieldElement> = Vec::new();
    let mut last = claimed[0];
    proof {
        assert(vals(prev_rand@) =~= Seq::<int>::empty());
    }
    let mut i: usize = 0;
    while i < height_of_binary_tree - 1
        invariant
            i <= height_of_binary_tree - 1,
            1 <= height_of_binary_tree < 30,
            lcount == (height_of_binary_tree - 1) as nat,
            prev_rand@.len() == i,
            arthur.data() == data0,
            data0 == old(arthur).data(),
            full == layer_replay(data0, pos0 + 8, abs1, cl, Seq::<int>::empty(), lcount),
            pos0 == old(arthur).pos(),
            abs0 == old(arthur).absorbed(),
            cl == claimed@[0]@,
            gpa_replay(data0, pos0, abs0, lcount) == (full.0, full.1, full.2, full.3, full.4, cl),
            gpa_error(data0, pos0, abs0, lcount) == full_err,
            full_err == layer_error(data0, pos0 + 8, abs1, cl, Seq::<int>::empty(), lcount),
            layer_replay(
                data0,
                arthur.pos(),
                arthur.absorbed(),
                last@,
                vals(prev_rand@),
                (lcount - i) as nat,
            ) == full,
            layer_error(
                data0,
                arthur.pos(),
                arthur.absorbed(),
                last@,
                vals(prev_rand@),
                (lcount - i) as nat,
            ) == full_err,
        decreases height_of_binary_tree - 1 - i,
    {
        let (np, nl) = match gpa_verify_layer(arthur, prev_rand, last, Ghost((lcount - i) as nat))
        {
            Ok(d) => d,
            Err(e) => {
                proof {
                    assert(!full.0);
                    assert(e == full_err);
                    assert(e == gpa_error(data0, pos0, abs0, lcount));
                }
                return Err(e);
            },
        };
        prev_rand = np;
        last = nl;
        i += 1;
    }
    proof {
        assert(layer_replay(
            data0,
            arthur.pos(),
            arthur.absorbed(),
            last@,
            vals(prev_rand@),
            0,
        ) == (true, arthur.pos(), arthur.absorbed(), vals(prev_rand@), last@));
        assert(full.0 && full.1 == arthur.pos() && full.2 == arthur.absorbed() && full.3
            == vals(prev_rand@) && full.4 == last@);
    }
    Ok(GPASumcheckResult {
        claimed_product: claimed[0],
        last_sumcheck_value: last,
        randomness: prev_rand,
    })
}

/// Prove the grand product of the initialization memory: addresses
/// `0..2^k`, the given values, all timestamps zero.
/// The initial-memory columns: addresses count up from zero and every
/// timestamp is zero.
pub open spec fn init_addrs(n: nat) -> Seq<int> {
    Seq::new(n, |i: int| i % crate::field::p())
}

/// A column of zeros.
pub open spec fn zero_col(n: nat) -> Seq<int> {
    Seq::new(n, |i: int| 0int)
}

/// Run the grand-product argument over the initial memory: address `i` holds
/// the `i`-th eq-table entry at timestamp zero.  The first eight bytes
/// appended to the transcript encode the product of those fingerprints.
pub fn run_gpa_init_prover(
    merlin: &mut ProverTranscript,
    tau: FieldElement,
    gamma: FieldElement,
    eq: Vec<FieldElement>,
)
    requires
        exists|k: nat| k <= 28 && eq@.len() == pow2(k),
    ensures
        final(merlin).data().len() >= old(merlin).data().len() + 8,
        final(merlin).data().subrange(0, old(merlin).data().len() as int) == old(merlin).data(),
        final(merlin).data().subrange(
            old(merlin).data().len() as int,
            old(merlin).data().len() as int + 8,
        ) == crate::field::encode_scalar(
            seq_product(
                fingerprints(
                    gamma@,
                    tau@,
                    init_addrs(eq@.len()),
                    vals(eq@),
                    zero_col(eq@.len()),
                ),
            ),
        ),
        ({
            let k = choose|k: nat| k <= 28 && eq@.len() == pow2(k);
            let leaves = fingerprints(
                gamma@,
                tau@,
                init_addrs(eq@.len()),
                vals(eq@),
                zero_col(eq@.len()),
            );
            let root_msg = crate::field::encode_scalar(seq_product(leaves));
            if k == 0 {
                &&& final(merlin).data() == old(merlin).data() + root_msg
                &&& final(merlin).absorbed() == old(merlin).absorbed() + root_msg
            } else {
                let l1 = iter_pairs(leaves, (k - 1) as nat);
                let st0 = line_step(l1[0], l1[1], old(merlin).absorbed() + root_msg);
                let lw = layers_walk(
                    leaves,
                    k,
                    2,
                    st0.2,
                    fadd(l1[0], fmul(st0.2, fsub(l1[1], l1[0]))),
                    Seq::empty(),
                    st0.1,
                );
                &&& final(merlin).data() == old(merlin).data() + root_msg + st0.0 + lw.1
                &&& final(merlin).absorbed() == lw.0
            }
        }),
{
    let memory_size = eq.len();
    let mut addr: Vec<FieldElement> = Vec::new();
    let mut ts: Vec<FieldElement> = Vec::new();
    let mut i: usize = 0;
    while i < memory_size
        invariant
            i <= memory_size,
            addr@.len() == i,
            ts@.len() == i,
            forall|t: int| 0 <= t < i ==> (#[trigger] addr@[t]@) == t % crate::field::p(),
            forall|t: int| 0 <= t < i ==> (#[trigger] ts@[t]@) == 0,
        decreases memory_size - i,
    {
        addr.push(FieldElement::from_u64(i as u64));
        ts.push(FieldElement::zero());
        i += 1;
    }
    proof {
        assert(vals(addr@) =~= init_addrs(eq@.len()));
        assert(vals(ts@) =~= zero_col(eq@.len()));
        let k = choose|k: nat| k <= 28 && eq@.len() == pow2(k);
        let ka = choose|k2: nat| k2 <= 28 && addr@.len() == pow2(k2);
        assert(k <= 28 && addr@.len() == pow2(k));
        assert(ka == k) by {
            if ka < k {
                vstd::arithmetic::power2::lemma_pow2_strictly_increases(ka, k);
            } else if ka > k {
                vstd::arithmetic::power2::lemma_pow2_strictly_increases(k, ka);
            }
        }
    }
    GrandProductArgument::new(addr, eq, ts, tau, gamma, merlin);
}

/// Verify the grand product of the initialization memory and check the
/// memory-consistency identity at the final point.
pub fn run_gpa_init_verifier(
    arthur: &mut VerifierTranscript,
    tau: &FieldElement,
    gamma: &FieldElement,
    layer_count: usize,
    randomness: Vec<FieldElement>,
) -> (r: Result<FieldElement, Error>)
    requires
        1 <= layer_count < 30,
    ensures
        r is Err ==> (r.get_Err_0() == Error::SerializationError || r.get_Err_0()
            == Error::SumcheckEqualityViolation || r.get_Err_0() == Error::DimensionMismatch),
        ({
            let g = gpa_replay(
                old(arthur).data(),
                old(arthur).pos(),
                old(arthur).absorbed(),
                (layer_count - 1) as nat,
            );
            let expected = fsub(
                fadd(
                    fadd(
                        fmul(fmul(adr_spec(g.3), gamma@), gamma@),
                        fmul(eq_pair(vals(randomness@), g.3), gamma@),
                    ),
                    0,
                ),
                tau@,
            );
            &&& (r is Ok <==> (g.0 && randomness@.len() == layer_count - 1 && g.4 == expected))
            &&& (r is Ok ==> r.get_Ok_0()@ == g.5)
            &&& (r is Err ==> r.get_Err_0() == (if !g.0 {
                gpa_error(
                    old(arthur).data(),
                    old(arthur).pos(),
                    old(arthur).absorbed(),
                    (layer_count - 1) as nat,
                )
            } else if randomness@.len() != layer_count - 1 {
                Error::DimensionMismatch
            } else {
                Error::SumcheckEqualityViolation
            }))
            &&& final(arthur).data() == old(arthur).data()
        }),
{
    let gpa_result = match gpa_sumcheck_verifier(arthur, layer_count) {
        Ok(d) => d,
        Err(e) => {
            return Err(e);
        },
    };
    if randomness.len() != gpa_result.randomness.len() {
        return Err(Error::DimensionMismatch);
    }
    let adr = calculate_adr(&gpa_result.randomness);
    let mem = calculate_eq(&randomness, &gpa_result.randomness);
    let cntr = FieldElement::zero();
    let expected = adr.mul(*gamma).mul(*gamma).add(mem.mul(*gamma)).add(cntr).sub(*tau);
    if !gpa_result.last_sumcheck_value.eq_value(&expected) {
        return Err(Error::SumcheckEqualityViolation);
    }
    Ok(gpa_result.claimed_product)
}

/// Pushing the leaf layer under a tree whose top already satisfies the
/// pairwise-product relation extends that relation by one layer.
proof fn lemma_tree_adjacency(
    layers: Seq<Vec<FieldElement>>,
    upper: Seq<Vec<FieldElement>>,
    next: Seq<FieldElement>,
    leaves: Seq<FieldElement>,
)
    requires
        layers.len() == upper.len() + 1,
        upper.len() >= 1,
        forall|j: int| 0 <= j < upper.len() ==> #[trigger] layers[j] == upper[j],
        layers[layers.len() - 1]@ == leaves,
        upper[upper.len() - 1]@ == next,
        leaves.len() % 2 == 0,
        vals(next) =~= pair_products(vals(leaves)),
        forall|j: int, i: int|
            0 <= j < upper.len() - 1 && 0 <= i < upper[j]@.len() ==> (#[trigger] upper[j]@[i]@)
                == fmul(upper[j + 1]@[2 * i]@, upper[j + 1]@[2 * i + 1]@),
    ensures
        forall|j: int, i: int|
            0 <= j < layers.len() - 1 && 0 <= i < layers[j]@.len() ==> (#[trigger] layers[j]@[i]@)
                == fmul(layers[j + 1]@[2 * i]@, layers[j + 1]@[2 * i + 1]@),
{
    assert forall|j: int, i: int|
        0 <= j < layers.len() - 1 && 0 <= i < layers[j]@.len() implies (
    #[trigger] layers[j]@[i]@) == fmul(layers[j + 1]@[2 * i]@, layers[j + 1]@[2 * i + 1]@) by {
        if j < upper.len() - 1 {
            assert(upper[j]@[i]@ == fmul(upper[j + 1]@[2 * i]@, upper[j + 1]@[2 * i + 1]@));
        } else {
            assert(layers[j] == upper[upper.len() - 1]);
            assert(vals(next).len() == next.len());
            assert(vals(leaves).len() == leaves.len());
            assert(i < next.len());
            assert(next.len() == pair_products(vals(leaves)).len());
            assert(i < vals(leaves).len() / 2);
            assert(layers[j]@[i]@ == vals(next)[i]);
            assert(vals(next)[i] == pair_products(vals(leaves))[i]);
            assert(pair_products(vals(leaves))[i] == fmul(
                vals(leaves)[2 * i],
                vals(leaves)[2 * i + 1],
            ));
            assert(layers[j + 1]@ == leaves);
        }
    }
}

} // verus!
