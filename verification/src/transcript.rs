//! The Fiat-Shamir transcript.
//!
//! Prover and verifier share one deterministic construction: every challenge
//! is the output of an extendable-output hash over all bytes absorbed so far
//! (a domain-separation label, the protocol messages, and every earlier
//! challenge, fed back in).  The prover appends its messages to the proof
//! byte string; the verifier reads the same bytes back and absorbs them, so
//! both sides draw identical challenges from identical absorbed prefixes.
//!
//! Only the hash itself is trusted: its output is a function of the input
//! bytes alone, named [`xof_of`].

use crate::errors::Error;
use crate::field::{encode_scalar, p, vals, FieldElement};
use spongefish::{DuplexSpongeInit, DuplexSpongeInterface};
use vstd::prelude::*;

verus! {

/// The byte stream that the extendable-output hash produces from the given
/// input bytes.
pub uninterp spec fn xof_of(input: Seq<u8>, n: nat) -> Seq<u8>;

/// Relies on spongefish's `DefaultHash` (the TurboSHAKE128 duplex sponge):
/// `init`, `absorb` and `squeeze` are deterministic, so the `n` bytes
/// squeezed after absorbing `input` into a fresh sponge are a function of
/// `input` alone.
#[verifier::external_body]
fn xof_bytes(input: &Vec<u8>, n: usize) -> (r: Vec<u8>)
    ensures
        r@ == xof_of(input@, n as nat),
        r@.len() == n,
{
    let mut sponge = spongefish::DefaultHash::init(&[0u8; 32]);
    sponge.absorb(input.as_slice());
    let mut out = vec![0u8; n];
    sponge.squeeze(&mut out);
    out
}

/// The concatenated canonical encodings of a sequence of scalars.
pub open spec fn encode_scalars(s: Seq<FieldElement>) -> Seq<u8>
    decreases s.len(),
{
    if s.len() == 0 {
        Seq::empty()
    } else {
        encode_scalars(s.drop_last()) + encode_scalar(s.last()@)
    }
}

/// The four 8-byte encodings of a round polynomial's coefficients.
pub open spec fn encode4(c: Seq<int>) -> Seq<u8> {
    encode_scalar(c[0]) + encode_scalar(c[1]) + encode_scalar(c[2]) + encode_scalar(c[3])
}

/// A four-scalar message encodes as the concatenation of its residues'
/// encodings.
pub proof fn lemma_encode4(msg: Seq<FieldElement>)
    requires
        msg.len() == 4,
    ensures
        encode_scalars(msg) == encode4(vals(msg)),
        encode_scalars(msg).len() == 32,
{
    vstd::bytes::lemma_auto_spec_u64_to_from_le_bytes();
    let m3 = msg.drop_last();
    let m2 = m3.drop_last();
    let m1 = m2.drop_last();
    let m0 = m1.drop_last();
    assert(m0 =~= Seq::<FieldElement>::empty());
    assert(m1.len() == 1 && m1.last() == msg[0]);
    assert(m2.len() == 2 && m2.last() == msg[1]);
    assert(m3.len() == 3 && m3.last() == msg[2]);
    assert(msg.last() == msg[3]);
    assert(encode_scalars(m0) == Seq::<u8>::empty());
    assert(encode_scalars(m1) == encode_scalars(m0) + encode_scalar(msg[0]@));
    assert(encode_scalars(m2) == encode_scalars(m1) + encode_scalar(msg[1]@));
    assert(encode_scalars(m3) == encode_scalars(m2) + encode_scalar(msg[2]@));
    assert(encode_scalars(msg) == encode_scalars(m3) + encode_scalar(msg[3]@));
    assert(vals(msg)[0] == msg[0]@ && vals(msg)[1] == msg[1]@ && vals(msg)[2] == msg[2]@
        && vals(msg)[3] == msg[3]@);
    assert(encode_scalars(msg) =~= encode4(vals(msg)));
}

/// The three 8-byte encodings of the claimed evaluations.
pub open spec fn encode3(c: Seq<int>) -> Seq<u8> {
    encode_scalar(c[0]) + encode_scalar(c[1]) + encode_scalar(c[2])
}

/// A three-scalar message encodes as the concatenation of its residues'
/// encodings.
pub proof fn lemma_encode3(msg: Seq<FieldElement>)
    requires
        msg.len() == 3,
    ensures
        encode_scalars(msg) == encode3(vals(msg)),
        encode_scalars(msg).len() == 24,
{
    vstd::bytes::lemma_auto_spec_u64_to_from_le_bytes();
    let m2 = msg.drop_last();
    let m1 = m2.drop_last();
    let m0 = m1.drop_last();
    assert(m0 =~= Seq::<FieldElement>::empty());
    assert(m1.len() == 1 && m1.last() == msg[0]);
    assert(m2.len() == 2 && m2.last() == msg[1]);
    assert(msg.last() == msg[2]);
    assert(encode_scalars(m0) == Seq::<u8>::empty());
    assert(encode_scalars(m1) == encode_scalars(m0) + encode_scalar(msg[0]@));
    assert(encode_scalars(m2) == encode_scalars(m1) + encode_scalar(msg[1]@));
    assert(encode_scalars(msg) == encode_scalars(m2) + encode_scalar(msg[2]@));
    assert(vals(msg)[0] == msg[0]@ && vals(msg)[1] == msg[1]@ && vals(msg)[2] == msg[2]@);
    assert(encode_scalars(msg) =~= encode3(vals(msg)));
}

/// A two-scalar message encodes as the concatenation of its residues'
/// encodings.
pub proof fn lemma_encode2(msg: Seq<FieldElement>)
    requires
        msg.len() == 2,
    ensures
        encode_scalars(msg) == encode_scalar(msg[0]@) + encode_scalar(msg[1]@),
        encode_scalars(msg).len() == 16,
{
    vstd::bytes::lemma_auto_spec_u64_to_from_le_bytes();
    let m1 = msg.drop_last();
    let m0 = m1.drop_last();
    assert(m0 =~= Seq::<FieldElement>::empty());
    assert(m1.len() == 1 && m1.last() == msg[0]);
    assert(msg.last() == msg[1]);
    assert(encode_scalars(m0) == Seq::<u8>::empty());
    assert(encode_scalars(m1) == encode_scalars(m0) + encode_scalar(msg[0]@));
    assert(encode_scalars(msg) == encode_scalars(m1) + encode_scalar(msg[1]@));
    assert(encode_scalars(msg) =~= encode_scalar(msg[0]@) + encode_scalar(msg[1]@));
}

/// One scalar's encoding is eight bytes.
pub proof fn lemma_encode_scalar_len(v: int)
    ensures
        encode_scalar(v).len() == 8,
{
    vstd::bytes::lemma_auto_spec_u64_to_from_le_bytes();
}

/// The scalars drawn from a challenge byte stream: each consumes 16 bytes,
/// reduced into the field.
pub open spec fn challenge_scalar_at(stream: Seq<u8>, i: int) -> int {
    (vstd::bytes::spec_u128_from_le_bytes(stream.subrange(16 * i, 16 * i + 16)) as int) % p()
}

/// The prover side of the transcript: absorbs messages, emits the proof byte
/// string.
pub struct ProverTranscript {
    absorbed: Vec<u8>,
    data: Vec<u8>,
}

impl ProverTranscript {
    /// All bytes absorbed so far.
    pub closed spec fn absorbed(&self) -> Seq<u8> {
        self.absorbed@
    }

    /// The proof bytes written so far.
    pub closed spec fn data(&self) -> Seq<u8> {
        self.data@
    }

    /// A fresh transcript, seeded with a domain-separation label.
    pub fn new(label: &[u8]) -> (r: Self)
        ensures
            r.absorbed() == label@,
            r.data() == Seq::<u8>::empty(),
    {
        let mut absorbed: Vec<u8> = Vec::new();
        absorbed.extend_from_slice(label);
        proof {
            assert(absorbed@ =~= label@);
        }
        ProverTranscript { absorbed, data: Vec::new() }
    }

    /// Append scalars to the proof and absorb their encodings.
    pub fn add_scalars(&mut self, xs: &Vec<FieldElement>)
        ensures
            final(self).data() == old(self).data() + encode_scalars(xs@),
            final(self).absorbed() == old(self).absorbed() + encode_scalars(xs@),
    {
        let mut i: usize = 0;
        while i < xs.len()
            invariant
                i <= xs@.len(),
                self.data@ == old(self).data@ + encode_scalars(xs@.take(i as int)),
                self.absorbed@ == old(self).absorbed@ + encode_scalars(xs@.take(i as int)),
            decreases xs@.len() - i,
        {
            let bytes = xs[i].to_bytes();
            self.data.extend_from_slice(bytes.as_slice());
            self.absorbed.extend_from_slice(bytes.as_slice());
            proof {
                assert(xs@.take(i as int + 1).drop_last() =~= xs@.take(i as int));
                assert(xs@.take(i as int + 1).last() == xs@[i as int]);
            }
            i += 1;
        }
        proof {
            assert(xs@.take(xs@.len() as int) =~= xs@);
        }
    }

    /// Draw `n` challenge scalars: squeeze `16 * n` bytes from the hash of
    /// the absorbed prefix, feed them back, and reduce each 16-byte chunk.
    pub fn challenge_scalars(&mut self, n: usize) -> (r: Vec<FieldElement>)
        requires
            16 * n <= usize::MAX,
        ensures
            r@.len() == n,
            forall|i: int|
                0 <= i < n ==> (#[trigger] r@[i]@) == challenge_scalar_at(
                    xof_of(old(self).absorbed(), (16 * n) as nat),
                    i,
                ),
            final(self).absorbed() == old(self).absorbed() + xof_of(
                old(self).absorbed(),
                (16 * n) as nat,
            ),
            final(self).data() == old(self).data(),
    {
        let stream = xof_bytes(&self.absorbed, 16 * n);
        self.absorbed.extend_from_slice(stream.as_slice());
        scalars_from_stream(&stream, n)
    }

    /// The proof byte string accumulated so far.
    pub fn narg_string(&self) -> (r: Vec<u8>)
        ensures
            r@ == self.data(),
    {
        let mut out: Vec<u8> = Vec::new();
        out.extend_from_slice(self.data.as_slice());
        proof {
            assert(out@ =~= self.data@);
        }
        out
    }
}

/// Reduce each 16-byte chunk of a challenge stream into the field.
fn scalars_from_stream(stream: &Vec<u8>, n: usize) -> (r: Vec<FieldElement>)
    requires
        stream@.len() == 16 * n,
        16 * n <= usize::MAX,
    ensures
        r@.len() == n,
        forall|i: int|
            0 <= i < n ==> (#[trigger] r@[i]@) == challenge_scalar_at(stream@, i),
{
    let mut out: Vec<FieldElement> = Vec::new();
    let mut i: usize = 0;
    while i < n
        invariant
            i <= n,
            stream@.len() == 16 * n,
            16 * n <= usize::MAX,
            out@.len() == i,
            forall|j: int|
                0 <= j < i ==> (#[trigger] out@[j]@) == challenge_scalar_at(stream@, j),
        decreases n - i,
    {
        let chunk = slice_range(stream.as_slice(), 16 * i, 16 * i + 16);
        let v = FieldElement::from_u128_le_bytes(chunk);
        out.push(v);
        i += 1;
    }
    out
}

/// A subslice `[lo, hi)` of a byte slice.
fn slice_range<'a>(s: &'a [u8], lo: usize, hi: usize) -> (r: &'a [u8])
    requires
        lo <= hi <= s@.len(),
    ensures
        r@ == s@.subrange(lo as int, hi as int),
{
    &s[lo..hi]
}

/// The verifier side of the transcript: reads the proof bytes back and draws
/// the same challenges as the prover.
pub struct VerifierTranscript {
    absorbed: Vec<u8>,
    data: Vec<u8>,
    pos: usize,
}

impl VerifierTranscript {
    /// All bytes absorbed so far.
    pub closed spec fn absorbed(&self) -> Seq<u8> {
        self.absorbed@
    }

    /// The full proof byte string under examination.
    pub closed spec fn data(&self) -> Seq<u8> {
        self.data@
    }

    /// The read cursor into the proof bytes.
    pub closed spec fn pos(&self) -> int {
        self.pos as int
    }

    /// A fresh verifier transcript over a proof byte string, seeded with the
    /// same label as the prover's.
    pub fn new(label: &[u8], proof: &[u8]) -> (r: Self)
        ensures
            r.absorbed() == label@,
            r.data() == proof@,
            r.pos() == 0,
    {
        let mut absorbed: Vec<u8> = Vec::new();
        absorbed.extend_from_slice(label);
        let mut data: Vec<u8> = Vec::new();
        data.extend_from_slice(proof);
        proof {
            assert(absorbed@ =~= label@);
            assert(data@ =~= proof@);
        }
        VerifierTranscript { absorbed, data, pos: 0 }
    }

    /// Read `n` scalars from the proof bytes, absorbing what was read.
    /// Fails with [`Error::SerializationError`] when the proof is exhausted
    /// or a word is not a reduced residue; the transcript is then dead.
    pub fn next_scalars(&mut self, n: usize) -> (r: Result<Vec<FieldElement>, Error>)
        requires
            8 * n <= usize::MAX,
        ensures
            match r {
                Ok(v) => {
                    &&& old(self).pos() + 8 * n <= old(self).data().len()
                    &&& v@.len() == n
                    &&& forall|i: int|
                        0 <= i < n ==> (#[trigger] v@[i]@)
                            == vstd::bytes::spec_u64_from_le_bytes(
                            old(self).data().subrange(
                                old(self).pos() + 8 * i,
                                old(self).pos() + 8 * i + 8,
                            ),
                        ) as int && vstd::bytes::spec_u64_from_le_bytes(
                            old(self).data().subrange(
                                old(self).pos() + 8 * i,
                                old(self).pos() + 8 * i + 8,
                            ),
                        ) < crate::field::MODULUS
                    &&& final(self).pos() == old(self).pos() + 8 * n
                    &&& final(self).absorbed() == old(self).absorbed() + old(self).data().subrange(
                        old(self).pos(),
                        old(self).pos() + 8 * n,
                    )
                    &&& final(self).data() == old(self).data()
                },
                Err(e) => {
                    &&& e == Error::SerializationError
                    &&& final(self).data() == old(self).data()
                    &&& !(old(self).pos() + 8 * n <= old(self).data().len() && forall|i: int|
                        0 <= i < n ==> vstd::bytes::spec_u64_from_le_bytes(
                            #[trigger] old(self).data().subrange(
                                old(self).pos() + 8 * i,
                                old(self).pos() + 8 * i + 8,
                            ),
                        ) < crate::field::MODULUS)
                },
            },
    {
        if self.data.len() < 8 * n || self.pos > self.data.len() - 8 * n {
            return Err(Error::SerializationError);
        }
        let start = self.pos;
        let mut out: Vec<FieldElement> = Vec::new();
        let mut i: usize = 0;
        while i < n
            invariant
                i <= n,
                8 * n <= usize::MAX,
                start + 8 * n <= self.data@.len(),
                self.data@.len() <= usize::MAX,
                start == old(self).pos(),
                self.pos == start + 8 * i,
                self.data@ == old(self).data@,
                self.absorbed@ == old(self).absorbed@ + self.data@.subrange(
                    start as int,
                    start as int + 8 * i,
                ),
                out@.len() == i,
                forall|j: int|
                    0 <= j < i ==> (#[trigger] out@[j]@) == vstd::bytes::spec_u64_from_le_bytes(
                        self.data@.subrange(start + 8 * j, start + 8 * j + 8),
                    ) as int && vstd::bytes::spec_u64_from_le_bytes(
                        self.data@.subrange(start + 8 * j, start + 8 * j + 8),
                    ) < crate::field::MODULUS,
            decreases n - i,
        {
            let chunk = slice_range(self.data.as_slice(), self.pos, self.pos + 8);
            match FieldElement::from_bytes(chunk) {
                Some(v) => {
                    let ghost before = self.absorbed@;
                    self.absorbed.extend_from_slice(chunk);
                    out.push(v);
                    proof {
                        assert(self.absorbed@ =~= old(self).absorbed@ + self.data@.subrange(
                            start as int,
                            start as int + 8 * (i as int + 1),
                        ));
                    }
                },
                None => {
                    proof {
                        assert(chunk@ == old(self).data().subrange(
                            old(self).pos() + 8 * (i as int),
                            old(self).pos() + 8 * (i as int) + 8,
                        ));
                        assert(vstd::bytes::spec_u64_from_le_bytes(
                            old(self).data().subrange(
                                old(self).pos() + 8 * (i as int),
                                old(self).pos() + 8 * (i as int) + 8,
                            ),
                        ) >= crate::field::MODULUS);
                    }
                    return Err(Error::SerializationError);
                },
            }
            self.pos = self.pos + 8;
            i += 1;
        }
        Ok(out)
    }

    /// Draw `n` challenge scalars, exactly as the prover does.
    pub fn challenge_scalars(&mut self, n: usize) -> (r: Vec<FieldElement>)
        requires
            16 * n <= usize::MAX,
        ensures
            r@.len() == n,
            forall|i: int|
                0 <= i < n ==> (#[trigger] r@[i]@) == challenge_scalar_at(
                    xof_of(old(self).absorbed(), (16 * n) as nat),
                    i,
                ),
            final(self).absorbed() == old(self).absorbed() + xof_of(
                old(self).absorbed(),
                (16 * n) as nat,
            ),
            final(self).data() == old(self).data(),
            final(self).pos() == old(self).pos(),
    {
        let stream = xof_bytes(&self.absorbed, 16 * n);
        self.absorbed.extend_from_slice(stream.as_slice());
        scalars_from_stream(&stream, n)
    }
}

} // verus!
