//! Prime-field scalars.
//!
//! The proving core works over the prime field of order `2^61 - 1` (a
//! Mersenne prime).  Elements are stored reduced, as a single machine word;
//! every operation is specified against the mathematical residue in
//! `[0, MODULUS)` given by the view `@`.

use vstd::arithmetic::div_mod::{
    lemma_add_mod_noop, lemma_mod_add_multiples_vanish, lemma_mod_bound, lemma_mod_twice,
    lemma_mul_mod_noop, lemma_small_mod, lemma_sub_mod_noop,
};
use vstd::arithmetic::mul::{
    lemma_mul_is_associative, lemma_mul_is_commutative, lemma_mul_is_distributive_add,
};
use vstd::prelude::*;

verus! {

/// The field modulus `2^61 - 1`.
pub const MODULUS: u64 = 0x1fff_ffff_ffff_ffff;

/// The multiplicative inverse of two: `(MODULUS + 1) / 2 == 2^60`.
pub const HALF: u64 = 0x1000_0000_0000_0000;

/// The field modulus as a mathematical integer.
pub open spec fn p() -> int {
    MODULUS as int
}

/// Addition of residues.
pub open spec fn fadd(a: int, b: int) -> int {
    (a + b) % p()
}

/// Subtraction of residues (Euclidean remainder, hence in `[0, p())`).
pub open spec fn fsub(a: int, b: int) -> int {
    (a - b) % p()
}

/// Negation of a residue.
pub open spec fn fneg(a: int) -> int {
    (0 - a) % p()
}

/// Multiplication of residues.
pub open spec fn fmul(a: int, b: int) -> int {
    (a * b) % p()
}

/// Whether `a` is a reduced residue.
pub open spec fn in_field(a: int) -> bool {
    0 <= a < p()
}

/// A prime-field scalar, stored reduced.
#[derive(Clone, Copy, Debug, PartialEq, Eq, Structural, Hash)]
pub struct FieldElement {
    v: u64,
}

impl View for FieldElement {
    type V = int;

    /// The residue of the stored word; reduced by definition.
    closed spec fn view(&self) -> int {
        (self.v as int) % p()
    }
}

/// Every scalar's view is a reduced residue.
pub broadcast proof fn lemma_in_field(a: FieldElement)
    ensures
        #[trigger] in_field(a@),
{
    lemma_mod_bound(a.v as int, p());
}

impl FieldElement {
    #[verifier::type_invariant]
    closed spec fn wf(self) -> bool {
        self.v < MODULUS
    }

    /// Whether two scalars carry the same residue.
    pub fn eq_value(&self, other: &Self) -> (r: bool)
        ensures
            r <==> (self@ == other@),
    {
        proof {
            use_type_invariant(&*self);
            use_type_invariant(&*other);
            lemma_small_mod(self.v as nat, p() as nat);
            lemma_small_mod(other.v as nat, p() as nat);
        }
        self.v == other.v
    }

    /// The zero element.
    pub fn zero() -> (r: Self)
        ensures
            r@ == 0,
    {
        proof {
            lemma_small_mod(0nat, p() as nat);
        }
        FieldElement { v: 0 }
    }

    /// The one element.
    pub fn one() -> (r: Self)
        ensures
            r@ == 1,
    {
        proof {
            lemma_small_mod(1nat, p() as nat);
        }
        FieldElement { v: 1 }
    }

    /// The inverse of two, used by the sumcheck coefficient reconstruction.
    pub fn half() -> (r: Self)
        ensures
            r@ == HALF as int,
            fmul(2, r@) == 1,
    {
        proof {
            assert(fmul(2, HALF as int) == 1) by {
                assert(2 * (HALF as int) == p() + 1);
                lemma_mod_add_multiples_vanish(1, p());
                lemma_small_mod(1nat, p() as nat);
            }
            lemma_small_mod(HALF as nat, p() as nat);
        }
        FieldElement { v: HALF }
    }

    /// The scalar with residue `x % MODULUS`.
    pub fn from_u64(x: u64) -> (r: Self)
        ensures
            r@ == (x as int) % p(),
    {
        proof {
            lemma_mod_twice(x as int, p());
        }
        FieldElement { v: x % MODULUS }
    }

    /// Field addition.
    pub fn add(self, other: Self) -> (r: Self)
        ensures
            r@ == fadd(self@, other@),
    {
        proof {
            use_type_invariant(self);
            use_type_invariant(other);
            lemma_small_mod(self.v as nat, p() as nat);
            lemma_small_mod(other.v as nat, p() as nat);
        }
        let s = self.v + other.v;
        let v = if s >= MODULUS {
            s - MODULUS
        } else {
            s
        };
        proof {
            if s >= MODULUS {
                lemma_mod_sub_once(s as int, p());
            } else {
                lemma_small_mod(s as nat, p() as nat);
            }
            lemma_small_mod(v as nat, p() as nat);
        }
        FieldElement { v }
    }

    /// Field subtraction.
    pub fn sub(self, other: Self) -> (r: Self)
        ensures
            r@ == fsub(self@, other@),
    {
        proof {
            use_type_invariant(self);
            use_type_invariant(other);
            lemma_small_mod(self.v as nat, p() as nat);
            lemma_small_mod(other.v as nat, p() as nat);
        }
        let v = if self.v >= other.v {
            self.v - other.v
        } else {
            self.v + MODULUS - other.v
        };
        proof {
            let d = self.v as int - other.v as int;
            if self.v >= other.v {
                lemma_small_mod((self.v - other.v) as nat, p() as nat);
            } else {
                lemma_mod_add_multiples_vanish(d, p());
                lemma_small_mod((d + p()) as nat, p() as nat);
            }
            lemma_small_mod(v as nat, p() as nat);
        }
        FieldElement { v }
    }

    /// Field negation.
    pub fn neg(self) -> (r: Self)
        ensures
            r@ == fneg(self@),
    {
        proof {
            use_type_invariant(self);
            lemma_small_mod(self.v as nat, p() as nat);
        }
        let v = if self.v == 0 {
            0
        } else {
            MODULUS - self.v
        };
        proof {
            if self.v == 0 {
                lemma_small_mod(0nat, p() as nat);
            } else {
                lemma_mod_add_multiples_vanish(0 - self.v as int, p());
                lemma_small_mod((p() - self.v as int) as nat, p() as nat);
            }
            lemma_small_mod(v as nat, p() as nat);
        }
        FieldElement { v }
    }

    /// Field multiplication.
    pub fn mul(self, other: Self) -> (r: Self)
        ensures
            r@ == fmul(self@, other@),
    {
        proof {
            use_type_invariant(self);
            use_type_invariant(other);
            assert((self.v as int) * (other.v as int) < 0x4000000000000000000000000000000int)
                by (nonlinear_arith)
                requires
                    self.v < 0x2000_0000_0000_0000,
                    other.v < 0x2000_0000_0000_0000,
            ;
        }
        let prod: u128 = (self.v as u128) * (other.v as u128);
        let m = prod % (MODULUS as u128);
        proof {
            lemma_mod_bound(prod as int, p());
            lemma_small_mod(self.v as nat, p() as nat);
            lemma_small_mod(other.v as nat, p() as nat);
            lemma_small_mod((prod as int % p()) as nat, p() as nat);
        }
        FieldElement { v: m as u64 }
    }

    /// The canonical 8-byte little-endian encoding of the residue.
    pub fn to_bytes(&self) -> (r: Vec<u8>)
        ensures
            r@ == encode_scalar(self@),
            r@.len() == 8,
    {
        proof {
            use_type_invariant(&*self);
            lemma_small_mod(self.v as nat, p() as nat);
        }
        vstd::bytes::u64_to_le_bytes(self.v)
    }

    /// Decode a canonical 8-byte encoding.  Returns `None` exactly when the
    /// encoded word is not a reduced residue.
    pub fn from_bytes(s: &[u8]) -> (r: Option<FieldElement>)
        requires
            s@.len() == 8,
        ensures
            match r {
                Some(v) => vstd::bytes::spec_u64_from_le_bytes(s@) < MODULUS && v@
                    == vstd::bytes::spec_u64_from_le_bytes(s@) as int,
                None => vstd::bytes::spec_u64_from_le_bytes(s@) >= MODULUS,
            },
    {
        let x = vstd::bytes::u64_from_le_bytes(s);
        if x < MODULUS {
            proof {
                lemma_small_mod(x as nat, p() as nat);
            }
            Some(FieldElement { v: x })
        } else {
            None
        }
    }

    /// Reduce a 16-byte little-endian word into the field.
    pub fn from_u128_le_bytes(s: &[u8]) -> (r: FieldElement)
        requires
            s@.len() == 16,
        ensures
            r@ == (vstd::bytes::spec_u128_from_le_bytes(s@) as int) % p(),
    {
        let x = vstd::bytes::u128_from_le_bytes(s);
        let m = (x % (MODULUS as u128)) as u64;
        proof {
            lemma_mod_bound(x as int, p());
            lemma_small_mod((x as int % p()) as nat, p() as nat);
        }
        FieldElement { v: m }
    }
}

/// The canonical encoding of a residue: eight little-endian bytes.
pub open spec fn encode_scalar(v: int) -> Seq<u8> {
    vstd::bytes::spec_u64_to_le_bytes(v as u64)
}

/// Decoding inverts encoding on reduced residues.
pub proof fn lemma_scalar_codec_roundtrip(v: int)
    requires
        in_field(v),
    ensures
        encode_scalar(v).len() == 8,
        vstd::bytes::spec_u64_from_le_bytes(encode_scalar(v)) == v,
{
    vstd::bytes::lemma_auto_spec_u64_to_from_le_bytes();
}

/// For `p() <= s < 2 * p()`, one subtraction reduces `s`.
proof fn lemma_mod_sub_once(s: int, m: int)
    requires
        m <= s < 2 * m,
        0 < m,
    ensures
        s % m == s - m,
{
    lemma_mod_sub_multiples_vanish_local(s, m);
    lemma_small_mod((s - m) as nat, m as nat);
}

/// `(s - m) % m == s % m` for positive `m`.
proof fn lemma_mod_sub_multiples_vanish_local(s: int, m: int)
    requires
        0 < m,
    ensures
        (s - m) % m == s % m,
{
    lemma_mod_add_multiples_vanish(s - m, m);
}

/// Residues stay in the field.
pub proof fn lemma_field_closed(a: int, b: int)
    ensures
        in_field(fadd(a, b)),
        in_field(fsub(a, b)),
        in_field(fneg(a)),
        in_field(fmul(a, b)),
    {
    lemma_mod_bound(a + b, p());
    lemma_mod_bound(a - b, p());
    lemma_mod_bound(0 - a, p());
    lemma_mod_bound(a * b, p());
}

/// Addition of residues is commutative.
pub proof fn lemma_fadd_comm(a: int, b: int)
    ensures
        fadd(a, b) == fadd(b, a),
{
}

/// Multiplication of residues is commutative.
pub proof fn lemma_fmul_comm(a: int, b: int)
    ensures
        fmul(a, b) == fmul(b, a),
{
    lemma_mul_is_commutative(a, b);
}

/// Addition respects congruence: operands may be reduced first.
pub proof fn lemma_fadd_mod(a: int, b: int)
    ensures
        fadd(a % p(), b) == fadd(a, b),
        fadd(a, b % p()) == fadd(a, b),
{
    lemma_add_mod_noop(a, b, p());
    lemma_mod_twice(a, p());
    lemma_mod_twice(b, p());
    lemma_add_mod_noop(a % p(), b, p());
    lemma_add_mod_noop(a, b % p(), p());
}

/// Subtraction respects congruence on either operand.
pub proof fn lemma_fsub_mod(a: int, b: int)
    ensures
        fsub(a % p(), b) == fsub(a, b),
        fsub(a, b % p()) == fsub(a, b),
{
    lemma_sub_mod_noop(a, b, p());
    lemma_mod_twice(a, p());
    lemma_mod_twice(b, p());
    lemma_sub_mod_noop(a % p(), b, p());
    lemma_sub_mod_noop(a, b % p(), p());
}

/// Multiplication respects congruence: operands may be reduced first.
pub proof fn lemma_fmul_mod(a: int, b: int)
    ensures
        fmul(a % p(), b) == fmul(a, b),
        fmul(a, b % p()) == fmul(a, b),
{
    lemma_mul_mod_noop(a, b, p());
    lemma_mod_twice(a, p());
    lemma_mod_twice(b, p());
    lemma_mul_mod_noop(a % p(), b, p());
    lemma_mul_mod_noop(a, b % p(), p());
}

/// Addition of residues is associative.
pub proof fn lemma_fadd_assoc(a: int, b: int, c: int)
    ensures
        fadd(fadd(a, b), c) == fadd(a, fadd(b, c)),
{
    lemma_fadd_mod(a + b, c);
    lemma_fadd_mod(a, b + c);
}

/// Multiplication of residues is associative.
pub proof fn lemma_fmul_assoc(a: int, b: int, c: int)
    ensures
        fmul(fmul(a, b), c) == fmul(a, fmul(b, c)),
{
    lemma_fmul_mod(a * b, c);
    lemma_fmul_mod(a, b * c);
    lemma_mul_is_associative(a, b, c);
}

/// Multiplication distributes over addition of residues.
pub proof fn lemma_fmul_dist(a: int, b: int, c: int)
    ensures
        fmul(a, fadd(b, c)) == fadd(fmul(a, b), fmul(a, c)),
{
    lemma_fmul_mod(a, b + c);
    lemma_mul_is_distributive_add(a, b, c);
    lemma_add_mod_noop(a * b, a * c, p());
}

/// Zero is the additive identity on reduced residues.
pub proof fn lemma_fadd_zero(a: int)
    requires
        in_field(a),
    ensures
        fadd(a, 0) == a,
        fadd(0, a) == a,
{
    lemma_small_mod(a as nat, p() as nat);
}

/// One is the multiplicative identity on reduced residues.
pub proof fn lemma_fmul_one(a: int)
    requires
        in_field(a),
    ensures
        fmul(a, 1) == a,
        fmul(1, a) == a,
{
    lemma_small_mod(a as nat, p() as nat);
}

/// Multiplication by zero annihilates.
pub proof fn lemma_fmul_zero(a: int)
    ensures
        fmul(a, 0) == 0,
        fmul(0, a) == 0,
{
    lemma_small_mod(0nat, p() as nat);
}

/// Adding and then subtracting the same residue is the identity.
pub proof fn lemma_fsub_fadd_cancel(a: int, b: int)
    requires
        in_field(a),
    ensures
        fsub(fadd(a, b), b) == a,
        fadd(fsub(a, b), b) == a,
{
    lemma_fsub_mod(a + b, b);
    lemma_fadd_mod(a - b, b);
    lemma_small_mod(a as nat, p() as nat);
}

/// The residues of a sequence of scalars.
pub open spec fn vals(s: Seq<FieldElement>) -> Seq<int> {
    s.map_values(|x: FieldElement| x@)
}

/// `fadd` and `fsub` reshuffle like ordinary sums.
pub proof fn lemma_fadd_shuffle(a: int, b: int, c: int, d: int)
    ensures
        fadd(fadd(a, b), fadd(c, d)) == fadd(fadd(a, c), fadd(b, d)),
{
    lemma_add_mod_noop(a + b, c + d, p());
    lemma_add_mod_noop(a + c, b + d, p());
}

/// `fadd` commutes across nesting: `(a + b) + c == (a + c) + b`.
pub proof fn lemma_fadd_shuffle2(a: int, b: int, c: int)
    ensures
        fadd(fadd(a, b), c) == fadd(fadd(a, c), b),
{
    lemma_add_mod_noop(a + b, c, p());
    lemma_mod_twice(a + b, p());
    lemma_mod_twice(c, p());
    lemma_add_mod_noop((a + b) % p(), c, p());
    lemma_add_mod_noop(a + c, b, p());
    lemma_mod_twice(a + c, p());
    lemma_mod_twice(b, p());
    lemma_add_mod_noop((a + c) % p(), b, p());
}

/// Distribution from the right: `(a + b) * c == a * c + b * c`.
pub proof fn lemma_fmul_dist_right(a: int, b: int, c: int)
    ensures
        fmul(fadd(a, b), c) == fadd(fmul(a, c), fmul(b, c)),
{
    lemma_fmul_comm(fadd(a, b), c);
    lemma_fmul_dist(c, a, b);
    lemma_fmul_comm(c, a);
    lemma_fmul_comm(c, b);
}

/// `fadd(0 * reductions, ...)`: adding `(0 + m) * x`-style terms reduces the
/// same as adding `m * x`.
pub proof fn lemma_fadd_mod_left_zero(m: int, x: int)
    ensures
        fmul(fadd(0, m), x) == fmul(m, x),
{
    lemma_fmul_mod(m, x);
}

/// Negation distributes over multiplication.
pub proof fn lemma_fneg_mul(a: int, b: int)
    ensures
        fmul(fneg(a), b) == fneg(fmul(a, b)),
{
    lemma_fmul_mod(0 - a, b);
    lemma_mul_is_commutative(0 - a, b);
    lemma_mul_is_commutative(a, b);
    assert((0 - a) * b == 0 - (a * b)) by (nonlinear_arith);
    lemma_fneg_mod(a * b);
}

/// Negation respects congruence.
pub proof fn lemma_fneg_mod(a: int)
    ensures
        fneg(a % p()) == fneg(a),
{
    lemma_sub_mod_noop(0, a, p());
    lemma_mod_twice(a, p());
    lemma_small_mod(0nat, p() as nat);
    lemma_sub_mod_noop(0, a % p(), p());
}

/// Negation distributes over addition.
pub proof fn lemma_fneg_add(a: int, b: int)
    ensures
        fadd(fneg(a), fneg(b)) == fneg(fadd(a, b)),
{
    lemma_add_mod_noop(0 - a, 0 - b, p());
    lemma_fneg_mod(a + b);
}

/// From `x + q == 0` in the field, `x` is the negation of `q`.
pub proof fn lemma_cancel_to_neg(x: int, q: int)
    requires
        in_field(x),
        fadd(x, q) == 0,
    ensures
        x == fneg(q),
{
    let m = p();
    vstd::arithmetic::div_mod::lemma_fundamental_div_mod(x + q, m);
    let k = (x + q) / m;
    assert(x + q == m * k);
    assert(0 - q == m * (0 - k) + x) by (nonlinear_arith)
        requires
            x + q == m * k,
    ;
    vstd::arithmetic::div_mod::lemma_mod_multiples_vanish(0 - k, x, m);
    lemma_small_mod(x as nat, m as nat);
}

} // verus!
