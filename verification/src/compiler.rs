//! The ACIR-style constraint compiler.
//!
//! A [`Circuit`] is an ordered list of opcodes; every supported opcode is an
//! `AssertZero` over an [`Expression`] of multiplicative terms, linear terms
//! and a constant.  [`R1CS::new`] sizes the three constraint matrices in one
//! pass, and [`R1CS::add_circuit`] emits the rows in a second pass, appending
//! one intermediate witness slot per multiplicative term of the complex
//! expressions.
//!
//! The contracts carry the compiler's central guarantee: whenever every
//! asserted expression evaluates to zero under the witness, the emitted
//! system satisfies `(A w)[i] * (B w)[i] == (C w)[i]` on every row.

use crate::errors::Error;
use crate::field::{fadd, fmul, fneg, in_field, vals, FieldElement};
use crate::interner::{InternedFieldElement, Interner};
use crate::sparse_matrix::{
    compat, entry0, hyd_row_of, lemma_compat_extend, lemma_hyd_stable, lemma_row_dot_accumulate,
    lemma_row_dot_empty, lemma_row_dot_extend, lemma_row_dot_in_field, lemma_row_dot_insert,
    row_dot, SparseMatrix,
};
use vstd::prelude::*;

verus! {

/// An arithmetic expression asserted to be zero: multiplicative terms
/// `(coeff, a, b)`, linear terms `(coeff, c)` and a constant.
#[derive(Clone, Debug)]
pub struct Expression {
    /// Terms `coeff * w[a] * w[b]`.
    pub mul_terms: Vec<(FieldElement, u32, u32)>,
    /// Terms `coeff * w[c]`.
    pub linear_combinations: Vec<(FieldElement, u32)>,
    /// The constant term.
    pub q_c: FieldElement,
}

/// A circuit opcode.  Only `AssertZero` is implemented; the remaining kinds
/// are recognized so the compiler can reject them.
#[derive(Clone, Debug)]
pub enum Opcode {
    /// Assert that an expression evaluates to zero.
    AssertZero(Expression),
    /// A call into the witness-generation VM (unsupported).
    BrilligCall,
    /// A solver directive (unsupported).
    Directive,
    /// A circuit function call (unsupported).
    Call,
    /// A memory operation (unsupported).
    MemoryOp,
    /// A memory initialization (unsupported).
    MemoryInit,
    /// A black-box function call (unsupported).
    BlackBoxFuncCall,
}

/// An ordered sequence of opcodes.
#[derive(Clone, Debug)]
pub struct Circuit {
    /// The opcodes, in execution order.
    pub opcodes: Vec<Opcode>,
}

/// The value of the multiplicative terms below `n` under a witness.
pub open spec fn mul_terms_eval(ts: Seq<(FieldElement, u32, u32)>, w: Seq<int>, n: int) -> int
    decreases n,
{
    if n <= 0 {
        0
    } else {
        fadd(
            mul_terms_eval(ts, w, n - 1),
            fmul(fmul(ts[n - 1].0@, w[ts[n - 1].1 as int]), w[ts[n - 1].2 as int]),
        )
    }
}

/// The value of the linear terms below `n` under a witness.
pub open spec fn linear_eval(ts: Seq<(FieldElement, u32)>, w: Seq<int>, n: int) -> int
    decreases n,
{
    if n <= 0 {
        0
    } else {
        fadd(linear_eval(ts, w, n - 1), fmul(ts[n - 1].0@, w[ts[n - 1].1 as int]))
    }
}

/// The value of an expression under a witness.
pub open spec fn expr_eval(e: Expression, w: Seq<int>) -> int {
    fadd(
        fadd(
            mul_terms_eval(e.mul_terms@, w, e.mul_terms@.len() as int),
            linear_eval(e.linear_combinations@, w, e.linear_combinations@.len() as int),
        ),
        e.q_c@,
    )
}

/// Whether all witness indices of an expression are below `bound`.
pub open spec fn expr_bounded(e: Expression, bound: int) -> bool {
    &&& forall|k: int|
        0 <= k < e.mul_terms@.len() ==> (#[trigger] e.mul_terms@[k].1 as int) < bound
            && (e.mul_terms@[k].2 as int) < bound
    &&& forall|k: int|
        0 <= k < e.linear_combinations@.len() ==> (#[trigger] e.linear_combinations@[k].1 as int)
            < bound
}

/// A complex expression needs one row per multiplicative term plus a
/// combining row.
pub open spec fn expr_complex(e: Expression) -> bool {
    e.mul_terms@.len() > 1 || e.linear_combinations@.len() > 1
}

/// The supported expression shapes: complex, or exactly one multiplicative
/// term.  A simple expression without a multiplicative term has no clear
/// canonical encoding and is rejected rather than guessed.
pub open spec fn expr_supported(e: Expression) -> bool {
    expr_complex(e) || e.mul_terms@.len() == 1
}

/// The number of constraint rows an expression consumes.
pub open spec fn expr_rows(e: Expression) -> int {
    if expr_complex(e) {
        e.mul_terms@.len() as int + 1
    } else {
        1
    }
}

/// The number of intermediate witness slots an expression consumes.
pub open spec fn expr_extra_cols(e: Expression) -> int {
    if expr_complex(e) {
        e.mul_terms@.len() as int
    } else {
        0
    }
}

/// Whether every `AssertZero` expression of the circuit evaluates to zero
/// under the witness.
pub open spec fn circuit_satisfied(c: Circuit, w: Seq<int>) -> bool {
    forall|k: int|
        0 <= k < c.opcodes@.len() ==> match #[trigger] c.opcodes@[k] {
            Opcode::AssertZero(e) => expr_eval(e, w) == 0,
            _ => true,
        }
}

/// A Rank-1 Constraint System under construction: three sparse matrices over
/// one interner, and the growing witness vector.
#[derive(Debug)]
pub struct R1CS {
    /// The left constraint matrix.
    pub a: SparseMatrix,
    /// The right constraint matrix.
    pub b: SparseMatrix,
    /// The output constraint matrix.
    pub c: SparseMatrix,
    /// The value store behind all three matrices.
    pub interner: Interner,
    /// The witness vector, extended with intermediate products as rows are
    /// emitted.
    pub witness: Vec<FieldElement>,
    /// The next constraint row to be emitted.
    pub current_constraint: usize,
    /// The next free witness slot.
    pub current_witness_index: usize,
    /// The highest witness index the circuit itself references; the
    /// constant-one slot sits immediately after.
    pub original_witness: usize,
}

impl R1CS {
    /// The number of constraint rows already emitted.
    pub closed spec fn filled(&self) -> int {
        self.current_constraint as int
    }

    /// The index of the constant-one witness slot.
    pub closed spec fn one_index(&self) -> int {
        self.original_witness as int + 1
    }

    /// The next free witness slot.
    pub closed spec fn next_witness(&self) -> int {
        self.current_witness_index as int
    }

    /// The residues of row `i` of matrix `A`.
    pub open spec fn a_row(&self, i: int) -> Map<int, int> {
        hyd_row_of(self.a, self.interner, i)
    }

    /// The residues of row `i` of matrix `B`.
    pub open spec fn b_row(&self, i: int) -> Map<int, int> {
        hyd_row_of(self.b, self.interner, i)
    }

    /// The residues of row `i` of matrix `C`.
    pub open spec fn c_row(&self, i: int) -> Map<int, int> {
        hyd_row_of(self.c, self.interner, i)
    }

    /// Structural well-formedness of the system under construction.
    pub open spec fn wf(&self) -> bool {
        &&& self.a.wf() && self.b.wf() && self.c.wf()
        &&& self.a@.len() == self.b@.len() && self.b@.len() == self.c@.len()
        &&& self.a.cols() == self.b.cols() && self.b.cols() == self.c.cols()
        &&& compat(self.a, self.interner) && compat(self.b, self.interner) && compat(
            self.c,
            self.interner,
        )
        &&& self.witness@.len() == self.next_witness()
        &&& self.one_index() < self.next_witness() <= self.a.cols()
        &&& self.witness@[self.one_index()]@ == 1
        &&& 0 <= self.filled() <= self.a@.len()
        &&& self.rows_empty_from(self.filled())
        &&& self.cols_bounded()
    }

    /// Rows at or above `k` hold no entries yet, in any of the matrices.
    pub open spec fn rows_empty_from(&self, k: int) -> bool {
        forall|i: int|
            k <= i < self.a@.len() ==> (#[trigger] self.a@[i]).dom() =~= Set::empty()
                && self.b@[i].dom() =~= Set::empty() && self.c@[i].dom() =~= Set::empty()
    }

    /// Every stored entry sits in a column below the next free witness slot.
    pub open spec fn cols_bounded(&self) -> bool {
        &&& forall|i: int, c: int|
            0 <= i < self.filled() && (#[trigger] self.a@[i].dom().contains(c)) ==> 0 <= c
                < self.next_witness()
        &&& forall|i: int, c: int|
            0 <= i < self.filled() && (#[trigger] self.b@[i].dom().contains(c)) ==> 0 <= c
                < self.next_witness()
        &&& forall|i: int, c: int|
            0 <= i < self.filled() && (#[trigger] self.c@[i].dom().contains(c)) ==> 0 <= c
                < self.next_witness()
    }

    /// Row `i` satisfies the rank-1 relation under the current witness.
    pub open spec fn constraint_holds(&self, i: int) -> bool {
        fmul(
            row_dot(self.a_row(i), vals(self.witness@), self.a.cols() as int),
            row_dot(self.b_row(i), vals(self.witness@), self.a.cols() as int),
        ) == row_dot(self.c_row(i), vals(self.witness@), self.a.cols() as int)
    }

    /// All rows below `k` satisfy the rank-1 relation.
    pub open spec fn satisfied_up_to(&self, k: int) -> bool {
        forall|i: int| 0 <= i < k ==> self.constraint_holds(i)
    }
}

/// Intern a value and store its handle at `(row, col)`.
pub(crate) fn set_entry(
    m: &mut SparseMatrix,
    interner: &mut Interner,
    row: usize,
    col: usize,
    value: FieldElement,
)
    requires
        old(m).wf(),
        compat(*old(m), *old(interner)),
        row < old(m)@.len(),
        col < old(m).cols(),
        old(interner)@.len() < u32::MAX,
    ensures
        final(m).wf(),
        compat(*final(m), *final(interner)),
        final(m)@.len() == old(m)@.len(),
        final(m).cols() == old(m).cols(),
        final(m).entry_count() <= old(m).entry_count() + 1,
        final(m)@[row as int].dom() =~= old(m)@[row as int].dom().insert(col as int),
        forall|r: int|
            0 <= r < old(m)@.len() && r != row ==> (#[trigger] final(m)@[r]).dom()
                =~= old(m)@[r].dom(),
        forall|r: int|
            0 <= r < old(m)@.len() && r != row ==> hyd_row_of(*final(m), *final(interner), r)
                =~= hyd_row_of(*old(m), *old(interner), r),
        hyd_row_of(*final(m), *final(interner), row as int) =~= hyd_row_of(
            *old(m),
            *old(interner),
            row as int,
        ).insert(col as int, value@),
        final(interner)@.len() <= old(interner)@.len() + 1,
        old(interner)@.len() <= final(interner)@.len(),
        forall|k: int| 0 <= k < old(interner)@.len() ==> final(interner)@[k] == old(interner)@[k],
{
    let ghost m1 = *m;
    let ghost it1 = *interner;
    let h = interner.intern(value);
    let res = m.set(row, col, h);
    proof {
        let m2 = *m;
        let it2 = *interner;
        if res is Err {
            assert(false);
        }
        lemma_hyd_stable(m1, it1, it2);
        assert forall|r: int| 0 <= r < m1@.len() && r != row implies hyd_row_of(m2, it2, r)
            =~= hyd_row_of(m1, it1, r) by {
            assert(m2@[r] == m1@[r]);
            assert(hyd_row_of(m2, it2, r) =~= hyd_row_of(m1, it2, r));
        }
        assert(hyd_row_of(m2, it2, row as int) =~= hyd_row_of(m1, it1, row as int).insert(
            col as int,
            value@,
        )) by {
            lemma_hyd_stable(m1, it1, it2);
            assert(m2@[row as int] =~= m1@[row as int].insert(col as int, h));
            assert(it2@[h as int] == value@);
            assert forall|cc: int| #[trigger] m2@[row as int].dom().contains(cc) && cc
                != col implies it2@[m2@[row as int][cc] as int] == hyd_row_of(
                m1,
                it1,
                row as int,
            )[cc] by {
                assert(m2@[row as int][cc] == m1@[row as int][cc]);
            }
        }
        assert(compat(m2, it2)) by {
            assert forall|r: int, cc: int|
                0 <= r < m2@.len() && (#[trigger] m2@[r].dom().contains(cc)) implies (
            m2@[r][cc] as int) < it2@.len() by {
                if r == row && cc == col {
                } else {
                    assert(m1@[r].dom().contains(cc));
                }
            }
        }
        assert(m2@[row as int].dom() =~= m1@[row as int].dom().insert(col as int));
    }
}

/// Add `value` to the entry stored at `(row, col)`, treating a missing entry
/// as zero.
fn add_entry(
    m: &mut SparseMatrix,
    interner: &mut Interner,
    row: usize,
    col: usize,
    value: FieldElement,
)
    requires
        old(m).wf(),
        compat(*old(m), *old(interner)),
        row < old(m)@.len(),
        col < old(m).cols(),
        old(interner)@.len() < u32::MAX,
    ensures
        final(m).wf(),
        compat(*final(m), *final(interner)),
        final(m)@.len() == old(m)@.len(),
        final(m).cols() == old(m).cols(),
        final(m).entry_count() <= old(m).entry_count() + 1,
        final(m)@[row as int].dom() =~= old(m)@[row as int].dom().insert(col as int),
        forall|r: int|
            0 <= r < old(m)@.len() && r != row ==> (#[trigger] final(m)@[r]).dom()
                =~= old(m)@[r].dom(),
        forall|r: int|
            0 <= r < old(m)@.len() && r != row ==> hyd_row_of(*final(m), *final(interner), r)
                =~= hyd_row_of(*old(m), *old(interner), r),
        hyd_row_of(*final(m), *final(interner), row as int) =~= hyd_row_of(
            *old(m),
            *old(interner),
            row as int,
        ).insert(
            col as int,
            fadd(entry0(hyd_row_of(*old(m), *old(interner), row as int), col as int), value@),
        ),
        final(interner)@.len() <= old(interner)@.len() + 1,
        old(interner)@.len() <= final(interner)@.len(),
        forall|k: int| 0 <= k < old(interner)@.len() ==> final(interner)@[k] == old(interner)@[k],
{
    let ghost hrow = hyd_row_of(*m, *interner, row as int);
    let cur = match m.get(row, col) {
        Some(h) => {
            match interner.get(h) {
                Some(v) => v,
                None => {
                    proof {
                        assert(false);
                    }
                    FieldElement::zero()
                },
            }
        },
        None => FieldElement::zero(),
    };
    proof {
        if m@[row as int].dom().contains(col as int) {
            assert(cur@ == entry0(hrow, col as int));
        } else {
            assert(entry0(hrow, col as int) == 0);
        }
    }
    let sum = cur.add(value);
    set_entry(m, interner, row, col, sum);
    proof {
        if !hrow.dom().contains(col as int) {
            crate::field::lemma_in_field(value);
            crate::field::lemma_fadd_zero(value@);
            assert(sum@ == fadd(entry0(hrow, col as int), value@));
        }
    }
}

/// The larger of two integers.
pub open spec fn max2(a: int, b: int) -> int {
    if a >= b {
        a
    } else {
        b
    }
}

/// The largest witness index among the first `n` multiplicative terms.
pub open spec fn mul_max(ts: Seq<(FieldElement, u32, u32)>, n: int) -> int
    decreases n,
{
    if n <= 0 {
        0
    } else {
        max2(mul_max(ts, n - 1), max2(ts[n - 1].1 as int, ts[n - 1].2 as int))
    }
}

/// The largest witness index among the first `n` linear terms.
pub open spec fn lin_max(ts: Seq<(FieldElement, u32)>, n: int) -> int
    decreases n,
{
    if n <= 0 {
        0
    } else {
        max2(lin_max(ts, n - 1), ts[n - 1].1 as int)
    }
}

/// The largest witness index an expression references.
pub open spec fn expr_max(e: Expression) -> int {
    max2(
        mul_max(e.mul_terms@, e.mul_terms@.len() as int),
        lin_max(e.linear_combinations@, e.linear_combinations@.len() as int),
    )
}

/// Constraint rows contributed by one opcode.
pub open spec fn opcode_rows(op: Opcode) -> int {
    match op {
        Opcode::AssertZero(e) => expr_rows(e),
        _ => 0,
    }
}

/// Intermediate witness slots contributed by one opcode.
pub open spec fn opcode_extra(op: Opcode) -> int {
    match op {
        Opcode::AssertZero(e) => expr_extra_cols(e),
        _ => 0,
    }
}

/// The largest witness index one opcode references.
pub open spec fn opcode_max(op: Opcode) -> int {
    match op {
        Opcode::AssertZero(e) => expr_max(e),
        _ => 0,
    }
}

/// Total constraint rows of the first `k` opcodes.
pub open spec fn rows_upto(ops: Seq<Opcode>, k: int) -> int
    decreases k,
{
    if k <= 0 {
        0
    } else {
        rows_upto(ops, k - 1) + opcode_rows(ops[k - 1])
    }
}

/// Total intermediate slots of the first `k` opcodes.
pub open spec fn extra_upto(ops: Seq<Opcode>, k: int) -> int
    decreases k,
{
    if k <= 0 {
        0
    } else {
        extra_upto(ops, k - 1) + opcode_extra(ops[k - 1])
    }
}

/// An upper bound on the interner entries the first `k` opcodes can
/// consume.
pub open spec fn intern_budget_upto(ops: Seq<Opcode>, k: int) -> int
    decreases k,
{
    if k <= 0 {
        0
    } else {
        intern_budget_upto(ops, k - 1) + match ops[k - 1] {
            Opcode::AssertZero(e) => 4 * e.mul_terms@.len() + e.linear_combinations@.len()
                + 3,
            _ => 0,
        }
    }
}

/// The largest witness index among the first `k` opcodes.
pub open spec fn max_upto(ops: Seq<Opcode>, k: int) -> int
    decreases k,
{
    if k <= 0 {
        0
    } else {
        max2(max_upto(ops, k - 1), opcode_max(ops[k - 1]))
    }
}

/// Total constraint rows of a circuit.
pub open spec fn rows_total(c: Circuit) -> int {
    rows_upto(c.opcodes@, c.opcodes@.len() as int)
}

/// Total intermediate slots of a circuit.
pub open spec fn extra_total(c: Circuit) -> int {
    extra_upto(c.opcodes@, c.opcodes@.len() as int)
}

/// The largest witness index a circuit references.
pub open spec fn max_witness(c: Circuit) -> int {
    max_upto(c.opcodes@, c.opcodes@.len() as int)
}

/// The width of the constraint matrices: original variables, the
/// constant-one slot, and the intermediate slots.
pub open spec fn cols_total(c: Circuit) -> int {
    max_witness(c) + 2 + extra_total(c)
}

/// Whether the sized system fits the machine limits of the sparse-matrix
/// representation.
pub open spec fn sizing_ok(c: Circuit) -> bool {
    &&& rows_total(c) < u32::MAX as int
    &&& cols_total(c) < u32::MAX as int
    &&& rows_total(c) * cols_total(c) < u32::MAX as int
}

/// The value a witness-assignment list gives to index `i`: the last
/// assignment wins, unassigned indices are zero.
pub open spec fn assigned_val(s: Seq<(u32, FieldElement)>, i: int) -> int
    decreases s.len(),
{
    if s.len() == 0 {
        0
    } else if s.last().0 as int == i {
        s.last().1@
    } else {
        assigned_val(s.drop_last(), i)
    }
}

/// Row counts only grow with the prefix length.
proof fn lemma_rows_upto_monotone(ops: Seq<Opcode>, k1: int, k2: int)
    requires
        0 <= k1 <= k2,
    ensures
        rows_upto(ops, k1) <= rows_upto(ops, k2),
        extra_upto(ops, k1) <= extra_upto(ops, k2),
        max_upto(ops, k1) <= max_upto(ops, k2),
    decreases k2 - k1,
{
    if k1 < k2 {
        lemma_rows_upto_monotone(ops, k1, k2 - 1);
    }
}

impl R1CS {
    /// Size the system from the circuit (pass 1) and seed the witness
    /// vector.  Fails with [`Error::DimensionMismatch`] exactly when the
    /// sized matrices would not fit the representation, and with
    /// [`Error::IndexOutOfBounds`] exactly when an assignment addresses an
    /// index the circuit never references.
    pub fn new(circuit: &Circuit, witness: &Vec<(u32, FieldElement)>) -> (r: Result<R1CS, Error>)
        ensures
            match r {
                Ok(sys) => {
                    &&& sizing_ok(*circuit)
                    &&& forall|k: int|
                        0 <= k < witness@.len() ==> (#[trigger] witness@[k].0 as int)
                            <= max_witness(*circuit)
                    &&& sys.wf()
                    &&& sys.filled() == 0
                    &&& sys.interner@.len() == 0
                    &&& sys.a@.len() == rows_total(*circuit)
                    &&& sys.a.cols() == cols_total(*circuit)
                    &&& sys.one_index() == max_witness(*circuit) + 1
                    &&& sys.next_witness() == max_witness(*circuit) + 2
                    &&& forall|i: int|
                        0 <= i < sys.one_index() ==> (#[trigger] sys.witness@[i]@)
                            == assigned_val(witness@, i)
                },
                Err(e) => {
                    (e == Error::DimensionMismatch && !sizing_ok(*circuit)) || (e
                        == Error::IndexOutOfBounds && sizing_ok(*circuit) && exists|k: int|
                        0 <= k < witness@.len() && (#[trigger] witness@[k].0 as int)
                            > max_witness(*circuit))
                },
            },
    {
        let ghost ops = circuit.opcodes@;
        let mut rows: u64 = 0;
        let mut extra: u64 = 0;
        let mut maxw: u64 = 0;
        let mut k: usize = 0;
        while k < circuit.opcodes.len()
            invariant
                k <= ops.len(),
                ops == circuit.opcodes@,
                rows as int == rows_upto(ops, k as int),
                extra as int == extra_upto(ops, k as int),
                maxw as int == max_upto(ops, k as int),
                rows < u32::MAX as u64,
                extra < u32::MAX as u64,
                maxw <= u32::MAX as u64,
            decreases ops.len() - k,
        {
            match &circuit.opcodes[k] {
                Opcode::AssertZero(e) => {
                    let ml = e.mul_terms.len();
                    let ll = e.linear_combinations.len();
                    // Scan the expression for its largest index.
                    let mut j: usize = 0;
                    let mut em: u64 = 0;
                    while j < ml
                        invariant
                            j <= e.mul_terms@.len(),
                            ml == e.mul_terms@.len(),
                            em as int == mul_max(e.mul_terms@, j as int),
                            em <= u32::MAX as u64,
                        decreases ml - j,
                    {
                        let (_, ia, ib) = e.mul_terms[j];
                        if (ia as u64) > em {
                            em = ia as u64;
                        }
                        if (ib as u64) > em {
                            em = ib as u64;
                        }
                        j += 1;
                    }
                    let mut el: u64 = 0;
                    let mut j2: usize = 0;
                    while j2 < ll
                        invariant
                            j2 <= e.linear_combinations@.len(),
                            ll == e.linear_combinations@.len(),
                            el as int == lin_max(e.linear_combinations@, j2 as int),
                            el <= u32::MAX as u64,
                        decreases ll - j2,
                    {
                        let (_, ic) = e.linear_combinations[j2];
                        if (ic as u64) > el {
                            el = ic as u64;
                        }
                        j2 += 1;
                    }
                    let emax = if em >= el {
                        em
                    } else {
                        el
                    };
                    if (emax) > maxw {
                        maxw = emax;
                    }
                    // Count rows and intermediate slots.
                    let complex = ml > 1 || ll > 1;
                    if complex {
                        if ml as u64 >= u32::MAX as u64 {
                            proof {
                                lemma_rows_upto_monotone(ops, k as int + 1, ops.len() as int);
                            }
                            return Err(Error::DimensionMismatch);
                        }
                        rows = rows + ml as u64 + 1;
                        extra = extra + ml as u64;
                    } else {
                        rows = rows + 1;
                    }
                    if rows >= u32::MAX as u64 || extra >= u32::MAX as u64 {
                        proof {
                            lemma_rows_upto_monotone(ops, k as int + 1, ops.len() as int);
                            if rows >= u32::MAX as u64 {
                            } else {
                                lemma_cols_ge_extra(*circuit, extra_upto(ops, k as int + 1));
                            }
                        }
                        return Err(Error::DimensionMismatch);
                    }
                },
                _ => {},
            }
            k += 1;
        }
        let cols: u64 = maxw + 2 + extra;
        if cols >= u32::MAX as u64 {
            return Err(Error::DimensionMismatch);
        }
        proof {
            let ri = rows as int;
            let ci = cols as int;
            assert(ri * ci < u64::MAX as int) by (nonlinear_arith)
                requires
                    0 <= ri < u32::MAX as int,
                    0 <= ci < u32::MAX as int,
            ;
        }
        if rows * cols >= u32::MAX as u64 {
            proof {
                let ri = rows as int;
                let ci = cols as int;
                assert(ri * ci == rows_total(*circuit) * cols_total(*circuit))
                    by (nonlinear_arith)
                    requires
                        ri == rows_total(*circuit),
                        ci == cols_total(*circuit),
                ;
            }
            return Err(Error::DimensionMismatch);
        }
        proof {
            let ri = rows as int;
            let ci = cols as int;
            assert(ri * ci == rows_total(*circuit) * cols_total(*circuit)) by (nonlinear_arith)
                requires
                    ri == rows_total(*circuit),
                    ci == cols_total(*circuit),
            ;
        }
        // Seed the witness vector: original variables, then the constant-one
        // slot.
        proof {
            assert(maxw + 2 <= cols);
            assert(maxw as int + 2 < u32::MAX as int);
        }
        let maxu = maxw as usize;
        proof {
            assert(maxu as int == maxw as int);
            assert(maxu as int == max_witness(*circuit));
        }
        let wlen = maxu + 1;
        let mut w: Vec<FieldElement> = Vec::new();
        let mut i: usize = 0;
        while i < wlen
            invariant
                i <= wlen,
                w@.len() == i,
                forall|t: int| 0 <= t < i ==> (#[trigger] w@[t]@) == 0,
            decreases wlen - i,
        {
            w.push(FieldElement::zero());
            i += 1;
        }
        let mut t: usize = 0;
        while t < witness.len()
            invariant
                t <= witness@.len(),
                sizing_ok(*circuit),
                maxu as int == max_witness(*circuit),
                maxw as int == maxu as int,
                maxu < u32::MAX,
                w@.len() == maxu + 1,
                forall|s: int|
                    0 <= s < t ==> (#[trigger] witness@[s].0 as int) <= max_witness(*circuit),
                forall|idx: int|
                    0 <= idx <= maxu ==> (#[trigger] w@[idx]@) == assigned_val(
                        witness@.take(t as int),
                        idx,
                    ),
            decreases witness@.len() - t,
        {
            let (idx, v) = witness[t];
            if (idx as u64) > maxw {
                proof {
                    assert(witness@[t as int].0 as int > max_witness(*circuit));
                }
                return Err(Error::IndexOutOfBounds);
            }
            w[idx as usize] = v;
            proof {
                assert forall|idx2: int| 0 <= idx2 <= maxu implies (#[trigger] w@[idx2]@)
                    == assigned_val(witness@.take(t as int + 1), idx2) by {
                    assert(witness@.take(t as int + 1).drop_last() =~= witness@.take(t as int));
                    assert(witness@.take(t as int + 1).last() == witness@[t as int]);
                }
            }
            t += 1;
        }
        proof {
            assert(witness@.take(witness@.len() as int) =~= witness@);
        }
        w.push(FieldElement::one());
        let a = SparseMatrix::new(rows as usize, cols as usize);
        let b = SparseMatrix::new(rows as usize, cols as usize);
        let c = SparseMatrix::new(rows as usize, cols as usize);
        let sys = R1CS {
            a,
            b,
            c,
            interner: Interner::new(),
            witness: w,
            current_constraint: 0,
            current_witness_index: maxu + 2,
            original_witness: maxu,
        };
        proof {
            assert(sys.wf()) by {
                assert(forall|i2: int|
                    0 <= i2 < sys.a@.len() ==> (#[trigger] sys.a@[i2]).dom() =~= Set::empty());
                assert(forall|i2: int|
                    0 <= i2 < sys.b@.len() ==> (#[trigger] sys.b@[i2]).dom() =~= Set::empty());
                assert(forall|i2: int|
                    0 <= i2 < sys.c@.len() ==> (#[trigger] sys.c@[i2]).dom() =~= Set::empty());
            }
        }
        Ok(sys)
    }
}

/// The column total dominates the intermediate-slot total.
proof fn lemma_cols_ge_extra(c: Circuit, prefix_extra: int)
    requires
        prefix_extra <= extra_total(c),
    ensures
        cols_total(c) >= prefix_extra,
{
    lemma_rows_upto_monotone(c.opcodes@, 0, c.opcodes@.len() as int);
}

impl R1CS {
    /// Whether the system still has room for the rows, slots and interned
    /// values an expression needs.
    pub open spec fn capacity_ok(&self, e: Expression) -> bool {
        &&& self.filled() + expr_rows(e) <= self.a@.len()
        &&& self.next_witness() + expr_extra_cols(e) <= self.a.cols()
        &&& self.interner@.len() + 4 * e.mul_terms@.len() + e.linear_combinations@.len() + 3
            <= u32::MAX as int
    }

    /// Emit the single row of a simple expression:
    /// `A[row,a] = m`, `B[row,b] = 1`, `C[row,c] = -m_lc`, `C[row,one] = -q_c`.
    fn add_constraint_simple(&mut self, e: &Expression)
        requires
            old(self).wf(),
            !expr_complex(*e),
            e.mul_terms@.len() == 1,
            expr_bounded(*e, old(self).one_index()),
            old(self).capacity_ok(*e),
        ensures
            final(self).wf(),
            final(self).interner@.len() <= old(self).interner@.len() + 4
                * e.mul_terms@.len() + e.linear_combinations@.len() + 3,
            final(self).filled() == old(self).filled() + 1,
            final(self).next_witness() == old(self).next_witness(),
            final(self).one_index() == old(self).one_index(),
            final(self).a@.len() == old(self).a@.len(),
            final(self).a.cols() == old(self).a.cols(),
            final(self).witness@ == old(self).witness@,
            forall|i: int|
                0 <= i < old(self).filled() && old(self).constraint_holds(i)
                    ==> #[trigger] final(self).constraint_holds(i),
            expr_eval(*e, vals(final(self).witness@)) == 0 ==> final(self).constraint_holds(old(self).filled()),
            final(self).a_row(old(self).filled()) =~= Map::<int, int>::empty().insert(
                e.mul_terms@[0].1 as int,
                e.mul_terms@[0].0@,
            ),
            final(self).b_row(old(self).filled()) =~= Map::<int, int>::empty().insert(
                e.mul_terms@[0].2 as int,
                1int,
            ),
            final(self).c_row(old(self).filled()) =~= (
            if e.linear_combinations@.len() == 1 {
                Map::<int, int>::empty().insert(
                    e.linear_combinations@[0].1 as int,
                    fneg(e.linear_combinations@[0].0@),
                ).insert(old(self).one_index(), fneg(e.q_c@))
            } else {
                Map::<int, int>::empty().insert(old(self).one_index(), fneg(e.q_c@))
            }),
    {
        let ghost s0 = *self;
        let ghost xs = vals(self.witness@);
        let ghost cols = self.a.cols() as int;
        let _nrows = self.a.rows();
        let row = self.current_constraint;
        let one_col = self.original_witness + 1;
        let (m, ia, ib) = e.mul_terms[0];
        set_entry(&mut self.a, &mut self.interner, row, ia as usize, m);
        let ghost s1 = *self;
        set_entry(&mut self.b, &mut self.interner, row, ib as usize, FieldElement::one());
        let ghost s2 = *self;
        let has_lin = e.linear_combinations.len() == 1;
        if has_lin {
            let (mlc, ic) = e.linear_combinations[0];
            set_entry(&mut self.c, &mut self.interner, row, ic as usize, mlc.neg());
        }
        let ghost s3 = *self;
        set_entry(&mut self.c, &mut self.interner, row, one_col, e.q_c.neg());
        self.current_constraint = row + 1;
        proof {
            let ri = row as int;
            // Hydrated rows of untouched matrices are stable under interner
            // growth.
            lemma_hyd_stable(s1.a, s1.interner, self.interner);
            lemma_hyd_stable(s0.b, s0.interner, s1.interner);
            lemma_hyd_stable(s2.b, s2.interner, self.interner);
            lemma_hyd_stable(s0.c, s0.interner, s2.interner);
            if has_lin {
                lemma_hyd_stable(s3.c, s3.interner, self.interner);
            }
            assert(self.a == s1.a && self.b == s2.b);
            assert(s1.b == s0.b && s2.a == s1.a && s3.a == s1.a && s3.b == s2.b);
            assert(s2.c == s0.c);
            lemma_compat_extend(self.a, s1.interner, self.interner);
            lemma_compat_extend(self.b, s2.interner, self.interner);
            // The emitted row maps.
            let ma = e.mul_terms@[0].0@;
            let wa = xs[ia as int];
            let wb = xs[ib as int];
            assert(s0.a@[ri].dom() =~= Set::empty());
            assert(s0.a_row(ri) =~= Map::<int, int>::empty());
            assert(self.a_row(ri) =~= Map::<int, int>::empty().insert(ia as int, ma));
            assert(s0.b@[ri].dom() =~= Set::empty());
            assert(s0.b_row(ri) =~= Map::<int, int>::empty());
            assert(self.b_row(ri) =~= Map::<int, int>::empty().insert(ib as int, 1int));
            assert(s0.c@[ri].dom() =~= Set::empty());
            assert(s0.c_row(ri) =~= Map::<int, int>::empty());
            if has_lin {
                let lv = fneg(e.linear_combinations@[0].0@);
                let ic = e.linear_combinations@[0].1 as int;
                assert(self.c_row(ri) =~= Map::<int, int>::empty().insert(ic, lv).insert(
                    one_col as int,
                    fneg(e.q_c@),
                ));
            } else {
                assert(self.c_row(ri) =~= Map::<int, int>::empty().insert(
                    one_col as int,
                    fneg(e.q_c@),
                ));
            }
            // Untouched rows keep their maps in all three matrices.
            assert forall|i: int| 0 <= i < self.a@.len() && i != ri implies self.a_row(i)
                =~= s0.a_row(i) && self.b_row(i) =~= s0.b_row(i) && self.c_row(i) =~= s0.c_row(
                i,
            ) by {
                assert(hyd_row_of(s1.a, s1.interner, i) =~= hyd_row_of(s0.a, s0.interner, i));
                assert(self.a_row(i) =~= hyd_row_of(s1.a, s1.interner, i));
                assert(hyd_row_of(s1.b, s1.interner, i) =~= hyd_row_of(s0.b, s0.interner, i));
                assert(hyd_row_of(s2.b, s2.interner, i) =~= hyd_row_of(s1.b, s1.interner, i));
                assert(self.b_row(i) =~= hyd_row_of(s2.b, s2.interner, i));
                assert(hyd_row_of(s2.c, s2.interner, i) =~= hyd_row_of(s0.c, s0.interner, i));
                assert(hyd_row_of(s3.c, s3.interner, i) =~= hyd_row_of(s2.c, s2.interner, i));
                assert(self.c_row(i) =~= hyd_row_of(s3.c, s3.interner, i));
            }
            // Row domains, for the well-formedness bookkeeping.
            assert(self.a@[ri].dom() =~= s0.a@[ri].dom().insert(ia as int));
            assert(self.b@[ri].dom() =~= s0.b@[ri].dom().insert(ib as int));
            assert forall|i: int| 0 <= i < self.a@.len() && i != ri implies (
            #[trigger] self.a@[i]).dom() =~= s0.a@[i].dom() && self.b@[i].dom()
                =~= s0.b@[i].dom() && self.c@[i].dom() =~= s0.c@[i].dom() by {
                assert(s2.b@[i].dom() =~= s1.b@[i].dom());
                assert(s3.c@[i].dom() =~= s2.c@[i].dom());
                assert(self.c@[i].dom() =~= s3.c@[i].dom());
            }
            // Well-formedness of the result.
            let new_ab = seq![ia as int, ib as int];
            let new_c = if has_lin {
                seq![e.linear_combinations@[0].1 as int, one_col as int]
            } else {
                seq![one_col as int]
            };
            assert forall|cc: int| (#[trigger] self.a@[ri].dom().contains(cc)) implies
                new_ab.contains(cc) by {
                assert(s0.a@[ri].dom() =~= Set::empty());
                assert(cc == ia as int);
                assert(new_ab[0] == ia as int);
            }
            assert forall|cc: int| (#[trigger] self.b@[ri].dom().contains(cc)) implies
                new_ab.contains(cc) by {
                assert(s0.b@[ri].dom() =~= Set::empty());
                assert(cc == ib as int);
                assert(new_ab[1] == ib as int);
            }
            assert forall|cc: int| (#[trigger] self.c@[ri].dom().contains(cc)) implies
                new_c.contains(cc) by {
                assert(s0.c@[ri].dom() =~= Set::empty());
                if has_lin {
                    assert(cc == e.linear_combinations@[0].1 as int || cc == one_col as int);
                    assert(new_c[0] == e.linear_combinations@[0].1 as int && new_c[1]
                        == one_col as int);
                } else {
                    assert(cc == one_col as int);
                    assert(new_c[0] == one_col as int);
                }
            }
            assert forall|k: int| 0 <= k < new_ab.len() implies 0 <= #[trigger] new_ab[k]
                < self.next_witness() by {
                assert((e.mul_terms@[0].1 as int) < s0.one_index());
                assert((e.mul_terms@[0].2 as int) < s0.one_index());
            }
            assert forall|k: int| 0 <= k < new_c.len() implies 0 <= #[trigger] new_c[k]
                < self.next_witness() by {
                if has_lin {
                    assert((e.linear_combinations@[0].1 as int) < s0.one_index());
                }
            }
            lemma_wf_after_row(s0, *self, ri, new_ab, new_c);
            assert(self.wf());
            // Old rows keep their dot products: their entries sit below the
            // unchanged witness length.
            assert forall|i: int|
                0 <= i < s0.filled() && s0.constraint_holds(i) implies
                #[trigger] self.constraint_holds(i) by {}
            // The new row's dot products.
            let da = row_dot(self.a_row(ri), xs, cols);
            let db = row_dot(self.b_row(ri), xs, cols);
            let dc = row_dot(self.c_row(ri), xs, cols);
            crate::sparse_matrix::lemma_row_dot_empty(xs, cols);
            crate::sparse_matrix::lemma_row_dot_insert(
                Map::<int, int>::empty(),
                xs,
                cols,
                ia as int,
                ma,
            );
            crate::sparse_matrix::lemma_row_dot_insert(
                Map::<int, int>::empty(),
                xs,
                cols,
                ib as int,
                1int,
            );
            crate::field::lemma_field_closed(ma, wa);
            crate::field::lemma_fadd_zero(fmul(ma, wa));
            assert(da == fmul(ma, wa));
            crate::field::lemma_in_field(self.witness@[ib as int]);
            crate::field::lemma_fmul_one(wb);
            crate::field::lemma_fadd_zero(wb);
            assert(db == wb);
            if expr_eval(*e, vals(self.witness@)) == 0 {
                let x = fmul(fmul(ma, wa), wb);
                assert(mul_terms_eval(e.mul_terms@, xs, 0) == 0);
                assert(mul_terms_eval(e.mul_terms@, xs, 1) == fadd(0, x));
                crate::field::lemma_field_closed(fmul(ma, wa), wb);
                crate::field::lemma_fadd_zero(x);
                let le = linear_eval(
                    e.linear_combinations@,
                    xs,
                    e.linear_combinations@.len() as int,
                );
                if has_lin {
                    let lc = e.linear_combinations@[0].0@;
                    let ic = e.linear_combinations@[0].1 as int;
                    assert(linear_eval(e.linear_combinations@, xs, 0) == 0);
                    assert(le == fadd(0, fmul(lc, xs[ic])));
                    lemma_pin_product(x, fmul(lc, xs[ic]), e.q_c@);
                    lemma_c_row_two(lc, ic, e.q_c@, one_col as int, xs, cols);
                    assert(dc == fneg(fadd(fmul(lc, xs[ic]), e.q_c@)));
                } else {
                    assert(le == 0);
                    lemma_pin_product_const(x, e.q_c@);
                    lemma_c_row_one(e.q_c@, one_col as int, xs, cols);
                    assert(dc == fneg(e.q_c@));
                }
                assert(fmul(da, db) == x);
                assert(fmul(da, db) == dc);
            }
        }
    }
}

/// The value of a two-entry `C` row `{ic: -lc, one: -q}` under a witness
/// with `w[one] == 1`: the negation of `lc * w[ic] + q`.
proof fn lemma_c_row_two(lc: int, ic: int, qv: int, one_col: int, xs: Seq<int>, cols: int)
    requires
        0 <= ic < cols,
        0 <= one_col < cols,
        ic != one_col,
        xs[one_col] == 1,
    ensures
        row_dot(
            Map::<int, int>::empty().insert(ic, fneg(lc)).insert(one_col, fneg(qv)),
            xs,
            cols,
        ) == fneg(fadd(fmul(lc, xs[ic]), qv)),
{
    let base = Map::<int, int>::empty().insert(ic, fneg(lc));
    crate::sparse_matrix::lemma_row_dot_empty(xs, cols);
    crate::sparse_matrix::lemma_row_dot_insert(Map::<int, int>::empty(), xs, cols, ic, fneg(lc));
    crate::sparse_matrix::lemma_row_dot_insert(base, xs, cols, one_col, fneg(qv));
    crate::field::lemma_field_closed(fneg(lc), xs[ic]);
    crate::field::lemma_fadd_zero(fmul(fneg(lc), xs[ic]));
    crate::field::lemma_field_closed(qv, 0);
    crate::field::lemma_fmul_one(fneg(qv));
    crate::field::lemma_fneg_mul(lc, xs[ic]);
    crate::field::lemma_fneg_add(fmul(lc, xs[ic]), qv);
}

/// The value of a one-entry `C` row `{one: -q}` under a witness with
/// `w[one] == 1`: the negation of `q`.
proof fn lemma_c_row_one(qv: int, one_col: int, xs: Seq<int>, cols: int)
    requires
        0 <= one_col < cols,
        xs[one_col] == 1,
    ensures
        row_dot(Map::<int, int>::empty().insert(one_col, fneg(qv)), xs, cols) == fneg(qv),
{
    crate::sparse_matrix::lemma_row_dot_empty(xs, cols);
    crate::sparse_matrix::lemma_row_dot_insert(
        Map::<int, int>::empty(),
        xs,
        cols,
        one_col,
        fneg(qv),
    );
    crate::field::lemma_field_closed(qv, 0);
    crate::field::lemma_fmul_one(fneg(qv));
    crate::field::lemma_fadd_zero(fneg(qv));
}

/// If `x + ((0 + t) + q) == 0` in the field then `x == -(t + q)`.
proof fn lemma_pin_product(x: int, t: int, qv: int)
    requires
        in_field(x),
        fadd(fadd(x, fadd(0, t)), qv) == 0,
    ensures
        x == fneg(fadd(t, qv)),
{
    crate::field::lemma_fadd_mod(t, qv);
    crate::field::lemma_fadd_assoc(x, fadd(0, t), qv);
    assert(fadd(fadd(0, t), qv) == fadd(t, qv)) by {
        crate::field::lemma_fadd_mod(t, qv);
    }
    crate::field::lemma_cancel_to_neg(x, fadd(t, qv));
}

/// If `x + (0 + q) == 0` in the field then `x == -q`.
proof fn lemma_pin_product_const(x: int, qv: int)
    requires
        in_field(x),
        fadd(fadd(x, 0), qv) == 0,
    ensures
        x == fneg(qv),
{
    crate::field::lemma_fadd_zero(x);
    crate::field::lemma_cancel_to_neg(x, qv);
    assert(fadd(x, qv) == 0) by {
        crate::field::lemma_fadd_zero(x);
    }
}

/// After emitting entries into one fresh row, the bookkeeping predicates of
/// well-formedness still hold: later rows stay empty, and all columns stay
/// below the next witness slot.
proof fn lemma_wf_after_row(s0: R1CS, s1: R1CS, ri: int, new_ab: Seq<int>, new_c: Seq<int>)
    requires
        s0.wf(),
        s0.filled() <= ri < s0.a@.len(),
        s1.filled() == ri + 1,
        s1.next_witness() >= s0.next_witness(),
        s1.a@.len() == s0.a@.len(),
        forall|i: int|
            0 <= i < s0.a@.len() && i != ri ==> (#[trigger] s1.a@[i]).dom() =~= s0.a@[i].dom(),
        forall|i: int|
            0 <= i < s0.a@.len() && i != ri ==> (#[trigger] s1.b@[i]).dom() =~= s0.b@[i].dom(),
        forall|i: int|
            0 <= i < s0.a@.len() && i != ri ==> (#[trigger] s1.c@[i]).dom() =~= s0.c@[i].dom(),
        forall|c: int| (#[trigger] s1.a@[ri].dom().contains(c)) ==> new_ab.contains(c),
        forall|c: int| (#[trigger] s1.b@[ri].dom().contains(c)) ==> new_ab.contains(c),
        forall|c: int| (#[trigger] s1.c@[ri].dom().contains(c)) ==> new_c.contains(c),
        forall|k: int| 0 <= k < new_ab.len() ==> 0 <= #[trigger] new_ab[k] < s1.next_witness(),
        forall|k: int| 0 <= k < new_c.len() ==> 0 <= #[trigger] new_c[k] < s1.next_witness(),
    ensures
        s1.rows_empty_from(s1.filled()),
        s1.cols_bounded(),
{
    assert forall|i: int| s1.filled() <= i < s1.a@.len() implies (#[trigger] s1.a@[i]).dom()
        =~= Set::empty() && s1.b@[i].dom() =~= Set::empty() && s1.c@[i].dom() =~= Set::empty() by {
        assert(s0.a@[i].dom() =~= Set::empty());
        assert(s1.a@[i].dom() =~= s0.a@[i].dom());
        assert(s1.b@[i].dom() =~= s0.b@[i].dom());
        assert(s1.c@[i].dom() =~= s0.c@[i].dom());
    }
    assert forall|i: int, c: int|
        0 <= i < s1.filled() && (#[trigger] s1.a@[i].dom().contains(c)) implies 0 <= c
        < s1.next_witness() by {
        if i == ri {
            assert(new_ab.contains(c));
            let k = choose|k: int| 0 <= k < new_ab.len() && new_ab[k] == c;
            assert(0 <= new_ab[k] < s1.next_witness());
        } else {
            assert(s1.a@[i].dom() =~= s0.a@[i].dom());
            assert(s0.a@[i].dom().contains(c));
            if i >= s0.filled() {
                assert(s0.a@[i].dom() =~= Set::empty());
                assert(false);
            }
        }
    }
    assert forall|i: int, c: int|
        0 <= i < s1.filled() && (#[trigger] s1.b@[i].dom().contains(c)) implies 0 <= c
        < s1.next_witness() by {
        if i == ri {
            assert(new_ab.contains(c));
            let k = choose|k: int| 0 <= k < new_ab.len() && new_ab[k] == c;
            assert(0 <= new_ab[k] < s1.next_witness());
        } else {
            assert(s1.b@[i].dom() =~= s0.b@[i].dom());
            assert(s0.b@[i].dom().contains(c));
            if i >= s0.filled() {
                assert(s0.a@[i].dom() =~= Set::empty());
                assert(s0.b@[i].dom() =~= Set::empty());
                assert(false);
            }
        }
    }
    assert forall|i: int, c: int|
        0 <= i < s1.filled() && (#[trigger] s1.c@[i].dom().contains(c)) implies 0 <= c
        < s1.next_witness() by {
        if i == ri {
            assert(new_c.contains(c));
            let k = choose|k: int| 0 <= k < new_c.len() && new_c[k] == c;
            assert(0 <= new_c[k] < s1.next_witness());
        } else {
            assert(s1.c@[i].dom() =~= s0.c@[i].dom());
            assert(s0.c@[i].dom().contains(c));
            if i >= s0.filled() {
                assert(s0.a@[i].dom() =~= Set::empty());
                assert(s0.c@[i].dom() =~= Set::empty());
                assert(false);
            }
        }
    }
}

impl R1CS {
    /// Structural facts that the entry helpers preserve untouched.
    pub open spec fn same_skeleton(&self, other: &Self) -> bool {
        &&& self.a@.len() == other.a@.len() && self.b@.len() == other.b@.len()
            && self.c@.len() == other.c@.len()
        &&& self.a.cols() == other.a.cols() && self.b.cols() == other.b.cols()
            && self.c.cols() == other.c.cols()
        &&& self.witness@ == other.witness@
        &&& self.current_constraint == other.current_constraint
        &&& self.current_witness_index == other.current_witness_index
        &&& self.original_witness == other.original_witness
    }

    /// Matrix well-formedness and interner compatibility, without the
    /// row-content bookkeeping.
    pub open spec fn matrices_ok(&self) -> bool {
        &&& self.a.wf() && self.b.wf() && self.c.wf()
        &&& compat(self.a, self.interner) && compat(self.b, self.interner) && compat(
            self.c,
            self.interner,
        )
    }

    /// Row maps other than `(which, row)` are untouched, and the interner
    /// only grew.
    pub open spec fn rows_preserved_except(&self, other: &Self, which: int, row: int) -> bool {
        &&& forall|i: int|
            #![trigger self.a_row(i)]
            0 <= i < self.a@.len() && !(which == 0 && i == row) ==> self.a_row(i)
                =~= other.a_row(i) && self.a@[i].dom() =~= other.a@[i].dom()
        &&& forall|i: int|
            #![trigger self.b_row(i)]
            0 <= i < self.b@.len() && !(which == 1 && i == row) ==> self.b_row(i)
                =~= other.b_row(i) && self.b@[i].dom() =~= other.b@[i].dom()
        &&& forall|i: int|
            #![trigger self.c_row(i)]
            0 <= i < self.c@.len() && !(which == 2 && i == row) ==> self.c_row(i)
                =~= other.c_row(i) && self.c@[i].dom() =~= other.c@[i].dom()
        &&& other.interner@.len() <= self.interner@.len()
        &&& forall|k: int|
            0 <= k < other.interner@.len() ==> #[trigger] self.interner@[k]
                == other.interner@[k]
    }

    /// Set `A[row, col] = value`.
    fn set_a(&mut self, row: usize, col: usize, value: FieldElement)
        requires
            old(self).matrices_ok(),
            row < old(self).a@.len(),
            col < old(self).a.cols(),
            old(self).interner@.len() < u32::MAX,
        ensures
            final(self).matrices_ok(),
            final(self).same_skeleton(old(self)),
            final(self).rows_preserved_except(old(self), 0, row as int),
            final(self).a_row(row as int) =~= old(self).a_row(row as int).insert(
                col as int,
                value@,
            ),
            final(self).a@[row as int].dom() =~= old(self).a@[row as int].dom().insert(
                col as int,
            ),
            final(self).interner@.len() <= old(self).interner@.len() + 1,
    {
        let ghost s0 = *self;
        set_entry(&mut self.a, &mut self.interner, row, col, value);
        proof {
            lemma_hyd_stable(s0.b, s0.interner, self.interner);
            lemma_hyd_stable(s0.c, s0.interner, self.interner);
            lemma_compat_extend(self.b, s0.interner, self.interner);
            lemma_compat_extend(self.c, s0.interner, self.interner);
        }
    }

    /// Set `B[row, col] = value`.
    fn set_b(&mut self, row: usize, col: usize, value: FieldElement)
        requires
            old(self).matrices_ok(),
            row < old(self).b@.len(),
            col < old(self).b.cols(),
            old(self).interner@.len() < u32::MAX,
        ensures
            final(self).matrices_ok(),
            final(self).same_skeleton(old(self)),
            final(self).rows_preserved_except(old(self), 1, row as int),
            final(self).b_row(row as int) =~= old(self).b_row(row as int).insert(
                col as int,
                value@,
            ),
            final(self).b@[row as int].dom() =~= old(self).b@[row as int].dom().insert(
                col as int,
            ),
            final(self).interner@.len() <= old(self).interner@.len() + 1,
    {
        let ghost s0 = *self;
        set_entry(&mut self.b, &mut self.interner, row, col, value);
        proof {
            lemma_hyd_stable(s0.a, s0.interner, self.interner);
            lemma_hyd_stable(s0.c, s0.interner, self.interner);
            lemma_compat_extend(self.a, s0.interner, self.interner);
            lemma_compat_extend(self.c, s0.interner, self.interner);
        }
    }

    /// Set `C[row, col] = value`.
    fn set_c(&mut self, row: usize, col: usize, value: FieldElement)
        requires
            old(self).matrices_ok(),
            row < old(self).c@.len(),
            col < old(self).c.cols(),
            old(self).interner@.len() < u32::MAX,
        ensures
            final(self).matrices_ok(),
            final(self).same_skeleton(old(self)),
            final(self).rows_preserved_except(old(self), 2, row as int),
            final(self).c_row(row as int) =~= old(self).c_row(row as int).insert(
                col as int,
                value@,
            ),
            final(self).c@[row as int].dom() =~= old(self).c@[row as int].dom().insert(
                col as int,
            ),
            final(self).interner@.len() <= old(self).interner@.len() + 1,
    {
        let ghost s0 = *self;
        set_entry(&mut self.c, &mut self.interner, row, col, value);
        proof {
            lemma_hyd_stable(s0.a, s0.interner, self.interner);
            lemma_hyd_stable(s0.b, s0.interner, self.interner);
            lemma_compat_extend(self.a, s0.interner, self.interner);
            lemma_compat_extend(self.b, s0.interner, self.interner);
        }
    }

    /// Add `value` into `A[row, col]`, treating a missing entry as zero.
    fn add_a(&mut self, row: usize, col: usize, value: FieldElement)
        requires
            old(self).matrices_ok(),
            row < old(self).a@.len(),
            col < old(self).a.cols(),
            old(self).interner@.len() < u32::MAX,
        ensures
            final(self).matrices_ok(),
            final(self).same_skeleton(old(self)),
            final(self).rows_preserved_except(old(self), 0, row as int),
            final(self).a_row(row as int) =~= old(self).a_row(row as int).insert(
                col as int,
                fadd(entry0(old(self).a_row(row as int), col as int), value@),
            ),
            final(self).a@[row as int].dom() =~= old(self).a@[row as int].dom().insert(
                col as int,
            ),
            final(self).interner@.len() <= old(self).interner@.len() + 1,
    {
        let ghost s0 = *self;
        add_entry(&mut self.a, &mut self.interner, row, col, value);
        proof {
            lemma_hyd_stable(s0.b, s0.interner, self.interner);
            lemma_hyd_stable(s0.c, s0.interner, self.interner);
            lemma_compat_extend(self.b, s0.interner, self.interner);
            lemma_compat_extend(self.c, s0.interner, self.interner);
        }
    }
}

/// The sum of the intermediate-product slots `w[base..base+j]`, each taken
/// with coefficient one.
pub open spec fn slots_sum(xs: Seq<int>, base: int, j: int) -> int
    decreases j,
{
    if j <= 0 {
        0
    } else {
        fadd(slots_sum(xs, base, j - 1), fmul(1, xs[base + j - 1]))
    }
}

/// The map with a coefficient of one at each of `ml` product slots from
/// `base` on.
pub open spec fn slots_a_map(base: int, ml: int) -> Map<int, int>
    decreases ml,
{
    if ml <= 0 {
        Map::empty()
    } else {
        slots_a_map(base, ml - 1).insert(base + ml - 1, 1int)
    }
}

/// The combining row's `A` map: one at each product slot, then each of the
/// first `n` linear coefficients accumulated at its variable.
pub open spec fn combining_a_map(
    lin: Seq<(FieldElement, u32)>,
    n: int,
    base: int,
    ml: int,
) -> Map<int, int>
    decreases n,
{
    if n <= 0 {
        slots_a_map(base, ml)
    } else {
        let m0 = combining_a_map(lin, n - 1, base, ml);
        let c = lin[n - 1].1 as int;
        m0.insert(c, fadd(entry0(m0, c), lin[n - 1].0@))
    }
}

/// When every slot holds its multiplicative term's product, the slot sum is
/// the value of the multiplicative terms.
proof fn lemma_slots_sum_eq(
    ts: Seq<(FieldElement, u32, u32)>,
    xs: Seq<int>,
    base: int,
    j: int,
)
    requires
        0 <= j <= ts.len(),
        forall|t: int|
            0 <= t < j ==> #[trigger] xs[base + t] == fmul(
                fmul(ts[t].0@, xs[ts[t].1 as int]),
                xs[ts[t].2 as int],
            ),
    ensures
        slots_sum(xs, base, j) == mul_terms_eval(ts, xs, j),
    decreases j,
{
    if j > 0 {
        lemma_slots_sum_eq(ts, xs, base, j - 1);
        let v = xs[base + j - 1];
        assert(v == fmul(fmul(ts[j - 1].0@, xs[ts[j - 1].1 as int]), xs[ts[j - 1].2 as int]));
        crate::field::lemma_field_closed(fmul(ts[j - 1].0@, xs[ts[j - 1].1 as int]), xs[ts[j
            - 1].2 as int]);
        crate::field::lemma_fmul_one(v);
    }
}

impl R1CS {
    /// Emit the rows of a complex expression: one row per multiplicative
    /// term, whose product lands in a fresh witness slot, then one combining
    /// row tying the slots, the linear terms and the constant together.
    #[verifier::rlimit(100)]
    #[verifier::spinoff_prover]
    #[verifier::loop_isolation(false)]
    fn add_constraint_complex(&mut self, e: &Expression)
        requires
            old(self).wf(),
            expr_complex(*e),
            expr_bounded(*e, old(self).one_index()),
            old(self).capacity_ok(*e),
        ensures
            final(self).wf(),
            final(self).interner@.len() <= old(self).interner@.len() + 4
                * e.mul_terms@.len() + e.linear_combinations@.len() + 3,
            final(self).filled() == old(self).filled() + expr_rows(*e),
            final(self).next_witness() == old(self).next_witness() + expr_extra_cols(*e),
            final(self).one_index() == old(self).one_index(),
            final(self).a@.len() == old(self).a@.len(),
            final(self).a.cols() == old(self).a.cols(),
            final(self).witness@.len() == old(self).witness@.len() + expr_extra_cols(*e),
            forall|i: int|
                0 <= i < old(self).witness@.len() ==> final(self).witness@[i] == old(
                    self,
                ).witness@[i],
            forall|i: int|
                0 <= i < old(self).filled() && old(self).constraint_holds(i)
                    ==> #[trigger] final(self).constraint_holds(i),
            expr_eval(*e, vals(final(self).witness@)) == 0 ==> forall|i: int|
                old(self).filled() <= i < final(self).filled()
                    ==> #[trigger] final(self).constraint_holds(i),
            forall|t: int|
                0 <= t < e.mul_terms@.len() ==> #[trigger] final(self).a_row(old(self).filled()
                    + t) =~= Map::<int, int>::empty().insert(
                    e.mul_terms@[t].1 as int,
                    e.mul_terms@[t].0@,
                ),
            forall|t: int|
                0 <= t < e.mul_terms@.len() ==> #[trigger] final(self).b_row(old(self).filled()
                    + t) =~= Map::<int, int>::empty().insert(e.mul_terms@[t].2 as int, 1int),
            forall|t: int|
                0 <= t < e.mul_terms@.len() ==> #[trigger] final(self).c_row(old(self).filled()
                    + t) =~= Map::<int, int>::empty().insert(old(self).next_witness() + t, 1int),
            forall|t: int|
                0 <= t < e.mul_terms@.len() ==> (#[trigger] final(self).witness@[old(
                    self,
                ).next_witness() + t]@) == fmul(
                    fmul(
                        e.mul_terms@[t].0@,
                        final(self).witness@[e.mul_terms@[t].1 as int]@,
                    ),
                    final(self).witness@[e.mul_terms@[t].2 as int]@,
                ),
            final(self).a_row(old(self).filled() + e.mul_terms@.len()) =~= combining_a_map(
                e.linear_combinations@,
                e.linear_combinations@.len() as int,
                old(self).next_witness(),
                e.mul_terms@.len() as int,
            ),
            final(self).b_row(old(self).filled() + e.mul_terms@.len())
                =~= Map::<int, int>::empty().insert(old(self).one_index(), 1int),
            final(self).c_row(old(self).filled() + e.mul_terms@.len())
                =~= Map::<int, int>::empty().insert(old(self).one_index(), fneg(e.q_c@)),
            row_dot(
                final(self).a_row(old(self).filled() + e.mul_terms@.len()),
                vals(final(self).witness@),
                final(self).a.cols() as int,
            ) == fadd(
                slots_sum(
                    vals(final(self).witness@),
                    old(self).next_witness(),
                    e.mul_terms@.len() as int,
                ),
                linear_eval(
                    e.linear_combinations@,
                    vals(final(self).witness@),
                    e.linear_combinations@.len() as int,
                ),
            ),
    {
        let ghost s0 = *self;
        let nrows = self.a.rows();
        let cols = self.a.num_columns();
        let base_row = self.current_constraint;
        let base_slot = self.current_witness_index;
        let one_col = self.original_witness + 1;
        let ml = e.mul_terms.len();
        let ghost ts = e.mul_terms@;
        let mut k: usize = 0;
        while k < ml
            invariant
                k <= ml,
                ml == ts.len(),
                ts == e.mul_terms@,
                expr_bounded(*e, s0.one_index()),
                s0.wf(),
                s0.capacity_ok(*e),
                expr_complex(*e),
                self.matrices_ok(),
                self.a@.len() == s0.a@.len() && self.b@.len() == s0.b@.len() && self.c@.len()
                    == s0.c@.len(),
                self.a.cols() == s0.a.cols() && self.b.cols() == s0.b.cols() && self.c.cols()
                    == s0.c.cols(),
                nrows == s0.a@.len(),
                cols == s0.a.cols(),
                base_row == s0.current_constraint,
                base_slot == s0.current_witness_index,
                one_col == s0.original_witness + 1,
                self.current_constraint == s0.current_constraint,
                self.original_witness == s0.original_witness,
                self.current_witness_index == s0.current_witness_index + k,
                self.witness@.len() == s0.witness@.len() + k,
                forall|i: int|
                    0 <= i < s0.witness@.len() ==> #[trigger] self.witness@[i]
                        == s0.witness@[i],
                self.interner@.len() <= s0.interner@.len() + 3 * k,
                forall|i: int|
                    #![trigger self.a_row(i)]
                    0 <= i < self.a@.len() && !(base_row <= i < base_row + k)
                        ==> self.a_row(i) =~= s0.a_row(i) && self.a@[i].dom()
                        =~= s0.a@[i].dom(),
                forall|i: int|
                    #![trigger self.b_row(i)]
                    0 <= i < self.b@.len() && !(base_row <= i < base_row + k)
                        ==> self.b_row(i) =~= s0.b_row(i) && self.b@[i].dom()
                        =~= s0.b@[i].dom(),
                forall|i: int|
                    #![trigger self.c_row(i)]
                    0 <= i < self.c@.len() && !(base_row <= i < base_row + k)
                        ==> self.c_row(i) =~= s0.c_row(i) && self.c@[i].dom()
                        =~= s0.c@[i].dom(),
                forall|t: int|
                    0 <= t < k ==> #[trigger] self.a_row(base_row + t) =~= Map::<
                        int,
                        int,
                    >::empty().insert(ts[t].1 as int, ts[t].0@),
                forall|t: int|
                    0 <= t < k ==> #[trigger] self.b_row(base_row + t) =~= Map::<
                        int,
                        int,
                    >::empty().insert(ts[t].2 as int, 1int),
                forall|t: int|
                    0 <= t < k ==> #[trigger] self.c_row(base_row + t) =~= Map::<
                        int,
                        int,
                    >::empty().insert(base_slot + t, 1int),
                forall|t: int|
                    0 <= t < k ==> (#[trigger] self.witness@[base_slot + t]@) == fmul(
                        fmul(ts[t].0@, self.witness@[ts[t].1 as int]@),
                        self.witness@[ts[t].2 as int]@,
                    ),
            decreases ml - k,
        {
            let row = base_row + k;
            let slot = base_slot + k;
            let (m, ia, ib) = e.mul_terms[k];
            let wa = self.witness[ia as usize];
            let wb = self.witness[ib as usize];
            let prod = m.mul(wa).mul(wb);
            let ghost q = *self;
            proof {
                let ri = row as int;
                assert(self.a_row(ri) =~= s0.a_row(ri));
                assert(self.b_row(ri) =~= s0.b_row(ri));
                assert(self.c_row(ri) =~= s0.c_row(ri));
                assert(self.a@[ri].dom() =~= s0.a@[ri].dom());
                assert(self.b@[ri].dom() =~= s0.b@[ri].dom());
                assert(self.c@[ri].dom() =~= s0.c@[ri].dom());
                assert(s0.a@[ri].dom() =~= Set::empty());
                assert(s0.b@[ri].dom() =~= Set::empty());
                assert(s0.c@[ri].dom() =~= Set::empty());
                assert((ia as int) < s0.one_index());
                assert((ib as int) < s0.one_index());
            }
            self.emit_mul_row(row, slot, m, ia as usize, ib as usize);
            let ghost q1 = *self;
            self.witness.push(prod);
            self.current_witness_index = self.current_witness_index + 1;
            proof {
                let ri = row as int;
                assert(self.a == q1.a && self.b == q1.b && self.c == q1.c && self.interner
                    == q1.interner);
                assert(forall|i: int| 0 <= i < self.a@.len() ==> #[trigger] self.a_row(i)
                    =~= q1.a_row(i) && self.a@[i].dom() =~= q1.a@[i].dom());
                assert(forall|i: int| 0 <= i < self.b@.len() ==> #[trigger] self.b_row(i)
                    =~= q1.b_row(i) && self.b@[i].dom() =~= q1.b@[i].dom());
                assert(forall|i: int| 0 <= i < self.c@.len() ==> #[trigger] self.c_row(i)
                    =~= q1.c_row(i) && self.c@[i].dom() =~= q1.c@[i].dom());
                assert forall|i: int|
                    0 <= i < self.a@.len() && !(base_row <= i < base_row + (k + 1)) implies
                    #[trigger] self.a_row(i) =~= s0.a_row(i) && self.a@[i].dom()
                    =~= s0.a@[i].dom() by {
                    assert(q1.a_row(i) =~= q.a_row(i));
                    assert(q.a_row(i) =~= s0.a_row(i));
                }
                assert forall|i: int|
                    0 <= i < self.b@.len() && !(base_row <= i < base_row + (k + 1)) implies
                    #[trigger] self.b_row(i) =~= s0.b_row(i) && self.b@[i].dom()
                    =~= s0.b@[i].dom() by {
                    assert(q1.b_row(i) =~= q.b_row(i));
                    assert(q.b_row(i) =~= s0.b_row(i));
                }
                assert forall|i: int|
                    0 <= i < self.c@.len() && !(base_row <= i < base_row + (k + 1)) implies
                    #[trigger] self.c_row(i) =~= s0.c_row(i) && self.c@[i].dom()
                    =~= s0.c@[i].dom() by {
                    assert(q1.c_row(i) =~= q.c_row(i));
                    assert(q.c_row(i) =~= s0.c_row(i));
                }
                assert forall|t: int| 0 <= t < k + 1 implies #[trigger] self.a_row(base_row + t)
                    =~= Map::<int, int>::empty().insert(ts[t].1 as int, ts[t].0@) by {
                    if t < k {
                        assert(q1.a_row(base_row + t) =~= q.a_row(base_row + t));
                    } else {
                        assert(q1.a_row(ri) =~= Map::<int, int>::empty().insert(
                            ts[k as int].1 as int,
                            ts[k as int].0@,
                        ));
                    }
                }
                assert forall|t: int| 0 <= t < k + 1 implies #[trigger] self.b_row(base_row + t)
                    =~= Map::<int, int>::empty().insert(ts[t].2 as int, 1int) by {
                    if t < k {
                        assert(q1.b_row(base_row + t) =~= q.b_row(base_row + t));
                    } else {
                        assert(q1.b_row(ri) =~= Map::<int, int>::empty().insert(
                            ts[k as int].2 as int,
                            1int,
                        ));
                    }
                }
                assert forall|t: int| 0 <= t < k + 1 implies #[trigger] self.c_row(base_row + t)
                    =~= Map::<int, int>::empty().insert(base_slot + t, 1int) by {
                    if t < k {
                        assert(q1.c_row(base_row + t) =~= q.c_row(base_row + t));
                    } else {
                        assert(q1.c_row(ri) =~= Map::<int, int>::empty().insert(
                            base_slot + k as int,
                            1int,
                        ));
                    }
                }
                assert(self.witness@[base_slot + k as int]@ == fmul(
                    fmul(ts[k as int].0@, self.witness@[ts[k as int].1 as int]@),
                    self.witness@[ts[k as int].2 as int]@,
                ));
            }
            k += 1;
        }
        // Combining row: the slot sums, the linear terms, the constant.
        let ghost s1 = *self;
        let ghost xs = vals(self.witness@);
        let row_f = base_row + ml;
        let ghost rf = row_f as int;
        let ghost colsi = self.a.cols() as int;
        proof {
            assert(s0.filled() + expr_rows(*e) <= s0.a@.len());
            assert(rf < self.a@.len());
            assert(s1.a_row(rf) =~= s0.a_row(rf));
            assert(s1.a@[rf].dom() =~= s0.a@[rf].dom());
            assert(s0.a@[rf].dom() =~= Set::empty());
            assert(s1.a@[rf].dom() =~= Set::empty());
            assert(self.a_row(rf) =~= Map::<int, int>::empty());
            crate::sparse_matrix::lemma_row_dot_empty(xs, colsi);
            assert(row_dot(self.a_row(rf), xs, colsi) == 0) by {
                crate::sparse_matrix::lemma_row_dot_agree(
                    self.a_row(rf),
                    Map::<int, int>::empty(),
                    xs,
                    colsi,
                );
            }
            assert forall|i: int|
                0 <= i < self.a@.len() && !(base_row <= i <= rf) implies #[trigger] self.a_row(
                i,
            ) =~= s0.a_row(i) by {
                assert(!(base_row <= i < base_row + ml));
            }
            assert forall|i: int|
                0 <= i < self.a@.len() && !(base_row <= i <= rf) implies (
            #[trigger] self.a@[i]).dom() =~= s0.a@[i].dom() by {
                assert(!(base_row <= i < base_row + ml));
                assert(self.a_row(i) =~= s0.a_row(i));
            }
        }
        let mut j: usize = 0;
        while j < ml
            invariant
                j <= ml,
                ml == ts.len(),
                ts == e.mul_terms@,
                s0.wf(),
                s0.capacity_ok(*e),
                expr_complex(*e),
                expr_bounded(*e, s0.one_index()),
                self.matrices_ok(),
                self.a@.len() == s0.a@.len() && self.b@.len() == s0.b@.len() && self.c@.len()
                    == s0.c@.len(),
                self.a.cols() == s0.a.cols() && self.b.cols() == s0.b.cols() && self.c.cols()
                    == s0.c.cols(),
                colsi == self.a.cols() as int,
                base_row == s0.current_constraint,
                base_slot == s0.current_witness_index,
                one_col == s0.original_witness + 1,
                rf == row_f as int,
                row_f == base_row + ml,
                rf < self.a@.len(),
                base_slot + ml <= self.a.cols(),
                self.current_constraint == s0.current_constraint,
                self.original_witness == s0.original_witness,
                self.current_witness_index == s0.current_witness_index + ml,
                self.witness@.len() == s0.witness@.len() + ml,
                forall|i: int|
                    0 <= i < s0.witness@.len() ==> #[trigger] self.witness@[i]
                        == s0.witness@[i],
                xs == vals(self.witness@),
                self.interner@.len() <= s0.interner@.len() + 3 * ml + j,
                forall|i: int|
                    #![trigger self.a_row(i)]
                    0 <= i < self.a@.len() && !(base_row <= i <= rf) ==> self.a_row(i)
                        =~= s0.a_row(i) && self.a@[i].dom() =~= s0.a@[i].dom(),
                forall|i: int|
                    #![trigger self.b_row(i)]
                    0 <= i < self.b@.len() && !(base_row <= i < rf) ==> self.b_row(i)
                        =~= s0.b_row(i) && self.b@[i].dom() =~= s0.b@[i].dom(),
                forall|i: int|
                    #![trigger self.c_row(i)]
                    0 <= i < self.c@.len() && !(base_row <= i < rf) ==> self.c_row(i)
                        =~= s0.c_row(i) && self.c@[i].dom() =~= s0.c@[i].dom(),
                forall|t: int|
                    0 <= t < ml ==> #[trigger] self.a_row(base_row + t) =~= Map::<
                        int,
                        int,
                    >::empty().insert(ts[t].1 as int, ts[t].0@),
                forall|t: int|
                    0 <= t < ml ==> #[trigger] self.b_row(base_row + t) =~= Map::<
                        int,
                        int,
                    >::empty().insert(ts[t].2 as int, 1int),
                forall|t: int|
                    0 <= t < ml ==> #[trigger] self.c_row(base_row + t) =~= Map::<
                        int,
                        int,
                    >::empty().insert(base_slot + t, 1int),
                forall|t: int|
                    0 <= t < ml ==> (#[trigger] self.witness@[base_slot + t]@) == fmul(
                        fmul(ts[t].0@, self.witness@[ts[t].1 as int]@),
                        self.witness@[ts[t].2 as int]@,
                    ),
                forall|c: int|
                    (#[trigger] self.a@[rf].dom().contains(c)) ==> base_slot <= c < base_slot
                        + j,
                self.a_row(rf) =~= slots_a_map(base_slot as int, j as int),
                row_dot(self.a_row(rf), xs, colsi) == slots_sum(xs, base_slot as int, j as int),
            decreases ml - j,
        {
            let ghost q0 = *self;
            proof {
                assert(self.interner@.len() < u32::MAX);
            }
            self.set_a(row_f, base_slot + j, FieldElement::one());
            proof {
                assert(!q0.a@[rf].dom().contains(base_slot + j as int));
                assert(!q0.a_row(rf).dom().contains(base_slot + j as int));
                crate::sparse_matrix::lemma_row_dot_insert(
                    q0.a_row(rf),
                    xs,
                    colsi,
                    base_slot + j as int,
                    1int,
                );
            }
            j += 1;
        }
        let ll = e.linear_combinations.len();
        let ghost ls = e.linear_combinations@;
        let mut j2: usize = 0;
        while j2 < ll
            invariant
                j2 <= ll,
                ll == ls.len(),
                ls == e.linear_combinations@,
                ml == ts.len(),
                ts == e.mul_terms@,
                s0.wf(),
                s0.capacity_ok(*e),
                expr_complex(*e),
                expr_bounded(*e, s0.one_index()),
                self.matrices_ok(),
                self.a@.len() == s0.a@.len() && self.b@.len() == s0.b@.len() && self.c@.len()
                    == s0.c@.len(),
                self.a.cols() == s0.a.cols() && self.b.cols() == s0.b.cols() && self.c.cols()
                    == s0.c.cols(),
                colsi == self.a.cols() as int,
                base_row == s0.current_constraint,
                base_slot == s0.current_witness_index,
                one_col == s0.original_witness + 1,
                rf == row_f as int,
                row_f == base_row + ml,
                rf < self.a@.len(),
                base_slot + ml <= self.a.cols(),
                self.current_constraint == s0.current_constraint,
                self.original_witness == s0.original_witness,
                self.current_witness_index == s0.current_witness_index + ml,
                self.witness@.len() == s0.witness@.len() + ml,
                forall|i: int|
                    0 <= i < s0.witness@.len() ==> #[trigger] self.witness@[i]
                        == s0.witness@[i],
                xs == vals(self.witness@),
                self.interner@.len() <= s0.interner@.len() + 4 * ml + j2,
                forall|i: int|
                    #![trigger self.a_row(i)]
                    0 <= i < self.a@.len() && !(base_row <= i <= rf) ==> self.a_row(i)
                        =~= s0.a_row(i) && self.a@[i].dom() =~= s0.a@[i].dom(),
                forall|i: int|
                    #![trigger self.b_row(i)]
                    0 <= i < self.b@.len() && !(base_row <= i < rf) ==> self.b_row(i)
                        =~= s0.b_row(i) && self.b@[i].dom() =~= s0.b@[i].dom(),
                forall|i: int|
                    #![trigger self.c_row(i)]
                    0 <= i < self.c@.len() && !(base_row <= i < rf) ==> self.c_row(i)
                        =~= s0.c_row(i) && self.c@[i].dom() =~= s0.c@[i].dom(),
                forall|t: int|
                    0 <= t < ml ==> #[trigger] self.a_row(base_row + t) =~= Map::<
                        int,
                        int,
                    >::empty().insert(ts[t].1 as int, ts[t].0@),
                forall|t: int|
                    0 <= t < ml ==> #[trigger] self.b_row(base_row + t) =~= Map::<
                        int,
                        int,
                    >::empty().insert(ts[t].2 as int, 1int),
                forall|t: int|
                    0 <= t < ml ==> #[trigger] self.c_row(base_row + t) =~= Map::<
                        int,
                        int,
                    >::empty().insert(base_slot + t, 1int),
                forall|t: int|
                    0 <= t < ml ==> (#[trigger] self.witness@[base_slot + t]@) == fmul(
                        fmul(ts[t].0@, self.witness@[ts[t].1 as int]@),
                        self.witness@[ts[t].2 as int]@,
                    ),
                forall|c: int|
                    (#[trigger] self.a@[rf].dom().contains(c)) ==> 0 <= c < base_slot + ml,
                self.a_row(rf) =~= combining_a_map(ls, j2 as int, base_slot as int, ml as int),
                row_dot(self.a_row(rf), xs, colsi) == fadd(
                    slots_sum(xs, base_slot as int, ml as int),
                    linear_eval(ls, xs, j2 as int),
                ),
            decreases ll - j2,
        {
            let (mlc, ic) = e.linear_combinations[j2];
            let ghost q0 = *self;
            proof {
                crate::sparse_matrix::lemma_row_dot_in_field(q0.a_row(rf), xs, colsi);
                assert((e.linear_combinations@[j2 as int].1 as int) < s0.one_index());
                assert((ic as int) < one_col as int);
                assert((ic as usize) < self.a.cols());
                assert(self.interner@.len() < u32::MAX);
            }
            self.add_a(row_f, ic as usize, mlc);
            proof {
                crate::sparse_matrix::lemma_row_dot_accumulate(
                    q0.a_row(rf),
                    xs,
                    colsi,
                    ic as int,
                    mlc@,
                );
                let sm = slots_sum(xs, base_slot as int, ml as int);
                let le_old = linear_eval(ls, xs, j2 as int);
                crate::field::lemma_fadd_assoc(sm, le_old, fmul(mlc@, xs[ic as int]));
                assert(row_dot(self.a_row(rf), xs, colsi) == fadd(
                    sm,
                    fadd(le_old, fmul(mlc@, xs[ic as int])),
                ));
                assert(linear_eval(ls, xs, j2 as int + 1) == fadd(
                    le_old,
                    fmul(ls[j2 as int].0@, xs[ls[j2 as int].1 as int]),
                ));
            }
            j2 += 1;
        }
        self.finish_complex(
            e,
            Ghost(s0),
            Ghost(xs),
            base_row,
            base_slot,
            one_col,
            row_f,
        );
    }
}

impl R1CS {
    /// Close out a complex expression: write the combining row's `B` and `C`
    /// entries and advance the constraint counter, given that the slot rows
    /// and the combining row's `A` entries are already in place.
    #[verifier::rlimit(100)]
    #[verifier::spinoff_prover]
    fn finish_complex(
        &mut self,
        e: &Expression,
        Ghost(s0): Ghost<R1CS>,
        Ghost(xs): Ghost<Seq<int>>,
        base_row: usize,
        base_slot: usize,
        one_col: usize,
        row_f: usize,
    )
        requires
            s0.wf(),
            s0.capacity_ok(*e),
            expr_complex(*e),
            expr_bounded(*e, s0.one_index()),
            old(self).matrices_ok(),
            old(self).a@.len() == s0.a@.len() && old(self).b@.len() == s0.b@.len() && old(
                self,
            ).c@.len() == s0.c@.len(),
            old(self).a.cols() == s0.a.cols() && old(self).b.cols() == s0.b.cols() && old(
                self,
            ).c.cols() == s0.c.cols(),
            base_row == s0.current_constraint,
            base_slot == s0.current_witness_index,
            one_col == s0.original_witness + 1,
            row_f == base_row + e.mul_terms@.len(),
            (row_f as int) < old(self).a@.len(),
            base_slot + e.mul_terms@.len() <= old(self).a.cols(),
            old(self).current_constraint == s0.current_constraint,
            old(self).original_witness == s0.original_witness,
            old(self).current_witness_index == s0.current_witness_index
                + e.mul_terms@.len(),
            old(self).witness@.len() == s0.witness@.len() + e.mul_terms@.len(),
            forall|i: int|
                0 <= i < s0.witness@.len() ==> #[trigger] old(self).witness@[i]
                    == s0.witness@[i],
            xs == vals(old(self).witness@),
            old(self).interner@.len() <= s0.interner@.len() + 4 * e.mul_terms@.len()
                + e.linear_combinations@.len(),
            forall|i: int|
                #![trigger old(self).a_row(i)]
                0 <= i < old(self).a@.len() && !(base_row <= i <= row_f as int)
                    ==> old(self).a_row(i) =~= s0.a_row(i) && old(self).a@[i].dom()
                    =~= s0.a@[i].dom(),
            forall|i: int|
                #![trigger old(self).b_row(i)]
                0 <= i < old(self).b@.len() && !(base_row <= i < row_f as int)
                    ==> old(self).b_row(i) =~= s0.b_row(i) && old(self).b@[i].dom()
                    =~= s0.b@[i].dom(),
            forall|i: int|
                #![trigger old(self).c_row(i)]
                0 <= i < old(self).c@.len() && !(base_row <= i < row_f as int)
                    ==> old(self).c_row(i) =~= s0.c_row(i) && old(self).c@[i].dom()
                    =~= s0.c@[i].dom(),
            forall|t: int|
                0 <= t < e.mul_terms@.len() ==> #[trigger] old(self).a_row(base_row + t)
                    =~= Map::<int, int>::empty().insert(
                    e.mul_terms@[t].1 as int,
                    e.mul_terms@[t].0@,
                ),
            forall|t: int|
                0 <= t < e.mul_terms@.len() ==> #[trigger] old(self).b_row(base_row + t)
                    =~= Map::<int, int>::empty().insert(e.mul_terms@[t].2 as int, 1int),
            forall|t: int|
                0 <= t < e.mul_terms@.len() ==> #[trigger] old(self).c_row(base_row + t)
                    =~= Map::<int, int>::empty().insert(base_slot + t, 1int),
            forall|t: int|
                0 <= t < e.mul_terms@.len() ==> (#[trigger] old(self).witness@[base_slot
                    + t]@) == fmul(
                    fmul(
                        e.mul_terms@[t].0@,
                        old(self).witness@[e.mul_terms@[t].1 as int]@,
                    ),
                    old(self).witness@[e.mul_terms@[t].2 as int]@,
                ),
            forall|c: int|
                (#[trigger] old(self).a@[row_f as int].dom().contains(c)) ==> 0 <= c
                    < base_slot + e.mul_terms@.len(),
            old(self).a_row(row_f as int) =~= combining_a_map(
                e.linear_combinations@,
                e.linear_combinations@.len() as int,
                base_slot as int,
                e.mul_terms@.len() as int,
            ),
            row_dot(old(self).a_row(row_f as int), xs, old(self).a.cols() as int) == fadd(
                slots_sum(xs, base_slot as int, e.mul_terms@.len() as int),
                linear_eval(
                    e.linear_combinations@,
                    xs,
                    e.linear_combinations@.len() as int,
                ),
            ),
        ensures
            final(self).wf(),
            final(self).interner@.len() <= s0.interner@.len() + 4 * e.mul_terms@.len()
                + e.linear_combinations@.len() + 3,
            final(self).filled() == s0.filled() + expr_rows(*e),
            final(self).next_witness() == s0.next_witness() + expr_extra_cols(*e),
            final(self).one_index() == s0.one_index(),
            final(self).a@.len() == s0.a@.len(),
            final(self).a.cols() == s0.a.cols(),
            final(self).witness@.len() == s0.witness@.len() + expr_extra_cols(*e),
            forall|i: int|
                0 <= i < s0.witness@.len() ==> #[trigger] final(self).witness@[i]
                    == s0.witness@[i],
            forall|i: int|
                0 <= i < s0.filled() && s0.constraint_holds(i)
                    ==> #[trigger] final(self).constraint_holds(i),
            expr_eval(*e, vals(final(self).witness@)) == 0 ==> forall|i: int|
                s0.filled() <= i < final(self).filled()
                    ==> #[trigger] final(self).constraint_holds(i),
            forall|t: int|
                0 <= t < e.mul_terms@.len() ==> #[trigger] final(self).a_row(s0.filled() + t)
                    =~= Map::<int, int>::empty().insert(
                    e.mul_terms@[t].1 as int,
                    e.mul_terms@[t].0@,
                ),
            forall|t: int|
                0 <= t < e.mul_terms@.len() ==> #[trigger] final(self).b_row(s0.filled() + t)
                    =~= Map::<int, int>::empty().insert(e.mul_terms@[t].2 as int, 1int),
            forall|t: int|
                0 <= t < e.mul_terms@.len() ==> #[trigger] final(self).c_row(s0.filled() + t)
                    =~= Map::<int, int>::empty().insert(s0.next_witness() + t, 1int),
            forall|t: int|
                0 <= t < e.mul_terms@.len() ==> (#[trigger] final(self).witness@[s0.next_witness()
                    + t]@) == fmul(
                    fmul(
                        e.mul_terms@[t].0@,
                        final(self).witness@[e.mul_terms@[t].1 as int]@,
                    ),
                    final(self).witness@[e.mul_terms@[t].2 as int]@,
                ),
            final(self).a_row(s0.filled() + e.mul_terms@.len()) =~= combining_a_map(
                e.linear_combinations@,
                e.linear_combinations@.len() as int,
                base_slot as int,
                e.mul_terms@.len() as int,
            ),
            final(self).b_row(s0.filled() + e.mul_terms@.len()) =~= Map::<int, int>::empty().insert(
                s0.one_index(),
                1int,
            ),
            final(self).c_row(s0.filled() + e.mul_terms@.len()) =~= Map::<int, int>::empty().insert(
                s0.one_index(),
                fneg(e.q_c@),
            ),
            row_dot(
                final(self).a_row(s0.filled() + e.mul_terms@.len()),
                vals(final(self).witness@),
                final(self).a.cols() as int,
            ) == fadd(
                slots_sum(
                    vals(final(self).witness@),
                    s0.next_witness(),
                    e.mul_terms@.len() as int,
                ),
                linear_eval(
                    e.linear_combinations@,
                    vals(final(self).witness@),
                    e.linear_combinations@.len() as int,
                ),
            ),
    {
        let ghost ts = e.mul_terms@;
        let ghost ls = e.linear_combinations@;
        let ml = e.mul_terms.len();
        let ll = e.linear_combinations.len();
        let ghost rf = row_f as int;
        let ghost colsi = self.a.cols() as int;
        let _nr = self.a.rows();
        let ghost s2 = *self;
        proof {
            assert(rf < _nr);
            assert(self.interner@.len() + 2 < u32::MAX);
            assert(one_col < self.b.cols() && one_col < self.c.cols());
            assert(s0.a@[rf].dom() =~= Set::empty());
            assert(s0.b@[rf].dom() =~= Set::empty());
            assert(s0.c@[rf].dom() =~= Set::empty());
            assert(self.b_row(rf) =~= s0.b_row(rf));
            assert(self.b@[rf].dom() =~= s0.b@[rf].dom());
            assert(self.c_row(rf) =~= s0.c_row(rf));
            assert(self.c@[rf].dom() =~= s0.c@[rf].dom());
        }
        self.write_combining_bc(row_f, one_col, e.q_c);
        let ghost s4 = *self;
        self.current_constraint = row_f + 1;
        proof {
            let xs0 = vals(s0.witness@);
            assert(self.a == s4.a && self.b == s4.b && self.c == s4.c && self.interner
                == s4.interner && self.witness == s4.witness);
            assert(forall|i: int| 0 <= i < self.a@.len() ==> #[trigger] self.a_row(i)
                =~= s4.a_row(i) && self.a@[i].dom() =~= s4.a@[i].dom());
            assert(forall|i: int| 0 <= i < self.b@.len() ==> #[trigger] self.b_row(i)
                =~= s4.b_row(i) && self.b@[i].dom() =~= s4.b@[i].dom());
            assert(forall|i: int| 0 <= i < self.c@.len() ==> #[trigger] self.c_row(i)
                =~= s4.c_row(i) && self.c@[i].dom() =~= s4.c@[i].dom());
            // Rows outside the fresh block keep their maps.
            assert forall|i: int| 0 <= i < self.a@.len() && !(base_row <= i <= rf) implies
                #[trigger] self.a_row(i) =~= s0.a_row(i) && self.a@[i].dom()
                =~= s0.a@[i].dom() by {
                assert(s4.a_row(i) =~= s2.a_row(i));
                assert(s4.a@[i].dom() =~= s2.a@[i].dom());
                assert(s2.a_row(i) =~= s0.a_row(i));
                assert(s2.a@[i].dom() =~= s0.a@[i].dom());
            }
            assert forall|i: int| 0 <= i < self.b@.len() && !(base_row <= i <= rf) implies
                #[trigger] self.b_row(i) =~= s0.b_row(i) && self.b@[i].dom()
                =~= s0.b@[i].dom() by {
                assert(s4.b_row(i) =~= s2.b_row(i));
                assert(s4.b@[i].dom() =~= s2.b@[i].dom());
                assert(s2.b_row(i) =~= s0.b_row(i));
                assert(s2.b@[i].dom() =~= s0.b@[i].dom());
            }
            assert forall|i: int| 0 <= i < self.c@.len() && !(base_row <= i <= rf) implies
                #[trigger] self.c_row(i) =~= s0.c_row(i) && self.c@[i].dom()
                =~= s0.c@[i].dom() by {
                assert(s4.c_row(i) =~= s2.c_row(i));
                assert(s4.c@[i].dom() =~= s2.c@[i].dom());
                assert(s2.c_row(i) =~= s0.c_row(i));
                assert(s2.c@[i].dom() =~= s0.c@[i].dom());
            }
            // The multiplicative rows keep their maps.
            assert forall|t: int| 0 <= t < ml implies #[trigger] self.a_row(base_row + t)
                =~= Map::<int, int>::empty().insert(ts[t].1 as int, ts[t].0@) && self.b_row(
                base_row + t,
            ) =~= Map::<int, int>::empty().insert(ts[t].2 as int, 1int) && self.c_row(
                base_row + t,
            ) =~= Map::<int, int>::empty().insert(base_slot + t, 1int) by {
                let i = base_row + t;
                assert(s4.a_row(i) =~= s2.a_row(i));
                assert(s4.b_row(i) =~= s2.b_row(i));
                assert(s4.c_row(i) =~= s2.c_row(i));
            }
            // The combining row's maps.
            assert(self.b_row(rf) =~= Map::<int, int>::empty().insert(one_col as int, 1int));
            assert(self.c_row(rf) =~= Map::<int, int>::empty().insert(
                one_col as int,
                fneg(e.q_c@),
            ));
            assert(self.a_row(rf) =~= s2.a_row(rf));
            assert(self.a@[rf].dom() =~= s2.a@[rf].dom());
            assert(s2.a_row(rf) =~= combining_a_map(ls, ll as int, base_slot as int, ml as int));
            assert(self.a_row(s0.filled() + ml) =~= combining_a_map(
                ls,
                ll as int,
                base_slot as int,
                ml as int,
            ));
            assert(row_dot(self.a_row(rf), xs, colsi) == fadd(
                slots_sum(xs, base_slot as int, ml as int),
                linear_eval(ls, xs, ll as int),
            )) by {
                crate::sparse_matrix::lemma_row_dot_agree(self.a_row(rf), s2.a_row(rf), xs, colsi);
            }
            // The slot values, over the final witness vector.
            assert forall|t: int| 0 <= t < ml implies #[trigger] xs[base_slot + t] == fmul(
                fmul(ts[t].0@, xs[ts[t].1 as int]),
                xs[ts[t].2 as int],
            ) by {
                assert(s2.witness@[base_slot + t]@ == fmul(
                    fmul(ts[t].0@, s2.witness@[ts[t].1 as int]@),
                    s2.witness@[ts[t].2 as int]@,
                ));
            }
            // Old rows keep their rank-1 relation.
            assert forall|i: int|
                0 <= i < s0.filled() && s0.constraint_holds(i) implies
                #[trigger] self.constraint_holds(i) by {
                assert(self.a_row(i) =~= s0.a_row(i));
                assert(self.b_row(i) =~= s0.b_row(i));
                assert(self.c_row(i) =~= s0.c_row(i));
                assert forall|c: int| #[trigger] s0.a_row(i).dom().contains(c) implies 0 <= c
                    < xs0.len() by {
                    assert(s0.a@[i].dom().contains(c));
                }
                assert forall|c: int| #[trigger] s0.b_row(i).dom().contains(c) implies 0 <= c
                    < xs0.len() by {
                    assert(s0.b@[i].dom().contains(c));
                }
                assert forall|c: int| #[trigger] s0.c_row(i).dom().contains(c) implies 0 <= c
                    < xs0.len() by {
                    assert(s0.c@[i].dom().contains(c));
                }
                assert(forall|c: int| 0 <= c < xs0.len() ==> #[trigger] xs0[c] == xs[c]);
                lemma_row_dot_extend(s0.a_row(i), xs0, xs, colsi);
                lemma_row_dot_extend(s0.b_row(i), xs0, xs, colsi);
                lemma_row_dot_extend(s0.c_row(i), xs0, xs, colsi);
            }
            // Well-formedness bookkeeping.
            assert forall|i: int| self.filled() <= i < self.a@.len() implies (
            #[trigger] self.a@[i]).dom() =~= Set::empty() && self.b@[i].dom() =~= Set::empty()
                && self.c@[i].dom() =~= Set::empty() by {
                assert(self.a_row(i) =~= s0.a_row(i));
                assert(self.b_row(i) =~= s0.b_row(i));
                assert(self.c_row(i) =~= s0.c_row(i));
                assert(self.a@[i].dom() =~= s0.a@[i].dom());
                assert(self.b@[i].dom() =~= s0.b@[i].dom());
                assert(self.c@[i].dom() =~= s0.c@[i].dom());
                assert(s0.a@[i].dom() =~= Set::empty());
            }
            assert forall|i: int, c: int|
                0 <= i < self.filled() && (#[trigger] self.a@[i].dom().contains(c)) implies 0
                <= c < self.next_witness() by {
                if i < s0.filled() {
                    assert(self.a_row(i) =~= s0.a_row(i));
                    assert(self.a@[i].dom() =~= s0.a@[i].dom());
                    assert(s0.a@[i].dom().contains(c));
                } else if i == rf {
                    assert(s2.a@[rf].dom().contains(c));
                } else {
                    let t = i - base_row;
                    assert(self.a_row(base_row + t) =~= Map::<int, int>::empty().insert(
                        ts[t].1 as int,
                        ts[t].0@,
                    ));
                    assert(self.a_row(i) =~= Map::<int, int>::empty().insert(
                        ts[t].1 as int,
                        ts[t].0@,
                    ));
                    assert(self.a_row(i).dom().contains(c));
                    assert(c == ts[t].1 as int);
                    assert((e.mul_terms@[t].1 as int) < s0.one_index());
                }
            }
            assert forall|i: int, c: int|
                0 <= i < self.filled() && (#[trigger] self.b@[i].dom().contains(c)) implies 0
                <= c < self.next_witness() by {
                if i < s0.filled() {
                    assert(self.b_row(i) =~= s0.b_row(i));
                    assert(self.b@[i].dom() =~= s0.b@[i].dom());
                    assert(s0.b@[i].dom().contains(c));
                } else if i == rf {
                    assert(self.b@[rf].dom() =~= Set::empty().insert(one_col as int));
                    assert(c == one_col as int);
                } else {
                    let t = i - base_row;
                    assert(self.b_row(base_row + t) =~= Map::<int, int>::empty().insert(
                        ts[t].2 as int,
                        1int,
                    ));
                    assert(self.b_row(i) =~= Map::<int, int>::empty().insert(
                        ts[t].2 as int,
                        1int,
                    ));
                    assert(self.b_row(i).dom().contains(c));
                    assert(c == ts[t].2 as int);
                    assert((e.mul_terms@[t].1 as int) < s0.one_index());
                    assert((e.mul_terms@[t].2 as int) < s0.one_index());
                }
            }
            assert forall|i: int, c: int|
                0 <= i < self.filled() && (#[trigger] self.c@[i].dom().contains(c)) implies 0
                <= c < self.next_witness() by {
                if i < s0.filled() {
                    assert(self.c_row(i) =~= s0.c_row(i));
                    assert(self.c@[i].dom() =~= s0.c@[i].dom());
                    assert(s0.c@[i].dom().contains(c));
                } else if i == rf {
                    assert(self.c@[rf].dom() =~= Set::empty().insert(one_col as int));
                    assert(c == one_col as int);
                } else {
                    let t = i - base_row;
                    assert(self.c_row(base_row + t) =~= Map::<int, int>::empty().insert(
                        base_slot + t,
                        1int,
                    ));
                    assert(self.c_row(i) =~= Map::<int, int>::empty().insert(
                        base_slot + t,
                        1int,
                    ));
                    assert(self.c_row(i).dom().contains(c));
                    assert(c == base_slot + t);
                }
            }
            assert(self.witness@[self.one_index()]@ == 1) by {
                assert(self.witness@[s0.one_index()] == s0.witness@[s0.one_index()]);
            }
            assert(self.wf());
            // The rank-1 relation of the fresh rows, given that the
            // expression evaluates to zero.
            if expr_eval(*e, xs) == 0 {
                assert forall|i: int| s0.filled() <= i < self.filled() implies
                    #[trigger] self.constraint_holds(i) by {
                    crate::sparse_matrix::lemma_row_dot_empty(xs, colsi);
                    if i < rf {
                        let t = i - base_row;
                        let ma = ts[t].0@;
                        let wa = xs[ts[t].1 as int];
                        let wb = xs[ts[t].2 as int];
                        let slotv = xs[base_slot + t];
                        assert(self.a_row(base_row + t) =~= Map::<int, int>::empty().insert(
                            ts[t].1 as int,
                            ts[t].0@,
                        ));
                        assert(self.a_row(i) =~= Map::<int, int>::empty().insert(
                            ts[t].1 as int,
                            ma,
                        ));
                        assert(self.b_row(base_row + t) =~= Map::<int, int>::empty().insert(
                            ts[t].2 as int,
                            1int,
                        ));
                        assert(self.b_row(i) =~= Map::<int, int>::empty().insert(
                            ts[t].2 as int,
                            1int,
                        ));
                        assert(self.c_row(base_row + t) =~= Map::<int, int>::empty().insert(
                            base_slot + t,
                            1int,
                        ));
                        assert(self.c_row(i) =~= Map::<int, int>::empty().insert(
                            base_slot + t,
                            1int,
                        ));
                        crate::sparse_matrix::lemma_row_dot_insert(
                            Map::<int, int>::empty(),
                            xs,
                            colsi,
                            ts[t].1 as int,
                            ma,
                        );
                        crate::sparse_matrix::lemma_row_dot_insert(
                            Map::<int, int>::empty(),
                            xs,
                            colsi,
                            ts[t].2 as int,
                            1int,
                        );
                        crate::sparse_matrix::lemma_row_dot_insert(
                            Map::<int, int>::empty(),
                            xs,
                            colsi,
                            base_slot + t,
                            1int,
                        );
                        crate::field::lemma_field_closed(ma, wa);
                        crate::field::lemma_fadd_zero(fmul(ma, wa));
                        crate::field::lemma_in_field(self.witness@[ts[t].2 as int]);
                        crate::field::lemma_fmul_one(wb);
                        crate::field::lemma_fadd_zero(wb);
                        crate::field::lemma_field_closed(fmul(ma, wa), wb);
                        crate::field::lemma_fmul_one(slotv);
                        crate::field::lemma_fadd_zero(slotv);
                        assert(row_dot(self.a_row(i), xs, colsi) == fmul(ma, wa));
                        assert(row_dot(self.b_row(i), xs, colsi) == wb);
                        assert(row_dot(self.c_row(i), xs, colsi) == slotv);
                        assert(fmul(fmul(ma, wa), wb) == slotv);
                    } else {
                        let da = row_dot(self.a_row(rf), xs, colsi);
                        lemma_slots_sum_eq(ts, xs, base_slot as int, ml as int);
                        assert(da == fadd(
                            mul_terms_eval(ts, xs, ml as int),
                            linear_eval(ls, xs, ll as int),
                        ));
                        crate::sparse_matrix::lemma_row_dot_in_field(self.a_row(rf), xs, colsi);
                        crate::field::lemma_cancel_to_neg(da, e.q_c@);
                        lemma_c_row_one(e.q_c@, one_col as int, xs, colsi);
                        assert(row_dot(self.c_row(rf), xs, colsi) == fneg(e.q_c@));
                        assert(xs[one_col as int] == 1) by {
                            assert(self.witness@[one_col as int]
                                == s0.witness@[s0.one_index()]);
                        }
                        crate::sparse_matrix::lemma_row_dot_insert(
                            Map::<int, int>::empty(),
                            xs,
                            colsi,
                            one_col as int,
                            1int,
                        );
                        crate::field::lemma_fmul_one(1int);
                        crate::field::lemma_fadd_zero(1int);
                        assert(row_dot(self.b_row(rf), xs, colsi) == 1int);
                        crate::field::lemma_fmul_one(da);
                        assert(fmul(da, 1int) == da);
                        assert(da == fneg(e.q_c@));
                    }
                }
            }
        }
    }
}


impl R1CS {
    /// All row maps of all three matrices, except row `row`, are unchanged,
    /// and the interner only grew.
    pub open spec fn rows_preserved_but(&self, other: &Self, row: int) -> bool {
        &&& forall|i: int|
            #![trigger self.a_row(i)]
            0 <= i < self.a@.len() && i != row ==> self.a_row(i) =~= other.a_row(i)
                && self.a@[i].dom() =~= other.a@[i].dom()
        &&& forall|i: int|
            #![trigger self.b_row(i)]
            0 <= i < self.b@.len() && i != row ==> self.b_row(i) =~= other.b_row(i)
                && self.b@[i].dom() =~= other.b@[i].dom()
        &&& forall|i: int|
            #![trigger self.c_row(i)]
            0 <= i < self.c@.len() && i != row ==> self.c_row(i) =~= other.c_row(i)
                && self.c@[i].dom() =~= other.c@[i].dom()
    }

    /// Emit one multiplicative-term row: `A[row,a] = m`, `B[row,b] = 1`,
    /// `C[row,slot] = 1`.
    fn emit_mul_row(&mut self, row: usize, slot: usize, m: FieldElement, ia: usize, ib: usize)
        requires
            old(self).matrices_ok(),
            row < old(self).a@.len() && row < old(self).b@.len() && row < old(self).c@.len(),
            ia < old(self).a.cols(),
            ib < old(self).b.cols(),
            slot < old(self).c.cols(),
            old(self).interner@.len() + 3 < u32::MAX,
            old(self).a@[row as int].dom() =~= Set::empty(),
            old(self).b@[row as int].dom() =~= Set::empty(),
            old(self).c@[row as int].dom() =~= Set::empty(),
        ensures
            final(self).matrices_ok(),
            final(self).same_skeleton(old(self)),
            final(self).rows_preserved_but(old(self), row as int),
            final(self).a_row(row as int) =~= Map::<int, int>::empty().insert(ia as int, m@),
            final(self).b_row(row as int) =~= Map::<int, int>::empty().insert(ib as int, 1int),
            final(self).c_row(row as int) =~= Map::<int, int>::empty().insert(slot as int, 1int),
            final(self).a@[row as int].dom() =~= Set::empty().insert(ia as int),
            final(self).b@[row as int].dom() =~= Set::empty().insert(ib as int),
            final(self).c@[row as int].dom() =~= Set::empty().insert(slot as int),
            final(self).interner@.len() <= old(self).interner@.len() + 3,
    {
        let ghost p0 = *self;
        self.set_a(row, ia, m);
        let ghost p1 = *self;
        self.set_b(row, ib, FieldElement::one());
        let ghost p2 = *self;
        self.set_c(row, slot, FieldElement::one());
        proof {
            let ri = row as int;
            assert forall|i: int| 0 <= i < self.a@.len() && i != ri implies
                #[trigger] self.a_row(i) =~= p0.a_row(i) && self.a@[i].dom()
                =~= p0.a@[i].dom() by {
                assert(p1.a_row(i) =~= p0.a_row(i));
                assert(p2.a_row(i) =~= p1.a_row(i));
                assert(self.a_row(i) =~= p2.a_row(i));
                assert(p1.a@[i].dom() =~= p0.a@[i].dom());
                assert(p2.a@[i].dom() =~= p1.a@[i].dom());
                assert(self.a@[i].dom() =~= p2.a@[i].dom());
            }
            assert forall|i: int| 0 <= i < self.b@.len() && i != ri implies
                #[trigger] self.b_row(i) =~= p0.b_row(i) && self.b@[i].dom()
                =~= p0.b@[i].dom() by {
                assert(p1.b_row(i) =~= p0.b_row(i));
                assert(p2.b_row(i) =~= p1.b_row(i));
                assert(self.b_row(i) =~= p2.b_row(i));
                assert(p1.b@[i].dom() =~= p0.b@[i].dom());
                assert(p2.b@[i].dom() =~= p1.b@[i].dom());
                assert(self.b@[i].dom() =~= p2.b@[i].dom());
            }
            assert forall|i: int| 0 <= i < self.c@.len() && i != ri implies
                #[trigger] self.c_row(i) =~= p0.c_row(i) && self.c@[i].dom()
                =~= p0.c@[i].dom() by {
                assert(p1.c_row(i) =~= p0.c_row(i));
                assert(p2.c_row(i) =~= p1.c_row(i));
                assert(self.c_row(i) =~= p2.c_row(i));
                assert(p1.c@[i].dom() =~= p0.c@[i].dom());
                assert(p2.c@[i].dom() =~= p1.c@[i].dom());
                assert(self.c@[i].dom() =~= p2.c@[i].dom());
            }
            assert(p0.a_row(ri) =~= Map::<int, int>::empty());
            assert(self.a_row(ri) =~= p1.a_row(ri));
            assert(self.a_row(ri) =~= Map::<int, int>::empty().insert(ia as int, m@));
            assert(p1.b_row(ri) =~= p0.b_row(ri));
            assert(p1.b@[ri].dom() =~= p0.b@[ri].dom());
            assert(p1.b_row(ri) =~= Map::<int, int>::empty());
            assert(self.b_row(ri) =~= p2.b_row(ri));
            assert(self.b_row(ri) =~= Map::<int, int>::empty().insert(ib as int, 1int));
            assert(p2.c_row(ri) =~= p1.c_row(ri));
            assert(p2.c@[ri].dom() =~= p1.c@[ri].dom());
            assert(p1.c_row(ri) =~= p0.c_row(ri));
            assert(p1.c@[ri].dom() =~= p0.c@[ri].dom());
            assert(p2.c_row(ri) =~= Map::<int, int>::empty());
            assert(self.c_row(ri) =~= Map::<int, int>::empty().insert(slot as int, 1int));
            assert(self.a@[ri].dom() =~= Set::empty().insert(ia as int));
            assert(self.b@[ri].dom() =~= p2.b@[ri].dom());
            assert(self.b@[ri].dom() =~= Set::empty().insert(ib as int));
            assert(self.c@[ri].dom() =~= Set::empty().insert(slot as int));
        }
    }

    /// Write the combining row's `B` and `C` entries:
    /// `B[row,one] = 1`, `C[row,one] = -q_c`.
    fn write_combining_bc(&mut self, row: usize, one_col: usize, q_c: FieldElement)
        requires
            old(self).matrices_ok(),
            row < old(self).b@.len() && row < old(self).c@.len() && row < old(self).a@.len(),
            one_col < old(self).b.cols(),
            one_col < old(self).c.cols(),
            old(self).interner@.len() + 2 < u32::MAX,
            old(self).b@[row as int].dom() =~= Set::empty(),
            old(self).c@[row as int].dom() =~= Set::empty(),
        ensures
            final(self).matrices_ok(),
            final(self).same_skeleton(old(self)),
            final(self).rows_preserved_but(old(self), row as int),
            final(self).a_row(row as int) =~= old(self).a_row(row as int),
            final(self).a@[row as int].dom() =~= old(self).a@[row as int].dom(),
            final(self).b_row(row as int) =~= Map::<int, int>::empty().insert(
                one_col as int,
                1int,
            ),
            final(self).c_row(row as int) =~= Map::<int, int>::empty().insert(
                one_col as int,
                fneg(q_c@),
            ),
            final(self).b@[row as int].dom() =~= Set::empty().insert(one_col as int),
            final(self).c@[row as int].dom() =~= Set::empty().insert(one_col as int),
            final(self).interner@.len() <= old(self).interner@.len() + 2,
    {
        let ghost p0 = *self;
        self.set_b(row, one_col, FieldElement::one());
        let ghost p1 = *self;
        self.set_c(row, one_col, q_c.neg());
        proof {
            let ri = row as int;
            assert forall|i: int| 0 <= i < self.a@.len() && i != ri implies
                #[trigger] self.a_row(i) =~= p0.a_row(i) && self.a@[i].dom()
                =~= p0.a@[i].dom() by {
                assert(p1.a_row(i) =~= p0.a_row(i));
                assert(self.a_row(i) =~= p1.a_row(i));
                assert(p1.a@[i].dom() =~= p0.a@[i].dom());
                assert(self.a@[i].dom() =~= p1.a@[i].dom());
            }
            assert forall|i: int| 0 <= i < self.b@.len() && i != ri implies
                #[trigger] self.b_row(i) =~= p0.b_row(i) && self.b@[i].dom()
                =~= p0.b@[i].dom() by {
                assert(p1.b_row(i) =~= p0.b_row(i));
                assert(self.b_row(i) =~= p1.b_row(i));
                assert(p1.b@[i].dom() =~= p0.b@[i].dom());
                assert(self.b@[i].dom() =~= p1.b@[i].dom());
            }
            assert forall|i: int| 0 <= i < self.c@.len() && i != ri implies
                #[trigger] self.c_row(i) =~= p0.c_row(i) && self.c@[i].dom()
                =~= p0.c@[i].dom() by {
                assert(p1.c_row(i) =~= p0.c_row(i));
                assert(self.c_row(i) =~= p1.c_row(i));
                assert(p1.c@[i].dom() =~= p0.c@[i].dom());
                assert(self.c@[i].dom() =~= p1.c@[i].dom());
            }
            assert(p1.a_row(ri) =~= p0.a_row(ri));
            assert(self.a_row(ri) =~= p1.a_row(ri));
            assert(p1.a@[ri].dom() =~= p0.a@[ri].dom());
            assert(self.a@[ri].dom() =~= p1.a@[ri].dom());
            assert(p1.b_row(ri) =~= Map::<int, int>::empty().insert(one_col as int, 1int));
            assert(self.b_row(ri) =~= p1.b_row(ri));
            assert(self.b@[ri].dom() =~= p1.b@[ri].dom());
            assert(self.b@[ri].dom() =~= Set::empty().insert(one_col as int));
            assert(p1.c_row(ri) =~= p0.c_row(ri));
            assert(p1.c@[ri].dom() =~= p0.c@[ri].dom());
            assert(p1.c_row(ri) =~= Map::<int, int>::empty());
            assert(self.c_row(ri) =~= Map::<int, int>::empty().insert(
                one_col as int,
                fneg(q_c@),
            ));
            assert(self.c@[ri].dom() =~= Set::empty().insert(one_col as int));
        }
    }
}


/// Evaluations only read witness slots below the expression's index bound:
/// extending the witness does not change them.
proof fn lemma_expr_eval_prefix(e: Expression, xs1: Seq<int>, xs2: Seq<int>, bound: int)
    requires
        expr_bounded(e, bound),
        0 <= bound <= xs1.len(),
        xs1.len() <= xs2.len(),
        forall|c: int| 0 <= c < xs1.len() ==> xs1[c] == xs2[c],
    ensures
        expr_eval(e, xs1) == expr_eval(e, xs2),
{
    lemma_mul_terms_eval_prefix(e.mul_terms@, xs1, xs2, bound, e.mul_terms@.len() as int);
    lemma_linear_eval_prefix(
        e.linear_combinations@,
        xs1,
        xs2,
        bound,
        e.linear_combinations@.len() as int,
    );
}

/// Prefix stability for the multiplicative terms.
proof fn lemma_mul_terms_eval_prefix(
    ts: Seq<(FieldElement, u32, u32)>,
    xs1: Seq<int>,
    xs2: Seq<int>,
    bound: int,
    n: int,
)
    requires
        forall|k: int|
            0 <= k < ts.len() ==> (#[trigger] ts[k].1 as int) < bound && (ts[k].2 as int)
                < bound,
        0 <= bound <= xs1.len(),
        xs1.len() <= xs2.len(),
        forall|c: int| 0 <= c < xs1.len() ==> xs1[c] == xs2[c],
        n <= ts.len(),
    ensures
        mul_terms_eval(ts, xs1, n) == mul_terms_eval(ts, xs2, n),
    decreases n,
{
    if n > 0 {
        lemma_mul_terms_eval_prefix(ts, xs1, xs2, bound, n - 1);
    }
}

/// Prefix stability for the linear terms.
proof fn lemma_linear_eval_prefix(
    ts: Seq<(FieldElement, u32)>,
    xs1: Seq<int>,
    xs2: Seq<int>,
    bound: int,
    n: int,
)
    requires
        forall|k: int| 0 <= k < ts.len() ==> (#[trigger] ts[k].1 as int) < bound,
        0 <= bound <= xs1.len(),
        xs1.len() <= xs2.len(),
        forall|c: int| 0 <= c < xs1.len() ==> xs1[c] == xs2[c],
        n <= ts.len(),
    ensures
        linear_eval(ts, xs1, n) == linear_eval(ts, xs2, n),
    decreases n,
{
    if n > 0 {
        lemma_linear_eval_prefix(ts, xs1, xs2, bound, n - 1);
    }
}

impl R1CS {
    /// Emit the rows of one `AssertZero` expression (pass 2).  Fails with
    /// [`Error::UnsupportedOpcode`] on a simple expression without a
    /// multiplicative term, with [`Error::IndexOutOfBounds`] on a witness
    /// index the system was not sized for, and with
    /// [`Error::DimensionMismatch`] when rows, slots or interner space run
    /// out; on failure the system is unchanged.
    pub fn add_constraint(&mut self, e: &Expression) -> (r: Result<(), Error>)
        requires
            old(self).wf(),
        ensures
            match r {
                Ok(()) => {
                    &&& final(self).wf()
                    &&& final(self).interner@.len() <= old(self).interner@.len() + 4
                        * e.mul_terms@.len() + e.linear_combinations@.len() + 3
                    &&& expr_supported(*e)
                    &&& expr_bounded(*e, old(self).one_index())
                    &&& final(self).filled() == old(self).filled() + expr_rows(*e)
                    &&& final(self).next_witness() == old(self).next_witness()
                        + expr_extra_cols(*e)
                    &&& final(self).one_index() == old(self).one_index()
                    &&& final(self).a@.len() == old(self).a@.len()
                    &&& final(self).a.cols() == old(self).a.cols()
                    &&& final(self).witness@.len() == old(self).witness@.len()
                        + expr_extra_cols(*e)
                    &&& forall|i: int|
                        0 <= i < old(self).witness@.len() ==> #[trigger] final(self).witness@[i]
                            == old(self).witness@[i]
                    &&& (old(self).satisfied_up_to(old(self).filled()) && expr_eval(
                        *e,
                        vals(final(self).witness@),
                    ) == 0 ==> final(self).satisfied_up_to(final(self).filled()))
                    &&& (!expr_complex(*e) ==> {
                        &&& final(self).a_row(old(self).filled()) =~= Map::<
                            int,
                            int,
                        >::empty().insert(e.mul_terms@[0].1 as int, e.mul_terms@[0].0@)
                        &&& final(self).b_row(old(self).filled()) =~= Map::<
                            int,
                            int,
                        >::empty().insert(e.mul_terms@[0].2 as int, 1int)
                        &&& final(self).c_row(old(self).filled()) =~= (
                        if e.linear_combinations@.len() == 1 {
                            Map::<int, int>::empty().insert(
                                e.linear_combinations@[0].1 as int,
                                fneg(e.linear_combinations@[0].0@),
                            ).insert(old(self).one_index(), fneg(e.q_c@))
                        } else {
                            Map::<int, int>::empty().insert(
                                old(self).one_index(),
                                fneg(e.q_c@),
                            )
                        })
                    })
                    &&& (expr_complex(*e) ==> {
                        &&& forall|t: int|
                            0 <= t < e.mul_terms@.len() ==> #[trigger] final(self).a_row(old(
                                self,
                            ).filled() + t) =~= Map::<int, int>::empty().insert(
                                e.mul_terms@[t].1 as int,
                                e.mul_terms@[t].0@,
                            )
                        &&& forall|t: int|
                            0 <= t < e.mul_terms@.len() ==> #[trigger] final(self).b_row(old(
                                self,
                            ).filled() + t) =~= Map::<int, int>::empty().insert(
                                e.mul_terms@[t].2 as int,
                                1int,
                            )
                        &&& forall|t: int|
                            0 <= t < e.mul_terms@.len() ==> #[trigger] final(self).c_row(old(
                                self,
                            ).filled() + t) =~= Map::<int, int>::empty().insert(
                                old(self).next_witness() + t,
                                1int,
                            )
                        &&& forall|t: int|
                            0 <= t < e.mul_terms@.len() ==> (#[trigger] final(self).witness@[old(
                                self,
                            ).next_witness() + t]@) == fmul(
                                fmul(
                                    e.mul_terms@[t].0@,
                                    final(self).witness@[e.mul_terms@[t].1 as int]@,
                                ),
                                final(self).witness@[e.mul_terms@[t].2 as int]@,
                            )
                        &&& final(self).a_row(old(self).filled() + e.mul_terms@.len())
                            =~= combining_a_map(
                            e.linear_combinations@,
                            e.linear_combinations@.len() as int,
                            old(self).next_witness(),
                            e.mul_terms@.len() as int,
                        )
                        &&& final(self).b_row(old(self).filled() + e.mul_terms@.len())
                            =~= Map::<int, int>::empty().insert(old(self).one_index(), 1int)
                        &&& final(self).c_row(old(self).filled() + e.mul_terms@.len())
                            =~= Map::<int, int>::empty().insert(
                            old(self).one_index(),
                            fneg(e.q_c@),
                        )
                        &&& row_dot(
                            final(self).a_row(old(self).filled() + e.mul_terms@.len()),
                            vals(final(self).witness@),
                            final(self).a.cols() as int,
                        ) == fadd(
                            slots_sum(
                                vals(final(self).witness@),
                                old(self).next_witness(),
                                e.mul_terms@.len() as int,
                            ),
                            linear_eval(
                                e.linear_combinations@,
                                vals(final(self).witness@),
                                e.linear_combinations@.len() as int,
                            ),
                        )
                    })
                },
                Err(err) => {
                    &&& *final(self) == *old(self)
                    &&& ((err == Error::UnsupportedOpcode && !expr_supported(*e)) || (err
                        == Error::IndexOutOfBounds && expr_supported(*e) && !expr_bounded(
                        *e,
                        old(self).one_index(),
                    )) || (err == Error::DimensionMismatch && expr_supported(*e)
                        && expr_bounded(*e, old(self).one_index()) && !old(self).capacity_ok(
                        *e,
                    )))
                },
            },
    {
        let ghost s0 = *self;
        let ml = e.mul_terms.len();
        let ll = e.linear_combinations.len();
        let complex = ml > 1 || ll > 1;
        if !complex && ml != 1 {
            return Err(Error::UnsupportedOpcode);
        }
        // Every witness index must lie among the original variables.
        let mut k: usize = 0;
        while k < ml
            invariant
                k <= ml,
                ml == e.mul_terms@.len(),
                *self == s0,
                expr_supported(*e),
                forall|t: int|
                    0 <= t < k ==> (#[trigger] e.mul_terms@[t].1 as int) < s0.one_index()
                        && (e.mul_terms@[t].2 as int) < s0.one_index(),
            decreases ml - k,
        {
            let (_, ia, ib) = e.mul_terms[k];
            if (ia as usize) > self.original_witness || (ib as usize) > self.original_witness {
                proof {
                    assert((e.mul_terms@[k as int].1 as int) >= s0.one_index() || (
                    e.mul_terms@[k as int].2 as int) >= s0.one_index());
                    assert(!expr_bounded(*e, s0.one_index()));
                }
                return Err(Error::IndexOutOfBounds);
            }
            k += 1;
        }
        let mut k2: usize = 0;
        while k2 < ll
            invariant
                k2 <= ll,
                ll == e.linear_combinations@.len(),
                *self == s0,
                expr_supported(*e),
                forall|t: int|
                    0 <= t < k2 ==> (#[trigger] e.linear_combinations@[t].1 as int)
                        < s0.one_index(),
            decreases ll - k2,
        {
            let (_, ic) = e.linear_combinations[k2];
            if (ic as usize) > self.original_witness {
                proof {
                    assert((e.linear_combinations@[k2 as int].1 as int) >= s0.one_index());
                    assert(!expr_bounded(*e, s0.one_index()));
                }
                return Err(Error::IndexOutOfBounds);
            }
            k2 += 1;
        }
        // Capacity: rows, intermediate slots, interner space.
        let rows_needed: u128 = if complex {
            ml as u128 + 1
        } else {
            1
        };
        let extra_needed: u128 = if complex {
            ml as u128
        } else {
            0
        };
        if (self.current_constraint as u128) + rows_needed > (self.a.rows() as u128) {
            return Err(Error::DimensionMismatch);
        }
        if (self.current_witness_index as u128) + extra_needed > (self.a.num_columns() as u128) {
            return Err(Error::DimensionMismatch);
        }
        if (self.interner.len() as u128) + 4 * (ml as u128) + (ll as u128) + 3 > (u32::MAX
            as u128) {
            return Err(Error::DimensionMismatch);
        }
        if complex {
            self.add_constraint_complex(e);
        } else {
            self.add_constraint_simple(e);
        }
        proof {
            assert forall|i: int|
                0 <= i < self.filled() && s0.satisfied_up_to(s0.filled()) && expr_eval(
                    *e,
                    vals(self.witness@),
                ) == 0 implies #[trigger] self.constraint_holds(i) by {
                if i < s0.filled() {
                    assert(s0.constraint_holds(i));
                }
            }
        }
        Ok(())
    }

    /// Emit rows for every opcode of a circuit (pass 2).  On success, if the
    /// initial rows were satisfied and every asserted expression evaluates to
    /// zero under the final witness, every emitted row satisfies the rank-1
    /// relation `(A w)[i] * (B w)[i] == (C w)[i]`.
    pub fn add_circuit(&mut self, circuit: &Circuit) -> (r: Result<(), Error>)
        requires
            old(self).wf(),
        ensures
            final(self).wf(),
            final(self).one_index() == old(self).one_index(),
            final(self).a@.len() == old(self).a@.len(),
            final(self).a.cols() == old(self).a.cols(),
            old(self).witness@.len() <= final(self).witness@.len(),
            forall|i: int|
                0 <= i < old(self).witness@.len() ==> #[trigger] final(self).witness@[i] == old(
                    self,
                ).witness@[i],
            match r {
                Ok(()) => {
                    &&& forall|k: int|
                        0 <= k < circuit.opcodes@.len() ==> match #[trigger] circuit.opcodes@[k] {
                            Opcode::AssertZero(e) => expr_supported(e) && expr_bounded(
                                e,
                                old(self).one_index(),
                            ),
                            _ => false,
                        }
                    &&& (old(self).satisfied_up_to(old(self).filled()) && circuit_satisfied(
                        *circuit,
                        vals(final(self).witness@),
                    ) ==> final(self).satisfied_up_to(final(self).filled()))
                },
                Err(err) => {
                    &&& (err == Error::UnsupportedOpcode || err == Error::IndexOutOfBounds || err
                        == Error::DimensionMismatch)
                    &&& (err == Error::UnsupportedOpcode ==> exists|k: int|
                        0 <= k < circuit.opcodes@.len() && match #[trigger] circuit.opcodes@[k] {
                            Opcode::AssertZero(e) => !expr_supported(e),
                            _ => true,
                        })
                    &&& (err == Error::IndexOutOfBounds ==> exists|k: int|
                        0 <= k < circuit.opcodes@.len() && match #[trigger] circuit.opcodes@[k] {
                            Opcode::AssertZero(e) => !expr_bounded(e, old(self).one_index()),
                            _ => false,
                        })
                    &&& (err == Error::DimensionMismatch ==> exists|k: int|
                        0 <= k < circuit.opcodes@.len() && match #[trigger] circuit.opcodes@[k] {
                            Opcode::AssertZero(e) => expr_supported(e) && expr_bounded(
                                e,
                                old(self).one_index(),
                            ) && !(old(self).filled() + rows_upto(circuit.opcodes@, k)
                                + expr_rows(e) <= old(self).a@.len() && old(self).next_witness()
                                + extra_upto(circuit.opcodes@, k) + expr_extra_cols(e) <= old(
                                self,
                            ).a.cols() && old(self).interner@.len() + intern_budget_upto(
                                circuit.opcodes@,
                                k,
                            ) + 4 * e.mul_terms@.len() + e.linear_combinations@.len() + 3
                                <= u32::MAX as int),
                            _ => false,
                        })
                },
            },
    {
        let ghost s0 = *self;
        let n = circuit.opcodes.len();
        let mut k: usize = 0;
        while k < n
            invariant
                s0 == *old(self),
                k <= n,
                n == circuit.opcodes@.len(),
                self.wf(),
                self.one_index() == s0.one_index(),
                self.a@.len() == s0.a@.len(),
                self.a.cols() == s0.a.cols(),
                s0.witness@.len() <= self.witness@.len(),
                forall|i: int|
                    0 <= i < s0.witness@.len() ==> #[trigger] self.witness@[i]
                        == s0.witness@[i],
                self.filled() == s0.filled() + rows_upto(circuit.opcodes@, k as int),
                self.next_witness() == s0.next_witness() + extra_upto(
                    circuit.opcodes@,
                    k as int,
                ),
                self.interner@.len() <= s0.interner@.len() + intern_budget_upto(
                    circuit.opcodes@,
                    k as int,
                ),
                forall|t: int|
                    0 <= t < k ==> match #[trigger] circuit.opcodes@[t] {
                        Opcode::AssertZero(e) => expr_supported(e) && expr_bounded(
                            e,
                            s0.one_index(),
                        ),
                        _ => false,
                    },
                s0.satisfied_up_to(s0.filled()) && (forall|t: int|
                    0 <= t < k ==> match #[trigger] circuit.opcodes@[t] {
                        Opcode::AssertZero(e) => expr_eval(e, vals(self.witness@)) == 0,
                        _ => true,
                    }) ==> self.satisfied_up_to(self.filled()),
            decreases n - k,
        {
            let ghost sk = *self;
            match &circuit.opcodes[k] {
                Opcode::AssertZero(e) => {
                    let res = self.add_constraint(e);
                    match res {
                        Ok(()) => {
                            proof {
                                let xs_new = vals(self.witness@);
                                let xs_old = vals(sk.witness@);
                                if s0.satisfied_up_to(s0.filled()) && (forall|t: int|
                                    0 <= t < k + 1 ==> match #[trigger] circuit.opcodes@[t] {
                                        Opcode::AssertZero(e2) => expr_eval(e2, xs_new) == 0,
                                        _ => true,
                                    }) {
                                    assert forall|t: int|
                                        0 <= t < k implies match #[trigger] circuit.opcodes@[t] {
                                        Opcode::AssertZero(e2) => expr_eval(e2, xs_old) == 0,
                                        _ => true,
                                    } by {
                                        match circuit.opcodes@[t] {
                                            Opcode::AssertZero(e2) => {
                                                lemma_expr_eval_prefix(
                                                    e2,
                                                    xs_old,
                                                    xs_new,
                                                    s0.one_index(),
                                                );
                                            },
                                            _ => {},
                                        }
                                    }
                                    assert(sk.satisfied_up_to(sk.filled()));
                                    assert(expr_eval(*e, vals(self.witness@)) == 0) by {
                                        assert(circuit.opcodes@[k as int]
                                            == Opcode::AssertZero(*e));
                                    }
                                    assert(self.satisfied_up_to(self.filled()));
                                }
                            }
                        },
                        Err(err) => {
                            proof {
                                assert(circuit.opcodes@[k as int] == Opcode::AssertZero(*e));
                                if err == Error::UnsupportedOpcode {
                                    lemma_unsupported_witness(circuit, k as int);
                                }
                                if err == Error::IndexOutOfBounds {
                                    lemma_unbounded_witness(circuit, k as int, s0.one_index());
                                }
                            }
                            return Err(err);
                        },
                    }
                },
                Opcode::BrilligCall => {
                    proof {
                        lemma_unsupported_witness(circuit, k as int);
                    }
                    return Err(Error::UnsupportedOpcode);
                },
                Opcode::Directive => {
                    proof {
                        lemma_unsupported_witness(circuit, k as int);
                    }
                    return Err(Error::UnsupportedOpcode);
                },
                Opcode::Call => {
                    proof {
                        lemma_unsupported_witness(circuit, k as int);
                    }
                    return Err(Error::UnsupportedOpcode);
                },
                Opcode::MemoryOp => {
                    proof {
                        lemma_unsupported_witness(circuit, k as int);
                    }
                    return Err(Error::UnsupportedOpcode);
                },
                Opcode::MemoryInit => {
                    proof {
                        lemma_unsupported_witness(circuit, k as int);
                    }
                    return Err(Error::UnsupportedOpcode);
                },
                Opcode::BlackBoxFuncCall => {
                    proof {
                        lemma_unsupported_witness(circuit, k as int);
                    }
                    return Err(Error::UnsupportedOpcode);
                },
            }
            k += 1;
        }
        Ok(())
    }

    /// Check the rank-1 relation on every row, against the current witness.
    pub fn is_satisfied(&self) -> (r: bool)
        requires
            self.wf(),
        ensures
            r <==> self.satisfied_up_to(self.a@.len() as int),
    {
        let ghost xs = vals(self.witness@);
        let cols = self.a.num_columns();
        // Pad the witness to the matrix width.
        let mut w = Vec::new();
        let mut i: usize = 0;
        let wlen = self.witness.len();
        while i < wlen
            invariant
                i <= wlen,
                wlen == self.witness@.len(),
                w@.len() == i,
                forall|t: int| 0 <= t < i ==> #[trigger] w@[t] == self.witness@[t],
            decreases wlen - i,
        {
            w.push(self.witness[i]);
            i += 1;
        }
        proof {
            assert(self.witness@.len() <= self.a.cols());
        }
        while w.len() < cols
            invariant
                self.witness@.len() <= w@.len() <= cols,
                cols == self.a.cols(),
                forall|t: int|
                    0 <= t < self.witness@.len() ==> #[trigger] w@[t] == self.witness@[t],
            decreases cols - w.len(),
        {
            w.push(FieldElement::zero());
        }
        let ha = self.a.hydrate(&self.interner);
        let hb = self.b.hydrate(&self.interner);
        let hc = self.c.hydrate(&self.interner);
        let aw = ha.mul_vec(&w);
        let bw = hb.mul_vec(&w);
        let cw = hc.mul_vec(&w);
        let rows = self.a.rows();
        let ghost xsp = vals(w@);
        proof {
            assert forall|t: int| 0 <= t < rows implies (#[trigger] aw@[t]@) == row_dot(
                hyd_row_of(self.a, self.interner, t),
                xsp,
                self.a.cols() as int,
            ) by {
                assert(ha.hyd_row(t) =~= hyd_row_of(self.a, self.interner, t));
                crate::sparse_matrix::lemma_row_dot_agree(
                    ha.hyd_row(t),
                    hyd_row_of(self.a, self.interner, t),
                    xsp,
                    self.a.cols() as int,
                );
            }
            assert forall|t: int| 0 <= t < rows implies (#[trigger] bw@[t]@) == row_dot(
                hyd_row_of(self.b, self.interner, t),
                xsp,
                self.a.cols() as int,
            ) by {
                assert(hb.hyd_row(t) =~= hyd_row_of(self.b, self.interner, t));
                crate::sparse_matrix::lemma_row_dot_agree(
                    hb.hyd_row(t),
                    hyd_row_of(self.b, self.interner, t),
                    xsp,
                    self.a.cols() as int,
                );
            }
            assert forall|t: int| 0 <= t < rows implies (#[trigger] cw@[t]@) == row_dot(
                hyd_row_of(self.c, self.interner, t),
                xsp,
                self.a.cols() as int,
            ) by {
                assert(hc.hyd_row(t) =~= hyd_row_of(self.c, self.interner, t));
                crate::sparse_matrix::lemma_row_dot_agree(
                    hc.hyd_row(t),
                    hyd_row_of(self.c, self.interner, t),
                    xsp,
                    self.a.cols() as int,
                );
            }
        }
        let mut ok = true;
        let mut row: usize = 0;
        while row < rows
            invariant
                row <= rows,
                rows == self.a@.len(),
                self.wf(),
                aw@.len() == rows && bw@.len() == rows && cw@.len() == rows,
                forall|t: int|
                    0 <= t < rows ==> (#[trigger] aw@[t]@) == row_dot(
                        hyd_row_of(self.a, self.interner, t),
                        xsp,
                        self.a.cols() as int,
                    ),
                forall|t: int|
                    0 <= t < rows ==> (#[trigger] bw@[t]@) == row_dot(
                        hyd_row_of(self.b, self.interner, t),
                        xsp,
                        self.a.cols() as int,
                    ),
                forall|t: int|
                    0 <= t < rows ==> (#[trigger] cw@[t]@) == row_dot(
                        hyd_row_of(self.c, self.interner, t),
                        xsp,
                        self.a.cols() as int,
                    ),
                xsp == vals(w@),
                self.witness@.len() <= w@.len(),
                forall|t: int|
                    0 <= t < self.witness@.len() ==> #[trigger] w@[t] == self.witness@[t],
                ok <==> (forall|t: int|
                    0 <= t < row ==> fmul(
                        row_dot(self.a_row(t), xsp, self.a.cols() as int),
                        row_dot(self.b_row(t), xsp, self.a.cols() as int),
                    ) == row_dot(self.c_row(t), xsp, self.a.cols() as int)),
            decreases rows - row,
        {
            let prod = aw[row].mul(bw[row]);
            let good = prod.eq_value(&cw[row]);
            proof {
                crate::sparse_matrix::lemma_row_dot_in_field(
                    self.c_row(row as int),
                    xsp,
                    self.a.cols() as int,
                );
                crate::field::lemma_in_field(cw@[row as int]);
            }
            ok = ok && good;
            row += 1;
        }
        proof {
            assert forall|t: int| 0 <= t < rows implies (fmul(
                row_dot(self.a_row(t), xsp, self.a.cols() as int),
                row_dot(self.b_row(t), xsp, self.a.cols() as int),
            ) == row_dot(self.c_row(t), xsp, self.a.cols() as int)
                <==> #[trigger] self.constraint_holds(t)) by {
                assert forall|c: int| #[trigger] self.a_row(t).dom().contains(c) implies 0 <= c
                    < self.witness@.len() by {
                    assert(self.a@[t].dom().contains(c));
                    if t >= self.filled() {
                        assert(self.a@[t].dom() =~= Set::empty());
                    }
                }
                assert forall|c: int| #[trigger] self.b_row(t).dom().contains(c) implies 0 <= c
                    < self.witness@.len() by {
                    assert(self.b@[t].dom().contains(c));
                    if t >= self.filled() {
                        assert(self.a@[t].dom() =~= Set::empty());
                        assert(self.b@[t].dom() =~= Set::empty());
                    }
                }
                assert forall|c: int| #[trigger] self.c_row(t).dom().contains(c) implies 0 <= c
                    < self.witness@.len() by {
                    assert(self.c@[t].dom().contains(c));
                    if t >= self.filled() {
                        assert(self.a@[t].dom() =~= Set::empty());
                        assert(self.c@[t].dom() =~= Set::empty());
                    }
                }
                assert(forall|c: int| 0 <= c < xs.len() ==> #[trigger] xs[c] == xsp[c]);
                lemma_row_dot_extend(self.a_row(t), xs, xsp, self.a.cols() as int);
                lemma_row_dot_extend(self.b_row(t), xs, xsp, self.a.cols() as int);
                lemma_row_dot_extend(self.c_row(t), xs, xsp, self.a.cols() as int);
            }
            if ok {
                assert forall|t: int| 0 <= t < self.a@.len() implies
                    #[trigger] self.constraint_holds(t) by {
                    assert(fmul(
                        row_dot(self.a_row(t), xsp, self.a.cols() as int),
                        row_dot(self.b_row(t), xsp, self.a.cols() as int),
                    ) == row_dot(self.c_row(t), xsp, self.a.cols() as int));
                }
            } else {
                let t = choose|t: int|
                    0 <= t < rows && fmul(
                        row_dot(self.a_row(t), xsp, self.a.cols() as int),
                        row_dot(self.b_row(t), xsp, self.a.cols() as int),
                    ) != row_dot(self.c_row(t), xsp, self.a.cols() as int);
                assert(!self.constraint_holds(t));
            }
        }
        ok
    }
}


impl R1CS {
    /// The number of witness slots (the width of the matrices).
    pub fn num_witnesses(&self) -> (r: usize)
        ensures
            r == self.a.cols(),
    {
        self.a.num_columns()
    }

    /// The number of constraint rows.
    pub fn num_constraints(&self) -> (r: usize)
        ensures
            r == self.a@.len(),
    {
        self.a.rows()
    }

    /// Matrix `A` with its handles resolved.
    pub fn a(&self) -> (r: crate::sparse_matrix::HydratedSparseMatrix<'_>)
        ensures
            r.matrix == &self.a,
            r.interner == &self.interner,
    {
        self.a.hydrate(&self.interner)
    }

    /// Matrix `B` with its handles resolved.
    pub fn b(&self) -> (r: crate::sparse_matrix::HydratedSparseMatrix<'_>)
        ensures
            r.matrix == &self.b,
            r.interner == &self.interner,
    {
        self.b.hydrate(&self.interner)
    }

    /// Matrix `C` with its handles resolved.
    pub fn c(&self) -> (r: crate::sparse_matrix::HydratedSparseMatrix<'_>)
        ensures
            r.matrix == &self.c,
            r.interner == &self.interner,
    {
        self.c.hydrate(&self.interner)
    }
}

/// A named witness position for the unsupported-opcode cause.
proof fn lemma_unsupported_witness(circuit: &Circuit, k: int)
    requires
        0 <= k < circuit.opcodes@.len(),
        match circuit.opcodes@[k] {
            Opcode::AssertZero(e) => !expr_supported(e),
            _ => true,
        },
    ensures
        exists|k2: int|
            0 <= k2 < circuit.opcodes@.len() && match #[trigger] circuit.opcodes@[k2] {
                Opcode::AssertZero(e) => !expr_supported(e),
                _ => true,
            },
{
    assert(0 <= k < circuit.opcodes@.len() && match #[trigger] circuit.opcodes@[k] {
        Opcode::AssertZero(e) => !expr_supported(e),
        _ => true,
    });
}

/// A named witness position for the out-of-range-index cause.
proof fn lemma_unbounded_witness(circuit: &Circuit, k: int, bound: int)
    requires
        0 <= k < circuit.opcodes@.len(),
        match circuit.opcodes@[k] {
            Opcode::AssertZero(e) => !expr_bounded(e, bound),
            _ => false,
        },
    ensures
        exists|k2: int|
            0 <= k2 < circuit.opcodes@.len() && match #[trigger] circuit.opcodes@[k2] {
                Opcode::AssertZero(e) => !expr_bounded(e, bound),
                _ => false,
            },
{
    assert(0 <= k < circuit.opcodes@.len() && match #[trigger] circuit.opcodes@[k] {
        Opcode::AssertZero(e) => !expr_bounded(e, bound),
        _ => false,
    });
}


} // verus!
