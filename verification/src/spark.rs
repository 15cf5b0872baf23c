//! The sparsity argument: committing to a sparse matrix's nonzero entries
//! together with a memory-checked access pattern.
//!
//! The matrix is flattened into coordinate form; the claimed evaluation is
//! reduced by a product sumcheck over the entry values and the two memory
//! tables `e_rx`, `e_ry`, and the access timestamps are tied together by
//! grand-product arguments over the initialization and final memories.

use crate::compiler::R1CS;
use crate::errors::Error;
use crate::field::{vals, FieldElement};
use crate::grand_product_argument::{
    fingerprints, init_addrs, seq_product, zero_col, GrandProductArgument,
};
use crate::sparse_matrix::HydratedSparseMatrix;
use crate::sumcheck::{
    calculate_evaluations_over_boolean_hypercube_for_eq, eq_point, eval_qubic_poly, fold_table,
    product3_round_evals, round_coefficients,
};
use crate::transcript::{ProverTranscript, VerifierTranscript};
use crate::field::fadd;
use crate::sumcheck::eval_cubic;
use crate::whir_r1cs::{
    ceil_log2, coeffs_canonical, decoded_coeffs, lemma_replay_fail_claim,
    lemma_replay_fail_parse, lemma_replay_step, new_whir_config_for_size, rounds_replay,
    WhirConfig,
};
use vstd::arithmetic::power2::pow2;
use vstd::prelude::*;

verus! {

/// The coordinate form of the three matrices of an R1CS, with their access
/// timestamps.
#[derive(Debug)]
pub struct SparkR1CS {
    /// The flattened matrix `A`.
    pub a: SparkMatrix,
    /// The flattened matrix `B`.
    pub b: SparkMatrix,
    /// The flattened matrix `C`.
    pub c: SparkMatrix,
}

/// One flattened matrix with its timestamps.
#[derive(Debug)]
pub struct SparkMatrix {
    /// The coordinate representation.
    pub coo: COOMatrix,
    /// The read and final timestamps of its access pattern.
    pub timestamps: TimeStamps,
}

/// A matrix in coordinate form: parallel row, column and value vectors.
#[derive(Debug)]
pub struct COOMatrix {
    /// Row indices, as scalars.
    pub row: Vec<FieldElement>,
    /// Column indices, as scalars.
    pub col: Vec<FieldElement>,
    /// Entry values.
    pub val: Vec<FieldElement>,
}

/// Offline memory-checking timestamps for one matrix.
#[derive(Debug)]
pub struct TimeStamps {
    /// Per-entry read counter of its row.
    pub read_row: Vec<FieldElement>,
    /// Per-entry read counter of its column.
    pub read_col: Vec<FieldElement>,
    /// Final read count of every row.
    pub final_row: Vec<FieldElement>,
    /// Final read count of every column.
    pub final_col: Vec<FieldElement>,
}

/// The eq-expansion tables of the evaluation point.
#[derive(Debug)]
pub struct Memory {
    /// `eq(row-point, x)` over the row hypercube.
    pub eq_rx: Vec<FieldElement>,
    /// `eq(col-point, y)` over the column hypercube.
    pub eq_ry: Vec<FieldElement>,
}

/// The memory values read along one matrix's entries.
#[derive(Debug)]
pub struct EValuesForMatrix {
    /// `eq_rx[row]` for every entry.
    pub e_rx: Vec<FieldElement>,
    /// `eq_ry[col]` for every entry.
    pub e_ry: Vec<FieldElement>,
}

/// The memory values for all three matrices.
#[derive(Debug)]
pub struct EValues {
    /// For matrix `A`.
    pub a: EValuesForMatrix,
    /// For matrix `B`.
    pub b: EValuesForMatrix,
    /// For matrix `C`.
    pub c: EValuesForMatrix,
}

/// The evaluation point of a sparsity request.
#[derive(Clone, Debug)]
pub struct Point {
    /// The row coordinates.
    pub row: Vec<FieldElement>,
    /// The column coordinates.
    pub col: Vec<FieldElement>,
}

/// The claimed evaluations of the three matrices at the request point.
#[derive(Clone, Copy, Debug)]
pub struct ClaimedValues {
    /// The claimed value of `A` at the point.
    pub a: FieldElement,
    /// The claimed value of `B` at the point.
    pub b: FieldElement,
    /// The claimed value of `C` at the point.
    pub c: FieldElement,
}

/// A sparsity-argument request: the point and the claimed values.
#[derive(Clone, Debug)]
pub struct SPARKRequest {
    /// Where the matrices are claimed to evaluate.
    pub point_to_evaluate: Point,
    /// The claimed evaluations.
    pub claimed_values: ClaimedValues,
}

/// A sparsity-argument proof: the transcript with the configuration that
/// produced it.
#[derive(Debug)]
pub struct SPARKProof {
    /// The serialized transcript.
    pub transcript: Vec<u8>,
    /// The domain-separation label the transcript was built under.
    pub io_pattern: Vec<u8>,
    /// The commitment configurations used.
    pub whir_params: SPARKWHIRConfigs,
    /// The shape of the matrices argued over.
    pub matrix_dimensions: MatrixDimensions,
}

/// The shape of an R1CS, as carried inside a sparsity proof.
#[derive(Clone, Copy, Debug)]
pub struct MatrixDimensions {
    /// Constraint rows.
    pub num_rows: usize,
    /// Witness columns.
    pub num_cols: usize,
    /// Nonzero entries of `A`.
    pub a_nonzero_terms: usize,
    /// Nonzero entries of `B`.
    pub b_nonzero_terms: usize,
    /// Nonzero entries of `C`.
    pub c_nonzero_terms: usize,
}

/// The commitment configurations of a sparsity argument.
#[derive(Clone, Copy, Debug)]
pub struct SPARKWHIRConfigs {
    /// Sized to the rows.
    pub row: WhirConfig,
    /// Sized to the columns.
    pub col: WhirConfig,
    /// Sized to `A`'s entries.
    pub a: WhirConfig,
    /// Sized to `B`'s entries.
    pub b: WhirConfig,
    /// Sized to `C`'s entries.
    pub c: WhirConfig,
}

/// Read the shape of an R1CS.
pub fn calculate_matrix_dimensions(r1cs: &R1CS) -> (r: MatrixDimensions)
    ensures
        r.num_rows == r1cs.a@.len(),
        r.num_cols == r1cs.a.cols(),
        r.a_nonzero_terms == r1cs.a.entry_count(),
        r.b_nonzero_terms == r1cs.b.entry_count(),
        r.c_nonzero_terms == r1cs.c.entry_count(),
{
    MatrixDimensions {
        num_rows: r1cs.num_constraints(),
        num_cols: r1cs.num_witnesses(),
        a_nonzero_terms: r1cs.a.num_entries(),
        b_nonzero_terms: r1cs.b.num_entries(),
        c_nonzero_terms: r1cs.c.num_entries(),
    }
}

/// Derive the commitment configurations from an R1CS.
pub fn create_whir_configs(r1cs: &R1CS) -> (r: SPARKWHIRConfigs)
    ensures
        pow2(r.row.num_variables as nat) >= r1cs.a@.len(),
        pow2(r.col.num_variables as nat) >= r1cs.a.cols(),
        pow2(r.a.num_variables as nat) >= r1cs.a.entry_count(),
        pow2(r.b.num_variables as nat) >= r1cs.b.entry_count(),
        pow2(r.c.num_variables as nat) >= r1cs.c.entry_count(),
{
    SPARKWHIRConfigs {
        row: new_whir_config_for_size(ceil_log2(r1cs.num_constraints())),
        col: new_whir_config_for_size(ceil_log2(r1cs.num_witnesses())),
        a: new_whir_config_for_size(ceil_log2(r1cs.a.num_entries())),
        b: new_whir_config_for_size(ceil_log2(r1cs.b.num_entries())),
        c: new_whir_config_for_size(ceil_log2(r1cs.c.num_entries())),
    }
}

/// The domain-separation label of a sparsity-argument transcript.
pub fn create_io_pattern(r1cs: &R1CS, configs: &SPARKWHIRConfigs) -> (r: Vec<u8>)
    ensures
        r@.len() == 16,
{
    let mut label = vstd::bytes::u64_to_le_bytes(r1cs.num_constraints() as u64);
    let tail = vstd::bytes::u64_to_le_bytes(configs.a.num_variables as u64);
    label.extend_from_slice(tail.as_slice());
    proof {
        assert(label@.len() == 16);
    }
    label
}

/// Whether `es` is the row-major coordinate listing of a matrix view:
/// strictly ordered, every listed pair a stored entry, and every stored
/// entry listed.
pub open spec fn listing_of(
    es: Seq<(int, int)>,
    m: Seq<Map<int, crate::interner::InternedFieldElement>>,
) -> bool {
    &&& forall|a: int, b: int|
        0 <= a < b < es.len() ==> (es[a].0 < es[b].0 || (es[a].0 == es[b].0 && es[a].1
            < es[b].1))
    &&& forall|a: int|
        0 <= a < es.len() ==> 0 <= (#[trigger] es[a]).0 < m.len() && m[es[a].0].dom().contains(
            es[a].1,
        )
    &&& forall|i: int, c: int|
        0 <= i < m.len() && #[trigger] m[i].dom().contains(c) ==> exists|a: int|
            0 <= a < es.len() && #[trigger] es[a] == (i, c)
}

/// The coordinate representation of a matrix, entries in row-major order.
pub fn get_coordinate_rep_of_a_matrix(matrix: &HydratedSparseMatrix) -> (r: COOMatrix)
    requires
        matrix.matrix.wf(),
        matrix.compatible(),
    ensures
        r.row@.len() == r.col@.len(),
        r.col@.len() == r.val@.len(),
        exists|es: Seq<(int, int)>|
            {
                &&& #[trigger] listing_of(es, matrix.matrix@)
                &&& es.len() == r.val@.len()
                &&& forall|a: int|
                    0 <= a < es.len() ==> (#[trigger] r.row@[a]@) == es[a].0
                        % crate::field::p()
                &&& forall|a: int|
                    0 <= a < es.len() ==> (#[trigger] r.col@[a]@) == es[a].1
                        % crate::field::p()
                &&& forall|a: int|
                    0 <= a < es.len() ==> (#[trigger] r.val@[a]@) == matrix.entry_or_zero(
                        es[a].0,
                        es[a].1,
                    )
            },
{
    let entries = matrix.iter();
    let ghost es = Seq::new(
        entries@.len(),
        |a: int| (entries@[a].0.0 as int, entries@[a].0.1 as int),
    );
    proof {
        matrix.matrix.lemma_dom_in_range();
        assert forall|i2: int, c: int|
            0 <= i2 < matrix.matrix@.len() && #[trigger] matrix.matrix@[i2].dom().contains(
                c,
            ) implies exists|a: int| 0 <= a < es.len() && #[trigger] es[a] == (i2, c) by {
            assert(0 <= c < matrix.matrix.cols());
            assert(exists|a: int|
                0 <= a < entries@.len() && #[trigger] entries@[a].0 == ((
                i2 as usize,
                c as usize,
            )));
            let a = choose|a: int|
                0 <= a < entries@.len() && #[trigger] entries@[a].0 == ((
                i2 as usize,
                c as usize,
            ));
            assert(es[a] == (i2, c));
        }
        assert(listing_of(es, matrix.matrix@));
    }
    let mut row: Vec<FieldElement> = Vec::new();
    let mut col: Vec<FieldElement> = Vec::new();
    let mut val: Vec<FieldElement> = Vec::new();
    let mut i: usize = 0;
    while i < entries.len()
        invariant
            i <= entries@.len(),
            row@.len() == i,
            col@.len() == i,
            val@.len() == i,
            es.len() == entries@.len(),
            listing_of(es, matrix.matrix@),
            matrix.matrix.wf(),
            matrix.compatible(),
            forall|a: int|
                0 <= a < es.len() ==> #[trigger] es[a] == (
                    entries@[a].0.0 as int,
                    entries@[a].0.1 as int,
                ),
            forall|a: int|
                0 <= a < entries@.len() ==> (#[trigger] entries@[a].1@)
                    == matrix.entry_or_zero(entries@[a].0.0 as int, entries@[a].0.1 as int),
            forall|a: int| 0 <= a < i ==> (#[trigger] row@[a]@) == es[a].0 % crate::field::p(),
            forall|a: int| 0 <= a < i ==> (#[trigger] col@[a]@) == es[a].1 % crate::field::p(),
            forall|a: int|
                0 <= a < i ==> (#[trigger] val@[a]@) == matrix.entry_or_zero(es[a].0, es[a].1),
        decreases entries@.len() - i,
    {
        let ((r0, c0), v0) = entries[i];
        row.push(FieldElement::from_u64(r0 as u64));
        col.push(FieldElement::from_u64(c0 as u64));
        val.push(v0);
        i += 1;
    }
    COOMatrix { row, col, val }
}

/// How many of the first `n` listed entries lie in row `row`.
pub open spec fn row_reads(es: Seq<(int, int)>, n: int, row: int) -> int
    decreases n,
{
    if n <= 0 {
        0
    } else {
        row_reads(es, n - 1, row) + if es[n - 1].0 == row {
            1int
        } else {
            0int
        }
    }
}

/// How many of the first `n` listed entries lie in column `col`.
pub open spec fn col_reads(es: Seq<(int, int)>, n: int, col: int) -> int
    decreases n,
{
    if n <= 0 {
        0
    } else {
        col_reads(es, n - 1, col) + if es[n - 1].1 == col {
            1int
        } else {
            0int
        }
    }
}

/// Read counts never exceed the number of entries counted.
proof fn lemma_reads_le(es: Seq<(int, int)>, n: int, key: int)
    requires
        n >= 0,
    ensures
        0 <= row_reads(es, n, key) <= n,
        0 <= col_reads(es, n, key) <= n,
    decreases n,
{
    if n > 0 {
        lemma_reads_le(es, n - 1, key);
    }
}

/// The per-entry and final read timestamps of a matrix's access pattern.
pub fn calculate_timestamps(matrix: &HydratedSparseMatrix) -> (r: TimeStamps)
    requires
        matrix.matrix.wf(),
        matrix.compatible(),
    ensures
        r.read_row@.len() == r.read_col@.len(),
        r.final_row@.len() == matrix.matrix@.len(),
        r.final_col@.len() == matrix.matrix.cols(),
        exists|es: Seq<(int, int)>|
            {
                &&& #[trigger] listing_of(es, matrix.matrix@)
                &&& es.len() == r.read_row@.len()
                &&& forall|t: int|
                    0 <= t < es.len() ==> (#[trigger] r.read_row@[t]@) == row_reads(
                        es,
                        t,
                        es[t].0,
                    ) % crate::field::p()
                &&& forall|t: int|
                    0 <= t < es.len() ==> (#[trigger] r.read_col@[t]@) == col_reads(
                        es,
                        t,
                        es[t].1,
                    ) % crate::field::p()
                &&& forall|i: int|
                    0 <= i < r.final_row@.len() ==> (#[trigger] r.final_row@[i]@) == row_reads(
                        es,
                        es.len() as int,
                        i,
                    ) % crate::field::p()
                &&& forall|c: int|
                    0 <= c < r.final_col@.len() ==> (#[trigger] r.final_col@[c]@) == col_reads(
                        es,
                        es.len() as int,
                        c,
                    ) % crate::field::p()
            },
{
    let nrows = matrix.matrix.rows();
    let ncols = matrix.matrix.num_columns();
    let mut read_row_counters: Vec<u64> = Vec::new();
    let mut i: usize = 0;
    while i < nrows
        invariant
            i <= nrows,
            read_row_counters@.len() == i,
            forall|a: int| 0 <= a < i ==> (#[trigger] read_row_counters@[a]) == 0,
        decreases nrows - i,
    {
        read_row_counters.push(0);
        i += 1;
    }
    let mut read_col_counters: Vec<u64> = Vec::new();
    let mut j: usize = 0;
    while j < ncols
        invariant
            j <= ncols,
            read_col_counters@.len() == j,
            forall|a: int| 0 <= a < j ==> (#[trigger] read_col_counters@[a]) == 0,
        decreases ncols - j,
    {
        read_col_counters.push(0);
        j += 1;
    }
    let entries = matrix.iter();
    let ghost es = Seq::new(
        entries@.len(),
        |a: int| (entries@[a].0.0 as int, entries@[a].0.1 as int),
    );
    proof {
        matrix.matrix.lemma_dom_in_range();
        assert forall|i2: int, c: int|
            0 <= i2 < matrix.matrix@.len() && #[trigger] matrix.matrix@[i2].dom().contains(
                c,
            ) implies exists|a: int| 0 <= a < es.len() && #[trigger] es[a] == (i2, c) by {
            assert(0 <= c < matrix.matrix.cols());
            assert(exists|a: int|
                0 <= a < entries@.len() && #[trigger] entries@[a].0 == ((
                i2 as usize,
                c as usize,
            )));
            let a = choose|a: int|
                0 <= a < entries@.len() && #[trigger] entries@[a].0 == ((
                i2 as usize,
                c as usize,
            ));
            assert(es[a] == (i2, c));
        }
        assert(listing_of(es, matrix.matrix@));
    }
    let mut read_row: Vec<FieldElement> = Vec::new();
    let mut read_col: Vec<FieldElement> = Vec::new();
    let mut t: usize = 0;
    while t < entries.len()
        invariant
            t <= entries@.len(),
            read_row@.len() == t,
            read_col@.len() == t,
            read_row_counters@.len() == nrows,
            read_col_counters@.len() == ncols,
            nrows == matrix.matrix@.len(),
            ncols == matrix.matrix.cols(),
            es.len() == entries@.len(),
            listing_of(es, matrix.matrix@),
            forall|a: int|
                0 <= a < es.len() ==> #[trigger] es[a] == (
                    entries@[a].0.0 as int,
                    entries@[a].0.1 as int,
                ),
            forall|a: int|
                0 <= a < entries@.len() ==> (#[trigger] entries@[a].0.0 as int)
                    < matrix.matrix@.len() && (entries@[a].0.1 as int) < matrix.matrix.cols(),
            forall|row: int|
                0 <= row < nrows ==> (#[trigger] read_row_counters@[row]) as int == row_reads(
                    es,
                    t as int,
                    row,
                ),
            forall|col: int|
                0 <= col < ncols ==> (#[trigger] read_col_counters@[col]) as int == col_reads(
                    es,
                    t as int,
                    col,
                ),
            forall|a: int|
                0 <= a < t ==> (#[trigger] read_row@[a]@) == row_reads(es, a, es[a].0)
                    % crate::field::p(),
            forall|a: int|
                0 <= a < t ==> (#[trigger] read_col@[a]@) == col_reads(es, a, es[a].1)
                    % crate::field::p(),
        decreases entries@.len() - t,
    {
        let ((r0, c0), _) = entries[t];
        proof {
            lemma_reads_le(es, t as int, r0 as int);
            lemma_reads_le(es, t as int, c0 as int);
        }
        let cur_r = read_row_counters[r0];
        read_row.push(FieldElement::from_u64(cur_r));
        if cur_r < u64::MAX {
            read_row_counters[r0] = cur_r + 1;
        }
        let cur_c = read_col_counters[c0];
        read_col.push(FieldElement::from_u64(cur_c));
        if cur_c < u64::MAX {
            read_col_counters[c0] = cur_c + 1;
        }
        proof {
            assert(es[t as int] == (r0 as int, c0 as int));
            assert forall|row: int|
                0 <= row < nrows implies (#[trigger] read_row_counters@[row]) as int
                    == row_reads(es, t as int + 1, row) by {
                if row == r0 as int {
                    assert(row_reads(es, t as int + 1, row) == row_reads(es, t as int, row) + 1);
                } else {
                    assert(row_reads(es, t as int + 1, row) == row_reads(es, t as int, row));
                }
            }
            assert forall|col: int|
                0 <= col < ncols implies (#[trigger] read_col_counters@[col]) as int
                    == col_reads(es, t as int + 1, col) by {
                if col == c0 as int {
                    assert(col_reads(es, t as int + 1, col) == col_reads(es, t as int, col) + 1);
                } else {
                    assert(col_reads(es, t as int + 1, col) == col_reads(es, t as int, col));
                }
            }
        }
        t += 1;
    }
    let mut final_row: Vec<FieldElement> = Vec::new();
    let mut a: usize = 0;
    while a < nrows
        invariant
            a <= nrows,
            final_row@.len() == a,
            read_row_counters@.len() == nrows,
            es.len() == entries@.len(),
            forall|row: int|
                0 <= row < nrows ==> (#[trigger] read_row_counters@[row]) as int == row_reads(
                    es,
                    es.len() as int,
                    row,
                ),
            forall|u: int|
                0 <= u < a ==> (#[trigger] final_row@[u]@) == row_reads(es, es.len() as int, u)
                    % crate::field::p(),
        decreases nrows - a,
    {
        final_row.push(FieldElement::from_u64(read_row_counters[a]));
        a += 1;
    }
    let mut final_col: Vec<FieldElement> = Vec::new();
    let mut b: usize = 0;
    while b < ncols
        invariant
            b <= ncols,
            final_col@.len() == b,
            read_col_counters@.len() == ncols,
            es.len() == entries@.len(),
            forall|col: int|
                0 <= col < ncols ==> (#[trigger] read_col_counters@[col]) as int == col_reads(
                    es,
                    es.len() as int,
                    col,
                ),
            forall|u: int|
                0 <= u < b ==> (#[trigger] final_col@[u]@) == col_reads(es, es.len() as int, u)
                    % crate::field::p(),
        decreases ncols - b,
    {
        final_col.push(FieldElement::from_u64(read_col_counters[b]));
        b += 1;
    }
    TimeStamps { read_row, read_col, final_row, final_col }
}

/// Flatten one matrix with its timestamps.
pub fn get_spark_matrix(matrix: &HydratedSparseMatrix) -> (r: SparkMatrix)
    requires
        matrix.matrix.wf(),
        matrix.compatible(),
    ensures
        r.coo.row@.len() == r.coo.val@.len(),
{
    SparkMatrix {
        coo: get_coordinate_rep_of_a_matrix(matrix),
        timestamps: calculate_timestamps(matrix),
    }
}

/// Flatten all three matrices of an R1CS.
pub fn get_spark_r1cs(r1cs: &R1CS) -> (r: SparkR1CS)
    requires
        r1cs.wf(),
{
    SparkR1CS {
        a: get_spark_matrix(&r1cs.a()),
        b: get_spark_matrix(&r1cs.b()),
        c: get_spark_matrix(&r1cs.c()),
    }
}

/// The eq-expansions of the request point over both hypercubes.
pub fn calculate_memory(point_to_evaluate: Point) -> (r: Memory)
    requires
        point_to_evaluate.row@.len() < 30,
        point_to_evaluate.col@.len() < 30,
    ensures
        r.eq_rx@.len() == pow2(point_to_evaluate.row@.len()),
        r.eq_ry@.len() == pow2(point_to_evaluate.col@.len()),
        forall|x: int|
            0 <= x < r.eq_rx@.len() ==> (#[trigger] r.eq_rx@[x]@) == eq_point(
                vals(point_to_evaluate.row@),
                x,
            ),
        forall|x: int|
            0 <= x < r.eq_ry@.len() ==> (#[trigger] r.eq_ry@[x]@) == eq_point(
                vals(point_to_evaluate.col@),
                x,
            ),
{
    Memory {
        eq_rx: calculate_evaluations_over_boolean_hypercube_for_eq(&point_to_evaluate.row),
        eq_ry: calculate_evaluations_over_boolean_hypercube_for_eq(&point_to_evaluate.col),
    }
}

/// The memory values read along one matrix's entries.
pub fn calculate_e_values_for_matrix(memory: &Memory, matrix: &HydratedSparseMatrix) -> (r:
    EValuesForMatrix)
    requires
        matrix.matrix.wf(),
        matrix.compatible(),
        matrix.matrix@.len() <= memory.eq_rx@.len(),
        matrix.matrix.cols() <= memory.eq_ry@.len(),
    ensures
        r.e_rx@.len() == r.e_ry@.len(),
        exists|es: Seq<(int, int)>|
            {
                &&& #[trigger] listing_of(es, matrix.matrix@)
                &&& es.len() == r.e_rx@.len()
                &&& forall|a: int|
                    0 <= a < es.len() ==> #[trigger] r.e_rx@[a] == memory.eq_rx@[es[a].0]
                &&& forall|a: int|
                    0 <= a < es.len() ==> #[trigger] r.e_ry@[a] == memory.eq_ry@[es[a].1]
            },
{
    let entries = matrix.iter();
    let ghost es = Seq::new(
        entries@.len(),
        |a: int| (entries@[a].0.0 as int, entries@[a].0.1 as int),
    );
    proof {
        matrix.matrix.lemma_dom_in_range();
        assert forall|i2: int, c: int|
            0 <= i2 < matrix.matrix@.len() && #[trigger] matrix.matrix@[i2].dom().contains(
                c,
            ) implies exists|a: int| 0 <= a < es.len() && #[trigger] es[a] == (i2, c) by {
            assert(0 <= c < matrix.matrix.cols());
            assert(exists|a: int|
                0 <= a < entries@.len() && #[trigger] entries@[a].0 == ((
                i2 as usize,
                c as usize,
            )));
            let a = choose|a: int|
                0 <= a < entries@.len() && #[trigger] entries@[a].0 == ((
                i2 as usize,
                c as usize,
            ));
            assert(es[a] == (i2, c));
        }
        assert(listing_of(es, matrix.matrix@));
    }
    let mut e_rx: Vec<FieldElement> = Vec::new();
    let mut e_ry: Vec<FieldElement> = Vec::new();
    let mut i: usize = 0;
    while i < entries.len()
        invariant
            i <= entries@.len(),
            e_rx@.len() == i,
            e_ry@.len() == i,
            es.len() == entries@.len(),
            listing_of(es, matrix.matrix@),
            matrix.matrix@.len() <= memory.eq_rx@.len(),
            matrix.matrix.cols() <= memory.eq_ry@.len(),
            forall|a: int|
                0 <= a < es.len() ==> #[trigger] es[a] == (
                    entries@[a].0.0 as int,
                    entries@[a].0.1 as int,
                ),
            forall|a: int|
                0 <= a < entries@.len() ==> (#[trigger] entries@[a].0.0 as int)
                    < matrix.matrix@.len() && (entries@[a].0.1 as int) < matrix.matrix.cols(),
            forall|a: int| 0 <= a < i ==> #[trigger] e_rx@[a] == memory.eq_rx@[es[a].0],
            forall|a: int| 0 <= a < i ==> #[trigger] e_ry@[a] == memory.eq_ry@[es[a].1],
        decreases entries@.len() - i,
    {
        let ((r0, c0), _) = entries[i];
        e_rx.push(memory.eq_rx[r0]);
        e_ry.push(memory.eq_ry[c0]);
        i += 1;
    }
    EValuesForMatrix { e_rx, e_ry }
}

/// The memory values for all three matrices of an R1CS.
pub fn calculate_e_values_for_r1cs(memory: &Memory, r1cs: &R1CS) -> (r: EValues)
    requires
        r1cs.wf(),
        r1cs.a@.len() <= memory.eq_rx@.len(),
        r1cs.a.cols() <= memory.eq_ry@.len(),
    ensures
        r.a.e_rx@.len() == r.a.e_ry@.len(),
{
    EValues {
        a: calculate_e_values_for_matrix(memory, &r1cs.a()),
        b: calculate_e_values_for_matrix(memory, &r1cs.b()),
        c: calculate_e_values_for_matrix(memory, &r1cs.c()),
    }
}

/// The product sumcheck over three flattened tables: the transcript and the
/// outputs follow [`product3_walk`] from the claimed value, and the three
/// final folds are hinted into the transcript.
#[verifier::rlimit(100)]
#[verifier::spinoff_prover]
pub fn run_spark_sumcheck(
    merlin: &mut ProverTranscript,
    mle0: Vec<FieldElement>,
    mle1: Vec<FieldElement>,
    mle2: Vec<FieldElement>,
    claimed_value: FieldElement,
) -> (out: ([FieldElement; 3], Vec<FieldElement>))
    requires
        exists|k: nat| k < 30 && mle0@.len() == pow2(k),
        mle1@.len() == mle0@.len(),
        mle2@.len() == mle0@.len(),
    ensures
        ({
            let k = choose|k: nat| k < 30 && mle0@.len() == pow2(k);
            let w = crate::grand_product_argument::product3_walk(
                vals(mle0@),
                vals(mle1@),
                vals(mle2@),
                claimed_value@,
                old(merlin).absorbed(),
                k,
            );
            &&& out.1@.len() == k
            &&& vals(out.1@) == w.2
            &&& out.0@[0]@ == w.3[0] && out.0@[1]@ == w.4[0] && out.0@[2]@ == w.5[0]
            &&& final(merlin).data() == old(merlin).data() + w.1 + crate::transcript::encode3(
                seq![w.3[0], w.4[0], w.5[0]],
            )
            &&& final(merlin).absorbed() == w.0 + crate::transcript::encode3(
                seq![w.3[0], w.4[0], w.5[0]],
            )
        }),
{
    let ghost k = choose|k: nat| k < 30 && mle0@.len() == pow2(k);
    let mut m0 = mle0;
    let mut m1 = mle1;
    let mut m2 = mle2;
    let mut claim = claimed_value;
    let mut acc: Vec<FieldElement> = Vec::new();
    proof {
        vstd::arithmetic::power2::lemma2_to64();
        vstd::arithmetic::power2::lemma_pow2_strictly_increases(k, 30);
    }
    let ghost full = crate::grand_product_argument::product3_walk(
        vals(m0@),
        vals(m1@),
        vals(m2@),
        claim@,
        merlin.absorbed(),
        k,
    );
    let ghost mut consumed: Seq<u8> = Seq::empty();
    let ghost mut tgt_data = full.1;
    let ghost mut tgt_alphas = full.2;
    let ghost data0 = merlin.data();
    proof {
        assert(data0 + consumed =~= data0);
        assert(consumed + tgt_data =~= full.1);
        assert(vals(acc@) + tgt_alphas =~= full.2);
    }
    let mut round: usize = 0;
    while m0.len() > 1
        invariant
            round <= k,
            k < 30,
            acc@.len() == round,
            m0@.len() == pow2((k - round) as nat),
            m1@.len() == m0@.len(),
            m2@.len() == m0@.len(),
            crate::grand_product_argument::product3_walk(
                vals(m0@),
                vals(m1@),
                vals(m2@),
                claim@,
                merlin.absorbed(),
                (k - round) as nat,
            ) == (full.0, tgt_data, tgt_alphas, full.3, full.4, full.5),
            merlin.data() == data0 + consumed,
            consumed + tgt_data == full.1,
            vals(acc@) + tgt_alphas == full.2,
        decreases m0@.len(),
    {
        proof {
            if round == k {
                vstd::arithmetic::power2::lemma2_to64();
                assert(m0@.len() == pow2(0));
            }
            vstd::arithmetic::power2::lemma_pow2_unfold((k - round) as nat);
            vstd::arithmetic::power2::lemma_pow2_pos((k - round - 1) as nat);
        }
        let ghost cur0 = vals(m0@);
        let ghost cur1 = vals(m1@);
        let ghost cur2 = vals(m2@);
        let ghost claim0 = claim@;
        let ghost abs0 = merlin.absorbed();
        let ghost rem = (k - round) as nat;
        let (e0, em1, einf) = product3_round_evals(&m0, &m1, &m2);
        let coeffs = round_coefficients(&claim, &e0, &em1, &einf);
        let mut msg: Vec<FieldElement> = Vec::new();
        msg.push(coeffs[0]);
        msg.push(coeffs[1]);
        msg.push(coeffs[2]);
        msg.push(coeffs[3]);
        proof {
            assert(vals(msg@) =~= crate::grand_product_argument::product3_round_coeffs(
                cur0,
                cur1,
                cur2,
                claim0,
            ));
            crate::transcript::lemma_encode4(msg@);
        }
        merlin.add_scalars(&msg);
        let ch = merlin.challenge_scalars(1);
        let alpha_i = ch[0];
        m0 = fold_table(&m0, &alpha_i);
        m1 = fold_table(&m1, &alpha_i);
        m2 = fold_table(&m2, &alpha_i);
        claim = eval_qubic_poly(&coeffs, &alpha_i);
        let ghost prev_alphas = vals(acc@);
        acc.push(alpha_i);
        proof {
            let cs = crate::grand_product_argument::product3_round_coeffs(
                cur0,
                cur1,
                cur2,
                claim0,
            );
            let msgb = crate::transcript::encode4(cs);
            let absorbed1 = abs0 + msgb;
            let stream = crate::transcript::xof_of(absorbed1, 16);
            let alpha_s = crate::transcript::challenge_scalar_at(stream, 0);
            assert(alpha_i@ == alpha_s);
            let rest = crate::grand_product_argument::product3_walk(
                crate::sumcheck::fold_spec(cur0, alpha_s),
                crate::sumcheck::fold_spec(cur1, alpha_s),
                crate::sumcheck::fold_spec(cur2, alpha_s),
                crate::sumcheck::eval_cubic(cs, alpha_s),
                absorbed1 + stream,
                (rem - 1) as nat,
            );
            assert(crate::grand_product_argument::product3_walk(
                cur0,
                cur1,
                cur2,
                claim0,
                abs0,
                rem,
            ) == (rest.0, msgb + rest.1, seq![alpha_s] + rest.2, rest.3, rest.4, rest.5));
            assert(vals(m0@) == crate::sumcheck::fold_spec(cur0, alpha_s)) by {
                assert(vals(m0@) =~= crate::sumcheck::fold_spec(cur0, alpha_s));
            }
            assert(vals(m1@) == crate::sumcheck::fold_spec(cur1, alpha_s)) by {
                assert(vals(m1@) =~= crate::sumcheck::fold_spec(cur1, alpha_s));
            }
            assert(vals(m2@) == crate::sumcheck::fold_spec(cur2, alpha_s)) by {
                assert(vals(m2@) =~= crate::sumcheck::fold_spec(cur2, alpha_s));
            }
            assert(claim@ == crate::sumcheck::eval_cubic(cs, alpha_s));
            assert(merlin.absorbed() == absorbed1 + stream);
            assert(merlin.data() == data0 + consumed + msgb);
            consumed = consumed + msgb;
            assert(tgt_data == msgb + rest.1);
            assert(tgt_alphas == seq![alpha_s] + rest.2);
            tgt_data = rest.1;
            tgt_alphas = rest.2;
            assert(merlin.data() =~= data0 + consumed);
            assert(consumed + tgt_data =~= full.1);
            assert(vals(acc@) =~= prev_alphas + seq![alpha_s]);
            assert((prev_alphas + seq![alpha_s]) + rest.2 =~= prev_alphas + (seq![alpha_s]
                + rest.2));
            assert(vals(acc@) + tgt_alphas =~= full.2);
        }
        round += 1;
    }
    proof {
        assert(round == k) by {
            if round < k {
                vstd::arithmetic::power2::lemma_pow2_unfold((k - round) as nat);
                vstd::arithmetic::power2::lemma_pow2_pos((k - round - 1) as nat);
            }
        }
        vstd::arithmetic::power2::lemma2_to64();
        assert(crate::grand_product_argument::product3_walk(
            vals(m0@),
            vals(m1@),
            vals(m2@),
            claim@,
            merlin.absorbed(),
            0,
        ) == (merlin.absorbed(), Seq::<u8>::empty(), Seq::<int>::empty(), vals(m0@), vals(m1@),
        vals(m2@)));
        assert(tgt_data =~= Seq::<u8>::empty());
        assert(tgt_alphas =~= Seq::<int>::empty());
        assert(consumed =~= full.1);
        assert(vals(acc@) =~= full.2);
        assert(vals(m0@) == full.3 && vals(m1@) == full.4 && vals(m2@) == full.5);
    }
    let folds = [m0[0], m1[0], m2[0]];
    let mut hint: Vec<FieldElement> = Vec::new();
    hint.push(folds[0]);
    hint.push(folds[1]);
    hint.push(folds[2]);
    proof {
        crate::transcript::lemma_encode3(hint@);
        assert(vals(hint@) =~= seq![full.3[0], full.4[0], full.5[0]]);
    }
    merlin.add_scalars(&hint);
    (folds, acc)
}

/// One verifier round: parse four coefficients, check them against the
/// running claim, and draw the round challenge.
fn verify_round(arthur: &mut VerifierTranscript, claim: &FieldElement) -> (out: Result<
    (FieldElement, FieldElement),
    Error,
>)
    ensures
        ({
            let bytes = old(arthur).data();
            let pos = old(arthur).pos();
            let parse_ok = pos + 32 <= bytes.len() && coeffs_canonical(bytes, pos);
            let cs = decoded_coeffs(bytes, pos);
            match out {
                Ok(d) => {
                    let absorbed1 = old(arthur).absorbed() + bytes.subrange(pos, pos + 32);
                    let stream = crate::transcript::xof_of(absorbed1, 16);
                    &&& parse_ok
                    &&& fadd(eval_cubic(cs, 0), eval_cubic(cs, 1)) == claim@
                    &&& d.0@ == crate::transcript::challenge_scalar_at(stream, 0)
                    &&& d.1@ == eval_cubic(cs, d.0@)
                    &&& final(arthur).pos() == pos + 32
                    &&& final(arthur).absorbed() == absorbed1 + stream
                    &&& final(arthur).data() == bytes
                },
                Err(e) => {
                    &&& final(arthur).data() == bytes
                    &&& ((e == Error::SerializationError && !parse_ok) || (e
                        == Error::SumcheckEqualityViolation && parse_ok && fadd(
                        eval_cubic(cs, 0),
                        eval_cubic(cs, 1),
                    ) != claim@))
                },
            }
        }),
{
    let ghost bytes = arthur.data();
    let ghost pos0 = arthur.pos();
    let h = match arthur.next_scalars(4) {
        Ok(h) => h,
        Err(_) => {
            proof {
                assert(!(pos0 + 32 <= bytes.len() && coeffs_canonical(bytes, pos0)));
            }
            return Err(Error::SerializationError);
        },
    };
    let coeffs = [h[0], h[1], h[2], h[3]];
    proof {
        assert(vals(coeffs@) =~= decoded_coeffs(bytes, pos0));
    }
    let at_zero = eval_qubic_poly(&coeffs, &FieldElement::zero());
    let at_one = eval_qubic_poly(&coeffs, &FieldElement::one());
    if !claim.eq_value(&at_zero.add(at_one)) {
        return Err(Error::SumcheckEqualityViolation);
    }
    let ch = arthur.challenge_scalars(1);
    let new_claim = eval_qubic_poly(&coeffs, &ch[0]);
    Ok((ch[0], new_claim))
}

/// The verifier of a sparsity sumcheck, starting from a claimed value: it
/// accepts exactly when the transcript replay of the rounds accepts, with
/// each failure kind fixed by the replay, and its outputs are the replay's
/// challenges and final claim.
#[verifier::rlimit(100)]
#[verifier::spinoff_prover]
pub fn run_sumcheck_verifier_spark(
    arthur: &mut VerifierTranscript,
    variable_count: usize,
    initial_sumcheck_val: FieldElement,
) -> (r: Result<(Vec<FieldElement>, FieldElement), Error>)
    requires
        variable_count < 30,
    ensures
        ({
            let rr = rounds_replay(
                old(arthur).data(),
                old(arthur).pos(),
                old(arthur).absorbed(),
                initial_sumcheck_val@,
                variable_count as nat,
            );
            match r {
                Ok(d) => {
                    &&& rr.0
                    &&& d.0@.len() == variable_count
                    &&& vals(d.0@) == rr.3
                    &&& d.1@ == rr.4
                    &&& final(arthur).pos() == rr.1
                    &&& final(arthur).absorbed() == rr.2
                    &&& final(arthur).data() == old(arthur).data()
                },
                Err(e) => {
                    &&& !rr.0
                    &&& e == crate::whir_r1cs::replay_error(
                        old(arthur).data(),
                        old(arthur).pos(),
                        old(arthur).absorbed(),
                        initial_sumcheck_val@,
                        variable_count as nat,
                    )
                    &&& (e == Error::SerializationError || e
                        == Error::SumcheckEqualityViolation)
                    &&& final(arthur).data() == old(arthur).data()
                },
            }
        }),
{
    let ghost data0 = arthur.data();
    let ghost full = rounds_replay(
        arthur.data(),
        arthur.pos(),
        arthur.absorbed(),
        initial_sumcheck_val@,
        variable_count as nat,
    );
    let ghost full_err = crate::whir_r1cs::replay_error(
        arthur.data(),
        arthur.pos(),
        arthur.absorbed(),
        initial_sumcheck_val@,
        variable_count as nat,
    );
    let mut claim = initial_sumcheck_val;
    let mut alpha: Vec<FieldElement> = Vec::new();
    let ghost mut tgt_alphas = full.3;
    let mut round: usize = 0;
    while round < variable_count
        invariant
            round <= variable_count,
            variable_count < 30,
            alpha@.len() == round,
            arthur.data() == data0,
            data0 == old(arthur).data(),
            full == rounds_replay(
                data0,
                old(arthur).pos(),
                old(arthur).absorbed(),
                initial_sumcheck_val@,
                variable_count as nat,
            ),
            full_err == crate::whir_r1cs::replay_error(
                data0,
                old(arthur).pos(),
                old(arthur).absorbed(),
                initial_sumcheck_val@,
                variable_count as nat,
            ),
            rounds_replay(
                data0,
                arthur.pos(),
                arthur.absorbed(),
                claim@,
                (variable_count - round) as nat,
            ) == (full.0, full.1, full.2, tgt_alphas, full.4),
            crate::whir_r1cs::replay_error(
                data0,
                arthur.pos(),
                arthur.absorbed(),
                claim@,
                (variable_count - round) as nat,
            ) == full_err,
            vals(alpha@) + tgt_alphas == full.3,
        decreases variable_count - round,
    {
        let ghost pos0 = arthur.pos();
        let ghost abs0 = arthur.absorbed();
        let ghost claim0 = claim@;
        let ghost rem = (variable_count - round) as nat;
        match verify_round(arthur, &claim) {
            Ok((alpha_i, new_claim)) => {
                let ghost prev_alphas = vals(alpha@);
                alpha.push(alpha_i);
                claim = new_claim;
                proof {
                    let cs = decoded_coeffs(data0, pos0);
                    let absorbed2 = abs0 + data0.subrange(pos0, pos0 + 32);
                    let stream = crate::transcript::xof_of(absorbed2, 16);
                    let alpha_s = crate::transcript::challenge_scalar_at(stream, 0);
                    let rest = rounds_replay(
                        data0,
                        pos0 + 32,
                        absorbed2 + stream,
                        eval_cubic(cs, alpha_s),
                        (rem - 1) as nat,
                    );
                    lemma_replay_step(data0, pos0, abs0, claim0, rem);
                    assert(rounds_replay(data0, pos0, abs0, claim0, rem) == (
                        rest.0,
                        rest.1,
                        rest.2,
                        seq![alpha_s] + rest.3,
                        rest.4,
                    ));
                    assert(alpha_i@ == alpha_s);
                    assert(claim@ == eval_cubic(cs, alpha_s));
                    assert(tgt_alphas == seq![alpha_s] + rest.3);
                    tgt_alphas = rest.3;
                    assert(vals(alpha@) =~= prev_alphas + seq![alpha_s]);
                    assert((prev_alphas + seq![alpha_s]) + rest.3 =~= prev_alphas + (seq![
                        alpha_s,
                    ] + rest.3));
                    assert(vals(alpha@) + tgt_alphas =~= full.3);
                }
            },
            Err(e) => {
                proof {
                    if e == Error::SerializationError {
                        lemma_replay_fail_parse(data0, pos0, abs0, claim0, rem);
                    } else {
                        let cs = decoded_coeffs(data0, pos0);
                        assert(fadd(eval_cubic(cs, 0), eval_cubic(cs, 1)) != claim0);
                        lemma_replay_fail_claim(data0, pos0, abs0, claim0, rem);
                    }
                    assert(!full.0);
                    assert(full_err == e);
                }
                return Err(e);
            },
        }
        round += 1;
    }
    proof {
        assert(rounds_replay(data0, arthur.pos(), arthur.absorbed(), claim@, 0) == (
            true,
            arthur.pos(),
            arthur.absorbed(),
            Seq::<int>::empty(),
            claim@,
        ));
        assert(tgt_alphas =~= Seq::<int>::empty());
        assert(vals(alpha@) =~= full.3);
    }
    Ok((alpha, claim))
}

/// Run a grand-product argument over the concatenation of two leaf vectors.
pub fn run_gpa(
    merlin: &mut ProverTranscript,
    left: &Vec<FieldElement>,
    right: &Vec<FieldElement>,
)
    requires
        left@.len() == right@.len(),
        exists|k: nat| k <= 27 && left@.len() == pow2(k),
    ensures
        final(merlin).data().len() >= old(merlin).data().len() + 8,
        final(merlin).data().subrange(0, old(merlin).data().len() as int) == old(merlin).data(),
        final(merlin).data().subrange(
            old(merlin).data().len() as int,
            old(merlin).data().len() as int + 8,
        ) == crate::field::encode_scalar(seq_product(vals(left@) + vals(right@))),
        ({
            let k = choose|k: nat| k <= 27 && left@.len() == pow2(k);
            let leaves = vals(left@) + vals(right@);
            let root_msg = crate::field::encode_scalar(seq_product(leaves));
            let l1 = crate::grand_product_argument::iter_pairs(leaves, k);
            let st0 = crate::grand_product_argument::line_step(
                l1[0],
                l1[1],
                old(merlin).absorbed() + root_msg,
            );
            let lw = crate::grand_product_argument::layers_walk(
                leaves,
                (k + 1) as nat,
                2,
                st0.2,
                fadd(l1[0], crate::field::fmul(st0.2, crate::field::fsub(l1[1], l1[0]))),
                Seq::empty(),
                st0.1,
            );
            &&& final(merlin).data() == old(merlin).data() + root_msg + st0.0 + lw.1
            &&& final(merlin).absorbed() == lw.0
        }),
{
    let mut h: Vec<FieldElement> = Vec::new();
    let mut i: usize = 0;
    while i < left.len()
        invariant
            i <= left@.len(),
            h@.len() == i,
            forall|t: int| 0 <= t < i ==> #[trigger] h@[t] == left@[t],
        decreases left@.len() - i,
    {
        h.push(left[i]);
        i += 1;
    }
    let mut j: usize = 0;
    while j < right.len()
        invariant
            j <= right@.len(),
            h@.len() == left@.len() + j,
            forall|t: int| 0 <= t < left@.len() ==> #[trigger] h@[t] == left@[t],
            forall|t: int|
                0 <= t < j ==> #[trigger] h@[left@.len() + t] == right@[t],
        decreases right@.len() - j,
    {
        h.push(right[j]);
        j += 1;
    }
    proof {
        let k = choose|k: nat| k <= 27 && left@.len() == pow2(k);
        vstd::arithmetic::power2::lemma_pow2_unfold(k + 1);
        assert(h@.len() == pow2(k + 1));
        assert forall|t: int| 0 <= t < h@.len() implies vals(h@)[t] == (vals(left@) + vals(
            right@,
        ))[t] by {
            if t < left@.len() {
                assert(h@[t] == left@[t]);
            } else {
                let u = t - left@.len();
                assert(h@[left@.len() + u] == right@[u]);
            }
        }
        assert(vals(h@) =~= vals(left@) + vals(right@));
        let kh = choose|k2: nat| k2 <= 28 && h@.len() == pow2(k2);
        assert(k + 1 <= 28 && h@.len() == pow2(k + 1));
        assert(kh == k + 1) by {
            if kh < k + 1 {
                vstd::arithmetic::power2::lemma_pow2_strictly_increases(kh, k + 1);
            } else if kh > k + 1 {
                vstd::arithmetic::power2::lemma_pow2_strictly_increases(k + 1, kh);
            }
        }
    }
    GrandProductArgument::prove_product(merlin, h);
}

/// The sparsity argument for one matrix: the product sumcheck over its
/// entries, then the grand product of the initialization and final memory
/// fingerprints under transcript-drawn `tau` and `gamma`, whose encoded
/// root follows the sumcheck messages in the proof bytes.
#[verifier::rlimit(60)]
#[verifier::spinoff_prover]
pub fn prove_spark_for_single_matrix(
    merlin: &mut ProverTranscript,
    matrix: SparkMatrix,
    memory: Memory,
    e_values: EValuesForMatrix,
    claimed_value: FieldElement,
) -> (r: Result<(), Error>)
    requires
        exists|k: nat| k < 30 && matrix.coo.val@.len() == pow2(k),
        e_values.e_rx@.len() == matrix.coo.val@.len(),
        e_values.e_ry@.len() == matrix.coo.val@.len(),
        exists|km: nat| km <= 27 && memory.eq_rx@.len() == pow2(km),
        matrix.timestamps.final_row@.len() == memory.eq_rx@.len(),
    ensures
        r is Ok,
        ({
            let k = choose|k: nat| k < 30 && matrix.coo.val@.len() == pow2(k);
            let w = crate::grand_product_argument::product3_walk(
                vals(matrix.coo.val@),
                vals(e_values.e_rx@),
                vals(e_values.e_ry@),
                claimed_value@,
                old(merlin).absorbed(),
                k,
            );
            let hint = crate::transcript::encode3(seq![w.3[0], w.4[0], w.5[0]]);
            let stream = crate::transcript::xof_of(w.0 + hint, 32);
            let tau = crate::transcript::challenge_scalar_at(stream, 0);
            let gamma = crate::transcript::challenge_scalar_at(stream, 1);
            let nm = memory.eq_rx@.len();
            let mid = old(merlin).data() + w.1 + hint;
            let lv = fingerprints(gamma, tau, init_addrs(nm), vals(memory.eq_rx@), zero_col(nm))
                + fingerprints(
                gamma,
                tau,
                init_addrs(nm),
                vals(memory.eq_rx@),
                vals(matrix.timestamps.final_row@),
            );
            let km = choose|km: nat| km <= 27 && memory.eq_rx@.len() == pow2(km);
            let root_msg = crate::field::encode_scalar(seq_product(lv));
            let gl1 = crate::grand_product_argument::iter_pairs(lv, km);
            let gabs = (w.0 + hint) + crate::transcript::xof_of(w.0 + hint, 32);
            let gst0 = crate::grand_product_argument::line_step(
                gl1[0],
                gl1[1],
                gabs + root_msg,
            );
            let glw = crate::grand_product_argument::layers_walk(
                lv,
                (km + 1) as nat,
                2,
                gst0.2,
                fadd(gl1[0], crate::field::fmul(gst0.2, crate::field::fsub(gl1[1], gl1[0]))),
                Seq::empty(),
                gst0.1,
            );
            &&& final(merlin).data().len() >= mid.len() + 8
            &&& final(merlin).data().subrange(0, mid.len() as int) == mid
            &&& final(merlin).data().subrange(mid.len() as int, mid.len() as int + 8)
                == root_msg
            &&& final(merlin).data() == mid + root_msg + gst0.0 + glw.1
            &&& final(merlin).absorbed() == glw.0
        }),
{
    let ghost k0 = choose|k: nat| k < 30 && matrix.coo.val@.len() == pow2(k);
    let ghost w = crate::grand_product_argument::product3_walk(
        vals(matrix.coo.val@),
        vals(e_values.e_rx@),
        vals(e_values.e_ry@),
        claimed_value@,
        merlin.absorbed(),
        k0,
    );
    let ghost data0 = merlin.data();
    let (_folds, _randomness) = run_spark_sumcheck(
        merlin,
        matrix.coo.val,
        e_values.e_rx,
        e_values.e_ry,
        claimed_value,
    );
    let ghost hint = crate::transcript::encode3(seq![w.3[0], w.4[0], w.5[0]]);
    let ghost mid = data0 + w.1 + hint;
    proof {
        assert(merlin.data() =~= mid);
        assert(merlin.absorbed() == w.0 + hint);
    }
    let tg = merlin.challenge_scalars(2);
    let tau = tg[0];
    let gamma = tg[1];
    proof {
        assert(tau@ == crate::transcript::challenge_scalar_at(
            crate::transcript::xof_of(w.0 + hint, 32),
            0,
        ));
        assert(gamma@ == crate::transcript::challenge_scalar_at(
            crate::transcript::xof_of(w.0 + hint, 32),
            1,
        ));
        assert(merlin.data() == mid);
    }
    let n = memory.eq_rx.len();
    let ghost fps_init = fingerprints(
        gamma@,
        tau@,
        init_addrs(n as nat),
        vals(memory.eq_rx@),
        zero_col(n as nat),
    );
    let ghost fps_fin = fingerprints(
        gamma@,
        tau@,
        init_addrs(n as nat),
        vals(memory.eq_rx@),
        vals(matrix.timestamps.final_row@),
    );
    let mut init_vec: Vec<FieldElement> = Vec::new();
    let mut final_vec: Vec<FieldElement> = Vec::new();
    let mut i: usize = 0;
    while i < n
        invariant
            i <= n,
            n == memory.eq_rx@.len(),
            matrix.timestamps.final_row@.len() == n,
            init_vec@.len() == i,
            final_vec@.len() == i,
            fps_init == fingerprints(
                gamma@,
                tau@,
                init_addrs(n as nat),
                vals(memory.eq_rx@),
                zero_col(n as nat),
            ),
            fps_fin == fingerprints(
                gamma@,
                tau@,
                init_addrs(n as nat),
                vals(memory.eq_rx@),
                vals(matrix.timestamps.final_row@),
            ),
            forall|t: int| 0 <= t < i ==> (#[trigger] init_vec@[t]@) == fps_init[t],
            forall|t: int| 0 <= t < i ==> (#[trigger] final_vec@[t]@) == fps_fin[t],
        decreases n - i,
    {
        let a = FieldElement::from_u64(i as u64);
        let v = memory.eq_rx[i];
        let init_t = FieldElement::zero();
        let final_t = matrix.timestamps.final_row[i];
        init_vec.push(
            GrandProductArgument::h(&gamma, &a, &v, &init_t).sub(tau),
        );
        final_vec.push(
            GrandProductArgument::h(&gamma, &a, &v, &final_t).sub(tau),
        );
        i += 1;
    }
    proof {
        assert(vals(init_vec@) =~= fps_init);
        assert(vals(final_vec@) =~= fps_fin);
        let km = choose|km: nat| km <= 27 && memory.eq_rx@.len() == pow2(km);
        let kc = choose|k2: nat| k2 <= 27 && init_vec@.len() == pow2(k2);
        assert(km <= 27 && init_vec@.len() == pow2(km));
        assert(kc == km) by {
            if kc < km {
                vstd::arithmetic::power2::lemma_pow2_strictly_increases(kc, km);
            } else if kc > km {
                vstd::arithmetic::power2::lemma_pow2_strictly_increases(km, kc);
            }
        }
        assert(merlin.absorbed() == (w.0 + hint) + crate::transcript::xof_of(w.0 + hint, 32));
    }
    run_gpa(merlin, &init_vec, &final_vec);
    proof {
        assert(final(merlin).data().subrange(0, mid.len() as int) == mid);
    }
    Ok(())
}

} // verus!
