use noir_r1cs::compiler::{Circuit, Expression, Opcode, R1CS};
use noir_r1cs::field::FieldElement;
use noir_r1cs::spark::{
    calculate_e_values_for_r1cs, calculate_matrix_dimensions, calculate_memory, get_spark_r1cs,
    prove_spark_for_single_matrix, run_sumcheck_verifier_spark, Point,
};
use noir_r1cs::errors::Error;
use noir_r1cs::transcript::{ProverTranscript, VerifierTranscript};

fn fe(x: u64) -> FieldElement {
    FieldElement::from_u64(x)
}

/// A complex expression producing a two-row system whose `A` matrix holds
/// four nonzero entries.
fn two_row_r1cs() -> R1CS {
    // 2*w0*w1 + 5*w0 + 7*w1 + q_c == 0 with w0 = 1, w1 = 2:
    // 4 + 5 + 14 = 23, so q_c = -23.
    let circuit = Circuit {
        opcodes: vec![Opcode::AssertZero(Expression {
            mul_terms: vec![(fe(2), 0, 1)],
            linear_combinations: vec![(fe(5), 0), (fe(7), 1)],
            q_c: fe(23).neg(),
        })],
    };
    let witness = vec![(0u32, fe(1)), (1u32, fe(2))];
    let mut r1cs = R1CS::new(&circuit, &witness).unwrap();
    r1cs.add_circuit(&circuit).unwrap();
    r1cs
}

#[test]
fn spark_flattening_shapes_are_consistent() {
    let r1cs = two_row_r1cs();
    assert!(r1cs.is_satisfied());
    let dims = calculate_matrix_dimensions(&r1cs);
    assert_eq!(dims.num_rows, 2);
    let spark = get_spark_r1cs(&r1cs);
    assert_eq!(spark.a.coo.val.len(), dims.a_nonzero_terms);
    assert_eq!(spark.a.coo.row.len(), spark.a.coo.col.len());
    assert_eq!(spark.a.timestamps.final_row.len(), dims.num_rows);
    assert_eq!(spark.a.timestamps.final_col.len(), dims.num_cols);
    assert_eq!(spark.a.timestamps.read_row.len(), dims.a_nonzero_terms);
}

#[test]
fn spark_prover_emits_a_verifiable_sumcheck() {
    let r1cs = two_row_r1cs();
    let dims = calculate_matrix_dimensions(&r1cs);
    // The A matrix of this system has 4 = 2^2 nonzero entries.
    assert_eq!(dims.a_nonzero_terms, 4);
    let spark = get_spark_r1cs(&r1cs);
    let point = Point {
        row: vec![fe(11)],
        col: vec![fe(13), fe(17), fe(19)],
    };
    let memory = calculate_memory(point);
    assert_eq!(memory.eq_rx.len(), 2);
    assert_eq!(memory.eq_ry.len(), 8);
    let e_values = calculate_e_values_for_r1cs(&memory, &r1cs);
    assert_eq!(e_values.a.e_rx.len(), dims.a_nonzero_terms);
    // The claimed value: sum over entries of val * e_rx * e_ry.
    let mut claimed = FieldElement::zero();
    for i in 0..dims.a_nonzero_terms {
        claimed = claimed.add(
            spark.a.coo.val[i]
                .mul(e_values.a.e_rx[i])
                .mul(e_values.a.e_ry[i]),
        );
    }
    let mut merlin = ProverTranscript::new(b"spark-test");
    prove_spark_for_single_matrix(&mut merlin, spark.a, memory, e_values.a, claimed).unwrap();
    let transcript = merlin.narg_string();
    // Replay the entry sumcheck from the transcript: it must accept the
    // honest claimed value.
    let mut arthur = VerifierTranscript::new(b"spark-test", &transcript);
    let (alpha, _last) = run_sumcheck_verifier_spark(&mut arthur, 2, claimed).unwrap();
    assert_eq!(alpha.len(), 2);
    // A wrong claimed value is rejected in the first round.
    let mut arthur2 = VerifierTranscript::new(b"spark-test", &transcript);
    assert!(run_sumcheck_verifier_spark(&mut arthur2, 2, claimed.add(FieldElement::one())).is_err());
}

#[test]
fn spark_verifier_reports_error_kinds() {
    let r1cs = two_row_r1cs();
    let spark = get_spark_r1cs(&r1cs);
    let dims = calculate_matrix_dimensions(&r1cs);
    let point = Point {
        row: vec![fe(3)],
        col: vec![fe(5), fe(6), fe(7)],
    };
    let memory = calculate_memory(point);
    let e_values = calculate_e_values_for_r1cs(&memory, &r1cs);
    let mut claimed = FieldElement::zero();
    for i in 0..dims.a_nonzero_terms {
        claimed = claimed.add(
            spark.a.coo.val[i]
                .mul(e_values.a.e_rx[i])
                .mul(e_values.a.e_ry[i]),
        );
    }
    let mut merlin = ProverTranscript::new(b"spark-kind");
    prove_spark_for_single_matrix(&mut merlin, spark.a, memory, e_values.a, claimed).unwrap();
    let transcript = merlin.narg_string();
    // A wrong claim fails the first round check.
    let mut arthur = VerifierTranscript::new(b"spark-kind", &transcript);
    let err = run_sumcheck_verifier_spark(&mut arthur, 2, claimed.add(FieldElement::one()))
        .unwrap_err();
    assert_eq!(err, Error::SumcheckEqualityViolation);
    // Truncated proof bytes fail to parse.
    let truncated = vec![transcript[0]];
    let mut arthur2 = VerifierTranscript::new(b"spark-kind", &truncated);
    let err2 = run_sumcheck_verifier_spark(&mut arthur2, 2, claimed).unwrap_err();
    assert_eq!(err2, Error::SerializationError);
}
