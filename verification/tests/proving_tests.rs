use noir_r1cs::compiler::{Circuit, Expression, Opcode, R1CS};
use noir_r1cs::errors::Error;
use noir_r1cs::field::FieldElement;
use noir_r1cs::grand_product_argument::{calculate_adr, gpa_sumcheck_verifier, GrandProductArgument};
use noir_r1cs::sumcheck::calculate_evaluations_over_boolean_hypercube_for_eq;
use noir_r1cs::transcript::{ProverTranscript, VerifierTranscript};
use noir_r1cs::whir_r1cs::{run_sumcheck_prover, run_sumcheck_verifier, WhirR1CSScheme};

fn fe(x: u64) -> FieldElement {
    FieldElement::from_u64(x)
}

/// The circuit `a * b - c == 0` over witnesses `w0, w1, w2`.
fn product_circuit() -> Circuit {
    Circuit {
        opcodes: vec![Opcode::AssertZero(Expression {
            mul_terms: vec![(FieldElement::one(), 0, 1)],
            linear_combinations: vec![(FieldElement::one().neg(), 2)],
            q_c: FieldElement::zero(),
        })],
    }
}

fn compiled_product_r1cs() -> R1CS {
    let circuit = product_circuit();
    let witness = vec![(0u32, fe(3)), (1u32, fe(4)), (2u32, fe(12))];
    let mut r1cs = R1CS::new(&circuit, &witness).unwrap();
    r1cs.add_circuit(&circuit).unwrap();
    r1cs
}

#[test]
fn product_circuit_compiles_to_one_satisfied_row() {
    let r1cs = compiled_product_r1cs();
    assert_eq!(r1cs.num_constraints(), 1);
    // Row 0: A = [1 at w0], B = [1 at w1], C = [1 at w2].
    let a_row = r1cs.a().iter_row(0);
    assert_eq!(a_row.len(), 1);
    assert_eq!(a_row[0].0, 0);
    assert!(a_row[0].1.eq_value(&FieldElement::one()));
    let b_row = r1cs.b().iter_row(0);
    assert_eq!(b_row.len(), 1);
    assert_eq!(b_row[0].0, 1);
    assert!(b_row[0].1.eq_value(&FieldElement::one()));
    // C stores the negated linear coefficient at w2 and an explicit zero
    // for the (zero) constant term at the constant-one slot.
    let c_row = r1cs.c().iter_row(0);
    assert_eq!(c_row[0].0, 2);
    assert!(c_row[0].1.eq_value(&FieldElement::one()));
    for entry in c_row.iter().skip(1) {
        assert!(entry.1.eq_value(&FieldElement::zero()));
    }
    // (A w) * (B w) == 3 * 4 == 12 == (C w).
    let aw = r1cs.a().mul_vec(&r1cs.witness);
    let bw = r1cs.b().mul_vec(&r1cs.witness);
    let cw = r1cs.c().mul_vec(&r1cs.witness);
    assert!(aw[0].eq_value(&fe(3)));
    assert!(bw[0].eq_value(&fe(4)));
    assert!(aw[0].mul(bw[0]).eq_value(&fe(12)));
    assert!(cw[0].eq_value(&fe(12)));
    assert!(r1cs.is_satisfied());
}

#[test]
fn compiled_complex_expression_is_satisfied() {
    // 2*w0*w1 + 3*w2*w3 + 5*w0 + 7*w1 + q_c == 0, with a witness chosen so
    // the expression vanishes: pick w0=1, w1=2, w2=3, w3=4 and solve q_c.
    // 2*1*2 + 3*3*4 + 5*1 + 7*2 = 4 + 36 + 5 + 14 = 59, so q_c = -59.
    let circuit = Circuit {
        opcodes: vec![Opcode::AssertZero(Expression {
            mul_terms: vec![(fe(2), 0, 1), (fe(3), 2, 3)],
            linear_combinations: vec![(fe(5), 0), (fe(7), 1)],
            q_c: fe(59).neg(),
        })],
    };
    let witness = vec![(0u32, fe(1)), (1u32, fe(2)), (2u32, fe(3)), (3u32, fe(4))];
    let mut r1cs = R1CS::new(&circuit, &witness).unwrap();
    r1cs.add_circuit(&circuit).unwrap();
    // Two product rows plus one combining row.
    assert_eq!(r1cs.num_constraints(), 3);
    assert!(r1cs.is_satisfied());
}

#[test]
fn unsatisfied_witness_is_detected() {
    let circuit = product_circuit();
    let witness = vec![(0u32, fe(3)), (1u32, fe(4)), (2u32, fe(13))];
    let mut r1cs = R1CS::new(&circuit, &witness).unwrap();
    r1cs.add_circuit(&circuit).unwrap();
    assert!(!r1cs.is_satisfied());
}

#[test]
fn simple_expression_without_mul_term_is_rejected() {
    // A simple expression with no multiplicative term has no canonical
    // encoding and must be refused, not guessed.
    let circuit = Circuit {
        opcodes: vec![Opcode::AssertZero(Expression {
            mul_terms: vec![],
            linear_combinations: vec![(FieldElement::one(), 0)],
            q_c: fe(5).neg(),
        })],
    };
    let witness = vec![(0u32, fe(5))];
    let mut r1cs = R1CS::new(&circuit, &witness).unwrap();
    assert_eq!(r1cs.add_circuit(&circuit), Err(Error::UnsupportedOpcode));
}

#[test]
fn unsupported_opcodes_are_rejected() {
    for opcode in [
        Opcode::BrilligCall,
        Opcode::Directive,
        Opcode::Call,
        Opcode::MemoryOp,
        Opcode::MemoryInit,
        Opcode::BlackBoxFuncCall,
    ] {
        let circuit = Circuit { opcodes: vec![opcode] };
        let mut r1cs = R1CS::new(&circuit, &vec![]).unwrap();
        assert_eq!(r1cs.add_circuit(&circuit), Err(Error::UnsupportedOpcode));
    }
}

#[test]
fn end_to_end_prove_and_verify() {
    let r1cs = compiled_product_r1cs();
    let scheme = WhirR1CSScheme::new_for_r1cs(&r1cs);
    let witness = r1cs.witness.clone();
    let proof = scheme.prove(&r1cs, witness).unwrap();
    assert!(scheme.verify(&proof).is_ok());
}

#[test]
fn corrupting_any_proof_byte_fails_verification() {
    let r1cs = compiled_product_r1cs();
    let scheme = WhirR1CSScheme::new_for_r1cs(&r1cs);
    let witness = r1cs.witness.clone();
    let proof = scheme.prove(&r1cs, witness).unwrap();
    assert!(scheme.verify(&proof).is_ok());
    for i in 0..proof.transcript.len() {
        let mut tampered = proof.clone();
        tampered.transcript[i] ^= 0x55;
        assert!(
            scheme.verify(&tampered).is_err(),
            "corrupting byte {} must fail verification",
            i
        );
    }
}

#[test]
fn oversized_witness_exceeds_scheme_capacity() {
    // Size the scheme for the small system, then hand it a system with more
    // witnesses than 2^m.
    let small = compiled_product_r1cs();
    let scheme = WhirR1CSScheme::new_for_r1cs(&small);
    let capacity = 1usize << scheme.m;
    // A circuit referencing enough variables to overflow the capacity.
    let wide = Circuit {
        opcodes: vec![Opcode::AssertZero(Expression {
            mul_terms: vec![(FieldElement::one(), 0, capacity as u32)],
            linear_combinations: vec![],
            q_c: FieldElement::zero(),
        })],
    };
    let mut assignments = vec![(0u32, FieldElement::zero())];
    assignments.push((capacity as u32, FieldElement::zero()));
    let mut big = R1CS::new(&wide, &assignments).unwrap();
    big.add_circuit(&wide).unwrap();
    assert!(big.num_witnesses() > capacity);
    let witness = big.witness.clone();
    let padded: Vec<FieldElement> = {
        let mut w = witness;
        while w.len() < big.num_witnesses() {
            w.push(FieldElement::zero());
        }
        w
    };
    match scheme.prove(&big, padded) {
        Err(e) => assert_eq!(e, Error::SchemeCapacityExceeded),
        Ok(_) => panic!("oversized witness must exceed capacity"),
    }
}

#[test]
fn wrong_witness_length_is_a_dimension_mismatch() {
    let r1cs = compiled_product_r1cs();
    let scheme = WhirR1CSScheme::new_for_r1cs(&r1cs);
    let short = vec![fe(3), fe(4)];
    match scheme.prove(&r1cs, short) {
        Err(e) => assert_eq!(e, Error::DimensionMismatch),
        Ok(_) => panic!("short witness must be a dimension mismatch"),
    }
}

#[test]
fn grand_product_tree_root_is_the_product() {
    for n in [4usize, 8, 16] {
        let leaves: Vec<FieldElement> = (0..n).map(|i| fe(2 * i as u64 + 3)).collect();
        let mut expected = FieldElement::one();
        for l in leaves.iter() {
            expected = expected.mul(*l);
        }
        let layers = GrandProductArgument::calculate_binary_multiplication_tree(leaves.clone());
        assert_eq!(layers[0].len(), 1);
        assert!(layers[0][0].eq_value(&expected));
        assert_eq!(layers.last().unwrap().len(), n);
    }
}

#[test]
fn grand_product_argument_verifies_and_rejects_tampering() {
    for n in [4usize, 8, 16] {
        let leaves: Vec<FieldElement> = (0..n).map(|i| fe(5 * i as u64 + 1)).collect();
        let mut expected = FieldElement::one();
        for l in leaves.iter() {
            expected = expected.mul(*l);
        }
        let height = n.trailing_zeros() as usize + 1;
        let mut merlin = ProverTranscript::new(b"gpa-test");
        GrandProductArgument::prove_product(&mut merlin, leaves.clone());
        let transcript = merlin.narg_string();
        let mut arthur = VerifierTranscript::new(b"gpa-test", &transcript);
        let result = gpa_sumcheck_verifier(&mut arthur, height).unwrap();
        assert!(result.claimed_product.eq_value(&expected));
        // Tampering with the committed root changes the claimed product or
        // breaks a later consistency check.
        let mut tampered = transcript.clone();
        tampered[0] ^= 1;
        let mut arthur2 = VerifierTranscript::new(b"gpa-test", &tampered);
        match gpa_sumcheck_verifier(&mut arthur2, height) {
            Ok(r) => assert!(!r.claimed_product.eq_value(&expected)),
            Err(_) => {}
        }
    }
}

#[test]
fn transcript_challenges_depend_on_absorbed_data() {
    let mut t1 = ProverTranscript::new(b"label");
    let mut t2 = ProverTranscript::new(b"label");
    let a = vec![fe(1)];
    let b = vec![fe(2)];
    t1.add_scalars(&a);
    t2.add_scalars(&b);
    let c1 = t1.challenge_scalars(1);
    let c2 = t2.challenge_scalars(1);
    assert!(!c1[0].eq_value(&c2[0]));
    // Identical transcripts draw identical challenges.
    let mut t3 = ProverTranscript::new(b"label");
    t3.add_scalars(&a);
    let c3 = t3.challenge_scalars(1);
    assert!(c1[0].eq_value(&c3[0]));
}

#[test]
fn sumcheck_prover_then_verifier_accepts() {
    let r1cs = compiled_product_r1cs();
    let m_0 = 0usize.max(1); // one constraint row: one-variable hypercube
    let mut merlin = ProverTranscript::new(b"sumcheck-test");
    let alpha = run_sumcheck_prover(&r1cs, &r1cs.witness, &mut merlin, m_0);
    assert_eq!(alpha.len(), m_0);
    let transcript = merlin.narg_string();
    let mut arthur = VerifierTranscript::new(b"sumcheck-test", &transcript);
    let data = run_sumcheck_verifier(&mut arthur, m_0).unwrap();
    assert_eq!(data.alpha.len(), m_0);
    assert_eq!(data.r.len(), m_0);
    for i in 0..m_0 {
        assert!(data.alpha[i].eq_value(&alpha[i]));
    }
}

#[test]
fn binary_reconstruction_of_a_point() {
    // [1, 0, 1] read most significant first is 5.
    let alpha = vec![fe(1), fe(0), fe(1)];
    assert!(calculate_adr(&alpha).eq_value(&fe(5)));
    let empty: Vec<FieldElement> = vec![];
    assert!(calculate_adr(&empty).eq_value(&FieldElement::zero()));
}

#[test]
fn eq_table_sums_to_one() {
    // The eq table over any point sums to 1 across the hypercube.
    let r = vec![fe(7), fe(100), fe(3)];
    let table = calculate_evaluations_over_boolean_hypercube_for_eq(&r);
    assert_eq!(table.len(), 8);
    let mut sum = FieldElement::zero();
    for v in table.iter() {
        sum = sum.add(*v);
    }
    assert!(sum.eq_value(&FieldElement::one()));
}

#[test]
fn challenges_are_not_a_prefix_of_the_absorbed_bytes() {
    // Two transcripts sharing a long label prefix: a hash must give them
    // different challenges once their suffixes differ, even though the
    // shared prefix is longer than one challenge.
    let label = [7u8; 64];
    let mut t1 = ProverTranscript::new(&label);
    let c1 = t1.challenge_scalars(1);
    let mut t2 = ProverTranscript::new(&label);
    t2.add_scalars(&vec![fe(9)]);
    let c2 = t2.challenge_scalars(1);
    assert!(!c1[0].eq_value(&c2[0]));
}

#[test]
fn multi_round_prove_and_verify() {
    // A three-row system: the sumcheck runs for two rounds and the witness
    // polynomial has more than one variable.
    let circuit = Circuit {
        opcodes: vec![Opcode::AssertZero(Expression {
            mul_terms: vec![(fe(2), 0, 1), (fe(3), 2, 3)],
            linear_combinations: vec![(fe(5), 0), (fe(7), 1)],
            q_c: fe(59).neg(),
        })],
    };
    let witness = vec![(0u32, fe(1)), (1u32, fe(2)), (2u32, fe(3)), (3u32, fe(4))];
    let mut r1cs = R1CS::new(&circuit, &witness).unwrap();
    r1cs.add_circuit(&circuit).unwrap();
    assert!(r1cs.is_satisfied());
    let scheme = WhirR1CSScheme::new_for_r1cs(&r1cs);
    assert!(scheme.m_0 >= 2);
    let proof = scheme.prove(&r1cs, r1cs.witness.clone()).unwrap();
    assert!(scheme.verify(&proof).is_ok());
    // A corrupted middle byte still fails.
    let mut tampered = proof.clone();
    let mid = tampered.transcript.len() / 2;
    tampered.transcript[mid] ^= 0x01;
    assert!(scheme.verify(&tampered).is_err());
}
