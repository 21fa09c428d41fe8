use num_bigint::BigInt;
use zero_knowledge_proofs::circuit::{Circuit, Gate};
use zero_knowledge_proofs::eligibility_proof;
use zero_knowledge_proofs::error::ZkError;
use zero_knowledge_proofs::field::FieldElement;
use zero_knowledge_proofs::proving::Proof;
use zero_knowledge_proofs::r1cs::{Operation, R1CS};
use zero_knowledge_proofs::words::{decode_words, encode_words};

fn fe(v: i64) -> FieldElement {
    FieldElement::new(BigInt::from(v))
}

fn modulus() -> BigInt {
    BigInt::from(1_000_000_007u64)
}

fn sample_system() -> R1CS {
    let mut r1cs = R1CS::new();
    for v in [3i64, 4, 12, 7, 7, 7] {
        r1cs.add_variable(fe(v));
    }
    r1cs.add_constraint(&[(0, fe(1))], &[(1, fe(1))], &[(2, fe(1))], &modulus(), Operation::Mul)
        .unwrap();
    r1cs.add_constraint(&[(3, fe(1))], &[(4, fe(1))], &[(5, fe(1))], &modulus(), Operation::Add)
        .unwrap();
    r1cs.add_constraint(
        &[(0, fe(2)), (1, fe(1_000_000_006))],
        &[],
        &[(5, fe(3)), (5, fe(4))],
        &modulus(),
        Operation::Hash,
    )
    .unwrap();
    r1cs
}

fn sorted_entries(p: &zero_knowledge_proofs::qap::Polynomial) -> Vec<(usize, BigInt)> {
    let mut entries: Vec<(usize, BigInt)> =
        p.entries().into_iter().map(|(i, c)| (i, c.get_value())).collect();
    entries.sort();
    entries
}

fn witnesses() -> Vec<Vec<FieldElement>> {
    vec![
        vec![fe(3), fe(4), fe(12), fe(7), fe(7), fe(7)],
        vec![fe(5), fe(5), fe(5), fe(7), fe(7), fe(7)],
        vec![fe(5), fe(5), fe(5), fe(1), fe(2), fe(3)],
        vec![fe(5), fe(5), fe(5)],
        vec![],
    ]
}

#[test]
fn words_survive_encoding() {
    let words = vec![
        BigInt::from(0),
        BigInt::from(1),
        BigInt::from(-1),
        BigInt::from(255),
        BigInt::from(256),
        BigInt::from(-1_000_000_007i64),
        BigInt::from(u64::MAX) * BigInt::from(u64::MAX) * BigInt::from(-3),
    ];
    let bytes = encode_words(&words);
    assert_eq!(decode_words(&bytes), Some(words));
    assert_eq!(decode_words(&encode_words(&vec![])), Some(vec![]));
}

#[test]
fn word_encoding_is_count_sign_length_magnitude() {
    let bytes = encode_words(&vec![BigInt::from(-258)]);
    let mut expected = vec![1u8, 0, 0, 0, 0, 0, 0, 0];
    expected.push(1);
    expected.extend_from_slice(&[2, 0, 0, 0, 0, 0, 0, 0]);
    expected.extend_from_slice(&[2, 1]);
    assert_eq!(bytes, expected);
}

#[test]
fn malformed_words_are_rejected() {
    let good = encode_words(&vec![BigInt::from(5), BigInt::from(-7)]);
    assert!(decode_words(&good).is_some());
    // too short for a count
    assert_eq!(decode_words(&[1, 2, 3]), None);
    // truncated
    assert_eq!(decode_words(&good[..good.len() - 1]), None);
    // trailing byte
    let mut longer = good.clone();
    longer.push(0);
    assert_eq!(decode_words(&longer), None);
    // a sign byte that is neither 0 nor 1
    let mut bad_sign = good.clone();
    bad_sign[8] = 2;
    assert_eq!(decode_words(&bad_sign), None);
    // a count that announces more words than there are
    let mut bad_count = good.clone();
    bad_count[0] = 3;
    assert_eq!(decode_words(&bad_count), None);
}

#[test]
fn proof_survives_a_snapshot() {
    let proof = Proof {
        witness: vec![BigInt::from(3), BigInt::from(-4), BigInt::from(1) << 200],
        commitment: BigInt::from(-99),
    };
    let reloaded = Proof::load_from_binary(&proof.save_to_binary()).unwrap();
    assert_eq!(reloaded.witness, proof.witness);
    assert_eq!(reloaded.commitment, proof.commitment);
    let empty = Proof { witness: vec![], commitment: BigInt::from(0) };
    let reloaded = Proof::load_from_binary(&empty.save_to_binary()).unwrap();
    assert!(reloaded.witness.is_empty());
    assert_eq!(reloaded.commitment, BigInt::from(0));
}

#[test]
fn system_survives_a_snapshot() {
    let r1cs = sample_system();
    let bytes = r1cs.save_to_binary();
    let reloaded = R1CS::load_from_binary(&bytes).unwrap();
    assert_eq!(reloaded.variables.len(), r1cs.variables.len());
    for (a, b) in reloaded.variables.iter().zip(r1cs.variables.iter()) {
        assert_eq!(a.index, b.index);
        assert_eq!(a.value.get_value(), b.value.get_value());
    }
    assert_eq!(reloaded.constraints.len(), r1cs.constraints.len());
    for (a, b) in reloaded.constraints.iter().zip(r1cs.constraints.iter()) {
        assert_eq!(a.operation, b.operation);
        for (x, y) in [(&a.left, &b.left), (&a.right, &b.right), (&a.output, &b.output)] {
            assert_eq!(x.len(), y.len());
            for (s, t) in x.iter().zip(y.iter()) {
                assert_eq!(s.0.index, t.0.index);
                assert_eq!(s.0.value.get_value(), t.0.value.get_value());
                assert_eq!(s.1, t.1);
            }
        }
    }
    assert_eq!(sorted_entries(&reloaded.qap.left), sorted_entries(&r1cs.qap.left));
    assert_eq!(sorted_entries(&reloaded.qap.right), sorted_entries(&r1cs.qap.right));
    assert_eq!(sorted_entries(&reloaded.qap.output), sorted_entries(&r1cs.qap.output));
    assert_eq!(
        sorted_entries(&r1cs.qap.output),
        vec![(2, BigInt::from(1)), (5, BigInt::from(8))]
    );
}

#[test]
fn reloaded_system_judges_witnesses_like_the_saved_one() {
    let r1cs = sample_system();
    let reloaded = R1CS::load_from_binary(&r1cs.save_to_binary()).unwrap();
    for witness in witnesses() {
        assert_eq!(reloaded.verify_witness(&witness), r1cs.verify_witness(&witness));
    }
    assert_eq!(r1cs.verify_witness(&witnesses()[0]), Ok(false));
    assert_eq!(r1cs.verify_witness(&witnesses()[3]), Err(ZkError::IndexOutOfRange));
}

#[test]
fn empty_system_survives_a_snapshot() {
    let reloaded = R1CS::load_from_binary(&R1CS::new().save_to_binary()).unwrap();
    assert!(reloaded.variables.is_empty());
    assert!(reloaded.constraints.is_empty());
    assert!(reloaded.qap.left.entries().is_empty());
}

#[test]
fn malformed_snapshots_are_rejected() {
    assert!(matches!(R1CS::load_from_binary(&[]), Err(ZkError::DecodeFailure)));
    assert!(matches!(R1CS::load_from_binary(&[9, 9, 9]), Err(ZkError::DecodeFailure)));
    assert!(matches!(Proof::load_from_binary(&[]), Err(ZkError::DecodeFailure)));
    // a proof needs at least its commitment
    assert!(matches!(
        Proof::load_from_binary(&encode_words(&vec![])),
        Err(ZkError::DecodeFailure)
    ));
    let bytes = sample_system().save_to_binary();
    assert!(matches!(
        R1CS::load_from_binary(&bytes[..bytes.len() - 1]),
        Err(ZkError::DecodeFailure)
    ));
    // a proof snapshot is no system snapshot
    let proof = Proof { witness: vec![BigInt::from(3)], commitment: BigInt::from(3) };
    assert!(matches!(
        R1CS::load_from_binary(&proof.save_to_binary()),
        Err(ZkError::DecodeFailure)
    ));
}

#[test]
fn snapshot_with_a_value_outside_the_field_is_rejected() {
    // one variable whose value is the modulus itself, no constraints, three empty maps
    let words = vec![
        BigInt::from(1),
        modulus(),
        BigInt::from(0),
        BigInt::from(0),
        BigInt::from(0),
        BigInt::from(0),
    ];
    assert!(matches!(
        R1CS::load_from_binary(&encode_words(&words)),
        Err(ZkError::DecodeFailure)
    ));
    let mut ok = words.clone();
    ok[1] = BigInt::from(1_000_000_006);
    let system = R1CS::load_from_binary(&encode_words(&ok)).unwrap();
    assert_eq!(system.variables[0].value.get_value(), BigInt::from(1_000_000_006));
    let mut negative = words.clone();
    negative[1] = BigInt::from(-1);
    assert!(matches!(
        R1CS::load_from_binary(&encode_words(&negative)),
        Err(ZkError::DecodeFailure)
    ));
    // an operation code that stands for nothing
    let bad_operation = vec![
        BigInt::from(0),
        BigInt::from(1),
        BigInt::from(3),
        BigInt::from(0),
        BigInt::from(0),
        BigInt::from(0),
        BigInt::from(0),
        BigInt::from(0),
        BigInt::from(0),
    ];
    assert!(matches!(
        R1CS::load_from_binary(&encode_words(&bad_operation)),
        Err(ZkError::DecodeFailure)
    ));
}

fn addition_circuit() -> Circuit {
    let mut circuit = Circuit::new();
    let a = circuit.add_input(fe(10));
    let b = circuit.add_input(fe(20));
    let sum = circuit.get_input(a).unwrap().add(circuit.get_input(b).unwrap());
    assert_eq!(sum.get_value(), BigInt::from(30));
    let out = circuit.add_input(sum.clone());
    circuit.add_gate(Gate::Add(a, b, out));
    circuit.set_output(sum);
    circuit
}

#[test]
fn addition_circuit_proof_verifies() {
    let circuit = addition_circuit();
    let artifacts = circuit.generate_proof().unwrap();
    let proof = Proof::load_from_binary(&artifacts.proof).unwrap();
    let r1cs = R1CS::load_from_binary(&artifacts.r1cs).unwrap();
    assert_eq!(proof.witness, vec![BigInt::from(10), BigInt::from(20), BigInt::from(30)]);
    assert_eq!(proof.commitment, BigInt::from(60));
    assert_eq!(Proof::verify_proof(&proof, &r1cs), Ok(true));
}

#[test]
fn multiplication_circuit_proof_verifies() {
    let mut circuit = Circuit::new();
    let a = circuit.add_input(fe(3));
    let b = circuit.add_input(fe(4));
    let product = circuit.get_input(a).unwrap().get_value() * circuit.get_input(b).unwrap().get_value();
    assert_eq!(product, BigInt::from(12));
    let out = circuit.add_input(FieldElement::new(product.clone()));
    circuit.add_gate(Gate::Mul(a, b, out));
    circuit.set_output(FieldElement::new(product));
    let artifacts = circuit.generate_proof().unwrap();
    let proof = Proof::load_from_binary(&artifacts.proof).unwrap();
    let r1cs = R1CS::load_from_binary(&artifacts.r1cs).unwrap();
    assert_eq!(Proof::verify_proof(&proof, &r1cs), Ok(true));
}

#[test]
fn addition_circuit_verifies_its_own_artifacts() {
    let circuit = addition_circuit();
    let artifacts = circuit.generate_proof().unwrap();
    assert_eq!(circuit.verify_proof(&artifacts.proof, &artifacts.r1cs), Ok(true));
}

#[test]
fn multiplication_circuit_verifies_its_own_artifacts() {
    let mut circuit = Circuit::new();
    let a = circuit.add_input(fe(3));
    let b = circuit.add_input(fe(4));
    let out = circuit.add_input(fe(12));
    circuit.add_gate(Gate::Mul(a, b, out));
    circuit.set_output(fe(12));
    let artifacts = circuit.generate_proof().unwrap();
    assert_eq!(circuit.verify_proof(&artifacts.proof, &artifacts.r1cs), Ok(true));
}

#[test]
fn artifact_check_dispatches_on_the_operation() {
    // 10 + 20 = 30 holds as an addition, not as a multiplication
    let mut wrong = Circuit::new();
    let a = wrong.add_input(fe(10));
    let b = wrong.add_input(fe(20));
    let out = wrong.add_input(fe(30));
    wrong.add_gate(Gate::Mul(a, b, out));
    let artifacts = wrong.generate_proof().unwrap();
    assert_eq!(wrong.verify_proof(&artifacts.proof, &artifacts.r1cs), Ok(false));

    // three equal wires obey neither operation
    let mut equal = Circuit::new();
    let a = equal.add_input(fe(6));
    let b = equal.add_input(fe(6));
    let c = equal.add_input(fe(6));
    equal.add_gate(Gate::Add(a, b, c));
    let artifacts = equal.generate_proof().unwrap();
    assert_eq!(equal.verify_proof(&artifacts.proof, &artifacts.r1cs), Ok(false));

    let mut no_gates = Circuit::new();
    no_gates.add_input(fe(1));
    let artifacts = no_gates.generate_proof().unwrap();
    assert_eq!(no_gates.verify_proof(&artifacts.proof, &artifacts.r1cs), Ok(true));
}

#[test]
fn artifact_check_rejects_a_commitment_that_does_not_match() {
    let mut circuit = Circuit::new();
    circuit.add_input(fe(1));
    let artifacts = circuit.generate_proof().unwrap();
    // the witness was changed and the commitment left as it was
    let changed = Proof { witness: vec![BigInt::from(2)], commitment: BigInt::from(1) };
    assert_eq!(circuit.verify_proof(&changed.save_to_binary(), &artifacts.r1cs), Ok(false));
    // the commitment was changed and the witness left as it was
    let changed = Proof { witness: vec![BigInt::from(1)], commitment: BigInt::from(2) };
    assert_eq!(circuit.verify_proof(&changed.save_to_binary(), &artifacts.r1cs), Ok(false));
}

#[test]
fn artifact_check_rejects_every_tampered_witness_value() {
    let circuit = addition_circuit();
    let artifacts = circuit.generate_proof().unwrap();
    let proof = Proof::load_from_binary(&artifacts.proof).unwrap();
    for i in 0..proof.witness.len() {
        for delta in [1i64, -1, 1_000_000_006, 5] {
            let mut witness = proof.witness.clone();
            witness[i] = &witness[i] + BigInt::from(delta);
            let tampered = Proof { witness, commitment: proof.commitment.clone() };
            assert_eq!(
                circuit.verify_proof(&tampered.save_to_binary(), &artifacts.r1cs),
                Ok(false)
            );
        }
    }
}

#[test]
fn artifact_check_reads_the_witness_not_the_recorded_values() {
    let circuit = addition_circuit();
    let artifacts = circuit.generate_proof().unwrap();
    // another witness with its own commitment: 1 + 2 = 3 obeys the addition too
    let other = Proof {
        witness: vec![BigInt::from(1), BigInt::from(2), BigInt::from(3)],
        commitment: BigInt::from(6),
    };
    assert_eq!(circuit.verify_proof(&other.save_to_binary(), &artifacts.r1cs), Ok(true));
    // 1 + 2 is not 4
    let other = Proof {
        witness: vec![BigInt::from(1), BigInt::from(2), BigInt::from(4)],
        commitment: BigInt::from(7),
    };
    assert_eq!(circuit.verify_proof(&other.save_to_binary(), &artifacts.r1cs), Ok(false));
    // against the recorded values both would pass
    let r1cs = R1CS::load_from_binary(&artifacts.r1cs).unwrap();
    assert_eq!(Proof::verify_proof(&other, &r1cs), Ok(true));
}

#[test]
fn artifact_check_reduces_the_witness() {
    let circuit = addition_circuit();
    let artifacts = circuit.generate_proof().unwrap();
    // each value shifted by a multiple of the modulus; the sum is unchanged
    let shifted = Proof {
        witness: vec![
            BigInt::from(10) + modulus(),
            BigInt::from(20) - modulus(),
            BigInt::from(30),
        ],
        commitment: BigInt::from(60),
    };
    assert_eq!(circuit.verify_proof(&shifted.save_to_binary(), &artifacts.r1cs), Ok(true));
}

#[test]
fn artifact_check_rejects_a_short_witness() {
    let circuit = addition_circuit();
    let artifacts = circuit.generate_proof().unwrap();
    let short = Proof { witness: vec![BigInt::from(6)], commitment: BigInt::from(6) };
    assert_eq!(
        circuit.verify_proof(&short.save_to_binary(), &artifacts.r1cs),
        Err(ZkError::IndexOutOfRange)
    );
}

#[test]
fn artifact_check_refuses_an_unsupported_operation() {
    let mut r1cs = R1CS::new();
    for v in [3i64, 4, 12] {
        r1cs.add_variable(fe(v));
    }
    r1cs.add_constraint(&[(0, fe(1))], &[(1, fe(1))], &[(2, fe(1))], &modulus(), Operation::Hash)
        .unwrap();
    let proof = r1cs.generate_proof(&r1cs.generate_witness());
    let circuit = Circuit::new();
    assert_eq!(
        circuit.verify_proof(&proof.save_to_binary(), &r1cs.save_to_binary()),
        Err(ZkError::UnsupportedOperation)
    );
}

#[test]
fn artifact_check_is_repeatable() {
    let circuit = addition_circuit();
    let artifacts = circuit.generate_proof().unwrap();
    let first = circuit.verify_proof(&artifacts.proof, &artifacts.r1cs);
    let second = circuit.verify_proof(&artifacts.proof, &artifacts.r1cs);
    assert_eq!(first, second);
    let proof = Proof::load_from_binary(&artifacts.proof).unwrap();
    let r1cs = R1CS::load_from_binary(&artifacts.r1cs).unwrap();
    assert_eq!(Proof::verify_proof(&proof, &r1cs), Proof::verify_proof(&proof, &r1cs));
}

#[test]
fn artifact_check_rejects_garbage() {
    let circuit = addition_circuit();
    let artifacts = circuit.generate_proof().unwrap();
    assert_eq!(circuit.verify_proof(&[1, 2, 3], &artifacts.r1cs), Err(ZkError::DecodeFailure));
    assert_eq!(circuit.verify_proof(&artifacts.proof, &[1, 2, 3]), Err(ZkError::DecodeFailure));
}

#[test]
fn eligibility_scenario() {
    let (score, proof_bytes) = eligibility_proof(100, 50, 30, 20, 40, 90, 60, 10);
    assert_eq!(score, 3650);
    assert!(!proof_bytes.is_empty());
    let proof = Proof::load_from_binary(&proof_bytes).unwrap();
    let expected: Vec<BigInt> =
        [100, 50, 30, 20, 40, 90, 60, 10, 3600, 3650].iter().map(|v| BigInt::from(*v)).collect();
    assert_eq!(proof.witness, expected);
    assert_eq!(proof.commitment, BigInt::from(7650));
}

#[test]
fn eligibility_score_is_reduced_and_never_zero() {
    // 0 * 0 + 0 = 0 is raised to 1
    assert_eq!(eligibility_proof(1, 0, 1, 1, 0, 0, 1, 1).0, 1);
    // 1000 * 1000 + 0 = 1_000_000 reduces to 0, raised to 1
    assert_eq!(eligibility_proof(0, 0, 0, 0, 1000, 1000, 0, 0).0, 1);
    // 1000 * 1000 + 5 = 1_000_005 reduces to 5
    assert_eq!(eligibility_proof(0, 5, 0, 0, 1000, 1000, 0, 0).0, 5);
    // u32::MAX = 4_294_967_295 is 294_967_267 in the field; its square there is 992_409_480,
    // plus 294_967_267 gives 1_287_376_747, which the field reduces to 287_376_740
    let (score, _) = eligibility_proof(0, u32::MAX, 0, 0, u32::MAX, u32::MAX, 0, 0);
    assert_eq!(score, 376_740);
}
