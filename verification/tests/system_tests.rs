use num_bigint::BigInt;
use zero_knowledge_proofs::circuit::{Circuit, Gate};
use zero_knowledge_proofs::error::ZkError;
use zero_knowledge_proofs::field::FieldElement;
use zero_knowledge_proofs::lagrange::power_sequence;
use zero_knowledge_proofs::proving::Proof;
use zero_knowledge_proofs::qap::{Polynomial, QAP};
use zero_knowledge_proofs::r1cs::{Operation, R1CS};

fn fe(v: i64) -> FieldElement {
    FieldElement::new(BigInt::from(v))
}

fn modulus() -> BigInt {
    BigInt::from(1_000_000_007u64)
}

fn system_with(values: &[i64]) -> R1CS {
    let mut r1cs = R1CS::new();
    for v in values {
        r1cs.add_variable(fe(*v));
    }
    r1cs
}

fn constrain(r1cs: &mut R1CS, a: usize, b: usize, out: usize, op: Operation) -> Result<(), ZkError> {
    r1cs.add_constraint(&[(a, fe(1))], &[(b, fe(1))], &[(out, fe(1))], &modulus(), op)
}

fn coefficient(p: &Polynomial, index: usize) -> Option<BigInt> {
    p.entries().into_iter().find(|(i, _)| *i == index).map(|(_, c)| c.get_value())
}

#[test]
fn add_variable_returns_consecutive_indices() {
    let mut r1cs = R1CS::new();
    assert_eq!(r1cs.add_variable(fe(5)), 0);
    assert_eq!(r1cs.add_variable(fe(6)), 1);
    assert_eq!(r1cs.add_variable(fe(7)), 2);
    assert_eq!(r1cs.variables.len(), 3);
    for (i, v) in r1cs.variables.iter().enumerate() {
        assert_eq!(v.index, i);
    }
    assert_eq!(r1cs.variables[1].value.get_value(), BigInt::from(6));
}

#[test]
fn witness_is_the_variable_values() {
    let r1cs = system_with(&[3, 4, 12]);
    let witness = r1cs.generate_witness();
    let values: Vec<BigInt> = witness.iter().map(|w| w.get_value()).collect();
    assert_eq!(values, vec![BigInt::from(3), BigInt::from(4), BigInt::from(12)]);
}

#[test]
fn add_constraint_records_terms_and_merges_coefficients() {
    let mut r1cs = system_with(&[3, 4, 12]);
    assert_eq!(constrain(&mut r1cs, 0, 1, 2, Operation::Mul), Ok(()));
    assert_eq!(r1cs.constraints.len(), 1);
    let c = &r1cs.constraints[0];
    assert_eq!(c.operation, Operation::Mul);
    assert_eq!(c.left.len(), 1);
    assert_eq!(c.left[0].0.index, 0);
    assert_eq!(c.left[0].0.value.get_value(), BigInt::from(3));
    assert_eq!(c.left[0].1, BigInt::from(1));
    assert_eq!(c.right[0].0.index, 1);
    assert_eq!(c.output[0].0.index, 2);
    assert_eq!(c.output[0].0.value.get_value(), BigInt::from(12));
    assert_eq!(coefficient(&r1cs.qap.left, 0), Some(BigInt::from(1)));
    assert_eq!(coefficient(&r1cs.qap.right, 1), Some(BigInt::from(1)));
    assert_eq!(coefficient(&r1cs.qap.output, 2), Some(BigInt::from(1)));
    assert_eq!(coefficient(&r1cs.qap.left, 1), None);
}

#[test]
fn add_constraint_rejects_unknown_variables() {
    let mut r1cs = system_with(&[3, 4, 12]);
    assert_eq!(constrain(&mut r1cs, 0, 1, 3, Operation::Mul), Err(ZkError::IndexOutOfRange));
    assert_eq!(constrain(&mut r1cs, 7, 1, 2, Operation::Add), Err(ZkError::IndexOutOfRange));
    assert_eq!(r1cs.constraints.len(), 0);
    assert!(r1cs.qap.left.entries().is_empty());
    assert!(r1cs.qap.right.entries().is_empty());
    assert!(r1cs.qap.output.entries().is_empty());
}

#[test]
fn repeated_contributions_to_one_index_add_up() {
    let mut qap = QAP::new();
    qap.add_constraint(&[(0, fe(2)), (0, fe(5))], &[(1, fe(1))], &[(2, fe(1))], &modulus());
    qap.add_constraint(&[(0, fe(1_000_000_006))], &[(1, fe(3))], &[], &modulus());
    assert_eq!(coefficient(&qap.left, 0), Some(BigInt::from(6)));
    assert_eq!(coefficient(&qap.right, 1), Some(BigInt::from(4)));
    assert_eq!(coefficient(&qap.output, 2), Some(BigInt::from(1)));
    assert_eq!(qap.left.entries().len(), 1);
}

#[test]
fn add_term_replaces_and_accumulate_term_adds() {
    let mut p = Polynomial::new();
    p.add_term(3, fe(10));
    p.add_term(3, fe(20));
    assert_eq!(coefficient(&p, 3), Some(BigInt::from(20)));
    p.accumulate_term(3, &fe(5));
    assert_eq!(coefficient(&p, 3), Some(BigInt::from(25)));
    p.accumulate_term(4, &fe(9));
    assert_eq!(coefficient(&p, 4), Some(BigInt::from(9)));
    assert_eq!(p.entries().len(), 2);
}

#[test]
fn polynomial_evaluates_the_weighted_sum() {
    let mut p = Polynomial::new();
    p.add_term(0, fe(2));
    p.add_term(2, fe(3));
    let assignment = vec![fe(10), fe(1000), fe(100)];
    assert_eq!(p.evaluate(&assignment).unwrap().get_value(), BigInt::from(320));
    let large = vec![fe(1_000_000_006), fe(0), fe(1_000_000_006)];
    // 2 * (-1) + 3 * (-1) = -5
    assert_eq!(p.evaluate(&large).unwrap().get_value(), BigInt::from(1_000_000_002u64));
    assert_eq!(Polynomial::new().evaluate(&assignment).unwrap().get_value(), BigInt::from(0));
}

#[test]
fn polynomial_rejects_a_short_assignment() {
    let mut p = Polynomial::new();
    p.add_term(0, fe(2));
    p.add_term(2, fe(3));
    assert!(matches!(p.evaluate(&vec![fe(1), fe(1)]), Err(ZkError::IndexOutOfRange)));
    assert!(matches!(p.evaluate(&vec![]), Err(ZkError::IndexOutOfRange)));
}

#[test]
fn qap_evaluates_left_times_right_minus_output() {
    let mut r1cs = system_with(&[3, 4, 12]);
    constrain(&mut r1cs, 0, 1, 2, Operation::Mul).unwrap();
    assert_eq!(r1cs.evaluate_qap(), Ok(BigInt::from(0)));
    let witness = vec![fe(3), fe(4), fe(10)];
    assert_eq!(r1cs.qap.evaluate(&witness).unwrap().get_value(), BigInt::from(2));
    let witness = vec![fe(3), fe(4), fe(13)];
    assert_eq!(r1cs.qap.evaluate(&witness).unwrap().get_value(), BigInt::from(1_000_000_006u64));
    assert!(matches!(r1cs.qap.evaluate(&vec![fe(3), fe(4)]), Err(ZkError::IndexOutOfRange)));
}

fn powers_of(x: i64, n: usize) -> Vec<FieldElement> {
    power_sequence(&fe(x), n)
}

#[test]
fn power_sequence_lists_the_powers() {
    let values: Vec<BigInt> = power_sequence(&fe(3), 5).iter().map(|e| e.get_value()).collect();
    let expected: Vec<BigInt> = [1, 3, 9, 27, 81].iter().map(|v| BigInt::from(*v)).collect();
    assert_eq!(values, expected);
    assert!(power_sequence(&fe(3), 0).is_empty());
    // (-1)^k alternates
    let values: Vec<BigInt> =
        power_sequence(&fe(-1), 3).iter().map(|e| e.get_value()).collect();
    assert_eq!(
        values,
        vec![BigInt::from(1), BigInt::from(1_000_000_006), BigInt::from(1)]
    );
}

fn passes_through(p: &Polynomial, points: &[(i64, i64)]) {
    for (x, y) in points {
        assert_eq!(p.evaluate(&powers_of(*x, points.len())).unwrap(), fe(*y));
    }
}

fn interpolated(points: &[(i64, i64)]) -> Polynomial {
    let pairs: Vec<(FieldElement, FieldElement)> =
        points.iter().map(|(x, y)| (fe(*x), fe(*y))).collect();
    Polynomial::interpolate(&pairs, &modulus()).unwrap()
}

#[test]
fn interpolate_two_points() {
    // the line through (1, 5) and (2, 7) is 3 + 2x
    let p = interpolated(&[(1, 5), (2, 7)]);
    assert_eq!(coefficient(&p, 0), Some(BigInt::from(3)));
    assert_eq!(coefficient(&p, 1), Some(BigInt::from(2)));
    assert_eq!(p.entries().len(), 2);
    passes_through(&p, &[(1, 5), (2, 7)]);
    // the value at 1 is 5
    assert_eq!(p.evaluate(&vec![fe(1), fe(1)]).unwrap().get_value(), BigInt::from(5));
}

#[test]
fn interpolate_three_points() {
    // 1 + x + x^2 passes through (0, 1), (1, 3) and (2, 7)
    let p = interpolated(&[(0, 1), (1, 3), (2, 7)]);
    assert_eq!(coefficient(&p, 0), Some(BigInt::from(1)));
    assert_eq!(coefficient(&p, 1), Some(BigInt::from(1)));
    assert_eq!(coefficient(&p, 2), Some(BigInt::from(1)));
    assert_eq!(p.entries().len(), 3);
    passes_through(&p, &[(0, 1), (1, 3), (2, 7)]);
    // and takes the value 13 at 3
    assert_eq!(p.evaluate(&powers_of(3, 3)).unwrap().get_value(), BigInt::from(13));
}

#[test]
fn interpolate_a_constant_through_three_points() {
    let p = interpolated(&[(5, 9), (6, 9), (1_000_000_006, 9)]);
    assert_eq!(coefficient(&p, 0), Some(BigInt::from(9)));
    assert_eq!(coefficient(&p, 1), Some(BigInt::from(0)));
    assert_eq!(coefficient(&p, 2), Some(BigInt::from(0)));
}

#[test]
fn interpolation_passes_through_every_point() {
    let points = [
        (0, 1_000_000_006),
        (1, 123_456_789),
        (987_654_321, 5),
        (1_000_000_006, 0),
        (77, 77),
        (500_000_003, 999_999_999),
    ];
    for n in 0..points.len() + 1 {
        let p = interpolated(&points[..n]);
        assert_eq!(p.entries().len(), n);
        passes_through(&p, &points[..n]);
    }
}

#[test]
fn interpolate_one_point_and_none() {
    let p = Polynomial::interpolate(&[(fe(9), fe(5))], &modulus()).unwrap();
    assert_eq!(coefficient(&p, 0), Some(BigInt::from(5)));
    assert_eq!(p.entries().len(), 1);
    assert_eq!(p.evaluate(&vec![fe(1)]).unwrap().get_value(), BigInt::from(5));
    let empty = Polynomial::interpolate(&[], &modulus()).unwrap();
    assert!(empty.entries().is_empty());
}

#[test]
fn interpolate_rejects_equal_abscissas() {
    let points = [(fe(1), fe(5)), (fe(1), fe(7))];
    assert!(matches!(
        Polynomial::interpolate(&points, &modulus()),
        Err(ZkError::NonInvertibleElement)
    ));
    let points = [(fe(1), fe(5)), (fe(2), fe(7)), (fe(1_000_000_008), fe(5))];
    assert!(matches!(
        Polynomial::interpolate(&points, &modulus()),
        Err(ZkError::NonInvertibleElement)
    ));
}

#[test]
fn verify_witness_wants_all_three_sums_equal() {
    let mut r1cs = system_with(&[6, 6, 6]);
    constrain(&mut r1cs, 0, 1, 2, Operation::Add).unwrap();
    assert_eq!(r1cs.verify_witness(&[fe(6), fe(6), fe(6)]), Ok(true));
    assert_eq!(r1cs.verify_witness(&[fe(6), fe(6), fe(12)]), Ok(false));
    assert_eq!(r1cs.verify_witness(&[fe(6), fe(7), fe(6)]), Ok(false));
    // the witness decides, not the values recorded with the variables
    assert_eq!(r1cs.verify_witness(&[fe(1), fe(1), fe(1)]), Ok(true));
}

#[test]
fn verify_witness_uses_coefficients() {
    let mut r1cs = system_with(&[0, 0, 0]);
    r1cs.add_constraint(
        &[(0, fe(2)), (1, fe(3))],
        &[(2, fe(1))],
        &[(2, fe(1))],
        &modulus(),
        Operation::Add,
    )
    .unwrap();
    // 2 * 5 + 3 * 10 = 40
    assert_eq!(r1cs.verify_witness(&[fe(5), fe(10), fe(40)]), Ok(true));
    assert_eq!(r1cs.verify_witness(&[fe(5), fe(10), fe(41)]), Ok(false));
}

#[test]
fn verify_operations_dispatches_on_the_operation() {
    let mut r1cs = system_with(&[0, 0, 0, 0]);
    constrain(&mut r1cs, 0, 1, 2, Operation::Mul).unwrap();
    constrain(&mut r1cs, 0, 1, 3, Operation::Add).unwrap();
    // the witness decides, not the values recorded with the variables
    assert_eq!(r1cs.verify_operations(&[fe(3), fe(4), fe(12), fe(7)]), Ok(true));
    assert_eq!(r1cs.verify_operations(&[fe(3), fe(4), fe(12), fe(8)]), Ok(false));
    assert_eq!(r1cs.verify_operations(&[fe(3), fe(4), fe(7), fe(7)]), Ok(false));
    assert_eq!(r1cs.verify_operations(&[fe(0), fe(0), fe(0), fe(0)]), Ok(true));
    assert_eq!(r1cs.verify_operations(&[fe(3), fe(4), fe(12)]), Err(ZkError::IndexOutOfRange));
}

#[test]
fn verify_operations_is_over_the_integers() {
    let mut r1cs = system_with(&[0, 0, 0]);
    constrain(&mut r1cs, 0, 1, 2, Operation::Mul).unwrap();
    // 50000 * 50000 = 2_500_000_000 is 499_999_986 in the field only
    assert_eq!(r1cs.verify_operations(&[fe(50_000), fe(50_000), fe(499_999_986)]), Ok(false));
    let mut sums = system_with(&[0, 0, 0]);
    constrain(&mut sums, 0, 1, 2, Operation::Add).unwrap();
    assert_eq!(sums.verify_operations(&[fe(1_000_000_006), fe(2), fe(1)]), Ok(false));
}

#[test]
fn verify_operations_uses_coefficients() {
    let mut r1cs = system_with(&[0, 0, 0]);
    r1cs.add_constraint(
        &[(0, fe(2)), (1, fe(3))],
        &[(2, fe(1))],
        &[(2, fe(2)), (0, fe(1))],
        &modulus(),
        Operation::Add,
    )
    .unwrap();
    // left is 2 * 5 + 3 * 10 = 40, right is 45, output is 2 * 45 + 5 = 95
    assert_eq!(r1cs.verify_operations(&[fe(5), fe(10), fe(45)]), Ok(false));
    // left is 40, right is 35, output is 2 * 35 + 5 = 75
    assert_eq!(r1cs.verify_operations(&[fe(5), fe(10), fe(35)]), Ok(true));
}

#[test]
fn verify_operations_refuses_an_unsupported_operation() {
    let mut r1cs = system_with(&[3, 4, 12]);
    constrain(&mut r1cs, 0, 1, 2, Operation::Hash).unwrap();
    assert_eq!(
        r1cs.verify_operations(&[fe(3), fe(4), fe(12)]),
        Err(ZkError::UnsupportedOperation)
    );
    // a constraint that reaches outside the witness is reported first
    assert_eq!(r1cs.verify_operations(&[fe(3), fe(4)]), Err(ZkError::IndexOutOfRange));
    // a failing constraint in front of it ends the check
    let mut r1cs = system_with(&[3, 4, 12]);
    constrain(&mut r1cs, 0, 1, 2, Operation::Add).unwrap();
    constrain(&mut r1cs, 0, 1, 2, Operation::Hash).unwrap();
    assert_eq!(r1cs.verify_operations(&[fe(3), fe(4), fe(12)]), Ok(false));
}

#[test]
fn commitment_matches_the_reduced_sum_only() {
    let proof = Proof { witness: vec![BigInt::from(5), BigInt::from(7)], commitment: BigInt::from(12) };
    assert!(proof.commitment_matches());
    let proof = Proof { witness: vec![BigInt::from(5), BigInt::from(7)], commitment: BigInt::from(13) };
    assert!(!proof.commitment_matches());
    let proof = Proof {
        witness: vec![BigInt::from(1_000_000_000), BigInt::from(10)],
        commitment: BigInt::from(3),
    };
    assert!(proof.commitment_matches());
    let proof = Proof { witness: vec![], commitment: BigInt::from(0) };
    assert!(proof.commitment_matches());
}

#[test]
fn verify_witness_without_constraints_is_true() {
    let r1cs = system_with(&[1, 2, 3]);
    assert_eq!(r1cs.verify_witness(&[]), Ok(true));
}

#[test]
fn verify_witness_rejects_a_short_witness() {
    let mut r1cs = system_with(&[6, 6, 6]);
    constrain(&mut r1cs, 0, 1, 2, Operation::Add).unwrap();
    assert_eq!(r1cs.verify_witness(&[fe(6), fe(6)]), Err(ZkError::IndexOutOfRange));
}

#[test]
fn verify_witness_stops_at_the_first_failing_constraint() {
    let mut r1cs = system_with(&[1, 2, 3, 4]);
    constrain(&mut r1cs, 0, 1, 2, Operation::Add).unwrap();
    constrain(&mut r1cs, 3, 3, 3, Operation::Add).unwrap();
    // the first constraint fails before the second one reaches outside the witness
    assert_eq!(r1cs.verify_witness(&[fe(1), fe(2), fe(3)]), Ok(false));
    // the first holds, the second reaches outside
    assert_eq!(r1cs.verify_witness(&[fe(1), fe(1), fe(1)]), Err(ZkError::IndexOutOfRange));
}

#[test]
fn commitment_is_the_reduced_sum() {
    let r1cs = system_with(&[1_000_000_000, 10, 5]);
    let witness = r1cs.generate_witness();
    let proof = r1cs.generate_proof(&witness);
    assert_eq!(
        proof.witness,
        vec![BigInt::from(1_000_000_000), BigInt::from(10), BigInt::from(5)]
    );
    assert_eq!(proof.commitment, BigInt::from(8));
    let same = Proof::generate_proof(&r1cs, &witness);
    assert_eq!(same.commitment, BigInt::from(8));
}

#[test]
fn proof_verification_dispatches_on_the_operation() {
    let mut r1cs = system_with(&[3, 4, 12, 7]);
    constrain(&mut r1cs, 0, 1, 2, Operation::Mul).unwrap();
    constrain(&mut r1cs, 0, 1, 3, Operation::Add).unwrap();
    let proof = r1cs.generate_proof(&r1cs.generate_witness());
    assert_eq!(Proof::verify_proof(&proof, &r1cs), Ok(true));

    let mut wrong = system_with(&[3, 4, 12, 7]);
    constrain(&mut wrong, 0, 1, 3, Operation::Mul).unwrap();
    assert_eq!(Proof::verify_proof(&proof, &wrong), Ok(false));

    let mut wrong = system_with(&[3, 4, 12, 7]);
    constrain(&mut wrong, 0, 1, 2, Operation::Add).unwrap();
    assert_eq!(Proof::verify_proof(&proof, &wrong), Ok(false));
}

#[test]
fn proof_verification_is_over_the_integers() {
    // 50000 * 50000 = 2_500_000_000, which the field reduces to 499_999_986
    let product = 2_500_000_000i64 % 1_000_000_007;
    let mut r1cs = system_with(&[50_000, 50_000, product]);
    constrain(&mut r1cs, 0, 1, 2, Operation::Mul).unwrap();
    let proof = r1cs.generate_proof(&r1cs.generate_witness());
    assert_eq!(Proof::verify_proof(&proof, &r1cs), Ok(false));
}

#[test]
fn hash_constraint_is_unsupported() {
    let mut r1cs = system_with(&[3, 4, 12]);
    constrain(&mut r1cs, 0, 1, 2, Operation::Hash).unwrap();
    let proof = r1cs.generate_proof(&r1cs.generate_witness());
    assert_eq!(Proof::verify_proof(&proof, &r1cs), Err(ZkError::UnsupportedOperation));
}

#[test]
fn hash_constraint_behind_a_failing_one_is_not_reached() {
    let mut r1cs = system_with(&[3, 4, 12]);
    constrain(&mut r1cs, 0, 1, 2, Operation::Add).unwrap();
    constrain(&mut r1cs, 0, 1, 2, Operation::Hash).unwrap();
    let proof = r1cs.generate_proof(&r1cs.generate_witness());
    assert_eq!(Proof::verify_proof(&proof, &r1cs), Ok(false));
}

#[test]
fn commitment_mismatch_is_rejected_before_constraints() {
    let mut r1cs = system_with(&[3, 4, 12]);
    constrain(&mut r1cs, 0, 1, 2, Operation::Hash).unwrap();
    let mut proof = r1cs.generate_proof(&r1cs.generate_witness());
    proof.commitment = BigInt::from(18);
    assert_eq!(Proof::verify_proof(&proof, &r1cs), Ok(false));
}

#[test]
fn tampering_with_any_witness_value_is_detected() {
    let mut r1cs = system_with(&[3, 4, 12]);
    constrain(&mut r1cs, 0, 1, 2, Operation::Mul).unwrap();
    let proof = r1cs.generate_proof(&r1cs.generate_witness());
    assert_eq!(Proof::verify_proof(&proof, &r1cs), Ok(true));
    for i in 0..proof.witness.len() {
        for delta in [1i64, -1, 1_000_000_006, 5] {
            let mut witness = proof.witness.clone();
            witness[i] = &witness[i] + BigInt::from(delta);
            let tampered = Proof { witness, commitment: proof.commitment.clone() };
            assert_eq!(Proof::verify_proof(&tampered, &r1cs), Ok(false));
        }
    }
}

#[test]
fn a_change_by_a_multiple_of_the_modulus_goes_unnoticed() {
    let mut r1cs = system_with(&[3, 4, 12]);
    constrain(&mut r1cs, 0, 1, 2, Operation::Mul).unwrap();
    let proof = r1cs.generate_proof(&r1cs.generate_witness());
    let mut witness = proof.witness.clone();
    witness[1] = &witness[1] + modulus();
    let changed = Proof { witness, commitment: proof.commitment.clone() };
    assert_eq!(Proof::verify_proof(&changed, &r1cs), Ok(true));
}

#[test]
fn circuit_inputs_are_indexed_in_order() {
    let mut c = Circuit::new();
    assert_eq!(c.add_input(fe(10)), 0);
    assert_eq!(c.add_input(fe(20)), 1);
    assert_eq!(c.get_input(1).unwrap().get_value(), BigInt::from(20));
    assert_eq!(c.get_input(0).unwrap().get_value(), BigInt::from(10));
    assert!(c.get_input(2).is_none());
}

#[test]
fn empty_circuit_is_invalid() {
    let c = Circuit::new();
    assert!(matches!(c.to_r1cs(), Err(ZkError::InvalidCircuit)));
    assert!(matches!(c.generate_proof(), Err(ZkError::InvalidCircuit)));
    let mut gates_only = Circuit::new();
    gates_only.add_gate(Gate::Add(0, 1, 2));
    assert!(matches!(gates_only.generate_proof(), Err(ZkError::InvalidCircuit)));
}

#[test]
fn gate_over_a_missing_wire_is_out_of_range() {
    let mut c = Circuit::new();
    c.add_input(fe(1));
    c.add_input(fe(2));
    c.add_gate(Gate::Add(0, 1, 2));
    assert!(matches!(c.to_r1cs(), Err(ZkError::IndexOutOfRange)));
    assert!(matches!(c.generate_proof(), Err(ZkError::IndexOutOfRange)));
}

#[test]
fn lowering_makes_one_variable_per_input_and_one_constraint_per_gate() {
    let mut c = Circuit::new();
    c.add_input(fe(3));
    c.add_input(fe(4));
    c.add_input(fe(12));
    c.add_input(fe(7));
    c.add_gate(Gate::Mul(0, 1, 2));
    c.add_gate(Gate::Add(0, 1, 3));
    c.set_output(fe(12));
    let r1cs = c.to_r1cs().unwrap();
    assert_eq!(r1cs.variables.len(), 4);
    for (i, v) in r1cs.variables.iter().enumerate() {
        assert_eq!(v.index, i);
    }
    assert_eq!(r1cs.variables[3].value.get_value(), BigInt::from(7));
    assert_eq!(r1cs.constraints.len(), 2);
    assert_eq!(r1cs.constraints[0].operation, Operation::Mul);
    assert_eq!(r1cs.constraints[1].operation, Operation::Add);
    for c in &r1cs.constraints {
        for side in [&c.left, &c.right, &c.output] {
            assert_eq!(side.len(), 1);
            assert_eq!(side[0].1, BigInt::from(1));
        }
    }
    assert_eq!(r1cs.constraints[1].output[0].0.index, 3);
    assert_eq!(coefficient(&r1cs.qap.left, 0), Some(BigInt::from(2)));
    assert_eq!(coefficient(&r1cs.qap.right, 1), Some(BigInt::from(2)));
    assert_eq!(coefficient(&r1cs.qap.output, 2), Some(BigInt::from(1)));
    assert_eq!(coefficient(&r1cs.qap.output, 3), Some(BigInt::from(1)));
}
