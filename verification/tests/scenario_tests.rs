use num_bigint::BigInt;
use zero_knowledge_proofs::circuit::Circuit;
use zero_knowledge_proofs::merkle::MerkleTree;
use zero_knowledge_proofs::proving::Proof;
use zero_knowledge_proofs::r1cs::{Operation, R1CS};
use zero_knowledge_proofs::scenarios::{addition_circuit, merkle_circuit, multiplication_circuit};

fn wires(circuit: &Circuit) -> Vec<BigInt> {
    let mut values = Vec::new();
    let mut i = 0;
    while let Some(input) = circuit.get_input(i) {
        values.push(input.get_value());
        i += 1;
    }
    values
}

fn bigs(values: &[i64]) -> Vec<BigInt> {
    values.iter().map(|v| BigInt::from(*v)).collect()
}

fn artifacts_verify(circuit: &Circuit) -> bool {
    let artifacts = circuit.generate_proof().unwrap();
    let proof = Proof::load_from_binary(&artifacts.proof).unwrap();
    let r1cs = R1CS::load_from_binary(&artifacts.r1cs).unwrap();
    let on_witness = circuit.verify_proof(&artifacts.proof, &artifacts.r1cs).unwrap();
    let on_recorded_values = Proof::verify_proof(&proof, &r1cs).unwrap();
    assert_eq!(on_witness, on_recorded_values);
    on_witness
}

#[test]
fn addition_scenario() {
    let circuit = addition_circuit(10, 20);
    assert_eq!(wires(&circuit), bigs(&[10, 20, 30]));
    let r1cs = circuit.to_r1cs().unwrap();
    assert_eq!(r1cs.constraints.len(), 1);
    assert_eq!(r1cs.constraints[0].operation, Operation::Add);
    assert_eq!(r1cs.constraints[0].output[0].0.value.get_value(), BigInt::from(30));
    assert!(artifacts_verify(&circuit));
}

#[test]
fn multiplication_scenario() {
    let circuit = multiplication_circuit(3, 4);
    assert_eq!(wires(&circuit), bigs(&[3, 4, 12]));
    let r1cs = circuit.to_r1cs().unwrap();
    assert_eq!(r1cs.constraints.len(), 1);
    assert_eq!(r1cs.constraints[0].operation, Operation::Mul);
    assert!(artifacts_verify(&circuit));
}

#[test]
fn addition_circuit_reduces_its_operands() {
    let circuit = addition_circuit(u32::MAX, 1_000_000_007);
    assert_eq!(wires(&circuit), bigs(&[294_967_267, 0, 294_967_267]));
    let circuit = addition_circuit(1_000_000_006, 1_000_000_006);
    assert_eq!(wires(&circuit), bigs(&[1_000_000_006, 1_000_000_006, 1_000_000_005]));
}

#[test]
fn multiplication_circuit_reduces_the_product() {
    let circuit = multiplication_circuit(50_000, 50_000);
    assert_eq!(wires(&circuit), bigs(&[50_000, 50_000, 499_999_986]));
    // over the integers 50000 * 50000 is not 499_999_986
    assert!(!artifacts_verify(&circuit));
}

#[test]
fn merkle_scenario() {
    let tree = MerkleTree::new(bigs(&[10, 20, 50, 80]));
    let circuit = merkle_circuit(&tree, 2);
    // leaf, sibling, their parent, the parent's sibling, the root
    assert_eq!(wires(&circuit), bigs(&[50, 80, 130, 30, 160]));
    assert_eq!(wires(&circuit).last().unwrap(), &tree.root);
    let r1cs = circuit.to_r1cs().unwrap();
    assert_eq!(r1cs.constraints.len(), 2);
    // the leaf is the left one of its pair: the sibling is named first
    assert_eq!(r1cs.constraints[0].left[0].0.index, 1);
    assert_eq!(r1cs.constraints[0].right[0].0.index, 0);
    assert_eq!(r1cs.constraints[0].output[0].0.index, 2);
    // one level up the running node is the right one
    assert_eq!(r1cs.constraints[1].left[0].0.index, 2);
    assert_eq!(r1cs.constraints[1].right[0].0.index, 3);
    assert_eq!(r1cs.constraints[1].output[0].0.index, 4);
    assert!(artifacts_verify(&circuit));
}

#[test]
fn merkle_circuit_of_every_leaf_ends_on_the_root() {
    for n in 1..8usize {
        let leaves: Vec<BigInt> = (0..n).map(|i| BigInt::from(999_999_000 + 500 * i as i64)).collect();
        let tree = MerkleTree::new(leaves);
        for i in 0..n {
            let circuit = merkle_circuit(&tree, i);
            assert_eq!(wires(&circuit).last().unwrap(), &tree.root);
        }
    }
}

#[test]
fn eligibility_circuit_wires_and_gates() {
    let circuit = zero_knowledge_proofs::eligibility_circuit(100, 50, 30, 20, 40, 90, 60, 10);
    assert_eq!(wires(&circuit), bigs(&[100, 50, 30, 20, 40, 90, 60, 10, 3600, 3650]));
    let r1cs = circuit.to_r1cs().unwrap();
    assert_eq!(r1cs.constraints.len(), 2);
    assert_eq!(r1cs.constraints[0].operation, Operation::Mul);
    assert_eq!(r1cs.constraints[0].left[0].0.index, 5);
    assert_eq!(r1cs.constraints[0].right[0].0.index, 4);
    assert_eq!(r1cs.constraints[0].output[0].0.index, 8);
    assert_eq!(r1cs.constraints[1].operation, Operation::Add);
    assert_eq!(r1cs.constraints[1].left[0].0.index, 8);
    assert_eq!(r1cs.constraints[1].right[0].0.index, 1);
    assert_eq!(r1cs.constraints[1].output[0].0.index, 9);
    assert!(artifacts_verify(&circuit));
}
