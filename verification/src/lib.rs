//! Arithmetic circuits over a prime field, their rank-1 constraint systems,
//! witnesses, commitments and Merkle paths, with machine-checked contracts.

pub mod bigint;
pub mod circuit;
pub mod error;
pub mod field;
pub mod lagrange;
pub mod merkle;
pub mod proving;
pub mod qap;
pub mod r1cs;
pub mod scenarios;
pub mod snapshot;
pub mod words;

use crate::bigint::{big_from_u64, big_mul, big_rem, big_to_u64};
use crate::circuit::{gates_below, Circuit, Gate};
use crate::field::{field_add, lemma_trunc_rem_congruent, FieldElement, FIELD_PRIME};
use crate::proving::proof_of;
use crate::snapshot::decoded_proof;
use vstd::arithmetic::div_mod::lemma_mod_bound;
use vstd::prelude::*;

verus! {

/// The residue of a machine integer.
pub open spec fn residue_of(x: u32) -> int {
    (x as int) % (FIELD_PRIME as int)
}

/// The ten wire values of the eligibility circuit: the eight inputs in
/// order, then reputation times carbon credits, then that product plus the
/// credits returned.
pub open spec fn eligibility_wires(
    net_emissions: u32,
    total_credits_returned: u32,
    total_borrowed: u32,
    debt: u32,
    carbon_credits: u32,
    reputation: u32,
    org2_carbon_credits: u32,
    org2_debt: u32,
) -> Seq<int> {
    let product = (residue_of(reputation) * residue_of(carbon_credits)) % (FIELD_PRIME as int);
    seq![
        residue_of(net_emissions),
        residue_of(total_credits_returned),
        residue_of(total_borrowed),
        residue_of(debt),
        residue_of(carbon_credits),
        residue_of(reputation),
        residue_of(org2_carbon_credits),
        residue_of(org2_debt),
        product,
        field_add(product, residue_of(total_credits_returned)),
    ]
}

/// The eligibility score: `reputation * carbon_credits + total_credits_returned`
/// in the field, reduced below one million, with zero raised to one.
pub open spec fn eligibility_score(
    total_credits_returned: u32,
    carbon_credits: u32,
    reputation: u32,
) -> int {
    let product = (residue_of(reputation) * residue_of(carbon_credits)) % (FIELD_PRIME as int);
    let reduced = field_add(product, residue_of(total_credits_returned)) % 1_000_000;
    if reduced <= 0 {
        1
    } else {
        reduced
    }
}

/// The circuit that computes the eligibility score: the eight inputs on the
/// first eight wires, a multiplication of reputation and carbon credits into
/// the ninth, an addition of that product and the credits returned into the
/// tenth, and the tenth recorded as output.
pub fn eligibility_circuit(
    net_emissions: u32,
    total_credits_returned: u32,
    total_borrowed: u32,
    debt: u32,
    carbon_credits: u32,
    reputation: u32,
    org2_carbon_credits: u32,
    org2_debt: u32,
) -> (circuit: Circuit)
    ensures
        circuit.wf(),
        circuit@.inputs == eligibility_wires(
            net_emissions,
            total_credits_returned,
            total_borrowed,
            debt,
            carbon_credits,
            reputation,
            org2_carbon_credits,
            org2_debt,
        ),
        circuit@.gates == seq![Gate::Mul(5, 4, 8), Gate::Add(8, 1, 9)],
        circuit@.outputs == seq![
            field_add(
                (residue_of(reputation) * residue_of(carbon_credits)) % (FIELD_PRIME as int),
                residue_of(total_credits_returned),
            ),
        ],
{
    let mut circuit = Circuit::new();
    let net_emissions_idx = circuit.add_input(FieldElement::new(big_from_u64(net_emissions as u64)));
    let total_credits_returned_idx = circuit.add_input(
        FieldElement::new(big_from_u64(total_credits_returned as u64)),
    );
    let total_borrowed_idx = circuit.add_input(
        FieldElement::new(big_from_u64(total_borrowed as u64)),
    );
    let debt_idx = circuit.add_input(FieldElement::new(big_from_u64(debt as u64)));
    let carbon_credits_idx = circuit.add_input(
        FieldElement::new(big_from_u64(carbon_credits as u64)),
    );
    let reputation_idx = circuit.add_input(FieldElement::new(big_from_u64(reputation as u64)));
    let org2_carbon_credits_idx = circuit.add_input(
        FieldElement::new(big_from_u64(org2_carbon_credits as u64)),
    );
    let org2_debt_idx = circuit.add_input(FieldElement::new(big_from_u64(org2_debt as u64)));

    let reputation_times_credits = big_mul(
        &circuit.get_input(reputation_idx).unwrap().get_value(),
        &circuit.get_input(carbon_credits_idx).unwrap().get_value(),
    );
    let multiply_result_idx = circuit.add_input(FieldElement::new(reputation_times_credits));
    circuit.add_gate(Gate::Mul(reputation_idx, carbon_credits_idx, multiply_result_idx));

    let score_value = circuit.get_input(multiply_result_idx).unwrap().add(
        circuit.get_input(total_credits_returned_idx).unwrap(),
    );
    let final_score_idx = circuit.add_input(score_value.clone());
    circuit.add_gate(Gate::Add(multiply_result_idx, total_credits_returned_idx, final_score_idx));
    circuit.set_output(score_value);
    proof {
        assert(circuit@.inputs =~= eligibility_wires(
            net_emissions,
            total_credits_returned,
            total_borrowed,
            debt,
            carbon_credits,
            reputation,
            org2_carbon_credits,
            org2_debt,
        ));
        assert(circuit@.gates =~= seq![Gate::Mul(5, 4, 8), Gate::Add(8, 1, 9)]);
        assert(circuit@.outputs =~= seq![
            field_add(
                (residue_of(reputation) * residue_of(carbon_credits)) % (FIELD_PRIME as int),
                residue_of(total_credits_returned),
            ),
        ]);
    }
    circuit
}

/// Computes the eligibility score of an organisation and a snapshot of a
/// proof that commits to the wires of the circuit that computes it.
pub fn eligibility_proof(
    net_emissions: u32,
    total_credits_returned: u32,
    total_borrowed: u32,
    debt: u32,
    carbon_credits: u32,
    reputation: u32,
    org2_carbon_credits: u32,
    org2_debt: u32,
) -> (r: (i32, Vec<u8>))
    ensures
        r.0 == eligibility_score(total_credits_returned, carbon_credits, reputation),
        1 <= r.0 < 1_000_000,
        decoded_proof(r.1@) == Some(
            proof_of(
                eligibility_wires(
                    net_emissions,
                    total_credits_returned,
                    total_borrowed,
                    debt,
                    carbon_credits,
                    reputation,
                    org2_carbon_credits,
                    org2_debt,
                ),
            ),
        ),
{
    let circuit = eligibility_circuit(
        net_emissions,
        total_credits_returned,
        total_borrowed,
        debt,
        carbon_credits,
        reputation,
        org2_carbon_credits,
        org2_debt,
    );
    proof {
        assert(gates_below(circuit@.gates, 10));
    }
    let score_value = circuit.get_input(9).unwrap();
    proof {
        lemma_trunc_rem_congruent(score_value@, 1_000_000);
        lemma_mod_bound(score_value@, 1_000_000);
    }
    let reduced = big_rem(&score_value.get_value(), &big_from_u64(1_000_000));
    let eligibility_score: i32 = match big_to_u64(&reduced) {
        Some(v) => v as i32,
        None => 1,
    };
    let score = if eligibility_score <= 0 {
        1
    } else {
        eligibility_score
    };
    match circuit.generate_proof() {
        Ok(artifacts) => {
            let _ = circuit.verify_proof(artifacts.proof.as_slice(), artifacts.r1cs.as_slice());
            (score, artifacts.proof)
        },
        Err(_) => {
            proof {
                assert(false);
            }
            (score, Vec::new())
        },
    }
}

} // verus!
