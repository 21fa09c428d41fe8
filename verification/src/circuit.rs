//! Circuits of addition and multiplication gates over input wires, and their
//! lowering into constraint systems.

use crate::bigint::{big_clone, big_from_u64, bigint_value};
use crate::error::ZkError;
use crate::field::{FieldElement, FIELD_PRIME};
use crate::qap::{accumulate, all_wf, field_values, term_pairs, QapView};
use crate::r1cs::{
    indexed_variables, ConstraintView, Operation, SystemView, TermView, VariableView, R1CS,
};
use crate::proving::{
    commitment_of, constraint_outcome, lemma_all_pass, lemma_commitment_in_range,
    lemma_tampered_commitment_differs, proof_of, proof_outcome, recorded_sum, Proof, ProofView,
};
use crate::r1cs::{
    constraint_below, lemma_operations_all_pass, operation_outcome, operations_outcome,
    product_sum, record_terms, system_values, terms_below,
};
use crate::snapshot::{decoded_proof, decoded_system};
use num_bigint::BigInt;
use vstd::arithmetic::div_mod::lemma_small_mod;
use vstd::prelude::*;

verus! {

/// An elementary operation over three wires: two operands and a result.
#[derive(Clone, Copy, Debug, PartialEq, Eq, Structural)]
pub enum Gate {
    Add(usize, usize, usize),
    Mul(usize, usize, usize),
}

/// The wires of a gate: left operand, right operand, result.
pub open spec fn gate_wires(g: Gate) -> (usize, usize, usize) {
    match g {
        Gate::Add(a, b, out) => (a, b, out),
        Gate::Mul(a, b, out) => (a, b, out),
    }
}

/// The operation that a gate's constraint carries.
pub open spec fn gate_operation(g: Gate) -> Operation {
    match g {
        Gate::Add(_, _, _) => Operation::Add,
        Gate::Mul(_, _, _) => Operation::Mul,
    }
}

/// All three wires of `g` lie below `n`.
pub open spec fn gate_below(g: Gate, n: nat) -> bool {
    gate_wires(g).0 < n && gate_wires(g).1 < n && gate_wires(g).2 < n
}

/// All wires of all gates lie below `n`.
pub open spec fn gates_below(gates: Seq<Gate>, n: nat) -> bool {
    forall|i: int| 0 <= i < gates.len() ==> gate_below(#[trigger] gates[i], n)
}

/// The single term that stands for a wire: its variable, with coefficient one.
pub open spec fn wire_terms(variables: Seq<VariableView>, wire: usize) -> Seq<TermView> {
    seq![TermView { variable: variables[wire as int], coeff: 1 }]
}

/// The constraint that a gate lowers to: one wire per side, tagged with the
/// gate's operation.
pub open spec fn gate_constraint(variables: Seq<VariableView>, g: Gate) -> ConstraintView {
    ConstraintView {
        left: wire_terms(variables, gate_wires(g).0),
        right: wire_terms(variables, gate_wires(g).1),
        output: wire_terms(variables, gate_wires(g).2),
        operation: gate_operation(g),
    }
}

/// The coefficient maps after merging every gate, in order: each gate adds
/// one to the coefficient of each of its wires, on that wire's side.
pub open spec fn gates_program(gates: Seq<Gate>) -> QapView
    decreases gates.len(),
{
    if gates.len() == 0 {
        QapView { left: Map::empty(), right: Map::empty(), output: Map::empty() }
    } else {
        let before = gates_program(gates.drop_last());
        let wires = gate_wires(gates.last());
        QapView {
            left: accumulate(before.left, seq![(wires.0, 1int)]),
            right: accumulate(before.right, seq![(wires.1, 1int)]),
            output: accumulate(before.output, seq![(wires.2, 1int)]),
        }
    }
}

/// What a circuit denotes: the residues on its input wires, its gates, and
/// the residues recorded as outputs.
pub struct CircuitView {
    pub inputs: Seq<int>,
    pub gates: Seq<Gate>,
    pub outputs: Seq<int>,
}

/// The constraint system that a circuit lowers to.
pub open spec fn lowered(c: CircuitView) -> SystemView {
    SystemView {
        variables: indexed_variables(c.inputs),
        constraints: Seq::new(
            c.gates.len(),
            |i: int| gate_constraint(indexed_variables(c.inputs), c.gates[i]),
        ),
        qap: gates_program(c.gates),
    }
}

/// The outcome of lowering: a circuit without inputs is invalid, a gate
/// that names a missing wire is out of range.
pub open spec fn lowering_outcome(c: CircuitView) -> Result<SystemView, ZkError> {
    if c.inputs.len() == 0 {
        Err(ZkError::InvalidCircuit)
    } else if !gates_below(c.gates, c.inputs.len()) {
        Err(ZkError::IndexOutOfRange)
    } else {
        Ok(lowered(c))
    }
}

/// The snapshots that proof generation hands out: the constraint system and
/// the proof, each as bytes.
pub struct ProofArtifacts {
    pub r1cs: Vec<u8>,
    pub proof: Vec<u8>,
}

/// Each integer reduced to its residue.
pub open spec fn residues(values: Seq<int>) -> Seq<int> {
    Seq::new(values.len(), |i: int| values[i] % (FIELD_PRIME as int))
}

/// The outcome of verifying a proof against constraints: a commitment that
/// does not match the witness is rejected before any constraint is looked
/// at; otherwise the witness, reduced to residues, must obey the operation
/// of every constraint.
pub open spec fn verification_outcome(proof: ProofView, constraints: Seq<ConstraintView>) -> Result<
    bool,
    ZkError,
> {
    if proof.commitment != commitment_of(proof.witness) {
        Ok(false)
    } else {
        operations_outcome(constraints, residues(proof.witness))
    }
}

/// The outcome of verifying a proof snapshot against a system snapshot:
/// either snapshot may fail to decode; otherwise the proof is verified
/// against the constraints of the system.
pub open spec fn artifact_outcome(proof_bytes: Seq<u8>, r1cs_bytes: Seq<u8>) -> Result<
    bool,
    ZkError,
> {
    match decoded_proof(proof_bytes) {
        None => Err(ZkError::DecodeFailure),
        Some(proof) => match decoded_system(r1cs_bytes) {
            None => Err(ZkError::DecodeFailure),
            Some(system) => verification_outcome(proof, system.constraints),
        },
    }
}

/// Verifying the same snapshots again gives the same answer.
pub proof fn lemma_verification_repeatable(
    proof_bytes: Seq<u8>,
    r1cs_bytes: Seq<u8>,
    first: Result<bool, ZkError>,
    second: Result<bool, ZkError>,
)
    requires
        first == artifact_outcome(proof_bytes, r1cs_bytes),
        second == artifact_outcome(proof_bytes, r1cs_bytes),
    ensures
        first == second,
{
}

/// A proof snapshot in which a single witness value was replaced, by one
/// that differs from it by anything but a multiple of the modulus, is
/// rejected against any system snapshot that decodes.
pub proof fn lemma_tampered_artifact_rejected(
    witness: Seq<int>,
    i: int,
    v: int,
    proof_bytes: Seq<u8>,
    r1cs_bytes: Seq<u8>,
)
    requires
        0 <= i < witness.len(),
        (v - witness[i]) % (FIELD_PRIME as int) != 0,
        decoded_proof(proof_bytes) == Some(
            ProofView { witness: witness.update(i, v), commitment: commitment_of(witness) },
        ),
        decoded_system(r1cs_bytes) is Some,
    ensures
        artifact_outcome(proof_bytes, r1cs_bytes) == Ok::<bool, ZkError>(false),
{
    lemma_tampered_commitment_differs(witness, i, v);
}

/// The three wires of `g` hold what `g` computes, over the integers.
pub open spec fn gate_holds(inputs: Seq<int>, g: Gate) -> bool {
    match g {
        Gate::Add(a, b, out) => inputs[a as int] + inputs[b as int] == inputs[out as int],
        Gate::Mul(a, b, out) => inputs[a as int] * inputs[b as int] == inputs[out as int],
    }
}

/// A circuit whose gates all hold over the integers yields a proof that
/// verifies against the system it lowers to, both on the values recorded in
/// the system and on the witness of the proof.
pub proof fn lemma_consistent_circuit_verifies(c: CircuitView)
    requires
        forall|i: int| 0 <= i < c.inputs.len() ==> 0 <= #[trigger] c.inputs[i] < FIELD_PRIME,
        gates_below(c.gates, c.inputs.len()),
        forall|k: int| 0 <= k < c.gates.len() ==> gate_holds(c.inputs, #[trigger] c.gates[k]),
    ensures
        proof_outcome(proof_of(c.inputs), lowered(c).constraints) == Ok::<bool, ZkError>(true),
        verification_outcome(proof_of(c.inputs), lowered(c).constraints) == Ok::<bool, ZkError>(
            true,
        ),
{
    let variables = indexed_variables(c.inputs);
    let constraints = lowered(c).constraints;
    let witness = residues(c.inputs);
    assert(witness =~= c.inputs) by {
        assert forall|i: int| 0 <= i < c.inputs.len() implies witness[i] == c.inputs[i] by {
            lemma_small_mod(c.inputs[i] as nat, FIELD_PRIME as nat);
        }
    }
    assert forall|k: int| 0 <= k < constraints.len() implies constraint_outcome(
        #[trigger] constraints[k],
    ) == Ok::<bool, ZkError>(true) && operation_outcome(constraints[k], witness) == Ok::<
        bool,
        ZkError,
    >(true) by {
        let g = c.gates[k];
        assert(gate_below(g, c.inputs.len()));
        assert(gate_holds(c.inputs, g));
        assert(constraints[k] == gate_constraint(variables, g));
        lemma_wire_sum(variables, c.inputs, gate_wires(g).0);
        lemma_wire_sum(variables, c.inputs, gate_wires(g).1);
        lemma_wire_sum(variables, c.inputs, gate_wires(g).2);
        assert(constraint_below(constraints[k], witness.len()));
    }
    lemma_all_pass(constraints);
    lemma_operations_all_pass(constraints, witness);
}

/// The snapshots that a circuit generates verify, if its gates all hold
/// over the integers.
pub proof fn lemma_generated_artifacts_verify(c: Circuit, proof_bytes: Seq<u8>, r1cs_bytes: Seq<u8>)
    requires
        c.wf(),
        gates_below(c@.gates, c@.inputs.len()),
        forall|k: int| 0 <= k < c@.gates.len() ==> gate_holds(c@.inputs, #[trigger] c@.gates[k]),
        decoded_system(r1cs_bytes) == Some(lowered(c@)),
        decoded_proof(proof_bytes) == Some(proof_of(c@.inputs)),
    ensures
        artifact_outcome(proof_bytes, r1cs_bytes) == Ok::<bool, ZkError>(true),
{
    c.lemma_wires_are_residues();
    lemma_consistent_circuit_verifies(c@);
}

/// The recorded sum of a single wire is the residue on that wire.
pub proof fn lemma_wire_sum(variables: Seq<VariableView>, inputs: Seq<int>, wire: usize)
    requires
        variables == indexed_variables(inputs),
        wire < inputs.len(),
        0 <= inputs[wire as int] < FIELD_PRIME,
    ensures
        recorded_sum(wire_terms(variables, wire)) == inputs[wire as int],
        product_sum(wire_terms(variables, wire), inputs) == inputs[wire as int],
        terms_below(wire_terms(variables, wire), inputs.len()),
{
    let terms = wire_terms(variables, wire);
    assert(terms.drop_last() =~= Seq::<TermView>::empty());
    assert(recorded_sum(terms.drop_last()) == 0);
    assert(product_sum(terms.drop_last(), inputs) == 0);
    assert(terms.last().variable.value == inputs[wire as int]);
    assert(terms.last().variable.index == wire);
    lemma_small_mod(inputs[wire as int] as nat, FIELD_PRIME as nat);
    assert(inputs[wire as int] * 1 == inputs[wire as int]);
}

/// Input wires, gates over them, and recorded outputs.
pub struct Circuit {
    inputs: Vec<FieldElement>,
    gates: Vec<Gate>,
    outputs: Vec<FieldElement>,
    modulus: BigInt,
}

impl View for Circuit {
    type V = CircuitView;

    closed spec fn view(&self) -> CircuitView {
        CircuitView {
            inputs: field_values(self.inputs@),
            gates: self.gates@,
            outputs: field_values(self.outputs@),
        }
    }
}

impl Circuit {
    /// Every wire and output holds a well-formed element of the circuit's field.
    pub closed spec fn wf(&self) -> bool {
        &&& all_wf(self.inputs@)
        &&& all_wf(self.outputs@)
        &&& bigint_value(self.modulus) == FIELD_PRIME
    }

    /// The wires and outputs of a well-formed circuit hold canonical
    /// residues, so the proof it generates commits to a residue.
    pub proof fn lemma_wires_are_residues(&self)
        requires
            self.wf(),
        ensures
            forall|i: int|
                0 <= i < self@.inputs.len() ==> 0 <= #[trigger] self@.inputs[i] < FIELD_PRIME,
            forall|i: int|
                0 <= i < self@.outputs.len() ==> 0 <= #[trigger] self@.outputs[i] < FIELD_PRIME,
            0 <= proof_of(self@.inputs).commitment < FIELD_PRIME,
    {
        assert forall|i: int| 0 <= i < self@.inputs.len() implies 0 <= #[trigger] self@.inputs[i]
            < FIELD_PRIME by {
            assert(self.inputs@[i].wf());
        }
        assert forall|i: int| 0 <= i < self@.outputs.len() implies 0
            <= #[trigger] self@.outputs[i] < FIELD_PRIME by {
            assert(self.outputs@[i].wf());
        }
        lemma_commitment_in_range(self@.inputs);
    }

    /// The circuit without wires, gates or outputs.
    pub fn new() -> (c: Circuit)
        ensures
            c.wf(),
            c@.inputs.len() == 0,
            c@.gates.len() == 0,
            c@.outputs.len() == 0,
    {
        Circuit {
            inputs: Vec::new(),
            gates: Vec::new(),
            outputs: Vec::new(),
            modulus: big_from_u64(FIELD_PRIME),
        }
    }

    /// Appends an input wire and returns its index.
    pub fn add_input(&mut self, value: FieldElement) -> (index: usize)
        requires
            old(self).wf(),
            value.wf(),
        ensures
            final(self).wf(),
            index == old(self)@.inputs.len(),
            final(self)@.inputs == old(self)@.inputs.push(value@),
            final(self)@.gates == old(self)@.gates,
            final(self)@.outputs == old(self)@.outputs,
    {
        let index = self.inputs.len();
        self.inputs.push(value);
        proof {
            assert(self@.inputs =~= old(self)@.inputs.push(value@));
        }
        index
    }

    /// Appends a gate. Its wires are not looked at until the circuit is lowered.
    pub fn add_gate(&mut self, gate: Gate)
        requires
            old(self).wf(),
        ensures
            final(self).wf(),
            final(self)@.inputs == old(self)@.inputs,
            final(self)@.gates == old(self)@.gates.push(gate),
            final(self)@.outputs == old(self)@.outputs,
    {
        self.gates.push(gate);
    }

    /// Records an output value.
    pub fn set_output(&mut self, value: FieldElement)
        requires
            old(self).wf(),
            value.wf(),
        ensures
            final(self).wf(),
            final(self)@.inputs == old(self)@.inputs,
            final(self)@.gates == old(self)@.gates,
            final(self)@.outputs == old(self)@.outputs.push(value@),
    {
        self.outputs.push(value);
        proof {
            assert(self@.outputs =~= old(self)@.outputs.push(value@));
        }
    }

    /// The input wire at `index`, if there is one.
    pub fn get_input(&self, index: usize) -> (r: Option<&FieldElement>)
        requires
            self.wf(),
        ensures
            match r {
                Some(e) => index < self@.inputs.len() && e@ == self@.inputs[index as int] && e.wf(),
                None => index >= self@.inputs.len(),
            },
    {
        if index < self.inputs.len() {
            Some(&self.inputs[index])
        } else {
            None
        }
    }

    /// Lowers the circuit, commits to its inputs as the witness, and hands
    /// out snapshots of the constraint system and of the proof.
    pub fn generate_proof(&self) -> (r: Result<ProofArtifacts, ZkError>)
        requires
            self.wf(),
        ensures
            match r {
                Ok(artifacts) => {
                    &&& lowering_outcome(self@) is Ok
                    &&& decoded_system(artifacts.r1cs@) == Some(lowered(self@))
                    &&& decoded_proof(artifacts.proof@) == Some(proof_of(self@.inputs))
                },
                Err(err) => lowering_outcome(self@) == Err::<SystemView, ZkError>(err),
            },
    {
        let r1cs = match self.to_r1cs() {
            Ok(r1cs) => r1cs,
            Err(err) => {
                return Err(err);
            },
        };
        let r1cs_bytes = r1cs.save_to_binary();
        let witness = r1cs.generate_witness();
        proof {
            assert(r1cs@.variables == indexed_variables(self@.inputs));
            assert(system_values(r1cs@) =~= self@.inputs);
        }
        let proof = r1cs.generate_proof(&witness);
        let proof_bytes = proof.save_to_binary();
        Ok(ProofArtifacts { r1cs: r1cs_bytes, proof: proof_bytes })
    }

    /// Verifies a proof snapshot against a system snapshot. The commitment
    /// must match the witness of the proof; then that witness, reduced to
    /// field elements, must obey the operation of every constraint of the
    /// system: the sums are taken over the witness, not over the values
    /// recorded in the system. The circuit itself is not consulted.
    pub fn verify_proof(&self, proof_bytes: &[u8], r1cs_bytes: &[u8]) -> (r: Result<
        bool,
        ZkError,
    >)
        ensures
            r == artifact_outcome(proof_bytes@, r1cs_bytes@),
    {
        let proof = match Proof::load_from_binary(proof_bytes) {
            Ok(proof) => proof,
            Err(err) => {
                return Err(err);
            },
        };
        let r1cs = match R1CS::load_from_binary(r1cs_bytes) {
            Ok(r1cs) => r1cs,
            Err(err) => {
                return Err(err);
            },
        };
        if !proof.commitment_matches() {
            return Ok(false);
        }
        let mut witness: Vec<FieldElement> = Vec::new();
        let mut i: usize = 0;
        while i < proof.witness.len()
            invariant
                i <= proof.witness.len(),
                witness@.len() == i,
                all_wf(witness@),
                forall|j: int|
                    0 <= j < i ==> (#[trigger] witness@[j])@ == proof@.witness[j] % (
                    FIELD_PRIME as int),
            decreases proof.witness.len() - i,
        {
            witness.push(FieldElement::new(big_clone(&proof.witness[i])));
            i += 1;
        }
        proof {
            assert(field_values(witness@) =~= residues(proof@.witness));
        }
        r1cs.verify_operations(witness.as_slice())
    }

    /// Lowers the circuit into a constraint system: one variable per input,
    /// one constraint per gate.
    pub fn to_r1cs(&self) -> (r: Result<R1CS, ZkError>)
        requires
            self.wf(),
        ensures
            match r {
                Ok(system) => system.wf() && lowering_outcome(self@) == Ok::<SystemView, ZkError>(
                    system@,
                ),
                Err(err) => lowering_outcome(self@) == Err::<SystemView, ZkError>(err),
            },
    {
        if self.inputs.len() == 0 {
            return Err(ZkError::InvalidCircuit);
        }
        let mut r1cs = R1CS::new();
        let mut i: usize = 0;
        while i < self.inputs.len()
            invariant
                i <= self.inputs.len(),
                self.wf(),
                r1cs.wf(),
                r1cs@.variables == indexed_variables(self@.inputs.take(i as int)),
                r1cs@.constraints.len() == 0,
                r1cs@.qap == gates_program(Seq::<Gate>::empty()),
            decreases self.inputs.len() - i,
        {
            r1cs.add_variable(self.inputs[i].clone());
            proof {
                assert(r1cs@.variables =~= indexed_variables(self@.inputs.take(i + 1)));
            }
            i += 1;
        }
        proof {
            assert(self@.inputs.take(i as int) =~= self@.inputs);
        }
        let ghost variables = indexed_variables(self@.inputs);
        let mut g: usize = 0;
        while g < self.gates.len()
            invariant
                g <= self.gates.len(),
                self.inputs.len() > 0,
                self.wf(),
                r1cs.wf(),
                variables == indexed_variables(self@.inputs),
                r1cs@.variables == variables,
                gates_below(self@.gates.take(g as int), self@.inputs.len()),
                r1cs@.constraints == Seq::new(
                    g as nat,
                    |k: int| gate_constraint(variables, self@.gates[k]),
                ),
                r1cs@.qap == gates_program(self@.gates.take(g as int)),
            decreases self.gates.len() - g,
        {
            let (a, b, output, operation) = match self.gates[g] {
                Gate::Add(a, b, output) => (a, b, output, Operation::Add),
                Gate::Mul(a, b, output) => (a, b, output, Operation::Mul),
            };
            let count = r1cs.variables.len();
            if a >= count || b >= count || output >= count {
                proof {
                    assert(r1cs@.variables.len() == count);
                    assert(self@.inputs.len() == count);
                    assert(gate_wires(self@.gates[g as int]) == (a, b, output));
                    assert(!gate_below(self@.gates[g as int], self@.inputs.len()));
                }
                return Err(ZkError::IndexOutOfRange);
            }
            proof {
                lemma_small_mod(1, FIELD_PRIME as nat);
            }
            let left = vec![(r1cs.variables[a].index, FieldElement::new(big_from_u64(1)))];
            let right = vec![(r1cs.variables[b].index, FieldElement::new(big_from_u64(1)))];
            let out = vec![(r1cs.variables[output].index, FieldElement::new(big_from_u64(1)))];
            let added = r1cs.add_constraint(
                left.as_slice(),
                right.as_slice(),
                out.as_slice(),
                &self.modulus,
                operation,
            );
            proof {
                let gate = self@.gates[g as int];
                let prefix = self@.gates.take(g + 1);
                assert(prefix.drop_last() =~= self@.gates.take(g as int));
                assert(prefix.last() == gate);
                assert(term_pairs(left@) =~= seq![(gate_wires(gate).0, 1int)]);
                assert(term_pairs(right@) =~= seq![(gate_wires(gate).1, 1int)]);
                assert(term_pairs(out@) =~= seq![(gate_wires(gate).2, 1int)]);
                assert(added is Ok);
                assert(record_terms(variables, term_pairs(left@))
                    =~= wire_terms(variables, gate_wires(gate).0));
                assert(record_terms(variables, term_pairs(right@))
                    =~= wire_terms(variables, gate_wires(gate).1));
                assert(record_terms(variables, term_pairs(out@))
                    =~= wire_terms(variables, gate_wires(gate).2));
                assert(r1cs@.constraints =~= Seq::new(
                    (g + 1) as nat,
                    |k: int| gate_constraint(variables, self@.gates[k]),
                ));
                assert(gates_below(prefix, self@.inputs.len())) by {
                    assert forall|k: int| 0 <= k < prefix.len() implies gate_below(
                        #[trigger] prefix[k],
                        self@.inputs.len(),
                    ) by {
                        if k < g {
                            assert(prefix[k] == self@.gates.take(g as int)[k]);
                        }
                    }
                }
            }
            g += 1;
        }
        proof {
            assert(self@.gates.take(g as int) =~= self@.gates);
            assert(r1cs@.constraints =~= lowered(self@).constraints);
        }
        Ok(r1cs)
    }
}

} // verus!
