//! A witness bundled with a commitment to it, and the check of such a bundle
//! against a constraint system.

use crate::bigint::{big_add, big_eq, big_from_u64, big_mul, big_rem, big_values, bigint_value};
use crate::error::ZkError;
use crate::bigint::trunc_rem;
use crate::field::{field_mul, lemma_trunc_rem_congruent, FieldElement, FIELD_PRIME};
use vstd::arithmetic::div_mod::lemma_mod_equivalence;
use crate::merkle::combine;
use crate::qap::field_values;
use crate::r1cs::{
    recorded_wf, terms_view, ConstraintView, Operation, TermView, Variable, R1CS,
};
use num_bigint::BigInt;
use vstd::prelude::*;

verus! {

/// The sum of a sequence of integers.
pub open spec fn int_sum(s: Seq<int>) -> int
    decreases s.len(),
{
    if s.len() == 0 {
        0
    } else {
        int_sum(s.drop_last()) + s.last()
    }
}

/// The commitment to a witness: the sum of its values, combined with zero.
pub open spec fn commitment_of(witness: Seq<int>) -> int {
    combine(int_sum(witness), 0)
}

/// What a proof denotes.
pub struct ProofView {
    pub witness: Seq<int>,
    pub commitment: int,
}

/// The proof that commits to a witness.
pub open spec fn proof_of(witness: Seq<int>) -> ProofView {
    ProofView { witness, commitment: commitment_of(witness) }
}

/// A witness and the commitment that binds it.
pub struct Proof {
    pub witness: Vec<BigInt>,
    pub commitment: BigInt,
}

impl View for Proof {
    type V = ProofView;

    open spec fn view(&self) -> ProofView {
        ProofView { witness: big_values(self.witness@), commitment: bigint_value(self.commitment) }
    }
}

/// The integer sum, over a list of terms, of each recorded variable's value
/// times its coefficient, the product reduced in the field.
pub open spec fn recorded_sum(terms: Seq<TermView>) -> int
    decreases terms.len(),
{
    if terms.len() == 0 {
        0
    } else {
        recorded_sum(terms.drop_last()) + field_mul(
            terms.last().variable.value,
            terms.last().coeff,
        )
    }
}

/// Whether a constraint's recorded values obey its operation; an operation
/// without an evaluation rule is an error.
pub open spec fn constraint_outcome(c: ConstraintView) -> Result<bool, ZkError> {
    match c.operation {
        Operation::Add => Ok(recorded_sum(c.left) + recorded_sum(c.right) == recorded_sum(c.output)),
        Operation::Mul => Ok(recorded_sum(c.left) * recorded_sum(c.right) == recorded_sum(c.output)),
        Operation::Hash => Err(ZkError::UnsupportedOperation),
    }
}

/// The outcome of checking constraints in order: the first that carries an
/// unsupported operation is an error, the first that fails makes the answer
/// `false`.
pub open spec fn constraints_outcome(constraints: Seq<ConstraintView>) -> Result<bool, ZkError>
    decreases constraints.len(),
{
    if constraints.len() == 0 {
        Ok(true)
    } else if constraint_outcome(constraints[0]) != Ok::<bool, ZkError>(true) {
        constraint_outcome(constraints[0])
    } else {
        constraints_outcome(constraints.drop_first())
    }
}

/// The outcome of verifying a proof: a commitment that does not match the
/// witness is rejected before any constraint is looked at.
pub open spec fn proof_outcome(proof: ProofView, constraints: Seq<ConstraintView>) -> Result<
    bool,
    ZkError,
> {
    if proof.commitment != commitment_of(proof.witness) {
        Ok(false)
    } else {
        constraints_outcome(constraints)
    }
}

/// Replacing one value of a sequence changes its sum by the difference.
pub proof fn lemma_sum_update(s: Seq<int>, i: int, v: int)
    requires
        0 <= i < s.len(),
    ensures
        int_sum(s.update(i, v)) == int_sum(s) - s[i] + v,
    decreases s.len(),
{
    let t = s.update(i, v);
    if i == s.len() - 1 {
        assert(t.drop_last() =~= s.drop_last());
    } else {
        assert(t.drop_last() =~= s.drop_last().update(i, v));
        lemma_sum_update(s.drop_last(), i, v);
    }
}

/// Removing one value of a sequence lowers its sum by that value.
pub proof fn lemma_sum_remove(s: Seq<int>, i: int)
    requires
        0 <= i < s.len(),
    ensures
        int_sum(s.remove(i)) == int_sum(s) - s[i],
    decreases s.len(),
{
    if i == s.len() - 1 {
        assert(s.remove(i) =~= s.drop_last());
    } else {
        assert(s.remove(i).drop_last() =~= s.drop_last().remove(i));
        assert(s.remove(i).last() == s.last());
        lemma_sum_remove(s.drop_last(), i);
    }
}

/// The commitment depends on the values of the witness only, not on their
/// order: two witnesses that hold the same values equally often commit to
/// the same integer.
pub proof fn lemma_commitment_order_independent(a: Seq<int>, b: Seq<int>)
    requires
        a.to_multiset() == b.to_multiset(),
    ensures
        int_sum(a) == int_sum(b),
        commitment_of(a) == commitment_of(b),
    decreases a.len(),
{
    broadcast use vstd::multiset::group_multiset_axioms;

    a.to_multiset_ensures();
    b.to_multiset_ensures();
    if a.len() > 0 {
        let x = a.last();
        let front = a.drop_last();
        front.to_multiset_ensures();
        assert(front.push(x) =~= a);
        assert(a.to_multiset() =~= front.to_multiset().insert(x));
        assert(b.to_multiset().count(x) > 0);
        assert(b.contains(x));
        let i = choose|i: int| 0 <= i < b.len() && b[i] == x;
        let rest = b.remove(i);
        assert(rest.to_multiset() =~= b.to_multiset().remove(x));
        assert(rest.to_multiset() =~= front.to_multiset());
        lemma_commitment_order_independent(front, rest);
        lemma_sum_remove(b, i);
    }
}

/// The commitment to a witness of residues is itself a residue.
pub proof fn lemma_commitment_in_range(witness: Seq<int>)
    requires
        forall|i: int| 0 <= i < witness.len() ==> 0 <= #[trigger] witness[i],
    ensures
        0 <= int_sum(witness),
        0 <= commitment_of(witness) < FIELD_PRIME,
    decreases witness.len(),
{
    if witness.len() > 0 {
        lemma_commitment_in_range(witness.drop_last());
    }
    lemma_trunc_rem_congruent(int_sum(witness), FIELD_PRIME as int);
    vstd::arithmetic::div_mod::lemma_mod_bound(int_sum(witness), FIELD_PRIME as int);
}

/// Two integers with the same truncated remainder differ by a multiple of
/// the modulus.
pub proof fn lemma_same_remainder(a: int, b: int)
    requires
        trunc_rem(a, FIELD_PRIME as int) == trunc_rem(b, FIELD_PRIME as int),
    ensures
        (b - a) % (FIELD_PRIME as int) == 0,
{
    let p = FIELD_PRIME as int;
    lemma_trunc_rem_congruent(a, p);
    lemma_trunc_rem_congruent(b, p);
    lemma_mod_equivalence(b, a, p);
}

/// Replacing a single witness value by one that differs from it by anything
/// but a multiple of the modulus changes the commitment.
pub proof fn lemma_tampered_commitment_differs(witness: Seq<int>, i: int, v: int)
    requires
        0 <= i < witness.len(),
        (v - witness[i]) % (FIELD_PRIME as int) != 0,
    ensures
        commitment_of(witness.update(i, v)) != commitment_of(witness),
{
    let tampered = witness.update(i, v);
    lemma_sum_update(witness, i, v);
    if commitment_of(tampered) == commitment_of(witness) {
        lemma_same_remainder(int_sum(witness), int_sum(tampered));
    }
}

/// A proof whose commitment matched its witness is rejected once a single
/// witness value has been replaced by one that differs from it by anything
/// but a multiple of the modulus.
pub proof fn lemma_tampered_witness_rejected(
    proof: ProofView,
    constraints: Seq<ConstraintView>,
    i: int,
    v: int,
)
    requires
        proof.commitment == commitment_of(proof.witness),
        0 <= i < proof.witness.len(),
        (v - proof.witness[i]) % (FIELD_PRIME as int) != 0,
    ensures
        proof_outcome(
            ProofView { witness: proof.witness.update(i, v), commitment: proof.commitment },
            constraints,
        ) == Ok::<bool, ZkError>(false),
{
    lemma_tampered_commitment_differs(proof.witness, i, v);
}

/// Constraints that each obey their operation pass as a whole.
pub proof fn lemma_all_pass(constraints: Seq<ConstraintView>)
    requires
        forall|i: int|
            0 <= i < constraints.len() ==> constraint_outcome(#[trigger] constraints[i]) == Ok::<
                bool,
                ZkError,
            >(true),
    ensures
        constraints_outcome(constraints) == Ok::<bool, ZkError>(true),
    decreases constraints.len(),
{
    if constraints.len() > 0 {
        let rest = constraints.drop_first();
        assert forall|i: int| 0 <= i < rest.len() implies constraint_outcome(#[trigger] rest[i])
            == Ok::<bool, ZkError>(true) by {
            assert(rest[i] == constraints[i + 1]);
        }
        lemma_all_pass(rest);
    }
}

/// A system that holds a constraint without an evaluation rule never makes a
/// proof pass: verification ends in `false` or in an error.
pub proof fn lemma_unsupported_never_passes(
    proof: ProofView,
    constraints: Seq<ConstraintView>,
    i: int,
)
    requires
        0 <= i < constraints.len(),
        constraints[i].operation == Operation::Hash,
    ensures
        proof_outcome(proof, constraints) != Ok::<bool, ZkError>(true),
        proof.commitment == commitment_of(proof.witness) && (forall|j: int|
            0 <= j < i ==> constraint_outcome(#[trigger] constraints[j]) == Ok::<bool, ZkError>(
                true,
            )) ==> proof_outcome(proof, constraints) == Err::<bool, ZkError>(
            ZkError::UnsupportedOperation,
        ),
    decreases constraints.len(),
{
    if i > 0 {
        lemma_unsupported_never_passes(proof, constraints.drop_first(), i - 1);
        if forall|j: int|
            0 <= j < i ==> constraint_outcome(#[trigger] constraints[j]) == Ok::<bool, ZkError>(
                true,
            ) {
            assert forall|j: int| 0 <= j < i - 1 implies constraint_outcome(
                #[trigger] constraints.drop_first()[j],
            ) == Ok::<bool, ZkError>(true) by {
                assert(constraints.drop_first()[j] == constraints[j + 1]);
            }
            assert(constraint_outcome(constraints[0]) == Ok::<bool, ZkError>(true));
        }
    }
}

/// The sum of a list of big integers.
fn sum_values(values: &Vec<BigInt>) -> (total: BigInt)
    ensures
        bigint_value(total) == int_sum(big_values(values@)),
{
    let mut total = big_from_u64(0);
    let ghost all = big_values(values@);
    let mut i: usize = 0;
    while i < values.len()
        invariant
            i <= values.len(),
            all == big_values(values@),
            bigint_value(total) == int_sum(all.take(i as int)),
        decreases values.len() - i,
    {
        total = big_add(&total, &values[i]);
        proof {
            assert(all.take(i + 1).drop_last() =~= all.take(i as int));
        }
        i += 1;
    }
    proof {
        assert(all.take(i as int) =~= all);
    }
    total
}

/// The sum of recorded value times coefficient over a list of terms.
fn sum_recorded(terms: &Vec<(Variable, BigInt)>) -> (total: BigInt)
    requires
        recorded_wf(terms@),
    ensures
        bigint_value(total) == recorded_sum(terms_view(terms@)),
{
    let mut total = big_from_u64(0);
    let ghost all = terms_view(terms@);
    let mut i: usize = 0;
    while i < terms.len()
        invariant
            i <= terms.len(),
            recorded_wf(terms@),
            all == terms_view(terms@),
            bigint_value(total) == recorded_sum(all.take(i as int)),
        decreases terms.len() - i,
    {
        let product = terms[i].0.value.clone() * &terms[i].1;
        total = big_add(&total, &product.get_value());
        proof {
            assert(all.take(i + 1).drop_last() =~= all.take(i as int));
        }
        i += 1;
    }
    proof {
        assert(all.take(i as int) =~= all);
    }
    total
}

impl Proof {
    /// Bundles a witness with the commitment to it.
    pub fn generate_proof(_r1cs: &R1CS, witness: &Vec<FieldElement>) -> (proof: Proof)
        ensures
            proof@ == proof_of(field_values(witness@)),
    {
        let mut witness_bigint: Vec<BigInt> = Vec::new();
        let mut i: usize = 0;
        while i < witness.len()
            invariant
                i <= witness.len(),
                witness_bigint.len() == i,
                forall|j: int|
                    0 <= j < i ==> bigint_value(#[trigger] witness_bigint@[j]) == witness@[j]@,
            decreases witness.len() - i,
        {
            witness_bigint.push(witness[i].get_value());
            i += 1;
        }
        proof {
            assert(big_values(witness_bigint@) =~= field_values(witness@));
        }
        let commitment_input = sum_values(&witness_bigint);
        let commitment = Proof::hash(&commitment_input, &big_from_u64(0));
        Proof { witness: witness_bigint, commitment }
    }

    /// Whether the commitment is the one that the witness commits to.
    pub fn commitment_matches(&self) -> (r: bool)
        ensures
            r == (self@.commitment == commitment_of(self@.witness)),
    {
        let commitment_input = sum_values(&self.witness);
        let expected_commitment = Proof::hash(&commitment_input, &big_from_u64(0));
        big_eq(&self.commitment, &expected_commitment)
    }

    /// Checks that the commitment matches the witness and that the recorded
    /// values of every constraint obey its operation. The constraints are
    /// read from the values recorded with their terms; the witness is bound
    /// to them only through the commitment.
    pub fn verify_proof(proof: &Proof, r1cs: &R1CS) -> (r: Result<bool, ZkError>)
        requires
            r1cs.wf(),
        ensures
            r == proof_outcome(proof@, r1cs@.constraints),
    {
        if !proof.commitment_matches() {
            return Ok(false);
        }
        let ghost all = r1cs@.constraints;
        proof {
            assert(all.skip(0) =~= all);
        }
        let mut i: usize = 0;
        while i < r1cs.constraints.len()
            invariant
                i <= r1cs.constraints.len(),
                r1cs.wf(),
                all == r1cs@.constraints,
                proof@.commitment == commitment_of(proof@.witness),
                constraints_outcome(all) == constraints_outcome(all.skip(i as int)),
            decreases r1cs.constraints.len() - i,
        {
            let constraint = &r1cs.constraints[i];
            proof {
                assert(all.skip(i as int)[0] == constraint@);
                assert(all.skip(i as int).drop_first() =~= all.skip(i + 1));
            }
            let left_eval = sum_recorded(&constraint.left);
            let right_eval = sum_recorded(&constraint.right);
            let output_eval = sum_recorded(&constraint.output);
            match constraint.operation {
                Operation::Add => {
                    if !big_eq(&big_add(&left_eval, &right_eval), &output_eval) {
                        return Ok(false);
                    }
                },
                Operation::Mul => {
                    if !big_eq(&big_mul(&left_eval, &right_eval), &output_eval) {
                        return Ok(false);
                    }
                },
                Operation::Hash => {
                    proof {
                        assert(constraint_outcome(constraint@) == Err::<bool, ZkError>(
                            ZkError::UnsupportedOperation,
                        ));
                    }
                    return Err(ZkError::UnsupportedOperation);
                },
            }
            i += 1;
        }
        Ok(true)
    }

    /// Combines two integers: their sum, reduced by truncated remainder.
    fn hash(left: &BigInt, right: &BigInt) -> (r: BigInt)
        ensures
            bigint_value(r) == combine(bigint_value(*left), bigint_value(*right)),
    {
        let combined = big_add(left, right);
        big_rem(&combined, &big_from_u64(FIELD_PRIME))
    }
}

} // verus!
