//! Rank-1 constraint systems: variables, constraints over them, and the
//! checks that a witness satisfies every constraint.

use crate::bigint::{big_add, big_eq, big_from_u64, big_mul, bigint_value};
use crate::error::ZkError;
use crate::field::{field_mul, FieldElement, FIELD_PRIME};
use crate::proving::{proof_of, Proof};
use crate::qap::{
    accumulate, all_wf, field_values, qap_eval, qap_keys_below, term_pairs, terms_wf, QapView, QAP,
};
use num_bigint::BigInt;
use vstd::arithmetic::div_mod::{lemma_add_mod_noop, lemma_small_mod};
use vstd::prelude::*;

verus! {

/// A variable of a constraint system: its position and its value.
pub struct Variable {
    pub index: usize,
    pub value: FieldElement,
}

/// What a variable denotes.
pub struct VariableView {
    pub index: usize,
    pub value: int,
}

impl View for Variable {
    type V = VariableView;

    open spec fn view(&self) -> VariableView {
        VariableView { index: self.index, value: self.value@ }
    }
}

impl Clone for Variable {
    fn clone(&self) -> (r: Self)
        ensures
            r@ == self@,
            r.value.wf() == self.value.wf(),
    {
        Variable { index: self.index, value: self.value.clone() }
    }
}

/// The relation that a constraint enforces between its three sums.
#[derive(Clone, Copy, Debug, PartialEq, Eq, Structural)]
pub enum Operation {
    Add,
    Mul,
    Hash,
}

/// One term of a linear combination: a variable as it was when the term was
/// recorded, and an integer coefficient.
pub struct TermView {
    pub variable: VariableView,
    pub coeff: int,
}

/// What a list of recorded terms denotes.
pub open spec fn terms_view(s: Seq<(Variable, BigInt)>) -> Seq<TermView> {
    Seq::new(s.len(), |i: int| TermView { variable: s[i].0@, coeff: bigint_value(s[i].1) })
}

/// Every recorded variable of the list holds a well-formed value.
pub open spec fn recorded_wf(s: Seq<(Variable, BigInt)>) -> bool {
    forall|i: int| 0 <= i < s.len() ==> (#[trigger] s[i]).0.value.wf()
}

/// Three linear combinations and the operation that relates them.
pub struct Constraint {
    pub left: Vec<(Variable, BigInt)>,
    pub right: Vec<(Variable, BigInt)>,
    pub output: Vec<(Variable, BigInt)>,
    pub operation: Operation,
}

/// What a constraint denotes.
pub struct ConstraintView {
    pub left: Seq<TermView>,
    pub right: Seq<TermView>,
    pub output: Seq<TermView>,
    pub operation: Operation,
}

impl View for Constraint {
    type V = ConstraintView;

    open spec fn view(&self) -> ConstraintView {
        ConstraintView {
            left: terms_view(self.left@),
            right: terms_view(self.right@),
            output: terms_view(self.output@),
            operation: self.operation,
        }
    }
}

impl Constraint {
    /// Every recorded variable holds a well-formed value.
    pub open spec fn wf(&self) -> bool {
        recorded_wf(self.left@) && recorded_wf(self.right@) && recorded_wf(self.output@)
    }
}

/// What a list of variables denotes.
pub open spec fn variables_view(s: Seq<Variable>) -> Seq<VariableView> {
    Seq::new(s.len(), |i: int| s[i]@)
}

/// One variable per value, in order, each at its own index.
pub open spec fn indexed_variables(values: Seq<int>) -> Seq<VariableView> {
    Seq::new(values.len(), |i: int| VariableView { index: i as usize, value: values[i] })
}

/// What a list of constraints denotes.
pub open spec fn constraints_view(s: Seq<Constraint>) -> Seq<ConstraintView> {
    Seq::new(s.len(), |i: int| s[i]@)
}

/// Every index of a list of coefficient pairs lies below `n`.
pub open spec fn pairs_below(pairs: Seq<(usize, int)>, n: nat) -> bool {
    forall|i: int| 0 <= i < pairs.len() ==> (#[trigger] pairs[i]).0 < n
}

/// The terms that a list of coefficient pairs records over the given
/// variables: each index is replaced by the variable at that position.
pub open spec fn record_terms(variables: Seq<VariableView>, pairs: Seq<(usize, int)>) -> Seq<
    TermView,
> {
    Seq::new(
        pairs.len(),
        |i: int| TermView { variable: variables[pairs[i].0 as int], coeff: pairs[i].1 },
    )
}

/// Every variable index of a list of terms lies below `n`.
pub open spec fn terms_below(terms: Seq<TermView>, n: nat) -> bool {
    forall|i: int| 0 <= i < terms.len() ==> (#[trigger] terms[i]).variable.index < n
}

/// The integer sum of `witness[index] * coefficient` over a list of terms.
pub open spec fn weighted_sum(terms: Seq<TermView>, witness: Seq<int>) -> int
    decreases terms.len(),
{
    if terms.len() == 0 {
        0
    } else {
        weighted_sum(terms.drop_last(), witness) + witness[terms.last().variable.index as int]
            * terms.last().coeff
    }
}

/// The value of a linear combination on a witness, in the field.
pub open spec fn combination_on(terms: Seq<TermView>, witness: Seq<int>) -> int {
    weighted_sum(terms, witness) % (FIELD_PRIME as int)
}

/// Every variable index of the constraint lies below `n`.
pub open spec fn constraint_below(c: ConstraintView, n: nat) -> bool {
    terms_below(c.left, n) && terms_below(c.right, n) && terms_below(c.output, n)
}

/// A witness satisfies a constraint when its three combinations agree.
pub open spec fn constraint_agrees(c: ConstraintView, witness: Seq<int>) -> bool {
    combination_on(c.left, witness) == combination_on(c.right, witness) && combination_on(
        c.right,
        witness,
    ) == combination_on(c.output, witness)
}

/// The outcome of checking a witness against constraints in order: the first
/// constraint that reaches outside the witness is an error, the first that
/// the witness does not satisfy makes the answer `false`.
pub open spec fn witness_outcome(constraints: Seq<ConstraintView>, witness: Seq<int>) -> Result<
    bool,
    ZkError,
>
    decreases constraints.len(),
{
    if constraints.len() == 0 {
        Ok(true)
    } else if !constraint_below(constraints[0], witness.len()) {
        Err(ZkError::IndexOutOfRange)
    } else if !constraint_agrees(constraints[0], witness) {
        Ok(false)
    } else {
        witness_outcome(constraints.drop_first(), witness)
    }
}

/// The integer sum, over a list of terms, of `witness[index]` times the
/// coefficient, each product reduced in the field.
pub open spec fn product_sum(terms: Seq<TermView>, witness: Seq<int>) -> int
    decreases terms.len(),
{
    if terms.len() == 0 {
        0
    } else {
        product_sum(terms.drop_last(), witness) + field_mul(
            witness[terms.last().variable.index as int],
            terms.last().coeff,
        )
    }
}

/// Whether a witness obeys the operation of a constraint: a constraint
/// that reaches outside the witness is an error, and so is an operation
/// without an evaluation rule.
pub open spec fn operation_outcome(c: ConstraintView, witness: Seq<int>) -> Result<bool, ZkError> {
    if !constraint_below(c, witness.len()) {
        Err(ZkError::IndexOutOfRange)
    } else {
        match c.operation {
            Operation::Add => Ok(
                product_sum(c.left, witness) + product_sum(c.right, witness) == product_sum(
                    c.output,
                    witness,
                ),
            ),
            Operation::Mul => Ok(
                product_sum(c.left, witness) * product_sum(c.right, witness) == product_sum(
                    c.output,
                    witness,
                ),
            ),
            Operation::Hash => Err(ZkError::UnsupportedOperation),
        }
    }
}

/// The outcome of checking a witness against the operations of constraints
/// in order: the first constraint that does not pass decides, by its error
/// or by `false`.
pub open spec fn operations_outcome(constraints: Seq<ConstraintView>, witness: Seq<int>) -> Result<
    bool,
    ZkError,
>
    decreases constraints.len(),
{
    if constraints.len() == 0 {
        Ok(true)
    } else if operation_outcome(constraints[0], witness) != Ok::<bool, ZkError>(true) {
        operation_outcome(constraints[0], witness)
    } else {
        operations_outcome(constraints.drop_first(), witness)
    }
}

/// Constraints whose operations a witness obeys one by one pass as a whole.
pub proof fn lemma_operations_all_pass(constraints: Seq<ConstraintView>, witness: Seq<int>)
    requires
        forall|i: int|
            0 <= i < constraints.len() ==> operation_outcome(#[trigger] constraints[i], witness)
                == Ok::<bool, ZkError>(true),
    ensures
        operations_outcome(constraints, witness) == Ok::<bool, ZkError>(true),
    decreases constraints.len(),
{
    if constraints.len() > 0 {
        let rest = constraints.drop_first();
        assert forall|i: int| 0 <= i < rest.len() implies operation_outcome(
            #[trigger] rest[i],
            witness,
        ) == Ok::<bool, ZkError>(true) by {
            assert(rest[i] == constraints[i + 1]);
        }
        lemma_operations_all_pass(rest, witness);
    }
}

/// What a constraint system denotes.
pub struct SystemView {
    pub variables: Seq<VariableView>,
    pub constraints: Seq<ConstraintView>,
    pub qap: QapView,
}

/// A constraint system with its aggregated coefficient maps.
pub struct R1CS {
    pub variables: Vec<Variable>,
    pub constraints: Vec<Constraint>,
    pub qap: QAP,
}

impl View for R1CS {
    type V = SystemView;

    open spec fn view(&self) -> SystemView {
        SystemView {
            variables: variables_view(self.variables@),
            constraints: constraints_view(self.constraints@),
            qap: self.qap@,
        }
    }
}

/// Replaces each index of a coefficient list by the variable at that
/// position, and each coefficient by its residue.
fn record(variables: &Vec<Variable>, coeffs: &[(usize, FieldElement)]) -> (r: Result<
    Vec<(Variable, BigInt)>,
    ZkError,
>)
    ensures
        match r {
            Ok(terms) => {
                &&& pairs_below(term_pairs(coeffs@), variables@.len())
                &&& terms_view(terms@) == record_terms(
                    variables_view(variables@),
                    term_pairs(coeffs@),
                )
                &&& (forall|i: int| 0 <= i < variables@.len() ==> (#[trigger] variables@[i]).value.wf())
                    ==> recorded_wf(terms@)
            },
            Err(err) => !pairs_below(term_pairs(coeffs@), variables@.len()) && err
                == ZkError::IndexOutOfRange,
        },
{
    let mut terms: Vec<(Variable, BigInt)> = Vec::new();
    let mut i: usize = 0;
    while i < coeffs.len()
        invariant
            i <= coeffs.len(),
            terms.len() == i,
            forall|j: int| 0 <= j < i ==> (#[trigger] term_pairs(coeffs@)[j]).0 < variables@.len(),
            forall|j: int|
                0 <= j < i ==> (#[trigger] terms_view(terms@)[j]) == record_terms(
                    variables_view(variables@),
                    term_pairs(coeffs@),
                )[j],
            (forall|k: int| 0 <= k < variables@.len() ==> (#[trigger] variables@[k]).value.wf())
                ==> recorded_wf(terms@),
        decreases coeffs.len() - i,
    {
        let index = coeffs[i].0;
        if index >= variables.len() {
            proof {
                assert(term_pairs(coeffs@)[i as int].0 == index);
            }
            return Err(ZkError::IndexOutOfRange);
        }
        let ghost before = terms@;
        terms.push((variables[index].clone(), coeffs[i].1.get_value()));
        proof {
            assert(forall|j: int| 0 <= j < i ==> terms@[j] == before[j]);
            assert(forall|j: int|
                0 <= j < i ==> (#[trigger] terms_view(terms@)[j]) == terms_view(before)[j]);
        }
        i += 1;
    }
    proof {
        assert(terms_view(terms@) =~= record_terms(
            variables_view(variables@),
            term_pairs(coeffs@),
        ));
    }
    Ok(terms)
}

/// The integer sum of witness value times coefficient over a list of terms.
fn sum_products(terms: &Vec<(Variable, BigInt)>, witness: &[FieldElement]) -> (r: Result<
    BigInt,
    ZkError,
>)
    requires
        all_wf(witness@),
    ensures
        match r {
            Ok(total) => {
                &&& terms_below(terms_view(terms@), witness@.len())
                &&& bigint_value(total) == product_sum(terms_view(terms@), field_values(witness@))
            },
            Err(err) => !terms_below(terms_view(terms@), witness@.len()) && err
                == ZkError::IndexOutOfRange,
        },
{
    let mut total = big_from_u64(0);
    let ghost view = terms_view(terms@);
    let ghost w = field_values(witness@);
    let mut i: usize = 0;
    while i < terms.len()
        invariant
            i <= terms.len(),
            all_wf(witness@),
            view == terms_view(terms@),
            w == field_values(witness@),
            bigint_value(total) == product_sum(view.take(i as int), w),
            forall|j: int| 0 <= j < i ==> (#[trigger] view[j]).variable.index < witness@.len(),
        decreases terms.len() - i,
    {
        let index = terms[i].0.index;
        if index >= witness.len() {
            proof {
                assert(view[i as int].variable.index == index);
            }
            return Err(ZkError::IndexOutOfRange);
        }
        let product = witness[index].clone() * &terms[i].1;
        total = big_add(&total, &product.get_value());
        proof {
            let prefix = view.take(i + 1);
            assert(prefix.drop_last() =~= view.take(i as int));
            assert(prefix.last() == view[i as int]);
        }
        i += 1;
    }
    proof {
        assert(view.take(i as int) =~= view);
    }
    Ok(total)
}

/// The value of a linear combination on a witness.
fn evaluate_terms(terms: &Vec<(Variable, BigInt)>, witness: &[FieldElement]) -> (r: Result<
    FieldElement,
    ZkError,
>)
    requires
        all_wf(witness@),
    ensures
        match r {
            Ok(e) => {
                &&& terms_below(terms_view(terms@), witness@.len())
                &&& e.wf()
                &&& e@ == combination_on(terms_view(terms@), field_values(witness@))
            },
            Err(err) => !terms_below(terms_view(terms@), witness@.len()) && err
                == ZkError::IndexOutOfRange,
        },
{
    let mut total = FieldElement::new(big_from_u64(0));
    let ghost view = terms_view(terms@);
    let ghost w = field_values(witness@);
    proof {
        lemma_small_mod(0, FIELD_PRIME as nat);
    }
    let mut i: usize = 0;
    while i < terms.len()
        invariant
            i <= terms.len(),
            all_wf(witness@),
            view == terms_view(terms@),
            w == field_values(witness@),
            total.wf(),
            total@ == weighted_sum(view.take(i as int), w) % (FIELD_PRIME as int),
            forall|j: int| 0 <= j < i ==> (#[trigger] view[j]).variable.index < witness@.len(),
        decreases terms.len() - i,
    {
        let index = terms[i].0.index;
        if index >= witness.len() {
            proof {
                assert(view[i as int].variable.index == index);
            }
            return Err(ZkError::IndexOutOfRange);
        }
        let product = witness[index].clone() * &terms[i].1;
        total = total.add(&product);
        proof {
            let prefix = view.take(i + 1);
            assert(prefix.drop_last() =~= view.take(i as int));
            assert(prefix.last() == view[i as int]);
            lemma_add_mod_noop(
                weighted_sum(view.take(i as int), w),
                w[index as int] * view[i as int].coeff,
                FIELD_PRIME as int,
            );
            lemma_small_mod(product@ as nat, FIELD_PRIME as nat);
        }
        i += 1;
    }
    proof {
        assert(view.take(i as int) =~= view);
    }
    Ok(total)
}

impl R1CS {
    /// Variables sit at their own index, and every value in the system is a
    /// well-formed field element.
    pub open spec fn wf(&self) -> bool {
        &&& forall|i: int|
            0 <= i < self.variables@.len() ==> (#[trigger] self.variables@[i]).index == i
                && self.variables@[i].value.wf()
        &&& forall|i: int| 0 <= i < self.constraints@.len() ==> (#[trigger] self.constraints@[i]).wf()
        &&& self.qap.wf()
    }

    /// The system without variables or constraints.
    pub fn new() -> (s: R1CS)
        ensures
            s.wf(),
            s@.variables.len() == 0,
            s@.constraints.len() == 0,
            s@.qap.left == Map::<usize, int>::empty(),
            s@.qap.right == Map::<usize, int>::empty(),
            s@.qap.output == Map::<usize, int>::empty(),
    {
        R1CS { variables: Vec::new(), constraints: Vec::new(), qap: QAP::new() }
    }

    /// Records a constraint over existing variables and merges its
    /// coefficients into the quadratic program. A coefficient list that names
    /// a variable the system does not have leaves the system as it was.
    pub fn add_constraint(
        &mut self,
        left_coeffs: &[(usize, FieldElement)],
        right_coeffs: &[(usize, FieldElement)],
        output_coeffs: &[(usize, FieldElement)],
        modulus: &BigInt,
        operation: Operation,
    ) -> (r: Result<(), ZkError>)
        requires
            old(self).wf(),
            terms_wf(left_coeffs@),
            terms_wf(right_coeffs@),
            terms_wf(output_coeffs@),
        ensures
            final(self).wf(),
            final(self)@.variables == old(self)@.variables,
            r is Ok <==> {
                &&& pairs_below(term_pairs(left_coeffs@), old(self)@.variables.len())
                &&& pairs_below(term_pairs(right_coeffs@), old(self)@.variables.len())
                &&& pairs_below(term_pairs(output_coeffs@), old(self)@.variables.len())
            },
            r is Ok ==> {
                &&& final(self)@.constraints == old(self)@.constraints.push(
                    ConstraintView {
                        left: record_terms(old(self)@.variables, term_pairs(left_coeffs@)),
                        right: record_terms(old(self)@.variables, term_pairs(right_coeffs@)),
                        output: record_terms(old(self)@.variables, term_pairs(output_coeffs@)),
                        operation,
                    },
                )
                &&& final(self)@.qap.left == accumulate(
                    old(self)@.qap.left,
                    term_pairs(left_coeffs@),
                )
                &&& final(self)@.qap.right == accumulate(
                    old(self)@.qap.right,
                    term_pairs(right_coeffs@),
                )
                &&& final(self)@.qap.output == accumulate(
                    old(self)@.qap.output,
                    term_pairs(output_coeffs@),
                )
            },
            r is Err ==> r == Err::<(), ZkError>(ZkError::IndexOutOfRange) && final(self)@ == old(
                self,
            )@,
    {
        let left = match record(&self.variables, left_coeffs) {
            Ok(terms) => terms,
            Err(err) => {
                return Err(err);
            },
        };
        let right = match record(&self.variables, right_coeffs) {
            Ok(terms) => terms,
            Err(err) => {
                return Err(err);
            },
        };
        let output = match record(&self.variables, output_coeffs) {
            Ok(terms) => terms,
            Err(err) => {
                return Err(err);
            },
        };
        let constraint = Constraint { left, right, output, operation };
        self.constraints.push(constraint);
        self.qap.add_constraint(left_coeffs, right_coeffs, output_coeffs, modulus);
        proof {
            assert(self@.constraints =~= old(self)@.constraints.push(constraint@));
        }
        Ok(())
    }

    /// The values of all variables, in order.
    pub fn generate_witness(&self) -> (witness: Vec<FieldElement>)
        requires
            self.wf(),
        ensures
            all_wf(witness@),
            field_values(witness@) == system_values(self@),
    {
        let mut witness: Vec<FieldElement> = Vec::new();
        let mut i: usize = 0;
        while i < self.variables.len()
            invariant
                i <= self.variables.len(),
                self.wf(),
                witness.len() == i,
                all_wf(witness@),
                forall|j: int|
                    0 <= j < i ==> (#[trigger] witness@[j])@ == self.variables@[j].value@,
            decreases self.variables.len() - i,
        {
            witness.push(self.variables[i].value.clone());
            i += 1;
        }
        proof {
            assert(field_values(witness@) =~= system_values(self@));
        }
        witness
    }

    /// A proof that commits to the given witness.
    pub fn generate_proof(&self, witness: &Vec<FieldElement>) -> (proof: Proof)
        ensures
            proof@ == proof_of(field_values(witness@)),
    {
        Proof::generate_proof(self, witness)
    }

    /// The value of the quadratic program on the system's own witness.
    pub fn evaluate_qap(&self) -> (r: Result<BigInt, ZkError>)
        requires
            self.wf(),
        ensures
            match r {
                Ok(v) => qap_keys_below(self@.qap, self@.variables.len()) && bigint_value(v)
                    == qap_eval(self@.qap, system_values(self@)),
                Err(err) => !qap_keys_below(self@.qap, self@.variables.len()) && err
                    == ZkError::IndexOutOfRange,
            },
    {
        let witness = self.generate_witness();
        proof {
            assert(witness@.len() == field_values(witness@).len());
        }
        match self.qap.evaluate(&witness) {
            Ok(e) => Ok(e.get_value()),
            Err(err) => Err(err),
        }
    }

    /// Appends a variable and returns its index.
    pub fn add_variable(&mut self, value: FieldElement) -> (index: usize)
        requires
            old(self).wf(),
            value.wf(),
        ensures
            final(self).wf(),
            index == old(self)@.variables.len(),
            final(self)@.variables == old(self)@.variables.push(
                VariableView { index, value: value@ },
            ),
            final(self)@.constraints == old(self)@.constraints,
            final(self)@.qap == old(self)@.qap,
    {
        let index = self.variables.len();
        self.variables.push(Variable { index, value });
        proof {
            assert(self@.variables =~= old(self)@.variables.push(
                VariableView { index, value: value@ },
            ));
        }
        index
    }

    /// Whether the witness obeys the operation of every constraint: the
    /// sums of an addition constraint must add up to its output, those of a
    /// multiplication constraint must multiply to it. The sums are taken
    /// over the witness, not over the values recorded with the terms.
    pub fn verify_operations(&self, witness: &[FieldElement]) -> (r: Result<bool, ZkError>)
        requires
            all_wf(witness@),
        ensures
            r == operations_outcome(self@.constraints, field_values(witness@)),
    {
        let ghost all = self@.constraints;
        let ghost w = field_values(witness@);
        proof {
            assert(all.skip(0) =~= all);
        }
        let mut i: usize = 0;
        while i < self.constraints.len()
            invariant
                i <= self.constraints.len(),
                all_wf(witness@),
                all == self@.constraints,
                w == field_values(witness@),
                operations_outcome(all, w) == operations_outcome(all.skip(i as int), w),
            decreases self.constraints.len() - i,
        {
            let constraint = &self.constraints[i];
            proof {
                assert(all.skip(i as int)[0] == constraint@);
                assert(all.skip(i as int).drop_first() =~= all.skip(i + 1));
            }
            let left = match sum_products(&constraint.left, witness) {
                Ok(total) => total,
                Err(err) => {
                    return Err(err);
                },
            };
            let right = match sum_products(&constraint.right, witness) {
                Ok(total) => total,
                Err(err) => {
                    return Err(err);
                },
            };
            let output = match sum_products(&constraint.output, witness) {
                Ok(total) => total,
                Err(err) => {
                    return Err(err);
                },
            };
            match constraint.operation {
                Operation::Add => {
                    if !big_eq(&big_add(&left, &right), &output) {
                        return Ok(false);
                    }
                },
                Operation::Mul => {
                    if !big_eq(&big_mul(&left, &right), &output) {
                        return Ok(false);
                    }
                },
                Operation::Hash => {
                    proof {
                        assert(operation_outcome(constraint@, w) == Err::<bool, ZkError>(
                            ZkError::UnsupportedOperation,
                        ));
                    }
                    return Err(ZkError::UnsupportedOperation);
                },
            }
            i += 1;
        }
        Ok(true)
    }

    /// Whether the witness satisfies every constraint: for each, the three
    /// combinations evaluated on the witness must agree.
    pub fn verify_witness(&self, witness: &[FieldElement]) -> (r: Result<bool, ZkError>)
        requires
            all_wf(witness@),
        ensures
            r == witness_outcome(self@.constraints, field_values(witness@)),
    {
        let ghost all = self@.constraints;
        let ghost w = field_values(witness@);
        proof {
            assert(all.skip(0) =~= all);
        }
        let mut i: usize = 0;
        while i < self.constraints.len()
            invariant
                i <= self.constraints.len(),
                all_wf(witness@),
                all == self@.constraints,
                w == field_values(witness@),
                witness_outcome(all, w) == witness_outcome(all.skip(i as int), w),
            decreases self.constraints.len() - i,
        {
            let constraint = &self.constraints[i];
            proof {
                assert(all.skip(i as int)[0] == constraint@);
                assert(all.skip(i as int).drop_first() =~= all.skip(i + 1));
            }
            let left_eval = match evaluate_terms(&constraint.left, witness) {
                Ok(e) => e,
                Err(err) => {
                    return Err(err);
                },
            };
            let right_eval = match evaluate_terms(&constraint.right, witness) {
                Ok(e) => e,
                Err(err) => {
                    return Err(err);
                },
            };
            let output_eval = match evaluate_terms(&constraint.output, witness) {
                Ok(e) => e,
                Err(err) => {
                    return Err(err);
                },
            };
            if left_eval != right_eval || right_eval != output_eval {
                return Ok(false);
            }
            i += 1;
        }
        Ok(true)
    }
}

/// The values of a system's variables, in order.
pub open spec fn system_values(s: SystemView) -> Seq<int> {
    Seq::new(s.variables.len(), |i: int| s.variables[i].value)
}

} // verus!
