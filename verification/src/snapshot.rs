//! Binary snapshots of proofs and constraint systems. A snapshot is a
//! sequence of integers, laid out field by field and encoded as bytes; what
//! is written is read back unchanged.

use crate::bigint::{
    big_clone, big_from_u64, big_lt, big_to_u64, big_values, bigint_value,
};
use crate::error::ZkError;
use crate::field::{FieldElement, FIELD_PRIME};
use crate::proving::{Proof, ProofView};
use crate::qap::{field_values, terms_wf, Polynomial, QapView, QAP};
use crate::r1cs::{
    constraints_view, indexed_variables, recorded_wf, terms_view, variables_view,
    witness_outcome, Constraint,
    ConstraintView, Operation, SystemView, TermView, Variable, VariableView, R1CS,
};
use crate::words::{decode_words, decoded_words, encode_words};
use num_bigint::BigInt;
use vstd::arithmetic::div_mod::lemma_small_mod;
use vstd::prelude::*;

verus! {

/// The integer can be a position or a count.
pub open spec fn is_index(x: int) -> bool {
    0 <= x <= usize::MAX
}

/// The integer is a canonical residue of the field.
pub open spec fn is_residue(x: int) -> bool {
    0 <= x < FIELD_PRIME
}

/// The proof that a sequence of integers lays out: the commitment first,
/// then the witness.
pub open spec fn proof_from_words(w: Seq<int>) -> Option<ProofView> {
    if w.len() == 0 {
        None
    } else {
        Some(ProofView { witness: w.skip(1), commitment: w[0] })
    }
}

/// The proof that a byte string encodes, if it encodes one.
pub open spec fn decoded_proof(bytes: Seq<u8>) -> Option<ProofView> {
    match decoded_words(bytes) {
        None => None,
        Some(w) => proof_from_words(w),
    }
}

/// The `i`-th of the residues laid out behind a count at `pos`.
pub open spec fn value_word(w: Seq<int>, pos: int, i: int) -> int {
    w[pos + 1 + i]
}

/// The residues laid out at `pos`: a count, then that many residues.
pub open spec fn values_at(w: Seq<int>, pos: int) -> Option<(Seq<int>, int)> {
    if pos < 0 || pos >= w.len() || !is_index(w[pos]) {
        None
    } else if pos + 1 + w[pos] > w.len() {
        None
    } else if !(forall|i: int| 0 <= i < w[pos] ==> is_residue(#[trigger] value_word(w, pos, i))) {
        None
    } else {
        Some((Seq::new(w[pos] as nat, |i: int| value_word(w, pos, i)), pos + 1 + w[pos]))
    }
}

/// The `i`-th of the terms laid out behind a count at `pos`: index, recorded
/// value, coefficient.
pub open spec fn term_word(w: Seq<int>, pos: int, i: int) -> TermView {
    TermView {
        variable: VariableView { index: w[pos + 1 + 3 * i] as usize, value: w[pos + 2 + 3 * i] },
        coeff: w[pos + 3 + 3 * i],
    }
}

/// The `i`-th term behind a count at `pos` holds an index and a residue.
pub open spec fn term_word_ok(w: Seq<int>, pos: int, i: int) -> bool {
    is_index(w[pos + 1 + 3 * i]) && is_residue(w[pos + 2 + 3 * i])
}

/// The terms laid out at `pos`: a count, then three integers per term.
pub open spec fn terms_at(w: Seq<int>, pos: int) -> Option<(Seq<TermView>, int)> {
    if pos < 0 || pos >= w.len() || !is_index(w[pos]) {
        None
    } else if pos + 1 + 3 * w[pos] > w.len() {
        None
    } else if !(forall|i: int| 0 <= i < w[pos] ==> #[trigger] term_word_ok(w, pos, i)) {
        None
    } else {
        Some((Seq::new(w[pos] as nat, |i: int| term_word(w, pos, i)), pos + 1 + 3 * w[pos]))
    }
}

/// The integer that stands for an operation.
pub open spec fn operation_code(op: Operation) -> int {
    match op {
        Operation::Add => 0,
        Operation::Mul => 1,
        Operation::Hash => 2,
    }
}

/// The operation that an integer stands for.
pub open spec fn operation_of(code: int) -> Option<Operation> {
    if code == 0 {
        Some(Operation::Add)
    } else if code == 1 {
        Some(Operation::Mul)
    } else if code == 2 {
        Some(Operation::Hash)
    } else {
        None
    }
}

/// The constraint laid out at `pos`: its operation, then its three lists of terms.
pub open spec fn constraint_at(w: Seq<int>, pos: int) -> Option<(ConstraintView, int)> {
    if pos < 0 || pos >= w.len() {
        None
    } else {
        match operation_of(w[pos]) {
            None => None,
            Some(operation) => match terms_at(w, pos + 1) {
                None => None,
                Some((left, end_a)) => match terms_at(w, end_a) {
                    None => None,
                    Some((right, end_b)) => match terms_at(w, end_b) {
                        None => None,
                        Some((output, end_c)) => Some(
                            (ConstraintView { left, right, output, operation }, end_c),
                        ),
                    },
                },
            },
        }
    }
}

/// The first `n` constraints laid out from `pos` on.
pub open spec fn constraints_at(w: Seq<int>, pos: int, n: nat) -> Option<
    (Seq<ConstraintView>, int),
>
    decreases n,
{
    if n == 0 {
        Some((Seq::empty(), pos))
    } else {
        match constraints_at(w, pos, (n - 1) as nat) {
            None => None,
            Some((constraints, p)) => match constraint_at(w, p) {
                None => None,
                Some((c, q)) => Some((constraints.push(c), q)),
            },
        }
    }
}

/// The `i`-th coefficient entry behind a count at `pos` holds an index and a residue.
pub open spec fn entry_word_ok(w: Seq<int>, pos: int, i: int) -> bool {
    is_index(w[pos + 1 + 2 * i]) && is_residue(w[pos + 2 + 2 * i])
}

/// The coefficient map that the first `n` entries behind a count at `pos`
/// build, a later entry replacing an earlier one of the same index.
pub open spec fn entries_map(w: Seq<int>, pos: int, n: nat) -> Map<usize, int>
    decreases n,
{
    if n == 0 {
        Map::empty()
    } else {
        entries_map(w, pos, (n - 1) as nat).insert(
            w[pos + 1 + 2 * (n - 1)] as usize,
            w[pos + 2 + 2 * (n - 1)],
        )
    }
}

/// The coefficient map laid out at `pos`: a count, then two integers per entry.
pub open spec fn poly_at(w: Seq<int>, pos: int) -> Option<(Map<usize, int>, int)> {
    if pos < 0 || pos >= w.len() || !is_index(w[pos]) {
        None
    } else if pos + 1 + 2 * w[pos] > w.len() {
        None
    } else if !(forall|i: int| 0 <= i < w[pos] ==> #[trigger] entry_word_ok(w, pos, i)) {
        None
    } else {
        Some((entries_map(w, pos, w[pos] as nat), pos + 1 + 2 * w[pos]))
    }
}

/// The three coefficient maps laid out from `pos` on.
pub open spec fn program_at(w: Seq<int>, pos: int) -> Option<(QapView, int)> {
    match poly_at(w, pos) {
        None => None,
        Some((left, end_a)) => match poly_at(w, end_a) {
            None => None,
            Some((right, end_b)) => match poly_at(w, end_b) {
                None => None,
                Some((output, end_c)) => Some((QapView { left, right, output }, end_c)),
            },
        },
    }
}

/// The constraint system that a sequence of integers lays out: the values
/// of its variables, its constraints behind their count, and its three
/// coefficient maps, with nothing left over.
pub open spec fn system_from_words(w: Seq<int>) -> Option<SystemView> {
    match values_at(w, 0) {
        None => None,
        Some((values, end_a)) => if end_a >= w.len() || !is_index(w[end_a]) {
            None
        } else {
            match constraints_at(w, end_a + 1, w[end_a] as nat) {
                None => None,
                Some((constraints, end_b)) => match program_at(w, end_b) {
                    None => None,
                    Some((qap, end_c)) => if end_c == w.len() {
                        Some(SystemView { variables: indexed_variables(values), constraints, qap })
                    } else {
                        None
                    },
                },
            }
        },
    }
}

/// The constraint system that a byte string encodes, if it encodes one.
pub open spec fn decoded_system(bytes: Seq<u8>) -> Option<SystemView> {
    match decoded_words(bytes) {
        None => None,
        Some(w) => system_from_words(w),
    }
}

/// `t` continues `s`: it is at least as long and agrees with it on all of `s`.
pub open spec fn continues(s: Seq<int>, t: Seq<int>) -> bool {
    &&& s.len() <= t.len()
    &&& forall|i: int|
        #![trigger s[i]]
        #![trigger t[i]]
        0 <= i < s.len() ==> s[i] == t[i]
}

/// Residues laid out in a sequence are laid out the same in any continuation.
pub proof fn lemma_values_stable(s: Seq<int>, t: Seq<int>, pos: int)
    requires
        continues(s, t),
        values_at(s, pos) is Some,
    ensures
        values_at(t, pos) == values_at(s, pos),
{
    let n = s[pos];
    assert forall|i: int| 0 <= i < n implies is_residue(#[trigger] value_word(t, pos, i)) by {
        assert(is_residue(value_word(s, pos, i)));
    }
    assert(Seq::new(n as nat, |i: int| value_word(t, pos, i)) =~= Seq::new(
        n as nat,
        |i: int| value_word(s, pos, i),
    ));
}

/// Terms laid out in a sequence are laid out the same in any continuation.
pub proof fn lemma_terms_stable(s: Seq<int>, t: Seq<int>, pos: int)
    requires
        continues(s, t),
        terms_at(s, pos) is Some,
    ensures
        terms_at(t, pos) == terms_at(s, pos),
{
    let n = s[pos];
    assert forall|i: int| 0 <= i < n implies #[trigger] term_word_ok(t, pos, i) by {
        assert(term_word_ok(s, pos, i));
    }
    assert(Seq::new(n as nat, |i: int| term_word(t, pos, i)) =~= Seq::new(
        n as nat,
        |i: int| term_word(s, pos, i),
    ));
}

/// A constraint laid out in a sequence is laid out the same in any continuation.
pub proof fn lemma_constraint_stable(s: Seq<int>, t: Seq<int>, pos: int)
    requires
        continues(s, t),
        constraint_at(s, pos) is Some,
    ensures
        constraint_at(t, pos) == constraint_at(s, pos),
{
    lemma_terms_stable(s, t, pos + 1);
    let end_a = (terms_at(s, pos + 1)->0).1;
    lemma_terms_stable(s, t, end_a);
    let end_b = (terms_at(s, end_a)->0).1;
    lemma_terms_stable(s, t, end_b);
}

/// Constraints laid out in a sequence are laid out the same in any continuation.
pub proof fn lemma_constraints_stable(s: Seq<int>, t: Seq<int>, pos: int, n: nat)
    requires
        continues(s, t),
        constraints_at(s, pos, n) is Some,
    ensures
        constraints_at(t, pos, n) == constraints_at(s, pos, n),
    decreases n,
{
    if n > 0 {
        lemma_constraints_stable(s, t, pos, (n - 1) as nat);
        lemma_constraint_stable(s, t, (constraints_at(s, pos, (n - 1) as nat)->0).1);
    }
}

/// Once a run of constraints cannot be read, no longer run can.
pub proof fn lemma_constraints_none(w: Seq<int>, pos: int, k: nat, n: nat)
    requires
        k <= n,
        constraints_at(w, pos, k) is None,
    ensures
        constraints_at(w, pos, n) is None,
    decreases n,
{
    if k < n {
        lemma_constraints_none(w, pos, k, (n - 1) as nat);
    }
}

/// Coefficient entries within a sequence build the same map in any continuation.
pub proof fn lemma_entries_stable(s: Seq<int>, t: Seq<int>, pos: int, n: nat)
    requires
        continues(s, t),
        0 <= pos,
        pos + 1 + 2 * n <= s.len(),
    ensures
        entries_map(t, pos, n) == entries_map(s, pos, n),
    decreases n,
{
    if n > 0 {
        lemma_entries_stable(s, t, pos, (n - 1) as nat);
    }
}

/// A coefficient map laid out in a sequence is laid out the same in any continuation.
pub proof fn lemma_poly_stable(s: Seq<int>, t: Seq<int>, pos: int)
    requires
        continues(s, t),
        poly_at(s, pos) is Some,
    ensures
        poly_at(t, pos) == poly_at(s, pos),
{
    let n = s[pos];
    assert forall|i: int| 0 <= i < n implies #[trigger] entry_word_ok(t, pos, i) by {
        assert(entry_word_ok(s, pos, i));
    }
    lemma_entries_stable(s, t, pos, n as nat);
}

/// Entries that list a map, each with the map's own value and every index of
/// the map among them, build that map.
pub proof fn lemma_entries_build(w: Seq<int>, pos: int, n: nat, m: Map<usize, int>)
    requires
        forall|i: int|
            0 <= i < n ==> #[trigger] entry_word_ok(w, pos, i) && m.contains_key(
                w[pos + 1 + 2 * i] as usize,
            ) && m[w[pos + 1 + 2 * i] as usize] == w[pos + 2 + 2 * i],
    ensures
        forall|k: usize| #[trigger]
            entries_map(w, pos, n).contains_key(k) ==> m.contains_key(k) && entries_map(w, pos, n)[k]
                == m[k],
        forall|i: int|
            0 <= i < n ==> entries_map(w, pos, n).contains_key(
                #[trigger] (w[pos + 1 + 2 * i] as usize),
            ),
    decreases n,
{
    if n > 0 {
        lemma_entries_build(w, pos, (n - 1) as nat, m);
        assert(entry_word_ok(w, pos, n - 1));
        let before = entries_map(w, pos, (n - 1) as nat);
        let key = w[pos + 1 + 2 * (n - 1)] as usize;
        assert forall|i: int| 0 <= i < n implies entries_map(w, pos, n).contains_key(
            #[trigger] (w[pos + 1 + 2 * i] as usize),
        ) by {
            if i < n - 1 {
                assert(before.contains_key(w[pos + 1 + 2 * i] as usize));
            }
        }
    }
}

/// A snapshot of a system loads, the system read back denotes the system
/// that was saved, and every witness fares with the one exactly as with the
/// other.
pub proof fn lemma_snapshot_round_trip(
    saved: R1CS,
    bytes: Seq<u8>,
    loaded: Result<R1CS, ZkError>,
    witness: Seq<FieldElement>,
)
    requires
        decoded_system(bytes) == Some(saved@),
        match loaded {
            Ok(system) => decoded_system(bytes) == Some(system@),
            Err(_) => decoded_system(bytes) is None,
        },
    ensures
        loaded is Ok,
        loaded->Ok_0@ == saved@,
        witness_outcome(loaded->Ok_0@.constraints, field_values(witness)) == witness_outcome(
            saved@.constraints,
            field_values(witness),
        ),
{
}

/// A snapshot of a proof loads, and the proof read back denotes the proof
/// that was saved.
pub proof fn lemma_proof_round_trip(saved: Proof, bytes: Seq<u8>, loaded: Result<Proof, ZkError>)
    requires
        decoded_proof(bytes) == Some(saved@),
        match loaded {
            Ok(proof) => decoded_proof(bytes) == Some(proof@),
            Err(_) => decoded_proof(bytes) is None,
        },
    ensures
        loaded is Ok,
        loaded->Ok_0@ == saved@,
{
}

/// Appends one integer to a layout.
fn push_word(words: &mut Vec<BigInt>, word: BigInt)
    ensures
        big_values(final(words)@) == big_values(old(words)@).push(bigint_value(word)),
        continues(big_values(old(words)@), big_values(final(words)@)),
        final(words)@.len() == old(words)@.len() + 1,
{
    words.push(word);
    proof {
        assert(big_values(words@) =~= big_values(old(words)@).push(bigint_value(word)));
    }
}

/// Appends a position or count to a layout.
fn push_index(words: &mut Vec<BigInt>, index: usize)
    ensures
        big_values(final(words)@) == big_values(old(words)@).push(index as int),
        continues(big_values(old(words)@), big_values(final(words)@)),
        final(words)@.len() == old(words)@.len() + 1,
{
    push_word(words, big_from_u64(index as u64));
}

/// Reads a position or count.
fn read_index(words: &Vec<BigInt>, pos: usize) -> (r: Option<usize>)
    requires
        pos < words@.len(),
    ensures
        match r {
            Some(index) => index == big_values(words@)[pos as int],
            None => !is_index(big_values(words@)[pos as int]),
        },
{
    match big_to_u64(&words[pos]) {
        Some(v) => if v <= usize::MAX as u64 {
            Some(v as usize)
        } else {
            None
        },
        None => None,
    }
}

/// Reads a canonical residue.
fn read_residue(words: &Vec<BigInt>, pos: usize) -> (r: Option<FieldElement>)
    requires
        pos < words@.len(),
    ensures
        match r {
            Some(e) => e.wf() && e@ == big_values(words@)[pos as int],
            None => !is_residue(big_values(words@)[pos as int]),
        },
{
    let word = &words[pos];
    if big_lt(word, &big_from_u64(0)) || !big_lt(word, &big_from_u64(FIELD_PRIME)) {
        return None;
    }
    proof {
        lemma_small_mod(bigint_value(*word) as nat, FIELD_PRIME as nat);
    }
    Some(FieldElement::new(big_clone(word)))
}

/// Appends a list of terms: its length, then index, recorded value and
/// coefficient of each.
fn write_terms(terms: &Vec<(Variable, BigInt)>, words: &mut Vec<BigInt>)
    requires
        recorded_wf(terms@),
    ensures
        continues(big_values(old(words)@), big_values(final(words)@)),
        terms_at(big_values(final(words)@), old(words)@.len() as int) == Some(
            (terms_view(terms@), final(words)@.len() as int),
        ),
{
    let ghost start = words@.len() as int;
    let ghost before = big_values(words@);
    push_index(words, terms.len());
    let mut i: usize = 0;
    while i < terms.len()
        invariant
            i <= terms.len(),
            recorded_wf(terms@),
            start == before.len(),
            words@.len() == start + 1 + 3 * i,
            continues(before, big_values(words@)),
            big_values(words@)[start] == terms@.len(),
            forall|j: int|
                #![trigger term_word_ok(big_values(words@), start, j)]
                #![trigger term_word(big_values(words@), start, j)]
                0 <= j < i ==> term_word_ok(big_values(words@), start, j) && term_word(
                    big_values(words@),
                    start,
                    j,
                ) == terms_view(terms@)[j],
        decreases terms.len() - i,
    {
        let ghost earlier = big_values(words@);
        push_index(words, terms[i].0.index);
        push_word(words, terms[i].0.value.get_value());
        push_word(words, big_clone(&terms[i].1));
        proof {
            let now = big_values(words@);
            assert(continues(earlier, now));
            assert forall|j: int| 0 <= j < i + 1 implies term_word_ok(now, start, j) && term_word(
                now,
                start,
                j,
            ) == terms_view(terms@)[j] by {
                if j < i {
                    assert(term_word_ok(earlier, start, j));
                    assert(term_word(earlier, start, j) == terms_view(terms@)[j]);
                }
            }
        }
        i += 1;
    }
    proof {
        let now = big_values(words@);
        assert(Seq::new(terms@.len(), |j: int| term_word(now, start, j)) =~= terms_view(terms@));
    }
}

/// Reads a list of terms laid out at `pos`.
fn read_terms(words: &Vec<BigInt>, pos: usize) -> (r: Option<(Vec<(Variable, BigInt)>, usize)>)
    ensures
        match r {
            Some((terms, end)) => {
                &&& terms_at(big_values(words@), pos as int) == Some(
                    (terms_view(terms@), end as int),
                )
                &&& end <= words@.len()
                &&& recorded_wf(terms@)
            },
            None => terms_at(big_values(words@), pos as int) is None,
        },
{
    let ghost w = big_values(words@);
    if pos >= words.len() {
        return None;
    }
    let count = match read_index(words, pos) {
        Some(count) => count,
        None => {
            return None;
        },
    };
    if count > (words.len() - pos - 1) / 3 {
        return None;
    }
    let mut terms: Vec<(Variable, BigInt)> = Vec::new();
    let mut i: usize = 0;
    while i < count
        invariant
            i <= count,
            w == big_values(words@),
            pos < words@.len(),
            count == w[pos as int],
            pos + 1 + 3 * count <= words@.len(),
            terms@.len() == i,
            recorded_wf(terms@),
            words@.len() <= usize::MAX,
            forall|j: int|
                #![trigger term_word_ok(w, pos as int, j)]
                #![trigger term_word(w, pos as int, j)]
                0 <= j < i ==> term_word_ok(w, pos as int, j) && terms_view(terms@)[j]
                    == term_word(w, pos as int, j),
        decreases count - i,
    {
        let at = pos + 1 + 3 * i;
        let index = match read_index(words, at) {
            Some(index) => index,
            None => {
                proof {
                    assert(!term_word_ok(w, pos as int, i as int));
                }
                return None;
            },
        };
        let value = match read_residue(words, at + 1) {
            Some(value) => value,
            None => {
                proof {
                    assert(!term_word_ok(w, pos as int, i as int));
                }
                return None;
            },
        };
        let ghost earlier = terms@;
        terms.push((Variable { index, value }, big_clone(&words[at + 2])));
        proof {
            assert forall|j: int| 0 <= j < i + 1 implies term_word_ok(w, pos as int, j)
                && terms_view(terms@)[j] == term_word(w, pos as int, j) by {
                if j < i {
                    assert(terms@[j] == earlier[j]);
                    assert(term_word_ok(w, pos as int, j));
                    assert(terms_view(earlier)[j] == term_word(w, pos as int, j));
                }
            }
        }
        i += 1;
    }
    proof {
        assert(Seq::new(count as nat, |j: int| term_word(w, pos as int, j)) =~= terms_view(terms@));
    }
    Some((terms, pos + 1 + 3 * count))
}

/// Appends a constraint: its operation, then its three lists of terms.
fn write_constraint(constraint: &Constraint, words: &mut Vec<BigInt>)
    requires
        constraint.wf(),
    ensures
        continues(big_values(old(words)@), big_values(final(words)@)),
        constraint_at(big_values(final(words)@), old(words)@.len() as int) == Some(
            (constraint@, final(words)@.len() as int),
        ),
{
    let ghost start = words@.len() as int;
    let code: u64 = match constraint.operation {
        Operation::Add => 0,
        Operation::Mul => 1,
        Operation::Hash => 2,
    };
    push_word(words, big_from_u64(code));
    let ghost w0 = big_values(words@);
    write_terms(&constraint.left, words);
    let ghost w1 = big_values(words@);
    write_terms(&constraint.right, words);
    let ghost w2 = big_values(words@);
    write_terms(&constraint.output, words);
    proof {
        let w3 = big_values(words@);
        assert(continues(w1, w3));
        lemma_terms_stable(w1, w3, start + 1);
        lemma_terms_stable(w2, w3, w1.len() as int);
        assert(w3[start] == code);
    }
}

/// Reads the constraint laid out at `pos`.
fn read_constraint(words: &Vec<BigInt>, pos: usize) -> (r: Option<(Constraint, usize)>)
    ensures
        match r {
            Some((constraint, end)) => {
                &&& constraint_at(big_values(words@), pos as int) == Some(
                    (constraint@, end as int),
                )
                &&& end <= words@.len()
                &&& constraint.wf()
            },
            None => constraint_at(big_values(words@), pos as int) is None,
        },
{
    if pos >= words.len() {
        return None;
    }
    let operation = match big_to_u64(&words[pos]) {
        Some(0) => Operation::Add,
        Some(1) => Operation::Mul,
        Some(2) => Operation::Hash,
        _ => {
            return None;
        },
    };
    let (left, end_a) = match read_terms(words, pos + 1) {
        Some(found) => found,
        None => {
            return None;
        },
    };
    let (right, end_b) = match read_terms(words, end_a) {
        Some(found) => found,
        None => {
            return None;
        },
    };
    let (output, end_c) = match read_terms(words, end_b) {
        Some(found) => found,
        None => {
            return None;
        },
    };
    Some((Constraint { left, right, output, operation }, end_c))
}

/// Appends a coefficient map: the number of its entries, then index and
/// coefficient of each.
fn write_poly(poly: &Polynomial, words: &mut Vec<BigInt>)
    requires
        poly.wf(),
    ensures
        continues(big_values(old(words)@), big_values(final(words)@)),
        poly_at(big_values(final(words)@), old(words)@.len() as int) == Some(
            (poly@, final(words)@.len() as int),
        ),
{
    let ghost start = words@.len() as int;
    let ghost before = big_values(words@);
    let entries = poly.entries();
    push_index(words, entries.len());
    let mut i: usize = 0;
    while i < entries.len()
        invariant
            i <= entries.len(),
            terms_wf(entries@),
            start == before.len(),
            words@.len() == start + 1 + 2 * i,
            continues(before, big_values(words@)),
            big_values(words@)[start] == entries@.len(),
            forall|j: int|
                0 <= j < i ==> #[trigger] entry_word_ok(big_values(words@), start, j) && big_values(
                    words@,
                )[start + 1 + 2 * j] == entries@[j].0 && big_values(words@)[start + 2 + 2 * j]
                    == entries@[j].1@,
        decreases entries.len() - i,
    {
        let ghost earlier = big_values(words@);
        push_index(words, entries[i].0);
        push_word(words, entries[i].1.get_value());
        proof {
            let now = big_values(words@);
            assert(continues(earlier, now));
            assert forall|j: int| 0 <= j < i + 1 implies #[trigger] entry_word_ok(now, start, j)
                && now[start + 1 + 2 * j] == entries@[j].0 && now[start + 2 + 2 * j]
                == entries@[j].1@ by {
                if j < i {
                    assert(entry_word_ok(earlier, start, j));
                }
            }
        }
        i += 1;
    }
    proof {
        let now = big_values(words@);
        let n = entries@.len();
        assert forall|j: int| 0 <= j < n implies #[trigger] entry_word_ok(now, start, j)
            && poly@.contains_key(now[start + 1 + 2 * j] as usize) && poly@[now[start + 1 + 2
            * j] as usize] == now[start + 2 + 2 * j] by {
            assert(entry_word_ok(now, start, j));
            assert(poly@.contains_key(entries@[j].0));
        }
        lemma_entries_build(now, start, n, poly@);
        assert(entries_map(now, start, n) =~= poly@) by {
            assert forall|k: usize| poly@.contains_key(k) implies entries_map(
                now,
                start,
                n,
            ).contains_key(k) by {
                let j = choose|j: int| 0 <= j < entries@.len() && (#[trigger] entries@[j]).0 == k;
                assert(entry_word_ok(now, start, j));
                assert(entries_map(now, start, n).contains_key(now[start + 1 + 2 * j] as usize));
            }
        }
    }
}

/// Reads the coefficient map laid out at `pos`.
fn read_poly(words: &Vec<BigInt>, pos: usize) -> (r: Option<(Polynomial, usize)>)
    ensures
        match r {
            Some((poly, end)) => {
                &&& poly_at(big_values(words@), pos as int) == Some((poly@, end as int))
                &&& end <= words@.len()
                &&& poly.wf()
            },
            None => poly_at(big_values(words@), pos as int) is None,
        },
{
    let ghost w = big_values(words@);
    if pos >= words.len() {
        return None;
    }
    let count = match read_index(words, pos) {
        Some(count) => count,
        None => {
            return None;
        },
    };
    if count > (words.len() - pos - 1) / 2 {
        return None;
    }
    let mut poly = Polynomial::new();
    let mut i: usize = 0;
    while i < count
        invariant
            i <= count,
            w == big_values(words@),
            pos < words@.len(),
            count == w[pos as int],
            pos + 1 + 2 * count <= words@.len(),
            poly.wf(),
            poly@ == entries_map(w, pos as int, i as nat),
            words@.len() <= usize::MAX,
            forall|j: int| 0 <= j < i ==> #[trigger] entry_word_ok(w, pos as int, j),
        decreases count - i,
    {
        let at = pos + 1 + 2 * i;
        let index = match read_index(words, at) {
            Some(index) => index,
            None => {
                proof {
                    assert(!entry_word_ok(w, pos as int, i as int));
                }
                return None;
            },
        };
        let value = match read_residue(words, at + 1) {
            Some(value) => value,
            None => {
                proof {
                    assert(!entry_word_ok(w, pos as int, i as int));
                }
                return None;
            },
        };
        poly.add_term(index, value);
        proof {
            assert(entry_word_ok(w, pos as int, i as int));
        }
        i += 1;
    }
    Some((poly, pos + 1 + 2 * count))
}

impl R1CS {
    /// The bytes of a snapshot of the whole system: variables, constraints
    /// and coefficient maps.
    pub fn save_to_binary(&self) -> (bytes: Vec<u8>)
        requires
            self.wf(),
        ensures
            decoded_system(bytes@) == Some(self@),
    {
        let mut words: Vec<BigInt> = Vec::new();
        let count = self.variables.len();
        push_index(&mut words, count);
        let mut i: usize = 0;
        while i < count
            invariant
                i <= count,
                count == self.variables@.len(),
                self.wf(),
                words@.len() == 1 + i,
                big_values(words@)[0] == count,
                forall|j: int|
                    0 <= j < i ==> #[trigger] value_word(big_values(words@), 0, j)
                        == self.variables@[j].value@,
            decreases count - i,
        {
            let ghost earlier = big_values(words@);
            push_word(&mut words, self.variables[i].value.get_value());
            proof {
                let now = big_values(words@);
                assert forall|j: int| 0 <= j < i + 1 implies #[trigger] value_word(now, 0, j)
                    == self.variables@[j].value@ by {
                    if j < i {
                        assert(value_word(earlier, 0, j) == self.variables@[j].value@);
                    }
                }
            }
            i += 1;
        }
        let ghost w1 = big_values(words@);
        let ghost values = Seq::new(count as nat, |j: int| value_word(w1, 0, j));
        proof {
            assert forall|j: int| 0 <= j < count implies is_residue(
                #[trigger] value_word(w1, 0, j),
            ) by {
                assert(self.variables@[j].value.wf());
            }
            assert(values_at(w1, 0) == Some((values, 1 + count)));
            assert(indexed_variables(values) =~= self@.variables);
        }
        let total = self.constraints.len();
        push_index(&mut words, total);
        let ghost base = words@.len() as int;
        proof {
            assert(self@.constraints.take(0) =~= Seq::<ConstraintView>::empty());
        }
        let mut c: usize = 0;
        while c < total
            invariant
                c <= total,
                total == self.constraints@.len(),
                self.wf(),
                base == count + 2,
                continues(w1, big_values(words@)),
                big_values(words@).len() >= base,
                big_values(words@)[base - 1] == total,
                constraints_at(big_values(words@), base, c as nat) == Some(
                    (self@.constraints.take(c as int), words@.len() as int),
                ),
            decreases total - c,
        {
            let ghost earlier = big_values(words@);
            write_constraint(&self.constraints[c], &mut words);
            proof {
                let now = big_values(words@);
                lemma_constraints_stable(earlier, now, base, c as nat);
                assert(self@.constraints.take(c + 1) =~= self@.constraints.take(c as int).push(
                    self.constraints@[c as int]@,
                ));
            }
            c += 1;
        }
        let ghost w2 = big_values(words@);
        write_poly(&self.qap.left, &mut words);
        let ghost w3 = big_values(words@);
        write_poly(&self.qap.right, &mut words);
        let ghost w4 = big_values(words@);
        write_poly(&self.qap.output, &mut words);
        proof {
            let w5 = big_values(words@);
            assert(self@.constraints.take(total as int) =~= self@.constraints);
            assert(continues(w1, w5));
            assert(continues(w2, w5));
            assert(continues(w3, w5));
            lemma_values_stable(w1, w5, 0);
            lemma_constraints_stable(w2, w5, base, total as nat);
            lemma_poly_stable(w3, w5, w2.len() as int);
            lemma_poly_stable(w4, w5, w3.len() as int);
            assert(w5[base - 1] == total);
            assert(program_at(w5, w2.len() as int) == Some((self@.qap, w5.len() as int)));
            assert(system_from_words(w5) == Some(self@));
        }
        encode_words(&words)
    }

    /// The system that a snapshot holds.
    pub fn load_from_binary(bytes: &[u8]) -> (r: Result<R1CS, ZkError>)
        ensures
            match r {
                Ok(system) => system.wf() && decoded_system(bytes@) == Some(system@),
                Err(err) => decoded_system(bytes@) is None && err == ZkError::DecodeFailure,
            },
    {
        let words = match decode_words(bytes) {
            Some(words) => words,
            None => {
                return Err(ZkError::DecodeFailure);
            },
        };
        let ghost w = big_values(words@);
        let length = words.len();
        if length == 0 {
            return Err(ZkError::DecodeFailure);
        }
        let count = match read_index(&words, 0) {
            Some(count) => count,
            None => {
                return Err(ZkError::DecodeFailure);
            },
        };
        if count > length - 1 {
            return Err(ZkError::DecodeFailure);
        }
        let mut variables: Vec<Variable> = Vec::new();
        let mut i: usize = 0;
        while i < count
            invariant
                i <= count,
                w == big_values(words@),
                decoded_words(bytes@) == Some(w),
                length == words@.len(),
                count == w[0],
                1 + count <= length,
                variables@.len() == i,
                forall|j: int|
                    0 <= j < i ==> (#[trigger] variables@[j]).index == j && variables@[j].value.wf()
                        && variables@[j].value@ == value_word(w, 0, j),
            decreases count - i,
        {
            let value = match read_residue(&words, 1 + i) {
                Some(value) => value,
                None => {
                    proof {
                        assert(!is_residue(value_word(w, 0, i as int)));
                    }
                    return Err(ZkError::DecodeFailure);
                },
            };
            variables.push(Variable { index: i, value });
            i += 1;
        }
        let ghost values = Seq::new(count as nat, |j: int| value_word(w, 0, j));
        proof {
            assert forall|j: int| 0 <= j < count implies is_residue(
                #[trigger] value_word(w, 0, j),
            ) by {
                assert(variables@[j].value.wf());
            }
            assert(values_at(w, 0) == Some((values, 1 + count)));
            assert(indexed_variables(values) =~= variables_view(variables@));
        }
        let end_a = 1 + count;
        if end_a >= length {
            return Err(ZkError::DecodeFailure);
        }
        let total = match read_index(&words, end_a) {
            Some(total) => total,
            None => {
                return Err(ZkError::DecodeFailure);
            },
        };
        let mut constraints: Vec<Constraint> = Vec::new();
        let mut pos: usize = end_a + 1;
        let mut c: usize = 0;
        while c < total
            invariant
                c <= total,
                w == big_values(words@),
                decoded_words(bytes@) == Some(w),
                length == words@.len(),
                pos <= length,
                end_a + 1 <= length,
                end_a == 1 + count,
                values_at(w, 0) == Some((values, 1 + count)),
                total == w[end_a as int],
                constraints@.len() == c,
                forall|j: int| 0 <= j < c ==> (#[trigger] constraints@[j]).wf(),
                constraints_at(w, end_a + 1, c as nat) == Some(
                    (constraints_view(constraints@), pos as int),
                ),
            decreases total - c,
        {
            match read_constraint(&words, pos) {
                None => {
                    proof {
                        lemma_constraints_none(w, end_a + 1, (c + 1) as nat, total as nat);
                    }
                    return Err(ZkError::DecodeFailure);
                },
                Some((constraint, end)) => {
                    let ghost earlier = constraints_view(constraints@);
                    constraints.push(constraint);
                    proof {
                        assert(constraints_view(constraints@) =~= earlier.push(constraint@));
                    }
                    pos = end;
                },
            }
            c += 1;
        }
        let (left, end_b) = match read_poly(&words, pos) {
            Some(found) => found,
            None => {
                return Err(ZkError::DecodeFailure);
            },
        };
        let (right, end_c) = match read_poly(&words, end_b) {
            Some(found) => found,
            None => {
                return Err(ZkError::DecodeFailure);
            },
        };
        let (output, end_d) = match read_poly(&words, end_c) {
            Some(found) => found,
            None => {
                return Err(ZkError::DecodeFailure);
            },
        };
        if end_d != length {
            return Err(ZkError::DecodeFailure);
        }
        Ok(R1CS { variables, constraints, qap: QAP { left, right, output } })
    }
}

impl Proof {
    /// The bytes of a snapshot of the proof.
    pub fn save_to_binary(&self) -> (bytes: Vec<u8>)
        ensures
            decoded_proof(bytes@) == Some(self@),
    {
        let mut words: Vec<BigInt> = Vec::new();
        words.push(big_clone(&self.commitment));
        let mut i: usize = 0;
        while i < self.witness.len()
            invariant
                i <= self.witness.len(),
                words@.len() == i + 1,
                bigint_value(words@[0]) == self@.commitment,
                forall|j: int|
                    0 <= j < i ==> bigint_value(#[trigger] words@[j + 1]) == self@.witness[j],
            decreases self.witness.len() - i,
        {
            words.push(big_clone(&self.witness[i]));
            i += 1;
        }
        proof {
            assert(big_values(words@).skip(1) =~= self@.witness);
        }
        encode_words(&words)
    }

    /// The proof that a snapshot holds.
    pub fn load_from_binary(bytes: &[u8]) -> (r: Result<Proof, ZkError>)
        ensures
            match r {
                Ok(proof) => decoded_proof(bytes@) == Some(proof@),
                Err(err) => decoded_proof(bytes@) is None && err == ZkError::DecodeFailure,
            },
    {
        let words = match decode_words(bytes) {
            Some(words) => words,
            None => {
                return Err(ZkError::DecodeFailure);
            },
        };
        if words.len() == 0 {
            return Err(ZkError::DecodeFailure);
        }
        let commitment = big_clone(&words[0]);
        let mut witness: Vec<BigInt> = Vec::new();
        let mut i: usize = 1;
        while i < words.len()
            invariant
                1 <= i <= words.len(),
                witness@.len() == i - 1,
                forall|j: int|
                    0 <= j < i - 1 ==> bigint_value(#[trigger] witness@[j]) == bigint_value(
                        words@[j + 1],
                    ),
            decreases words.len() - i,
        {
            witness.push(big_clone(&words[i]));
            i += 1;
        }
        proof {
            assert(big_values(witness@) =~= big_values(words@).skip(1));
        }
        Ok(Proof { witness, commitment })
    }
}

} // verus!
