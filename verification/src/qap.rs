//! Per-variable coefficient maps and the quadratic program assembled from them.

use crate::bigint::big_from_u64;
use crate::error::ZkError;
use crate::field::{field_add, field_mul, field_sub, invertible, FieldElement, FIELD_PRIME};
use num_bigint::BigInt;
use std::collections::HashMap;
use vstd::arithmetic::div_mod::{lemma_add_mod_noop, lemma_small_mod};
use vstd::prelude::*;
use vstd::std_specs::iter::IteratorSpec;

verus! {

/// The residues that a sequence of field elements holds, position by position.
pub open spec fn field_values(s: Seq<FieldElement>) -> Seq<int> {
    Seq::new(s.len(), |i: int| s[i]@)
}

/// Every element of the sequence is well formed.
pub open spec fn all_wf(s: Seq<FieldElement>) -> bool {
    forall|i: int| 0 <= i < s.len() ==> (#[trigger] s[i]).wf()
}

/// The coefficient that a map gives to an index: zero where it has no entry.
pub open spec fn coefficient(m: Map<usize, int>, k: usize) -> int {
    if m.contains_key(k) {
        m[k]
    } else {
        0
    }
}

/// The integer sum of `coefficient * assignment[index]` over the indices below `n`.
pub open spec fn weighted_total(m: Map<usize, int>, a: Seq<int>, n: nat) -> int
    decreases n,
{
    if n == 0 {
        0
    } else {
        weighted_total(m, a, (n - 1) as nat) + coefficient(m, (n - 1) as usize) * a[n - 1]
    }
}

/// Every index that the map mentions lies below `n`.
pub open spec fn keys_below(m: Map<usize, int>, n: nat) -> bool {
    forall|k: usize| m.contains_key(k) ==> k < n
}

/// The value of a coefficient map on an assignment that covers all its indices.
pub open spec fn poly_eval(m: Map<usize, int>, a: Seq<int>) -> int {
    weighted_total(m, a, a.len()) % (FIELD_PRIME as int)
}

/// A map without entries totals zero.
pub proof fn lemma_total_empty(a: Seq<int>, n: nat)
    ensures
        weighted_total(Map::<usize, int>::empty(), a, n) == 0,
    decreases n,
{
    if n > 0 {
        lemma_total_empty(a, (n - 1) as nat);
    }
}

/// A new entry adds exactly its own product to the total, if its index is counted.
pub proof fn lemma_total_insert(m: Map<usize, int>, k: usize, v: int, a: Seq<int>, n: nat)
    requires
        !m.contains_key(k),
        n <= usize::MAX + 1,
    ensures
        weighted_total(m.insert(k, v), a, n) == weighted_total(m, a, n) + if k < n {
            v * a[k as int]
        } else {
            0
        },
    decreases n,
{
    if n > 0 {
        lemma_total_insert(m, k, v, a, (n - 1) as nat);
    }
}

/// The indices and coefficient residues of a list of terms.
pub open spec fn term_pairs(s: Seq<(usize, FieldElement)>) -> Seq<(usize, int)> {
    Seq::new(s.len(), |i: int| (s[i].0, s[i].1@))
}

/// Every coefficient in a list of terms is well formed.
pub open spec fn terms_wf(s: Seq<(usize, FieldElement)>) -> bool {
    forall|i: int| 0 <= i < s.len() ==> (#[trigger] s[i]).1.wf()
}

/// Adds one contribution to the coefficient of an index.
pub open spec fn accumulate_one(m: Map<usize, int>, index: usize, c: int) -> Map<usize, int> {
    m.insert(index, field_add(coefficient(m, index), c))
}

/// Merges a list of terms into a coefficient map, in order: contributions to
/// one index add up.
pub open spec fn accumulate(m: Map<usize, int>, terms: Seq<(usize, int)>) -> Map<usize, int>
    decreases terms.len(),
{
    if terms.len() == 0 {
        m
    } else {
        accumulate_one(accumulate(m, terms.drop_last()), terms.last().0, terms.last().1)
    }
}

/// The residues of a list of points.
pub open spec fn point_pairs(s: Seq<(FieldElement, FieldElement)>) -> Seq<(int, int)> {
    Seq::new(s.len(), |i: int| (s[i].0@, s[i].1@))
}

/// Both coordinates of every point are well formed.
pub open spec fn points_wf(s: Seq<(FieldElement, FieldElement)>) -> bool {
    forall|i: int| 0 <= i < s.len() ==> (#[trigger] s[i]).0.wf() && s[i].1.wf()
}

/// The difference of the abscissas of any two different points is invertible.
pub open spec fn abscissas_apart(points: Seq<(int, int)>) -> bool {
    forall|i: int, j: int|
        0 <= i < points.len() && 0 <= j < points.len() && i != j ==> invertible(
            #[trigger] field_sub(points[i].0, points[j].0),
        )
}

/// A variable together with a raw integer value.
pub struct Variable {
    pub index: usize,
    pub value: BigInt,
}

/// A mapping from variable index to coefficient.
pub struct Polynomial {
    coefficients: HashMap<usize, FieldElement>,
}

impl View for Polynomial {
    type V = Map<usize, int>;

    /// The coefficient residues, by variable index.
    closed spec fn view(&self) -> Map<usize, int> {
        self.coefficients@.map_values(|f: FieldElement| f@)
    }
}

impl Polynomial {
    /// Every coefficient is a well-formed field element.
    pub closed spec fn wf(&self) -> bool {
        forall|k: usize| self.coefficients@.contains_key(k) ==> (#[trigger] self.coefficients@[k]).wf()
    }

    /// The coefficients of a well-formed polynomial are canonical residues.
    pub proof fn lemma_coefficients_are_residues(&self)
        requires
            self.wf(),
        ensures
            forall|k: usize| #[trigger]
                self@.contains_key(k) ==> 0 <= self@[k] < FIELD_PRIME,
    {
        assert forall|k: usize| #[trigger] self@.contains_key(k) implies 0 <= self@[k]
            < FIELD_PRIME by {
            assert(self.coefficients@.contains_key(k));
            assert(self.coefficients@[k].wf());
        }
    }

    /// The polynomial without terms.
    pub fn new() -> (p: Polynomial)
        ensures
            p.wf(),
            p@ == Map::<usize, int>::empty(),
    {
        let p = Polynomial { coefficients: HashMap::new() };
        proof {
            assert(p@ =~= Map::<usize, int>::empty());
        }
        p
    }

    /// Sets the coefficient of `index`, replacing an earlier one.
    pub fn add_term(&mut self, index: usize, coefficient: FieldElement)
        requires
            old(self).wf(),
            coefficient.wf(),
        ensures
            final(self).wf(),
            final(self)@ == old(self)@.insert(index, coefficient@),
    {
        self.coefficients.insert(index, coefficient);
        proof {
            assert(self@ =~= old(self)@.insert(index, coefficient@));
        }
    }

    /// Adds `coefficient` to the coefficient of `index`, which counts as zero
    /// where the polynomial has none yet.
    pub fn accumulate_term(&mut self, index: usize, coefficient: &FieldElement)
        requires
            old(self).wf(),
            coefficient.wf(),
        ensures
            final(self).wf(),
            final(self)@ == accumulate_one(old(self)@, index, coefficient@),
    {
        broadcast use vstd::std_specs::hash::group_hash_axioms;

        let sum = match self.coefficients.get(&index) {
            Some(present) => present.add(coefficient),
            None => {
                proof {
                    lemma_small_mod(0, FIELD_PRIME as nat);
                }
                FieldElement::new(big_from_u64(0)).add(coefficient)
            },
        };
        self.coefficients.insert(index, sum);
        proof {
            assert(self@ =~= accumulate_one(old(self)@, index, coefficient@));
        }
    }

    /// Merges a list of terms into the polynomial, in order.
    pub fn accumulate_terms(&mut self, terms: &[(usize, FieldElement)])
        requires
            old(self).wf(),
            terms_wf(terms@),
        ensures
            final(self).wf(),
            final(self)@ == accumulate(old(self)@, term_pairs(terms@)),
    {
        let mut i: usize = 0;
        while i < terms.len()
            invariant
                i <= terms.len(),
                self.wf(),
                terms_wf(terms@),
                self@ == accumulate(old(self)@, term_pairs(terms@).take(i as int)),
            decreases terms.len() - i,
        {
            self.accumulate_term(terms[i].0, &terms[i].1);
            proof {
                let pairs = term_pairs(terms@);
                assert(pairs.take(i + 1).drop_last() =~= pairs.take(i as int));
                assert(pairs.take(i + 1).last() == pairs[i as int]);
            }
            i += 1;
        }
        proof {
            assert(term_pairs(terms@).take(i as int) =~= term_pairs(terms@));
        }
    }

    /// The terms of the polynomial, each index once, in no particular order.
    pub fn entries(&self) -> (list: Vec<(usize, FieldElement)>)
        requires
            self.wf(),
        ensures
            terms_wf(list@),
            list@.len() == self@.dom().len(),
            forall|i: int|
                0 <= i < list@.len() ==> self@.contains_key((#[trigger] list@[i]).0) && self@[list@[i].0]
                    == list@[i].1@,
            forall|k: usize|
                self@.contains_key(k) ==> exists|i: int|
                    0 <= i < list@.len() && (#[trigger] list@[i]).0 == k,
    {
        let mut list: Vec<(usize, FieldElement)> = Vec::new();
        let ghost entries = self.coefficients.iter().remaining();
        proof {
            assert(self@.dom() =~= self.coefficients@.dom());
        }
        for entry in it: self.coefficients.iter()
            invariant
                self.wf(),
                entries == self.coefficients.iter().remaining(),
                it.seq() == entries,
                list@.len() == it.index(),
                terms_wf(list@),
                entries.len() == self@.dom().len(),
                forall|i: int|
                    0 <= i < list@.len() ==> (#[trigger] list@[i]).0 == *entries[i].0 && list@[i].1@
                        == (*entries[i].1)@,
        {
            let (index, coefficient) = entry;
            proof {
                assert(self.coefficients@.contains_key(*entries[list@.len() as int].0));
            }
            list.push((*index, coefficient.clone()));
        }
        proof {
            assert(list@.len() == entries.len());
            assert forall|i: int| 0 <= i < list@.len() implies self@.contains_key(
                (#[trigger] list@[i]).0,
            ) && self@[list@[i].0] == list@[i].1@ by {
                assert(self.coefficients@.contains_key(*entries[i].0));
            }
            assert forall|k: usize| self@.contains_key(k) implies exists|i: int|
                0 <= i < list@.len() && (#[trigger] list@[i]).0 == k by {
                let pair = (&k, &self.coefficients@[k]);
                assert(entries.contains(pair));
                let j = choose|j: int| 0 <= j < entries.len() && entries[j] == pair;
                assert(list@[j].0 == k);
            }
        }
        list
    }

    /// The sum of `coefficient * assignment[index]` over all terms, in the field.
    pub fn evaluate(&self, assignment: &Vec<FieldElement>) -> (r: Result<FieldElement, ZkError>)
        requires
            self.wf(),
            all_wf(assignment@),
        ensures
            match r {
                Ok(e) => keys_below(self@, assignment@.len()) && e.wf() && e@ == poly_eval(
                    self@,
                    field_values(assignment@),
                ),
                Err(err) => !keys_below(self@, assignment@.len()) && err
                    == ZkError::IndexOutOfRange,
            },
    {
        let mut result = FieldElement::new(big_from_u64(0));
        let ghost seen: Map<usize, int> = Map::empty();
        let ghost a = field_values(assignment@);
        let ghost n = assignment@.len();
        let ghost entries = self.coefficients.iter().remaining();
        let ghost done: int = 0;
        proof {
            lemma_small_mod(0, FIELD_PRIME as nat);
            lemma_total_empty(a, n);
        }
        for entry in it: self.coefficients.iter()
            invariant
                self.wf(),
                all_wf(assignment@),
                a == field_values(assignment@),
                n == assignment@.len(),
                entries == self.coefficients.iter().remaining(),
                it.seq() == entries,
                it.index() == done,
                result.wf(),
                result@ == weighted_total(seen, a, n) % (FIELD_PRIME as int),
                forall|k: usize| #[trigger]
                    seen.contains_key(k) ==> k < n && self@.contains_key(k) && seen[k] == self@[k],
                forall|k: usize| #[trigger]
                    seen.contains_key(k) ==> exists|j: int|
                        0 <= j < done && *(#[trigger] entries[j]).0 == k,
                forall|j: int| 0 <= j < done ==> seen.contains_key(*(#[trigger] entries[j]).0),
                entries.no_duplicates(),
        {
            let (index, coefficient) = entry;
            proof {
                assert(self.coefficients@.contains_key(*entries[done].0));
            }
            if *index >= assignment.len() {
                proof {
                    assert(self@.contains_key(*index));
                }
                return Err(ZkError::IndexOutOfRange);
            }
            let term = coefficient.mul(&assignment[*index]);
            let ghost before = result@;
            result = result.add(&term);
            proof {
                let k = *index;
                if seen.contains_key(k) {
                    let j = choose|j: int| 0 <= j < done && *(#[trigger] entries[j]).0 == k;
                    assert(self.coefficients@.contains_key(*entries[j].0));
                    assert(entries[j] == entries[done]);
                }
                lemma_total_insert(seen, k, self@[k], a, n);
                lemma_add_mod_noop(
                    weighted_total(seen, a, n),
                    self@[k] * a[k as int],
                    FIELD_PRIME as int,
                );
                lemma_small_mod(before as nat, FIELD_PRIME as nat);
                seen = seen.insert(k, self@[k]);
                done = done + 1;
            }
        }
        proof {
            assert(done == entries.len());
            assert(seen =~= self@) by {
                assert forall|k: usize| self@.contains_key(k) implies seen.contains_key(k) by {
                    let pair = (&k, &self.coefficients@[k]);
                    assert(entries.contains(pair));
                    let j = choose|j: int| 0 <= j < entries.len() && entries[j] == pair;
                    assert(seen.contains_key(*entries[j].0));
                }
            }
        }
        Ok(result)
    }
}

/// The coefficient maps of a quadratic program.
pub struct QapView {
    pub left: Map<usize, int>,
    pub right: Map<usize, int>,
    pub output: Map<usize, int>,
}

/// Every index that any of the three maps mentions lies below `n`.
pub open spec fn qap_keys_below(q: QapView, n: nat) -> bool {
    keys_below(q.left, n) && keys_below(q.right, n) && keys_below(q.output, n)
}

/// The value of a quadratic program on an assignment: `left * right - output`.
pub open spec fn qap_eval(q: QapView, a: Seq<int>) -> int {
    field_sub(field_mul(poly_eval(q.left, a), poly_eval(q.right, a)), poly_eval(q.output, a))
}

/// Three coefficient maps; an assignment satisfies the program when
/// `left * right - output` evaluates to zero.
pub struct QAP {
    pub left: Polynomial,
    pub right: Polynomial,
    pub output: Polynomial,
}

impl View for QAP {
    type V = QapView;

    open spec fn view(&self) -> QapView {
        QapView { left: self.left@, right: self.right@, output: self.output@ }
    }
}

impl QAP {
    /// All three polynomials are well formed.
    pub open spec fn wf(&self) -> bool {
        self.left.wf() && self.right.wf() && self.output.wf()
    }

    /// The program without terms.
    pub fn new() -> (q: QAP)
        ensures
            q.wf(),
            q@.left == Map::<usize, int>::empty(),
            q@.right == Map::<usize, int>::empty(),
            q@.output == Map::<usize, int>::empty(),
    {
        QAP { left: Polynomial::new(), right: Polynomial::new(), output: Polynomial::new() }
    }

    /// Merges the three coefficient lists of a constraint into the program.
    pub fn add_constraint(
        &mut self,
        left_coeffs: &[(usize, FieldElement)],
        right_coeffs: &[(usize, FieldElement)],
        output_coeffs: &[(usize, FieldElement)],
        _modulus: &BigInt,
    )
        requires
            old(self).wf(),
            terms_wf(left_coeffs@),
            terms_wf(right_coeffs@),
            terms_wf(output_coeffs@),
        ensures
            final(self).wf(),
            final(self)@.left == accumulate(old(self)@.left, term_pairs(left_coeffs@)),
            final(self)@.right == accumulate(old(self)@.right, term_pairs(right_coeffs@)),
            final(self)@.output == accumulate(old(self)@.output, term_pairs(output_coeffs@)),
    {
        self.left.accumulate_terms(left_coeffs);
        self.right.accumulate_terms(right_coeffs);
        self.output.accumulate_terms(output_coeffs);
    }

    /// Evaluates `left * right - output` on an assignment.
    pub fn evaluate(&self, assignment: &Vec<FieldElement>) -> (r: Result<FieldElement, ZkError>)
        requires
            self.wf(),
            all_wf(assignment@),
        ensures
            match r {
                Ok(e) => qap_keys_below(self@, assignment@.len()) && e.wf() && e@ == qap_eval(
                    self@,
                    field_values(assignment@),
                ),
                Err(err) => !qap_keys_below(self@, assignment@.len()) && err
                    == ZkError::IndexOutOfRange,
            },
    {
        let left_eval = match self.left.evaluate(assignment) {
            Ok(e) => e,
            Err(err) => {
                return Err(err);
            },
        };
        let right_eval = match self.right.evaluate(assignment) {
            Ok(e) => e,
            Err(err) => {
                return Err(err);
            },
        };
        let output_eval = match self.output.evaluate(assignment) {
            Ok(e) => e,
            Err(err) => {
                return Err(err);
            },
        };
        Ok(left_eval.mul(&right_eval).sub(&output_eval))
    }
}

} // verus!
