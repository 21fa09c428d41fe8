//! Elements of the prime field that every circuit, constraint and witness lives in.

use crate::bigint::{
    big_add, big_clone, big_div, big_eq, big_from_u64, big_lt, big_mul, big_rem, big_sub,
    bigint_value, trunc_rem,
};
use crate::error::ZkError;
use num_bigint::BigInt;
use vstd::arithmetic::div_mod::{
    lemma_fundamental_div_mod, lemma_mod_add_multiples_vanish,
    lemma_mod_equivalence, lemma_mod_multiples_basic, lemma_mod_bound, lemma_mod_multiples_vanish,
    lemma_mod_pos_bound, lemma_mul_mod_noop_general, lemma_small_mod, lemma_sub_mod_noop,
};
use vstd::prelude::*;

verus! {

/// The modulus shared by all field elements.
pub const FIELD_PRIME: u64 = 1_000_000_007;

/// Sum of two residues.
pub open spec fn field_add(a: int, b: int) -> int {
    (a + b) % (FIELD_PRIME as int)
}

/// Difference of two residues.
pub open spec fn field_sub(a: int, b: int) -> int {
    (a - b) % (FIELD_PRIME as int)
}

/// Product of two residues.
pub open spec fn field_mul(a: int, b: int) -> int {
    (a * b) % (FIELD_PRIME as int)
}

/// Additive inverse of a residue.
pub open spec fn field_neg(a: int) -> int {
    (FIELD_PRIME as int - a) % (FIELD_PRIME as int)
}

/// Greatest common divisor of two naturals, by Euclid's recursion.
pub open spec fn spec_gcd(a: nat, b: nat) -> nat
    decreases b,
{
    if b == 0 {
        a
    } else {
        spec_gcd(b, a % b)
    }
}

/// A residue is invertible when it shares no factor with the modulus.
pub open spec fn invertible(a: int) -> bool {
    a >= 0 && spec_gcd(a as nat, FIELD_PRIME as nat) == 1
}

/// `r` is the canonical multiplicative inverse of `a`.
pub open spec fn is_inverse(r: int, a: int) -> bool {
    0 <= r < FIELD_PRIME && (r * a) % (FIELD_PRIME as int) == 1
}

/// The canonical multiplicative inverse of a residue, where one exists.
pub open spec fn field_inv(a: int) -> int {
    choose|r: int| is_inverse(r, a)
}

/// Truncated remainder and Euclidean remainder agree modulo a positive modulus,
/// and coincide on non-negative dividends.
pub proof fn lemma_trunc_rem_congruent(x: int, m: int)
    requires
        m > 0,
    ensures
        trunc_rem(x, m) % m == x % m,
        -m < trunc_rem(x, m) < m,
        x >= 0 ==> trunc_rem(x, m) == x % m,
        x < 0 ==> trunc_rem(x, m) <= 0,
{
    if x >= 0 {
        lemma_mod_pos_bound(x, m);
        lemma_small_mod((x % m) as nat, m as nat);
    } else {
        let r = (-x) % m;
        let q = (-x) / m;
        lemma_mod_pos_bound(-x, m);
        lemma_fundamental_div_mod(-x, m);
        assert(x - (-r) == m * (-q)) by (nonlinear_arith)
            requires
                -x == m * q + r,
        ;
        lemma_mod_multiples_basic(-q, m);
        assert((-q) * m == m * (-q)) by (nonlinear_arith);
        lemma_mod_equivalence(x, -r, m);
    }
}

/// Shifting a truncated remainder into `[0, m)` yields the Euclidean remainder.
pub proof fn lemma_normalize(x: int, m: int)
    requires
        m > 0,
    ensures
        trunc_rem(x, m) < 0 ==> trunc_rem(x, m) + m == x % m,
        trunc_rem(x, m) >= 0 ==> trunc_rem(x, m) == x % m,
{
    let t = trunc_rem(x, m);
    lemma_trunc_rem_congruent(x, m);
    if t < 0 {
        lemma_mod_add_multiples_vanish(t, m);
        lemma_small_mod((t + m) as nat, m as nat);
    } else {
        lemma_small_mod(t as nat, m as nat);
    }
}

/// A residue has at most one canonical inverse.
pub proof fn lemma_inverse_unique(a: int, r1: int, r2: int)
    requires
        is_inverse(r1, a),
        is_inverse(r2, a),
    ensures
        r1 == r2,
{
    let p = FIELD_PRIME as int;
    // r1 == r1 * (a * r2) == (r1 * a) * r2 == r2  (mod p)
    lemma_mul_mod_noop_general(r1, a * r2, p);
    lemma_mul_mod_noop_general(r1 * a, r2, p);
    assert(a * r2 == r2 * a) by (nonlinear_arith);
    assert(r1 * (a * r2) == (r1 * a) * r2) by (nonlinear_arith);
    assert((r1 * 1) % p == (1 * r2) % p);
    lemma_small_mod(r1 as nat, p as nat);
    lemma_small_mod(r2 as nat, p as nat);
}

/// A Bezout identity with right-hand side 1 exhibits an inverse modulo the prime.
pub proof fn lemma_bezout_inverse(a: int, x: int, y: int)
    requires
        a * x + (FIELD_PRIME as int) * y == 1,
    ensures
        (x * a) % (FIELD_PRIME as int) == 1,
{
    let p = FIELD_PRIME as int;
    assert(x * a == p * (-y) + 1) by (nonlinear_arith)
        requires
            a * x + p * y == 1,
    ;
    lemma_mod_multiples_vanish(-y, 1, p);
    lemma_small_mod(1, p as nat);
}

/// Euclid's recursion yields coefficients that combine the operands into
/// their greatest common divisor.
pub proof fn lemma_bezout(a: nat, b: nat) -> (c: (int, int))
    ensures
        a * c.0 + b * c.1 == spec_gcd(a, b),
    decreases b,
{
    if b == 0 {
        (1, 0)
    } else {
        let (x1, y1) = lemma_bezout(b, a % b);
        lemma_fundamental_div_mod(a as int, b as int);
        let q = (a / b) as int;
        let r = (a % b) as int;
        assert(a * y1 + b * (x1 - q * y1) == b * x1 + r * y1) by (nonlinear_arith)
            requires
                a == b * q + r,
        ;
        (y1, x1 - q * y1)
    }
}

/// An invertible residue has a canonical inverse, and [`field_inv`] names it.
pub proof fn lemma_inverse_exists(a: int)
    requires
        invertible(a),
    ensures
        is_inverse(field_inv(a), a),
{
    let p = FIELD_PRIME as int;
    let (x, y) = lemma_bezout(a as nat, FIELD_PRIME as nat);
    lemma_bezout_inverse(a, x, y);
    lemma_mod_bound(x, p);
    lemma_mul_mod_noop_general(x, a, p);
    lemma_mod_bound(a, p);
    assert(((x % p) * a) % p == (x * a) % p) by {
        lemma_mul_mod_noop_general(x % p, a, p);
        lemma_small_mod((x % p) as nat, p as nat);
    }
    assert(is_inverse(x % p, a));
}

/// Adding an element and then subtracting it again changes nothing.
pub proof fn lemma_add_then_sub(a: FieldElement, b: FieldElement)
    requires
        a.wf(),
        b.wf(),
    ensures
        field_sub(field_add(a@, b@), b@) == a@,
{
    let p = FIELD_PRIME as int;
    lemma_small_mod(b@ as nat, p as nat);
    lemma_small_mod(a@ as nat, p as nat);
    lemma_sub_mod_noop(a@ + b@, b@, p);
}

/// Multiplying by the inverse of an invertible element and then by the
/// element itself changes nothing.
pub proof fn lemma_mul_inv_then_mul(a: FieldElement, b: FieldElement)
    requires
        a.wf(),
        b.wf(),
        invertible(b@),
    ensures
        field_mul(field_mul(a@, field_inv(b@)), b@) == a@,
{
    let p = FIELD_PRIME as int;
    let i = field_inv(b@);
    lemma_inverse_exists(b@);
    lemma_mul_mod_noop_general(a@ * i, b@, p);
    assert((a@ * i) * b@ == a@ * (i * b@)) by (nonlinear_arith);
    lemma_mul_mod_noop_general(a@, i * b@, p);
    lemma_small_mod(a@ as nat, p as nat);
    assert(a@ * 1 == a@);
}

/// Greatest common divisor with Bezout coefficients: the result `(g, x, y)`
/// satisfies `a * x + b * y == g`.
fn extended_gcd(a: &BigInt, b: &BigInt) -> (r: (BigInt, BigInt, BigInt))
    requires
        bigint_value(*a) >= 0,
        bigint_value(*b) >= 0,
    ensures
        bigint_value(r.0) == spec_gcd(bigint_value(*a) as nat, bigint_value(*b) as nat),
        bigint_value(*a) * bigint_value(r.1) + bigint_value(*b) * bigint_value(r.2)
            == bigint_value(r.0),
    decreases bigint_value(*b),
{
    let zero = big_from_u64(0);
    if big_eq(b, &zero) {
        return (big_clone(a), big_from_u64(1), zero);
    }
    let rem = big_rem(a, b);
    let quotient = big_div(a, b);
    proof {
        lemma_trunc_rem_congruent(bigint_value(*a), bigint_value(*b));
        lemma_mod_bound(bigint_value(*a), bigint_value(*b));
        lemma_fundamental_div_mod(bigint_value(*a), bigint_value(*b));
    }
    let (gcd, x1, y1) = extended_gcd(b, &rem);
    let y = big_sub(&x1, &big_mul(&quotient, &y1));
    proof {
        let av = bigint_value(*a);
        let bv = bigint_value(*b);
        let q = av / bv;
        let r = av % bv;
        assert(bigint_value(quotient) == q);
        assert(av * bigint_value(y1) + bv * (bigint_value(x1) - q * bigint_value(y1)) == bv
            * bigint_value(x1) + r * bigint_value(y1)) by (nonlinear_arith)
            requires
                av == bv * q + r,
        ;
    }
    (gcd, y1, y)
}

/// An element of the prime field of order [`FIELD_PRIME`].
#[derive(Debug)]
pub struct FieldElement {
    value: BigInt,
    modulus: BigInt,
}

impl View for FieldElement {
    type V = int;

    /// The residue that the element holds.
    closed spec fn view(&self) -> int {
        bigint_value(self.value)
    }
}

impl Clone for FieldElement {
    fn clone(&self) -> (r: Self)
        ensures
            r@ == self@,
            r.modulus_value() == self.modulus_value(),
    {
        FieldElement { value: big_clone(&self.value), modulus: big_clone(&self.modulus) }
    }
}

impl PartialEq for FieldElement {
    fn eq(&self, other: &Self) -> (r: bool) {
        big_eq(&self.value, &other.value) && big_eq(&self.modulus, &other.modulus)
    }
}

impl vstd::std_specs::cmp::PartialEqSpecImpl for FieldElement {
    open spec fn obeys_eq_spec() -> bool {
        true
    }

    /// Two elements are equal when they hold the same residue under the
    /// same modulus.
    open spec fn eq_spec(&self, other: &Self) -> bool {
        self@ == other@ && self.modulus_value() == other.modulus_value()
    }
}

impl core::ops::Add for FieldElement {
    type Output = FieldElement;

    /// Field addition, by value.
    fn add(self, other: FieldElement) -> (r: FieldElement)
        ensures
            r.wf(),
            r@ == field_add(self@, other@),
    {
        let sum = big_add(&self.value, &other.value);
        FieldElement::new(sum)
    }
}

impl vstd::std_specs::ops::AddSpecImpl for FieldElement {
    open spec fn obeys_add_spec() -> bool {
        false
    }

    /// The operands must carry the same modulus.
    open spec fn add_req(self, other: FieldElement) -> bool {
        self.modulus_value() == other.modulus_value()
    }

    /// Not in force: what the operator returns is stated on `add` itself.
    open spec fn add_spec(self, other: FieldElement) -> FieldElement {
        self
    }
}

impl core::ops::Add for &FieldElement {
    type Output = FieldElement;

    /// Field addition, by reference.
    fn add(self, other: &FieldElement) -> (r: FieldElement)
        ensures
            r.wf(),
            r@ == field_add(self@, other@),
    {
        let sum = big_add(&self.value, &other.value);
        FieldElement::new(sum)
    }
}

impl vstd::std_specs::ops::AddSpecImpl for &FieldElement {
    open spec fn obeys_add_spec() -> bool {
        false
    }

    /// The operands must carry the same modulus.
    open spec fn add_req(self, other: &FieldElement) -> bool {
        self.modulus_value() == other.modulus_value()
    }

    /// Not in force: what the operator returns is stated on `add` itself.
    open spec fn add_spec(self, other: &FieldElement) -> FieldElement {
        *self
    }
}

impl core::ops::Mul<&BigInt> for FieldElement {
    type Output = FieldElement;

    /// Multiplication by an arbitrary integer scalar.
    fn mul(self, rhs: &BigInt) -> (r: FieldElement)
        ensures
            r.wf(),
            r@ == field_mul(self@, bigint_value(*rhs)),
    {
        self.times(rhs)
    }
}

impl vstd::std_specs::ops::MulSpecImpl<&BigInt> for FieldElement {
    open spec fn obeys_mul_spec() -> bool {
        false
    }

    /// The element must be well formed.
    open spec fn mul_req(self, rhs: &BigInt) -> bool {
        self.wf()
    }

    /// Not in force: what the operator returns is stated on `mul` itself.
    open spec fn mul_spec(self, rhs: &BigInt) -> FieldElement {
        self
    }
}

impl core::ops::Mul<BigInt> for FieldElement {
    type Output = FieldElement;

    /// Multiplication by an arbitrary integer scalar, taken by value.
    fn mul(self, rhs: BigInt) -> (r: FieldElement)
        ensures
            r.wf(),
            r@ == field_mul(self@, bigint_value(rhs)),
    {
        self.times(&rhs)
    }
}

impl vstd::std_specs::ops::MulSpecImpl<BigInt> for FieldElement {
    open spec fn obeys_mul_spec() -> bool {
        false
    }

    /// The element must be well formed.
    open spec fn mul_req(self, rhs: BigInt) -> bool {
        self.wf()
    }

    /// Not in force: what the operator returns is stated on `mul` itself.
    open spec fn mul_spec(self, rhs: BigInt) -> FieldElement {
        self
    }
}

impl FieldElement {
    /// The modulus that the element carries.
    pub closed spec fn modulus_value(&self) -> int {
        bigint_value(self.modulus)
    }

    /// The element carries the field's modulus and a residue below it.
    pub open spec fn wf(&self) -> bool {
        &&& self.modulus_value() == FIELD_PRIME
        &&& 0 <= self@ < FIELD_PRIME
    }

    /// Reduces any integer, negative or large, to its residue.
    pub fn new(value: BigInt) -> (r: FieldElement)
        ensures
            r.wf(),
            r@ == bigint_value(value) % (FIELD_PRIME as int),
    {
        let modulus = big_from_u64(FIELD_PRIME);
        let rem = big_rem(&value, &modulus);
        let zero = big_from_u64(0);
        proof {
            lemma_normalize(bigint_value(value), FIELD_PRIME as int);
            lemma_mod_bound(bigint_value(value), FIELD_PRIME as int);
        }
        let normalized = if big_lt(&rem, &zero) {
            big_add(&rem, &modulus)
        } else {
            rem
        };
        FieldElement { value: normalized, modulus }
    }

    /// The residue, as a big integer.
    pub fn get_value(&self) -> (r: BigInt)
        ensures
            bigint_value(r) == self@,
    {
        big_clone(&self.value)
    }

    /// The modulus, as a big integer.
    pub fn get_modulus(&self) -> (r: &BigInt)
        ensures
            bigint_value(*r) == self.modulus_value(),
    {
        &self.modulus
    }

    /// Field addition.
    pub fn add(&self, other: &FieldElement) -> (r: FieldElement)
        requires
            self.modulus_value() == other.modulus_value(),
        ensures
            r.wf(),
            r@ == field_add(self@, other@),
    {
        FieldElement::new(big_add(&self.value, &other.value))
    }

    /// Field subtraction.
    pub fn sub(&self, other: &FieldElement) -> (r: FieldElement)
        requires
            self.modulus_value() == other.modulus_value(),
        ensures
            r.wf(),
            r@ == field_sub(self@, other@),
    {
        FieldElement::new(big_sub(&self.value, &other.value))
    }

    /// Field multiplication.
    pub fn mul(&self, other: &FieldElement) -> (r: FieldElement)
        requires
            self.wf(),
            other.wf(),
        ensures
            r.wf(),
            r@ == field_mul(self@, other@),
    {
        let product = big_mul(&self.value, &other.value);
        proof {
            lemma_trunc_rem_congruent(self@ * other@, FIELD_PRIME as int);
        }
        FieldElement::new(big_rem(&product, &self.modulus))
    }

    /// The element times an integer scalar, reduced.
    fn times(&self, rhs: &BigInt) -> (r: FieldElement)
        requires
            self.wf(),
        ensures
            r.wf(),
            r@ == field_mul(self@, bigint_value(*rhs)),
    {
        let product = big_mul(&self.value, rhs);
        proof {
            lemma_trunc_rem_congruent(self@ * bigint_value(*rhs), FIELD_PRIME as int);
        }
        FieldElement::new(big_rem(&product, &self.modulus))
    }

    /// Additive inverse.
    pub fn negate(&self) -> (r: FieldElement)
        ensures
            r.wf(),
            r@ == (self.modulus_value() - self@) % (FIELD_PRIME as int),
            self.wf() ==> r@ == field_neg(self@),
    {
        FieldElement::new(big_sub(&self.modulus, &self.value))
    }

    /// Multiplicative inverse, by the extended Euclidean algorithm. An element
    /// that shares a factor with the modulus has none.
    pub fn inv(&self) -> (r: Result<FieldElement, ZkError>)
        requires
            self.wf(),
        ensures
            match r {
                Ok(e) => invertible(self@) && e.wf() && e@ == field_inv(self@),
                Err(err) => !invertible(self@) && err == ZkError::NonInvertibleElement,
            },
            r is Ok ==> is_inverse(field_inv(self@), self@),
    {
        let (gcd, x, y) = extended_gcd(&self.value, &self.modulus);
        let one = big_from_u64(1);
        if !big_eq(&gcd, &one) {
            return Err(ZkError::NonInvertibleElement);
        }
        let normalized = big_rem(&x, &self.modulus);
        let e = FieldElement::new(normalized);
        proof {
            let p = FIELD_PRIME as int;
            lemma_trunc_rem_congruent(bigint_value(x), p);
            lemma_bezout_inverse(self@, bigint_value(x), bigint_value(y));
            lemma_mul_mod_noop_general(bigint_value(x), self@, p);
            lemma_small_mod(self@ as nat, p as nat);
            assert(is_inverse(e@, self@));
            lemma_inverse_unique(self@, e@, field_inv(self@));
        }
        Ok(e)
    }

    /// Adds `other` into `self`.
    pub fn add_assign(&mut self, other: FieldElement)
        requires
            old(self).wf(),
            other.wf(),
        ensures
            final(self).wf(),
            final(self)@ == field_add(old(self)@, other@),
    {
        let sum = big_add(&self.value, &other.value);
        proof {
            lemma_trunc_rem_congruent(self@ + other@, FIELD_PRIME as int);
        }
        self.value = big_rem(&sum, &self.modulus);
    }
}

} // verus!
