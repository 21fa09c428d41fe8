//! The trusted boundary to `num_bigint`: the meaning of a `BigInt` as a
//! mathematical integer, and the arithmetic that the rest of the crate builds on.

use num_bigint::{BigInt, Sign};
use num_traits::ToPrimitive;
use vstd::prelude::*;

verus! {

/// `num_bigint::BigInt`, an arbitrary-precision signed integer. Its
/// representation is private to `num_bigint`; this crate only speaks of the
/// integer it denotes, through [`bigint_value`].
#[verifier::external_type_specification]
#[verifier::external_body]
pub struct ExBigInt(num_bigint::BigInt);

/// The mathematical integer that a `BigInt` denotes.
pub uninterp spec fn bigint_value(b: BigInt) -> int;

/// The integers that a sequence of `BigInt`s denotes, position by position.
pub open spec fn big_values(s: Seq<BigInt>) -> Seq<int> {
    Seq::new(s.len(), |i: int| bigint_value(s[i]))
}

/// The natural number that a little-endian string of base-256 digits denotes.
pub open spec fn le_value(bytes: Seq<u8>) -> nat
    decreases bytes.len(),
{
    if bytes.len() == 0 {
        0
    } else {
        bytes[0] as nat + 256 * le_value(bytes.drop_first())
    }
}

/// The integer that a sign and a little-endian magnitude denote.
pub open spec fn signed_le_value(negative: bool, magnitude: Seq<u8>) -> int {
    if negative {
        -(le_value(magnitude) as int)
    } else {
        le_value(magnitude) as int
    }
}

/// Absolute value of an integer.
pub open spec fn magnitude(a: int) -> int {
    if a < 0 {
        -a
    } else {
        a
    }
}

/// Remainder of truncated division: it carries the sign of the dividend and
/// its magnitude is `|a| mod |b|`.
pub open spec fn trunc_rem(a: int, b: int) -> int
    recommends
        b != 0,
{
    if a >= 0 {
        a % magnitude(b)
    } else {
        -((-a) % magnitude(b))
    }
}

/// Quotient of truncated division: `|a| / |b|`, negated when the operands'
/// signs differ.
pub open spec fn trunc_div(a: int, b: int) -> int
    recommends
        b != 0,
{
    if (a < 0) == (b < 0) {
        magnitude(a) / magnitude(b)
    } else {
        -(magnitude(a) / magnitude(b))
    }
}

/// Trusted: `BigInt::from(u64)` denotes exactly the machine integer given.
#[verifier::external_body]
pub(crate) fn big_from_u64(n: u64) -> (r: BigInt)
    ensures
        bigint_value(r) == n,
{
    BigInt::from(n)
}

/// Trusted: `BigInt::clone` yields a value that denotes the same integer.
#[verifier::external_body]
pub(crate) fn big_clone(a: &BigInt) -> (r: BigInt)
    ensures
        bigint_value(r) == bigint_value(*a),
{
    a.clone()
}

/// Trusted: `&BigInt + &BigInt` is exact integer addition.
#[verifier::external_body]
pub(crate) fn big_add(a: &BigInt, b: &BigInt) -> (r: BigInt)
    ensures
        bigint_value(r) == bigint_value(*a) + bigint_value(*b),
{
    a + b
}

/// Trusted: `&BigInt - &BigInt` is exact integer subtraction.
#[verifier::external_body]
pub(crate) fn big_sub(a: &BigInt, b: &BigInt) -> (r: BigInt)
    ensures
        bigint_value(r) == bigint_value(*a) - bigint_value(*b),
{
    a - b
}

/// Trusted: `&BigInt * &BigInt` is exact integer multiplication.
#[verifier::external_body]
pub(crate) fn big_mul(a: &BigInt, b: &BigInt) -> (r: BigInt)
    ensures
        bigint_value(r) == bigint_value(*a) * bigint_value(*b),
{
    a * b
}

/// Trusted: `&BigInt % &BigInt` is the remainder of truncated division, as
/// for Rust's primitive integers. `num_bigint` panics on a zero divisor,
/// which the precondition excludes.
#[verifier::external_body]
pub(crate) fn big_rem(a: &BigInt, b: &BigInt) -> (r: BigInt)
    requires
        bigint_value(*b) != 0,
    ensures
        bigint_value(r) == trunc_rem(bigint_value(*a), bigint_value(*b)),
{
    a % b
}

/// Trusted: `&BigInt / &BigInt` is the quotient of truncated division, as
/// for Rust's primitive integers. `num_bigint` panics on a zero divisor,
/// which the precondition excludes.
#[verifier::external_body]
pub(crate) fn big_div(a: &BigInt, b: &BigInt) -> (r: BigInt)
    requires
        bigint_value(*b) != 0,
    ensures
        bigint_value(r) == trunc_div(bigint_value(*a), bigint_value(*b)),
{
    a / b
}

/// Trusted: `BigInt` equality holds exactly when both denote the same integer.
#[verifier::external_body]
pub(crate) fn big_eq(a: &BigInt, b: &BigInt) -> (r: bool)
    ensures
        r == (bigint_value(*a) == bigint_value(*b)),
{
    a == b
}

/// Trusted: `BigInt`'s `<` is the order of the integers denoted.
#[verifier::external_body]
pub(crate) fn big_lt(a: &BigInt, b: &BigInt) -> (r: bool)
    ensures
        r == (bigint_value(*a) < bigint_value(*b)),
{
    a < b
}

/// Trusted: `ToPrimitive::to_u64` on a `BigInt` yields the integer exactly
/// when it lies in the range of `u64`, and nothing otherwise.
#[verifier::external_body]
pub(crate) fn big_to_u64(a: &BigInt) -> (r: Option<u64>)
    ensures
        match r {
            Some(v) => bigint_value(*a) == v,
            None => bigint_value(*a) < 0 || bigint_value(*a) > u64::MAX,
        },
{
    a.to_u64()
}

/// Trusted: `BigInt::to_bytes_le` yields the sign and the magnitude as
/// little-endian base-256 digits; the flag returned here is set for
/// `Sign::Minus` only.
#[verifier::external_body]
pub(crate) fn big_to_bytes_le(a: &BigInt) -> (r: (bool, Vec<u8>))
    ensures
        bigint_value(*a) == signed_le_value(r.0, r.1@),
{
    let (sign, magnitude) = a.to_bytes_le();
    match sign {
        Sign::Minus => (true, magnitude),
        Sign::NoSign => (false, magnitude),
        Sign::Plus => (false, magnitude),
    }
}

/// Trusted: `BigInt::from_bytes_le` builds the integer with the given sign
/// whose magnitude the bytes spell as little-endian base-256 digits.
#[verifier::external_body]
pub(crate) fn big_from_bytes_le(negative: bool, magnitude: &[u8]) -> (r: BigInt)
    ensures
        bigint_value(r) == signed_le_value(negative, magnitude@),
{
    BigInt::from_bytes_le(if negative { Sign::Minus } else { Sign::Plus }, magnitude)
}

} // verus!
