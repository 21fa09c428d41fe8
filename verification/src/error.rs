//! The typed failures that the library reports to its callers.

use vstd::prelude::*;

verus! {

/// Why an operation of this library could not produce its result.
#[derive(Clone, Copy, Debug, PartialEq, Eq, Structural)]
pub enum ZkError {
    /// A circuit without inputs was asked for a constraint system.
    InvalidCircuit,
    /// A wire, variable or witness index lies outside the sequence it refers to.
    IndexOutOfRange,
    /// A field element that shares a factor with the modulus has no inverse.
    NonInvertibleElement,
    /// A byte string is not the encoding of a value of the expected kind.
    DecodeFailure,
    /// A constraint carries an operation for which no evaluation rule exists.
    UnsupportedOperation,
}

} // verus!
