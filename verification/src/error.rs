//! The errors of the matching engine.

use vstd::prelude::*;

verus! {

/// Why an operation of the matching engine was refused.
#[derive(Clone, Copy, Debug, PartialEq, Eq, Structural)]
pub enum PsiError {
    /// The two numbers offered as primes are not distinct odd integers above one.
    InvalidPrime,
    /// A modular inverse was needed that does not exist.
    NoInverse,
    /// A plaintext, a ciphertext or a modulus lies outside the range it must have.
    Range,
    /// Two encrypted words differ in width.
    WidthMismatch,
    /// The two parties hold different numbers of items.
    Alignment,
    /// A sequence that must hold at least one item is empty.
    EmptyInput,
    /// An action's payload is not a list of numbers of the expected shape.
    MalformedPayload,
}

} // verus!
