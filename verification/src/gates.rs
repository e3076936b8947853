//! Schemes that evaluate boolean gates on encrypted bits.

use vstd::prelude::*;

verus! {

/// A scheme that evaluates boolean gates on encrypted bits.
///
/// The cloud key evaluates gates without learning the bits; the secret key
/// encrypts and decrypts them. `plain` is the boolean that an encrypted bit
/// stands for; every method says what it does to that boolean.
pub trait GateScheme {
    /// An encrypted bit.
    type Bit: Copy;

    /// The key that evaluates gates.
    type CloudKey;

    /// The key that encrypts and decrypts.
    type SecretKey;

    /// The boolean that `bit` stands for.
    spec fn plain(bit: Self::Bit) -> bool;

    /// The conjunction of two encrypted bits.
    fn and(a: &Self::Bit, b: &Self::Bit, key: &Self::CloudKey) -> (r: Self::Bit)
        ensures
            Self::plain(r) == (Self::plain(*a) && Self::plain(*b)),
    ;

    /// The disjunction of two encrypted bits.
    fn or(a: &Self::Bit, b: &Self::Bit, key: &Self::CloudKey) -> (r: Self::Bit)
        ensures
            Self::plain(r) == (Self::plain(*a) || Self::plain(*b)),
    ;

    /// The exclusive disjunction of two encrypted bits.
    fn xor(a: &Self::Bit, b: &Self::Bit, key: &Self::CloudKey) -> (r: Self::Bit)
        ensures
            Self::plain(r) == (Self::plain(*a) != Self::plain(*b)),
    ;

    /// The negation of an encrypted bit.
    fn not(a: &Self::Bit) -> (r: Self::Bit)
        ensures
            Self::plain(r) == !Self::plain(*a),
    ;

    /// An encryption of `x`.
    fn encrypt(x: bool, key: &Self::SecretKey) -> (r: Self::Bit)
        ensures
            Self::plain(r) == x,
    ;

    /// The boolean that `bit` stands for.
    fn decrypt(bit: &Self::Bit, key: &Self::SecretKey) -> (x: bool)
        ensures
            x == Self::plain(*bit),
    ;
}

/// The scheme that encrypts nothing: a bit is its own ciphertext, and the
/// keys are empty. It evaluates circuits in the clear.
pub struct ClearScheme;

/// The empty key of `ClearScheme`.
#[derive(Clone, Copy, Debug)]
pub struct ClearKey;

impl GateScheme for ClearScheme {
    type Bit = bool;

    type CloudKey = ClearKey;

    type SecretKey = ClearKey;

    open spec fn plain(bit: bool) -> bool {
        bit
    }

    fn and(a: &bool, b: &bool, key: &ClearKey) -> (r: bool) {
        *a && *b
    }

    fn or(a: &bool, b: &bool, key: &ClearKey) -> (r: bool) {
        *a || *b
    }

    fn xor(a: &bool, b: &bool, key: &ClearKey) -> (r: bool) {
        *a != *b
    }

    fn not(a: &bool) -> (r: bool) {
        !*a
    }

    fn encrypt(x: bool, key: &ClearKey) -> (r: bool) {
        x
    }

    fn decrypt(bit: &bool, key: &ClearKey) -> (x: bool) {
        *bit
    }
}

} // verus!
