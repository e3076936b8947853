//! Private matching of two parties' answers, and the commitments that a
//! ledger keeps of it.
//!
//! - `modular`, `number_theory`: arithmetic modulo a number, and the number
//!   theory that the proofs rest on.
//! - `paillier`: the Paillier cryptosystem; `psi`: the index-aligned
//!   private set intersection built on it; `interests`: answered questions,
//!   their tokens, and a whole run of the protocol.
//! - `gates`, `circuit`: the same test on encrypted bits, for schemes that
//!   evaluate boolean gates only.
//! - `bytes`, `hash`, `merkle`: the Merkle commitment to an ordered list.
//! - `text`, `contract`: the contract's payloads and its state machine.
//! - `entropy`: a stand-in entropy source.

pub mod bytes;
pub mod circuit;
pub mod contract;
pub mod entropy;
pub mod error;
pub mod gates;
pub mod hash;
pub mod interests;
pub mod merkle;
pub mod modular;
pub mod number_theory;
pub mod paillier;
pub mod psi;
pub mod text;
