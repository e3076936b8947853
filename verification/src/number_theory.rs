//! The number theory behind the cryptosystem: divisibility, primes,
//! Fermat's little theorem, and residues modulo a square.

pub mod fermat;
pub mod gcd;
pub mod prime;
pub mod residue;
