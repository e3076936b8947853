//! The Paillier cryptosystem: key pairs, encryption and decryption.

use crate::error::PsiError;
use crate::modular::{l_function, lcm, lcm_of, lemma_lcm_bound, mod_exp, mod_inv, mul_mod};
use crate::number_theory::gcd::{coprime, inverse_of};
use crate::number_theory::residue::{lemma_linear_residue, lemma_pow_near_one};
use vstd::arithmetic::div_mod::lemma_mul_mod_noop_general;
use vstd::arithmetic::power::pow;
use vstd::prelude::*;

pub mod laws;

verus! {

/// The public half of a key pair: the modulus `n` and the generator `g`.
#[derive(Clone, Copy, Debug, PartialEq, Eq, Structural)]
pub struct PublicKey {
    pub n: u128,
    pub g: u128,
}

/// The private half of a key pair: the modulus `n`, the exponent `lambda` and
/// the factor `mu` that decryption multiplies by.
#[derive(Clone, Copy, Debug, PartialEq, Eq, Structural)]
pub struct PrivateKey {
    pub n: u128,
    pub lambda: u128,
    pub mu: u128,
}

/// Whether `p` and `q` are distinct odd numbers above one.
pub open spec fn distinct_odd(p: nat, q: nat) -> bool {
    p > 1 && q > 1 && p % 2 == 1 && q % 2 == 1 && p != q
}

/// Why no key pair comes of `p` and `q`, if none does.
pub open spec fn key_failure(p: nat, q: nat) -> Option<PsiError> {
    let n = p * q;
    if !distinct_odd(p, q) {
        Some(PsiError::InvalidPrime)
    } else if n * n > u128::MAX {
        Some(PsiError::Range)
    } else if !coprime(lcm_of((p - 1) as nat, (q - 1) as nat) % n, n) {
        Some(PsiError::NoInverse)
    } else {
        None
    }
}

/// The key pair of `p` and `q`: `n = p * q`, `g = n + 1`,
/// `lambda = lcm(p - 1, q - 1)`, and `mu` the inverse of `lambda` modulo `n`.
pub open spec fn key_of(p: nat, q: nat) -> (PublicKey, PrivateKey) {
    let n = p * q;
    let lambda = lcm_of((p - 1) as nat, (q - 1) as nat);
    (
        PublicKey { n: n as u128, g: (n + 1) as u128 },
        PrivateKey { n: n as u128, lambda: lambda as u128, mu: inverse_of(lambda % n, n) as u128 },
    )
}

/// Whether `pk` and `sk` are the key pair of `p` and `q`, and `p` and `q`
/// have one.
pub open spec fn key_pair(p: nat, q: nat, pk: PublicKey, sk: PrivateKey) -> bool {
    key_failure(p, q) is None && (pk, sk) == key_of(p, q)
}

/// The ciphertext of `m` under modulus `n` and generator `g` with
/// randomness `r`: `g^m * r^n mod n^2`.
pub open spec fn encryption(m: nat, r: nat, n: nat, g: nat) -> nat {
    ((pow(g as int, m) * pow(r as int, n)) % ((n * n) as int)) as nat
}

/// Why `m` cannot be encrypted under modulus `n` with randomness `r`, if it
/// cannot.
pub open spec fn encrypt_failure(m: nat, r: nat, n: nat) -> Option<PsiError> {
    if n * n > u128::MAX || m >= n || r == 0 || r >= n {
        Some(PsiError::Range)
    } else if !coprime(r, n) {
        Some(PsiError::NoInverse)
    } else {
        None
    }
}

/// Whether `c^lambda mod n^2` is one more than a multiple of `n`, so that the
/// division in the `L` function is exact.
pub open spec fn decodable(c: nat, n: nat, lambda: nat) -> bool {
    let u = pow(c as int, lambda) % ((n * n) as int);
    u >= 1 && (u - 1) % (n as int) == 0
}

/// What `c` decrypts to: `L(c^lambda mod n^2) * mu mod n`, with
/// `L(x) = (x - 1) / n`.
pub open spec fn decryption(c: nat, n: nat, lambda: nat, mu: nat) -> int {
    (((pow(c as int, lambda) % ((n * n) as int) - 1) / (n as int)) * mu) % (n as int)
}

/// Whether `c` cannot be decrypted under modulus `n` and exponent `lambda`.
pub open spec fn decrypt_failure(c: nat, n: nat, lambda: nat) -> bool {
    n * n > u128::MAX || c >= n * n || !decodable(c, n, lambda)
}

/// The key pair of two primes `p` and `q`. That the two are prime is the
/// caller's concern; they must be distinct odd numbers above one, the square
/// of their product must fit in 128 bits, and `lcm(p - 1, q - 1)` must have an
/// inverse modulo their product.
pub fn prepare_key(p: u128, q: u128) -> (r: Result<(PublicKey, PrivateKey), PsiError>)
    ensures
        match r {
            Ok(keys) => key_pair(p as nat, q as nat, keys.0, keys.1) && keys.0.n == p * q
                && keys.0.g == p * q + 1,
            Err(e) => key_failure(p as nat, q as nat) == Some(e),
        },
{
    if p <= 1 || q <= 1 || p % 2 != 1 || q % 2 != 1 || p == q {
        return Err(PsiError::InvalidPrime);
    }
    let n: u128 = match p.checked_mul(q) {
        Some(n) => n,
        None => {
            proof {
                assert((p * q) * (p * q) >= p * q) by (nonlinear_arith)
                    requires
                        p * q > 0,
                ;
            }
            return Err(PsiError::Range);
        },
    };
    let n_sq: u128 = match n.checked_mul(n) {
        Some(s) => s,
        None => {
            return Err(PsiError::Range);
        },
    };
    proof {
        lemma_lcm_bound((p - 1) as nat, (q - 1) as nat);
        assert((p - 1) * (q - 1) <= p * q) by (nonlinear_arith)
            requires
                p > 1,
                q > 1,
        ;
        assert(n >= 4 && n_sq > n) by (nonlinear_arith)
            requires
                p > 1,
                q > 1,
                n == p * q,
                n_sq == n * n,
        ;
    }
    let lambda: u128 = lcm(p - 1, q - 1);
    let g: u128 = n + 1;
    let u: u128 = mod_exp(g, lambda, n_sq);
    proof {
        lemma_pow_near_one(n as int, 1, lambda as nat);
        assert(1 + 1 * n == g);
        assert(1 + lambda * 1 * n == 1 + lambda * n) by (nonlinear_arith);
        lemma_linear_residue(n as int, lambda as int);
    }
    let l: u128 = l_function(u, n);
    match mod_inv(l, n) {
        Ok(mu) => {
            Ok((PublicKey { n, g }, PrivateKey { n, lambda, mu }))
        },
        Err(_) => Err(PsiError::NoInverse),
    }
}

/// Encrypts `m` under `pk` with randomness `r`, which must lie strictly
/// between 0 and `n` and be coprime to `n`; `m` must be below `n`.
///
/// Equal randomness gives equal ciphertexts: whoever needs the ciphertexts to
/// hide the messages draws `r` afresh, uniformly, for every call.
pub fn encrypt(m: u128, pk: &PublicKey, r: u128) -> (c: Result<u128, PsiError>)
    ensures
        match c {
            Ok(c) => encrypt_failure(m as nat, r as nat, pk.n as nat) is None && c == encryption(
                m as nat,
                r as nat,
                pk.n as nat,
                pk.g as nat,
            ) && c < pk.n * pk.n,
            Err(e) => encrypt_failure(m as nat, r as nat, pk.n as nat) == Some(e),
        },
{
    let n: u128 = pk.n;
    let n_sq: u128 = match n.checked_mul(n) {
        Some(s) => s,
        None => {
            return Err(PsiError::Range);
        },
    };
    if m >= n || r == 0 || r >= n {
        return Err(PsiError::Range);
    }
    match mod_inv(r, n) {
        Ok(_) => {},
        Err(_) => {
            return Err(PsiError::NoInverse);
        },
    }
    proof {
        assert(n_sq > 0) by (nonlinear_arith)
            requires
                n > 0,
                n_sq == n * n,
        ;
    }
    let a: u128 = mod_exp(pk.g, m, n_sq);
    let b: u128 = mod_exp(r, n, n_sq);
    proof {
        lemma_mul_mod_noop_general(
            pow(pk.g as int, m as nat),
            pow(r as int, n as nat),
            n_sq as int,
        );
    }
    Ok(mul_mod(a, b, n_sq))
}

/// Decrypts `c` under `sk`. A ciphertext at or above `n^2`, or one whose
/// power `c^lambda mod n^2` is not one more than a multiple of `n`, is out of
/// range.
pub fn decrypt(c: u128, sk: &PrivateKey) -> (m: Result<u128, PsiError>)
    ensures
        match m {
            Ok(m) => !decrypt_failure(c as nat, sk.n as nat, sk.lambda as nat) && m == decryption(
                c as nat,
                sk.n as nat,
                sk.lambda as nat,
                sk.mu as nat,
            ) && m < sk.n,
            Err(e) => e == PsiError::Range && decrypt_failure(
                c as nat,
                sk.n as nat,
                sk.lambda as nat,
            ),
        },
{
    let n: u128 = sk.n;
    let n_sq: u128 = match n.checked_mul(n) {
        Some(s) => s,
        None => {
            return Err(PsiError::Range);
        },
    };
    if c >= n_sq {
        return Err(PsiError::Range);
    }
    proof {
        assert(n > 0) by (nonlinear_arith)
            requires
                n_sq > 0,
                n_sq == n * n,
        ;
    }
    let u: u128 = mod_exp(c, sk.lambda, n_sq);
    if u == 0 || (u - 1) % n != 0 {
        return Err(PsiError::Range);
    }
    let l: u128 = l_function(u, n);
    Ok(mul_mod(l, sk.mu, n))
}

} // verus!
