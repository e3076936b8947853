//! Primes, Euclid's lemma, and residues modulo a product.

use crate::number_theory::gcd::{
    coprime, gcd, lemma_coprime_divides_product, lemma_divisor_bound, lemma_gcd_divides,
    lemma_multiple_of, lemma_product_mod,
};
use vstd::arithmetic::div_mod::lemma_small_mod;
use vstd::prelude::*;

verus! {

/// Whether `p` is a prime number: at least two, with no divisor strictly
/// between one and itself.
pub open spec fn is_prime(p: nat) -> bool {
    p >= 2 && forall|d: nat| 1 < d < p ==> #[trigger] (p % d) != 0
}

/// A prime is coprime to every number that it does not divide.
pub proof fn lemma_prime_coprime(p: nat, a: nat)
    requires
        is_prime(p),
        a % p != 0,
    ensures
        coprime(a, p),
{
    lemma_gcd_divides(a, p);
    let g = gcd(a, p);
    lemma_divisor_bound(p, g);
    if g == p {
        assert(a % p == 0);
    } else if g > 1 {
        assert(p % g != 0);
    }
}

/// Euclid's lemma: a prime that divides a product divides one of the factors.
pub proof fn lemma_prime_divides_product(p: nat, a: nat, b: nat)
    requires
        is_prime(p),
        (a * b) % p == 0,
    ensures
        a % p == 0 || b % p == 0,
{
    if a % p != 0 {
        lemma_prime_coprime(p, a);
        lemma_coprime_divides_product(a, b, p);
    }
}

/// Two distinct primes are coprime.
pub proof fn lemma_distinct_primes_coprime(p: nat, q: nat)
    requires
        is_prime(p),
        is_prime(q),
        p != q,
    ensures
        coprime(p, q),
{
    if p % q == 0 {
        lemma_divisor_bound(p, q);
        assert(false);
    }
    lemma_prime_coprime(q, p);
}

/// A number that two coprime numbers divide is divided by their product.
pub proof fn lemma_coprime_product_divides(p: nat, q: nat, z: nat)
    requires
        p > 0,
        q > 0,
        coprime(p, q),
        z % p == 0,
        z % q == 0,
    ensures
        p * q > 0,
        z % (p * q) == 0,
{
    lemma_multiple_of(z as int, p as int);
    let k = z / p;
    assert(z == p * k);
    lemma_coprime_divides_product(p, k, q);
    lemma_multiple_of(k as int, q as int);
    let l = k / q;
    assert(z == (p * q) * l) by (nonlinear_arith)
        requires
            z == p * k,
            k == q * l,
    ;
    assert(p * q > 0) by (nonlinear_arith)
        requires
            p > 0,
            q > 0,
    ;
    lemma_product_mod((p * q) as int, l as int);
}

/// A number that is 1 modulo each of two coprime numbers above one is 1 modulo
/// their product.
pub proof fn lemma_one_mod_product(p: nat, q: nat, x: nat)
    requires
        p > 1,
        q > 1,
        coprime(p, q),
        x % p == 1,
        x % q == 1,
    ensures
        p * q > 1,
        x % (p * q) == 1,
{
    assert(x >= 1) by {
        if x == 0 {
            lemma_small_mod(0, p);
        }
    }
    let z = (x - 1) as nat;
    vstd::arithmetic::div_mod::lemma_mod_equivalence(x as int, 1, p as int);
    vstd::arithmetic::div_mod::lemma_mod_equivalence(x as int, 1, q as int);
    lemma_small_mod(1, p);
    lemma_small_mod(1, q);
    lemma_coprime_product_divides(p, q, z);
    assert(p * q > 1) by (nonlinear_arith)
        requires
            p > 1,
            q > 1,
    ;
    vstd::arithmetic::div_mod::lemma_mod_equivalence(x as int, 1, (p * q) as int);
    lemma_small_mod(1, p * q);
}

} // verus!
