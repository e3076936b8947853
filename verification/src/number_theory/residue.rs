//! Powers modulo `n` and modulo `n * n`.

use crate::number_theory::fermat::lemma_fermat;
use crate::number_theory::gcd::{coprime, lemma_gcd_greatest, lemma_product_mod};
use crate::number_theory::prime::{
    is_prime, lemma_distinct_primes_coprime, lemma_one_mod_product,
};
use vstd::arithmetic::div_mod::{
    lemma_fundamental_div_mod, lemma_fundamental_div_mod_converse, lemma_mod_bound,
    lemma_mod_multiples_vanish, lemma_mul_mod_noop_general, lemma_small_mod,
};
use vstd::arithmetic::power::{
    lemma1_pow, lemma_pow_mod_noop, lemma_pow_multiplies, lemma_pow_positive, pow,
};
use vstd::prelude::*;

verus! {

/// Modulo `n * n`, a power of `1 + k * n` is `1 + e * k * n`: all further
/// terms of the binomial expansion hold `n * n`.
pub proof fn lemma_pow_near_one(n: int, k: int, e: nat)
    requires
        n > 0,
    ensures
        n * n > 0,
        pow(1 + k * n, e) % (n * n) == (1 + e * k * n) % (n * n),
    decreases e,
{
    reveal(pow);
    let sq = n * n;
    assert(sq > 0) by (nonlinear_arith)
        requires
            n > 0,
            sq == n * n,
    ;
    if e == 0 {
        assert(1 + 0 * k * n == 1) by (nonlinear_arith);
    } else {
        let e1 = (e - 1) as nat;
        lemma_pow_near_one(n, k, e1);
        let b = 1 + k * n;
        let prev = pow(b, e1);
        let lin = 1 + e1 * k * n;
        lemma_mul_mod_noop_general(b, prev, sq);
        lemma_mul_mod_noop_general(b, lin, sq);
        let rest = e1 * k * k;
        assert(b * lin == sq * rest + (1 + e * k * n)) by (nonlinear_arith)
            requires
                b == 1 + k * n,
                lin == 1 + e1 * k * n,
                sq == n * n,
                rest == e1 * k * k,
                e == e1 + 1,
        ;
        lemma_mod_multiples_vanish(rest, 1 + e * k * n, sq);
    }
}

/// A number that is 1 modulo `n`, raised to the power `n`, is 1 modulo `n * n`.
pub proof fn lemma_unit_lift(x: int, n: nat)
    requires
        n > 1,
        x % (n as int) == 1,
    ensures
        n * n > 1,
        pow(x, n) % ((n * n) as int) == 1,
{
    let ni = n as int;
    let k = x / ni;
    lemma_fundamental_div_mod(x, ni);
    assert(x == 1 + k * ni) by (nonlinear_arith)
        requires
            x == ni * k + 1,
    ;
    lemma_pow_near_one(ni, k, n);
    let sq = ni * ni;
    assert(1 + n * k * ni == sq * k + 1) by (nonlinear_arith)
        requires
            sq == ni * ni,
            ni == n,
    ;
    lemma_mod_multiples_vanish(k, 1, sq);
    assert(sq > 1) by (nonlinear_arith)
        requires
            ni > 1,
            sq == ni * ni,
    ;
    lemma_small_mod(1, sq as nat);
}

/// Modulo `n * n`, the number `1 + t * n` is `1 + (t mod n) * n`; so it is
/// 1 modulo `n`, and the quotient by `n` of what it holds above 1 is `t mod n`.
pub proof fn lemma_linear_residue(n: int, t: int)
    requires
        n > 1,
        t >= 0,
    ensures
        n * n > 1,
        (1 + t * n) % (n * n) == 1 + (t % n) * n,
        ((1 + t * n) % (n * n) - 1) % n == 0,
        ((1 + t * n) % (n * n) - 1) / n == t % n,
{
    let sq = n * n;
    let hi = t / n;
    let lo = t % n;
    lemma_fundamental_div_mod(t, n);
    lemma_mod_bound(t, n);
    assert(1 + t * n == hi * sq + (1 + lo * n)) by (nonlinear_arith)
        requires
            t == n * hi + lo,
            sq == n * n,
    ;
    assert(0 <= 1 + lo * n < sq) by (nonlinear_arith)
        requires
            0 <= lo < n,
            n > 1,
            sq == n * n,
    ;
    assert(sq > 1) by (nonlinear_arith)
        requires
            n > 1,
            sq == n * n,
    ;
    lemma_fundamental_div_mod_converse(1 + t * n, sq, hi, 1 + lo * n);
    lemma_fundamental_div_mod_converse(lo * n, n, lo, 0);
}

/// A prime `p` that does not divide `a` leaves 1 of every power of `a` whose
/// exponent is a multiple of `p - 1`.
pub proof fn lemma_fermat_multiple(a: nat, p: nat, e: nat)
    requires
        is_prime(p),
        a % p != 0,
        e % ((p - 1) as nat) == 0,
    ensures
        pow(a as int, e) % (p as int) == 1,
{
    let d = (p - 1) as nat;
    let t = e / d;
    lemma_fundamental_div_mod(e as int, d as int);
    assert(e == d * t);
    lemma_fermat(a, p);
    lemma_pow_multiplies(a as int, d, t);
    lemma_pow_mod_noop(pow(a as int, d), t, p as int);
    lemma1_pow(t);
    lemma_small_mod(1, p);
}

/// For two distinct primes `p` and `q`, a number coprime to `p * q` leaves 1
/// modulo `p * q` when raised to a common multiple of `p - 1` and `q - 1`.
pub proof fn lemma_unit_order(r: nat, p: nat, q: nat, e: nat)
    requires
        is_prime(p),
        is_prime(q),
        p != q,
        coprime(r, p * q),
        e % ((p - 1) as nat) == 0,
        e % ((q - 1) as nat) == 0,
    ensures
        p * q > 1,
        pow(r as int, e) % ((p * q) as int) == 1,
{
    let n = p * q;
    assert(n >= 4) by (nonlinear_arith)
        requires
            p >= 2,
            q >= 2,
            n == p * q,
    ;
    lemma_product_mod(p as int, q as int);
    lemma_product_mod(q as int, p as int);
    assert(p * q == q * p) by (nonlinear_arith);
    if r % p == 0 {
        lemma_gcd_greatest(r, n, p);
        lemma_small_mod(1, p);
        assert(false);
    }
    if r % q == 0 {
        lemma_gcd_greatest(r, n, q);
        lemma_small_mod(1, q);
        assert(false);
    }
    assert(r > 0) by {
        if r == 0 {
            lemma_small_mod(0, p);
        }
    }
    lemma_fermat_multiple(r, p, e);
    lemma_fermat_multiple(r, q, e);
    lemma_pow_positive(r as int, e);
    lemma_distinct_primes_coprime(p, q);
    lemma_one_mod_product(p, q, pow(r as int, e) as nat);
}

} // verus!
