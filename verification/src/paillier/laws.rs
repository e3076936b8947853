//! Why decryption works, and what ciphertexts do under multiplication.

use crate::modular::{lcm_of, lemma_lcm_bound, lemma_lcm_multiple};
use crate::number_theory::gcd::{coprime, inverse_of, lemma_inverse_of};
use crate::number_theory::prime::is_prime;
use crate::number_theory::residue::{
    lemma_linear_residue, lemma_pow_near_one, lemma_unit_lift, lemma_unit_order,
};
use crate::paillier::{
    decodable, decrypt_failure, decryption, encryption, key_pair, PrivateKey, PublicKey,
};
use vstd::arithmetic::div_mod::{
    lemma_mod_add_multiples_vanish, lemma_mod_bound, lemma_mod_multiples_vanish, lemma_mod_twice,
    lemma_mul_mod_noop_general, lemma_small_mod,
};
use vstd::arithmetic::power::{
    lemma1_pow, lemma_pow_adds, lemma_pow_distributes, lemma_pow_mod_noop, lemma_pow_multiplies,
    pow,
};
use vstd::prelude::*;

verus! {

/// Whether `mask` to the power `lambda` is 1 modulo `n^2`: such a factor
/// vanishes in decryption.
pub open spec fn is_mask(mask: int, n: nat, lambda: nat) -> bool {
    pow(mask, lambda) % ((n * n) as int) == 1
}

/// Whether `c` is `(n + 1)^m * mask` modulo `n^2`.
pub open spec fn carries(c: nat, m: nat, mask: int, n: nat) -> bool {
    (c as int) % ((n * n) as int) == (pow((n + 1) as int, m) * mask) % ((n * n) as int)
}

/// The square of a modulus above one is above one.
proof fn lemma_square_above_one(n: nat)
    requires
        n > 1,
    ensures
        n * n > 1,
{
    assert(n * n > 1) by (nonlinear_arith)
        requires
            n > 1,
    ;
}

/// A ciphertext that carries `m` under a mask decrypts to `m mod n`.
pub proof fn lemma_carried_decrypts(c: nat, m: nat, mask: int, n: nat, lambda: nat, mu: nat)
    requires
        n > 1,
        ((mu * (lambda % n)) as int) % (n as int) == 1,
        carries(c, m, mask, n),
        is_mask(mask, n, lambda),
    ensures
        decodable(c, n, lambda),
        decryption(c, n, lambda, mu) == m % n,
{
    let ni = n as int;
    let sq = ni * ni;
    let g = ni + 1;
    let ml = m * lambda;
    lemma_square_above_one(n);
    lemma_pow_near_one(ni, 1, ml);
    assert(1 + 1 * ni == g);
    assert(1 + ml * 1 * ni == 1 + (ml as int) * ni) by (nonlinear_arith);
    lemma_linear_residue(ni, ml as int);
    let body = pow(g, m) * mask;
    lemma_pow_mod_noop(c as int, lambda, sq);
    lemma_pow_mod_noop(body, lambda, sq);
    lemma_pow_distributes(pow(g, m), mask, lambda);
    lemma_pow_multiplies(g, m, lambda);
    lemma_mul_mod_noop_general(pow(g, ml), pow(mask, lambda), sq);
    assert(pow(g, ml) * 1 == pow(g, ml));
    let u = pow(c as int, lambda) % sq;
    assert(u == pow(g, ml) % sq);
    assert(u == 1 + ((ml as int) % ni) * ni);
    let l = (ml as int) % ni;
    assert((u - 1) / ni == l);
    lemma_mul_mod_noop_general(ml as int, mu as int, ni);
    lemma_mul_mod_noop_general(lambda as int, mu as int, ni);
    lemma_mul_mod_noop_general(m as int, (lambda * mu) as int, ni);
    assert((ml * mu) == m * (lambda * mu)) by (nonlinear_arith)
        requires
            ml == m * lambda,
    ;
    assert(mu * (lambda % n) == (lambda % n) * mu) by (nonlinear_arith);
    assert(m * 1 == m);
}

/// The ciphertext of `m` carries `m`, under the mask `r^n`.
pub proof fn lemma_encryption_carries(m: nat, r: nat, n: nat)
    requires
        n > 1,
    ensures
        carries(encryption(m, r, n, n + 1), m, pow(r as int, n), n),
        encryption(m, r, n, n + 1) < n * n,
{
    lemma_square_above_one(n);
    let sq = (n * n) as int;
    let body = pow((n + 1) as int, m) * pow(r as int, n);
    lemma_mod_bound(body, sq);
    lemma_mod_twice(body, sq);
}

/// For the modulus `p * q` of two distinct primes and an exponent that
/// `p - 1` and `q - 1` divide, `r^n` is a mask whenever `r` is coprime to `n`.
pub proof fn lemma_randomness_masks(p: nat, q: nat, r: nat, lambda: nat)
    requires
        is_prime(p),
        is_prime(q),
        p != q,
        coprime(r, p * q),
        lambda % ((p - 1) as nat) == 0,
        lambda % ((q - 1) as nat) == 0,
    ensures
        is_mask(pow(r as int, p * q), p * q, lambda),
{
    let n = p * q;
    lemma_unit_order(r, p, q, lambda);
    lemma_unit_lift(pow(r as int, lambda), n);
    lemma_pow_multiplies(r as int, lambda, n);
    lemma_pow_multiplies(r as int, n, lambda);
    assert(lambda * n == n * lambda) by (nonlinear_arith);
}

/// The product of two masks is a mask.
pub proof fn lemma_mask_product(a: int, b: int, n: nat, lambda: nat)
    requires
        n > 1,
        is_mask(a, n, lambda),
        is_mask(b, n, lambda),
    ensures
        is_mask(a * b, n, lambda),
{
    lemma_square_above_one(n);
    let sq = (n * n) as int;
    lemma_pow_distributes(a, b, lambda);
    lemma_mul_mod_noop_general(pow(a, lambda), pow(b, lambda), sq);
    lemma_small_mod(1, sq as nat);
}

/// Every power of a mask is a mask.
pub proof fn lemma_mask_power(a: int, k: nat, n: nat, lambda: nat)
    requires
        n > 1,
        is_mask(a, n, lambda),
    ensures
        is_mask(pow(a, k), n, lambda),
{
    lemma_square_above_one(n);
    let sq = (n * n) as int;
    lemma_pow_multiplies(a, k, lambda);
    lemma_pow_multiplies(a, lambda, k);
    assert(k * lambda == lambda * k) by (nonlinear_arith);
    lemma_pow_mod_noop(pow(a, lambda), k, sq);
    lemma1_pow(k);
    lemma_small_mod(1, sq as nat);
}

/// The product of two ciphertexts carries the sum of what they carry, under
/// the product of their masks.
pub proof fn lemma_carries_product(
    c1: nat,
    m1: nat,
    mask1: int,
    c2: nat,
    m2: nat,
    mask2: int,
    n: nat,
)
    requires
        n > 1,
        carries(c1, m1, mask1, n),
        carries(c2, m2, mask2, n),
    ensures
        (c1 * c2) % (n * n) < n * n,
        carries((c1 * c2) % (n * n), m1 + m2, mask1 * mask2, n),
{
    lemma_square_above_one(n);
    let sq = (n * n) as int;
    let g = (n + 1) as int;
    let b1 = pow(g, m1) * mask1;
    let b2 = pow(g, m2) * mask2;
    lemma_mul_mod_noop_general(c1 as int, c2 as int, sq);
    lemma_mul_mod_noop_general(b1, b2, sq);
    lemma_pow_adds(g, m1, m2);
    assert(b1 * b2 == pow(g, m1 + m2) * (mask1 * mask2)) by (nonlinear_arith)
        requires
            b1 == pow(g, m1) * mask1,
            b2 == pow(g, m2) * mask2,
            pow(g, m1 + m2) == pow(g, m1) * pow(g, m2),
    ;
    lemma_mod_bound((c1 * c2) as int, sq);
    lemma_mod_twice((c1 * c2) as int, sq);
}

/// The `k`-th power of a ciphertext carries `k` times what it carries, under
/// the `k`-th power of its mask.
pub proof fn lemma_carries_power(c: nat, m: nat, mask: int, k: nat, n: nat)
    requires
        n > 1,
        carries(c, m, mask, n),
    ensures
        0 <= pow(c as int, k) % ((n * n) as int) < n * n,
        carries((pow(c as int, k) % ((n * n) as int)) as nat, m * k, pow(mask, k), n),
{
    lemma_square_above_one(n);
    let sq = (n * n) as int;
    let g = (n + 1) as int;
    let body = pow(g, m) * mask;
    lemma_pow_mod_noop(c as int, k, sq);
    lemma_pow_mod_noop(body, k, sq);
    lemma_pow_distributes(pow(g, m), mask, k);
    lemma_pow_multiplies(g, m, k);
    lemma_mod_bound(pow(c as int, k), sq);
    lemma_mod_twice(pow(c as int, k), sq);
}

/// What a key pair gives to the proofs below: a modulus above one whose
/// square fits in 128 bits, an exponent that `p - 1` and `q - 1` divide, and
/// a factor `mu` below `n` whose product with `lambda` is 1 modulo `n`.
pub proof fn lemma_key_pair_facts(p: nat, q: nat, pk: PublicKey, sk: PrivateKey)
    requires
        key_pair(p, q, pk, sk),
    ensures
        pk.n == p * q,
        pk.g == pk.n + 1,
        sk.n == pk.n,
        sk.lambda == lcm_of((p - 1) as nat, (q - 1) as nat),
        pk.n > 1,
        p != q,
        pk.n * pk.n <= u128::MAX,
        (sk.lambda as nat) % ((p - 1) as nat) == 0,
        (sk.lambda as nat) % ((q - 1) as nat) == 0,
        sk.mu < sk.n,
        ((sk.mu as nat * (sk.lambda as nat % sk.n as nat)) as int) % (sk.n as int) == 1,
{
    let n = p * q;
    let lambda = lcm_of((p - 1) as nat, (q - 1) as nat);
    lemma_lcm_multiple((p - 1) as nat, (q - 1) as nat);
    lemma_lcm_bound((p - 1) as nat, (q - 1) as nat);
    assert(n * n > n + 1 && n > 1 && ((p - 1) as nat) * ((q - 1) as nat) <= n)
        by (nonlinear_arith)
        requires
            p > 1,
            q > 1,
            n == p * q,
    ;
    lemma_inverse_of(lambda % n, n);
    lemma_small_mod(1, n);
    assert(inverse_of(lambda % n, n) * (lambda % n) == (lambda % n) * inverse_of(lambda % n, n))
        by (nonlinear_arith);
}

/// Decryption undoes encryption: under the key pair of two primes, the
/// ciphertext of a message below `n`, made with randomness coprime to `n`,
/// decrypts to that message.
pub proof fn lemma_decrypt_encrypt(p: nat, q: nat, pk: PublicKey, sk: PrivateKey, m: nat, r: nat)
    requires
        is_prime(p),
        is_prime(q),
        key_pair(p, q, pk, sk),
        m < pk.n,
        coprime(r, pk.n as nat),
    ensures
        !decrypt_failure(
            encryption(m, r, pk.n as nat, pk.g as nat),
            sk.n as nat,
            sk.lambda as nat,
        ),
        decryption(
            encryption(m, r, pk.n as nat, pk.g as nat),
            sk.n as nat,
            sk.lambda as nat,
            sk.mu as nat,
        ) == m,
{
    let n = pk.n as nat;
    let lambda = sk.lambda as nat;
    lemma_key_pair_facts(p, q, pk, sk);
    lemma_encryption_carries(m, r, n);
    lemma_randomness_masks(p, q, r, lambda);
    lemma_carried_decrypts(
        encryption(m, r, n, n + 1),
        m,
        pow(r as int, n),
        n,
        lambda,
        sk.mu as nat,
    );
    lemma_small_mod(m, n);
}

/// Ciphertexts add: the product modulo `n^2` of the ciphertexts of `a` and
/// `b` decrypts to `(a + b) mod n`.
pub proof fn lemma_product_decrypts_to_sum(
    p: nat,
    q: nat,
    pk: PublicKey,
    sk: PrivateKey,
    a: nat,
    ra: nat,
    b: nat,
    rb: nat,
)
    requires
        is_prime(p),
        is_prime(q),
        key_pair(p, q, pk, sk),
        a < pk.n,
        b < pk.n,
        coprime(ra, pk.n as nat),
        coprime(rb, pk.n as nat),
    ensures
        ({
            let n = pk.n as nat;
            let ca = encryption(a, ra, n, pk.g as nat);
            let cb = encryption(b, rb, n, pk.g as nat);
            let c = (ca * cb) % (n * n);
            &&& !decrypt_failure(c, n, sk.lambda as nat)
            &&& decryption(c, n, sk.lambda as nat, sk.mu as nat) == (a + b) % n
        }),
{
    let n = pk.n as nat;
    let lambda = sk.lambda as nat;
    let ca = encryption(a, ra, n, n + 1);
    let cb = encryption(b, rb, n, n + 1);
    lemma_key_pair_facts(p, q, pk, sk);
    lemma_encryption_carries(a, ra, n);
    lemma_encryption_carries(b, rb, n);
    lemma_randomness_masks(p, q, ra, lambda);
    lemma_randomness_masks(p, q, rb, lambda);
    let ma = pow(ra as int, n);
    let mb = pow(rb as int, n);
    lemma_carries_product(ca, a, ma, cb, b, mb, n);
    lemma_mask_product(ma, mb, n, lambda);
    lemma_carried_decrypts((ca * cb) % (n * n), a + b, ma * mb, n, lambda, sk.mu as nat);
}

/// Ciphertexts scale: the `k`-th power modulo `n^2` of the ciphertext of `a`
/// decrypts to `(k * a) mod n`.
pub proof fn lemma_power_decrypts_to_multiple(
    p: nat,
    q: nat,
    pk: PublicKey,
    sk: PrivateKey,
    a: nat,
    r: nat,
    k: nat,
)
    requires
        is_prime(p),
        is_prime(q),
        key_pair(p, q, pk, sk),
        a < pk.n,
        coprime(r, pk.n as nat),
    ensures
        ({
            let n = pk.n as nat;
            let c = (pow(encryption(a, r, n, pk.g as nat) as int, k) % ((n * n) as int)) as nat;
            &&& !decrypt_failure(c, n, sk.lambda as nat)
            &&& decryption(c, n, sk.lambda as nat, sk.mu as nat) == (k * a) % n
        }),
{
    let n = pk.n as nat;
    let lambda = sk.lambda as nat;
    let ca = encryption(a, r, n, n + 1);
    lemma_key_pair_facts(p, q, pk, sk);
    lemma_encryption_carries(a, r, n);
    lemma_randomness_masks(p, q, r, lambda);
    let ma = pow(r as int, n);
    lemma_carries_power(ca, a, ma, k, n);
    lemma_mask_power(ma, k, n, lambda);
    let c = (pow(ca as int, k) % ((n * n) as int)) as nat;
    lemma_carried_decrypts(c, a * k, pow(ma, k), n, lambda, sk.mu as nat);
    assert(a * k == k * a) by (nonlinear_arith);
}

/// Ciphertexts negate: the power `n - 1` modulo `n^2` of the ciphertext of
/// `a` decrypts to `(n - a) mod n`, which is `n - a` unless `a` is 0.
pub proof fn lemma_inverse_decrypts_to_negation(
    p: nat,
    q: nat,
    pk: PublicKey,
    sk: PrivateKey,
    a: nat,
    r: nat,
)
    requires
        is_prime(p),
        is_prime(q),
        key_pair(p, q, pk, sk),
        a < pk.n,
        coprime(r, pk.n as nat),
    ensures
        ({
            let n = pk.n as nat;
            let c = (pow(encryption(a, r, n, pk.g as nat) as int, (n - 1) as nat) % ((n
                * n) as int)) as nat;
            &&& !decrypt_failure(c, n, sk.lambda as nat)
            &&& decryption(c, n, sk.lambda as nat, sk.mu as nat) == (n - a) % (n as int)
            &&& a != 0 ==> decryption(c, n, sk.lambda as nat, sk.mu as nat) == n - a
        }),
{
    let n = pk.n as nat;
    lemma_key_pair_facts(p, q, pk, sk);
    lemma_power_decrypts_to_multiple(p, q, pk, sk, a, r, (n - 1) as nat);
    lemma_negation_residue(a, n);
}

/// `(n - 1) * a` and `n - a` agree modulo `n`.
pub proof fn lemma_negation_residue(a: nat, n: nat)
    requires
        n > 0,
        a < n,
    ensures
        (((n - 1) as nat) * a) % n == (n - a) % (n as int),
        a != 0 ==> (n - a) % (n as int) == n - a,
{
    let ni = n as int;
    assert(((n - 1) as nat) * a == ni * a + (-(a as int))) by (nonlinear_arith)
        requires
            n > 0,
            ni == n,
    ;
    lemma_mod_multiples_vanish(a as int, -(a as int), ni);
    lemma_mod_add_multiples_vanish(-(a as int), ni);
    if a != 0 {
        lemma_small_mod((n - a) as nat, n);
    }
}

} // verus!
