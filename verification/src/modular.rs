//! Arithmetic modulo a number, free of overflow at every width.

use crate::error::PsiError;
use crate::number_theory::gcd::{
    bezout, coprime, gcd, inverse_of, lemma_bezout, lemma_bezout_bounds, lemma_combination_mod,
    lemma_coprime_divides_product, lemma_gcd_divides, lemma_gcd_mod, lemma_inverse_of,
    lemma_inverse_unique, lemma_product_mod,
};
use vstd::arithmetic::div_mod::{
    lemma_add_mod_noop, lemma_fundamental_div_mod, lemma_fundamental_div_mod_converse,
    lemma_mod_bound, lemma_mul_mod_noop_general, lemma_small_mod, lemma_sub_mod_noop,
};
use vstd::arithmetic::power::{
    lemma_pow0, lemma_pow_mod_noop, lemma_pow_multiplies, lemma_square_is_pow2, pow,
};
use vstd::prelude::*;

verus! {

/// The least common multiple of two natural numbers; `lcm_of(0, 0)` is 0.
pub open spec fn lcm_of(a: nat, b: nat) -> nat {
    if a == 0 && b == 0 {
        0
    } else {
        a * (b / gcd(a, b))
    }
}

/// The least common multiple of two positive numbers is a multiple of each.
pub proof fn lemma_lcm_multiple(a: nat, b: nat)
    requires
        a > 0,
        b > 0,
    ensures
        lcm_of(a, b) % a == 0,
        lcm_of(a, b) % b == 0,
{
    lemma_gcd_divides(a, b);
    let g = gcd(a, b);
    let k = b / g;
    let j = a / g;
    lemma_fundamental_div_mod(b as int, g as int);
    lemma_fundamental_div_mod(a as int, g as int);
    lemma_product_mod(a as int, k as int);
    assert(a * k == b * j) by (nonlinear_arith)
        requires
            a == g * j,
            b == g * k,
    ;
    lemma_product_mod(b as int, j as int);
}

/// The least common multiple of two positive numbers is positive, and at
/// most their product.
pub proof fn lemma_lcm_bound(a: nat, b: nat)
    requires
        a > 0,
        b > 0,
    ensures
        0 < lcm_of(a, b) <= a * b,
{
    lemma_gcd_divides(a, b);
    let g = gcd(a, b);
    let k = b / g;
    lemma_fundamental_div_mod(b as int, g as int);
    assert(0 < k <= b) by (nonlinear_arith)
        requires
            b == g * k,
            g > 0,
            b > 0,
    ;
    assert(0 < a * k <= a * b) by (nonlinear_arith)
        requires
            0 < k <= b,
            a > 0,
    ;
}

/// The least common multiple divides every common multiple.
pub proof fn lemma_lcm_least(a: nat, b: nat, m: nat)
    requires
        a > 0,
        b > 0,
        m % a == 0,
        m % b == 0,
    ensures
        lcm_of(a, b) > 0,
        m % lcm_of(a, b) == 0,
{
    lemma_lcm_bound(a, b);
    lemma_gcd_divides(a, b);
    let g = gcd(a, b);
    let a1 = a / g;
    let b1 = b / g;
    lemma_fundamental_div_mod(a as int, g as int);
    lemma_fundamental_div_mod(b as int, g as int);
    assert(a == g * a1);
    assert(b == g * b1);
    assert(a1 > 0 && b1 > 0) by (nonlinear_arith)
        requires
            a == g * a1,
            b == g * b1,
            a > 0,
            b > 0,
            g > 0,
    ;
    // The two quotients are coprime.
    lemma_bezout(a, b);
    let (x, y) = bezout(a, b);
    assert(a1 * x + b1 * y == 1) by (nonlinear_arith)
        requires
            a * x + b * y == g,
            a == g * a1,
            b == g * b1,
            g > 0,
    ;
    lemma_gcd_divides(b1, a1);
    let d = gcd(b1, a1);
    lemma_combination_mod(d as int, a1 as int, x, b1 as int, y);
    if d > 1 {
        lemma_small_mod(1, d);
    }
    assert(coprime(b1, a1));
    // m = a * s = b * t, hence a1 * s = b1 * t, and a1 divides t.
    let s = m / a;
    let t = m / b;
    lemma_fundamental_div_mod(m as int, a as int);
    lemma_fundamental_div_mod(m as int, b as int);
    assert(b1 * t == a1 * s) by (nonlinear_arith)
        requires
            m == a * s,
            m == b * t,
            a == g * a1,
            b == g * b1,
            g > 0,
    ;
    lemma_product_mod(a1 as int, s as int);
    lemma_coprime_divides_product(b1, t, a1);
    let u = t / a1;
    lemma_fundamental_div_mod(t as int, a1 as int);
    assert(m == (a * b1) * u) by (nonlinear_arith)
        requires
            m == b * t,
            t == a1 * u,
            a == g * a1,
            b == g * b1,
    ;
    lemma_product_mod((a * b1) as int, u as int);
}

/// `(a + b) mod m`, for operands of any size.
pub fn add_mod(a: u128, b: u128, m: u128) -> (r: u128)
    requires
        m > 0,
    ensures
        r == (a + b) % (m as int),
        r < m,
{
    let x: u128 = a % m;
    let y: u128 = b % m;
    proof {
        lemma_add_mod_noop(a as int, b as int, m as int);
    }
    if x >= m - y {
        let r: u128 = x - (m - y);
        proof {
            lemma_fundamental_div_mod_converse(x + y, m as int, 1, r as int);
        }
        r
    } else {
        proof {
            lemma_small_mod((x + y) as nat, m as nat);
        }
        x + y
    }
}

/// `(a - b) mod m`, the representative in `[0, m)`, for operands of any size.
pub fn sub_mod(a: u128, b: u128, m: u128) -> (r: u128)
    requires
        m > 0,
    ensures
        r == (a - b) % (m as int),
        r < m,
{
    let x: u128 = a % m;
    let y: u128 = b % m;
    proof {
        lemma_sub_mod_noop(a as int, b as int, m as int);
    }
    if x >= y {
        proof {
            lemma_small_mod((x - y) as nat, m as nat);
        }
        x - y
    } else {
        let r: u128 = m - (y - x);
        proof {
            lemma_fundamental_div_mod_converse(x - y, m as int, -1, r as int);
        }
        r
    }
}

/// One round of double-and-add keeps `acc + x * k` unchanged modulo `m`.
pub proof fn lemma_double_and_add_step(acc: int, x: int, k: int, m: int)
    requires
        m > 0,
        k > 0,
    ensures
        ({
            let acc2 = if k % 2 == 1 { (acc + x) % m } else { acc };
            let x2 = (x + x) % m;
            (acc2 + x2 * (k / 2)) % m == (acc + x * k) % m
        }),
{
    let h = k / 2;
    let acc1 = if k % 2 == 1 { acc + x } else { acc };
    let acc2 = if k % 2 == 1 { (acc + x) % m } else { acc };
    let x2 = (x + x) % m;
    assert(acc1 + (x + x) * h == acc + x * k) by (nonlinear_arith)
        requires
            h == k / 2,
            acc1 == if k % 2 == 1 { acc + x } else { acc },
    ;
    lemma_mul_mod_noop_general(x + x, h, m);
    lemma_add_mod_noop(acc1, (x + x) * h, m);
    lemma_add_mod_noop(acc2, x2 * h, m);
    vstd::arithmetic::div_mod::lemma_mod_twice(acc1, m);
}

/// `(a * b) mod m` without overflow, whatever the size of the operands.
pub fn mul_mod(a: u128, b: u128, m: u128) -> (r: u128)
    requires
        m > 0,
    ensures
        r == (a * b) % (m as int),
        r < m,
{
    match a.checked_mul(b) {
        Some(p) => {
            return p % m;
        },
        None => {},
    }
    let mut acc: u128 = 0;
    let mut x: u128 = a % m;
    let mut k: u128 = b;
    proof {
        lemma_mul_mod_noop_general(a as int, b as int, m as int);
    }
    while k > 0
        invariant
            m > 0,
            (acc + x * k) % (m as int) == (a * b) % (m as int),
            acc < m,
        decreases k,
    {
        proof {
            lemma_double_and_add_step(acc as int, x as int, k as int, m as int);
            lemma_mod_bound(acc + x, m as int);
            lemma_mod_bound(x + x, m as int);
        }
        if k % 2 == 1 {
            acc = add_mod(acc, x, m);
        }
        x = add_mod(x, x, m);
        k = k / 2;
    }
    proof {
        assert(x * k == 0) by (nonlinear_arith)
            requires
                k == 0,
        ;
        lemma_small_mod(acc as nat, m as nat);
    }
    acc
}

/// One round of square-and-multiply keeps `res * b^e` unchanged modulo `m`.
proof fn lemma_square_and_multiply_step(res: int, b: int, e: nat, m: int)
    requires
        m > 0,
        e > 0,
    ensures
        ({
            let res2 = if e % 2 == 1 { (res * b) % m } else { res };
            let b2 = (b * b) % m;
            (res2 * pow(b2, e / 2)) % m == (res * pow(b, e)) % m
        }),
{
    let h = e / 2;
    let b2 = (b * b) % m;
    let res1 = if e % 2 == 1 { res * b } else { res };
    let res2 = if e % 2 == 1 { (res * b) % m } else { res };
    lemma_pow_mod_noop(b * b, h, m);
    lemma_square_is_pow2(b);
    lemma_pow_multiplies(b, 2, h);
    assert(pow(b * b, h) == pow(b, 2 * h));
    assert(res1 * pow(b, 2 * h) == res * pow(b, e)) by {
        if e % 2 == 1 {
            reveal(pow);
            assert(pow(b, e) == b * pow(b, (e - 1) as nat));
            assert((res * b) * pow(b, 2 * h) == res * (b * pow(b, 2 * h))) by (nonlinear_arith);
        }
    }
    lemma_mul_mod_noop_general(res1, pow(b * b, h), m);
    lemma_mul_mod_noop_general(res2, pow(b2, h), m);
    vstd::arithmetic::div_mod::lemma_mod_twice(res1, m);
}

/// `base` to the power `exp`, modulo `modulus`, by square-and-multiply.
/// With modulus 1 the result is 0.
pub fn mod_exp(base: u128, exp: u128, modulus: u128) -> (r: u128)
    requires
        modulus > 0,
    ensures
        r == pow(base as int, exp as nat) % (modulus as int),
        r < modulus,
{
    let mut result: u128 = 1 % modulus;
    let mut b: u128 = base % modulus;
    let mut e: u128 = exp;
    proof {
        let m = modulus as int;
        lemma_pow_mod_noop(base as int, exp as nat, m);
        lemma_mul_mod_noop_general(1, pow(b as int, e as nat), m);
        assert(1 * pow(b as int, e as nat) == pow(b as int, e as nat));
    }
    while e > 0
        invariant
            modulus > 0,
            result < modulus,
            (result * pow(b as int, e as nat)) % (modulus as int) == pow(base as int, exp as nat) % (
            modulus as int),
        decreases e,
    {
        proof {
            lemma_square_and_multiply_step(result as int, b as int, e as nat, modulus as int);
            lemma_mod_bound(result * b, modulus as int);
        }
        if e % 2 == 1 {
            result = mul_mod(result, b, modulus);
        }
        b = mul_mod(b, b, modulus);
        e = e / 2;
    }
    proof {
        lemma_pow0(b as int);
        assert(result * 1 == result);
        lemma_small_mod(result as nat, modulus as nat);
    }
    result
}

/// The Paillier `L` function, `(x - 1) / n`.
pub fn l_function(x: u128, n: u128) -> (r: u128)
    requires
        x >= 1,
        n >= 1,
    ensures
        r == (x - 1) / (n as int),
{
    (x - 1) / n
}

/// One round of Euclid's algorithm on remainders `r0`, `r1` that are `t0 * a`
/// and `t1 * a` modulo `m` gives a remainder that is `t2 * a` modulo `m`.
proof fn lemma_inverse_step(a: int, m: int, r0: int, r1: int, t0: int, t1: int)
    requires
        m > 0,
        r1 > 0,
        (t0 * a) % m == r0 % m,
        (t1 * a) % m == r1 % m,
    ensures
        ({
            let q = r0 / r1;
            let t2 = (t0 - (q * t1) % m) % m;
            (t2 * a) % m == (r0 % r1) % m
        }),
{
    let q = r0 / r1;
    let t2 = (t0 - (q * t1) % m) % m;
    lemma_fundamental_div_mod(r0, r1);
    assert(r0 % r1 == r0 - q * r1) by (nonlinear_arith)
        requires
            r0 == r1 * q + r0 % r1,
    ;
    // t2 is t0 - q * t1 modulo m
    lemma_sub_mod_noop(t0, (q * t1) % m, m);
    lemma_sub_mod_noop(t0, q * t1, m);
    vstd::arithmetic::div_mod::lemma_mod_twice(q * t1, m);
    assert(t2 == (t0 - q * t1) % m);
    lemma_mul_mod_noop_general(t0 - q * t1, a, m);
    assert((t0 - q * t1) * a == t0 * a - q * (t1 * a)) by (nonlinear_arith);
    lemma_sub_mod_noop(t0 * a, q * (t1 * a), m);
    lemma_mul_mod_noop_general(q, t1 * a, m);
    lemma_mul_mod_noop_general(q, r1, m);
    lemma_sub_mod_noop(r0, q * r1, m);
}

/// The inverse of `a` modulo `m`: the one number below `m` whose product with
/// `a` is 1 modulo `m`. There is none when `m` is 0 or shares a divisor with `a`.
pub fn mod_inv(a: u128, m: u128) -> (r: Result<u128, PsiError>)
    ensures
        match r {
            Ok(x) => m > 0 && coprime(a as nat, m as nat) && x == inverse_of(a as nat, m as nat)
                && x < m && (a * x) % (m as int) == 1int % (m as int),
            Err(e) => e == PsiError::NoInverse && (m == 0 || !coprime(a as nat, m as nat)),
        },
{
    if m == 0 {
        return Err(PsiError::NoInverse);
    }
    let mut r0: u128 = m;
    let mut r1: u128 = a % m;
    let mut t0: u128 = 0;
    let mut t1: u128 = 1 % m;
    proof {
        lemma_gcd_mod(a as nat, m as nat);
        lemma_mul_mod_noop_general(1, a as int, m as int);
        assert(1 * a == a);
        vstd::arithmetic::div_mod::lemma_mod_twice(a as int, m as int);
        vstd::arithmetic::div_mod::lemma_mod_self_0(m as int);
        assert(0 * a == 0);
        lemma_small_mod(0, m as nat);
    }
    while r1 != 0
        invariant
            m > 0,
            t0 < m,
            t1 < m,
            gcd(r1 as nat, r0 as nat) == gcd(a as nat, m as nat),
            (t0 * a) % (m as int) == r0 % m,
            (t1 * a) % (m as int) == r1 % m,
        decreases r1,
    {
        let q: u128 = r0 / r1;
        let r2: u128 = r0 % r1;
        let t2: u128 = sub_mod(t0, mul_mod(q, t1, m), m);
        proof {
            lemma_inverse_step(a as int, m as int, r0 as int, r1 as int, t0 as int, t1 as int);
        }
        r0 = r1;
        r1 = r2;
        t0 = t1;
        t1 = t2;
    }
    if r0 == 1 {
        proof {
            assert(a * t0 == t0 * a) by (nonlinear_arith);
            lemma_inverse_of(a as nat, m as nat);
            lemma_inverse_unique(a as nat, m as nat, t0 as nat, inverse_of(a as nat, m as nat));
        }
        Ok(t0)
    } else {
        Err(PsiError::NoInverse)
    }
}

/// The magnitude of an integer.
pub open spec fn magnitude(a: int) -> nat {
    if a < 0 {
        (-a) as nat
    } else {
        a as nat
    }
}

/// Bezout coefficients for two integers of either sign: those of their
/// magnitudes, each with the sign of its number.
pub open spec fn signed_bezout(a: int, b: int) -> (int, int) {
    let (x, y) = bezout(magnitude(a), magnitude(b));
    (
        if a < 0 {
            -x
        } else {
            x
        },
        if b < 0 {
            -y
        } else {
            y
        },
    )
}

/// Euclid's recursion on two non-negative numbers.
fn bezout_nonneg(a: i128, b: i128) -> (r: (i128, i128, i128))
    requires
        a >= 0,
        b >= 0,
    ensures
        r.0 == gcd(a as nat, b as nat),
        (r.1 as int, r.2 as int) == bezout(a as nat, b as nat),
    decreases a,
{
    if a == 0 {
        return (b, 0, 1);
    }
    let rem: i128 = b % a;
    let q: i128 = b / a;
    let (g, x1, y1) = bezout_nonneg(rem, a);
    proof {
        lemma_bezout_bounds(a as nat, b as nat);
    }
    let step: i128 = q * x1;
    let x: i128 = y1 - step;
    (g, x, x1)
}

/// The greatest common divisor `g` of `a` and `b`, never negative, with
/// coefficients `x` and `y` such that `a * x + b * y == g`.
pub fn extended_gcd(a: i128, b: i128) -> (r: (i128, i128, i128))
    requires
        a > i128::MIN,
        b > i128::MIN,
    ensures
        r.0 == gcd(magnitude(a as int), magnitude(b as int)),
        (r.1 as int, r.2 as int) == signed_bezout(a as int, b as int),
        a * r.1 + b * r.2 == r.0,
{
    let ua: i128 = if a < 0 { -a } else { a };
    let ub: i128 = if b < 0 { -b } else { b };
    let (g, x, y) = bezout_nonneg(ua, ub);
    proof {
        lemma_bezout_bounds(ua as nat, ub as nat);
        lemma_bezout(ua as nat, ub as nat);
    }
    let sx: i128 = if a < 0 { -x } else { x };
    let sy: i128 = if b < 0 { -y } else { y };
    proof {
        assert(a * sx == ua * x) by (nonlinear_arith)
            requires
                (a < 0 && ua == -a && sx == -x) || (a >= 0 && ua == a && sx == x),
        ;
        assert(b * sy == ub * y) by (nonlinear_arith)
            requires
                (b < 0 && ub == -b && sy == -y) || (b >= 0 && ub == b && sy == y),
        ;
    }
    (g, sx, sy)
}

/// The least common multiple, as `num_integer::lcm` computes it for `u128`:
/// 0 for two zeros, else `a * (b / gcd(a, b))`. The product must fit in
/// `u128`, since the outside function multiplies without a check.
#[verifier::external_body]
pub(crate) fn lcm(a: u128, b: u128) -> (r: u128)
    requires
        lcm_of(a as nat, b as nat) <= u128::MAX,
    ensures
        r == lcm_of(a as nat, b as nat),
{
    num_integer::lcm(a, b)
}

} // verus!
