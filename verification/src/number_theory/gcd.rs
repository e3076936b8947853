//! Greatest common divisors, Bezout coefficients and inverses.

use vstd::arithmetic::div_mod::{
    lemma_fundamental_div_mod, lemma_mod_multiples_basic, lemma_mod_multiples_vanish,
    lemma_small_mod,
};
use vstd::prelude::*;

verus! {

/// The greatest common divisor of two natural numbers, by Euclid's recursion.
/// `gcd(0, 0)` is 0.
pub open spec fn gcd(a: nat, b: nat) -> nat
    decreases a,
{
    if a == 0 {
        b
    } else {
        gcd(b % a, a)
    }
}

/// Whether `a` and `b` have no common divisor above one.
pub open spec fn coprime(a: nat, b: nat) -> bool {
    gcd(a, b) == 1
}

/// A pair `(x, y)` of integers with `a * x + b * y == gcd(a, b)`.
pub open spec fn bezout(a: nat, b: nat) -> (int, int)
    decreases a,
{
    if a == 0 {
        (0, 1)
    } else {
        let (x, y) = bezout(b % a, a);
        (y - (b / a) * x, x)
    }
}

/// A number that is 0 modulo `d` is `d` times its quotient by `d`.
pub proof fn lemma_multiple_of(a: int, d: int)
    requires
        d > 0,
        a % d == 0,
    ensures
        a == d * (a / d),
{
    lemma_fundamental_div_mod(a, d);
}

/// Every product with `d` is 0 modulo `d`.
pub proof fn lemma_product_mod(d: int, k: int)
    requires
        d > 0,
    ensures
        (d * k) % d == 0,
        (k * d) % d == 0,
{
    lemma_mod_multiples_basic(k, d);
    assert(d * k == k * d) by (nonlinear_arith);
}

/// A linear combination of two multiples of `d` is a multiple of `d`.
pub proof fn lemma_combination_mod(d: int, a: int, x: int, b: int, y: int)
    requires
        d > 0,
        a % d == 0,
        b % d == 0,
    ensures
        (a * x + b * y) % d == 0,
{
    lemma_multiple_of(a, d);
    lemma_multiple_of(b, d);
    let k = (a / d) * x + (b / d) * y;
    assert(a * x + b * y == d * k) by (nonlinear_arith)
        requires
            a == d * (a / d),
            b == d * (b / d),
            k == (a / d) * x + (b / d) * y,
    ;
    lemma_product_mod(d, k);
}

/// The coefficients of `bezout` combine `a` and `b` to their greatest common divisor.
pub proof fn lemma_bezout(a: nat, b: nat)
    ensures
        a * bezout(a, b).0 + b * bezout(a, b).1 == gcd(a, b),
    decreases a,
{
    if a != 0 {
        let r = b % a;
        let q = b / a;
        lemma_bezout(r, a);
        let (x, y) = bezout(r, a);
        lemma_fundamental_div_mod(b as int, a as int);
        assert(a * (y - q * x) + b * x == r * x + a * y) by (nonlinear_arith)
            requires
                b == a * q + r,
        ;
    }
}

/// The coefficients of `bezout` are no larger than the numbers themselves.
pub proof fn lemma_bezout_bounds(a: nat, b: nat)
    ensures
        -b <= bezout(a, b).0 <= b || -1 <= bezout(a, b).0 <= 1,
        -a <= bezout(a, b).1 <= a || -1 <= bezout(a, b).1 <= 1,
        a != 0 ==> -b <= (b / a) * bezout(b % a, a).0 <= b,
    decreases a,
{
    if a != 0 {
        let r = b % a;
        let q = b / a;
        lemma_bezout_bounds(r, a);
        let (x, y) = bezout(r, a);
        lemma_fundamental_div_mod(b as int, a as int);
        if r == 0 {
            assert(bezout(0, a) == (0int, 1int));
            assert(q * x == 0) by (nonlinear_arith)
                requires
                    x == 0,
            ;
        } else {
            assert(-a <= x <= a);
            assert(-r <= y <= r);
            assert(-(a * q) <= q * x <= a * q) by (nonlinear_arith)
                requires
                    -a <= x <= a,
                    q >= 0,
            ;
        }
    }
}

/// The greatest common divisor is positive unless both numbers are 0.
pub proof fn lemma_gcd_positive(a: nat, b: nat)
    requires
        a > 0 || b > 0,
    ensures
        gcd(a, b) > 0,
    decreases a,
{
    if a != 0 {
        lemma_gcd_positive(b % a, a);
    }
}

/// The greatest common divisor divides both numbers.
pub proof fn lemma_gcd_divides(a: nat, b: nat)
    requires
        a > 0 || b > 0,
    ensures
        gcd(a, b) > 0,
        a % gcd(a, b) == 0,
        b % gcd(a, b) == 0,
    decreases a,
{
    lemma_gcd_positive(a, b);
    let g = gcd(a, b) as int;
    if a == 0 {
        lemma_product_mod(g, 1);
        lemma_small_mod(0, g as nat);
    } else {
        let r = b % a;
        let q = b / a;
        lemma_gcd_divides(r, a);
        lemma_fundamental_div_mod(b as int, a as int);
        lemma_combination_mod(g, a as int, q as int, r as int, 1);
        assert(a * q + r * 1 == b) by (nonlinear_arith)
            requires
                b == a * q + r,
        ;
    }
}

/// Every common divisor of two numbers divides their greatest common divisor.
pub proof fn lemma_gcd_greatest(a: nat, b: nat, d: nat)
    requires
        d > 0,
        a % d == 0,
        b % d == 0,
    ensures
        gcd(a, b) % d == 0,
{
    lemma_bezout(a, b);
    let (x, y) = bezout(a, b);
    lemma_combination_mod(d as int, a as int, x, b as int, y);
}

/// The greatest common divisor does not depend on the order of the two numbers.
pub proof fn lemma_gcd_symmetric(a: nat, b: nat)
    ensures
        gcd(a, b) == gcd(b, a),
{
    if a == 0 && b == 0 {
    } else {
        lemma_gcd_divides(a, b);
        lemma_gcd_divides(b, a);
        lemma_gcd_greatest(a, b, gcd(b, a));
        lemma_gcd_greatest(b, a, gcd(a, b));
        lemma_divisors_both_ways(gcd(a, b), gcd(b, a));
    }
}

/// Two positive numbers that divide each other are equal.
pub proof fn lemma_divisors_both_ways(x: nat, y: nat)
    requires
        x > 0,
        y > 0,
        x % y == 0,
        y % x == 0,
    ensures
        x == y,
{
    lemma_multiple_of(x as int, y as int);
    lemma_multiple_of(y as int, x as int);
    let k = x as int / y as int;
    let l = y as int / x as int;
    assert(x == y) by (nonlinear_arith)
        requires
            x > 0,
            y > 0,
            x == y * k,
            y == x * l,
    ;
}

/// A divisor of a positive number is at most that number.
pub proof fn lemma_divisor_bound(a: nat, d: nat)
    requires
        a > 0,
        d > 0,
        a % d == 0,
    ensures
        d <= a,
{
    if d > a {
        lemma_small_mod(a, d);
    }
}

/// The greatest common divisor is unchanged when the first number is reduced
/// modulo the second.
pub proof fn lemma_gcd_mod(a: nat, b: nat)
    requires
        b > 0,
    ensures
        gcd(a % b, b) == gcd(a, b),
{
    lemma_gcd_symmetric(a, b);
}

/// If `a * x` is 1 modulo `m`, then `a` and `m` are coprime.
pub proof fn lemma_inverse_gives_coprime(a: nat, x: nat, m: nat)
    requires
        m > 1,
        (a * x) % m == 1,
    ensures
        coprime(a, m),
{
    lemma_gcd_divides(a, m);
    let g = gcd(a, m) as int;
    // a * x == m * k + 1, and g divides a and m, so g divides 1.
    lemma_fundamental_div_mod((a * x) as int, m as int);
    let k = (a * x) as int / m as int;
    lemma_combination_mod(g, a as int, x as int, m as int, -k);
    assert(a * x + m * (-k) == 1) by (nonlinear_arith)
        requires
            a * x == m * k + 1,
    ;
    if g > 1 {
        lemma_small_mod(1, g as nat);
    }
}

/// If `a` and `m` are coprime, the first Bezout coefficient, reduced modulo `m`,
/// is an inverse of `a` modulo `m`.
pub proof fn lemma_coprime_gives_inverse(a: nat, m: nat)
    requires
        m > 0,
        coprime(a, m),
    ensures
        (a * (bezout(a, m).0 % (m as int))) % (m as int) == 1int % (m as int),
{
    lemma_bezout(a, m);
    let (x, y) = bezout(a, m);
    let mi = m as int;
    // a * x == 1 - m * y
    assert(a * x == mi * (-y) + 1) by (nonlinear_arith)
        requires
            a * x + m * y == 1,
            mi == m,
    ;
    lemma_mod_multiples_vanish(-y, 1, mi);
    vstd::arithmetic::div_mod::lemma_mul_mod_noop_right(a as int, x, mi);
}

/// The inverse of `a` modulo `m`, where `a` and `m` are coprime: the first
/// Bezout coefficient of `a mod m` and `m`, reduced modulo `m`.
pub open spec fn inverse_of(a: nat, m: nat) -> nat {
    (bezout(a % m, m).0 % (m as int)) as nat
}

/// Where `a` and `m` are coprime, `inverse_of(a, m)` lies below `m`, and its
/// product with `a` is 1 modulo `m`.
pub proof fn lemma_inverse_of(a: nat, m: nat)
    requires
        m > 0,
        coprime(a, m),
    ensures
        inverse_of(a, m) < m,
        (a * inverse_of(a, m)) % m == 1nat % m,
{
    let mi = m as int;
    lemma_gcd_mod(a, m);
    lemma_coprime_gives_inverse(a % m, m);
    vstd::arithmetic::div_mod::lemma_mod_bound(bezout(a % m, m).0, mi);
    vstd::arithmetic::div_mod::lemma_mul_mod_noop_left(a as int, inverse_of(a, m) as int, mi);
}

/// Modulo `m`, a number coprime to `m` has one inverse below `m`.
pub proof fn lemma_inverse_unique(a: nat, m: nat, x: nat, y: nat)
    requires
        m > 0,
        x < m,
        y < m,
        (a * x) % m == 1nat % m,
        (a * y) % m == 1nat % m,
    ensures
        x == y,
{
    if m > 1 {
        lemma_small_mod(1, m);
        lemma_inverse_gives_coprime(a, x, m);
        let (lo, hi) = if x <= y { (x, y) } else { (y, x) };
        let d = (hi - lo) as nat;
        vstd::arithmetic::div_mod::lemma_mod_equivalence((a * hi) as int, (a * lo) as int, m as int);
        assert(a * hi - a * lo == a * d) by (nonlinear_arith)
            requires
                d == hi - lo,
        ;
        lemma_coprime_divides_product(a, d, m);
        if d > 0 {
            lemma_small_mod(d, m);
        }
    }
}

/// Gauss's lemma: a number coprime to `a` that divides `a * b` divides `b`.
pub proof fn lemma_coprime_divides_product(a: nat, b: nat, m: nat)
    requires
        m > 0,
        coprime(a, m),
        (a * b) % m == 0,
    ensures
        b % m == 0,
{
    lemma_bezout(a, m);
    let (x, y) = bezout(a, m);
    let mi = m as int;
    lemma_product_mod(mi, b as int);
    lemma_combination_mod(mi, (a * b) as int, x, (mi * b) as int, y);
    assert((a * b) * x + (mi * b) * y == b) by (nonlinear_arith)
        requires
            a * x + m * y == 1,
            mi == m,
    ;
}

} // verus!
