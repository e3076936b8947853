//! What the circuits compute, as arithmetic modulo a power of two.

use crate::circuit::{
    bit_value, bits_of, lemma_digits_value, lemma_negated_value, lemma_ripple_adds,
    lemma_word_value_bound, masked_test, negated, ripple_carry, ripple_sum, scaled, word_value,
};
use crate::modular::lemma_double_and_add_step;
use vstd::arithmetic::div_mod::{
    lemma_fundamental_div_mod, lemma_fundamental_div_mod_converse, lemma_mod_add_multiples_vanish,
    lemma_mod_bound, lemma_small_mod, lemma_sub_mod_noop,
    lemma_truncate_middle,
};
use vstd::arithmetic::power2::{lemma2_to64, lemma_pow2_pos, lemma_pow2_unfold, pow2};
use vstd::prelude::*;

verus! {

/// Ripple-carry addition is binary addition with wraparound: the sum word
/// writes the sum of the two words and the carry-in modulo `2^w`, and the
/// carry out is set exactly when that sum reaches `2^w`.
pub proof fn lemma_add_wraps(a: Seq<bool>, b: Seq<bool>, c: bool)
    requires
        a.len() == b.len(),
    ensures
        word_value(ripple_sum(a, b, c)) == (word_value(a) + word_value(b) + bit_value(c)) % pow2(
            a.len(),
        ),
        ripple_carry(a, b, c, a.len()) <==> word_value(a) + word_value(b) + bit_value(c) >= pow2(
            a.len(),
        ),
{
    let w = a.len();
    let sums = ripple_sum(a, b, c);
    let total = word_value(a) + word_value(b) + bit_value(c);
    let carry = bit_value(ripple_carry(a, b, c, w));
    lemma_ripple_adds(a, b, c, w);
    assert(sums.take(w as int) =~= sums);
    assert(a.take(w as int) =~= a);
    assert(b.take(w as int) =~= b);
    lemma_word_value_bound(sums);
    lemma_word_value_bound(a);
    lemma_word_value_bound(b);
    lemma_pow2_pos(w);
    assert(carry * pow2(w) == pow2(w) * carry) by (nonlinear_arith);
    lemma_fundamental_div_mod_converse(
        total as int,
        pow2(w) as int,
        carry as int,
        word_value(sums) as int,
    );
    assert(pow2(w) * carry == if carry == 1 {
        pow2(w)
    } else {
        0
    }) by (nonlinear_arith)
        requires
            carry == 0 || carry == 1,
    ;
}

/// On bytes, ripple-carry addition is addition modulo 256.
pub proof fn lemma_add_bytes(a: u8, b: u8, c: bool)
    ensures
        word_value(ripple_sum(bits_of(a), bits_of(b), c)) == (a + b + bit_value(c)) % 256,
        ripple_carry(bits_of(a), bits_of(b), c, 8) <==> a + b + bit_value(c) >= 256,
{
    lemma_add_wraps(bits_of(a), bits_of(b), c);
    lemma_bits_of_value(a);
    lemma_bits_of_value(b);
    lemma2_to64();
}

/// The bits of a byte write that byte.
pub proof fn lemma_bits_of_value(y: u8)
    ensures
        word_value(bits_of(y)) == y,
{
    lemma_digits_value(y as nat, 8);
    lemma2_to64();
    lemma_small_mod(y as nat, 256);
}

/// Two's-complement subtraction: adding the negation of `b` to `a` with
/// carry-in `c` gives `a - b - 1 + c` modulo `2^w`; so the borrow-in that
/// makes it `a - b` is 1.
pub proof fn lemma_sub_wraps(a: Seq<bool>, b: Seq<bool>, c: bool)
    requires
        a.len() == b.len(),
    ensures
        word_value(ripple_sum(a, negated(b), c)) == (word_value(a) - word_value(b) - 1
            + bit_value(c)) % (pow2(a.len()) as int),
        c ==> word_value(ripple_sum(a, negated(b), c)) == (word_value(a) - word_value(b)) % (pow2(
            a.len(),
        ) as int),
{
    let w = a.len();
    lemma_add_wraps(a, negated(b), c);
    lemma_negated_value(b);
    lemma_pow2_pos(w);
    let d = word_value(a) - word_value(b) - 1 + bit_value(c);
    lemma_mod_add_multiples_vanish(d, pow2(w) as int);
}

/// With carry-in 0, double-and-add multiplies: the accumulator ends as
/// `acc + x * base` modulo `2^w`.
pub proof fn lemma_scaled_multiplies(base: nat, acc: nat, x: nat, w: nat)
    requires
        acc < pow2(w),
    ensures
        scaled(base, acc, 0, x, w) == (acc + x * base) % pow2(w),
    decreases x,
{
    let m = pow2(w);
    lemma_pow2_pos(w);
    if x == 0 {
        assert(0 * base == 0);
        lemma_small_mod(acc, m);
    } else {
        let base2 = (base + base + 0) % m;
        let acc2 = if x % 2 == 1 {
            (acc + base + 0) % m
        } else {
            acc
        };
        lemma_mod_bound((acc + base) as int, m as int);
        lemma_scaled_multiplies(base2, acc2, x / 2, w);
        lemma_double_and_add_step(acc as int, base as int, x as int, m as int);
        assert(base2 * (x / 2) == (x / 2) * base2) by (nonlinear_arith);
        assert(base * x == x * base) by (nonlinear_arith);
    }
}

/// An odd multiple of `d` that `2^w` divides has `d` divided by `2^w`.
pub proof fn lemma_odd_multiple(r: nat, d: nat, w: nat)
    requires
        r % 2 == 1,
        (r * d) % pow2(w) == 0,
    ensures
        d % pow2(w) == 0,
    decreases w,
{
    if w == 0 {
        lemma2_to64();
    } else {
        let w1 = (w - 1) as nat;
        let half = pow2(w1);
        lemma_pow2_unfold(w);
        lemma_pow2_pos(w1);
        let prod = r * d;
        lemma_fundamental_div_mod(prod as int, (2 * half) as int);
        let k = prod / (2 * half);
        assert(prod == 2 * (half * k)) by (nonlinear_arith)
            requires
                prod == (2 * half) * k,
        ;
        let a = r / 2;
        let e = half * k - a * d;
        assert(d == e * 2) by (nonlinear_arith)
            requires
                r == 2 * a + 1,
                r * d == 2 * (half * k),
                e == half * k - a * d,
        ;
        vstd::arithmetic::div_mod::lemma_mod_multiples_basic(e, 2);
        let d1 = d / 2;
        assert(r * d == 2 * (r * d1)) by (nonlinear_arith)
            requires
                d == 2 * d1,
        ;
        lemma_truncate_middle((r * d1) as int, 2, half as int);
        lemma_odd_multiple(r, d1, w1);
        lemma_truncate_middle(d1 as int, 2, half as int);
    }
}

/// The masked equality test, run on an encrypted 1, an encrypted 0 and
/// carry-in 0, leaves `r * (x - y)` modulo `2^w`. For odd `r` that is 0
/// exactly when `x` and `y` agree modulo `2^w`.
pub proof fn lemma_masked_test(x: nat, y: nat, r: nat, w: nat)
    requires
        x < pow2(w),
    ensures
        masked_test(x, 1, 0, false, y, r, w) == (r * ((x - y) % (pow2(w) as int))) % (pow2(
            w,
        ) as int),
        r % 2 == 1 ==> (masked_test(x, 1, 0, false, y, r, w) == 0 <==> (x - y) % (pow2(w) as int)
            == 0),
{
    let m = pow2(w);
    let mi = m as int;
    lemma_pow2_pos(w);
    lemma_scaled_multiplies(1, 0, y, w);
    assert(0 + y * 1 == y) by (nonlinear_arith);
    let ey = y % m;
    lemma_mod_bound(y as int, mi);
    let raw = x + (m - 1 - ey) + 1;
    lemma_mod_add_multiples_vanish(x - ey, mi);
    lemma_sub_mod_noop(x as int, y as int, mi);
    lemma_small_mod(x, m);
    let diff = (raw % mi) as nat;
    assert(diff == (x - y) % mi);
    lemma_mod_bound(x - y, mi);
    lemma_scaled_multiplies(diff, 0, r, w);
    if r % 2 == 1 {
        if (r * diff) % m == 0 {
            lemma_odd_multiple(r, diff, w);
            lemma_small_mod(diff, m);
        }
        if diff == 0 {
            assert(r * diff == 0) by (nonlinear_arith)
                requires
                    diff == 0,
            ;
            lemma_small_mod(0, m);
        }
    }
}

/// On bytes, the masked equality test with an odd mask leaves 0 exactly
/// when the two bytes are equal.
pub proof fn lemma_masked_test_bytes(x: u8, y: u8, r: u8)
    requires
        r % 2 == 1,
    ensures
        masked_test(x as nat, 1, 0, false, y as nat, r as nat, 8) == 0 <==> x == y,
{
    lemma2_to64();
    lemma_masked_test(x as nat, y as nat, r as nat, 8);
    if x >= y {
        lemma_small_mod((x - y) as nat, 256);
    } else {
        lemma_mod_add_multiples_vanish(x - y, 256);
        lemma_small_mod((256 + x - y) as nat, 256);
    }
}

} // verus!
