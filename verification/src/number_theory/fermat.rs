//! Fermat's little theorem, by the product of the multiples of a number.

use crate::number_theory::prime::{is_prime, lemma_prime_divides_product};
use vstd::arithmetic::div_mod::{
    lemma_mod_bound, lemma_mod_equivalence, lemma_mul_mod_noop_general, lemma_small_mod,
};
use vstd::arithmetic::power::{lemma_pow_positive, pow};
use vstd::prelude::*;
use vstd::set_lib::{lemma_int_range, lemma_len_subset, set_int_range};

verus! {

/// The product of the entries of a sequence.
pub open spec fn product(s: Seq<int>) -> int
    decreases s.len(),
{
    if s.len() == 0 {
        1
    } else {
        product(s.drop_last()) * s.last()
    }
}

/// `k!`, the product of the numbers from 1 to `k`.
pub open spec fn factorial(k: nat) -> int
    decreases k,
{
    if k == 0 {
        1
    } else {
        k * factorial((k - 1) as nat)
    }
}

/// The residues modulo `p` of the first `k` positive multiples of `a`.
pub open spec fn multiples_mod(a: nat, p: nat, k: nat) -> Seq<int> {
    Seq::new(k, |i: int| (a * (i + 1)) % (p as int))
}

/// Taking one entry out of a sequence divides its product by that entry.
pub proof fn lemma_product_remove(s: Seq<int>, j: int)
    requires
        0 <= j < s.len(),
    ensures
        product(s) == s[j] * product(s.remove(j)),
    decreases s.len(),
{
    if j == s.len() - 1 {
        assert(s.remove(j) =~= s.drop_last());
        assert(product(s.drop_last()) * s.last() == s.last() * product(s.drop_last()))
            by (nonlinear_arith);
    } else {
        let front = s.drop_last();
        lemma_product_remove(front, j);
        assert(s.remove(j).drop_last() =~= front.remove(j));
        assert(s.remove(j).last() == s.last());
        let x = s[j];
        let rest = product(front.remove(j));
        let l = s.last();
        assert((x * rest) * l == x * (rest * l)) by (nonlinear_arith);
    }
}

/// A sequence of `k` distinct numbers from 1 to `k` holds the number `k`.
proof fn lemma_holds_greatest(s: Seq<int>, k: nat)
    requires
        k > 0,
        s.len() == k,
        forall|i: int| 0 <= i < k ==> 1 <= #[trigger] s[i] <= k,
        s.no_duplicates(),
    ensures
        exists|j: int| 0 <= j < k && s[j] == k,
{
    if forall|j: int| 0 <= j < k ==> s[j] != k {
        s.unique_seq_to_set();
        lemma_int_range(1, k as int);
        assert(s.to_set().subset_of(set_int_range(1, k as int))) by {
            assert forall|x: int| s.to_set().contains(x) implies set_int_range(
                1,
                k as int,
            ).contains(x) by {
                let i = choose|i: int| 0 <= i < s.len() && s[i] == x;
                assert(1 <= s[i] <= k);
            }
        }
        lemma_len_subset(s.to_set(), set_int_range(1, k as int));
        assert(false);
    }
}

/// The product of `k` distinct numbers from 1 to `k` is `k!`.
pub proof fn lemma_permutation_product(s: Seq<int>, k: nat)
    requires
        s.len() == k,
        forall|i: int| 0 <= i < k ==> 1 <= #[trigger] s[i] <= k,
        s.no_duplicates(),
    ensures
        product(s) == factorial(k),
    decreases k,
{
    if k > 0 {
        lemma_holds_greatest(s, k);
        let j = choose|j: int| 0 <= j < k && s[j] == k;
        let rest = s.remove(j);
        assert forall|i: int| 0 <= i < k - 1 implies 1 <= #[trigger] rest[i] <= k - 1 by {
            if i < j {
                assert(rest[i] == s[i]);
                assert(s[i] != s[j]);
            } else {
                assert(rest[i] == s[i + 1]);
                assert(s[i + 1] != s[j]);
            }
        }
        assert(rest.no_duplicates()) by {
            assert forall|a: int, b: int|
                0 <= a < rest.len() && 0 <= b < rest.len() && a != b implies rest[a] != rest[b] by {
                let a2 = if a < j { a } else { a + 1 };
                let b2 = if b < j { b } else { b + 1 };
                assert(rest[a] == s[a2]);
                assert(rest[b] == s[b2]);
                assert(s[a2] != s[b2]);
            }
        }
        lemma_permutation_product(rest, (k - 1) as nat);
        lemma_product_remove(s, j);
    }
}

/// A prime divides no factorial below its own.
pub proof fn lemma_factorial_mod_prime(p: nat, k: nat)
    requires
        is_prime(p),
        k < p,
    ensures
        factorial(k) > 0,
        factorial(k) % (p as int) != 0,
    decreases k,
{
    if k == 0 {
        lemma_small_mod(1, p);
    } else {
        lemma_factorial_mod_prime(p, (k - 1) as nat);
        let f = factorial((k - 1) as nat);
        assert(k * f > 0) by (nonlinear_arith)
            requires
                k > 0,
                f > 0,
        ;
        if (k * f) % (p as int) == 0 {
            lemma_prime_divides_product(p, k, f as nat);
            lemma_small_mod(k, p);
            assert(false);
        }
    }
}

/// A prime `p` that does not divide `a` divides no positive multiple of `a`
/// below the `p`-th.
proof fn lemma_multiple_nonzero(a: nat, p: nat, i: nat)
    requires
        is_prime(p),
        a % p != 0,
        0 < i < p,
    ensures
        (a * i) % p != 0,
{
    if (a * i) % p == 0 {
        lemma_prime_divides_product(p, a, i);
        lemma_small_mod(i, p);
        assert(false);
    }
}

/// Modulo a prime `p` that does not divide `a`, any two positive multiples of
/// `a` below the `p`-th differ.
proof fn lemma_multiples_distinct(a: nat, p: nat, i: nat, j: nat)
    requires
        is_prime(p),
        a % p != 0,
        0 < i < j < p,
    ensures
        (a * i) % p != (a * j) % p,
{
    if (a * i) % p == (a * j) % p {
        lemma_mod_equivalence((a * j) as int, (a * i) as int, p as int);
        let d = (j - i) as nat;
        assert(a * j - a * i == a * d) by (nonlinear_arith)
            requires
                d == j - i,
        ;
        lemma_multiple_nonzero(a, p, d);
        assert(false);
    }
}

/// Modulo `p`, the product of the residues of the first `k` multiples of `a`
/// is `a` to the `k` times `k!`.
proof fn lemma_multiples_product(a: nat, p: nat, k: nat)
    requires
        p > 0,
    ensures
        product(multiples_mod(a, p, k)) % (p as int) == (pow(a as int, k) * factorial(k)) % (
        p as int),
    decreases k,
{
    reveal(pow);
    let m = p as int;
    if k == 0 {
        assert(pow(a as int, 0) * factorial(0) == 1);
    } else {
        let k1 = (k - 1) as nat;
        lemma_multiples_product(a, p, k1);
        let s = multiples_mod(a, p, k);
        assert(s.drop_last() =~= multiples_mod(a, p, k1));
        assert(s.last() == ((a * k) as int) % m);
        let front = product(multiples_mod(a, p, k1));
        let model = pow(a as int, k1) * factorial(k1);
        // product(s) == front * ((a * k) % m)
        lemma_mul_mod_noop_general(front, (a * k) as int, m);
        lemma_mul_mod_noop_general(front, ((a * k) as int) % m, m);
        lemma_mul_mod_noop_general(model, (a * k) as int, m);
        assert((front * (((a * k) as int) % m)) % m == (model * (a * k)) % m);
        assert(model * (a * k) == pow(a as int, k) * factorial(k)) by (nonlinear_arith)
            requires
                model == pow(a as int, k1) * factorial(k1),
                pow(a as int, k) == a * pow(a as int, k1),
                factorial(k) == k * factorial(k1),
        ;
    }
}

/// Fermat's little theorem: a prime `p` that does not divide `a` divides
/// `a` to the `p - 1`, less one.
pub proof fn lemma_fermat(a: nat, p: nat)
    requires
        is_prime(p),
        a % p != 0,
    ensures
        pow(a as int, (p - 1) as nat) % (p as int) == 1,
{
    let k = (p - 1) as nat;
    let m = p as int;
    let s = multiples_mod(a, p, k);
    assert forall|i: int| 0 <= i < k implies 1 <= #[trigger] s[i] <= k by {
        lemma_mod_bound((a * (i + 1)) as int, m);
        lemma_multiple_nonzero(a, p, (i + 1) as nat);
    }
    assert(s.no_duplicates()) by {
        assert forall|i: int, j: int|
            0 <= i < s.len() && 0 <= j < s.len() && i != j implies s[i] != s[j] by {
            if i < j {
                lemma_multiples_distinct(a, p, (i + 1) as nat, (j + 1) as nat);
            } else {
                lemma_multiples_distinct(a, p, (j + 1) as nat, (i + 1) as nat);
            }
        }
    }
    lemma_permutation_product(s, k);
    lemma_multiples_product(a, p, k);
    lemma_factorial_mod_prime(p, k);
    let f = factorial(k);
    let e = pow(a as int, k);
    assert(a > 0) by {
        if a == 0 {
            lemma_small_mod(0, p);
        }
    }
    lemma_pow_positive(a as int, k);
    // (e * f) % p == f % p, hence p divides (e - 1) * f.
    lemma_mod_equivalence(e * f, f, m);
    assert(e * f - f == (e - 1) * f) by (nonlinear_arith);
    assert((e - 1) * f >= 0) by (nonlinear_arith)
        requires
            e >= 1,
            f > 0,
    ;
    lemma_prime_divides_product(p, (e - 1) as nat, f as nat);
    lemma_mod_equivalence(e, 1, m);
    lemma_small_mod(1, p);
}

} // verus!
