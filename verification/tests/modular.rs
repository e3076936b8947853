use meetup::error::PsiError;
use meetup::modular::{add_mod, extended_gcd, l_function, mod_exp, mod_inv, mul_mod, sub_mod};

const MAX: u128 = u128::MAX;

#[test]
fn mod_exp_small_values() {
    assert_eq!(mod_exp(2, 10, 1000), 24);
    assert_eq!(mod_exp(3, 0, 7), 1);
    assert_eq!(mod_exp(0, 0, 7), 1);
    assert_eq!(mod_exp(0, 5, 7), 0);
    assert_eq!(mod_exp(7, 3, 7), 0);
    assert_eq!(mod_exp(36, 2, 1225), 71);
}

#[test]
fn mod_exp_with_modulus_one_is_zero() {
    assert_eq!(mod_exp(5, 3, 1), 0);
    assert_eq!(mod_exp(5, 0, 1), 0);
    assert_eq!(mod_exp(0, 0, 1), 0);
}

#[test]
fn mod_exp_does_not_overflow_on_full_width_operands() {
    assert_eq!(mod_exp(MAX, MAX, MAX - 58), 302701892551599086515172172043033096503);
}

#[test]
fn mod_exp_agrees_with_fermat_for_a_prime_modulus() {
    // 2^127 - 1 is prime.
    let p: u128 = (1u128 << 127) - 1;
    assert_eq!(mod_exp(3, p - 1, p), 1);
    assert_eq!(mod_exp(123456789, p - 1, p), 1);
}

#[test]
fn mul_mod_small_and_full_width() {
    assert_eq!(mul_mod(7, 8, 10), 6);
    assert_eq!(mul_mod(0, 8, 10), 0);
    assert_eq!(mul_mod(MAX, MAX - 1, MAX - 58), 3306);
    assert_eq!(mul_mod(MAX - 1, MAX - 2, MAX), 2);
    assert_eq!(mul_mod(MAX, MAX, 1), 0);
}

#[test]
fn add_mod_and_sub_mod_wrap_without_overflow() {
    assert_eq!(add_mod(MAX - 1, MAX - 1, MAX), MAX - 2);
    assert_eq!(add_mod(3, 4, 5), 2);
    assert_eq!(add_mod(MAX, MAX, 7), (MAX % 7 * 2) % 7);
    assert_eq!(sub_mod(3, 4, 5), 4);
    assert_eq!(sub_mod(4, 3, 5), 1);
    assert_eq!(sub_mod(0, MAX - 1, MAX), 1);
    assert_eq!(sub_mod(9, 9, 4), 0);
}

#[test]
fn mod_inv_gives_the_inverse() {
    assert_eq!(mod_inv(3, 11), Ok(4));
    assert_eq!(mod_inv(14, 11), Ok(4));
    assert_eq!(mod_inv(1, 2), Ok(1));
    assert_eq!(mod_inv(12, 35), Ok(3));
    assert_eq!(mod_inv(27083178, 54181097), Ok(43128756));
}

#[test]
fn mod_inv_modulo_one_is_zero() {
    assert_eq!(mod_inv(0, 1), Ok(0));
    assert_eq!(mod_inv(17, 1), Ok(0));
}

#[test]
fn mod_inv_works_above_the_signed_range() {
    let a: u128 = (1u128 << 127) + 1;
    let m: u128 = MAX - 158;
    assert_eq!(mod_inv(a, m), Ok(255740163959214621609120046579154991099));
    let x = mod_inv(a, m).unwrap();
    assert_eq!(mul_mod(a, x, m), 1);
}

#[test]
fn mod_inv_fails_without_an_inverse() {
    assert_eq!(mod_inv(6, 9), Err(PsiError::NoInverse));
    assert_eq!(mod_inv(0, 9), Err(PsiError::NoInverse));
    assert_eq!(mod_inv(9, 9), Err(PsiError::NoInverse));
    assert_eq!(mod_inv(1, 0), Err(PsiError::NoInverse));
    assert_eq!(mod_inv(5, 0), Err(PsiError::NoInverse));
}

#[test]
fn extended_gcd_gives_bezout_coefficients() {
    assert_eq!(extended_gcd(240, 46), (2, -9, 47));
    assert_eq!(extended_gcd(46, 240), (2, 47, -9));
    assert_eq!(extended_gcd(0, 5), (5, 0, 1));
    assert_eq!(extended_gcd(5, 0), (5, 1, 0));
    assert_eq!(extended_gcd(7, 7), (7, 1, 0));
    assert_eq!(extended_gcd(0, 0), (0, 0, 1));
}

#[test]
fn extended_gcd_of_negative_numbers_has_a_positive_gcd() {
    let cases: [(i128, i128); 6] =
        [(-240, 46), (240, -46), (-240, -46), (0, -5), (-5, 0), (i128::MAX, -(i128::MAX))];
    for (a, b) in cases {
        let (g, x, y) = extended_gcd(a, b);
        assert!(g >= 0);
        assert_eq!(a.wrapping_mul(x).wrapping_add(b.wrapping_mul(y)), g);
        if a != 0 {
            assert_eq!(a % g, 0);
        }
        if b != 0 {
            assert_eq!(b % g, 0);
        }
    }
    assert_eq!(extended_gcd(-240, 46), (2, 9, 47));
    assert_eq!(extended_gcd(240, -46), (2, -9, -47));
}

#[test]
fn extended_gcd_holds_on_a_range_of_inputs() {
    for a in -30i128..30 {
        for b in -30i128..30 {
            let (g, x, y) = extended_gcd(a, b);
            assert_eq!(a * x + b * y, g);
            assert!(g >= 0);
        }
    }
}

#[test]
fn l_function_divides_exactly() {
    assert_eq!(l_function(1, 7), 0);
    assert_eq!(l_function(36, 35), 1);
    assert_eq!(l_function(421, 35), 12);
}
