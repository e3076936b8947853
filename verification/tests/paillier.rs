use meetup::error::PsiError;
use meetup::modular::{mod_exp, mul_mod};
use meetup::paillier::{decrypt, encrypt, prepare_key, PrivateKey, PublicKey};

#[test]
fn prepare_key_gives_the_documented_parts() {
    let (pk, sk) = prepare_key(7759, 6983).unwrap();
    assert_eq!(pk, PublicKey { n: 54181097, g: 54181098 });
    assert_eq!(sk, PrivateKey { n: 54181097, lambda: 27083178, mu: 43128756 });
}

#[test]
fn prepare_key_lambda_is_the_least_common_multiple() {
    // lcm(4, 6) is 12, neither 4 nor 6 nor 24.
    let (pk, sk) = prepare_key(5, 7).unwrap();
    assert_eq!(pk, PublicKey { n: 35, g: 36 });
    assert_eq!(sk, PrivateKey { n: 35, lambda: 12, mu: 3 });
}

#[test]
fn prepare_key_refuses_degenerate_primes() {
    assert_eq!(prepare_key(7, 7), Err(PsiError::InvalidPrime));
    assert_eq!(prepare_key(1, 7), Err(PsiError::InvalidPrime));
    assert_eq!(prepare_key(7, 1), Err(PsiError::InvalidPrime));
    assert_eq!(prepare_key(0, 7), Err(PsiError::InvalidPrime));
    assert_eq!(prepare_key(2, 7), Err(PsiError::InvalidPrime));
    assert_eq!(prepare_key(7, 10), Err(PsiError::InvalidPrime));
}

#[test]
fn prepare_key_refuses_a_modulus_whose_square_is_too_wide() {
    assert_eq!(prepare_key(4294967311, 4294967357), Err(PsiError::Range));
    assert_eq!(prepare_key(u128::MAX, u128::MAX - 2), Err(PsiError::Range));
    // The largest pair of 32-bit primes still fits.
    assert!(prepare_key(4294967291, 4294967279).is_ok());
}

#[test]
fn prepare_key_refuses_when_lambda_has_no_inverse() {
    // lcm(2, 6) = 6 shares the factor 3 with 21.
    assert_eq!(prepare_key(3, 7), Err(PsiError::NoInverse));
}

#[test]
fn encrypt_gives_the_exact_ciphertext() {
    let (pk, _) = prepare_key(5, 7).unwrap();
    assert_eq!(encrypt(2, &pk, 3), Ok(222));
    assert_eq!(encrypt(11, &pk, 2), Ok(823));
    let (pk, _) = prepare_key(7759, 6983).unwrap();
    assert_eq!(encrypt(18, &pk, 3), Ok(2623611666127760));
}

#[test]
fn encrypt_refuses_what_is_out_of_range() {
    let (pk, _) = prepare_key(5, 7).unwrap();
    assert_eq!(encrypt(35, &pk, 3), Err(PsiError::Range));
    assert_eq!(encrypt(36, &pk, 3), Err(PsiError::Range));
    assert_eq!(encrypt(2, &pk, 0), Err(PsiError::Range));
    assert_eq!(encrypt(2, &pk, 35), Err(PsiError::Range));
    let wide = PublicKey { n: 1u128 << 64, g: (1u128 << 64) + 1 };
    assert_eq!(encrypt(2, &wide, 3), Err(PsiError::Range));
    let empty = PublicKey { n: 0, g: 1 };
    assert_eq!(encrypt(0, &empty, 0), Err(PsiError::Range));
}

#[test]
fn encrypt_refuses_randomness_that_shares_a_factor() {
    let (pk, _) = prepare_key(5, 7).unwrap();
    assert_eq!(encrypt(2, &pk, 5), Err(PsiError::NoInverse));
    assert_eq!(encrypt(2, &pk, 14), Err(PsiError::NoInverse));
}

#[test]
fn decrypt_undoes_encrypt() {
    let (pk, sk) = prepare_key(7759, 6983).unwrap();
    for m in [0u128, 1, 18, 1000, 54181096] {
        for r in [1u128, 3, 17, 54181096] {
            let c = encrypt(m, &pk, r).unwrap();
            assert_eq!(decrypt(c, &sk), Ok(m));
        }
    }
}

#[test]
fn decrypt_undoes_encrypt_for_every_message_of_a_small_key() {
    let (pk, sk) = prepare_key(5, 7).unwrap();
    for m in 0u128..35 {
        for r in 1u128..35 {
            if r % 5 != 0 && r % 7 != 0 {
                let c = encrypt(m, &pk, r).unwrap();
                assert_eq!(decrypt(c, &sk), Ok(m));
            }
        }
    }
}

#[test]
fn decrypt_undoes_encrypt_near_the_width_limit() {
    let (pk, sk) = prepare_key(4294967291, 4294967279).unwrap();
    let m: u128 = 18446743979220271188;
    let c = encrypt(m, &pk, 12345678901234567).unwrap();
    assert_eq!(decrypt(c, &sk), Ok(m));
}

#[test]
fn product_of_ciphertexts_decrypts_to_the_sum() {
    let (pk, sk) = prepare_key(5, 7).unwrap();
    let ca = encrypt(2, &pk, 3).unwrap();
    let cb = encrypt(11, &pk, 2).unwrap();
    assert_eq!(decrypt(mul_mod(ca, cb, 1225), &sk), Ok(13));
    // The sum wraps at n.
    let cc = encrypt(30, &pk, 4).unwrap();
    assert_eq!(decrypt(mul_mod(cb, cc, 1225), &sk), Ok(6));
    let (pk, sk) = prepare_key(7759, 6983).unwrap();
    let n_sq = pk.n * pk.n;
    let ca = encrypt(54181000, &pk, 3).unwrap();
    let cb = encrypt(200, &pk, 5).unwrap();
    assert_eq!(decrypt(mul_mod(ca, cb, n_sq), &sk), Ok(103));
}

#[test]
fn power_of_a_ciphertext_decrypts_to_the_multiple() {
    let (pk, sk) = prepare_key(5, 7).unwrap();
    let ca = encrypt(4, &pk, 3).unwrap();
    assert_eq!(decrypt(mod_exp(ca, 5, 1225), &sk), Ok(20));
    assert_eq!(decrypt(mod_exp(ca, 10, 1225), &sk), Ok(5));
}

#[test]
fn inverse_of_a_ciphertext_decrypts_to_the_negation() {
    let (pk, sk) = prepare_key(5, 7).unwrap();
    let ca = encrypt(2, &pk, 3).unwrap();
    assert_eq!(mod_exp(ca, 34, 1225), 919);
    assert_eq!(decrypt(919, &sk), Ok(33));
    let c0 = encrypt(0, &pk, 3).unwrap();
    assert_eq!(decrypt(mod_exp(c0, 34, 1225), &sk), Ok(0));
    let (pk, sk) = prepare_key(7759, 6983).unwrap();
    for a in [1u128, 18, 54181096] {
        let c = encrypt(a, &pk, 3).unwrap();
        assert_eq!(decrypt(mod_exp(c, pk.n - 1, pk.n * pk.n), &sk), Ok(pk.n - a));
    }
}

#[test]
fn decrypt_refuses_what_is_out_of_range() {
    let (_, sk) = prepare_key(5, 7).unwrap();
    assert_eq!(decrypt(1225, &sk), Err(PsiError::Range));
    assert_eq!(decrypt(u128::MAX, &sk), Err(PsiError::Range));
    // 0 and multiples of a prime factor are no ciphertexts.
    assert_eq!(decrypt(0, &sk), Err(PsiError::Range));
    assert_eq!(decrypt(35, &sk), Err(PsiError::Range));
    assert_eq!(decrypt(5, &sk), Err(PsiError::Range));
    let wide = PrivateKey { n: 1u128 << 64, lambda: 1, mu: 1 };
    assert_eq!(decrypt(1, &wide), Err(PsiError::Range));
    let empty = PrivateKey { n: 0, lambda: 1, mu: 1 };
    assert_eq!(decrypt(0, &empty), Err(PsiError::Range));
}
