use meetup::circuit::{
    add, add2, cipher_to_uint, copy_word, full_adder, get_enc_x, server, sub, uint_to_cipher,
};
use meetup::error::PsiError;
use meetup::gates::{ClearKey, ClearScheme, GateScheme};

fn word(y: u8) -> Vec<bool> {
    uint_to_cipher::<ClearScheme>(y, &ClearKey)
}

fn value(bits: &Vec<bool>) -> u8 {
    cipher_to_uint::<ClearScheme>(bits, &ClearKey).unwrap()
}

#[test]
fn clear_gates_are_the_boolean_operations() {
    for a in [false, true] {
        assert_eq!(ClearScheme::not(&a), !a);
        assert_eq!(ClearScheme::encrypt(a, &ClearKey), a);
        assert_eq!(ClearScheme::decrypt(&a, &ClearKey), a);
        for b in [false, true] {
            assert_eq!(ClearScheme::and(&a, &b, &ClearKey), a & b);
            assert_eq!(ClearScheme::or(&a, &b, &ClearKey), a | b);
            assert_eq!(ClearScheme::xor(&a, &b, &ClearKey), a ^ b);
        }
    }
}

#[test]
fn full_adder_truth_table() {
    for a in [false, true] {
        for b in [false, true] {
            for c in [false, true] {
                let (sum, carry) = full_adder::<ClearScheme>(&ClearKey, &a, &b, &c);
                let total = a as u8 + b as u8 + c as u8;
                assert_eq!(sum, total % 2 == 1);
                assert_eq!(carry, total >= 2);
            }
        }
    }
}

#[test]
fn words_are_little_endian() {
    assert_eq!(word(0), vec![false; 8]);
    assert_eq!(word(1), vec![true, false, false, false, false, false, false, false]);
    assert_eq!(word(102), vec![false, true, true, false, false, true, true, false]);
    assert_eq!(word(128), vec![false, false, false, false, false, false, false, true]);
    assert_eq!(word(255), vec![true; 8]);
}

#[test]
fn words_round_trip() {
    for y in 0u8..=255 {
        assert_eq!(value(&word(y)), y);
    }
}

#[test]
fn short_words_are_read_and_long_ones_refused() {
    assert_eq!(cipher_to_uint::<ClearScheme>(&vec![], &ClearKey), Ok(0));
    assert_eq!(cipher_to_uint::<ClearScheme>(&vec![true, true, false], &ClearKey), Ok(3));
    assert_eq!(cipher_to_uint::<ClearScheme>(&vec![false; 9], &ClearKey), Err(PsiError::WidthMismatch));
}

#[test]
fn add_of_102_and_102_is_204() {
    let (sum, carry) = add::<ClearScheme>(&ClearKey, &word(102), &word(102), false).unwrap();
    assert_eq!(value(&sum), 204);
    assert!(!carry);
}

#[test]
fn add_is_binary_addition_with_wraparound() {
    for a in 0u16..=255 {
        for b in 0u16..=255 {
            for c in 0u16..=1 {
                let (sum, carry) =
                    add::<ClearScheme>(&ClearKey, &word(a as u8), &word(b as u8), c == 1).unwrap();
                assert_eq!(value(&sum) as u16, (a + b + c) % 256);
                assert_eq!(carry, a + b + c >= 256);
            }
        }
    }
}

#[test]
fn add2_is_the_sum_word_of_add() {
    for (a, b, c) in [(0u8, 0u8, false), (200, 100, false), (255, 255, true), (1, 2, true)] {
        let sum = add2::<ClearScheme>(&ClearKey, &word(a), &word(b), c).unwrap();
        assert_eq!(value(&sum), a.wrapping_add(b).wrapping_add(c as u8));
    }
}

#[test]
fn words_of_different_widths_do_not_add() {
    let short = vec![true, false];
    assert_eq!(add::<ClearScheme>(&ClearKey, &word(1), &short, false), Err(PsiError::WidthMismatch));
    assert_eq!(add2::<ClearScheme>(&ClearKey, &short, &word(1), false), Err(PsiError::WidthMismatch));
    assert_eq!(sub::<ClearScheme>(&ClearKey, &word(1), &short, true), Err(PsiError::WidthMismatch));
    assert_eq!(
        get_enc_x::<ClearScheme>(word(1), short.clone(), false, 3, &ClearKey),
        Err(PsiError::WidthMismatch)
    );
    assert_eq!(
        get_enc_x::<ClearScheme>(word(1), short.clone(), false, 0, &ClearKey),
        Err(PsiError::WidthMismatch)
    );
    assert_eq!(
        server::<ClearScheme>(&short, &word(1), &word(0), false, 1, 1, &ClearKey),
        Err(PsiError::WidthMismatch)
    );
    assert_eq!(
        server::<ClearScheme>(&word(5), &word(1), &short, false, 1, 1, &ClearKey),
        Err(PsiError::WidthMismatch)
    );
}

#[test]
fn empty_words_add_to_the_carry_in() {
    assert_eq!(add::<ClearScheme>(&ClearKey, &vec![], &vec![], true), Ok((vec![], true)));
    assert_eq!(add::<ClearScheme>(&ClearKey, &vec![], &vec![], false), Ok((vec![], false)));
}

#[test]
fn sub_with_borrow_in_one_is_the_difference() {
    for a in 0u16..=255 {
        for b in [0u16, 1, 2, 101, 102, 103, 127, 128, 254, 255] {
            let (diff, carry) =
                sub::<ClearScheme>(&ClearKey, &word(a as u8), &word(b as u8), true).unwrap();
            assert_eq!(value(&diff), (a as u8).wrapping_sub(b as u8));
            // The carry out is set when nothing was borrowed.
            assert_eq!(carry, a >= b);
        }
    }
}

#[test]
fn sub_with_borrow_in_zero_is_one_less() {
    for (a, b) in [(102u8, 102u8), (5, 3), (3, 5), (0, 0), (255, 0), (0, 255)] {
        let (diff, _) = sub::<ClearScheme>(&ClearKey, &word(a), &word(b), false).unwrap();
        assert_eq!(value(&diff), a.wrapping_sub(b).wrapping_sub(1));
    }
}

#[test]
fn get_enc_x_multiplies_and_accumulates() {
    for base in [0u8, 1, 3, 102, 255] {
        for acc in [0u8, 1, 77, 255] {
            for x in [0u8, 1, 2, 3, 31, 128, 255] {
                let out =
                    get_enc_x::<ClearScheme>(word(base), word(acc), false, x, &ClearKey).unwrap();
                assert_eq!(value(&out), acc.wrapping_add(x.wrapping_mul(base)));
            }
        }
    }
}

#[test]
fn get_enc_x_with_carry_in_one_adds_one_per_addition() {
    // x = 1: one addition into the accumulator, acc + base + 1.
    let out = get_enc_x::<ClearScheme>(word(10), word(5), true, 1, &ClearKey).unwrap();
    assert_eq!(value(&out), 16);
    // x = 2: the base doubles to 21, then 5 + 21 + 1.
    let out = get_enc_x::<ClearScheme>(word(10), word(5), true, 2, &ClearKey).unwrap();
    assert_eq!(value(&out), 27);
    // x = 0 leaves the accumulator.
    let out = get_enc_x::<ClearScheme>(word(10), word(5), true, 0, &ClearKey).unwrap();
    assert_eq!(value(&out), 5);
}

#[test]
fn copy_word_copies() {
    assert_eq!(copy_word::<ClearScheme>(&word(102)), word(102));
    assert_eq!(copy_word::<ClearScheme>(&vec![]), Vec::<bool>::new());
}

#[test]
fn server_on_equal_bytes_leaves_zero() {
    let out = server::<ClearScheme>(&word(102), &word(1), &word(0), false, 102, 31, &ClearKey);
    assert_eq!(value(&out.unwrap()), 0);
}

#[test]
fn server_leaves_the_masked_difference() {
    for x in [0u8, 1, 102, 200, 255] {
        for y in [0u8, 1, 102, 103, 255] {
            for r in [1u8, 2, 31, 255] {
                let out =
                    server::<ClearScheme>(&word(x), &word(1), &word(0), false, y, r, &ClearKey)
                        .unwrap();
                assert_eq!(value(&out), r.wrapping_mul(x.wrapping_sub(y)));
            }
        }
    }
}

#[test]
fn server_with_an_odd_mask_leaves_zero_only_on_equal_bytes() {
    for x in 0u8..=255 {
        for y in [0u8, 1, 102, 128, 255] {
            for r in [1u8, 31, 255] {
                let out =
                    server::<ClearScheme>(&word(x), &word(1), &word(0), false, y, r, &ClearKey)
                        .unwrap();
                assert_eq!(value(&out) == 0, x == y);
            }
        }
    }
}

#[test]
fn server_with_an_even_mask_can_hide_a_difference() {
    let out = server::<ClearScheme>(&word(128), &word(1), &word(0), false, 0, 2, &ClearKey);
    assert_eq!(value(&out.unwrap()), 0);
}
