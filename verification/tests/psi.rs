use meetup::error::PsiError;
use meetup::interests::{
    encode_token, encode_tokens, select, shared_interests, AnsweredQuestions, TOKEN_BASE,
};
use meetup::paillier::{decrypt, encrypt, prepare_key, PublicKey};
use meetup::psi::{
    client_find_intersection, encrypt_batch, invert_cipher, server_code, server_code_batch,
};

fn answers(pairs: &[(u128, u128)]) -> Vec<AnsweredQuestions> {
    pairs.iter().map(|&(id, answer_id)| AnsweredQuestions { id, answer_id }).collect()
}

fn run(x: &Vec<u128>, y: &Vec<u128>) -> Vec<bool> {
    let (pk, sk) = prepare_key(7759, 6983).unwrap();
    let c_x = encrypt_batch(x, &pk, &vec![3; x.len()]).unwrap();
    let responses = server_code_batch(y, &c_x, &pk, &vec![5; y.len()]).unwrap();
    client_find_intersection(&responses, &sk).unwrap()
}

#[test]
fn invert_cipher_raises_to_n_minus_one() {
    assert_eq!(invert_cipher(222, 35), Ok(919));
    assert_eq!(invert_cipher(1, 35), Ok(1));
    assert_eq!(invert_cipher(7, 1), Ok(0));
}

#[test]
fn invert_cipher_refuses_a_bad_modulus() {
    assert_eq!(invert_cipher(222, 0), Err(PsiError::Range));
    assert_eq!(invert_cipher(222, 1u128 << 64), Err(PsiError::Range));
}

#[test]
fn server_code_gives_the_exact_response() {
    let (pk, sk) = prepare_key(7759, 6983).unwrap();
    let c_x = encrypt(5, &pk, 3).unwrap();
    let response = server_code(9, c_x, &pk, 3).unwrap();
    assert_eq!(response, 929932768672684);
    // The response is the ciphertext of x - y modulo n.
    assert_eq!(decrypt(response, &sk), Ok(54181093));
}

#[test]
fn server_code_refuses_what_is_out_of_range() {
    let (pk, _) = prepare_key(5, 7).unwrap();
    assert_eq!(server_code(35, 222, &pk, 3), Err(PsiError::Range));
    assert_eq!(server_code(2, 1225, &pk, 3), Err(PsiError::Range));
    assert_eq!(server_code(2, 222, &pk, 0), Err(PsiError::Range));
    assert_eq!(server_code(2, 222, &pk, 10), Err(PsiError::NoInverse));
}

#[test]
fn matches_are_the_indices_of_equal_items() {
    let x: Vec<u128> = vec![0, 5, 13, 18];
    let y: Vec<u128> = vec![0, 9, 13, 20];
    assert_eq!(run(&x, &y), vec![true, false, true, false]);
}

#[test]
fn responses_of_the_example_are_exact() {
    let (pk, _) = prepare_key(7759, 6983).unwrap();
    let x: Vec<u128> = vec![0, 5, 13, 18];
    let y: Vec<u128> = vec![0, 9, 13, 20];
    let c_x = encrypt_batch(&x, &pk, &vec![3; 4]).unwrap();
    let responses = server_code_batch(&y, &c_x, &pk, &vec![3; 4]).unwrap();
    assert_eq!(
        responses,
        vec![2521607604375864, 929932768672684, 2521607604375864, 1725770186524274]
    );
}

#[test]
fn matches_of_many_pairs_are_the_equal_ones() {
    let x: Vec<u128> = (0..40).map(|i| (i * 7919) % 54181097).collect();
    let y: Vec<u128> = (0..40).map(|i| if i % 3 == 0 { (i * 7919) % 54181097 } else { i }).collect();
    let expected: Vec<bool> = x.iter().zip(y.iter()).map(|(a, b)| a == b).collect();
    assert_eq!(run(&x, &y), expected);
}

#[test]
fn empty_batches_give_empty_results() {
    let (pk, sk) = prepare_key(5, 7).unwrap();
    assert_eq!(encrypt_batch(&vec![], &pk, &vec![]), Ok(vec![]));
    assert_eq!(server_code_batch(&vec![], &vec![], &pk, &vec![]), Ok(vec![]));
    assert_eq!(client_find_intersection(&vec![], &sk), Ok(vec![]));
}

#[test]
fn batches_of_different_sizes_are_misaligned() {
    let (pk, _) = prepare_key(5, 7).unwrap();
    assert_eq!(encrypt_batch(&vec![1, 2], &pk, &vec![3]), Err(PsiError::Alignment));
    assert_eq!(
        server_code_batch(&vec![1, 2], &vec![222], &pk, &vec![3, 3]),
        Err(PsiError::Alignment)
    );
    assert_eq!(
        server_code_batch(&vec![1], &vec![222], &pk, &vec![3, 3]),
        Err(PsiError::Alignment)
    );
    // Misalignment is reported before any item is looked at.
    assert_eq!(server_code_batch(&vec![99, 2], &vec![222], &pk, &vec![0]), Err(PsiError::Alignment));
}

#[test]
fn the_first_failing_index_decides_the_error() {
    let (pk, _) = prepare_key(5, 7).unwrap();
    assert_eq!(encrypt_batch(&vec![1, 2, 99], &pk, &vec![3, 5, 3]), Err(PsiError::NoInverse));
    assert_eq!(encrypt_batch(&vec![1, 99, 2], &pk, &vec![3, 3, 5]), Err(PsiError::Range));
    assert_eq!(
        server_code_batch(&vec![1, 2], &vec![222, 5000], &pk, &vec![7, 3]),
        Err(PsiError::NoInverse)
    );
    assert_eq!(
        server_code_batch(&vec![1, 2], &vec![5000, 222], &pk, &vec![3, 7]),
        Err(PsiError::Range)
    );
}

#[test]
fn client_refuses_what_cannot_be_decrypted() {
    let (_, sk) = prepare_key(5, 7).unwrap();
    assert_eq!(client_find_intersection(&vec![222, 1225], &sk), Err(PsiError::Range));
    assert_eq!(client_find_intersection(&vec![0], &sk), Err(PsiError::Range));
}

#[test]
fn a_key_that_is_not_of_this_form_is_refused_by_encrypt_batch() {
    let wide = PublicKey { n: 1u128 << 64, g: 7 };
    assert_eq!(encrypt_batch(&vec![1], &wide, &vec![3]), Err(PsiError::Range));
}

#[test]
fn tokens_are_id_times_five_plus_answer() {
    assert_eq!(TOKEN_BASE, 5);
    assert_eq!(encode_token(&AnsweredQuestions { id: 0, answer_id: 1 }), Ok(1));
    assert_eq!(encode_token(&AnsweredQuestions { id: 1, answer_id: 4 }), Ok(9));
    assert_eq!(encode_token(&AnsweredQuestions { id: 2, answer_id: 2 }), Ok(12));
    assert_eq!(encode_token(&AnsweredQuestions { id: 3, answer_id: 3 }), Ok(18));
    assert_eq!(
        encode_tokens(&answers(&[(0, 1), (1, 4), (2, 2), (3, 3)])),
        Ok(vec![1, 9, 12, 18])
    );
}

#[test]
fn tokens_refuse_answers_at_or_above_the_base_and_overflow() {
    assert_eq!(encode_token(&AnsweredQuestions { id: 0, answer_id: 5 }), Err(PsiError::Range));
    assert_eq!(encode_token(&AnsweredQuestions { id: 3, answer_id: 77 }), Err(PsiError::Range));
    assert_eq!(
        encode_token(&AnsweredQuestions { id: u128::MAX / 5 + 1, answer_id: 0 }),
        Err(PsiError::Range)
    );
    assert_eq!(
        encode_token(&AnsweredQuestions { id: u128::MAX / 5, answer_id: 1 }),
        Err(PsiError::Range)
    );
    assert_eq!(
        encode_token(&AnsweredQuestions { id: u128::MAX / 5, answer_id: 0 }),
        Ok(u128::MAX)
    );
    assert_eq!(encode_tokens(&answers(&[(0, 1), (1, 5)])), Err(PsiError::Range));
}

#[test]
fn tokens_are_distinct_for_distinct_answered_questions() {
    let mut seen: Vec<u128> = Vec::new();
    for id in 0u128..20 {
        for answer_id in 0u128..5 {
            let t = encode_token(&AnsweredQuestions { id, answer_id }).unwrap();
            assert!(!seen.contains(&t));
            seen.push(t);
        }
    }
}

#[test]
fn select_keeps_the_flagged_items_in_order() {
    let items = answers(&[(0, 1), (1, 4), (2, 2), (3, 3)]);
    assert_eq!(select(&items, &vec![true, false, true, true]), answers(&[(0, 1), (2, 2), (3, 3)]));
    assert_eq!(select(&items, &vec![false; 4]), Vec::<AnsweredQuestions>::new());
    assert_eq!(select(&items, &vec![true; 3]), Vec::<AnsweredQuestions>::new());
}

#[test]
fn two_parties_with_the_same_answers_match_everywhere() {
    let bob = answers(&[(0, 1), (1, 4), (2, 2), (3, 3)]);
    let alice = answers(&[(0, 1), (1, 4), (2, 2), (3, 3)]);
    let found = shared_interests(&bob, &alice, 7759, 6983, &vec![3; 4], &vec![3; 4]);
    assert_eq!(found, Ok(bob));
}

#[test]
fn changing_one_answer_drops_that_index_only() {
    let bob = answers(&[(0, 1), (1, 4), (2, 2), (3, 3)]);
    // The third token becomes 12 + 1.
    let alice = answers(&[(0, 1), (1, 4), (2, 3), (3, 3)]);
    assert_eq!(encode_tokens(&alice), Ok(vec![1, 9, 13, 18]));
    let found = shared_interests(&bob, &alice, 7759, 6983, &vec![3; 4], &vec![3; 4]);
    assert_eq!(found, Ok(answers(&[(0, 1), (1, 4), (3, 3)])));
}

#[test]
fn a_whole_run_reports_the_first_failing_step() {
    let bob = answers(&[(0, 1), (1, 4)]);
    let alice = answers(&[(0, 1), (1, 4)]);
    let r = vec![3u128; 2];
    assert_eq!(shared_interests(&bob, &answers(&[(0, 9)]), 7, 7, &r, &r), Err(PsiError::Range));
    assert_eq!(shared_interests(&bob, &alice, 7, 7, &r, &r), Err(PsiError::InvalidPrime));
    assert_eq!(shared_interests(&bob, &alice, 3, 7, &r, &r), Err(PsiError::NoInverse));
    assert_eq!(
        shared_interests(&bob, &alice, 7759, 6983, &vec![3], &r),
        Err(PsiError::Alignment)
    );
    assert_eq!(
        shared_interests(&bob, &answers(&[(0, 1)]), 7759, 6983, &vec![3], &r),
        Err(PsiError::Alignment)
    );
    assert_eq!(
        shared_interests(&bob, &alice, 7759, 6983, &r, &vec![3, 0]),
        Err(PsiError::Range)
    );
    // Randomness that shares a factor with n cannot be used.
    assert_eq!(shared_interests(&bob, &alice, 3, 5, &r, &r), Err(PsiError::NoInverse));
    // A token at or above n cannot be encrypted.
    assert_eq!(
        shared_interests(&answers(&[(9, 0)]), &answers(&[(9, 0)]), 5, 7, &vec![3], &vec![3]),
        Err(PsiError::Range)
    );
}
