use meetup::contract::{Meetup, MeetupAction, ENCRYPTION_WITNESS};
use meetup::entropy::getrandom;
use meetup::error::PsiError;
use meetup::merkle::create_merkle_tree;
use meetup::text::{
    append_decimal, decimal, hex, join_numbers, parse_number, parse_numbers, split_fields,
};

fn bytes(s: &str) -> Vec<u8> {
    s.as_bytes().to_vec()
}

#[test]
fn a_new_state_is_empty() {
    let state = Meetup::new();
    assert_eq!(state.merkle_roots, Vec::<u128>::new());
    assert_eq!(state.encrypted_message_hash, "");
}

#[test]
fn post_root_appends_the_root() {
    let mut state = Meetup::new();
    let out = state.execute(&MeetupAction::PostRoot, &bytes("1 2 3 4")).unwrap();
    assert_eq!(state.merkle_roots, vec![11439132173134877360040999778028561508]);
    assert_eq!(state.encrypted_message_hash, "");
    assert_eq!(out, "new value: 11439132173134877360040999778028561508");
}

#[test]
fn post_root_keeps_earlier_roots_and_reports_the_first() {
    let mut state = Meetup::new();
    state.execute(&MeetupAction::PostRoot, &bytes("1 2 3 4")).unwrap();
    let out = state.execute(&MeetupAction::PostRoot, &bytes("7 9 2")).unwrap();
    assert_eq!(
        state.merkle_roots,
        vec![
            create_merkle_tree(&vec![1, 2, 3, 4]).unwrap(),
            create_merkle_tree(&vec![7, 9, 2]).unwrap()
        ]
    );
    assert_eq!(out, "new value: 11439132173134877360040999778028561508");
}

#[test]
fn add_encryption_stores_the_digest_of_the_ciphertexts() {
    assert_eq!(ENCRYPTION_WITNESS, 3);
    let mut state = Meetup::new();
    let out = state.execute(&MeetupAction::AddEncryption, &bytes("7759 6983 1 9 12 18")).unwrap();
    assert_eq!(
        state.encrypted_message_hash,
        "79ff42e09e2f34e80310cf6591185ea91ebbd4961a50d4ff921c359dfbf7c26c"
    );
    assert_eq!(state.merkle_roots, Vec::<u128>::new());
    assert_eq!(out, "new value: none");
}

#[test]
fn add_encryption_overwrites_the_digest_and_keeps_the_roots() {
    let mut state = Meetup::new();
    state.execute(&MeetupAction::PostRoot, &bytes("42")).unwrap();
    state.execute(&MeetupAction::AddEncryption, &bytes("7759 6983 5")).unwrap();
    let first = state.encrypted_message_hash.clone();
    let out = state.execute(&MeetupAction::AddEncryption, &bytes("7759 6983 1 9 12 18")).unwrap();
    assert_ne!(state.encrypted_message_hash, first);
    assert_eq!(
        state.encrypted_message_hash,
        "79ff42e09e2f34e80310cf6591185ea91ebbd4961a50d4ff921c359dfbf7c26c"
    );
    assert_eq!(state.merkle_roots, vec![329404769104818596386753639292101195794]);
    assert_eq!(out, "new value: 329404769104818596386753639292101195794");
}

#[test]
fn add_encryption_without_items_stores_the_digest_of_nothing() {
    let mut state = Meetup::new();
    state.execute(&MeetupAction::AddEncryption, &bytes("7759 6983")).unwrap();
    assert_eq!(
        state.encrypted_message_hash,
        "e3b0c44298fc1c149afbf4c8996fb92427ae41e4649b934ca495991b7852b855"
    );
}

#[test]
fn transitions_are_deterministic() {
    let mut a = Meetup::new();
    let mut b = Meetup::new();
    for state in [&mut a, &mut b] {
        state.execute(&MeetupAction::PostRoot, &bytes("5 6")).unwrap();
        state.execute(&MeetupAction::AddEncryption, &bytes("7759 6983 5 6")).unwrap();
    }
    assert_eq!(a, b);
}

#[test]
fn a_refused_action_leaves_the_state_as_it_was() {
    let mut state = Meetup::new();
    state.execute(&MeetupAction::PostRoot, &bytes("1 2 3 4")).unwrap();
    state.execute(&MeetupAction::AddEncryption, &bytes("7759 6983 1")).unwrap();
    let before = state.clone();
    let refused: [(MeetupAction, &str, PsiError); 12] = [
        (MeetupAction::PostRoot, "", PsiError::MalformedPayload),
        (MeetupAction::PostRoot, "1  2", PsiError::MalformedPayload),
        (MeetupAction::PostRoot, "1 2 ", PsiError::MalformedPayload),
        (MeetupAction::PostRoot, " 1", PsiError::MalformedPayload),
        (MeetupAction::PostRoot, "1,2", PsiError::MalformedPayload),
        (MeetupAction::PostRoot, "-1", PsiError::MalformedPayload),
        (MeetupAction::PostRoot, "340282366920938463463374607431768211456", PsiError::MalformedPayload),
        (MeetupAction::AddEncryption, "7759", PsiError::MalformedPayload),
        (MeetupAction::AddEncryption, "7759 7759 1", PsiError::InvalidPrime),
        (MeetupAction::AddEncryption, "3 7 1", PsiError::NoInverse),
        (MeetupAction::AddEncryption, "5 7 1 35", PsiError::Range),
        (MeetupAction::AddEncryption, "4294967311 4294967357 1", PsiError::Range),
    ];
    for (action, payload, error) in refused {
        assert_eq!(state.execute(&action, &bytes(payload)), Err(error));
        assert_eq!(state, before);
    }
}

#[test]
fn add_encryption_refuses_primes_that_the_witness_divides() {
    let mut state = Meetup::new();
    // gcd(3, 3 * 5) is not 1, so nothing can be encrypted with the witness.
    assert_eq!(
        state.execute(&MeetupAction::AddEncryption, &bytes("3 5 1")),
        Err(PsiError::NoInverse)
    );
    // Without items nothing is encrypted, and the action goes through.
    assert!(state.execute(&MeetupAction::AddEncryption, &bytes("3 5")).is_ok());
}

#[test]
fn payloads_that_are_not_text_are_malformed() {
    let mut state = Meetup::new();
    assert_eq!(
        state.execute(&MeetupAction::PostRoot, &vec![0xff, 0xfe]),
        Err(PsiError::MalformedPayload)
    );
    assert_eq!(state, Meetup::new());
}

#[test]
fn split_fields_splits_at_every_space() {
    assert_eq!(split_fields(&bytes("")), vec![bytes("")]);
    assert_eq!(split_fields(&bytes("12")), vec![bytes("12")]);
    assert_eq!(split_fields(&bytes("1 22 3")), vec![bytes("1"), bytes("22"), bytes("3")]);
    assert_eq!(split_fields(&bytes(" 1  2 ")), vec![bytes(""), bytes("1"), bytes(""), bytes("2"), bytes("")]);
}

#[test]
fn parse_number_reads_decimal_with_an_optional_plus() {
    assert_eq!(parse_number(&bytes("0")), Some(0));
    assert_eq!(parse_number(&bytes("007")), Some(7));
    assert_eq!(parse_number(&bytes("+5")), Some(5));
    assert_eq!(
        parse_number(&bytes("340282366920938463463374607431768211455")),
        Some(u128::MAX)
    );
    assert_eq!(
        parse_number(&bytes("000340282366920938463463374607431768211455")),
        Some(u128::MAX)
    );
}

#[test]
fn parse_number_refuses_what_is_no_number() {
    for s in ["", "+", "-5", "++5", "5+", "1a", "a", " 1", "1 ", "1.5", "0x10"] {
        assert_eq!(parse_number(&bytes(s)), None);
    }
    assert_eq!(parse_number(&bytes("340282366920938463463374607431768211456")), None);
    assert_eq!(parse_number(&bytes("3402823669209384634633746074317682114550")), None);
    assert_eq!(parse_number(&bytes("999999999999999999999999999999999999999")), None);
}

#[test]
fn parse_number_agrees_with_the_standard_parser() {
    for s in ["0", "1", "+1", "0010", "99999", "", "+", "1_000", "١٢٣", "12 ", "-0"] {
        assert_eq!(parse_number(&bytes(s)), s.parse::<u128>().ok());
    }
}

#[test]
fn parse_numbers_reads_a_list() {
    assert_eq!(parse_numbers(&bytes("1 2 3 4")), Ok(vec![1, 2, 3, 4]));
    assert_eq!(parse_numbers(&bytes("+5 007")), Ok(vec![5, 7]));
    assert_eq!(parse_numbers(&bytes("42")), Ok(vec![42]));
    assert_eq!(parse_numbers(&bytes("")), Err(PsiError::MalformedPayload));
    assert_eq!(parse_numbers(&bytes("1  2")), Err(PsiError::MalformedPayload));
    assert_eq!(parse_numbers(&bytes("1 x")), Err(PsiError::MalformedPayload));
}

#[test]
fn decimal_writes_base_ten() {
    assert_eq!(decimal(0), bytes("0"));
    assert_eq!(decimal(9), bytes("9"));
    assert_eq!(decimal(10), bytes("10"));
    assert_eq!(decimal(1203), bytes("1203"));
    assert_eq!(decimal(u128::MAX), bytes("340282366920938463463374607431768211455"));
}

#[test]
fn join_numbers_puts_one_space_between_neighbours() {
    assert_eq!(join_numbers(&vec![]), bytes(""));
    assert_eq!(join_numbers(&vec![7]), bytes("7"));
    assert_eq!(join_numbers(&vec![1, 0, 300]), bytes("1 0 300"));
}

#[test]
fn parse_numbers_undoes_join_numbers() {
    for numbers in [vec![0u128], vec![1, 2, 3], vec![u128::MAX, 0, 10, 99]] {
        assert_eq!(parse_numbers(&join_numbers(&numbers)), Ok(numbers));
    }
}

#[test]
fn hex_writes_two_lower_case_digits_per_byte() {
    assert_eq!(hex(&vec![]), "");
    assert_eq!(hex(&vec![0]), "00");
    assert_eq!(hex(&vec![0x0a, 0xff, 0x10, 0x9b]), "0aff109b");
    let all: Vec<u8> = (0u8..=255).collect();
    let expected: String = all.iter().map(|b| format!("{:02x}", b)).collect();
    assert_eq!(hex(&all), expected);
}

#[test]
fn append_decimal_appends_the_digits() {
    let mut s = String::from("x=");
    append_decimal(&mut s, 0);
    assert_eq!(s, "x=0");
    append_decimal(&mut s, 907);
    assert_eq!(s, "x=0907");
}

#[test]
fn getrandom_fills_with_zeros() {
    let mut buf = [7u8; 33];
    assert_eq!(getrandom(&mut buf), Ok(()));
    assert_eq!(buf, [0u8; 33]);
    let mut empty: [u8; 0] = [];
    assert_eq!(getrandom(&mut empty), Ok(()));
}
