use meetup::bytes::{from_be_prefix, to_be_bytes};
use meetup::error::PsiError;
use meetup::merkle::{
    create_merkle_tree, is_power_of_two, leaf_hash, parent_hash, verify_merkle_proof,
};
use sha2::{Digest, Sha256};

fn truncated(data: &[u8]) -> u128 {
    let digest = Sha256::digest(data);
    let mut first = [0u8; 16];
    first.copy_from_slice(&digest[..16]);
    u128::from_be_bytes(first)
}

#[test]
fn to_be_bytes_puts_the_most_significant_byte_first() {
    assert_eq!(to_be_bytes(0), vec![0u8; 16]);
    assert_eq!(to_be_bytes(1), vec![0, 0, 0, 0, 0, 0, 0, 0, 0, 0, 0, 0, 0, 0, 0, 1]);
    assert_eq!(to_be_bytes(0x0102), vec![0, 0, 0, 0, 0, 0, 0, 0, 0, 0, 0, 0, 0, 0, 1, 2]);
    assert_eq!(to_be_bytes(u128::MAX), vec![255u8; 16]);
    let v: u128 = 0x000102030405060708090a0b0c0d0e0f;
    assert_eq!(to_be_bytes(v), (0u8..16).collect::<Vec<u8>>());
    assert_eq!(to_be_bytes(v), v.to_be_bytes().to_vec());
}

#[test]
fn from_be_prefix_reads_the_first_sixteen_bytes() {
    let bytes: Vec<u8> = (0u8..32).collect();
    assert_eq!(from_be_prefix(&bytes), 0x000102030405060708090a0b0c0d0e0f);
    assert_eq!(from_be_prefix(&vec![255u8; 16]), u128::MAX);
    assert_eq!(from_be_prefix(&vec![255u8; 40]), u128::MAX);
    assert_eq!(from_be_prefix(&vec![1, 2]), 0x0102);
    assert_eq!(from_be_prefix(&vec![]), 0);
}

#[test]
fn bytes_round_trip() {
    for v in [0u128, 1, 255, 256, 1 << 64, u128::MAX - 1, u128::MAX] {
        assert_eq!(from_be_prefix(&to_be_bytes(v)), v);
    }
}

#[test]
fn is_power_of_two_agrees_with_the_standard_one() {
    for n in 0usize..1100 {
        assert_eq!(is_power_of_two(n), n.is_power_of_two());
    }
    assert!(is_power_of_two(1 << 40));
    assert!(!is_power_of_two((1 << 40) + 1));
    assert!(!is_power_of_two(usize::MAX));
}

#[test]
fn leaf_hash_is_the_truncated_digest_of_the_big_endian_bytes() {
    assert_eq!(leaf_hash(0), 73476375384164767517212904947171775016);
    assert_eq!(leaf_hash(1), 165139968508487951343830423722153636902);
    assert_eq!(leaf_hash(0), 0x374708fff7719dd5979ec875d56cd228);
    for v in [0u128, 1, 42, u128::MAX] {
        assert_eq!(leaf_hash(v), truncated(&v.to_be_bytes()));
    }
}

#[test]
fn parent_hash_is_the_truncated_digest_of_both_children() {
    let l: u128 = 165139968508487951343830423722153636902;
    let r: u128 = 73476375384164767517212904947171775016;
    let mut both = l.to_be_bytes().to_vec();
    both.extend_from_slice(&r.to_be_bytes());
    assert_eq!(parent_hash(l, r), truncated(&both));
    // Order matters.
    assert_ne!(parent_hash(l, r), parent_hash(r, l));
}

#[test]
fn root_of_one_value_is_its_leaf() {
    assert_eq!(create_merkle_tree(&vec![42]), Ok(329404769104818596386753639292101195794));
    assert_eq!(create_merkle_tree(&vec![42]), Ok(leaf_hash(42)));
}

#[test]
fn root_of_two_values_is_the_parent_of_their_leaves() {
    assert_eq!(create_merkle_tree(&vec![3, 8]), Ok(parent_hash(leaf_hash(3), leaf_hash(8))));
}

#[test]
fn building_twice_gives_one_root() {
    let values: Vec<u128> = vec![1, 2, 3, 4];
    let first = create_merkle_tree(&values);
    let second = create_merkle_tree(&values);
    assert_eq!(first, second);
    assert_eq!(first, Ok(11439132173134877360040999778028561508));
}

#[test]
fn root_of_four_values_folds_pairwise_left_to_right() {
    let left = parent_hash(leaf_hash(1), leaf_hash(2));
    let right = parent_hash(leaf_hash(3), leaf_hash(4));
    assert_eq!(create_merkle_tree(&vec![1, 2, 3, 4]), Ok(parent_hash(left, right)));
}

#[test]
fn changing_one_value_changes_the_root() {
    let base: Vec<u128> = vec![1, 2, 3, 4];
    let root = create_merkle_tree(&base).unwrap();
    assert_eq!(create_merkle_tree(&vec![1, 2, 3, 5]), Ok(50533358509743620561861914762707717513));
    for i in 0..4 {
        let mut other = base.clone();
        other[i] += 100;
        assert_ne!(create_merkle_tree(&other).unwrap(), root);
    }
    assert_ne!(create_merkle_tree(&vec![2, 1, 3, 4]).unwrap(), root);
}

#[test]
fn three_values_are_padded_with_one_zero() {
    let short = create_merkle_tree(&vec![7, 9, 2]);
    let padded = create_merkle_tree(&vec![7, 9, 2, 0]);
    assert_eq!(short, padded);
    assert_eq!(short, Ok(179944334554961541292196287904938140634));
}

#[test]
fn five_values_are_padded_to_eight() {
    let short = create_merkle_tree(&vec![1, 2, 3, 4, 5]);
    assert_eq!(short, Ok(155850565321850423488932111160192996258));
    assert_eq!(short, create_merkle_tree(&vec![1, 2, 3, 4, 5, 0, 0, 0]));
    assert_eq!(short, create_merkle_tree(&vec![1, 2, 3, 4, 5, 0]));
    assert_ne!(short, create_merkle_tree(&vec![1, 2, 3, 4, 5, 0, 0, 0, 0]));
}

#[test]
fn an_empty_sequence_has_no_root() {
    assert_eq!(create_merkle_tree(&vec![]), Err(PsiError::EmptyInput));
    assert!(!verify_merkle_proof(0, &vec![]));
    assert!(!verify_merkle_proof(leaf_hash(0), &vec![]));
}

#[test]
fn verify_accepts_the_root_of_the_same_values() {
    for values in [vec![1u128], vec![1, 2, 3, 4], vec![7, 9, 2], vec![0; 9]] {
        let root = create_merkle_tree(&values).unwrap();
        assert!(verify_merkle_proof(root, &values));
    }
}

#[test]
fn verify_rejects_other_values() {
    let root = create_merkle_tree(&vec![1, 2, 3, 4]).unwrap();
    assert!(!verify_merkle_proof(root, &vec![1, 2, 3, 5]));
    assert!(!verify_merkle_proof(root, &vec![1, 2, 3]));
    assert!(!verify_merkle_proof(root, &vec![4, 3, 2, 1]));
    assert!(!verify_merkle_proof(root + 1, &vec![1, 2, 3, 4]));
}
