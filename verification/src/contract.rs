//! The contract's state and its transitions.

use crate::error::PsiError;
use crate::hash::{sha256, sha256_digest};
use crate::merkle::{create_merkle_tree, merkle_root};
use crate::paillier::{key_failure, prepare_key, PublicKey};
use crate::psi::{encrypt_batch, encryptions_failure, sent};
use crate::text::{
    append_decimal, decimal_chars, hex, hex_of, join_numbers, joined, lemma_fields_nonempty,
    numbers_of, parse_numbers,
};
use vstd::prelude::*;

verus! {

/// The randomness with which the contract encrypts. A transition must give
/// the same state to everyone who replays it, so the contract cannot draw
/// randomness: the digest it stores stands for the items only towards those
/// who know this number.
pub const ENCRYPTION_WITNESS: u128 = 3;

/// What can be done to the contract's state.
#[derive(Clone, Copy, Debug, PartialEq, Eq, Structural)]
pub enum MeetupAction {
    /// Commit the Merkle root of the payload's numbers.
    PostRoot,
    /// Encrypt the payload's items under the key of its two leading numbers,
    /// and store the digest of the ciphertexts.
    AddEncryption,
}

/// The contract's state: the roots committed so far, oldest first, and the
/// digest of the last encrypted summary in lower-case hexadecimal (empty
/// before the first).
#[derive(Clone, Debug, PartialEq, Eq)]
pub struct Meetup {
    pub merkle_roots: Vec<u128>,
    pub encrypted_message_hash: String,
}

/// The state as mathematics.
pub struct MeetupView {
    pub merkle_roots: Seq<u128>,
    pub encrypted_message_hash: Seq<char>,
}

impl View for Meetup {
    type V = MeetupView;

    open spec fn view(&self) -> MeetupView {
        MeetupView {
            merkle_roots: self.merkle_roots@,
            encrypted_message_hash: self.encrypted_message_hash@,
        }
    }
}

/// `count` copies of the contract's randomness.
pub open spec fn witnesses(count: nat) -> Seq<u128> {
    Seq::new(count, |i: int| ENCRYPTION_WITNESS)
}

/// The ciphertexts of `items` under the key of `p` and `q`, each made with
/// the contract's randomness.
pub open spec fn summary_ciphertexts(p: nat, q: nat, items: Seq<u128>) -> Seq<u128> {
    sent(
        items,
        witnesses(items.len()),
        PublicKey { n: (p * q) as u128, g: (p * q + 1) as u128 },
    )
}

/// The digest that an encrypted summary stores: the SHA-256 digest, in
/// hexadecimal, of the ciphertexts written in base ten with single spaces
/// between them.
pub open spec fn summary_digest(p: nat, q: nat, items: Seq<u128>) -> Seq<char> {
    hex_of(sha256_digest(joined(summary_ciphertexts(p, q, items))))
}

/// The state after `action` with `payload`, or why the action is refused.
///
/// The payload is a list of numbers. `PostRoot` appends the Merkle root of
/// the list. `AddEncryption` takes the two leading numbers for `p` and `q`,
/// the rest for the items, and overwrites the stored digest.
pub open spec fn transition(state: MeetupView, action: MeetupAction, payload: Seq<u8>) -> Result<
    MeetupView,
    PsiError,
> {
    match numbers_of(payload) {
        None => Err(PsiError::MalformedPayload),
        Some(numbers) => match action {
            MeetupAction::PostRoot => Ok(
                MeetupView {
                    merkle_roots: state.merkle_roots.push(merkle_root(numbers)),
                    encrypted_message_hash: state.encrypted_message_hash,
                },
            ),
            MeetupAction::AddEncryption => if numbers.len() < 2 {
                Err(PsiError::MalformedPayload)
            } else {
                let p = numbers[0] as nat;
                let q = numbers[1] as nat;
                let items = numbers.skip(2);
                match key_failure(p, q) {
                    Some(e) => Err(e),
                    None => match encryptions_failure(items, witnesses(items.len()), p * q) {
                        Some(e) => Err(e),
                        None => Ok(
                            MeetupView {
                                merkle_roots: state.merkle_roots,
                                encrypted_message_hash: summary_digest(p, q, items),
                            },
                        ),
                    },
                }
            },
        },
    }
}

/// What a transition reports of the state it leaves: the oldest committed
/// root, or that there is none.
pub open spec fn report(state: MeetupView) -> Seq<char> {
    if state.merkle_roots.len() > 0 {
        "new value: "@ + decimal_chars(state.merkle_roots[0] as nat)
    } else {
        "new value: none"@
    }
}

/// The roots are only ever appended to, and the digest only ever
/// overwritten: an accepted `PostRoot` adds one root behind those that were
/// there and leaves the digest, and an accepted `AddEncryption` leaves the
/// roots.
pub proof fn lemma_roots_append_only(state: MeetupView, action: MeetupAction, payload: Seq<u8>)
    requires
        transition(state, action, payload) is Ok,
    ensures
        ({
            let next = transition(state, action, payload)->Ok_0;
            &&& state.merkle_roots.is_prefix_of(next.merkle_roots)
            &&& action == MeetupAction::PostRoot ==> next.merkle_roots.len()
                == state.merkle_roots.len() + 1 && next.encrypted_message_hash
                == state.encrypted_message_hash
            &&& action == MeetupAction::AddEncryption ==> next.merkle_roots == state.merkle_roots
        }),
{
    let next = transition(state, action, payload)->Ok_0;
    assert(next.merkle_roots.take(state.merkle_roots.len() as int) =~= state.merkle_roots);
}

impl Meetup {
    /// The state of a contract that was just registered: no roots, no digest.
    pub fn new() -> (state: Meetup)
        ensures
            state@.merkle_roots.len() == 0,
            state@.encrypted_message_hash.len() == 0,
    {
        Meetup { merkle_roots: Vec::new(), encrypted_message_hash: String::new() }
    }

    /// Applies `action` with `private_input` as its payload, and reports the
    /// state it leaves. A refused action leaves the state as it was.
    pub fn execute(&mut self, action: &MeetupAction, private_input: &Vec<u8>) -> (res: Result<
        String,
        PsiError,
    >)
        ensures
            match res {
                Ok(output) => transition(old(self)@, *action, private_input@) == Ok::<
                    MeetupView,
                    PsiError,
                >(final(self)@) && output@ == report(final(self)@),
                Err(e) => transition(old(self)@, *action, private_input@) == Err::<
                    MeetupView,
                    PsiError,
                >(e) && *final(self) == *old(self),
            },
    {
        let numbers = match parse_numbers(private_input) {
            Ok(numbers) => numbers,
            Err(e) => {
                return Err(e);
            },
        };
        proof {
            lemma_fields_nonempty(private_input@);
        }
        match action {
            MeetupAction::PostRoot => {
                let root = match create_merkle_tree(&numbers) {
                    Ok(root) => root,
                    Err(e) => {
                        return Err(e);
                    },
                };
                self.merkle_roots.push(root);
            },
            MeetupAction::AddEncryption => {
                if numbers.len() < 2 {
                    return Err(PsiError::MalformedPayload);
                }
                let (pk, _sk) = match prepare_key(numbers[0], numbers[1]) {
                    Ok(keys) => keys,
                    Err(e) => {
                        return Err(e);
                    },
                };
                let mut items: Vec<u128> = Vec::new();
                let mut randomness: Vec<u128> = Vec::new();
                let mut i: usize = 2;
                while i < numbers.len()
                    invariant
                        2 <= i <= numbers.len(),
                        items@ == numbers@.subrange(2, i as int),
                        randomness@ == witnesses((i - 2) as nat),
                    decreases numbers.len() - i,
                {
                    items.push(numbers[i]);
                    randomness.push(ENCRYPTION_WITNESS);
                    proof {
                        assert(items@ =~= numbers@.subrange(2, i + 1));
                        assert(randomness@ =~= witnesses((i + 1 - 2) as nat));
                    }
                    i += 1;
                }
                proof {
                    assert(items@ =~= numbers@.skip(2));
                }
                let encrypted = match encrypt_batch(&items, &pk, &randomness) {
                    Ok(encrypted) => encrypted,
                    Err(e) => {
                        return Err(e);
                    },
                };
                proof {
                    assert(encrypted@ =~= summary_ciphertexts(
                        numbers@[0] as nat,
                        numbers@[1] as nat,
                        items@,
                    ));
                }
                let text = join_numbers(&encrypted);
                let digest = sha256(&text);
                self.encrypted_message_hash = hex(&digest);
            },
        }
        let mut output: String;
        if self.merkle_roots.len() > 0 {
            output = String::from_str("new value: ");
            append_decimal(&mut output, self.merkle_roots[0]);
        } else {
            output = String::from_str("new value: none");
        }
        Ok(output)
    }
}

} // verus!
