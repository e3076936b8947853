//! Answered questions, their tokens, and a whole run of the matching
//! protocol between two lists of them.

use crate::error::PsiError;
use crate::modular::lcm_of;
use crate::number_theory::prime::is_prime;
use crate::paillier::laws::lemma_key_pair_facts;
use crate::paillier::{key_failure, key_of, prepare_key};
use crate::psi::laws::lemma_matches_are_equal_items;
use crate::psi::{
    client_find_intersection, decryptions_fail, encrypt_batch, encryptions_failure, match_flags,
    responses_failure, returned, sent, server_code_batch,
};
use vstd::prelude::*;

verus! {

/// The base of the token encoding: every answer is below it.
pub const TOKEN_BASE: u128 = 5;

/// One answered question: which question, and which of its answers.
#[derive(Clone, Copy, Debug, PartialEq, Eq, Structural)]
pub struct AnsweredQuestions {
    pub id: u128,
    pub answer_id: u128,
}

/// The token of an answered question: `id * TOKEN_BASE + answer_id`.
pub open spec fn token_of(item: AnsweredQuestions) -> nat {
    (item.id * TOKEN_BASE + item.answer_id) as nat
}

/// Whether an answered question has no token: its answer is not below the
/// base, or the token does not fit in 128 bits.
pub open spec fn token_failure(item: AnsweredQuestions) -> bool {
    item.answer_id >= TOKEN_BASE || token_of(item) > u128::MAX
}

/// Whether some item of a sequence has no token.
pub open spec fn tokens_fail(items: Seq<AnsweredQuestions>) -> bool {
    exists|k: int| 0 <= k < items.len() && #[trigger] token_failure(items[k])
}

/// The tokens of a sequence of answered questions.
pub open spec fn tokens_of(items: Seq<AnsweredQuestions>) -> Seq<u128> {
    Seq::new(items.len(), |i: int| token_of(items[i]) as u128)
}

/// The items whose flag is set, in order; none where the flags are not as
/// many as the items.
pub open spec fn selected(items: Seq<AnsweredQuestions>, flags: Seq<bool>) -> Seq<
    AnsweredQuestions,
>
    decreases items.len(),
{
    if items.len() == 0 || flags.len() != items.len() {
        Seq::empty()
    } else {
        let rest = selected(items.drop_last(), flags.drop_last());
        if flags.last() {
            rest.push(items.last())
        } else {
            rest
        }
    }
}

/// What the responder returns in a whole run of the protocol, in which the
/// initiator holds `theirs` and the responder `mine`.
pub open spec fn run_responses(
    mine: Seq<AnsweredQuestions>,
    theirs: Seq<AnsweredQuestions>,
    p: nat,
    q: nat,
    their_randomness: Seq<u128>,
    my_randomness: Seq<u128>,
) -> Seq<u128> {
    let pk = key_of(p, q).0;
    returned(sent(tokens_of(theirs), their_randomness, pk), tokens_of(mine), my_randomness, pk)
}

/// Why a whole run of the protocol fails, if it does: the first step that
/// fails decides.
pub open spec fn run_failure(
    mine: Seq<AnsweredQuestions>,
    theirs: Seq<AnsweredQuestions>,
    p: nat,
    q: nat,
    their_randomness: Seq<u128>,
    my_randomness: Seq<u128>,
) -> Option<PsiError> {
    let (pk, sk) = key_of(p, q);
    if tokens_fail(mine) || tokens_fail(theirs) {
        Some(PsiError::Range)
    } else {
        match key_failure(p, q) {
            Some(e) => Some(e),
            None => match encryptions_failure(tokens_of(theirs), their_randomness, pk.n as nat) {
                Some(e) => Some(e),
                None => match responses_failure(
                    sent(tokens_of(theirs), their_randomness, pk),
                    tokens_of(mine),
                    my_randomness,
                    pk.n as nat,
                ) {
                    Some(e) => Some(e),
                    None => if decryptions_fail(
                        run_responses(mine, theirs, p, q, their_randomness, my_randomness),
                        sk.n as nat,
                        sk.lambda as nat,
                    ) {
                        Some(PsiError::Range)
                    } else {
                        None
                    },
                },
            },
        }
    }
}

/// The token encoding is injective: two answered questions that have
/// tokens, and the same token, are the same.
pub proof fn lemma_token_injective(a: AnsweredQuestions, b: AnsweredQuestions)
    requires
        !token_failure(a),
        !token_failure(b),
        token_of(a) == token_of(b),
    ensures
        a == b,
{
}

/// The token of an answered question.
pub fn encode_token(item: &AnsweredQuestions) -> (res: Result<u128, PsiError>)
    ensures
        match res {
            Ok(t) => !token_failure(*item) && t == token_of(*item),
            Err(e) => e == PsiError::Range && token_failure(*item),
        },
{
    if item.answer_id >= TOKEN_BASE {
        return Err(PsiError::Range);
    }
    match item.id.checked_mul(TOKEN_BASE) {
        Some(scaled) => match scaled.checked_add(item.answer_id) {
            Some(t) => Ok(t),
            None => Err(PsiError::Range),
        },
        None => Err(PsiError::Range),
    }
}

/// The tokens of a sequence of answered questions.
pub fn encode_tokens(items: &Vec<AnsweredQuestions>) -> (res: Result<Vec<u128>, PsiError>)
    ensures
        match res {
            Ok(v) => !tokens_fail(items@) && v@ == tokens_of(items@),
            Err(e) => e == PsiError::Range && tokens_fail(items@),
        },
{
    let mut out: Vec<u128> = Vec::new();
    let mut i: usize = 0;
    while i < items.len()
        invariant
            i <= items.len(),
            out@.len() == i,
            forall|j: int| 0 <= j < i ==> !#[trigger] token_failure(items@[j]),
            forall|j: int| 0 <= j < i ==> #[trigger] out@[j] == token_of(items@[j]),
        decreases items.len() - i,
    {
        match encode_token(&items[i]) {
            Ok(t) => {
                out.push(t);
            },
            Err(e) => {
                assert(token_failure(items@[i as int]));
                return Err(e);
            },
        }
        i += 1;
    }
    proof {
        assert(out@ =~= tokens_of(items@));
    }
    Ok(out)
}

/// The items whose flag is set, in order; none where the flags are not as
/// many as the items.
pub fn select(items: &Vec<AnsweredQuestions>, flags: &Vec<bool>) -> (out: Vec<AnsweredQuestions>)
    ensures
        out@ == selected(items@, flags@),
{
    let mut out: Vec<AnsweredQuestions> = Vec::new();
    if items.len() != flags.len() {
        return out;
    }
    let mut i: usize = 0;
    while i < items.len()
        invariant
            i <= items.len(),
            items.len() == flags.len(),
            out@ == selected(items@.take(i as int), flags@.take(i as int)),
        decreases items.len() - i,
    {
        proof {
            assert(items@.take(i + 1).drop_last() =~= items@.take(i as int));
            assert(flags@.take(i + 1).drop_last() =~= flags@.take(i as int));
        }
        if flags[i] {
            out.push(items[i]);
        }
        i += 1;
    }
    proof {
        assert(items@.take(items.len() as int) =~= items@);
        assert(flags@.take(flags.len() as int) =~= flags@);
    }
    out
}

/// A whole run of the protocol in one place. The initiator's items `theirs`
/// are encrypted under the key pair of `p` and `q`, the responder answers
/// with its own items `mine`, and the key holder decrypts; what comes back
/// are the items of `mine` at the indices reported as matches.
///
/// Where `p` and `q` are prime, those are the indices at which the two
/// parties gave the same answer to the same question.
pub fn shared_interests(
    mine: &Vec<AnsweredQuestions>,
    theirs: &Vec<AnsweredQuestions>,
    p: u128,
    q: u128,
    their_randomness: &Vec<u128>,
    my_randomness: &Vec<u128>,
) -> (res: Result<Vec<AnsweredQuestions>, PsiError>)
    ensures
        match res {
            Ok(found) => {
                &&& run_failure(
                    mine@,
                    theirs@,
                    p as nat,
                    q as nat,
                    their_randomness@,
                    my_randomness@,
                ) is None
                &&& found@ == selected(
                    mine@,
                    match_flags(
                        run_responses(
                            mine@,
                            theirs@,
                            p as nat,
                            q as nat,
                            their_randomness@,
                            my_randomness@,
                        ),
                        key_of(p as nat, q as nat).1,
                    ),
                )
                &&& is_prime(p as nat) && is_prime(q as nat) ==> found@ == selected(
                    mine@,
                    Seq::new(mine@.len(), |i: int| mine@[i] == theirs@[i]),
                )
            },
            Err(e) => run_failure(
                mine@,
                theirs@,
                p as nat,
                q as nat,
                their_randomness@,
                my_randomness@,
            ) == Some(e),
        },
{
    let my_tokens = match encode_tokens(mine) {
        Ok(t) => t,
        Err(e) => {
            return Err(e);
        },
    };
    let their_tokens = match encode_tokens(theirs) {
        Ok(t) => t,
        Err(e) => {
            return Err(e);
        },
    };
    let (pk, sk) = match prepare_key(p, q) {
        Ok(keys) => keys,
        Err(e) => {
            return Err(e);
        },
    };
    let c_x = match encrypt_batch(&their_tokens, &pk, their_randomness) {
        Ok(c) => c,
        Err(e) => {
            return Err(e);
        },
    };
    let responses = match server_code_batch(&my_tokens, &c_x, &pk, my_randomness) {
        Ok(r) => r,
        Err(e) => {
            return Err(e);
        },
    };
    let flags = match client_find_intersection(&responses, &sk) {
        Ok(f) => f,
        Err(e) => {
            return Err(e);
        },
    };
    proof {
        if is_prime(p as nat) && is_prime(q as nat) {
            lemma_run_flags(
                mine@,
                theirs@,
                p as nat,
                q as nat,
                their_randomness@,
                my_randomness@,
            );
        }
    }
    Ok(select(mine, &flags))
}

/// In a run under the key pair of two primes in which both sides could
/// encrypt, no decryption fails, and a match is reported exactly where the
/// two parties hold the same answered question.
pub proof fn lemma_run_flags(
    mine: Seq<AnsweredQuestions>,
    theirs: Seq<AnsweredQuestions>,
    p: nat,
    q: nat,
    their_randomness: Seq<u128>,
    my_randomness: Seq<u128>,
)
    requires
        is_prime(p),
        is_prime(q),
        !tokens_fail(mine),
        !tokens_fail(theirs),
        key_failure(p, q) is None,
        encryptions_failure(tokens_of(theirs), their_randomness, p * q) is None,
        responses_failure(
            sent(tokens_of(theirs), their_randomness, key_of(p, q).0),
            tokens_of(mine),
            my_randomness,
            p * q,
        ) is None,
    ensures
        mine.len() == theirs.len(),
        !decryptions_fail(
            run_responses(mine, theirs, p, q, their_randomness, my_randomness),
            p * q,
            lcm_of((p - 1) as nat, (q - 1) as nat),
        ),
        match_flags(
            run_responses(mine, theirs, p, q, their_randomness, my_randomness),
            key_of(p, q).1,
        ) == Seq::new(mine.len(), |i: int| mine[i] == theirs[i]),
{
    let n = p * q;
    let lambda = lcm_of((p - 1) as nat, (q - 1) as nat);
    let (pk, sk) = key_of(p, q);
    lemma_key_pair_facts(p, q, pk, sk);
    let xs = tokens_of(theirs);
    let ys = tokens_of(mine);
    lemma_matches_are_equal_items(p, q, pk, sk, xs, their_randomness, ys, my_randomness);
    let flags = match_flags(
        run_responses(mine, theirs, p, q, their_randomness, my_randomness),
        sk,
    );
    assert forall|i: int| 0 <= i < mine.len() implies flags[i] == (mine[i] == theirs[i]) by {
        assert(!token_failure(mine[i]));
        assert(!token_failure(theirs[i]));
        if xs[i] == ys[i] {
            lemma_token_injective(mine[i], theirs[i]);
        }
    }
    assert(flags =~= Seq::new(mine.len(), |i: int| mine[i] == theirs[i]));
}

} // verus!
