//! Index-aligned private set intersection on Paillier ciphertexts.

use crate::error::PsiError;
use crate::modular::{mod_exp, mul_mod};
use crate::paillier::{
    decrypt, decrypt_failure, decryption, encrypt, encrypt_failure, encryption, PrivateKey,
    PublicKey,
};
use vstd::arithmetic::power::pow;
use vstd::prelude::*;

pub mod laws;

verus! {

/// `c^(n - 1) mod n^2`: the ciphertext of the negated message.
pub open spec fn inverted(c: nat, n: nat) -> nat {
    (pow(c as int, (n - 1) as nat) % ((n * n) as int)) as nat
}

/// What the responder returns for one index: the initiator's ciphertext `cx`
/// times the inverted ciphertext of the responder's own item `y`, modulo `n^2`.
pub open spec fn masked_difference(cx: nat, y: nat, r: nat, n: nat, g: nat) -> nat {
    (cx * inverted(encryption(y, r, n, g), n)) % (n * n)
}

/// Why the responder cannot answer for one index, if it cannot: its own item
/// cannot be encrypted, or the ciphertext it was sent is not below `n^2`.
pub open spec fn response_failure(cx: nat, y: nat, r: nat, n: nat) -> Option<PsiError> {
    match encrypt_failure(y, r, n) {
        Some(e) => Some(e),
        None => if cx >= n * n {
            Some(PsiError::Range)
        } else {
            None
        },
    }
}

/// Whether the key holder reports a match for a returned ciphertext: it
/// decrypts to 0.
pub open spec fn reports_match(c: nat, sk: PrivateKey) -> bool {
    decryption(c, sk.n as nat, sk.lambda as nat, sk.mu as nat) == 0
}

/// Why a batch of items cannot be encrypted, if it cannot: the items and the
/// randomness differ in number, or else what the first failing index gives.
pub open spec fn encryptions_failure(items: Seq<u128>, randomness: Seq<u128>, n: nat) -> Option<
    PsiError,
>
    decreases items.len(),
{
    if items.len() != randomness.len() {
        Some(PsiError::Alignment)
    } else if items.len() == 0 {
        None
    } else {
        match encryptions_failure(items.drop_last(), randomness.drop_last(), n) {
            Some(e) => Some(e),
            None => encrypt_failure(items.last() as nat, randomness.last() as nat, n),
        }
    }
}

/// Why the responder cannot answer a batch, if it cannot: the three sequences
/// differ in length, or else what the first failing index gives.
pub open spec fn responses_failure(
    c_x: Seq<u128>,
    y_secret: Seq<u128>,
    randomness: Seq<u128>,
    n: nat,
) -> Option<PsiError>
    decreases c_x.len(),
{
    if c_x.len() != y_secret.len() || c_x.len() != randomness.len() {
        Some(PsiError::Alignment)
    } else if c_x.len() == 0 {
        None
    } else {
        match responses_failure(c_x.drop_last(), y_secret.drop_last(), randomness.drop_last(), n) {
            Some(e) => Some(e),
            None => response_failure(
                c_x.last() as nat,
                y_secret.last() as nat,
                randomness.last() as nat,
                n,
            ),
        }
    }
}

/// What the initiator sends: the ciphertext of each item, made with the
/// randomness of the same index.
pub open spec fn sent(items: Seq<u128>, randomness: Seq<u128>, pk: PublicKey) -> Seq<u128> {
    Seq::new(
        items.len(),
        |i: int|
            encryption(items[i] as nat, randomness[i] as nat, pk.n as nat, pk.g as nat) as u128,
    )
}

/// What the responder returns: the masked difference at each index.
pub open spec fn returned(
    c_x: Seq<u128>,
    y_secret: Seq<u128>,
    randomness: Seq<u128>,
    pk: PublicKey,
) -> Seq<u128> {
    Seq::new(
        c_x.len(),
        |i: int|
            masked_difference(
                c_x[i] as nat,
                y_secret[i] as nat,
                randomness[i] as nat,
                pk.n as nat,
                pk.g as nat,
            ) as u128,
    )
}

/// Whether the key holder reports a match, index by index.
pub open spec fn match_flags(responses: Seq<u128>, sk: PrivateKey) -> Seq<bool> {
    Seq::new(responses.len(), |i: int| reports_match(responses[i] as nat, sk))
}

/// Whether some ciphertext of a batch cannot be decrypted.
pub open spec fn decryptions_fail(c_y: Seq<u128>, n: nat, lambda: nat) -> bool {
    exists|k: int| 0 <= k < c_y.len() && #[trigger] decrypt_failure(c_y[k] as nat, n, lambda)
}

/// Inverts a ciphertext under modulus `n`: raises it to the power `n - 1`
/// modulo `n^2`.
pub fn invert_cipher(c: u128, n: u128) -> (r: Result<u128, PsiError>)
    ensures
        match r {
            Ok(v) => n > 0 && n * n <= u128::MAX && v == inverted(c as nat, n as nat) && v < n * n,
            Err(e) => e == PsiError::Range && (n == 0 || n * n > u128::MAX),
        },
{
    if n == 0 {
        return Err(PsiError::Range);
    }
    match n.checked_mul(n) {
        Some(n_sq) => {
            proof {
                assert(n_sq > 0) by (nonlinear_arith)
                    requires
                        n > 0,
                        n_sq == n * n,
                ;
            }
            Ok(mod_exp(c, n - 1, n_sq))
        },
        None => Err(PsiError::Range),
    }
}

/// The responder's answer for one index: encrypts its own item `y` with
/// randomness `r`, inverts that ciphertext, and multiplies the initiator's
/// ciphertext `cx` by it.
pub fn server_code(y: u128, cx: u128, pk: &PublicKey, r: u128) -> (res: Result<u128, PsiError>)
    ensures
        match res {
            Ok(v) => response_failure(cx as nat, y as nat, r as nat, pk.n as nat) is None && v
                == masked_difference(cx as nat, y as nat, r as nat, pk.n as nat, pk.g as nat),
            Err(e) => response_failure(cx as nat, y as nat, r as nat, pk.n as nat) == Some(e),
        },
{
    let cy: u128 = match encrypt(y, pk, r) {
        Ok(c) => c,
        Err(e) => {
            return Err(e);
        },
    };
    let n: u128 = pk.n;
    let n_sq: u128 = n * n;
    if cx >= n_sq {
        return Err(PsiError::Range);
    }
    match invert_cipher(cy, n) {
        Ok(inv) => Ok(mul_mod(cx, inv, n_sq)),
        Err(e) => Err(e),
    }
}

/// The initiator's first step: encrypts each item under the responder's
/// public key, with the randomness of the same index.
pub fn encrypt_batch(items: &Vec<u128>, pk: &PublicKey, randomness: &Vec<u128>) -> (res: Result<
    Vec<u128>,
    PsiError,
>)
    ensures
        match res {
            Ok(v) => encryptions_failure(items@, randomness@, pk.n as nat) is None && v@ == sent(
                items@,
                randomness@,
                *pk,
            ),
            Err(e) => encryptions_failure(items@, randomness@, pk.n as nat) == Some(e),
        },
{
    if items.len() != randomness.len() {
        return Err(PsiError::Alignment);
    }
    let m: usize = items.len();
    let mut result: Vec<u128> = Vec::new();
    let mut i: usize = 0;
    while i < m
        invariant
            i <= m,
            m == items.len(),
            m == randomness.len(),
            result.len() == i,
            encryptions_failure(items@.take(i as int), randomness@.take(i as int), pk.n as nat)
                is None,
            forall|j: int|
                0 <= j < i ==> #[trigger] result@[j] == encryption(
                    items@[j] as nat,
                    randomness@[j] as nat,
                    pk.n as nat,
                    pk.g as nat,
                ),
        decreases m - i,
    {
        proof {
            assert(items@.take(i + 1).drop_last() =~= items@.take(i as int));
            assert(randomness@.take(i + 1).drop_last() =~= randomness@.take(i as int));
            if i + 1 == m {
                assert(items@.take(i + 1) =~= items@);
                assert(randomness@.take(i + 1) =~= randomness@);
            }
        }
        match encrypt(items[i], pk, randomness[i]) {
            Ok(c) => {
                result.push(c);
            },
            Err(e) => {
                proof {
                    lemma_encryptions_failure_extends(
                        items@,
                        randomness@,
                        pk.n as nat,
                        i + 1,
                    );
                }
                return Err(e);
            },
        }
        i += 1;
    }
    proof {
        assert(items@.take(m as int) =~= items@);
        assert(randomness@.take(m as int) =~= randomness@);
        assert(result@ =~= sent(items@, randomness@, *pk));
    }
    Ok(result)
}

/// A failure within the first `k` indices is the failure of the whole batch.
proof fn lemma_encryptions_failure_extends(
    items: Seq<u128>,
    randomness: Seq<u128>,
    n: nat,
    k: int,
)
    requires
        items.len() == randomness.len(),
        0 <= k <= items.len(),
        encryptions_failure(items.take(k), randomness.take(k), n) is Some,
    ensures
        encryptions_failure(items, randomness, n) == encryptions_failure(
            items.take(k),
            randomness.take(k),
            n,
        ),
    decreases items.len() - k,
{
    if k < items.len() {
        assert(items.take(k + 1).drop_last() =~= items.take(k));
        assert(randomness.take(k + 1).drop_last() =~= randomness.take(k));
        lemma_encryptions_failure_extends(items, randomness, n, k + 1);
    } else {
        assert(items.take(k) =~= items);
        assert(randomness.take(k) =~= randomness);
    }
}

/// A failure within the first `k` indices is the failure of the whole batch.
proof fn lemma_responses_failure_extends(
    c_x: Seq<u128>,
    y_secret: Seq<u128>,
    randomness: Seq<u128>,
    n: nat,
    k: int,
)
    requires
        c_x.len() == y_secret.len(),
        c_x.len() == randomness.len(),
        0 <= k <= c_x.len(),
        responses_failure(c_x.take(k), y_secret.take(k), randomness.take(k), n) is Some,
    ensures
        responses_failure(c_x, y_secret, randomness, n) == responses_failure(
            c_x.take(k),
            y_secret.take(k),
            randomness.take(k),
            n,
        ),
    decreases c_x.len() - k,
{
    if k < c_x.len() {
        assert(c_x.take(k + 1).drop_last() =~= c_x.take(k));
        assert(y_secret.take(k + 1).drop_last() =~= y_secret.take(k));
        assert(randomness.take(k + 1).drop_last() =~= randomness.take(k));
        lemma_responses_failure_extends(c_x, y_secret, randomness, n, k + 1);
    } else {
        assert(c_x.take(k) =~= c_x);
        assert(y_secret.take(k) =~= y_secret);
        assert(randomness.take(k) =~= randomness);
    }
}

/// The responder's side of the protocol. For each index it answers with
/// `server_code` on its own item, the ciphertext it was sent and the
/// randomness for that index. The three sequences must have one length; the
/// first index that fails decides the error.
pub fn server_code_batch(
    y_secret: &Vec<u128>,
    c_x: &Vec<u128>,
    pk: &PublicKey,
    randomness: &Vec<u128>,
) -> (res: Result<Vec<u128>, PsiError>)
    ensures
        match res {
            Ok(v) => responses_failure(c_x@, y_secret@, randomness@, pk.n as nat) is None && v@
                == returned(c_x@, y_secret@, randomness@, *pk),
            Err(e) => responses_failure(c_x@, y_secret@, randomness@, pk.n as nat) == Some(e),
        },
{
    if y_secret.len() != c_x.len() || y_secret.len() != randomness.len() {
        return Err(PsiError::Alignment);
    }
    let m: usize = c_x.len();
    let mut result: Vec<u128> = Vec::new();
    let mut i: usize = 0;
    while i < m
        invariant
            i <= m,
            m == c_x.len(),
            m == y_secret.len(),
            m == randomness.len(),
            result.len() == i,
            responses_failure(
                c_x@.take(i as int),
                y_secret@.take(i as int),
                randomness@.take(i as int),
                pk.n as nat,
            ) is None,
            forall|j: int|
                0 <= j < i ==> #[trigger] result@[j] == masked_difference(
                    c_x@[j] as nat,
                    y_secret@[j] as nat,
                    randomness@[j] as nat,
                    pk.n as nat,
                    pk.g as nat,
                ),
        decreases m - i,
    {
        proof {
            assert(c_x@.take(i + 1).drop_last() =~= c_x@.take(i as int));
            assert(y_secret@.take(i + 1).drop_last() =~= y_secret@.take(i as int));
            assert(randomness@.take(i + 1).drop_last() =~= randomness@.take(i as int));
        }
        match server_code(y_secret[i], c_x[i], pk, randomness[i]) {
            Ok(v) => {
                result.push(v);
            },
            Err(e) => {
                proof {
                    lemma_responses_failure_extends(
                        c_x@,
                        y_secret@,
                        randomness@,
                        pk.n as nat,
                        i + 1,
                    );
                }
                return Err(e);
            },
        }
        i += 1;
    }
    proof {
        assert(c_x@.take(m as int) =~= c_x@);
        assert(y_secret@.take(m as int) =~= y_secret@);
        assert(randomness@.take(m as int) =~= randomness@);
        assert(result@ =~= returned(c_x@, y_secret@, randomness@, *pk));
    }
    Ok(result)
}

/// The key holder's side of the protocol: decrypts each returned ciphertext
/// and reports a match where the plaintext is 0. A ciphertext that cannot be
/// decrypted is out of range.
pub fn client_find_intersection(c_y: &Vec<u128>, sk: &PrivateKey) -> (res: Result<
    Vec<bool>,
    PsiError,
>)
    ensures
        match res {
            Ok(v) => !decryptions_fail(c_y@, sk.n as nat, sk.lambda as nat) && v@ == match_flags(
                c_y@,
                *sk,
            ),
            Err(e) => e == PsiError::Range && decryptions_fail(
                c_y@,
                sk.n as nat,
                sk.lambda as nat,
            ),
        },
{
    let mut result: Vec<bool> = Vec::new();
    let mut i: usize = 0;
    while i < c_y.len()
        invariant
            i <= c_y.len(),
            result.len() == i,
            forall|j: int|
                0 <= j < i ==> !#[trigger] decrypt_failure(
                    c_y@[j] as nat,
                    sk.n as nat,
                    sk.lambda as nat,
                ),
            forall|j: int|
                0 <= j < i ==> #[trigger] result@[j] == reports_match(c_y@[j] as nat, *sk),
        decreases c_y.len() - i,
    {
        match decrypt(c_y[i], sk) {
            Ok(m) => {
                result.push(m == 0);
            },
            Err(e) => {
                assert(decrypt_failure(c_y@[i as int] as nat, sk.n as nat, sk.lambda as nat));
                return Err(e);
            },
        }
        i += 1;
    }
    proof {
        assert(result@ =~= match_flags(c_y@, *sk));
    }
    Ok(result)
}

/// Where a batch could be encrypted, every index could.
pub proof fn lemma_encryptions_succeed(items: Seq<u128>, randomness: Seq<u128>, n: nat, k: int)
    requires
        encryptions_failure(items, randomness, n) is None,
        0 <= k < items.len(),
    ensures
        items.len() == randomness.len(),
        encrypt_failure(items[k] as nat, randomness[k] as nat, n) is None,
    decreases items.len(),
{
    if k < items.len() - 1 {
        lemma_encryptions_succeed(items.drop_last(), randomness.drop_last(), n, k);
    }
}

/// Where a batch could be answered, every index could.
pub proof fn lemma_responses_succeed(
    c_x: Seq<u128>,
    y_secret: Seq<u128>,
    randomness: Seq<u128>,
    n: nat,
    k: int,
)
    requires
        responses_failure(c_x, y_secret, randomness, n) is None,
        0 <= k < c_x.len(),
    ensures
        c_x.len() == y_secret.len(),
        c_x.len() == randomness.len(),
        response_failure(c_x[k] as nat, y_secret[k] as nat, randomness[k] as nat, n) is None,
    decreases c_x.len(),
{
    if k < c_x.len() - 1 {
        lemma_responses_succeed(
            c_x.drop_last(),
            y_secret.drop_last(),
            randomness.drop_last(),
            n,
            k,
        );
    }
}

/// A batch that could be answered has three sequences of one length.
pub proof fn lemma_responses_aligned(
    c_x: Seq<u128>,
    y_secret: Seq<u128>,
    randomness: Seq<u128>,
    n: nat,
)
    requires
        responses_failure(c_x, y_secret, randomness, n) is None,
    ensures
        c_x.len() == y_secret.len(),
        c_x.len() == randomness.len(),
{
}

} // verus!
