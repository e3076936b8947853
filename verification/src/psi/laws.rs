//! Why the protocol reports the equal items, and only those.

use crate::number_theory::gcd::coprime;
use crate::number_theory::prime::is_prime;
use crate::paillier::laws::{
    lemma_carried_decrypts, lemma_carries_power, lemma_carries_product, lemma_encryption_carries,
    lemma_key_pair_facts, lemma_mask_power, lemma_mask_product, lemma_randomness_masks,
};
use crate::paillier::{
    decrypt_failure, decryption, encryption, key_pair, PrivateKey, PublicKey,
};
use crate::psi::{
    decryptions_fail, encryptions_failure, inverted, lemma_encryptions_succeed,
    lemma_responses_aligned, lemma_responses_succeed, masked_difference, match_flags,
    reports_match, responses_failure, returned, sent,
};
use vstd::arithmetic::div_mod::{
    lemma_mod_add_multiples_vanish, lemma_mod_multiples_vanish, lemma_small_mod,
};
use vstd::arithmetic::power::pow;
use vstd::prelude::*;

verus! {

/// The indices at which a flag is set.
pub open spec fn flagged(flags: Seq<bool>) -> Set<int> {
    Set::new(|i: int| 0 <= i < flags.len() && flags[i])
}

/// What the responder returns for one index is the ciphertext of the
/// difference: under the key pair of two primes it decrypts to
/// `(x - y) mod n`, which is 0 exactly when the two items are equal.
pub proof fn lemma_difference_decrypts(
    p: nat,
    q: nat,
    pk: PublicKey,
    sk: PrivateKey,
    x: nat,
    rx: nat,
    y: nat,
    ry: nat,
)
    requires
        is_prime(p),
        is_prime(q),
        key_pair(p, q, pk, sk),
        x < pk.n,
        y < pk.n,
        coprime(rx, pk.n as nat),
        coprime(ry, pk.n as nat),
    ensures
        ({
            let n = pk.n as nat;
            let c = masked_difference(encryption(x, rx, n, pk.g as nat), y, ry, n, pk.g as nat);
            &&& !decrypt_failure(c, n, sk.lambda as nat)
            &&& decryption(c, n, sk.lambda as nat, sk.mu as nat) == (x - y) % (n as int)
            &&& reports_match(c, sk) <==> x == y
        }),
{
    let n = pk.n as nat;
    let ni = n as int;
    let lambda = sk.lambda as nat;
    let k = (n - 1) as nat;
    lemma_key_pair_facts(p, q, pk, sk);
    let cx = encryption(x, rx, n, n + 1);
    let cy = encryption(y, ry, n, n + 1);
    let mx = pow(rx as int, n);
    let my = pow(ry as int, n);
    lemma_encryption_carries(x, rx, n);
    lemma_encryption_carries(y, ry, n);
    lemma_randomness_masks(p, q, rx, lambda);
    lemma_randomness_masks(p, q, ry, lambda);
    lemma_carries_power(cy, y, my, k, n);
    lemma_mask_power(my, k, n, lambda);
    let inv = inverted(cy, n);
    lemma_carries_product(cx, x, mx, inv, y * k, pow(my, k), n);
    lemma_mask_product(mx, pow(my, k), n, lambda);
    let c = (cx * inv) % (n * n);
    lemma_carried_decrypts(c, x + y * k, mx * pow(my, k), n, lambda, sk.mu as nat);
    assert(x + y * k == ni * y + (x - y)) by (nonlinear_arith)
        requires
            k == n - 1,
            ni == n,
    ;
    lemma_mod_multiples_vanish(y as int, x - y, ni);
    if x >= y {
        lemma_small_mod((x - y) as nat, n);
    } else {
        lemma_mod_add_multiples_vanish(x - y, ni);
        lemma_small_mod((n + x - y) as nat, n);
    }
}

/// The protocol is correct. Under the key pair of two primes, where the
/// initiator could encrypt its items `xs` and the responder could answer
/// with its items `ys`, every returned ciphertext can be decrypted, and the
/// indices reported as matches are exactly those at which the two parties
/// hold the same item.
pub proof fn lemma_matches_are_equal_items(
    p: nat,
    q: nat,
    pk: PublicKey,
    sk: PrivateKey,
    xs: Seq<u128>,
    rxs: Seq<u128>,
    ys: Seq<u128>,
    rys: Seq<u128>,
)
    requires
        is_prime(p),
        is_prime(q),
        key_pair(p, q, pk, sk),
        encryptions_failure(xs, rxs, pk.n as nat) is None,
        responses_failure(sent(xs, rxs, pk), ys, rys, pk.n as nat) is None,
    ensures
        xs.len() == ys.len(),
        !decryptions_fail(returned(sent(xs, rxs, pk), ys, rys, pk), sk.n as nat, sk.lambda as nat),
        match_flags(returned(sent(xs, rxs, pk), ys, rys, pk), sk) == Seq::new(
            xs.len(),
            |i: int| xs[i] == ys[i],
        ),
        flagged(match_flags(returned(sent(xs, rxs, pk), ys, rys, pk), sk)) == Set::new(
            |i: int| 0 <= i < xs.len() && xs[i] == ys[i],
        ),
{
    let n = pk.n as nat;
    let c_x = sent(xs, rxs, pk);
    let responses = returned(c_x, ys, rys, pk);
    let flags = match_flags(responses, sk);
    lemma_key_pair_facts(p, q, pk, sk);
    lemma_responses_aligned(c_x, ys, rys, n);
    assert forall|i: int| 0 <= i < responses.len() implies !decrypt_failure(
        #[trigger] responses[i] as nat,
        n,
        sk.lambda as nat,
    ) && flags[i] == (xs[i] == ys[i]) by {
        lemma_encryptions_succeed(xs, rxs, n, i);
        lemma_responses_succeed(c_x, ys, rys, n, i);
        let x = xs[i] as nat;
        let y = ys[i] as nat;
        lemma_difference_decrypts(p, q, pk, sk, x, rxs[i] as nat, y, rys[i] as nat);
        lemma_encryption_carries(x, rxs[i] as nat, n);
    }
    assert(flags =~= Seq::new(xs.len(), |i: int| xs[i] == ys[i]));
    assert(flagged(flags) =~= Set::new(|i: int| 0 <= i < xs.len() && xs[i] == ys[i]));
}

} // verus!
