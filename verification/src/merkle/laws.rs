//! What a Merkle root commits to.

use crate::bytes::{be_bytes, lemma_be_bytes_round_trip};
use crate::merkle::{
    ceil_pow2, commits_to, fold_root, is_pow2, leaf_node, leaves, lemma_ceil_pow2,
    lemma_ceil_pow2_least, level_up, merkle_root, padded, parent_node, truncated_digest,
};
use vstd::prelude::*;

verus! {

/// `k` zeros.
pub open spec fn zeros(k: nat) -> Seq<u128> {
    Seq::new(k, |i: int| 0u128)
}

/// The root of a sequence commits to that sequence.
pub proof fn lemma_root_commits(values: Seq<u128>)
    requires
        values.len() > 0,
    ensures
        commits_to(merkle_root(values), values),
{
}

/// Padding is the policy: zeros appended to a sequence, as long as they do
/// not carry its length past the next power of two, leave the root as it is.
pub proof fn lemma_trailing_zeros(values: Seq<u128>, k: nat)
    requires
        values.len() > 0,
        values.len() + k <= ceil_pow2(values.len()),
    ensures
        merkle_root(values + zeros(k)) == merkle_root(values),
{
    let longer = values + zeros(k);
    lemma_ceil_pow2(values.len());
    lemma_ceil_pow2(longer.len());
    lemma_ceil_pow2_least(longer.len(), ceil_pow2(values.len()));
    lemma_ceil_pow2_least(values.len(), ceil_pow2(longer.len()));
    assert(padded(longer) =~= padded(values));
}

/// A sequence and its padded form have one root.
pub proof fn lemma_padded_root(values: Seq<u128>)
    requires
        values.len() > 0,
    ensures
        merkle_root(padded(values)) == merkle_root(values),
{
    lemma_ceil_pow2(values.len());
    let k = (ceil_pow2(values.len()) - values.len()) as nat;
    lemma_trailing_zeros(values, k);
    assert(padded(values) =~= values + zeros(k));
}

/// The byte strings that are hashed to make the leaves of `values`.
pub open spec fn leaf_inputs(values: Seq<u128>) -> Set<Seq<u8>> {
    Set::new(
        |data: Seq<u8>|
            exists|i: int| 0 <= i < values.len() && data == be_bytes(#[trigger] values[i]),
    )
}

/// The byte string that is hashed to make the `i`-th node of the level
/// above `nodes`: the bytes of its two children.
pub open spec fn pair_input(nodes: Seq<u128>, i: int) -> Seq<u8> {
    be_bytes(nodes[2 * i]) + be_bytes(nodes[2 * i + 1])
}

/// The byte strings that are hashed to make the level above `nodes`.
pub open spec fn level_inputs(nodes: Seq<u128>) -> Set<Seq<u8>> {
    Set::new(
        |data: Seq<u8>|
            exists|i: int| 0 <= i < nodes.len() / 2 && data == #[trigger] pair_input(nodes, i),
    )
}

/// The byte strings that are hashed while `nodes` is folded to one node.
pub open spec fn fold_inputs(nodes: Seq<u128>) -> Set<Seq<u8>>
    decreases nodes.len(),
{
    if nodes.len() <= 1 {
        Set::empty()
    } else {
        level_inputs(nodes).union(fold_inputs(level_up(nodes)))
    }
}

/// Every byte string that is hashed while the tree of `values` is built.
pub open spec fn hashed_inputs(values: Seq<u128>) -> Set<Seq<u8>> {
    leaf_inputs(padded(values)).union(fold_inputs(leaves(padded(values))))
}

/// Whether no two byte strings of `inputs` have the same truncated digest.
pub open spec fn collision_free(inputs: Set<Seq<u8>>) -> bool {
    forall|a: Seq<u8>, b: Seq<u8>|
        inputs.contains(a) && inputs.contains(b) && truncated_digest(a) == truncated_digest(b)
            ==> a == b
}

/// Two numbers with the same sixteen bytes are equal.
pub proof fn lemma_be_bytes_injective(x: u128, y: u128)
    requires
        be_bytes(x) == be_bytes(y),
    ensures
        x == y,
{
    lemma_be_bytes_round_trip(x);
    lemma_be_bytes_round_trip(y);
}

/// Two pairs of numbers whose bytes, put one after the other, are the same
/// string, are the same pair.
pub proof fn lemma_pair_bytes_injective(a: u128, b: u128, c: u128, d: u128)
    requires
        be_bytes(a) + be_bytes(b) == be_bytes(c) + be_bytes(d),
    ensures
        a == c,
        b == d,
{
    let left = be_bytes(a) + be_bytes(b);
    let right = be_bytes(c) + be_bytes(d);
    assert(left.subrange(0, 16) =~= be_bytes(a));
    assert(right.subrange(0, 16) =~= be_bytes(c));
    assert(left.subrange(16, 32) =~= be_bytes(b));
    assert(right.subrange(16, 32) =~= be_bytes(d));
    lemma_be_bytes_injective(a, c);
    lemma_be_bytes_injective(b, d);
}

/// Without a collision among what is hashed, two sequences of nodes of one
/// length, a power of two, that fold to one node are the same sequence.
pub proof fn lemma_fold_binds(x: Seq<u128>, y: Seq<u128>)
    requires
        x.len() == y.len(),
        is_pow2(x.len()),
        fold_root(x) == fold_root(y),
        collision_free(fold_inputs(x).union(fold_inputs(y))),
    ensures
        x == y,
    decreases x.len(),
{
    if x.len() == 1 {
        assert(x =~= y);
    } else {
        let ux = level_up(x);
        let uy = level_up(y);
        let all = fold_inputs(x).union(fold_inputs(y));
        assert(collision_free(fold_inputs(ux).union(fold_inputs(uy)))) by {
            assert forall|a: Seq<u8>, b: Seq<u8>|
                fold_inputs(ux).union(fold_inputs(uy)).contains(a) && fold_inputs(ux).union(
                    fold_inputs(uy),
                ).contains(b) && truncated_digest(a) == truncated_digest(b) implies a == b by {
                assert(all.contains(a));
                assert(all.contains(b));
            }
        }
        lemma_fold_binds(ux, uy);
        assert forall|j: int| 0 <= j < x.len() implies x[j] == y[j] by {
            let i = j / 2;
            let dx = pair_input(x, i);
            let dy = pair_input(y, i);
            assert(level_inputs(x).contains(dx));
            assert(level_inputs(y).contains(dy));
            assert(all.contains(dx));
            assert(all.contains(dy));
            assert(ux[i] == parent_node(x[2 * i], x[2 * i + 1]));
            assert(uy[i] == parent_node(y[2 * i], y[2 * i + 1]));
            lemma_pair_bytes_injective(x[2 * i], x[2 * i + 1], y[2 * i], y[2 * i + 1]);
        }
        assert(x =~= y);
    }
}

/// The root binds: without a collision among what is hashed for either,
/// two sequences that are padded to one length and have one root are, once
/// padded, the same sequence.
pub proof fn lemma_root_binds(values: Seq<u128>, other: Seq<u128>)
    requires
        ceil_pow2(values.len()) == ceil_pow2(other.len()),
        merkle_root(values) == merkle_root(other),
        collision_free(hashed_inputs(values).union(hashed_inputs(other))),
    ensures
        padded(values) == padded(other),
        values.len() == other.len() ==> values == other,
{
    let px = padded(values);
    let py = padded(other);
    let lx = leaves(px);
    let ly = leaves(py);
    let all = hashed_inputs(values).union(hashed_inputs(other));
    lemma_ceil_pow2(values.len());
    lemma_ceil_pow2(other.len());
    assert(collision_free(fold_inputs(lx).union(fold_inputs(ly)))) by {
        assert forall|a: Seq<u8>, b: Seq<u8>|
            fold_inputs(lx).union(fold_inputs(ly)).contains(a) && fold_inputs(lx).union(
                fold_inputs(ly),
            ).contains(b) && truncated_digest(a) == truncated_digest(b) implies a == b by {
            assert(all.contains(a));
            assert(all.contains(b));
        }
    }
    lemma_fold_binds(lx, ly);
    assert forall|j: int| 0 <= j < px.len() implies px[j] == py[j] by {
        assert(lx[j] == leaf_node(px[j]));
        assert(ly[j] == leaf_node(py[j]));
        assert(leaf_inputs(px).contains(be_bytes(px[j])));
        assert(leaf_inputs(py).contains(be_bytes(py[j])));
        assert(all.contains(be_bytes(px[j])));
        assert(all.contains(be_bytes(py[j])));
        lemma_be_bytes_injective(px[j], py[j]);
    }
    assert(px =~= py);
    if values.len() == other.len() {
        assert forall|j: int| 0 <= j < values.len() implies values[j] == other[j] by {
            assert(px[j] == values[j]);
            assert(py[j] == other[j]);
        }
        assert(values =~= other);
    }
}

/// A root commits to no other sequence of the same padded length, unless
/// two of the byte strings hashed for them collide.
pub proof fn lemma_other_values_rejected(values: Seq<u128>, other: Seq<u128>)
    requires
        ceil_pow2(values.len()) == ceil_pow2(other.len()),
        padded(values) != padded(other),
        collision_free(hashed_inputs(values).union(hashed_inputs(other))),
    ensures
        !commits_to(merkle_root(values), other),
{
    if merkle_root(values) == merkle_root(other) {
        lemma_root_binds(values, other);
    }
}

} // verus!
