//! The Merkle commitment to an ordered list of numbers.

use crate::bytes::{be_bytes, be_value, from_be_prefix, prefix16, to_be_bytes};
use crate::error::PsiError;
use crate::hash::{sha256, sha256_digest};
use vstd::prelude::*;

pub mod laws;

verus! {

/// The first sixteen bytes of the SHA-256 digest of `data`, read as a number.
pub open spec fn truncated_digest(data: Seq<u8>) -> u128 {
    be_value(prefix16(sha256_digest(data))) as u128
}

/// The node of a leaf that holds `value`.
pub open spec fn leaf_node(value: u128) -> u128 {
    truncated_digest(be_bytes(value))
}

/// The node above the nodes `left` and `right`.
pub open spec fn parent_node(left: u128, right: u128) -> u128 {
    truncated_digest(be_bytes(left) + be_bytes(right))
}

/// Whether `n` is a power of two.
pub open spec fn is_pow2(n: nat) -> bool
    decreases n,
{
    n == 1 || (n > 1 && n % 2 == 0 && is_pow2(n / 2))
}

/// The least power of two that is at least `n`.
pub open spec fn ceil_pow2(n: nat) -> nat
    decreases n,
{
    if n <= 1 {
        1
    } else {
        2 * ceil_pow2((n + 1) / 2)
    }
}

/// `values`, followed by as many zeros as bring its length to a power of two.
pub open spec fn padded(values: Seq<u128>) -> Seq<u128> {
    values + Seq::new((ceil_pow2(values.len()) - values.len()) as nat, |i: int| 0u128)
}

/// The leaf nodes of a sequence of values.
pub open spec fn leaves(values: Seq<u128>) -> Seq<u128> {
    Seq::new(values.len(), |i: int| leaf_node(values[i]))
}

/// The level above `nodes`: each node stands above two neighbours, in order.
pub open spec fn level_up(nodes: Seq<u128>) -> Seq<u128> {
    Seq::new(nodes.len() / 2, |i: int| parent_node(nodes[2 * i], nodes[2 * i + 1]))
}

/// The node that is left when `nodes` is folded level by level.
pub open spec fn fold_root(nodes: Seq<u128>) -> u128
    decreases nodes.len(),
{
    if nodes.len() <= 1 {
        nodes[0]
    } else {
        fold_root(level_up(nodes))
    }
}

/// The root that commits to `values`: the fold of the leaves of the padded
/// sequence.
pub open spec fn merkle_root(values: Seq<u128>) -> u128 {
    fold_root(leaves(padded(values)))
}

/// Whether `root` commits to `values`: the sequence is not empty, and its
/// root is `root`.
pub open spec fn commits_to(root: u128, values: Seq<u128>) -> bool {
    values.len() > 0 && merkle_root(values) == root
}

/// `ceil_pow2(n)` is a power of two and at least `n`.
pub proof fn lemma_ceil_pow2(n: nat)
    ensures
        is_pow2(ceil_pow2(n)),
        n <= ceil_pow2(n),
    decreases n,
{
    if n > 1 {
        lemma_ceil_pow2((n + 1) / 2);
    }
}

/// No power of two that is at least `n` lies below `ceil_pow2(n)`.
pub proof fn lemma_ceil_pow2_least(n: nat, m: nat)
    requires
        is_pow2(m),
        n <= m,
    ensures
        ceil_pow2(n) <= m,
    decreases n,
{
    if n > 1 {
        lemma_ceil_pow2_least((n + 1) / 2, m / 2);
    }
}

/// Whether `n` is a power of two.
pub fn is_power_of_two(n: usize) -> (b: bool)
    ensures
        b == is_pow2(n as nat),
{
    if n == 0 {
        return false;
    }
    let mut x: usize = n;
    while x % 2 == 0
        invariant
            x > 0,
            is_pow2(x as nat) == is_pow2(n as nat),
        decreases x,
    {
        x = x / 2;
    }
    x == 1
}

/// The node of a leaf that holds `value`.
pub fn leaf_hash(value: u128) -> (node: u128)
    ensures
        node == leaf_node(value),
{
    let bytes = to_be_bytes(value);
    let digest = sha256(&bytes);
    proof {
        crate::bytes::lemma_be_value_bound(prefix16(digest@));
        crate::bytes::lemma_radix_16();
    }
    from_be_prefix(&digest)
}

/// The node above the nodes `left` and `right`.
pub fn parent_hash(left: u128, right: u128) -> (node: u128)
    ensures
        node == parent_node(left, right),
{
    let mut bytes = to_be_bytes(left);
    let mut tail = to_be_bytes(right);
    bytes.append(&mut tail);
    let digest = sha256(&bytes);
    proof {
        crate::bytes::lemma_be_value_bound(prefix16(digest@));
        crate::bytes::lemma_radix_16();
    }
    from_be_prefix(&digest)
}

/// The root that commits to `values`. The sequence is padded on the right
/// with zeros to a power of two, each value is hashed to a leaf, and
/// neighbouring nodes are hashed pairwise, level by level, until one is left.
/// An empty sequence has no root.
pub fn create_merkle_tree(values: &Vec<u128>) -> (res: Result<u128, PsiError>)
    ensures
        match res {
            Ok(root) => values.len() > 0 && root == merkle_root(values@),
            Err(e) => e == PsiError::EmptyInput && values.len() == 0,
        },
{
    if values.len() == 0 {
        return Err(PsiError::EmptyInput);
    }
    let mut level: Vec<u128> = Vec::new();
    let mut i: usize = 0;
    while i < values.len()
        invariant
            i <= values.len(),
            level@.len() == i,
            forall|j: int| 0 <= j < i ==> #[trigger] level@[j] == leaf_node(values@[j]),
        decreases values.len() - i,
    {
        level.push(leaf_hash(values[i]));
        i += 1;
    }
    let zero_leaf: u128 = leaf_hash(0);
    proof {
        lemma_ceil_pow2(values@.len());
    }
    while !is_power_of_two(level.len())
        invariant
            values@.len() <= level@.len() <= ceil_pow2(values@.len()),
            is_pow2(ceil_pow2(values@.len())),
            zero_leaf == leaf_node(0),
            forall|j: int|
                0 <= j < values@.len() ==> #[trigger] level@[j] == leaf_node(values@[j]),
            forall|j: int|
                values@.len() <= j < level@.len() ==> #[trigger] level@[j] == leaf_node(0),
        decreases ceil_pow2(values@.len()) - level@.len(),
    {
        level.push(zero_leaf);
    }
    proof {
        lemma_ceil_pow2_least(values@.len(), level@.len());
        assert(level@ =~= leaves(padded(values@)));
    }
    while level.len() > 1
        invariant
            level@.len() >= 1,
            is_pow2(level@.len()),
            fold_root(level@) == merkle_root(values@),
        decreases level@.len(),
    {
        let half: usize = level.len() / 2;
        let mut next: Vec<u128> = Vec::new();
        let mut k: usize = 0;
        while k < half
            invariant
                k <= half,
                2 * half == level.len(),
                next@.len() == k,
                forall|j: int|
                    0 <= j < k ==> #[trigger] next@[j] == parent_node(
                        level@[2 * j],
                        level@[2 * j + 1],
                    ),
            decreases half - k,
        {
            next.push(parent_hash(level[2 * k], level[2 * k + 1]));
            k += 1;
        }
        proof {
            assert(next@ =~= level_up(level@));
        }
        level = next;
    }
    Ok(level[0])
}

/// Whether `root` commits to `values`: recomputes the whole tree and
/// compares. An empty sequence commits to nothing.
pub fn verify_merkle_proof(root: u128, values: &Vec<u128>) -> (ok: bool)
    ensures
        ok == commits_to(root, values@),
{
    match create_merkle_tree(values) {
        Ok(r) => r == root,
        Err(_) => false,
    }
}

} // verus!
