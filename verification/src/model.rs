//! The mathematical model of the tree: what digest every node holds after a
//! given sequence of appends, and what proof generation and verification
//! compute over those digests.

use vstd::prelude::*;
use vstd::arithmetic::mul::lemma_mul_inequality;
use vstd::arithmetic::power2::{
    lemma2_to64, lemma_pow2_adds, lemma_pow2_pos, lemma_pow2_unfold, pow2,
};
use crate::digest::{combined_hash, hash_of};

verus! {

/// The digest of a node of the given height none of whose leaves has been
/// appended yet: every leaf slot below it holds the digest of the empty
/// string.
pub open spec fn placeholder_digest(height: nat) -> u64
    decreases height,
{
    if height == 0 {
        hash_of(Seq::<char>::empty())
    } else {
        combined_hash(
            placeholder_digest((height - 1) as nat),
            placeholder_digest((height - 1) as nat),
        )
    }
}

/// The digest stored at the node of the given height whose leftmost leaf
/// position is `start`, after `values` have been appended in index order.
///
/// A leaf slot holds the digest of its value once appended and the digest of
/// the empty string until then. An inner node is recomputed exactly when the
/// append that completes its subtree arrives, so it holds the combined digest
/// of its children once every leaf position below it is filled, and the
/// all-placeholder digest of its height until then.
pub open spec fn node_digest(values: Seq<Seq<char>>, height: nat, start: nat) -> u64
    decreases height,
{
    if height == 0 {
        if start < values.len() {
            hash_of(values[start as int])
        } else {
            hash_of(Seq::<char>::empty())
        }
    } else if start + pow2(height) <= values.len() {
        combined_hash(
            node_digest(values, (height - 1) as nat, start),
            node_digest(values, (height - 1) as nat, (start + pow2((height - 1) as nat)) as nat),
        )
    } else {
        placeholder_digest(height)
    }
}

/// A node none of whose leaf positions is filled holds the placeholder digest
/// of its height.
pub proof fn lemma_node_digest_unpopulated(values: Seq<Seq<char>>, height: nat, start: nat)
    requires
        start >= values.len(),
    ensures
        node_digest(values, height, start) == placeholder_digest(height),
{
    if height > 0 {
        lemma_pow2_pos(height);
    }
}

/// Two value sequences that agree on a completely filled leaf range give its
/// node the same digest.
pub proof fn lemma_node_digest_agree(
    v1: Seq<Seq<char>>,
    v2: Seq<Seq<char>>,
    height: nat,
    start: nat,
)
    requires
        start + pow2(height) <= v1.len(),
        start + pow2(height) <= v2.len(),
        forall|j: int| start <= j < start + pow2(height) ==> v1[j] == v2[j],
    ensures
        node_digest(v1, height, start) == node_digest(v2, height, start),
    decreases height,
{
    if height == 0 {
        lemma2_to64();
        assert(v1[start as int] == v2[start as int]);
    } else {
        lemma_pow2_unfold(height);
        let half = pow2((height - 1) as nat);
        lemma_node_digest_agree(v1, v2, (height - 1) as nat, start);
        lemma_node_digest_agree(v1, v2, (height - 1) as nat, (start + half) as nat);
    }
}

/// Appending one more value leaves the digest of every node whose leaf range
/// does not contain the new position unchanged.
pub proof fn lemma_node_digest_push(values: Seq<Seq<char>>, v: Seq<char>, height: nat, start: nat)
    requires
        start + pow2(height) <= values.len() || start > values.len(),
    ensures
        node_digest(values.push(v), height, start) == node_digest(values, height, start),
{
    if start + pow2(height) <= values.len() {
        lemma_node_digest_agree(values.push(v), values, height, start);
    } else {
        lemma_node_digest_unpopulated(values, height, start);
        lemma_node_digest_unpopulated(values.push(v), height, start);
    }
}

/// A tree holds more leaves than its depth: `2^e > e`.
pub proof fn lemma_pow2_exceeds(e: nat)
    ensures
        pow2(e) > e,
    decreases e,
{
    if e == 0 {
        lemma2_to64();
    } else {
        lemma_pow2_exceeds((e - 1) as nat);
        lemma_pow2_unfold(e);
    }
}

/// Whether the leaf position `leaf` lies in the subtree of the node at level
/// `level`, position `i`, of a tree of the given depth.
pub open spec fn covers(depth: nat, level: int, i: int, leaf: int) -> bool {
    let size = pow2((depth - level) as nat) as int;
    i * size <= leaf < (i + 1) * size
}

/// At each level exactly one node's subtree holds a given leaf position.
pub proof fn lemma_covers_unique(depth: nat, level: int, i1: int, i2: int, leaf: int)
    requires
        0 <= level <= depth,
        covers(depth, level, i1, leaf),
        covers(depth, level, i2, leaf),
    ensures
        i1 == i2,
{
    let size = pow2((depth - level) as nat) as int;
    lemma_pow2_pos((depth - level) as nat);
    if i1 < i2 {
        lemma_mul_inequality(i1 + 1, i2, size);
    }
    if i2 < i1 {
        lemma_mul_inequality(i2 + 1, i1, size);
    }
}

/// After the append of leaf `k` has propagated up to a node whose subtree
/// ends exactly at `k` and whose position in its level is even, every strict
/// ancestor of that node still has unfilled leaf positions: its subtree ends
/// strictly after `k + 1`.
pub proof fn lemma_ancestor_subtree_open(depth: nat, d: int, i: int, dd: int, ii: int, k: int)
    requires
        0 <= dd < d <= depth,
        i % 2 == 0,
        (i + 1) * pow2((depth - d) as nat) == k + 1,
        covers(depth, dd, ii, k),
    ensures
        (ii + 1) * pow2((depth - dd) as nat) > k + 1,
{
    let h = (depth - d) as nat;
    let hh = (depth - dd) as nat;
    let diff = (hh - h) as nat;
    lemma_pow2_pos(h);
    lemma_pow2_pos(hh);
    lemma_pow2_pos(diff);
    if (ii + 1) * pow2(hh) <= k + 1 {
        // `covers` puts the subtree's end past `k`, so it would end at k + 1.
        assert((ii + 1) * pow2(hh) == k + 1);
        lemma_pow2_adds(diff, h);
        assert(((ii + 1) * pow2(diff)) * pow2(h) == (i + 1) * pow2(h)) by (nonlinear_arith)
            requires
                (ii + 1) * (pow2(diff) * pow2(h)) == (i + 1) * pow2(h),
        ;
        assert((ii + 1) * pow2(diff) == i + 1) by (nonlinear_arith)
            requires
                ((ii + 1) * pow2(diff)) * pow2(h) == (i + 1) * pow2(h),
                pow2(h) > 0,
        ;
        lemma_pow2_unfold(diff);
        assert(2 * ((ii + 1) * pow2((diff - 1) as nat)) == i + 1) by (nonlinear_arith)
            requires
                (ii + 1) * pow2(diff) == i + 1,
                pow2(diff) == 2 * pow2((diff - 1) as nat),
        ;
    }
}

/// The level-`d` entry of the inclusion proof for the leaf at `index`: for
/// `d >= 1`, the digest of the sibling of `index`'s ancestor at level `d`,
/// paired with `true` when that sibling stands to the right of the ancestor;
/// entry 0 carries the declared root digest.
pub open spec fn proof_entry(
    values: Seq<Seq<char>>,
    depth: nat,
    root: u64,
    index: nat,
    d: int,
) -> (u64, bool) {
    if d <= 0 {
        (root, true)
    } else {
        let height = (depth - d) as nat;
        let p = index as int / pow2(height) as int;
        if p % 2 == 0 {
            (node_digest(values, height, ((p + 1) * pow2(height)) as nat), true)
        } else {
            (node_digest(values, height, ((p - 1) * pow2(height)) as nat), false)
        }
    }
}

/// The whole inclusion proof for the leaf at `index`, one entry per level:
/// entry 0 is the declared root digest, entry `d` for `d >= 1` the sibling
/// information needed at level `d`.
pub open spec fn proof_entries(
    values: Seq<Seq<char>>,
    depth: nat,
    root: u64,
    index: nat,
) -> Seq<(u64, bool)> {
    Seq::new(depth + 1, |d: int| proof_entry(values, depth, root, index, d))
}

/// One verification step: combine the running digest with a sibling digest,
/// on the side the entry names.
pub open spec fn climb_step(h: u64, entry: (u64, bool)) -> u64 {
    if entry.1 {
        combined_hash(h, entry.0)
    } else {
        combined_hash(entry.0, h)
    }
}

/// The running digest after the verifier has consumed the proof entries at
/// levels `d` down to 1, starting from `h`.
pub open spec fn climb(h: u64, proof: Seq<(u64, bool)>, d: int) -> u64
    decreases d,
{
    if d <= 0 {
        h
    } else {
        climb(climb_step(h, proof[d]), proof, d - 1)
    }
}

/// What `verify` decides: the proof must hold one entry per level plus the
/// root entry, and recombining the value's digest with the sibling digests
/// from the leaf level upward must reach the digest that entry 0 carries.
pub open spec fn spec_verify(depth: nat, data: Seq<char>, proof: Seq<(u64, bool)>) -> bool {
    &&& proof.len() == depth + 1
    &&& climb(hash_of(data), proof, depth as int) == proof[0].0
}

} // verus!
