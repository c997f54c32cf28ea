//! The library's general laws, stated over the same spec functions that the
//! operations' contracts use and proved once for all inputs.

use vstd::prelude::*;
use vstd::arithmetic::div_mod::{
    lemma_basic_div, lemma_div_basics, lemma_div_denominator, lemma_multiply_divide_lt,
};
use vstd::arithmetic::power2::{
    lemma2_to64, lemma_pow2_adds, lemma_pow2_pos, lemma_pow2_unfold, pow2,
};
use crate::digest::hash_of;
use crate::model::{climb, climb_step, node_digest, proof_entries, spec_verify};
use crate::tree::MerkleTree;

verus! {

/// Climbing from the ancestor of `index` at level `d` with the sibling
/// digests that the proof carries reaches the digest of the root node.
proof fn lemma_climb_reconstructs(
    values: Seq<Seq<char>>,
    depth: nat,
    root: u64,
    index: nat,
    d: int,
)
    requires
        values.len() == pow2(depth),
        index < values.len(),
        0 <= d <= depth,
    ensures
        climb(
            node_digest(
                values,
                (depth - d) as nat,
                ((index as int / pow2((depth - d) as nat) as int) * pow2((depth - d) as nat)) as nat,
            ),
            proof_entries(values, depth, root, index),
            d,
        ) == node_digest(values, depth, 0),
    decreases d,
{
    let pf = proof_entries(values, depth, root, index);
    let h = (depth - d) as nat;
    lemma_pow2_pos(h);
    if d == 0 {
        lemma_basic_div(index as int, pow2(depth) as int);
        assert(index as int / pow2(depth) as int == 0);
        assert((index as int / pow2(depth) as int) * pow2(depth) == 0) by (nonlinear_arith)
            requires
                index as int / pow2(depth) as int == 0,
        ;
    } else {
        let hp = (h + 1) as nat;
        lemma_pow2_pos(hp);
        lemma_pow2_unfold(hp);
        let p = index as int / pow2(h) as int;
        let q = index as int / pow2(hp) as int;
        lemma_div_denominator(index as int, pow2(h) as int, 2);
        assert(q == p / 2);
        lemma_pow2_adds(hp, (d - 1) as nat);
        lemma_multiply_divide_lt(index as int, pow2(hp) as int, pow2((d - 1) as nat) as int);
        assert(q < pow2((d - 1) as nat));
        // The node at level d - 1 over `index` is completely filled, so its
        // digest combines its two children's digests.
        assert((q + 1) * (pow2(hp) as int) <= pow2(depth)) by (nonlinear_arith)
            requires
                q + 1 <= pow2((d - 1) as nat),
                pow2(depth) == pow2(hp) * pow2((d - 1) as nat),
                pow2(hp) > 0,
        ;
        assert((q + 1) * (pow2(hp) as int) == q * pow2(hp) + pow2(hp)) by (nonlinear_arith);
        let parent_start = q * pow2(hp) as int;
        assert(node_digest(values, hp, parent_start as nat) == crate::digest::combined_hash(
            node_digest(values, h, parent_start as nat),
            node_digest(values, h, (parent_start + pow2(h)) as nat),
        ));
        if p % 2 == 0 {
            assert(p == 2 * q);
            assert(q * (pow2(hp) as int) == p * pow2(h)) by (nonlinear_arith)
                requires
                    p == 2 * q,
                    pow2(hp) == 2 * pow2(h),
            ;
            assert((p + 1) * (pow2(h) as int) == p * pow2(h) + pow2(h)) by (nonlinear_arith);
            assert(climb_step(node_digest(values, h, (p * pow2(h) as int) as nat), pf[d])
                == node_digest(values, hp, parent_start as nat));
        } else {
            assert(p == 2 * q + 1);
            assert(q * (pow2(hp) as int) == (p - 1) * pow2(h)) by (nonlinear_arith)
                requires
                    p == 2 * q + 1,
                    pow2(hp) == 2 * pow2(h),
            ;
            assert((p - 1) * (pow2(h) as int) + pow2(h) == p * pow2(h)) by (nonlinear_arith);
            assert(climb_step(node_digest(values, h, (p * pow2(h) as int) as nat), pf[d])
                == node_digest(values, hp, parent_start as nat));
        }
        lemma_climb_reconstructs(values, depth, root, index, d - 1);
    }
}

/// Round trip over the model: when every leaf position of a tree of the
/// given depth is filled with `values` and the declared root digest is the
/// digest those values produce at the root, the inclusion proof for any
/// position verifies against the value appended there.
pub proof fn lemma_proof_round_trip(values: Seq<Seq<char>>, depth: nat, root: u64, index: nat)
    requires
        values.len() == pow2(depth),
        index < values.len(),
        root == node_digest(values, depth, 0),
    ensures
        spec_verify(depth, values[index as int], proof_entries(values, depth, root, index)),
{
    let pf = proof_entries(values, depth, root, index);
    lemma2_to64();
    lemma_div_basics(index as int);
    assert(index as int / pow2(0) as int == index);
    assert((index as int) * (pow2(0) as int) == index) by (nonlinear_arith)
        requires
            pow2(0) == 1,
    ;
    assert(node_digest(values, 0, index) == hash_of(values[index as int]));
    lemma_climb_reconstructs(values, depth, root, index, depth as int);
}

/// Round trip: in a fully populated, well-formed tree whose declared root
/// digest is the root digest of its values, `generate_proof` at any appended
/// position yields a proof that `verify` accepts for the value appended
/// there. Their contracts state the results as `proof_entries` and
/// `spec_verify`; this connects the two.
pub proof fn lemma_tree_round_trip(t: &MerkleTree, index: nat)
    requires
        t.wf(),
        t.spec_values().len() == pow2(t.spec_depth()),
        t.spec_root_hash() == node_digest(t.spec_values(), t.spec_depth(), 0),
        index < t.spec_values().len(),
    ensures
        spec_verify(
            t.spec_depth(),
            t.spec_values()[index as int],
            proof_entries(t.spec_values(), t.spec_depth(), t.spec_root_hash(), index),
        ),
{
    lemma_proof_round_trip(t.spec_values(), t.spec_depth(), t.spec_root_hash(), index);
}

/// Determinism: two well-formed trees of the same depth that were fed the
/// same sequence of values hold the same digest at every level and position,
/// whatever declared root digests they were given.
pub proof fn lemma_determinism(t1: &MerkleTree, t2: &MerkleTree)
    requires
        t1.wf(),
        t2.wf(),
        t1.spec_depth() == t2.spec_depth(),
        t1.spec_values() == t2.spec_values(),
    ensures
        forall|level: nat, i: nat|
            level <= t1.spec_depth() && i < pow2(level) ==> t1.spec_digest(level, i)
                == t2.spec_digest(level, i),
{
    assert forall|level: nat, i: nat|
        level <= t1.spec_depth() && i < pow2(level) implies t1.spec_digest(level, i)
        == t2.spec_digest(level, i) by {
        t1.lemma_stored_digest(level, i);
        t2.lemma_stored_digest(level, i);
    }
}

} // verus!
