//! The Merkle tree itself: construction, sequential append, inclusion-proof
//! generation and verification.

use vstd::prelude::*;
use vstd::arithmetic::div_mod::{lemma_div_basics, lemma_div_denominator, lemma_multiply_divide_lt};
use vstd::arithmetic::power2::{
    lemma2_to64, lemma_pow2_adds, lemma_pow2_pos, lemma_pow2_strictly_increases, lemma_pow2_unfold,
    pow2,
};
use crate::digest::{calculate_hash, concat_hash, hash_of};
use crate::model::{
    climb, covers, lemma_ancestor_subtree_open, lemma_covers_unique, lemma_node_digest_push,
    lemma_node_digest_unpopulated, lemma_pow2_exceeds, node_digest, placeholder_digest,
    proof_entries, proof_entry, spec_verify,
};

verus! {

/// Why an operation was refused. Appending to a full tree and proving an
/// unfilled position are reported, never raised; a malformed proof handed to
/// `verify` simply yields `false`.
#[derive(Clone, Copy, Debug, PartialEq, Eq, Structural)]
pub enum MerkleError {
    /// `add_data` was called when every leaf position was already filled.
    CapacityExceeded,
    /// `generate_proof` was called for a position not yet appended.
    IndexNotYetAppended,
}

/// A fixed-depth, append-only, incrementally hashed binary Merkle tree.
///
/// Level `d` of `tree` holds the `2^d` digests of that level: level 0 is the
/// root, level `depth` the leaves. `data` holds the values appended so far,
/// in index order; `index` is the next free leaf position. `root_hash` is the
/// digest declared at construction, kept verbatim for external comparison and
/// never recomputed from the tree.
pub struct MerkleTree {
    depth: usize,
    root_hash: u64,
    data: Vec<String>,
    tree: Vec<Vec<u64>>,
    index: usize,
}

impl MerkleTree {
    /// The tree's depth: level `depth` holds the leaves.
    pub closed spec fn spec_depth(&self) -> nat {
        self.depth as nat
    }

    /// The digest declared at construction, stored verbatim.
    pub closed spec fn spec_root_hash(&self) -> u64 {
        self.root_hash
    }

    /// The values appended so far, in index order.
    pub closed spec fn spec_values(&self) -> Seq<Seq<char>> {
        self.data.deep_view()
    }

    /// The digest stored at level `level`, position `i`.
    pub closed spec fn spec_digest(&self, level: nat, i: nat) -> u64 {
        self.tree@[level as int]@[i as int]
    }

    /// Well-formedness: the append cursor and the level arrays have their
    /// stated sizes, and every stored digest is the one `node_digest`
    /// prescribes for the values appended so far.
    pub closed spec fn wf(&self) -> bool {
        &&& pow2(self.depth as nat) <= usize::MAX
        &&& self.index == self.data.len()
        &&& self.data.len() <= pow2(self.depth as nat)
        &&& self.tree@.len() == self.depth + 1
        &&& forall|d: int|
            0 <= d <= self.depth ==> (#[trigger] self.tree@[d])@.len() == pow2(d as nat)
        &&& forall|d: int, i: int|
            0 <= d <= self.depth && 0 <= i < pow2(d as nat) ==> (#[trigger] self.tree@[d]@[i])
                == node_digest(
                self.data.deep_view(),
                (self.depth - d) as nat,
                (i * pow2((self.depth - d) as nat)) as nat,
            )
    }

    /// Initializes the tree: every leaf slot holds the digest of the empty
    /// string, every inner level is built bottom-up from its children, and
    /// the declared root digest is stored verbatim.
    pub fn new(depth: usize, root_hash: u64) -> (r: MerkleTree)
        requires
            pow2(depth as nat) <= usize::MAX,
        ensures
            r.wf(),
            r.spec_depth() == depth,
            r.spec_root_hash() == root_hash,
            r.spec_values() == Seq::<Seq<char>>::empty(),
    {
        let capacity = pow2_exec(depth);

        // The leaf level: one placeholder digest per slot.
        let empty_hash = calculate_hash(&String::new());
        let mut row: Vec<u64> = Vec::new();
        let mut j: usize = 0;
        while j < capacity
            invariant
                j <= capacity,
                row@.len() == j,
                empty_hash == placeholder_digest(0),
                forall|t: int| 0 <= t < j ==> row@[t] == placeholder_digest(0),
            decreases capacity - j,
        {
            row.push(empty_hash);
            j = j + 1;
        }

        // Build the inner levels bottom-up; `rows` stacks the finished
        // levels, leaf level first.
        let mut rows: Vec<Vec<u64>> = Vec::new();
        let mut lev: usize = depth;
        while lev > 0
            invariant
                lev <= depth,
                pow2(depth as nat) <= usize::MAX,
                row@.len() == pow2(lev as nat),
                forall|t: int|
                    0 <= t < row@.len() ==> row@[t] == placeholder_digest((depth - lev) as nat),
                rows@.len() == depth - lev,
                forall|rj: int|
                    0 <= rj < rows@.len() ==> (#[trigger] rows@[rj])@.len() == pow2(
                        (depth - rj) as nat,
                    ),
                forall|rj: int, t: int|
                    0 <= rj < rows@.len() && 0 <= t < rows@[rj]@.len()
                        ==> (#[trigger] rows@[rj]@[t]) == placeholder_digest(rj as nat),
            decreases lev,
        {
            proof {
                lemma_pow2_unfold(lev as nat);
                if lev < depth {
                    lemma_pow2_strictly_increases(lev as nat, depth as nat);
                }
            }
            let half = row.len() / 2;
            let mut parent: Vec<u64> = Vec::new();
            let mut i: usize = 0;
            while i < half
                invariant
                    i <= half,
                    lev >= 1,
                    lev <= depth,
                    pow2(lev as nat) <= usize::MAX,
                    2 * half == pow2(lev as nat),
                    half == pow2((lev - 1) as nat),
                    row@.len() == pow2(lev as nat),
                    forall|t: int|
                        0 <= t < row@.len() ==> row@[t] == placeholder_digest((depth - lev) as nat),
                    parent@.len() == i,
                    forall|t: int|
                        0 <= t < i ==> parent@[t] == placeholder_digest((depth - lev + 1) as nat),
                decreases half - i,
            {
                let h = concat_hash(row[2 * i], row[2 * i + 1]);
                parent.push(h);
                i = i + 1;
            }
            rows.push(row);
            row = parent;
            lev = lev - 1;
        }
        rows.push(row);

        let ghost rows_full = rows@;
        // Assemble the level array root-first: level `d` is `rows[depth - d]`.
        let mut tree: Vec<Vec<u64>> = Vec::new();
        while rows.len() > 0
            invariant
                rows@.len() <= depth + 1,
                tree@.len() + rows@.len() == depth + 1,
                rows@ == rows_full.take(rows@.len() as int),
                rows_full.len() == depth + 1,
                forall|d: int|
                    0 <= d < tree@.len() ==> #[trigger] tree@[d] == rows_full[depth - d],
            decreases rows@.len(),
        {
            let r2 = rows.pop().unwrap();
            tree.push(r2);
        }

        let mt = MerkleTree { depth, root_hash, data: Vec::new(), tree, index: 0 };

        proof {
            assert(mt.data.deep_view() =~= Seq::<Seq<char>>::empty());
            assert forall|d: int, i: int|
                0 <= d <= depth && 0 <= i < pow2(d as nat) implies (#[trigger] mt.tree@[d]@[i])
                == node_digest(
                mt.data.deep_view(),
                (depth - d) as nat,
                (i * pow2((depth - d) as nat)) as nat,
            ) by {
                assert(mt.tree@[d] == rows_full[depth - d]);
                assert(mt.tree@[d]@[i] == placeholder_digest((depth - d) as nat));
                lemma_node_digest_unpopulated(
                    mt.data.deep_view(),
                    (depth - d) as nat,
                    (i * pow2((depth - d) as nat)) as nat,
                );
            }
        }
        mt
    }

    /// Appends one value at the next free leaf position, or reports
    /// `CapacityExceeded`, leaving the tree unchanged, when the tree is full.
    ///
    /// The new leaf digest is propagated upward exactly as long as the
    /// written position is a right child, i.e. exactly when its sibling pair
    /// has just become complete.
    pub fn add_data(&mut self, data: &String) -> (r: Result<(), MerkleError>)
        requires
            old(self).wf(),
        ensures
            final(self).wf(),
            final(self).spec_depth() == old(self).spec_depth(),
            final(self).spec_root_hash() == old(self).spec_root_hash(),
            r is Ok <==> old(self).spec_values().len() < pow2(old(self).spec_depth()),
            r is Ok ==> final(self).spec_values() == old(self).spec_values().push(data@),
            r is Err ==> r == Err::<(), MerkleError>(MerkleError::CapacityExceeded) && *final(self)
                == *old(self),
    {
        let capacity = pow2_exec(self.depth);
        if self.index == capacity {
            return Err(MerkleError::CapacityExceeded);
        }
        let dp = self.depth;
        let k = self.index;
        let ghost old_values = self.data.deep_view();
        let ghost new_values = old_values.push(data@);

        self.data.push(data.clone());
        proof {
            assert(self.data.deep_view() =~= new_values);
            lemma2_to64();
        }

        let leaf_hash = calculate_hash(data);
        self.tree[dp][k] = leaf_hash;

        proof {
            assert forall|dd: int, ii: int|
                0 <= dd <= dp && 0 <= ii < pow2(dd as nat) && !(dd < dp && covers(
                    dp as nat,
                    dd,
                    ii,
                    k as int,
                )) implies (#[trigger] self.tree@[dd]@[ii]) == node_digest(
                new_values,
                (dp - dd) as nat,
                (ii * pow2((dp - dd) as nat)) as nat,
            ) by {
                let h = (dp - dd) as nat;
                let start = ii * pow2(h) as int;
                lemma_pow2_pos(h);
                assert((ii + 1) * (pow2(h) as int) == ii * (pow2(h) as int) + pow2(h))
                    by (nonlinear_arith);
                if dd == dp && ii == k {
                    // The leaf just written.
                } else {
                    assert(self.tree@[dd]@[ii] == node_digest(old_values, h, start as nat));
                    if dd == dp {
                        // A leaf other than `k`: its slot is a one-position
                        // range beside the new value.
                        assert(ii * (pow2(h) as int) == ii) by (nonlinear_arith)
                            requires
                                pow2(h) == 1,
                        ;
                    }
                    // The node's range lies beside `k`, so its digest is
                    // indifferent to the append.
                    assert(start + pow2(h) <= k || start > k);
                    lemma_node_digest_push(old_values, data@, h, start as nat);
                }
            }
            assert forall|dd: int, ii: int|
                0 <= dd < dp && 0 <= ii < pow2(dd as nat) && covers(
                    dp as nat,
                    dd,
                    ii,
                    k as int,
                ) implies (#[trigger] self.tree@[dd]@[ii]) == placeholder_digest(
                (dp - dd) as nat,
            ) by {
                let h = (dp - dd) as nat;
                let start = ii * pow2(h) as int;
                lemma_pow2_pos(h);
                assert((ii + 1) * (pow2(h) as int) == ii * (pow2(h) as int) + pow2(h))
                    by (nonlinear_arith);
                assert(self.tree@[dd]@[ii] == node_digest(old_values, h, start as nat));
                assert(start + pow2(h) > old_values.len());
            }
        }

        let mut i = k;
        let mut d = dp;
        while i % 2 == 1
            invariant
                self.depth == dp,
                self.root_hash == old(self).root_hash,
                pow2(dp as nat) <= usize::MAX,
                k < pow2(dp as nat),
                self.data.deep_view() == new_values,
                self.data.len() == k + 1,
                new_values.len() == k + 1,
                self.index == k,
                self.tree@.len() == dp + 1,
                forall|dd: int|
                    0 <= dd <= dp ==> (#[trigger] self.tree@[dd])@.len() == pow2(dd as nat),
                d <= dp,
                i < pow2(d as nat),
                (i + 1) * pow2((dp - d) as nat) == k + 1,
                forall|dd: int, ii: int|
                    0 <= dd <= dp && 0 <= ii < pow2(dd as nat) && !(dd < d && covers(
                        dp as nat,
                        dd,
                        ii,
                        k as int,
                    )) ==> (#[trigger] self.tree@[dd]@[ii]) == node_digest(
                        new_values,
                        (dp - dd) as nat,
                        (ii * pow2((dp - dd) as nat)) as nat,
                    ),
                forall|dd: int, ii: int|
                    0 <= dd < d && 0 <= ii < pow2(dd as nat) && covers(dp as nat, dd, ii, k as int)
                        ==> (#[trigger] self.tree@[dd]@[ii]) == placeholder_digest(
                        (dp - dd) as nat,
                    ),
            decreases d,
        {
            proof {
                lemma2_to64();
                if d == 0 {
                    assert(i == 0);
                }
                lemma_pow2_unfold(d as nat);
                lemma_pow2_unfold((dp - d + 1) as nat);
            }
            i = i / 2;
            d = d - 1;
            let ghost i_old = (2 * i + 1) as int;
            let left = self.tree[d + 1][2 * i];
            let right = self.tree[d + 1][2 * i + 1];
            let h = concat_hash(left, right);

            proof {
                let hc = (dp - d - 1) as nat;
                let hp = (dp - d) as nat;
                lemma_pow2_pos(hc);
                lemma_pow2_unfold(hp);
                // The two children sit at positions 2i and 2i + 1 of level
                // d + 1; their subtrees start at multiples of pow2(hc).
                assert((2 * i) * pow2(hc) == i * pow2(hp)) by (nonlinear_arith)
                    requires
                        pow2(hp) == 2 * pow2(hc),
                ;
                assert((2 * i + 1) * pow2(hc) == i * pow2(hp) + pow2(hc)) by (nonlinear_arith)
                    requires
                        pow2(hp) == 2 * pow2(hc),
                ;
                assert((i_old + 1) * pow2(hc) == (i + 1) * pow2(hp)) by (nonlinear_arith)
                    requires
                        pow2(hp) == 2 * pow2(hc),
                        i_old == 2 * i + 1,
                ;
                assert(i * pow2(hp) + pow2(hp) == (i + 1) * pow2(hp)) by (nonlinear_arith);
                // The parent's subtree ends exactly at the position just
                // appended, so it is now completely filled.
                assert(i * pow2(hp) + pow2(hp) == new_values.len());
                assert(h == node_digest(new_values, hp, (i * pow2(hp)) as nat));
            }

            self.tree[d][i] = h;

            proof {
                let hp = (dp - d) as nat;
                assert(covers(dp as nat, d as int, i as int, k as int)) by {
                    lemma_pow2_pos(hp);
                    assert(i * pow2(hp) + pow2(hp) == (i + 1) * pow2(hp)) by (nonlinear_arith);
                }
                assert forall|dd: int, ii: int|
                    0 <= dd <= dp && 0 <= ii < pow2(dd as nat) && !(dd < d && covers(
                        dp as nat,
                        dd,
                        ii,
                        k as int,
                    )) implies (#[trigger] self.tree@[dd]@[ii]) == node_digest(
                    new_values,
                    (dp - dd) as nat,
                    (ii * pow2((dp - dd) as nat)) as nat,
                ) by {
                    if dd == d && ii != i {
                        if covers(dp as nat, dd, ii, k as int) {
                            lemma_covers_unique(dp as nat, dd, ii, i as int, k as int);
                        }
                    }
                }
            }
        }

        proof {
            assert forall|dd: int, ii: int|
                0 <= dd <= dp && 0 <= ii < pow2(dd as nat) implies (#[trigger] self.tree@[dd]@[ii])
                == node_digest(
                new_values,
                (dp - dd) as nat,
                (ii * pow2((dp - dd) as nat)) as nat,
            ) by {
                if dd < d && covers(dp as nat, dd, ii, k as int) {
                    let hh = (dp - dd) as nat;
                    lemma_ancestor_subtree_open(dp as nat, d as int, i as int, dd, ii, k as int);
                    assert(ii * pow2(hh) + pow2(hh) == (ii + 1) * pow2(hh)) by (nonlinear_arith);
                    assert(self.tree@[dd]@[ii] == placeholder_digest(hh));
                }
            }
        }

        self.index = self.index + 1;
        Ok(())
    }

    /// Returns the inclusion proof for the leaf at `index`, or reports
    /// `IndexNotYetAppended` when that position has not been filled.
    ///
    /// The proof has `depth + 1` entries: entry 0 carries the declared root
    /// digest, and entry `d` for `d >= 1` the digest of the sibling needed at
    /// level `d`, paired with `true` when that sibling stands to the right.
    pub fn generate_proof(&self, index: usize) -> (r: Result<Vec<(u64, bool)>, MerkleError>)
        requires
            self.wf(),
        ensures
            r is Ok <==> index < self.spec_values().len(),
            r matches Ok(p) ==> p@ == proof_entries(
                self.spec_values(),
                self.spec_depth(),
                self.spec_root_hash(),
                index as nat,
            ),
            r is Err ==> r == Err::<Vec<(u64, bool)>, MerkleError>(MerkleError::IndexNotYetAppended),
    {
        if index >= self.index {
            return Err(MerkleError::IndexNotYetAppended);
        }
        let dp = self.depth;
        proof {
            lemma_pow2_exceeds(dp as nat);
        }

        let mut proof: Vec<(u64, bool)> = Vec::new();
        let mut t: usize = 0;
        while t < dp + 1
            invariant
                dp < usize::MAX,
                t <= dp + 1,
                proof@.len() == t,
            decreases dp + 1 - t,
        {
            proof.push((0, false));
            t = t + 1;
        }

        let ghost values = self.spec_values();
        let mut i = index;
        let mut d = dp;
        proof {
            lemma2_to64();
            lemma_div_basics(index as int);
        }
        while d >= 1
            invariant
                self.wf(),
                self.depth == dp,
                d <= dp,
                index < self.spec_values().len(),
                values == self.spec_values(),
                i == index as int / pow2((dp - d) as nat) as int,
                proof@.len() == dp + 1,
                forall|td: int|
                    d < td <= dp ==> proof@[td] == proof_entry(
                        values,
                        dp as nat,
                        self.spec_root_hash(),
                        index as nat,
                        td,
                    ),
            decreases d,
        {
            let ghost h = (dp - d) as nat;
            proof {
                lemma_pow2_pos(h);
                lemma_pow2_unfold(d as nat);
                lemma_pow2_unfold((h + 1) as nat);
                lemma_pow2_adds((dp - d) as nat, d as nat);
                // The path position at this level is below the level's width.
                assert(i < pow2(d as nat)) by {
                    lemma_multiply_divide_lt(index as int, pow2(h) as int, pow2(d as nat) as int);
                }
                lemma_div_denominator(index as int, pow2(h) as int, 2);
            }
            let elem = if i % 2 == 0 {
                proof {
                    let p = i as int;
                    assert((p + 1) * (pow2(h) as int) == p * pow2(h) + pow2(h)) by (nonlinear_arith);
                }
                (self.tree[d][i + 1], true)
            } else {
                proof {
                    let p = i as int;
                    assert((p - 1) * (pow2(h) as int) == p * pow2(h) - pow2(h)) by (nonlinear_arith);
                }
                (self.tree[d][i - 1], false)
            };
            proof[d] = elem;
            i = i / 2;
            d = d - 1;
        }
        proof[0] = (self.root_hash, true);
        proof {
            assert(proof@ =~= proof_entries(
                values,
                dp as nat,
                self.spec_root_hash(),
                index as nat,
            ));
        }
        Ok(proof)
    }

    /// Checks an inclusion proof: recomputes the digest of `data`, combines
    /// it upward with the sibling digests the proof carries, and compares the
    /// result with the digest in the proof's root entry. A malformed proof
    /// (wrong length) yields `false`; nothing is mutated and nothing raised.
    pub fn verify(&self, data: &String, proof: &Vec<(u64, bool)>) -> (r: bool)
        requires
            self.wf(),
        ensures
            r == spec_verify(self.spec_depth(), data@, proof@),
    {
        proof {
            lemma_pow2_exceeds(self.depth as nat);
        }
        if proof.len() != self.depth + 1 {
            return false;
        }
        let mut hash = calculate_hash(data);
        let mut d = self.depth;
        while d >= 1
            invariant
                d <= self.depth,
                proof@.len() == self.depth + 1,
                climb(hash_of(data@), proof@, self.depth as int) == climb(hash, proof@, d as int),
            decreases d,
        {
            let step = proof[d];
            hash = if step.1 {
                concat_hash(hash, step.0)
            } else {
                concat_hash(step.0, hash)
            };
            d = d - 1;
        }
        hash == proof[0].0
    }

    /// Every stored digest is the one `node_digest` prescribes for the values
    /// appended so far: the stored state is a function of the depth and the
    /// value sequence alone.
    pub proof fn lemma_stored_digest(&self, level: nat, i: nat)
        requires
            self.wf(),
            level <= self.spec_depth(),
            i < pow2(level),
        ensures
            self.spec_digest(level, i) == node_digest(
                self.spec_values(),
                (self.spec_depth() - level) as nat,
                (i * pow2((self.spec_depth() - level) as nat)) as nat,
            ),
    {
        assert(self.tree@[level as int]@[i as int] == node_digest(
            self.data.deep_view(),
            (self.depth - level) as nat,
            ((i as int) * pow2((self.depth - level) as nat)) as nat,
        ));
    }

    /// The tree's depth: level `depth` holds the leaves.
    pub fn depth(&self) -> (r: usize)
        ensures
            r == self.spec_depth(),
    {
        self.depth
    }

    /// The declared root digest, stored verbatim at construction for external
    /// comparison; validating it is the caller's responsibility.
    pub fn root_hash(&self) -> (r: u64)
        ensures
            r == self.spec_root_hash(),
    {
        self.root_hash
    }

    /// The next free leaf position: the number of values appended so far.
    pub fn next_index(&self) -> (r: usize)
        requires
            self.wf(),
        ensures
            r == self.spec_values().len(),
    {
        self.index
    }

    /// The number of leaf positions: `2^depth`.
    pub fn capacity(&self) -> (r: usize)
        requires
            self.wf(),
        ensures
            r == pow2(self.spec_depth()),
    {
        pow2_exec(self.depth)
    }

    /// The digest stored at level `level`, position `i`.
    pub fn digest(&self, level: usize, i: usize) -> (r: u64)
        requires
            self.wf(),
            level <= self.spec_depth(),
            i < pow2(level as nat),
        ensures
            r == self.spec_digest(level as nat, i as nat),
            r == node_digest(
                self.spec_values(),
                (self.spec_depth() - level) as nat,
                (i * pow2((self.spec_depth() - level) as nat)) as nat,
            ),
    {
        self.tree[level][i]
    }

    /// The value appended at leaf position `index`.
    pub fn leaf_value(&self, index: usize) -> (r: &String)
        requires
            self.wf(),
            index < self.spec_values().len(),
        ensures
            r@ == self.spec_values()[index as int],
    {
        &self.data[index]
    }
}

/// Computes `2^e` by doubling.
fn pow2_exec(e: usize) -> (r: usize)
    requires
        pow2(e as nat) <= usize::MAX,
    ensures
        r == pow2(e as nat),
{
    proof {
        lemma2_to64();
    }
    let mut r: usize = 1;
    let mut j: usize = 0;
    while j < e
        invariant
            j <= e,
            r == pow2(j as nat),
            pow2(e as nat) <= usize::MAX,
        decreases e - j,
    {
        proof {
            lemma_pow2_unfold((j + 1) as nat);
            if j + 1 < e {
                lemma_pow2_strictly_increases((j + 1) as nat, e as nat);
            }
        }
        r = r * 2;
        j = j + 1;
    }
    r
}

} // verus!
