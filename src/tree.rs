use vstd::prelude::*;

use crate::error::MerkleError;
use crate::hashing::{hash_pair, pair_digest, Digest};

verus! {

/// The byte sequences held by a list of digests.
pub open spec fn digests_view(v: Seq<Digest>) -> Seq<Seq<u8>> {
    v.map_values(|d: Digest| d@)
}

/// The right child of parent `k`: the node after the left child, or the left
/// child itself when the level ends there (the odd node is duplicated).
pub open spec fn right_child(level: Seq<Seq<u8>>, k: int) -> Seq<u8> {
    if 2 * k + 1 < level.len() {
        level[2 * k + 1]
    } else {
        level[2 * k]
    }
}

/// The level above `level`: nodes paired left to right, each pair hashed.
pub open spec fn parent_level(level: Seq<Seq<u8>>) -> Seq<Seq<u8>> {
    Seq::new(
        ((level.len() + 1) / 2) as nat,
        |k: int| pair_digest(level[2 * k], right_child(level, k)),
    )
}

/// The node paired with position `i` of `level`.
pub open spec fn sibling_of(level: Seq<Seq<u8>>, i: int) -> Seq<u8> {
    if i % 2 == 0 {
        if i + 1 < level.len() {
            level[i + 1]
        } else {
            level[i]
        }
    } else {
        level[i - 1]
    }
}

/// The root of the tree whose bottom level is `level`.
pub open spec fn root_of(level: Seq<Seq<u8>>) -> Seq<u8>
    decreases level.len(),
{
    if level.len() <= 1 {
        level[0]
    } else {
        root_of(parent_level(level))
    }
}

/// The inclusion proof of position `i`: one sibling per level, leaf to root.
pub open spec fn proof_of(level: Seq<Seq<u8>>, i: int) -> Seq<Seq<u8>>
    decreases level.len(),
{
    if level.len() <= 1 {
        seq![]
    } else {
        seq![sibling_of(level, i)] + proof_of(parent_level(level), i / 2)
    }
}

/// Hashes one level into the level above it.
pub fn next_level(level: &Vec<Digest>) -> (r: Vec<Digest>)
    ensures
        digests_view(r@) == parent_level(digests_view(level@)),
{
    let ghost lv = digests_view(level@);
    let n = level.len();
    let mut out: Vec<Digest> = Vec::new();
    let half: usize = n / 2 + n % 2;
    let mut k: usize = 0;
    while k < half
        invariant
            n == level@.len(),
            half == (n + 1) / 2,
            lv == digests_view(level@),
            k <= half,
            out@.len() == k,
            forall|m: int| 0 <= m < k ==> #[trigger] out@[m]@ == pair_digest(lv[2 * m], right_child(lv, m)),
        decreases half - k,
    {
        let left = 2 * k;
        let right = if left + 1 < n { left + 1 } else { left };
        let d = hash_pair(&level[left], &level[right]);
        out.push(d);
        k = k + 1;
    }
    assert(digests_view(out@) =~= parent_level(lv));
    out
}

/// A Merkle tree kept as its levels: level 0 holds the leaves, each level
/// above holds the parents of the one below, the last holds the root alone.
pub struct MerkleTree {
    levels: Vec<Vec<Digest>>,
}

impl MerkleTree {
    /// The levels, bottom first, as byte sequences.
    pub closed spec fn levels_view(&self) -> Seq<Seq<Seq<u8>>> {
        levels_of(self.levels@)
    }

    /// The leaf digests, in input order.
    pub closed spec fn leaves(&self) -> Seq<Seq<u8>> {
        self.levels_view()[0]
    }

    /// Each level is the parent level of the one below, down to at least one
    /// leaf, up to a single root.
    pub closed spec fn well_formed(&self) -> bool {
        is_level_chain(self.levels_view())
    }

    /// The number of leaves.
    pub fn leaf_count(&self) -> (r: usize)
        requires
            self.well_formed(),
        ensures
            r == self.leaves().len(),
    {
        self.levels[0].len()
    }

    /// Builds the tree over `leaves`, in their order; fails on an empty list.
    pub fn from_leaves(leaves: &Vec<Digest>) -> (r: Result<MerkleTree, MerkleError>)
        ensures
            leaves@.len() == 0 <==> r is Err,
            r is Err ==> r == Err::<MerkleTree, MerkleError>(MerkleError::EmptyLeafSet),
            r matches Ok(t) ==> t.well_formed() && t.leaves() == digests_view(leaves@),
    {
        if leaves.len() == 0 {
            return Err(MerkleError::EmptyLeafSet);
        }
        let mut bottom: Vec<Digest> = Vec::new();
        let mut i: usize = 0;
        while i < leaves.len()
            invariant
                i <= leaves@.len(),
                bottom@ == leaves@.subrange(0, i as int),
            decreases leaves@.len() - i,
        {
            bottom.push(leaves[i]);
            i = i + 1;
        }
        assert(bottom@ =~= leaves@);
        let mut levels: Vec<Vec<Digest>> = Vec::new();
        levels.push(bottom);
        let ghost lv0 = digests_view(leaves@);
        assert(levels_of(levels@) =~= seq![lv0]);
        while levels[levels.len() - 1].len() > 1
            invariant
                levels_of(levels@)[0] == lv0,
                is_partial_chain(levels_of(levels@)),
            decreases levels@[levels@.len() - 1]@.len(),
        {
            let ghost before = levels_of(levels@);
            let next = next_level(&levels[levels.len() - 1]);
            levels.push(next);
            assert(levels_of(levels@) =~= before.push(digests_view(next@)));
        }
        let t = MerkleTree { levels };
        assert(is_level_chain(t.levels_view()));
        Ok(t)
    }

    /// The root digest.
    pub fn root(&self) -> (r: Digest)
        requires
            self.well_formed(),
        ensures
            r@ == root_of(self.leaves()),
    {
        proof {
            lemma_chain_root(self.levels_view(), 0);
        }
        let top = &self.levels[self.levels.len() - 1];
        top[0]
    }

    /// The inclusion proof of leaf `index`: its sibling at each level, leaf
    /// to root; fails when the tree has no such leaf.
    pub fn inclusion_proof(&self, index: usize) -> (r: Result<Vec<Digest>, MerkleError>)
        requires
            self.well_formed(),
        ensures
            index < self.leaves().len() <==> r is Ok,
            r is Err ==> r == Err::<Vec<Digest>, MerkleError>(
                MerkleError::IndexOutOfRange { index, leaf_count: self.leaves().len() as usize },
            ),
            r matches Ok(p) ==> digests_view(p@) == proof_of(self.leaves(), index as int),
    {
        let n = self.levels[0].len();
        if index >= n {
            return Err(MerkleError::IndexOutOfRange { index, leaf_count: n });
        }
        let ghost lv = self.levels_view();
        let mut path: Vec<Digest> = Vec::new();
        let mut idx: usize = index;
        let mut k: usize = 0;
        let top = self.levels.len() - 1;
        while k < top
            invariant
                lv == self.levels_view(),
                is_level_chain(lv),
                top == lv.len() - 1,
                k <= top,
                idx < lv[k as int].len(),
                digests_view(path@) + proof_of(lv[k as int], idx as int) == proof_of(
                    lv[0],
                    index as int,
                ),
            decreases top - k,
        {
            let level = &self.levels[k];
            let sib = if idx % 2 == 0 {
                if idx + 1 < level.len() {
                    idx + 1
                } else {
                    idx
                }
            } else {
                idx - 1
            };
            let ghost prev = digests_view(path@);
            path.push(level[sib]);
            proof {
                assert(digests_view(path@) =~= prev.push(lv[k as int][sib as int]));
                assert(lv[k as int].len() > 1);
                assert(prev + proof_of(lv[k as int], idx as int) =~= digests_view(path@)
                    + proof_of(lv[k + 1], (idx / 2) as int));
            }
            idx = idx / 2;
            k = k + 1;
        }
        proof {
            assert(proof_of(lv[top as int], idx as int) =~= seq![]);
            assert(digests_view(path@) =~= digests_view(path@) + proof_of(lv[top as int], idx as int));
        }
        Ok(path)
    }
}

/// The byte sequences held by a list of levels.
pub open spec fn levels_of(v: Seq<Vec<Digest>>) -> Seq<Seq<Seq<u8>>> {
    v.map_values(|l: Vec<Digest>| digests_view(l@))
}

/// `lv` lists tree levels bottom first, up to some height: at least one
/// leaf, each level the parent level of the one below.
pub open spec fn is_partial_chain(lv: Seq<Seq<Seq<u8>>>) -> bool {
    &&& lv.len() >= 1
    &&& lv[0].len() >= 1
    &&& lv[lv.len() - 1].len() >= 1
    &&& forall|k: int|
        0 <= k < lv.len() - 1 ==> #[trigger] lv[k].len() > 1 && lv[k + 1] == parent_level(lv[k])
}

/// `lv` lists all tree levels bottom first: a partial chain with a single
/// node on top.
pub open spec fn is_level_chain(lv: Seq<Seq<Seq<u8>>>) -> bool {
    &&& is_partial_chain(lv)
    &&& lv[lv.len() - 1].len() == 1
}

/// Every level of a chain leads to the same root: the node on top.
proof fn lemma_chain_root(lv: Seq<Seq<Seq<u8>>>, k: int)
    requires
        is_level_chain(lv),
        0 <= k < lv.len(),
    ensures
        root_of(lv[k]) == lv[lv.len() - 1][0],
    decreases lv.len() - k,
{
    if k < lv.len() - 1 {
        assert(lv[k].len() > 1);
        lemma_chain_root(lv, k + 1);
    }
}

} // verus!
