use vstd::prelude::*;

use crate::hashing::{hash_pair, pair_digest, Digest};
use crate::tree::digests_view;

verus! {

/// One step up the tree: the parent of `cur` at position `i`, with `sib` on
/// the side that the parity of `i` gives.
pub open spec fn step_up(cur: Seq<u8>, i: int, sib: Seq<u8>) -> Seq<u8> {
    if i % 2 == 0 {
        pair_digest(cur, sib)
    } else {
        pair_digest(sib, cur)
    }
}

/// The root that `proof` leads to from `leaf` at position `i`.
pub open spec fn fold_proof(leaf: Seq<u8>, i: int, proof: Seq<Seq<u8>>) -> Seq<u8>
    decreases proof.len(),
{
    if proof.len() == 0 {
        leaf
    } else {
        fold_proof(step_up(leaf, i, proof[0]), i / 2, proof.drop_first())
    }
}

/// Checks an inclusion proof: climbs from `leaf` at `index`, combining with
/// each sibling in the order that the index's parity gives and halving the
/// index at each level, and compares the result with `root`.
pub fn verify_proof(leaf: &Digest, index: usize, proof: &Vec<Digest>, root: &Digest) -> (r: bool)
    ensures
        r == (fold_proof(leaf@, index as int, digests_view(proof@)) == root@),
{
    let ghost pv = digests_view(proof@);
    let mut cur: Digest = *leaf;
    let mut idx: usize = index;
    let mut k: usize = 0;
    assert(pv.subrange(0, pv.len() as int) =~= pv);
    while k < proof.len()
        invariant
            pv == digests_view(proof@),
            k <= proof@.len(),
            fold_proof(cur@, idx as int, pv.subrange(k as int, pv.len() as int)) == fold_proof(
                leaf@,
                index as int,
                pv,
            ),
        decreases proof@.len() - k,
    {
        let ghost rest = pv.subrange(k as int, pv.len() as int);
        assert(rest.drop_first() =~= pv.subrange(k + 1, pv.len() as int));
        if idx % 2 == 0 {
            cur = hash_pair(&cur, &proof[k]);
        } else {
            cur = hash_pair(&proof[k], &cur);
        }
        idx = idx / 2;
        k = k + 1;
    }
    assert(pv.subrange(k as int, pv.len() as int) =~= seq![]);
    let mut i: usize = 0;
    while i < 32
        invariant
            i <= 32,
            pv == digests_view(proof@),
            cur@ == fold_proof(leaf@, index as int, pv),
            cur@.subrange(0, i as int) == root@.subrange(0, i as int),
        decreases 32 - i,
    {
        if cur[i] != root[i] {
            assert(cur@[i as int] != root@[i as int]);
            return false;
        }
        assert(cur@.subrange(0, i + 1) =~= cur@.subrange(0, i as int).push(cur@[i as int]));
        assert(root@.subrange(0, i + 1) =~= root@.subrange(0, i as int).push(root@[i as int]));
        i = i + 1;
    }
    assert(cur@ =~= cur@.subrange(0, 32));
    assert(root@ =~= root@.subrange(0, 32));
    true
}

} // verus!
