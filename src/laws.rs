use vstd::prelude::*;
use vstd::arithmetic::power2::{lemma2_to64, lemma_pow2_unfold, pow2};
use vstd::utf8::encode_utf8;

use crate::allowlist::{address_leaf, leaves_of, strings_view};
use crate::codec::address_bytes;
use crate::hashing::keccak_of;
use crate::inclusion::{fold_proof, step_up};
use crate::tree::{parent_level, proof_of, right_child, root_of, sibling_of};

verus! {

/// Two different sequences among `inputs` share a Keccak-256 digest.
pub open spec fn collides_in(inputs: Seq<Seq<u8>>) -> bool {
    exists|x: Seq<u8>, y: Seq<u8>|
        #[trigger] inputs.contains(x) && #[trigger] inputs.contains(y) && x != y && keccak_of(x)
            == keccak_of(y)
}

/// The Keccak-256 digest of every sequence among `inputs` is 32 bytes long.
pub open spec fn digests_full_length(inputs: Seq<Seq<u8>>) -> bool {
    forall|x: Seq<u8>| #[trigger] inputs.contains(x) ==> keccak_of(x).len() == 32
}

/// What is hashed to climb one level from `cur` at position `i` past `sib`.
pub open spec fn step_input(cur: Seq<u8>, i: int, sib: Seq<u8>) -> Seq<u8> {
    if i % 2 == 0 {
        cur + sib
    } else {
        sib + cur
    }
}

/// Everything hashed while climbing from `leaf` at position `i` along `proof`.
pub open spec fn fold_inputs(leaf: Seq<u8>, i: int, proof: Seq<Seq<u8>>) -> Seq<Seq<u8>>
    decreases proof.len(),
{
    if proof.len() == 0 {
        seq![]
    } else {
        seq![step_input(leaf, i, proof[0])] + fold_inputs(
            step_up(leaf, i, proof[0]),
            i / 2,
            proof.drop_first(),
        )
    }
}

/// What is hashed to form each node of the level above `level`.
pub open spec fn pair_inputs(level: Seq<Seq<u8>>) -> Seq<Seq<u8>> {
    Seq::new(((level.len() + 1) / 2) as nat, |k: int| level[2 * k] + right_child(level, k))
}

/// Everything hashed while building the levels above `level`.
pub open spec fn tree_inputs(level: Seq<Seq<u8>>) -> Seq<Seq<u8>>
    decreases level.len(),
{
    if level.len() <= 1 {
        seq![]
    } else {
        pair_inputs(level) + tree_inputs(parent_level(level))
    }
}

/// The decoded bytes of each address.
pub open spec fn address_inputs(a: Seq<String>) -> Seq<Seq<u8>> {
    Seq::new(a.len(), |m: int| address_bytes(encode_utf8(a[m]@)))
}

/// `a` with the entries at `i` and `j` exchanged.
pub open spec fn swapped(a: Seq<String>, i: int, j: int) -> Seq<String> {
    a.update(i, a[j]).update(j, a[i])
}

/// Everything hashed to build the trees over `a` and over `a` with the
/// entries at `i` and `j` exchanged, leaves included.
pub open spec fn swap_inputs(a: Seq<String>, i: int, j: int) -> Seq<Seq<u8>> {
    address_inputs(a) + tree_inputs(leaves_of(a)) + tree_inputs(leaves_of(swapped(a, i, j)))
}

proof fn lemma_contains_concat(s: Seq<Seq<u8>>, t: Seq<Seq<u8>>)
    ensures
        forall|x: Seq<u8>| #[trigger] (s + t).contains(x) <==> s.contains(x) || t.contains(x),
{
    assert forall|x: Seq<u8>| (s + t).contains(x) implies s.contains(x) || t.contains(x) by {
        let k = choose|k: int| 0 <= k < (s + t).len() && (s + t)[k] == x;
        if k < s.len() {
            assert(s[k] == x);
        } else {
            assert(t[k - s.len()] == x);
        }
    }
    assert forall|x: Seq<u8>| s.contains(x) || t.contains(x) implies (s + t).contains(x) by {
        if s.contains(x) {
            let k = choose|k: int| 0 <= k < s.len() && s[k] == x;
            assert((s + t)[k] == x);
        } else {
            let k = choose|k: int| 0 <= k < t.len() && t[k] == x;
            assert((s + t)[k + s.len()] == x);
        }
    }
}

/// A collision among some inputs is a collision among any that hold them.
proof fn lemma_collides_within(s: Seq<Seq<u8>>, t: Seq<Seq<u8>>)
    requires
        collides_in(s),
        forall|x: Seq<u8>| #[trigger] s.contains(x) ==> t.contains(x),
    ensures
        collides_in(t),
{
    let (x, y) = choose|x: Seq<u8>, y: Seq<u8>|
        #[trigger] s.contains(x) && #[trigger] s.contains(y) && x != y && keccak_of(x)
            == keccak_of(y);
    assert(t.contains(x) && t.contains(y));
}

/// Two different inputs with a digest in common witness a collision.
proof fn lemma_collision(inputs: Seq<Seq<u8>>, x: Seq<u8>, y: Seq<u8>)
    requires
        inputs.contains(x),
        inputs.contains(y),
        x != y,
        keccak_of(x) == keccak_of(y),
    ensures
        collides_in(inputs),
{
}

/// Equal address lists give equal leaves, an equal root and equal proofs.
pub proof fn law_determinism(a: Seq<String>, b: Seq<String>)
    requires
        strings_view(a) == strings_view(b),
    ensures
        leaves_of(a) == leaves_of(b),
        root_of(leaves_of(a)) == root_of(leaves_of(b)),
        forall|i: int| #[trigger] proof_of(leaves_of(a), i) == proof_of(leaves_of(b), i),
{
    assert(a.len() == strings_view(a).len());
    assert(b.len() == strings_view(b).len());
    assert forall|i: int| 0 <= i < a.len() implies a[i]@ == b[i]@ by {
        assert(strings_view(a)[i] == a[i]@);
        assert(strings_view(b)[i] == b[i]@);
    }
    assert(leaves_of(a) =~= leaves_of(b));
}

/// The parent of a node, computed from the node and its sibling in the
/// order that the node's parity gives, is the node one level up.
proof fn lemma_step_is_parent(level: Seq<Seq<u8>>, i: int)
    requires
        0 <= i < level.len(),
    ensures
        step_up(level[i], i, sibling_of(level, i)) == parent_level(level)[i / 2],
        i / 2 < parent_level(level).len(),
{
    if i % 2 == 0 {
        assert(2 * (i / 2) == i);
        assert(right_child(level, i / 2) == sibling_of(level, i));
    } else {
        assert(2 * (i / 2) + 1 == i);
    }
}

/// Each leaf's proof leads from that leaf back to the root.
pub proof fn law_proof_valid(leaves: Seq<Seq<u8>>, i: int)
    requires
        0 <= i < leaves.len(),
    ensures
        fold_proof(leaves[i], i, proof_of(leaves, i)) == root_of(leaves),
    decreases leaves.len(),
{
    if leaves.len() > 1 {
        let parent = parent_level(leaves);
        lemma_step_is_parent(leaves, i);
        law_proof_valid(parent, i / 2);
        let p = proof_of(leaves, i);
        assert(p[0] == sibling_of(leaves, i));
        assert(p.drop_first() =~= proof_of(parent, i / 2));
    }
}

/// Prepending or appending the same sequence keeps two sequences apart.
proof fn lemma_concat_apart(x: Seq<u8>, y: Seq<u8>, s: Seq<u8>)
    requires
        x != y,
    ensures
        x + s != y + s,
        s + x != s + y,
{
    if x + s == y + s {
        assert((x + s).len() == (y + s).len());
        assert(x =~= (x + s).subrange(0, x.len() as int));
        assert(y =~= (y + s).subrange(0, y.len() as int));
    }
    if s + x == s + y {
        assert(x =~= (s + x).subrange(s.len() as int, (s + x).len() as int));
        assert(y =~= (s + y).subrange(s.len() as int, (s + y).len() as int));
    }
}

/// Climbing one level hashes the step input.
proof fn lemma_step_hashes_input(cur: Seq<u8>, i: int, sib: Seq<u8>)
    ensures
        step_up(cur, i, sib) == keccak_of(step_input(cur, i, sib)),
{
}

/// The inputs of a climb are its first step input and those of the rest.
proof fn lemma_fold_inputs_unfold(x: Seq<u8>, i: int, p: Seq<Seq<u8>>)
    requires
        p.len() > 0,
    ensures
        fold_inputs(x, i, p).contains(step_input(x, i, p[0])),
        forall|z: Seq<u8>|
            #[trigger] fold_inputs(step_up(x, i, p[0]), i / 2, p.drop_first()).contains(z)
                ==> fold_inputs(x, i, p).contains(z),
{
    let head = seq![step_input(x, i, p[0])];
    let rest = fold_inputs(step_up(x, i, p[0]), i / 2, p.drop_first());
    lemma_contains_concat(head, rest);
    assert(head[0] == step_input(x, i, p[0]));
    assert(head.contains(step_input(x, i, p[0])));
}

/// Different starting digests climb to different roots along one proof,
/// unless two of the inputs hashed on the way collide.
proof fn lemma_fold_apart(x: Seq<u8>, y: Seq<u8>, i: int, p: Seq<Seq<u8>>)
    requires
        x != y,
    ensures
        fold_proof(x, i, p) != fold_proof(y, i, p) || collides_in(
            fold_inputs(x, i, p) + fold_inputs(y, i, p),
        ),
    decreases p.len(),
{
    if p.len() > 0 {
        let all = fold_inputs(x, i, p) + fold_inputs(y, i, p);
        lemma_contains_concat(fold_inputs(x, i, p), fold_inputs(y, i, p));
        lemma_fold_inputs_unfold(x, i, p);
        lemma_fold_inputs_unfold(y, i, p);
        lemma_concat_apart(x, y, p[0]);
        lemma_step_hashes_input(x, i, p[0]);
        lemma_step_hashes_input(y, i, p[0]);
        let x2 = step_up(x, i, p[0]);
        let y2 = step_up(y, i, p[0]);
        if x2 == y2 {
            lemma_collision(all, step_input(x, i, p[0]), step_input(y, i, p[0]));
        } else {
            lemma_fold_apart(x2, y2, i / 2, p.drop_first());
            let sub = fold_inputs(x2, i / 2, p.drop_first()) + fold_inputs(
                y2,
                i / 2,
                p.drop_first(),
            );
            lemma_contains_concat(
                fold_inputs(x2, i / 2, p.drop_first()),
                fold_inputs(y2, i / 2, p.drop_first()),
            );
            if collides_in(sub) {
                lemma_collides_within(sub, all);
            }
        }
    }
}

/// Changing one entry of a proof changes the root it leads to, unless two
/// of the inputs hashed along the two climbs collide.
proof fn lemma_fold_entry_changed(x: Seq<u8>, i: int, p: Seq<Seq<u8>>, k: int, v: Seq<u8>)
    requires
        0 <= k < p.len(),
        v != p[k],
    ensures
        fold_proof(x, i, p.update(k, v)) != fold_proof(x, i, p) || collides_in(
            fold_inputs(x, i, p.update(k, v)) + fold_inputs(x, i, p),
        ),
    decreases k,
{
    let q = p.update(k, v);
    let all = fold_inputs(x, i, q) + fold_inputs(x, i, p);
    lemma_contains_concat(fold_inputs(x, i, q), fold_inputs(x, i, p));
    lemma_fold_inputs_unfold(x, i, q);
    lemma_fold_inputs_unfold(x, i, p);
    if k == 0 {
        lemma_concat_apart(v, p[0], x);
        lemma_step_hashes_input(x, i, v);
        lemma_step_hashes_input(x, i, p[0]);
        let a = step_up(x, i, v);
        let b = step_up(x, i, p[0]);
        assert(q.drop_first() =~= p.drop_first());
        if a == b {
            lemma_collision(all, step_input(x, i, v), step_input(x, i, p[0]));
        } else {
            lemma_fold_apart(a, b, i / 2, p.drop_first());
            let sub = fold_inputs(a, i / 2, p.drop_first()) + fold_inputs(
                b,
                i / 2,
                p.drop_first(),
            );
            lemma_contains_concat(
                fold_inputs(a, i / 2, p.drop_first()),
                fold_inputs(b, i / 2, p.drop_first()),
            );
            if collides_in(sub) {
                lemma_collides_within(sub, all);
            }
        }
    } else {
        let x1 = step_up(x, i, p[0]);
        assert(q[0] == p[0]);
        assert(q.drop_first() =~= p.drop_first().update(k - 1, v));
        lemma_fold_entry_changed(x1, i / 2, p.drop_first(), k - 1, v);
        let sub = fold_inputs(x1, i / 2, q.drop_first()) + fold_inputs(
            x1,
            i / 2,
            p.drop_first(),
        );
        lemma_contains_concat(
            fold_inputs(x1, i / 2, q.drop_first()),
            fold_inputs(x1, i / 2, p.drop_first()),
        );
        if collides_in(sub) {
            lemma_collides_within(sub, all);
        }
    }
}

/// Flipping any one bit of any sibling in a valid proof makes the proof
/// fail to lead to the root, unless two of the inputs hashed while checking
/// the valid and the altered proof collide.
pub proof fn law_tamper_detection(leaves: Seq<Seq<u8>>, i: int, k: int, byte: int, bit: u8)
    requires
        0 <= i < leaves.len(),
        0 <= k < proof_of(leaves, i).len(),
        0 <= byte < proof_of(leaves, i)[k].len(),
        bit < 8,
    ensures
        ({
            let p = proof_of(leaves, i);
            let t = p.update(k, p[k].update(byte, p[k][byte] ^ (1u8 << bit)));
            fold_proof(leaves[i], i, t) != root_of(leaves) || collides_in(
                fold_inputs(leaves[i], i, t) + fold_inputs(leaves[i], i, p),
            )
        }),
{
    let p = proof_of(leaves, i);
    let b = p[k][byte];
    let flipped = b ^ (1u8 << bit);
    assert(flipped != b) by (bit_vector)
        requires
            flipped == b ^ (1u8 << bit),
            bit < 8,
    ;
    let v = p[k].update(byte, flipped);
    assert(v[byte] != p[k][byte]);
    law_proof_valid(leaves, i);
    lemma_fold_entry_changed(leaves[i], i, p, k, v);
}

/// The inputs above a level are its pair inputs and those above its parent.
proof fn lemma_tree_inputs_unfold(a: Seq<Seq<u8>>)
    requires
        a.len() > 1,
    ensures
        forall|m: int|
            0 <= m < parent_level(a).len() ==> tree_inputs(a).contains(
                #[trigger] pair_inputs(a)[m],
            ),
        forall|z: Seq<u8>|
            #[trigger] tree_inputs(parent_level(a)).contains(z) ==> tree_inputs(a).contains(z),
{
    lemma_contains_concat(pair_inputs(a), tree_inputs(parent_level(a)));
    assert forall|m: int| 0 <= m < parent_level(a).len() implies tree_inputs(a).contains(
        #[trigger] pair_inputs(a)[m],
    ) by {
        assert(pair_inputs(a).contains(pair_inputs(a)[m]));
    }
}

/// Two leaf levels of one length, all digests 32 bytes long, that differ
/// anywhere have different roots, unless two of the inputs hashed above
/// them collide.
proof fn lemma_levels_apart(a: Seq<Seq<u8>>, b: Seq<Seq<u8>>, inv: Seq<Seq<u8>>)
    requires
        a.len() == b.len(),
        a.len() >= 1,
        a != b,
        forall|m: int| 0 <= m < a.len() ==> (#[trigger] a[m]).len() == 32,
        forall|m: int| 0 <= m < b.len() ==> (#[trigger] b[m]).len() == 32,
        forall|z: Seq<u8>| #[trigger] tree_inputs(a).contains(z) ==> inv.contains(z),
        forall|z: Seq<u8>| #[trigger] tree_inputs(b).contains(z) ==> inv.contains(z),
        digests_full_length(inv),
    ensures
        root_of(a) != root_of(b) || collides_in(inv),
    decreases a.len(),
{
    if forall|m: int| 0 <= m < a.len() ==> a[m] == b[m] {
        assert(a =~= b);
    }
    let k = choose|m: int| 0 <= m < a.len() && a[m] != b[m];
    if a.len() == 1 {
        assert(k == 0);
    } else {
        let pa = parent_level(a);
        let pb = parent_level(b);
        lemma_tree_inputs_unfold(a);
        lemma_tree_inputs_unfold(b);
        assert forall|m: int| 0 <= m < pa.len() implies (#[trigger] pa[m]).len() == 32 by {
            assert(inv.contains(pair_inputs(a)[m]));
        }
        assert forall|m: int| 0 <= m < pb.len() implies (#[trigger] pb[m]).len() == 32 by {
            assert(inv.contains(pair_inputs(b)[m]));
        }
        if pa != pb {
            lemma_levels_apart(pa, pb, inv);
        } else {
            let m = k / 2;
            let xa = pair_inputs(a)[m];
            let xb = pair_inputs(b)[m];
            assert(pa[m] == pb[m]);
            assert(inv.contains(xa) && inv.contains(xb));
            if xa != xb {
                lemma_collision(inv, xa, xb);
            } else {
                assert(a[2 * m] =~= xa.subrange(0, 32));
                assert(b[2 * m] =~= xb.subrange(0, 32));
                assert(right_child(a, m) =~= xa.subrange(32, 64));
                assert(right_child(b, m) =~= xb.subrange(32, 64));
                if k == 2 * m {
                } else {
                    assert(k == 2 * m + 1);
                }
            }
        }
    }
}

/// Swapping two addresses that decode to different bytes changes the root,
/// unless two of the inputs hashed to build the two trees collide. The
/// digests of those inputs are 32 bytes long, as Keccak-256 digests are.
pub proof fn law_order_sensitivity(a: Seq<String>, i: int, j: int)
    requires
        0 <= i < j < a.len(),
        address_bytes(encode_utf8(a[i]@)) != address_bytes(encode_utf8(a[j]@)),
        digests_full_length(swap_inputs(a, i, j)),
    ensures
        root_of(leaves_of(a)) != root_of(leaves_of(swapped(a, i, j))) || collides_in(
            swap_inputs(a, i, j),
        ),
{
    let b = swapped(a, i, j);
    let la = leaves_of(a);
    let lb = leaves_of(b);
    let ai = address_inputs(a);
    let inv = swap_inputs(a, i, j);
    lemma_contains_concat(ai + tree_inputs(la), tree_inputs(lb));
    lemma_contains_concat(ai, tree_inputs(la));
    assert forall|m: int| 0 <= m < a.len() implies inv.contains(#[trigger] ai[m]) by {
        assert(ai.contains(ai[m]));
    }
    assert(la[i] == keccak_of(ai[i]));
    assert(lb[i] == keccak_of(ai[j]));
    assert(inv.contains(ai[i]) && inv.contains(ai[j]));
    if la[i] == lb[i] {
        lemma_collision(inv, ai[i], ai[j]);
    } else {
        assert forall|m: int| 0 <= m < la.len() implies (#[trigger] la[m]).len() == 32 by {
            assert(inv.contains(ai[m]));
        }
        assert forall|m: int| 0 <= m < lb.len() implies (#[trigger] lb[m]).len() == 32 by {
            let src = if m == i {
                j
            } else if m == j {
                i
            } else {
                m
            };
            assert(b[m] == a[src]);
            assert(inv.contains(ai[src]));
        }
        lemma_levels_apart(la, lb, inv);
    }
}

/// The number of levels above `n` leaves: halve, rounding up, until one
/// node is left.
pub open spec fn tree_height(n: nat) -> nat
    decreases n,
{
    if n <= 1 {
        0
    } else {
        1 + tree_height(((n + 1) / 2) as nat)
    }
}

/// The height of a tree over `n` leaves is `ceil(log2(n))`: the least `h`
/// with `n <= 2^h`.
proof fn lemma_height_is_ceil_log2(n: nat)
    requires
        n >= 1,
    ensures
        n <= pow2(tree_height(n)),
        tree_height(n) == 0 || pow2((tree_height(n) - 1) as nat) < n,
    decreases n,
{
    lemma2_to64();
    if n > 1 {
        let m = ((n + 1) / 2) as nat;
        lemma_height_is_ceil_log2(m);
        let h = tree_height(n);
        assert(h == 1 + tree_height(m));
        lemma_pow2_unfold(h);
        assert(pow2((h - 1) as nat) == pow2(tree_height(m)));
        if tree_height(m) > 0 {
            lemma_pow2_unfold(tree_height(m));
        }
    }
}

/// Every proof holds one sibling per level: `ceil(log2(n))` entries for
/// `n` leaves, none for a single leaf.
pub proof fn law_proof_length(leaves: Seq<Seq<u8>>, i: int)
    requires
        0 <= i < leaves.len(),
    ensures
        proof_of(leaves, i).len() == tree_height(leaves.len()),
        leaves.len() <= pow2(tree_height(leaves.len())),
        tree_height(leaves.len()) == 0 || pow2((tree_height(leaves.len()) - 1) as nat)
            < leaves.len(),
    decreases leaves.len(),
{
    lemma_height_is_ceil_log2(leaves.len());
    if leaves.len() > 1 {
        law_proof_length(parent_level(leaves), i / 2);
    }
}

/// A single address gives an empty proof and, as root, its own leaf digest:
/// Keccak-256 over its decoded bytes.
pub proof fn law_single_address(a: String)
    ensures
        root_of(leaves_of(seq![a])) == keccak_of(address_bytes(encode_utf8(a@))),
        proof_of(leaves_of(seq![a]), 0) == Seq::<Seq<u8>>::empty(),
{
    assert(leaves_of(seq![a])[0] == address_leaf(a@));
}

} // verus!
