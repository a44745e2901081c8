use vstd::prelude::*;
use vstd::utf8::encode_utf8;

use crate::codec::{address_bytes, decode_address, is_valid_address, prefixed_hex, to_prefixed_hex};
use crate::error::MerkleError;
use crate::hashing::{keccak_of, Digest, Keccak256};
use crate::tree::{digests_view, proof_of, root_of, MerkleTree};

verus! {

/// Whether an address string decodes.
pub open spec fn address_ok(address: Seq<char>) -> bool {
    is_valid_address(encode_utf8(address))
}

/// The leaf digest of an address: Keccak-256 over its decoded bytes.
pub open spec fn address_leaf(address: Seq<char>) -> Seq<u8> {
    keccak_of(address_bytes(encode_utf8(address)))
}

/// Whether every address before position `end` decodes.
pub open spec fn all_ok_before(addresses: Seq<String>, end: int) -> bool {
    forall|i: int| 0 <= i < end ==> address_ok(#[trigger] addresses[i]@)
}

/// The leaf digests of a list of addresses, in order.
pub open spec fn leaves_of(addresses: Seq<String>) -> Seq<Seq<u8>> {
    Seq::new(addresses.len(), |i: int| address_leaf(addresses[i]@))
}

/// The `0x` hex text of each digest in a list.
pub open spec fn hex_list(digests: Seq<Seq<u8>>) -> Seq<Seq<char>> {
    digests.map_values(|d: Seq<u8>| prefixed_hex(d))
}

/// The characters of each string in a list.
pub open spec fn strings_view(v: Seq<String>) -> Seq<Seq<char>> {
    v.map_values(|s: String| s@)
}

/// One address with its inclusion proof, digests as `0x` hex text.
pub struct ProofRecord {
    pub address: String,
    pub proof: Vec<String>,
}

/// The shared root and one proof record per address, in input order.
pub struct Output {
    pub merkle_root: String,
    pub proofs: Vec<ProofRecord>,
}

/// The leaf digest of one address; `None` when the address does not decode.
pub fn leaf_digest(address: &str) -> (r: Option<Digest>)
    ensures
        r is Some <==> address_ok(address@),
        r matches Some(d) ==> d@ == address_leaf(address@),
{
    match decode_address(address) {
        Some(bytes) => Some(Keccak256::hash(bytes.as_slice())),
        None => None,
    }
}

/// The leaf digests of all addresses, in order; fails on the first address
/// that does not decode.
pub fn hash_addresses(addresses: &Vec<String>) -> (r: Result<Vec<Digest>, MerkleError>)
    ensures
        r is Ok <==> all_ok_before(addresses@, addresses@.len() as int),
        r matches Ok(d) ==> digests_view(d@) == leaves_of(addresses@),
        r matches Err(e) ==> exists|i: int|
            0 <= i < addresses@.len() && all_ok_before(addresses@, i) && !address_ok(
                #[trigger] addresses@[i]@,
            ) && e == (MerkleError::InvalidAddressFormat {
                index: i as usize,
                address: addresses@[i],
            }),
{
    let mut out: Vec<Digest> = Vec::new();
    let mut i: usize = 0;
    while i < addresses.len()
        invariant
            i <= addresses@.len(),
            all_ok_before(addresses@, i as int),
            out@.len() == i,
            forall|m: int| 0 <= m < i ==> #[trigger] out@[m]@ == address_leaf(addresses@[m]@),
        decreases addresses@.len() - i,
    {
        match leaf_digest(addresses[i].as_str()) {
            Some(d) => {
                out.push(d);
            },
            None => {
                return Err(
                    MerkleError::InvalidAddressFormat { index: i, address: addresses[i].clone() },
                );
            },
        }
        i = i + 1;
    }
    assert(digests_view(out@) =~= leaves_of(addresses@));
    Ok(out)
}

/// The `0x` hex text of each digest, in order.
pub fn digests_to_hex(digests: &Vec<Digest>) -> (r: Vec<String>)
    ensures
        strings_view(r@) == hex_list(digests_view(digests@)),
{
    let mut out: Vec<String> = Vec::new();
    let mut i: usize = 0;
    while i < digests.len()
        invariant
            i <= digests@.len(),
            out@.len() == i,
            forall|m: int| 0 <= m < i ==> #[trigger] out@[m]@ == prefixed_hex(digests@[m]@),
        decreases digests@.len() - i,
    {
        out.push(to_prefixed_hex(&digests[i]));
        i = i + 1;
    }
    assert(strings_view(out@) =~= hex_list(digests_view(digests@)));
    out
}

/// Builds the tree over the addresses, in input order, and pairs each
/// address with its inclusion proof and the shared root.
pub fn generate(addresses: &Vec<String>) -> (r: Result<Output, MerkleError>)
    ensures
        addresses@.len() == 0 ==> r == Err::<Output, MerkleError>(MerkleError::EmptyLeafSet),
        r is Ok <==> addresses@.len() > 0 && all_ok_before(addresses@, addresses@.len() as int),
        addresses@.len() > 0 ==> (r matches Err(e) ==> exists|i: int|
            0 <= i < addresses@.len() && all_ok_before(addresses@, i) && !address_ok(
                #[trigger] addresses@[i]@,
            ) && e == (MerkleError::InvalidAddressFormat {
                index: i as usize,
                address: addresses@[i],
            })),
        r matches Ok(out) ==> {
            &&& out.merkle_root@ == prefixed_hex(root_of(leaves_of(addresses@)))
            &&& out.proofs@.len() == addresses@.len()
            &&& forall|i: int|
                0 <= i < addresses@.len() ==> {
                    &&& (#[trigger] out.proofs@[i]).address == addresses@[i]
                    &&& strings_view(out.proofs@[i].proof@) == hex_list(
                        proof_of(leaves_of(addresses@), i),
                    )
                }
        },
{
    if addresses.len() == 0 {
        return Err(MerkleError::EmptyLeafSet);
    }
    let leaves = match hash_addresses(addresses) {
        Ok(l) => l,
        Err(e) => {
            return Err(e);
        },
    };
    assert(digests_view(leaves@).len() == leaves@.len());
    assert(leaves_of(addresses@).len() == addresses@.len());
    let tree = match MerkleTree::from_leaves(&leaves) {
        Ok(t) => t,
        Err(e) => {
            return Err(e);
        },
    };
    let ghost lv = leaves_of(addresses@);
    let root = tree.root();
    let merkle_root = to_prefixed_hex(&root);
    let mut proofs: Vec<ProofRecord> = Vec::new();
    let n = addresses.len();
    let mut i: usize = 0;
    while i < n
        invariant
            n == addresses@.len(),
            tree.well_formed(),
            tree.leaves() == lv,
            lv == leaves_of(addresses@),
            i <= n,
            proofs@.len() == i,
            forall|m: int|
                0 <= m < i ==> {
                    &&& (#[trigger] proofs@[m]).address == addresses@[m]
                    &&& strings_view(proofs@[m].proof@) == hex_list(proof_of(lv, m))
                },
        decreases n - i,
    {
        let path = match tree.inclusion_proof(i) {
            Ok(p) => p,
            Err(e) => {
                return Err(e);
            },
        };
        let hex = digests_to_hex(&path);
        proofs.push(ProofRecord { address: addresses[i].clone(), proof: hex });
        i = i + 1;
    }
    Ok(Output { merkle_root, proofs })
}

} // verus!
