use merkle_generator::{hash_addresses, Digest, Keccak256, MerkleTree};
use rs_merkle::Hasher;

#[derive(Clone)]
struct KeccakForRsMerkle;

impl Hasher for KeccakForRsMerkle {
    type Hash = [u8; 32];

    fn hash(data: &[u8]) -> [u8; 32] {
        Keccak256::hash(data)
    }
}

fn leaves(n: usize) -> Vec<Digest> {
    let addresses: Vec<String> = (0..n).map(|i| format!("0x{:040x}", i + 1)).collect();
    hash_addresses(&addresses).unwrap()
}

#[test]
fn root_matches_rs_merkle_on_full_levels() {
    for n in [1usize, 2, 4, 8, 16] {
        let l = leaves(n);
        let ours = MerkleTree::from_leaves(&l).unwrap();
        let theirs = rs_merkle::MerkleTree::<KeccakForRsMerkle>::from_leaves(&l);
        assert_eq!(Some(ours.root()), theirs.root(), "n={}", n);
        for i in 0..n {
            let p = ours.inclusion_proof(i).unwrap();
            assert_eq!(p, theirs.proof(&[i]).proof_hashes().to_vec(), "n={} i={}", n, i);
        }
    }
}
