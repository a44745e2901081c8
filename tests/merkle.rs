use merkle_generator::{
    decode_address, generate, hash_addresses, hash_pair, leaf_digest, next_level,
    to_prefixed_hex, verify_proof, Digest, Keccak256, MerkleError, MerkleTree,
};

const ADDR_A: &str = "0xaaaaaaaaaaaaaaaaaaaaaaaaaaaaaaaaaaaaaaaa";
const ADDR_B: &str = "0xbbbbbbbbbbbbbbbbbbbbbbbbbbbbbbbbbbbbbbbb";
const LEAF_A: &str = "0x5ab9a75647463db7d9263bfdf0f9b455fd5a2ff89f446d3dfa3dfe67cae5649d";
const LEAF_B: &str = "0xeb279aac74f4f3342ef71cc0a5321aa36b383c525c7260e761ee23299c5f2f1f";
const ROOT_AB: &str = "0xb27b4decf06b24d9ffa90339b9ab8d3c735a93ff084a101b9295448423d3c796";

fn addr(byte: u8) -> String {
    let mut s = String::from("0x");
    for _ in 0..20 {
        s.push_str(&format!("{:02x}", byte));
    }
    s
}

fn addrs(n: usize) -> Vec<String> {
    (0..n).map(|i| addr(i as u8 + 1)).collect()
}

fn tree_of(addresses: &Vec<String>) -> (Vec<Digest>, MerkleTree) {
    let leaves = hash_addresses(addresses).unwrap();
    let tree = MerkleTree::from_leaves(&leaves).unwrap();
    (leaves, tree)
}

fn hex(d: &[u8]) -> String {
    to_prefixed_hex(d)
}

#[test]
fn keccak_known_vectors() {
    assert_eq!(
        hex(&Keccak256::hash(b"")),
        "0xc5d2460186f7233c927e7db2dcc703c0e500b653ca82273b7bfad8045d85a470"
    );
    assert_eq!(
        hex(&Keccak256::hash(b"abc")),
        "0x4e03657aea45a94fc7d47ba826c8d667c0d1e6e33a64a036ec44f58fa12d6c45"
    );
}

#[test]
fn two_addresses_give_fixed_root_and_proofs() {
    let addresses = vec![ADDR_A.to_string(), ADDR_B.to_string()];
    let out = generate(&addresses).unwrap();
    assert_eq!(out.merkle_root, ROOT_AB);
    assert_eq!(out.proofs.len(), 2);
    assert_eq!(out.proofs[0].address, ADDR_A);
    assert_eq!(out.proofs[0].proof, vec![LEAF_B.to_string()]);
    assert_eq!(out.proofs[1].address, ADDR_B);
    assert_eq!(out.proofs[1].proof, vec![LEAF_A.to_string()]);
}

#[test]
fn two_addresses_root_is_hash_of_leaves_in_input_order() {
    let a = decode_address(ADDR_A).unwrap();
    let b = decode_address(ADDR_B).unwrap();
    let la = Keccak256::hash(&a);
    let lb = Keccak256::hash(&b);
    let mut cat = la.to_vec();
    cat.extend_from_slice(&lb);
    let expected = Keccak256::hash(&cat);
    let out = generate(&vec![ADDR_A.to_string(), ADDR_B.to_string()]).unwrap();
    assert_eq!(out.merkle_root, hex(&expected));
    assert_eq!(hash_pair(&la, &lb), expected);
    assert_ne!(hash_pair(&lb, &la), expected);
}

#[test]
fn odd_level_duplicates_last_node() {
    let addresses = vec![addr(0x11), addr(0x22), addr(0x33)];
    let out = generate(&addresses).unwrap();
    assert_eq!(
        out.merkle_root,
        "0x3c9c6cbdcaff4bceab92d2ae7f2e28910d30c7a4ce495b8698ee5d86afec23e2"
    );
    assert_eq!(
        out.proofs[2].proof,
        vec![
            "0x37d95e0aa71e34defa88b4c43498bc8b90207e31ad0ef4aa6f5bea78bd25a1ab".to_string(),
            "0xceb8fb129798c63a249a5e3b28b5036e5d7dbd31ba9d0c736342af32fcabd7a6".to_string(),
        ]
    );
    assert_eq!(
        out.proofs[0].proof,
        vec![
            "0x2ab0a4443bbea3fbe4d0e1503d11ff1367842fb0c8b28a5c8550f27599a40751".to_string(),
            "0x4ad7d722600407a80f307fb43e43824b98744c31669305c08bdb6e0ca8546641".to_string(),
        ]
    );
}

#[test]
fn next_level_pairs_and_duplicates() {
    let l: Vec<Digest> = vec![[1u8; 32], [2u8; 32], [3u8; 32]];
    let up = next_level(&l);
    assert_eq!(up, vec![hash_pair(&l[0], &l[1]), hash_pair(&l[2], &l[2])]);
}

#[test]
fn proof_length_is_ceil_log2_of_leaf_count() {
    let expected = [0usize, 1, 2, 2, 3, 3, 3, 3, 4];
    for n in 1..=9usize {
        let (_, tree) = tree_of(&addrs(n));
        for i in 0..n {
            assert_eq!(tree.inclusion_proof(i).unwrap().len(), expected[n - 1], "n={} i={}", n, i);
        }
    }
}

#[test]
fn repeated_runs_are_identical() {
    let a = addrs(7);
    let first = generate(&a).unwrap();
    let second = generate(&a.clone()).unwrap();
    assert_eq!(first.merkle_root, second.merkle_root);
    for i in 0..7 {
        assert_eq!(first.proofs[i].address, second.proofs[i].address);
        assert_eq!(first.proofs[i].proof, second.proofs[i].proof);
    }
}

#[test]
fn swapping_addresses_changes_root() {
    for n in 2..=6usize {
        let a = addrs(n);
        let base = generate(&a).unwrap().merkle_root;
        for i in 0..n {
            for j in (i + 1)..n {
                let mut b = a.clone();
                b.swap(i, j);
                assert_ne!(generate(&b).unwrap().merkle_root, base, "n={} i={} j={}", n, i, j);
            }
        }
    }
}

#[test]
fn every_proof_verifies_against_root() {
    for n in 1..=10usize {
        let (leaves, tree) = tree_of(&addrs(n));
        let root = tree.root();
        for i in 0..n {
            let p = tree.inclusion_proof(i).unwrap();
            assert!(verify_proof(&leaves[i], i, &p, &root), "n={} i={}", n, i);
        }
    }
}

#[test]
fn proof_fails_for_wrong_index_or_leaf() {
    let (leaves, tree) = tree_of(&addrs(4));
    let root = tree.root();
    let p = tree.inclusion_proof(1).unwrap();
    assert!(!verify_proof(&leaves[1], 0, &p, &root));
    assert!(!verify_proof(&leaves[2], 1, &p, &root));
}

#[test]
fn flipping_any_bit_of_a_proof_breaks_it() {
    let (leaves, tree) = tree_of(&addrs(5));
    let root = tree.root();
    for i in 0..5 {
        let p = tree.inclusion_proof(i).unwrap();
        for k in 0..p.len() {
            for byte in 0..32 {
                for bit in 0..8 {
                    let mut q = p.clone();
                    q[k][byte] ^= 1u8 << bit;
                    assert!(!verify_proof(&leaves[i], i, &q, &root));
                }
            }
        }
    }
}

#[test]
fn single_address_has_empty_proof_and_leaf_root() {
    let out = generate(&vec![ADDR_A.to_string()]).unwrap();
    assert_eq!(out.merkle_root, LEAF_A);
    assert_eq!(out.proofs.len(), 1);
    assert!(out.proofs[0].proof.is_empty());
    let bytes = decode_address(ADDR_A).unwrap();
    assert_eq!(out.merkle_root, hex(&Keccak256::hash(&bytes)));
}

#[test]
fn empty_address_list_is_rejected() {
    assert_eq!(generate(&vec![]).err(), Some(MerkleError::EmptyLeafSet));
    assert_eq!(MerkleTree::from_leaves(&vec![]).err(), Some(MerkleError::EmptyLeafSet));
}

#[test]
fn invalid_address_is_reported_with_its_index() {
    let a = vec![ADDR_A.to_string(), "0xzz".to_string(), "0xabc".to_string()];
    assert_eq!(
        generate(&a).err(),
        Some(MerkleError::InvalidAddressFormat { index: 1, address: "0xzz".to_string() })
    );
    let odd = vec!["0xabc".to_string()];
    assert_eq!(
        hash_addresses(&odd).err(),
        Some(MerkleError::InvalidAddressFormat { index: 0, address: "0xabc".to_string() })
    );
}

#[test]
fn index_out_of_range_is_rejected() {
    let (_, tree) = tree_of(&addrs(3));
    assert_eq!(tree.leaf_count(), 3);
    assert_eq!(
        tree.inclusion_proof(3).err(),
        Some(MerkleError::IndexOutOfRange { index: 3, leaf_count: 3 })
    );
}

#[test]
fn address_decoding_rules() {
    assert_eq!(decode_address("0xAbCd"), Some(vec![0xab, 0xcd]));
    assert_eq!(decode_address("abcd"), Some(vec![0xab, 0xcd]));
    assert_eq!(decode_address("0x"), Some(vec![]));
    assert_eq!(decode_address(""), Some(vec![]));
    assert_eq!(decode_address("0xabc"), None);
    assert_eq!(decode_address("0xag"), None);
    assert_eq!(decode_address("0x0xab"), None);
    assert_eq!(decode_address("0Xab"), None);
}

#[test]
fn leaf_digest_hashes_decoded_bytes() {
    assert_eq!(hex(&leaf_digest(ADDR_A).unwrap()), LEAF_A);
    assert_eq!(leaf_digest("aaaaaaaaaaaaaaaaaaaaaaaaaaaaaaaaaaaaaaaa"), leaf_digest(ADDR_A));
    assert_eq!(leaf_digest("0xg0"), None);
}

#[test]
fn hex_output_is_lowercase_and_prefixed() {
    assert_eq!(to_prefixed_hex(&[0x00, 0xab, 0x7f]), "0x00ab7f");
    assert_eq!(to_prefixed_hex(&[]), "0x");
}
