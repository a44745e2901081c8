//! Merkle allowlist generator: leaf hashing, tree construction and
//! inclusion proofs over an ordered list of hex addresses.
//!
//! Odd-node policy: when a level holds an odd number of nodes, the last node
//! is paired with itself (it is duplicated). Every level above the leaves
//! therefore holds `ceil(n / 2)` nodes, and every proof holds exactly one
//! sibling per level, so a verifier can place each sibling by the parity of
//! the leaf index halved at each level. Trees that promote the odd node
//! unchanged instead agree with this one only where no level is odd.

mod allowlist;
mod codec;
mod error;
mod hashing;
mod inclusion;
mod laws;
mod tree;

pub use allowlist::{
    address_leaf, address_ok, all_ok_before, digests_to_hex, generate, hash_addresses, hex_list,
    leaf_digest, leaves_of, strings_view, Output, ProofRecord,
};
pub use codec::{
    address_bytes, decode_address, hex_bytes, hex_char, hex_chars, hex_value, is_hex_digit,
    is_hex_text, is_valid_address, prefixed_hex, to_prefixed_hex, without_prefix,
};
pub use error::MerkleError;
pub use hashing::{hash_pair, keccak_of, pair_digest, Digest, Keccak256};
pub use inclusion::{fold_proof, step_up, verify_proof};
pub use laws::{
    address_inputs, collides_in, digests_full_length, fold_inputs, law_determinism,
    law_order_sensitivity, law_proof_length, law_proof_valid, law_single_address,
    law_tamper_detection, pair_inputs, step_input, swap_inputs, swapped, tree_height,
    tree_inputs,
};
pub use tree::{
    digests_view, is_level_chain, is_partial_chain, levels_of, next_level, parent_level, proof_of,
    right_child, root_of, sibling_of, MerkleTree,
};
