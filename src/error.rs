use vstd::prelude::*;

verus! {

/// Why a tree, a proof or a whole run could not be produced.
#[derive(Clone, Debug, PartialEq, Eq)]
pub enum MerkleError {
    /// The address at `index` is not an even-length run of hex digits after
    /// its optional `0x` prefix.
    InvalidAddressFormat { index: usize, address: String },
    /// A tree needs at least one leaf.
    EmptyLeafSet,
    /// A proof was asked for a leaf position that the tree does not have.
    IndexOutOfRange { index: usize, leaf_count: usize },
}

} // verus!
