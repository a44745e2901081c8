use vstd::prelude::*;

verus! {

/// A 32-byte Keccak-256 digest.
pub type Digest = [u8; 32];

/// The Keccak-256 digest of a byte sequence.
pub uninterp spec fn keccak_of(data: Seq<u8>) -> Seq<u8>;

/// The digest of an internal node: Keccak-256 over the left digest followed
/// by the right digest.
pub open spec fn pair_digest(left: Seq<u8>, right: Seq<u8>) -> Seq<u8> {
    keccak_of(left + right)
}

/// The leaf hasher of the tree (Keccak-256, as used by Ethereum contracts).
#[derive(Clone, Copy, Debug)]
pub struct Keccak256;

impl Keccak256 {
    /// Relies on tiny_keccak's `Keccak::v256`, `update` and `finalize`: the
    /// 32-byte Keccak-256 digest of `data`, a function of `data` alone.
    #[verifier::external_body]
    pub fn hash(data: &[u8]) -> (r: Digest)
        ensures
            r@ == keccak_of(data@),
    {
        let mut keccak = tiny_keccak::Keccak::v256();
        let mut output = [0u8; 32];
        tiny_keccak::Hasher::update(&mut keccak, data);
        tiny_keccak::Hasher::finalize(keccak, &mut output);
        output
    }
}

/// Hashes two child digests, left then right, into their parent digest.
pub fn hash_pair(left: &Digest, right: &Digest) -> (r: Digest)
    ensures
        r@ == pair_digest(left@, right@),
{
    let mut buf: Vec<u8> = Vec::with_capacity(64);
    let mut i: usize = 0;
    while i < 32
        invariant
            0 <= i <= 32,
            buf@ == left@.subrange(0, i as int),
        decreases 32 - i,
    {
        buf.push(left[i]);
        i = i + 1;
    }
    let mut j: usize = 0;
    while j < 32
        invariant
            0 <= j <= 32,
            buf@ == left@ + right@.subrange(0, j as int),
        decreases 32 - j,
    {
        buf.push(right[j]);
        j = j + 1;
    }
    assert(left@.subrange(0, 32) == left@);
    assert(right@.subrange(0, 32) == right@);
    Keccak256::hash(buf.as_slice())
}

} // verus!
