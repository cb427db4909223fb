use vstd::prelude::*;

verus! {

/// A 32-byte digest.
#[derive(Clone, Copy, Debug, PartialEq, Eq)]
pub struct Digest {
    pub bytes: [u8; 32],
}

/// The Keccak-256 digest of a byte sequence, as computed by `alloy_primitives`.
pub uninterp spec fn keccak_of(data: Seq<u8>) -> Seq<u8>;

/// The all-zero digest.
pub open spec fn zero_digest() -> Seq<u8> {
    Seq::new(32, |i: int| 0u8)
}

/// The digest of a parent node whose children have digests `left` and `right`.
pub open spec fn hash_pair(left: Seq<u8>, right: Seq<u8>) -> Seq<u8> {
    keccak_of(left + right)
}

/// Relies on `alloy_primitives::keccak256`: the Keccak-256 digest of the
/// 64 bytes, which depends on those bytes alone.
#[verifier::external_body]
fn keccak256(data: &[u8; 64]) -> (r: [u8; 32])
    ensures
        r@ == keccak_of(data@),
{
    alloy_primitives::keccak256(data).0
}

impl Digest {
    /// The all-zero digest.
    pub fn zero() -> (d: Digest)
        ensures
            d.bytes@ == zero_digest(),
    {
        let d = Digest { bytes: [0u8; 32] };
        assert(d.bytes@ =~= zero_digest());
        d
    }
}

/// Hashes the concatenation of two digests.
pub fn hash_children(left: &Digest, right: &Digest) -> (d: Digest)
    ensures
        d.bytes@ == hash_pair(left.bytes@, right.bytes@),
{
    let mut buf = [0u8; 64];
    let mut i: usize = 0;
    while i < 32
        invariant
            0 <= i <= 32,
            buf@.len() == 64,
            forall|j: int| 0 <= j < i ==> buf@[j] == left.bytes@[j],
            forall|j: int| 0 <= j < i ==> buf@[32 + j] == right.bytes@[j],
        decreases 32 - i,
    {
        buf[i] = left.bytes[i];
        buf[32 + i] = right.bytes[i];
        i = i + 1;
    }
    assert(buf@ =~= left.bytes@ + right.bytes@);
    Digest { bytes: keccak256(&buf) }
}

} // verus!
