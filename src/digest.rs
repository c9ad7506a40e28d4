//! Content digests: the identity and address of a trie node.
use vstd::prelude::*;

verus! {

/// Length in bytes of a digest.
pub const DIGEST_LENGTH: usize = 32;

/// What BLAKE2b with a 32-byte output gives for `data`.
pub uninterp spec fn blake2b_256(data: Seq<u8>) -> Seq<u8>;

/// Relies on blake2's `Blake2b<U32>`: the 32-byte BLAKE2b digest of `data`,
/// which depends on `data` alone.
#[verifier::external_body]
fn blake2b(data: &[u8]) -> (r: [u8; 32])
    ensures
        r@ == blake2b_256(data@),
{
    let out = <blake2::Blake2b<blake2::digest::consts::U32> as blake2::Digest>::digest(data);
    out.into()
}

/// A fixed-length cryptographic hash value.
#[derive(Clone, Copy, Debug, PartialEq, Eq, Hash)]
pub struct Digest {
    pub value: [u8; 32],
}

impl View for Digest {
    type V = Seq<u8>;

    open spec fn view(&self) -> Seq<u8> {
        self.value@
    }
}

impl Digest {
    /// Wraps raw digest bytes.
    pub fn from_raw(value: [u8; 32]) -> (r: Digest)
        ensures
            r@ == value@,
    {
        Digest { value }
    }

    /// Hashes `data`.
    pub fn hash(data: &[u8]) -> (r: Digest)
        ensures
            r@ == blake2b_256(data@),
            r@.len() == DIGEST_LENGTH,
    {
        Digest { value: blake2b(data) }
    }

    /// The raw bytes of the digest.
    pub fn value(&self) -> (r: [u8; 32])
        ensures
            r@ == self@,
    {
        self.value
    }

    /// Whether two digests hold the same bytes.
    pub fn same_as(&self, other: &Digest) -> (r: bool)
        ensures
            r == (self@ == other@),
    {
        let mut i: usize = 0;
        while i < DIGEST_LENGTH
            invariant
                i <= DIGEST_LENGTH,
                self@.len() == DIGEST_LENGTH,
                other@.len() == DIGEST_LENGTH,
                forall|j: int| 0 <= j < i ==> self@[j] == other@[j],
            decreases DIGEST_LENGTH - i,
        {
            if self.value[i] != other.value[i] {
                return false;
            }
            i = i + 1;
        }
        assert(self@ =~= other@);
        true
    }
}

} // verus!
