//! The fixed-width digest value and the hash primitive behind it.

use vstd::prelude::*;

verus! {

/// A 32-byte hash value. Equality is byte for byte; the value is plain data
/// and cheap to copy.
#[derive(Clone, Copy, Debug, PartialEq, Eq)]
pub struct Digest {
    pub bytes: [u8; 32],
}

impl View for Digest {
    type V = Seq<u8>;

    open spec fn view(&self) -> Seq<u8> {
        self.bytes@
    }
}

/// The SHA-256 digest of a byte sequence, as computed by the hash primitive.
/// The composition rules of the tree are stated over this name; nothing in
/// this crate claims what the digest of any particular input is.
pub uninterp spec fn sha256_of(bytes: Seq<u8>) -> Seq<u8>;

/// Relies on sha2::Sha256::digest: the SHA-256 digest of the input, 32 bytes
/// wide, a function of the input bytes alone.
#[verifier::external_body]
pub(crate) fn sha256(bytes: &[u8]) -> (r: Digest)
    ensures
        r@ == sha256_of(bytes@),
{
    let out = <sha2::Sha256 as sha2::Digest>::digest(bytes);
    Digest { bytes: out.into() }
}

/// Two digests with the same bytes are the same value.
pub proof fn lemma_digest_ext(d1: Digest, d2: Digest)
    requires
        d1@ == d2@,
    ensures
        d1 == d2,
{
    broadcast use vstd::array::group_array_axioms;

    assert(d1.bytes =~= d2.bytes);
}

impl Digest {
    /// Byte-for-byte comparison of two digests.
    pub fn equals(&self, other: &Digest) -> (r: bool)
        ensures
            r == (self@ == other@),
    {
        let mut i: usize = 0;
        while i < 32
            invariant
                i <= 32,
                forall|k: int| 0 <= k < i ==> self.bytes@[k] == other.bytes@[k],
            decreases 32 - i,
        {
            if self.bytes[i] != other.bytes[i] {
                return false;
            }
            i = i + 1;
        }
        proof {
            assert(self@ =~= other@);
        }
        true
    }
}

} // verus!
