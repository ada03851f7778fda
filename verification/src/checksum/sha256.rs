//! The digest primitive: a 32-byte SHA-256 value, and a hasher that
//! accumulates bytes and produces their digest.

use vstd::prelude::*;

verus! {

/// Number of bytes in a SHA-256 digest.
pub const DIGEST_LENGTH: usize = 32;

/// The SHA-256 digest of a byte sequence. The hash itself is computed by an
/// outside library; this name stands for its (deterministic) result.
pub uninterp spec fn sha256_of(data: Seq<u8>) -> Seq<u8>;

/// The all-zero digest value, used both as "no hash yet" and as the padding
/// leaf when a merkle tree is completed.
pub open spec fn zero_digest() -> Seq<u8> {
    Seq::new(32, |i: int| 0u8)
}

/// A 32-byte SHA-256 digest value.
#[derive(Clone, Copy, Debug, PartialEq, Eq, PartialOrd, Ord, Hash)]
pub struct Digest {
    bytes: [u8; 32],
}

impl View for Digest {
    type V = Seq<u8>;

    closed spec fn view(&self) -> Seq<u8> {
        self.bytes@
    }
}

impl Digest {
    pub fn new(bytes: [u8; 32]) -> (r: Self)
        ensures
            r@ == bytes@,
    {
        Digest { bytes }
    }

    /// The distinguished all-zero digest.
    pub fn zero() -> (r: Self)
        ensures
            r@ == zero_digest(),
    {
        let bytes = [0u8; 32];
        proof {
            assert(bytes@ =~= zero_digest());
        }
        Digest { bytes }
    }

    pub fn as_array(&self) -> (r: &[u8; 32])
        ensures
            r@ == self@,
    {
        &self.bytes
    }
}

impl Default for Digest {
    fn default() -> (r: Self)
        ensures
            r@ == zero_digest(),
    {
        Digest::zero()
    }
}

/// Relies on ring::digest::digest with the SHA256 algorithm: the returned
/// digest is 32 bytes and depends on the input bytes alone.
#[verifier::external_body]
fn sha256_digest(data: &[u8]) -> (r: Digest)
    ensures
        r@ == sha256_of(data@),
{
    let d = ring::digest::digest(&ring::digest::SHA256, data);
    let mut bytes = [0u8; 32];
    bytes.copy_from_slice(d.as_ref());
    Digest { bytes }
}

/// Accumulates bytes and, on `finish`, yields their SHA-256 digest and
/// resets for reuse. Its view is the bytes received since the last reset.
#[derive(Clone)]
pub struct Hasher {
    buf: Vec<u8>,
}

impl View for Hasher {
    type V = Seq<u8>;

    closed spec fn view(&self) -> Seq<u8> {
        self.buf@
    }
}

impl Hasher {
    pub fn new() -> (r: Self)
        ensures
            r@ == Seq::<u8>::empty(),
    {
        Hasher { buf: Vec::new() }
    }

    /// Number of bytes received since the last reset.
    pub fn len(&self) -> (r: usize)
        ensures
            r == self@.len(),
    {
        self.buf.len()
    }

    /// Consumes input in order, byte-exact.
    pub fn update(&mut self, data: &[u8])
        ensures
            final(self)@ == old(self)@ + data@,
    {
        self.buf.extend_from_slice(data);
    }

    /// Returns the digest of the bytes seen since the last reset, and resets.
    pub fn finish(&mut self) -> (r: Digest)
        ensures
            r@ == sha256_of(old(self)@),
            final(self)@ == Seq::<u8>::empty(),
    {
        let r = sha256_digest(self.buf.as_slice());
        self.buf.clear();
        r
    }

    /// Finishes and consumes the hasher instead of resetting it.
    pub fn into_digest(self) -> (r: Digest)
        ensures
            r@ == sha256_of(self@),
    {
        sha256_digest(self.buf.as_slice())
    }
}

impl Default for Hasher {
    fn default() -> (r: Self)
        ensures
            r@ == Seq::<u8>::empty(),
    {
        Hasher::new()
    }
}

} // verus!
