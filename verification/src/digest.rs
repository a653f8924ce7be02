//! The 256-bit content fingerprint and the hash it is cut from.

use vstd::prelude::*;

verus! {

/// A 256-bit fingerprint, used as the identifier of objects and transactions.
#[derive(Clone, Copy, Debug, Eq, Hash, PartialOrd, Ord)]
pub struct Digest(pub [u8; 32]);

impl View for Digest {
    type V = Seq<u8>;

    open spec fn view(&self) -> Seq<u8> {
        self.0@
    }
}

impl PartialEq for Digest {
    fn eq(&self, other: &Digest) -> (r: bool) {
        let mut i: usize = 0;
        while i < 32
            invariant
                i <= 32,
                forall|j: int| 0 <= j < i ==> self.0@[j] == other.0@[j],
            decreases 32 - i,
        {
            if self.0[i] != other.0[i] {
                return false;
            }
            i += 1;
        }
        assert(self.0@ =~= other.0@);
        true
    }
}

impl vstd::std_specs::cmp::PartialEqSpecImpl for Digest {
    open spec fn obeys_eq_spec() -> bool {
        true
    }

    open spec fn eq_spec(&self, other: &Digest) -> bool {
        self@ == other@
    }
}

/// Two digests are equal exactly when their byte sequences are equal.
pub proof fn lemma_digest_equality(a: Digest, b: Digest)
    ensures
        (a == b) <==> (a@ == b@),
{
    if a@ == b@ {
        assert(a.0 =~= b.0);
    }
}

/// The SHA-512 hash of `message`, as the 64 bytes of the standard.
pub uninterp spec fn sha512(message: Seq<u8>) -> Seq<u8>;

/// The fingerprint of `message`: the first 32 bytes of its SHA-512 hash.
pub open spec fn fingerprint(message: Seq<u8>) -> Seq<u8> {
    sha512(message).subrange(0, 32)
}

/// Calls `Digest::digest` on `Sha512`, both as `ed25519_dalek` exports them
/// (the one-shot hash of the `digest` crate over the SHA-512 of `sha2`), and
/// copies its 64 output bytes into an array. Taken on trust: those bytes are
/// the SHA-512 hash of exactly the bytes of `data`.
#[verifier::external_body]
fn sha512_bytes(data: &[u8]) -> (out: [u8; 64])
    ensures
        out@ == sha512(data@),
{
    let hash = <ed25519_dalek::Sha512 as ed25519_dalek::Digest>::digest(data);
    let mut out = [0u8; 64];
    out.copy_from_slice(hash.as_slice());
    out
}

impl Digest {
    /// Keeps the first 32 bytes of a 64-byte hash.
    pub fn truncate(wide: &[u8; 64]) -> (d: Digest)
        ensures
            d@ == wide@.subrange(0, 32),
    {
        let mut id = [0u8; 32];
        let mut i: usize = 0;
        while i < 32
            invariant
                i <= 32,
                forall|j: int| 0 <= j < i ==> id@[j] == wide@[j],
            decreases 32 - i,
        {
            id[i] = wide[i];
            i += 1;
        }
        assert(id@ =~= wide@.subrange(0, 32));
        Digest(id)
    }

    /// Hashes `data` with SHA-512 and keeps the first 32 bytes.
    pub fn of(data: &[u8]) -> (d: Digest)
        ensures
            d@ == fingerprint(data@),
    {
        let wide = sha512_bytes(data);
        Digest::truncate(&wide)
    }
}

/// A value with a canonical byte encoding, identified by the fingerprint of
/// that encoding.
pub trait Digestible {
    /// The canonical byte encoding that is hashed.
    spec fn preimage(&self) -> Seq<u8>;

    /// Computes the fingerprint of the canonical encoding. The result depends
    /// on nothing but the bytes of [`Digestible::preimage`].
    fn digest(&self) -> (d: Digest)
        ensures
            d@ == fingerprint(self.preimage()),
    ;
}

} // verus!
