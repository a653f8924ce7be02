//! Versioned, content-bearing units of state.

use vstd::prelude::*;
use vstd::bytes::{lemma_auto_spec_u64_to_from_le_bytes, spec_u64_to_le_bytes, u64_to_le_bytes};
use crate::digest::{fingerprint, lemma_digest_equality, Digest, Digestible};

verus! {

/// The version counter of an object.
pub type ObjectVersion = u64;

/// A versioned unit of state.
#[derive(Clone, Debug, PartialEq, Eq)]
pub struct Object {
    /// The identifier of the object.
    pub id: Digest,
    /// The payload. Its length is the size of the object.
    pub content: Vec<u8>,
    /// The version counter.
    pub version: ObjectVersion,
}

/// The mathematical value of an [`Object`].
pub struct ObjectView {
    /// The identifier.
    pub id: Digest,
    /// The payload, as a sequence of bytes.
    pub content: Seq<u8>,
    /// The version counter.
    pub version: ObjectVersion,
}

impl View for Object {
    type V = ObjectView;

    open spec fn view(&self) -> ObjectView {
        ObjectView { id: self.id, content: self.content@, version: self.version }
    }
}

/// The mathematical values of a list of objects, in order.
pub open spec fn object_views(objects: Seq<Object>) -> Seq<ObjectView> {
    objects.map_values(|o: Object| o@)
}

/// The canonical encoding of an object: its content, then its version as
/// eight little-endian bytes.
pub open spec fn object_preimage(content: Seq<u8>, version: ObjectVersion) -> Seq<u8> {
    content + spec_u64_to_le_bytes(version)
}

/// The identifier that content addressing gives to `(content, version)`.
pub open spec fn object_id(content: Seq<u8>, version: ObjectVersion) -> Seq<u8> {
    fingerprint(object_preimage(content, version))
}

impl ObjectView {
    /// The canonical encoding of this object.
    pub open spec fn preimage(self) -> Seq<u8> {
        object_preimage(self.content, self.version)
    }

    /// Whether the identifier is the one derived from content and version.
    pub open spec fn is_content_addressed(self) -> bool {
        self.id@ == fingerprint(self.preimage())
    }
}

/// Content addressing is a function of content and version: two objects that
/// agree on both and are content addressed carry the same identifier.
pub proof fn lemma_object_id_deterministic(a: ObjectView, b: ObjectView)
    requires
        a.is_content_addressed(),
        b.is_content_addressed(),
        a.content == b.content,
        a.version == b.version,
    ensures
        a.id == b.id,
        a == b,
{
    lemma_digest_equality(a.id, b.id);
}

/// The canonical encoding determines content and version: objects that differ
/// in either are hashed over different bytes.
pub proof fn lemma_object_preimage_injective(
    content_a: Seq<u8>,
    version_a: ObjectVersion,
    content_b: Seq<u8>,
    version_b: ObjectVersion,
)
    requires
        object_preimage(content_a, version_a) == object_preimage(content_b, version_b),
    ensures
        content_a == content_b,
        version_a == version_b,
{
    lemma_auto_spec_u64_to_from_le_bytes();
    let pa = object_preimage(content_a, version_a);
    let pb = object_preimage(content_b, version_b);
    assert(pa.len() == content_a.len() + 8);
    assert(pb.len() == content_b.len() + 8);
    assert(content_a =~= pa.subrange(0, content_a.len() as int));
    assert(content_b =~= pb.subrange(0, content_b.len() as int));
    assert(spec_u64_to_le_bytes(version_a) =~= pa.subrange(
        content_a.len() as int,
        pa.len() as int,
    ));
    assert(spec_u64_to_le_bytes(version_b) =~= pb.subrange(
        content_b.len() as int,
        pb.len() as int,
    ));
}

/// Two content-addressed objects with one identifier either agree on content
/// and version, or their distinct encodings collide under the fingerprint.
pub proof fn lemma_object_id_collision(a: ObjectView, b: ObjectView)
    requires
        a.is_content_addressed(),
        b.is_content_addressed(),
        a.id == b.id,
    ensures
        (a.content == b.content && a.version == b.version) || ({
            &&& a.preimage() != b.preimage()
            &&& fingerprint(a.preimage()) == fingerprint(b.preimage())
        }),
{
    if a.preimage() == b.preimage() {
        lemma_object_preimage_injective(a.content, a.version, b.content, b.version);
    }
}

/// Writes the canonical encoding of `(content, version)` into a fresh buffer.
pub fn encode_object_preimage(content: &[u8], version: ObjectVersion) -> (buf: Vec<u8>)
    ensures
        buf@ == object_preimage(content@, version),
{
    let mut buf: Vec<u8> = Vec::new();
    buf.extend_from_slice(content);
    let tail = u64_to_le_bytes(version);
    buf.extend_from_slice(tail.as_slice());
    assert(buf@ =~= object_preimage(content@, version));
    buf
}

impl Digestible for Object {
    open spec fn preimage(&self) -> Seq<u8> {
        self@.preimage()
    }

    fn digest(&self) -> (d: Digest) {
        let buf = encode_object_preimage(self.content.as_slice(), self.version);
        Digest::of(buf.as_slice())
    }
}

impl Object {
    /// Whether the identifier is the one derived from content and version.
    pub open spec fn is_content_addressed(&self) -> bool {
        self@.is_content_addressed()
    }

    /// Creates the object that holds `content` at version 0, identified by
    /// the fingerprint of its canonical encoding.
    pub fn new(content: Vec<u8>) -> (object: Object)
        ensures
            object.content == content,
            object.version == 0,
            object.id@ == object_id(content@, 0),
            object.is_content_addressed(),
    {
        let id = Digest::of(encode_object_preimage(content.as_slice(), 0).as_slice());
        Object { id, content, version: 0 }
    }

    /// Creates the object that holds `content` at version 0 under the
    /// identifier `id`, which the caller has drawn from its random source.
    /// The identifier is taken as it is: nothing binds it to the content.
    pub fn random(id: [u8; 32], content: Vec<u8>) -> (object: Object)
        ensures
            object.id == Digest(id),
            object.content == content,
            object.version == 0,
    {
        Object { id: Digest(id), content, version: 0 }
    }
}

} // verus!
