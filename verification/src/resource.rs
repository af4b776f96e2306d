//! Resource identity and the type-erased resource container.

use vstd::prelude::*;

verus! {

/// Opaque, globally unique identity for a resource, independent of the
/// resource's location or content.  Backed by a freshly drawn random
/// 128-bit value, so two distinct calls of [`ResourceId::new`] collide only
/// with negligible probability.
#[derive(Clone, Copy, Debug, PartialEq, Eq, Hash, PartialOrd, Ord, Structural)]
pub struct ResourceId {
    bits: u128,
}

impl View for ResourceId {
    type V = u128;

    closed spec fn view(&self) -> u128 {
        self.bits
    }
}

/// Two identities are equal exactly when their views are: the view exposes
/// the whole identity.
pub proof fn lemma_id_eq(a: ResourceId, b: ResourceId)
    ensures
        (a == b) <==> (a@ == b@),
{
}

/// Relies on uuid::Uuid::new_v4 for a random version-4 identifier, read out
/// with uuid::Uuid::as_u128.  The result is random, so nothing is promised
/// of it.
#[verifier::external_body]
fn fresh_id_bits() -> u128 {
    uuid::Uuid::new_v4().as_u128()
}

impl ResourceId {
    /// Draws a fresh identity.
    pub fn new() -> ResourceId {
        ResourceId { bits: fresh_id_bits() }
    }

    /// Builds the identity with the given 128-bit value, for callers that
    /// persist or exchange identities as plain numbers.
    pub fn from_bits(bits: u128) -> (r: ResourceId)
        ensures
            r@ == bits,
    {
        ResourceId { bits }
    }
}

/// The mathematical content of a [`Resource`]: its shape tag and its bytes.
pub struct ResourceView {
    pub shape: u64,
    pub content: Seq<u8>,
}

/// A type-erased container for produced content: a closed polymorphic value
/// keyed by a runtime shape tag.  A consumer knows the expected shape
/// out of band and performs a checked downcast with [`Resource::downcast`].
pub struct Resource {
    shape: u64,
    content: Vec<u8>,
}

impl View for Resource {
    type V = ResourceView;

    closed spec fn view(&self) -> ResourceView {
        ResourceView { shape: self.shape, content: self.content@ }
    }
}

/// The distinct error kind a checked downcast fails with when the caller
/// requests the wrong shape.
#[derive(Clone, Copy, Debug, PartialEq, Eq, Structural)]
pub struct ShapeMismatch {
    pub expected: u64,
    pub actual: u64,
}

impl Resource {
    /// Wraps content under the given shape tag.
    pub fn new(shape: u64, content: Vec<u8>) -> (r: Resource)
        ensures
            r@.shape == shape,
            r@.content == content@,
    {
        Resource { shape, content }
    }

    /// The runtime shape tag of the contained value.
    pub fn shape(&self) -> (r: u64)
        ensures
            r == self@.shape,
    {
        self.shape
    }

    /// Checked downcast: hands the content out exactly when the caller's
    /// expected shape is the contained one, and otherwise reports the
    /// mismatch.
    pub fn downcast(&self, expected: u64) -> (r: Result<&Vec<u8>, ShapeMismatch>)
        ensures
            expected == self@.shape <==> r is Ok,
            r is Ok ==> r->Ok_0@ == self@.content,
            r is Err ==> r->Err_0 == (ShapeMismatch { expected, actual: self@.shape }),
    {
        if expected == self.shape {
            Ok(&self.content)
        } else {
            Err(ShapeMismatch { expected, actual: self.shape })
        }
    }
}

/// Identity plus descriptive attributes.  Collaborators such as the manifest
/// attach location and classification out of band; the mediator itself only
/// ever reads the identity.
pub struct Metadata {
    pub id: ResourceId,
}

} // verus!
