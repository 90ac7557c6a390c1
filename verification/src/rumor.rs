//! Rumor types used for epidemic dissemination.

use vstd::prelude::*;

use crate::identity::{MessageId, NodeId};
use crate::time::Round;
use vstd::std_specs::cmp::PartialEqSpec;

verus! {

/// A piece of information spread by gossip.
///
/// The payload is generic because the core protocol does not know what the
/// application-level rumor means.
#[derive(Debug)]
pub struct Rumor<T> {
    id: MessageId,
    origin: NodeId,
    created_at: Round,
    payload: T,
}

impl<T> Rumor<T> {
    /// The unique message identifier.
    pub closed spec fn spec_id(self) -> MessageId {
        self.id
    }

    /// The node that created the rumor.
    pub closed spec fn spec_origin(self) -> NodeId {
        self.origin
    }

    /// The round in which the rumor was created.
    pub closed spec fn spec_created_at(self) -> Round {
        self.created_at
    }

    /// The application payload.
    pub closed spec fn spec_payload(self) -> T {
        self.payload
    }

    /// The rumor with the given metadata and payload.
    pub closed spec fn spec_new(id: MessageId, origin: NodeId, created_at: Round, payload: T) -> Rumor<T> {
        Rumor { id, origin, created_at, payload }
    }

    /// The parts of a rumor built by `spec_new` are the given ones.
    pub broadcast proof fn lemma_spec_new(id: MessageId, origin: NodeId, created_at: Round, payload: T)
        ensures
            #[trigger] Rumor::spec_new(id, origin, created_at, payload).spec_id() == id,
            Rumor::spec_new(id, origin, created_at, payload).spec_origin() == origin,
            Rumor::spec_new(id, origin, created_at, payload).spec_created_at() == created_at,
            Rumor::spec_new(id, origin, created_at, payload).spec_payload() == payload,
    {
    }

    /// A rumor is determined by its identifier, origin, creation round and payload.
    pub proof fn lemma_ext_equal(a: Rumor<T>, b: Rumor<T>)
        requires
            a.spec_id() == b.spec_id(),
            a.spec_origin() == b.spec_origin(),
            a.spec_created_at() == b.spec_created_at(),
            a.spec_payload() == b.spec_payload(),
        ensures
            a == b,
    {
    }

    /// Creates a new rumor.
    pub fn new(id: MessageId, origin: NodeId, created_at: Round, payload: T) -> (r: Self)
        ensures
            r == Rumor::spec_new(id, origin, created_at, payload),
            r.spec_id() == id,
            r.spec_origin() == origin,
            r.spec_created_at() == created_at,
            r.spec_payload() == payload,
    {
        Rumor { id, origin, created_at, payload }
    }

    /// Returns the unique message identifier.
    pub fn id(&self) -> (id: MessageId)
        ensures
            id == self.spec_id(),
    {
        self.id
    }

    /// Returns the node that originally created this rumor.
    pub fn origin(&self) -> (origin: &NodeId)
        ensures
            *origin == self.spec_origin(),
    {
        &self.origin
    }

    /// Returns the round when this rumor was created.
    pub fn created_at(&self) -> (round: Round)
        ensures
            round == self.spec_created_at(),
    {
        self.created_at
    }

    /// Returns the rumor payload.
    pub fn payload(&self) -> (payload: &T)
        ensures
            *payload == self.spec_payload(),
    {
        &self.payload
    }

    /// Consumes the rumor and returns its payload.
    pub fn into_payload(self) -> (payload: T)
        ensures
            payload == self.spec_payload(),
    {
        self.payload
    }

    /// Maps the payload while preserving rumor metadata.
    pub fn map_payload<U, F: FnOnce(T) -> U>(self, map: F) -> (r: Rumor<U>)
        requires
            map.requires((self.spec_payload(),)),
        ensures
            r.spec_id() == self.spec_id(),
            r.spec_origin() == self.spec_origin(),
            r.spec_created_at() == self.spec_created_at(),
            map.ensures((self.spec_payload(),), r.spec_payload()),
    {
        Rumor { id: self.id, origin: self.origin, created_at: self.created_at, payload: map(self.payload) }
    }
}

impl<T: Clone> Rumor<T> {
    /// `self` carries the metadata of `original` and a clone of its payload.
    pub open spec fn is_copy_of(self, original: Rumor<T>) -> bool {
        &&& self.spec_id() == original.spec_id()
        &&& self.spec_origin() == original.spec_origin()
        &&& self.spec_created_at() == original.spec_created_at()
        &&& cloned::<T>(original.spec_payload(), self.spec_payload())
    }
}

impl<T: Clone> Rumor<T> {
    /// `self` is a copy of a copy of `original`.
    pub open spec fn is_copy_of_copy(self, original: Rumor<T>) -> bool {
        exists|mid: Rumor<T>| #[trigger] mid.is_copy_of(original) && self.is_copy_of(mid)
    }
}

/// Each rumor of `copies` is a copy of the rumor of `originals` at the same position.
pub open spec fn copies_of<T: Clone>(copies: Seq<Rumor<T>>, originals: Seq<Rumor<T>>) -> bool {
    &&& copies.len() == originals.len()
    &&& forall|i: int| 0 <= i < originals.len() ==> #[trigger] copies[i].is_copy_of(originals[i])
}

impl<T: Clone> Clone for Rumor<T> {
    fn clone(&self) -> (r: Self)
        ensures
            r.is_copy_of(*self),
    {
        Rumor {
            id: self.id,
            origin: self.origin.clone(),
            created_at: self.created_at,
            payload: self.payload.clone(),
        }
    }
}

impl<T: PartialEq + PartialEqSpec> PartialEq for Rumor<T> {
    fn eq(&self, other: &Self) -> (b: bool) {
        self.id == other.id && self.origin == other.origin && self.created_at == other.created_at
            && self.payload == other.payload
    }
}

impl<T: PartialEq + PartialEqSpec> vstd::std_specs::cmp::PartialEqSpecImpl for Rumor<T> {
    open spec fn obeys_eq_spec() -> bool {
        T::obeys_eq_spec()
    }

    open spec fn eq_spec(&self, other: &Rumor<T>) -> bool {
        &&& self.spec_id() == other.spec_id()
        &&& self.spec_origin()@ == other.spec_origin()@
        &&& self.spec_created_at() == other.spec_created_at()
        &&& self.spec_payload().eq_spec(&other.spec_payload())
    }
}

impl<T: Eq + PartialEqSpec> Eq for Rumor<T> {
}

/// Two rumors with the same identifier, origin and creation round, and
/// payloads that `==` calls equal.
pub open spec fn same_rumor<T: PartialEqSpec>(a: Rumor<T>, b: Rumor<T>) -> bool {
    &&& a.spec_id() == b.spec_id()
    &&& a.spec_origin()@ == b.spec_origin()@
    &&& a.spec_created_at() == b.spec_created_at()
    &&& a.spec_payload().eq_spec(&b.spec_payload())
}

/// Returns a copy of each rumor, in order.
pub fn copy_rumors<T: Clone>(rumors: &Vec<Rumor<T>>) -> (copies: Vec<Rumor<T>>)
    ensures
        copies@.len() == rumors@.len(),
        forall|i: int| 0 <= i < rumors@.len() ==> #[trigger] copies@[i].is_copy_of(rumors@[i]),
{
    let mut copies: Vec<Rumor<T>> = Vec::new();
    let mut i: usize = 0;
    while i < rumors.len()
        invariant
            i <= rumors@.len(),
            copies@.len() == i,
            forall|j: int| 0 <= j < i ==> #[trigger] copies@[j].is_copy_of(rumors@[j]),
        decreases rumors@.len() - i,
    {
        copies.push(rumors[i].clone());
        i = i + 1;
    }
    copies
}

} // verus!
