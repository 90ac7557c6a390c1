//! Events emitted by gossip nodes.

use vstd::prelude::*;
use vstd::std_specs::cmp::PartialEqSpec;

use crate::rumor::{same_rumor, Rumor};

verus! {

/// An event produced by a gossip node when processing protocol input.
#[derive(Debug)]
pub enum GossipEvent<T> {
    /// The node accepted a rumor it did not already know.
    NewRumor(Rumor<T>),
}

impl<T> GossipEvent<T> {
    /// Creates a `NewRumor` event.
    pub fn new_rumor(rumor: Rumor<T>) -> (e: Self)
        ensures
            e == GossipEvent::NewRumor(rumor),
    {
        GossipEvent::NewRumor(rumor)
    }
}

impl<T: Clone> Clone for GossipEvent<T> {
    fn clone(&self) -> (e: Self)
        ensures
            e matches GossipEvent::NewRumor(r) && *self matches GossipEvent::NewRumor(s)
                && r.is_copy_of(s),
    {
        match self {
            GossipEvent::NewRumor(r) => GossipEvent::NewRumor(r.clone()),
        }
    }
}

impl<T: PartialEq + PartialEqSpec> PartialEq for GossipEvent<T> {
    fn eq(&self, other: &Self) -> (b: bool) {
        match (self, other) {
            (GossipEvent::NewRumor(mine), GossipEvent::NewRumor(theirs)) => mine == theirs,
        }
    }
}

impl<T: PartialEq + PartialEqSpec> vstd::std_specs::cmp::PartialEqSpecImpl for GossipEvent<T> {
    open spec fn obeys_eq_spec() -> bool {
        T::obeys_eq_spec()
    }

    open spec fn eq_spec(&self, other: &GossipEvent<T>) -> bool {
        match (*self, *other) {
            (GossipEvent::NewRumor(mine), GossipEvent::NewRumor(theirs)) => same_rumor(mine, theirs),
        }
    }
}

impl<T: Eq + PartialEqSpec> Eq for GossipEvent<T> {
}

} // verus!
