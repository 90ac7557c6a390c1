//! Protocol messages exchanged by gossip nodes.

use vstd::prelude::*;
use vstd::std_specs::cmp::PartialEqSpec;

use crate::rumor::{same_rumor, Rumor};

verus! {

/// A protocol message exchanged between gossip nodes.
#[derive(Debug)]
pub enum GossipMessage<T> {
    /// Carries rumors to another node.
    Rumors(Vec<Rumor<T>>),
}

impl<T> GossipMessage<T> {
    /// The rumors carried by this message.
    pub open spec fn spec_rumors(self) -> Seq<Rumor<T>> {
        match self {
            GossipMessage::Rumors(rumors) => rumors@,
        }
    }

    /// Creates a message containing rumors.
    pub fn rumors(rumors: Vec<Rumor<T>>) -> (m: Self)
        ensures
            m.spec_rumors() == rumors@,
    {
        GossipMessage::Rumors(rumors)
    }

    /// Returns the number of rumors carried by this message.
    pub fn rumor_count(&self) -> (n: usize)
        ensures
            n == self.spec_rumors().len(),
    {
        match self {
            GossipMessage::Rumors(rumors) => rumors.len(),
        }
    }

    /// Returns `true` if this message carries no rumor.
    pub fn is_empty(&self) -> (b: bool)
        ensures
            b == (self.spec_rumors().len() == 0),
    {
        match self {
            GossipMessage::Rumors(rumors) => rumors.len() == 0,
        }
    }
}

impl<T: Clone> GossipMessage<T> {
    /// `self` carries a copy of each rumor of `original`, in order.
    pub open spec fn is_copy_of(self, original: GossipMessage<T>) -> bool {
        &&& self.spec_rumors().len() == original.spec_rumors().len()
        &&& forall|i: int|
            0 <= i < original.spec_rumors().len() ==> #[trigger] self.spec_rumors()[i].is_copy_of(
                original.spec_rumors()[i],
            )
    }
}

impl<T: Clone> Clone for GossipMessage<T> {
    fn clone(&self) -> (m: Self)
        ensures
            m.spec_rumors().len() == self.spec_rumors().len(),
            forall|i: int|
                0 <= i < self.spec_rumors().len() ==> #[trigger] m.spec_rumors()[i].is_copy_of(
                    self.spec_rumors()[i],
                ),
    {
        match self {
            GossipMessage::Rumors(rumors) => GossipMessage::Rumors(crate::rumor::copy_rumors(rumors)),
        }
    }
}

impl<T: PartialEq + PartialEqSpec> PartialEq for GossipMessage<T> {
    fn eq(&self, other: &Self) -> (b: bool) {
        match (self, other) {
            (GossipMessage::Rumors(mine), GossipMessage::Rumors(theirs)) => {
                if mine.len() != theirs.len() {
                    return false;
                }
                let mut i: usize = 0;
                while i < mine.len()
                    invariant
                        i <= mine@.len(),
                        mine@.len() == theirs@.len(),
                        self.spec_rumors() == mine@,
                        other.spec_rumors() == theirs@,
                        T::obeys_eq_spec() ==> forall|k: int|
                            0 <= k < i ==> #[trigger] same_rumor(mine@[k], theirs@[k]),
                    decreases mine@.len() - i,
                {
                    if mine[i] != theirs[i] {
                        proof {
                            if T::obeys_eq_spec() {
                                assert(!same_rumor(mine@[i as int], theirs@[i as int]));
                            }
                        }
                        return false;
                    }
                    i = i + 1;
                }
                true
            },
        }
    }
}

impl<T: PartialEq + PartialEqSpec> vstd::std_specs::cmp::PartialEqSpecImpl for GossipMessage<T> {
    open spec fn obeys_eq_spec() -> bool {
        T::obeys_eq_spec()
    }

    open spec fn eq_spec(&self, other: &GossipMessage<T>) -> bool {
        &&& self.spec_rumors().len() == other.spec_rumors().len()
        &&& forall|k: int|
            0 <= k < self.spec_rumors().len() ==> #[trigger] same_rumor(
                self.spec_rumors()[k],
                other.spec_rumors()[k],
            )
    }
}

impl<T: Eq + PartialEqSpec> Eq for GossipMessage<T> {
}

} // verus!
