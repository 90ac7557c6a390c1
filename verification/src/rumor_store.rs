//! Bounded storage for gossip rumors.

use std::collections::{BTreeMap, VecDeque};
use vstd::prelude::*;

use crate::identity::MessageId;
use crate::rumor::Rumor;
use crate::time::Round;

verus! {

/// Result of inserting a rumor into a store.
#[derive(Clone, Copy, Debug, PartialEq, Eq, Structural)]
pub enum InsertOutcome {
    /// The rumor was newly inserted.
    Inserted,
    /// The rumor was already known.
    Duplicate,
    /// The rumor was inserted and the oldest rumor was evicted.
    InsertedWithEviction {
        /// The ID of the evicted rumor.
        evicted: MessageId,
    },
}

impl InsertOutcome {
    /// The rumor was stored by the insertion.
    pub open spec fn is_accepted(self) -> bool {
        !(self is Duplicate)
    }
}

/// `s` holds a rumor with identifier `id`.
pub open spec fn has_id<T>(s: Seq<Rumor<T>>, id: MessageId) -> bool {
    exists|i: int| 0 <= i < s.len() && #[trigger] s[i].spec_id() == id
}

/// No two rumors of `s` share an identifier.
pub open spec fn distinct_ids<T>(s: Seq<Rumor<T>>) -> bool {
    forall|i: int, j: int|
        0 <= i < s.len() && 0 <= j < s.len() && i != j ==> s[i].spec_id() != s[j].spec_id()
}

/// The rumors of `s` created in round `minimum` or later, in order.
pub open spec fn created_since<T>(s: Seq<Rumor<T>>, minimum: u64) -> Seq<Rumor<T>>
    decreases s.len(),
{
    if s.len() == 0 {
        Seq::empty()
    } else {
        let rest = created_since(s.drop_last(), minimum);
        if s.last().spec_created_at().value() >= minimum {
            rest.push(s.last())
        } else {
            rest
        }
    }
}

/// Retention: pruning keeps exactly the rumors created in round `minimum` or
/// later, in their order, and never adds one.
pub proof fn lemma_created_since<T>(s: Seq<Rumor<T>>, minimum: u64)
    ensures
        created_since(s, minimum).len() <= s.len(),
        forall|x: Rumor<T>| #[trigger]
            created_since(s, minimum).contains(x) <==> s.contains(x) && x.spec_created_at().value()
                >= minimum,
        distinct_ids(s) ==> distinct_ids(created_since(s, minimum)),
    decreases s.len(),
{
    broadcast use vstd::seq_lib::group_seq_properties;

    if s.len() > 0 {
        let rest = s.drop_last();
        lemma_created_since(rest, minimum);
        assert(s =~= rest.push(s.last()));
        if distinct_ids(s) {
            assert(distinct_ids(rest)) by {
                assert forall|i: int, j: int|
                    0 <= i < rest.len() && 0 <= j < rest.len() && i != j implies rest[i].spec_id()
                    != rest[j].spec_id() by {
                    assert(rest[i] == s[i] && rest[j] == s[j]);
                }
            }
            let c = created_since(rest, minimum);
            assert forall|i: int| 0 <= i < c.len() implies #[trigger] c[i].spec_id() != s.last().spec_id() by {
                assert(c.contains(c[i]));
                assert(rest.contains(c[i]));
                let k = choose|k: int| 0 <= k < rest.len() && rest[k] == c[i];
                assert(s[k] == c[i]);
            }
        }
    }
}

/// The outcome of inserting `rumor` into a store holding `stored` with
/// capacity `max_rumors`, and the rumors stored afterwards: a known identifier
/// is a duplicate and changes nothing; otherwise the rumor is appended, after
/// evicting the oldest rumor when the store is full.
pub open spec fn spec_insert<T>(stored: Seq<Rumor<T>>, max_rumors: usize, rumor: Rumor<T>) -> (
    InsertOutcome,
    Seq<Rumor<T>>,
) {
    if has_id(stored, rumor.spec_id()) {
        (InsertOutcome::Duplicate, stored)
    } else if stored.len() < max_rumors {
        (InsertOutcome::Inserted, stored.push(rumor))
    } else {
        (
            InsertOutcome::InsertedWithEviction { evicted: stored[0].spec_id() },
            stored.drop_first().push(rumor),
        )
    }
}

/// Inserting a rumor leaves no identifier in the store but those held before
/// and the inserted rumor's.
pub proof fn lemma_insert_ids<T>(stored: Seq<Rumor<T>>, max_rumors: usize, rumor: Rumor<T>, id: MessageId)
    requires
        max_rumors > 0,
    ensures
        has_id(spec_insert(stored, max_rumors, rumor).1, id) ==> has_id(stored, id) || rumor.spec_id() == id,
{
    let st = spec_insert(stored, max_rumors, rumor).1;
    if has_id(st, id) && rumor.spec_id() != id && !has_id(stored, rumor.spec_id()) {
        let i = choose|i: int| 0 <= i < st.len() && #[trigger] st[i].spec_id() == id;
        if stored.len() < max_rumors {
            assert(st[i] == stored[i]);
        } else {
            assert(st[i] == stored[i + 1]);
        }
    }
}

/// The outcomes of inserting `rumors` one after another into a store holding
/// `stored` with capacity `max_rumors`, and the rumors stored afterwards.
pub open spec fn spec_insert_all<T>(stored: Seq<Rumor<T>>, max_rumors: usize, rumors: Seq<Rumor<T>>) -> (
    Seq<InsertOutcome>,
    Seq<Rumor<T>>,
)
    decreases rumors.len(),
{
    if rumors.len() == 0 {
        (Seq::empty(), stored)
    } else {
        let (outcomes, st) = spec_insert_all(stored, max_rumors, rumors.drop_last());
        let (outcome, st2) = spec_insert(st, max_rumors, rumors.last());
        (outcomes.push(outcome), st2)
    }
}

/// The rumors named by `order`, looked up in `rumors`.
pub open spec fn lookup_all<T>(order: Seq<u128>, rumors: Map<u128, Rumor<T>>) -> Seq<Rumor<T>> {
    Seq::new(order.len(), |i: int| rumors[order[i]])
}

/// Bounded rumor storage with duplicate suppression.
///
/// The store keeps insertion order so it can evict the oldest rumor when it
/// reaches capacity. Its abstract value (`view`) is the sequence of stored
/// rumors, oldest first.
#[derive(Debug)]
pub struct RumorStore<T> {
    max_rumors: usize,
    order: VecDeque<u128>,
    rumors: BTreeMap<u128, Rumor<T>>,
}

impl<T> View for RumorStore<T> {
    type V = Seq<Rumor<T>>;

    closed spec fn view(&self) -> Seq<Rumor<T>> {
        lookup_all(self.order@, self.rumors@)
    }
}

impl<T> RumorStore<T> {
    /// The capacity of the store.
    pub closed spec fn spec_max_rumors(self) -> usize {
        self.max_rumors
    }

    /// The order of identifiers and the map of rumors describe the same rumors,
    /// within capacity and without duplicates.
    pub closed spec fn wf(self) -> bool {
        &&& self.max_rumors > 0
        &&& self.order@.len() <= self.max_rumors
        &&& self.order@.no_duplicates()
        &&& forall|k: u128|
            #![trigger self.rumors@.contains_key(k)]
            #![trigger self.order@.contains(k)]
            self.rumors@.contains_key(k) <==> self.order@.contains(k)
        &&& forall|k: u128| #[trigger]
            self.rumors@.contains_key(k) ==> self.rumors@[k].spec_id().value() == k
    }

    /// A well-formed store holds at most its capacity, its capacity is
    /// positive, and no two stored rumors share an identifier.
    pub proof fn lemma_wf(self)
        requires
            self.wf(),
        ensures
            self@.len() <= self.spec_max_rumors(),
            self.spec_max_rumors() > 0,
            distinct_ids(self@),
    {
        assert forall|i: int, j: int|
            0 <= i < self@.len() && 0 <= j < self@.len() && i != j implies self@[i].spec_id()
            != self@[j].spec_id() by {
            assert(self.order@.contains(self.order@[i]));
            assert(self.order@.contains(self.order@[j]));
        }
    }

    /// Whether the store holds a rumor with identifier `id`, by its key.
    proof fn lemma_has_id(self, id: MessageId)
        requires
            self.wf(),
        ensures
            has_id(self@, id) <==> self.rumors@.contains_key(id.value()),
    {
        if self.rumors@.contains_key(id.value()) {
            assert(self.order@.contains(id.value()));
            let i = choose|i: int| 0 <= i < self.order@.len() && self.order@[i] == id.value();
            MessageId::lemma_value_injective(self@[i].spec_id(), id);
            assert(self@[i].spec_id() == id);
        }
        if has_id(self@, id) {
            let i = choose|i: int| 0 <= i < self@.len() && #[trigger] self@[i].spec_id() == id;
            assert(self.order@.contains(self.order@[i]));
        }
    }

    /// Creates a rumor store with a fixed capacity.
    pub fn new(max_rumors: usize) -> (store: Self)
        requires
            max_rumors > 0,
        ensures
            store.wf(),
            store@ == Seq::<Rumor<T>>::empty(),
            store.spec_max_rumors() == max_rumors,
    {
        let store = RumorStore { max_rumors, order: VecDeque::new(), rumors: BTreeMap::new() };
        assert(store@ =~= Seq::<Rumor<T>>::empty());
        store
    }

    /// Returns the capacity of the store.
    pub fn max_rumors(&self) -> (n: usize)
        ensures
            n == self.spec_max_rumors(),
    {
        self.max_rumors
    }

    /// Returns the number of rumors currently stored.
    pub fn len(&self) -> (n: usize)
        ensures
            n == self@.len(),
    {
        self.order.len()
    }

    /// Returns `true` if the store has no rumors.
    pub fn is_empty(&self) -> (b: bool)
        ensures
            b == (self@.len() == 0),
    {
        self.order.len() == 0
    }

    /// Returns `true` if the store already knows this message ID.
    pub fn contains(&self, id: MessageId) -> (b: bool)
        requires
            self.wf(),
        ensures
            b == has_id(self@, id),
    {
        proof {
            self.lemma_has_id(id);
        }
        self.rumors.contains_key(&id.get())
    }

    /// Returns a rumor by ID.
    pub fn get(&self, id: MessageId) -> (r: Option<&Rumor<T>>)
        requires
            self.wf(),
        ensures
            r is None <==> !has_id(self@, id),
            r matches Some(x) ==> exists|i: int|
                0 <= i < self@.len() && #[trigger] self@[i] == *x && x.spec_id() == id,
    {
        proof {
            self.lemma_has_id(id);
        }
        let r = self.rumors.get(&id.get());
        proof {
            if let Some(x) = r {
                assert(self.order@.contains(id.value()));
                let i = choose|i: int| 0 <= i < self.order@.len() && self.order@[i] == id.value();
                assert(self@[i] == *x);
                MessageId::lemma_value_injective(x.spec_id(), id);
            }
        }
        r
    }

    /// Inserts a rumor, suppressing duplicates and evicting the oldest item when
    /// the store is full.
    pub fn insert(&mut self, rumor: Rumor<T>) -> (outcome: InsertOutcome)
        requires
            old(self).wf(),
        ensures
            final(self).wf(),
            final(self).spec_max_rumors() == old(self).spec_max_rumors(),
            (outcome, final(self)@) == spec_insert(old(self)@, old(self).spec_max_rumors(), rumor),
    {
        proof {
            old(self).lemma_has_id(rumor.spec_id());
            old(self).lemma_wf();
        }
        let ghost old_order = self.order@;
        let ghost old_map = self.rumors@;
        let key = rumor.id().get();
        if self.rumors.contains_key(&key) {
            return InsertOutcome::Duplicate;
        }
        if self.order.len() == self.max_rumors {
            let front = self.order.pop_front();
            let evicted = match front {
                Some(k) => k,
                None => key,
            };
            assert(evicted == old_order[0]);
            self.rumors.remove(&evicted);
            self.order.push_back(key);
            self.rumors.insert(key, rumor);
            proof {
                assert(self.order@ =~= old_order.drop_first().push(key));
                assert(old_order.contains(evicted));
                assert forall|k: u128| #[trigger]
                    self.rumors@.contains_key(k) <==> self.order@.contains(k) by {
                    if k == key {
                        assert(self.order@[self.order@.len() - 1] == key);
                    } else {
                        if old_map.contains_key(k) && k != evicted {
                            assert(old_order.contains(k));
                            let i = choose|i: int| 0 <= i < old_order.len() && old_order[i] == k;
                            assert(i != 0);
                            assert(self.order@[i - 1] == k);
                        }
                        if self.order@.contains(k) {
                            let i = choose|i: int| 0 <= i < self.order@.len() && self.order@[i] == k;
                            assert(old_order[i + 1] == k);
                            assert(old_order.contains(k));
                            assert(old_map.contains_key(k));
                        }
                    }
                }
                assert(self.order@.no_duplicates()) by {
                    assert forall|i: int, j: int|
                        0 <= i < self.order@.len() && 0 <= j < self.order@.len() && i != j
                        implies self.order@[i] != self.order@[j] by {
                        if i < self.order@.len() - 1 && j < self.order@.len() - 1 {
                            assert(self.order@[i] == old_order[i + 1]);
                            assert(self.order@[j] == old_order[j + 1]);
                        } else if i < self.order@.len() - 1 {
                            assert(old_order.contains(old_order[i + 1]));
                        } else if j < self.order@.len() - 1 {
                            assert(old_order.contains(old_order[j + 1]));
                        }
                    }
                }
                let ov = lookup_all(old_order, old_map);
                assert(self@ =~= ov.drop_first().push(rumor)) by {
                    assert forall|i: int| 0 <= i < self@.len() - 1 implies self@[i] == ov[i + 1] by {
                        assert(self.order@[i] == old_order[i + 1]);
                        assert(old_order.contains(old_order[i + 1]));
                        assert(old_order[i + 1] != evicted);
                    }
                }
                MessageId::lemma_value_injective(rumor.spec_id(), rumor.spec_id());
            }
            let evicted_id = MessageId::new(evicted);
            proof {
                assert(old_map.contains_key(evicted));
                MessageId::lemma_value_injective(evicted_id, old_map[evicted].spec_id());
            }
            return InsertOutcome::InsertedWithEviction { evicted: evicted_id };
        }
        self.order.push_back(key);
        self.rumors.insert(key, rumor);
        proof {
            assert(self.order@ =~= old_order.push(key));
            assert forall|k: u128| #[trigger]
                self.rumors@.contains_key(k) <==> self.order@.contains(k) by {
                if k == key {
                    assert(self.order@[self.order@.len() - 1] == key);
                } else {
                    if old_map.contains_key(k) {
                        assert(old_order.contains(k));
                        let i = choose|i: int| 0 <= i < old_order.len() && old_order[i] == k;
                        assert(self.order@[i] == k);
                    }
                    if self.order@.contains(k) {
                        let i = choose|i: int| 0 <= i < self.order@.len() && self.order@[i] == k;
                        assert(old_order[i] == k);
                        assert(old_order.contains(k));
                    }
                }
            }
            let ov = lookup_all(old_order, old_map);
            assert(self@ =~= ov.push(rumor)) by {
                assert forall|i: int| 0 <= i < ov.len() implies self@[i] == ov[i] by {
                    assert(old_order.contains(old_order[i]));
                }
            }
        }
        InsertOutcome::Inserted
    }

    /// Removes rumors created before `minimum_round`.
    ///
    /// Returns the number of removed rumors.
    pub fn prune_older_than(&mut self, minimum_round: Round) -> (removed: usize)
        requires
            old(self).wf(),
        ensures
            final(self).wf(),
            final(self).spec_max_rumors() == old(self).spec_max_rumors(),
            final(self)@ == created_since(old(self)@, minimum_round.value()),
            removed == old(self)@.len() - final(self)@.len(),
    {
        let ghost old_order = self.order@;
        let ghost old_map = self.rumors@;
        let ghost old_view = self@;
        let minimum = minimum_round.get();
        let before = self.order.len();
        let mut kept: VecDeque<u128> = VecDeque::new();
        let mut i: usize = 0;
        while i < before
            invariant
                before == old_order.len(),
                self.order@ == old_order,
                self.max_rumors == old(self).max_rumors,
                old_order.no_duplicates(),
                forall|k: u128|
                    #![trigger old_map.contains_key(k)]
                    #![trigger old_order.contains(k)]
                    old_map.contains_key(k) <==> old_order.contains(k),
                old_view == lookup_all(old_order, old_map),
                i <= before,
                lookup_all(kept@, old_map) == created_since(old_view.take(i as int), minimum),
                kept@.no_duplicates(),
                forall|k: u128|
                    #![trigger kept@.contains(k)]
                    kept@.contains(k) ==> old_order.take(i as int).contains(k),
                forall|k: u128|
                    #![trigger self.rumors@.contains_key(k)]
                    #![trigger kept@.contains(k)]
                    old_order.take(i as int).contains(k) ==> (self.rumors@.contains_key(k)
                        <==> kept@.contains(k)),
                forall|k: u128|
                    #![trigger self.rumors@.contains_key(k)]
                    #![trigger old_order.contains(k)]
                    !old_order.take(i as int).contains(k) ==> (self.rumors@.contains_key(k)
                        <==> old_order.contains(k)),
                forall|k: u128| #[trigger]
                    self.rumors@.contains_key(k) ==> self.rumors@[k] == old_map[k],
            decreases before - i,
        {
            let key = self.order[i];
            proof {
                broadcast use vstd::seq_lib::group_seq_properties;

                assert(old_order.contains(key));
                assert(old_view.take(i + 1).drop_last() =~= old_view.take(i as int));
                assert(old_view[i as int] == old_map[key]);
                assert(old_order.take(i + 1) =~= old_order.take(i as int).push(key));
                assert(!old_order.take(i as int).contains(key)) by {
                    if old_order.take(i as int).contains(key) {
                        let j = choose|j: int| 0 <= j < i && old_order.take(i as int)[j] == key;
                        assert(old_order[j] == old_order[i as int]);
                    }
                }
                assert(self.rumors@.contains_key(key));
                assert(!kept@.contains(key));
            }
            let keep = match self.rumors.get(&key) {
                Some(r) => r.created_at().get() >= minimum,
                None => false,
            };
            let ghost prev_kept = kept@;
            let ghost prev_map = self.rumors@;
            if keep {
                kept.push_back(key);
                proof {
                    assert(kept@ =~= prev_kept.push(key));
                    assert(lookup_all(kept@, old_map) =~= lookup_all(prev_kept, old_map).push(
                        old_map[key],
                    ));
                }
            } else {
                self.rumors.remove(&key);
            }
            i = i + 1;
            proof {
                broadcast use vstd::seq_lib::group_seq_properties;

                assert forall|k: u128| #[trigger] kept@.contains(k) implies old_order.take(
                    i as int,
                ).contains(k) by {
                    if k != key {
                        assert(prev_kept.contains(k));
                    }
                }
                assert forall|k: u128|
                    old_order.take(i as int).contains(k) implies (#[trigger] self.rumors@.contains_key(
                        k,
                    ) <==> kept@.contains(k)) by {
                    if k != key {
                        assert(old_order.take(i - 1).contains(k));
                    }
                }
                assert forall|k: u128|
                    !old_order.take(i as int).contains(k) implies (#[trigger] self.rumors@.contains_key(
                        k,
                    ) <==> old_order.contains(k)) by {
                    assert(k != key);
                    assert(!old_order.take(i - 1).contains(k));
                }
                assert(kept@.no_duplicates());
            }
        }
        proof {
            broadcast use vstd::seq_lib::group_seq_properties;

            assert(old_view.take(before as int) =~= old_view);
            assert(old_order.take(before as int) =~= old_order);
            assert(kept@.len() <= old_order.len()) by {
                kept@.unique_seq_to_set();
                old_order.unique_seq_to_set();
                assert(kept@.to_set().subset_of(old_order.to_set()));
                vstd::set_lib::lemma_len_subset(kept@.to_set(), old_order.to_set());
            }
        }
        self.order = kept;
        proof {
            assert forall|k: u128|
                #![trigger self.rumors@.contains_key(k)]
                #![trigger self.order@.contains(k)]
                self.rumors@.contains_key(k) <==> self.order@.contains(k) by {
                if !old_order.contains(k) {
                    assert(!old_order.take(before as int).contains(k));
                    assert(!kept@.contains(k));
                }
            }
            assert forall|k: u128| #[trigger]
                self.rumors@.contains_key(k) implies self.rumors@[k].spec_id().value() == k by {
                assert(old_map.contains_key(k));
            }
            assert(lookup_all(kept@, self.rumors@) =~= lookup_all(kept@, old_map)) by {
                assert forall|j: int| 0 <= j < kept@.len() implies self.rumors@[kept@[j]]
                    == old_map[kept@[j]] by {
                    assert(kept@.contains(kept@[j]));
                    assert(old_order.take(before as int).contains(kept@[j]));
                }
            }
        }
        before - self.order.len()
    }

    /// Returns rumors in insertion order.
    pub fn iter_in_insertion_order(&self) -> (rumors: Vec<&Rumor<T>>)
        requires
            self.wf(),
        ensures
            rumors@.len() == self@.len(),
            forall|i: int| 0 <= i < self@.len() ==> *#[trigger] rumors@[i] == self@[i],
    {
        let mut rumors: Vec<&Rumor<T>> = Vec::new();
        let mut i: usize = 0;
        while i < self.order.len()
            invariant
                self.wf(),
                i <= self.order@.len(),
                rumors@.len() == i,
                forall|j: int| 0 <= j < i ==> *#[trigger] rumors@[j] == self@[j],
            decreases self.order@.len() - i,
        {
            let key = self.order[i];
            proof {
                assert(self.order@.contains(key));
            }
            match self.rumors.get(&key) {
                Some(r) => rumors.push(r),
                None => {},
            }
            i = i + 1;
        }
        rumors
    }
}

impl<T: Clone> Clone for RumorStore<T> {
    fn clone(&self) -> (store: Self) {
        RumorStore { max_rumors: self.max_rumors, order: self.order.clone(), rumors: self.rumors.clone() }
    }
}

} // verus!
