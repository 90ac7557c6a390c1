//! Anti-entropy: digest/delta synchronization between stores.

use std::collections::BTreeSet;
use vstd::prelude::*;
use vstd::std_specs::iter::IteratorSpec;

use crate::identity::MessageId;
use crate::rumor::{copies_of, Rumor};
use crate::rumor_store::{distinct_ids, has_id, lemma_insert_ids, spec_insert, InsertOutcome, RumorStore};

verus! {

/// A compact summary of known item IDs.
///
/// A digest does not need to contain the full items; it only answers whether
/// an item is probably or definitely known (`answers`). A digest that says
/// nothing of its answers allows every answer.
pub trait Digest {
    /// The identifier type summarized by this digest.
    type ItemId;

    /// The digest may answer `known` when asked about `id`.
    open spec fn answers(&self, id: Self::ItemId, known: bool) -> bool {
        true
    }

    /// Returns `true` if the digest says this item is known.
    fn contains(&self, id: &Self::ItemId) -> (b: bool)
        ensures
            self.answers(*id, b),
    ;
}

/// A simple exact digest: the set of known message identifiers.
#[derive(Clone, Debug, PartialEq, Eq)]
pub struct IdSetDigest {
    ids: BTreeSet<u128>,
}

impl IdSetDigest {
    /// The values of the identifiers in the digest.
    pub closed spec fn spec_ids(self) -> Set<u128> {
        self.ids@
    }

    /// Creates an empty digest.
    pub fn new() -> (d: Self)
        ensures
            d.spec_ids() == Set::<u128>::empty(),
    {
        IdSetDigest { ids: BTreeSet::new() }
    }

    /// Creates a digest from item IDs.
    pub fn from_ids(ids: &[MessageId]) -> (d: Self)
        ensures
            d.spec_ids() == ids@.map_values(|id: MessageId| id.value()).to_set(),
    {
        let mut set: BTreeSet<u128> = BTreeSet::new();
        let mut i: usize = 0;
        while i < ids.len()
            invariant
                i <= ids@.len(),
                set@ == ids@.take(i as int).map_values(|id: MessageId| id.value()).to_set(),
            decreases ids@.len() - i,
        {
            set.insert(ids[i].get());
            proof {
                broadcast use vstd::seq_lib::group_seq_properties;

                let prev = ids@.take(i as int).map_values(|id: MessageId| id.value());
                let next = ids@.take(i + 1).map_values(|id: MessageId| id.value());
                assert(next =~= prev.push(ids@[i as int].value()));
                assert forall|v: u128| set@.contains(v) <==> next.to_set().contains(v) by {
                    assert(next.contains(v) <==> prev.contains(v) || v == ids@[i as int].value());
                }
                assert(set@ =~= next.to_set());
            }
            i = i + 1;
        }
        assert(ids@.take(ids@.len() as int) =~= ids@);
        IdSetDigest { ids: set }
    }

    /// Returns the IDs in the digest, in increasing order.
    pub fn ids(&self) -> (ids: Vec<MessageId>)
        ensures
            ids@.map_values(|id: MessageId| id.value()).to_set() == self.spec_ids(),
            forall|i: int, j: int| 0 <= i < j < ids@.len() ==> ids@[i].value() < ids@[j].value(),
    {
        broadcast use vstd::std_specs::btree::group_btree_axioms;

        let mut ids: Vec<MessageId> = Vec::new();
        let ghost keys = vstd::std_specs::btree::spec_btree_keys_iter(&self.ids).remaining().unref();
        for v in it: self.ids.iter()
            invariant
                keys == it.seq().unref(),
                ids@.len() == it.index(),
                forall|k: int| 0 <= k < ids@.len() ==> #[trigger] ids@[k].value() == keys[k],
        {
            ids.push(MessageId::new(*v));
        }
        proof {
            broadcast use vstd::laws_cmp::group_laws_cmp;

            assert(ids@.map_values(|id: MessageId| id.value()) =~= keys);
            let ghost walk = vstd::std_specs::btree::spec_btree_keys_iter(&self.ids).remaining();
            assert(vstd::laws_cmp::obeys_cmp::<u128>());
            assert(vstd::laws_cmp::obeys_cmp::<&u128>());
            assert(vstd::std_specs::btree::increasing_seq(walk));
            assert forall|i: int, j: int| 0 <= i < j < ids@.len() implies ids@[i].value() < ids@[j].value() by {
                assert(ids@[i].value() == keys[i]);
                assert(ids@[j].value() == keys[j]);
                assert(vstd::std_specs::cmp::OrdSpec::cmp_spec(&walk[i], &walk[j]) is Less);
            }
        }
        ids
    }

    /// Returns the number of IDs in the digest.
    pub fn len(&self) -> (n: usize)
        ensures
            n == self.spec_ids().len(),
    {
        self.ids.len()
    }

    /// Returns `true` if the digest contains no IDs.
    pub fn is_empty(&self) -> (b: bool)
        ensures
            b == self.spec_ids().is_empty(),
    {
        self.ids.is_empty()
    }
}

impl Default for IdSetDigest {
    fn default() -> (d: Self)
        ensures
            d.spec_ids() == Set::<u128>::empty(),
    {
        IdSetDigest::new()
    }
}

impl Digest for IdSetDigest {
    type ItemId = MessageId;

    open spec fn answers(&self, id: MessageId, known: bool) -> bool {
        known == self.spec_ids().contains(id.value())
    }

    fn contains(&self, id: &MessageId) -> (b: bool) {
        self.ids.contains(&id.get())
    }
}

/// A store that can summarize itself and produce the items a peer misses.
pub trait DeltaStore {
    /// The item identifier type.
    type ItemId;
    /// The full item type sent as a delta.
    type Item;
    /// The digest type produced by this store.
    type Digest: Digest<ItemId = Self::ItemId>;

    /// The store is in a state its operations accept.
    open spec fn store_wf(&self) -> bool {
        true
    }

    /// `digest` may be a summary of this store.
    open spec fn is_digest_of(&self, digest: Self::Digest) -> bool {
        true
    }

    /// `items` may be the items of this store that a remote digest, which can
    /// give the answers `remote_answers` allows, does not know.
    open spec fn is_delta_for(&self, remote_answers: spec_fn(Self::ItemId, bool) -> bool, items: Seq<Self::Item>) -> bool {
        true
    }

    /// Returns a compact summary of local state.
    fn digest(&self) -> (digest: Self::Digest)
        requires
            self.store_wf(),
        ensures
            self.is_digest_of(digest),
    ;

    /// Returns items known locally but missing from `remote_digest`.
    fn delta<D: Digest<ItemId = Self::ItemId>>(&self, remote_digest: &D) -> (items: Vec<Self::Item>)
        requires
            self.store_wf(),
        ensures
            self.is_delta_for(|id: Self::ItemId, known: bool| remote_digest.answers(id, known), items@),
    ;
}

/// Result of merging one incoming item into local state.
#[derive(Clone, Copy, Debug, PartialEq, Eq, Structural)]
pub enum MergeOutcome {
    /// The item changed local state.
    Changed,
    /// The item was already known or otherwise did not change local state.
    Unchanged,
}

/// Summary of applying a delta batch.
#[derive(Clone, Copy, Debug, PartialEq, Eq, Structural)]
pub struct MergeReport {
    changed: usize,
    unchanged: usize,
}

impl MergeReport {
    /// The number of merged items that changed local state.
    pub closed spec fn spec_changed(self) -> usize {
        self.changed
    }

    /// The number of merged items that did not change local state.
    pub closed spec fn spec_unchanged(self) -> usize {
        self.unchanged
    }

    /// The total fits in a `usize`.
    #[verifier::type_invariant]
    closed spec fn total_fits(self) -> bool {
        self.changed + self.unchanged <= usize::MAX
    }

    /// Rebuilds a report from its two counts; `None` when their total does not
    /// fit in a `usize`.
    pub fn from_counts(changed: usize, unchanged: usize) -> (r: Option<MergeReport>)
        ensures
            r is Some <==> changed + unchanged <= usize::MAX,
            r matches Some(report) ==> report.spec_changed() == changed && report.spec_unchanged()
                == unchanged,
    {
        if changed <= usize::MAX - unchanged {
            Some(MergeReport { changed, unchanged })
        } else {
            None
        }
    }

    /// Returns how many items changed local state.
    pub fn changed(&self) -> (n: usize)
        ensures
            n == self.spec_changed(),
    {
        self.changed
    }

    /// Returns how many items did not change local state.
    pub fn unchanged(&self) -> (n: usize)
        ensures
            n == self.spec_unchanged(),
    {
        self.unchanged
    }

    /// Returns the total number of merged items.
    pub fn total(&self) -> (n: usize)
        ensures
            n == self.spec_changed() + self.spec_unchanged(),
    {
        proof {
            use_type_invariant(self);
        }
        self.changed + self.unchanged
    }

    /// Returns `true` if at least one item changed local state.
    pub fn has_changes(&self) -> (b: bool)
        ensures
            b == (self.spec_changed() > 0),
    {
        self.changed > 0
    }
}

impl Default for MergeReport {
    fn default() -> (r: Self)
        ensures
            r.spec_changed() == 0,
            r.spec_unchanged() == 0,
    {
        MergeReport { changed: 0, unchanged: 0 }
    }
}

/// A protocol message for digest/delta anti-entropy exchange.
#[derive(Clone, Debug, PartialEq, Eq)]
pub enum AntiEntropyMessage<D, I> {
    /// A compact summary of local state.
    Digest(D),
    /// Full items missing from the receiver's state.
    Delta(Vec<I>),
}

impl<D, I> AntiEntropyMessage<D, I> {
    /// The delta items carried by this message (none for a digest).
    pub open spec fn spec_delta_items(self) -> Seq<I> {
        match self {
            AntiEntropyMessage::Digest(_) => Seq::empty(),
            AntiEntropyMessage::Delta(items) => items@,
        }
    }

    /// Creates a digest message.
    pub fn digest(digest: D) -> (m: Self)
        ensures
            m == AntiEntropyMessage::<D, I>::Digest(digest),
    {
        AntiEntropyMessage::Digest(digest)
    }

    /// Creates a delta message.
    pub fn delta(items: Vec<I>) -> (m: Self)
        ensures
            m == AntiEntropyMessage::<D, I>::Delta(items),
    {
        AntiEntropyMessage::Delta(items)
    }

    /// Returns `true` if this message is a delta that carries no item.
    pub fn is_empty_delta(&self) -> (b: bool)
        ensures
            b == (self is Delta && self.spec_delta_items().len() == 0),
    {
        match self {
            AntiEntropyMessage::Digest(_) => false,
            AntiEntropyMessage::Delta(items) => items.len() == 0,
        }
    }

    /// Returns the number of delta items in this message.
    pub fn delta_len(&self) -> (n: usize)
        ensures
            n == self.spec_delta_items().len(),
    {
        match self {
            AntiEntropyMessage::Digest(_) => 0,
            AntiEntropyMessage::Delta(items) => items.len(),
        }
    }
}

/// A state container that can merge incoming anti-entropy items.
pub trait Merge: Sized {
    /// The incoming item type.
    type Item;

    /// The container is in a state `merge` accepts.
    open spec fn merge_wf(&self) -> bool {
        true
    }

    /// Merging `item` into `self` may leave `after` and report `outcome`.
    open spec fn merges_to(&self, item: Self::Item, after: Self, outcome: MergeOutcome) -> bool {
        true
    }

    /// Merges one item into local state.
    fn merge(&mut self, item: Self::Item) -> (outcome: MergeOutcome)
        requires
            old(self).merge_wf(),
        ensures
            final(self).merge_wf(),
            old(self).merges_to(item, *final(self), outcome),
    ;
}

/// `states` and `outcomes` trace merging `items` one after another into `start`.
pub open spec fn merge_trace<S: Merge>(
    start: S,
    items: Seq<S::Item>,
    states: Seq<S>,
    outcomes: Seq<MergeOutcome>,
) -> bool {
    &&& states.len() == items.len() + 1
    &&& outcomes.len() == items.len()
    &&& states[0] == start
    &&& forall|i: int| 0 <= i < items.len() ==> #[trigger] states[i].merges_to(items[i], states[i + 1], outcomes[i])
}

/// The number of `Changed` outcomes.
pub open spec fn count_changed(outcomes: Seq<MergeOutcome>) -> nat
    decreases outcomes.len(),
{
    if outcomes.len() == 0 {
        0
    } else {
        count_changed(outcomes.drop_last()) + if outcomes.last() == MergeOutcome::Changed { 1nat } else { 0nat }
    }
}

proof fn lemma_count_changed_bound(outcomes: Seq<MergeOutcome>)
    ensures
        count_changed(outcomes) <= outcomes.len(),
    decreases outcomes.len(),
{
    if outcomes.len() > 0 {
        lemma_count_changed_bound(outcomes.drop_last());
    }
}

/// Builds a digest message from a store.
pub fn digest_message<S: DeltaStore>(store: &S) -> (m: AntiEntropyMessage<S::Digest, S::Item>)
    requires
        store.store_wf(),
    ensures
        m matches AntiEntropyMessage::Digest(d) && store.is_digest_of(d),
{
    AntiEntropyMessage::digest(store.digest())
}

/// Builds a delta message containing items missing from a remote digest.
pub fn delta_message<S: DeltaStore, D: Digest<ItemId = S::ItemId>>(store: &S, remote_digest: &D) -> (m:
    AntiEntropyMessage<S::Digest, S::Item>)
    requires
        store.store_wf(),
    ensures
        m matches AntiEntropyMessage::Delta(items) && store.is_delta_for(
            |id: S::ItemId, known: bool| remote_digest.answers(id, known),
            items@,
        ),
{
    AntiEntropyMessage::delta(store.delta(remote_digest))
}

/// Merges a batch of incoming delta items, in order.
pub fn merge_delta<S: Merge>(store: &mut S, items: Vec<S::Item>) -> (report: MergeReport)
    requires
        old(store).merge_wf(),
    ensures
        final(store).merge_wf(),
        exists|states: Seq<S>, outcomes: Seq<MergeOutcome>|
            #[trigger] merge_trace(*old(store), items@, states, outcomes) && {
                &&& *final(store) == states.last()
                &&& report.spec_changed() == count_changed(outcomes)
                &&& report.spec_unchanged() == items@.len() - count_changed(outcomes)
            },
{
    let ghost all = items@;
    let n = items.len();
    let mut pending = crate::vec_order::reversed(items);
    let mut changed: usize = 0;
    let mut unchanged: usize = 0;
    let ghost mut states: Seq<S> = seq![*store];
    let ghost mut outcomes: Seq<MergeOutcome> = Seq::empty();
    let mut k: usize = 0;
    while k < n
        invariant
            store.merge_wf(),
            n == all.len(),
            k <= n,
            pending@.len() == n - k,
            forall|j: int| 0 <= j < n - k ==> #[trigger] pending@[j] == all[n - 1 - j],
            merge_trace(*old(store), all.take(k as int), states, outcomes),
            *store == states.last(),
            changed == count_changed(outcomes),
            unchanged == k - count_changed(outcomes),
        decreases n - k,
    {
        let item = pending.pop().unwrap();
        let ghost before = *store;
        let outcome = store.merge(item);
        proof {
            lemma_count_changed_bound(outcomes);
            let t = all.take(k + 1);
            assert(t[k as int] == all[k as int]);
            let prev_states = states;
            let prev_outcomes = outcomes;
            states = states.push(*store);
            outcomes = outcomes.push(outcome);
            assert(outcomes.drop_last() =~= prev_outcomes);
            assert forall|i: int| 0 <= i < t.len() implies #[trigger] states[i].merges_to(
                t[i],
                states[i + 1],
                outcomes[i],
            ) by {
                if i < k {
                    assert(t[i] == all.take(k as int)[i]);
                    assert(prev_states[i].merges_to(all.take(k as int)[i], prev_states[i + 1], prev_outcomes[i]));
                }
            }
        }
        match outcome {
            MergeOutcome::Changed => {
                changed = changed + 1;
            },
            MergeOutcome::Unchanged => {
                unchanged = unchanged + 1;
            },
        }
        k = k + 1;
    }
    proof {
        assert(all.take(n as int) =~= all);
    }
    MergeReport { changed, unchanged }
}

/// The rumors of `s` for which `known` is false, in order.
pub open spec fn missing_by<T>(s: Seq<Rumor<T>>, known: Seq<bool>) -> Seq<Rumor<T>>
    decreases s.len(),
{
    if s.len() == 0 {
        Seq::empty()
    } else {
        let rest = missing_by(s.drop_last(), known);
        if known[s.len() - 1] {
            rest
        } else {
            rest.push(s.last())
        }
    }
}

/// `known` holds, for each rumor of `s`, an answer `remote_answers` allows.
pub open spec fn answered<T>(s: Seq<Rumor<T>>, known: Seq<bool>, remote_answers: spec_fn(MessageId, bool) -> bool) -> bool {
    &&& known.len() == s.len()
    &&& forall|i: int| 0 <= i < s.len() ==> #[trigger] remote_answers(s[i].spec_id(), known[i])
}

/// The values of the identifiers of `s`.
pub open spec fn id_values<T>(s: Seq<Rumor<T>>) -> Set<u128> {
    s.map_values(|r: Rumor<T>| r.spec_id().value()).to_set()
}

/// The outcome of merging reported for an insertion outcome.
pub open spec fn merge_outcome_of(outcome: InsertOutcome) -> MergeOutcome {
    if outcome.is_accepted() {
        MergeOutcome::Changed
    } else {
        MergeOutcome::Unchanged
    }
}

impl<T: Clone> DeltaStore for RumorStore<T> {
    type ItemId = MessageId;
    type Item = Rumor<T>;
    type Digest = IdSetDigest;

    open spec fn store_wf(&self) -> bool {
        self.wf()
    }

    open spec fn is_digest_of(&self, digest: IdSetDigest) -> bool {
        digest.spec_ids() == id_values(self@)
    }

    open spec fn is_delta_for(&self, remote_answers: spec_fn(MessageId, bool) -> bool, items: Seq<Rumor<T>>) -> bool {
        exists|known: Seq<bool>|
            #[trigger] answered(self@, known, remote_answers) && copies_of(items, missing_by(self@, known))
    }

    fn digest(&self) -> (digest: IdSetDigest) {
        let rumors = self.iter_in_insertion_order();
        let ghost s = self@;
        let mut ids: BTreeSet<u128> = BTreeSet::new();
        let mut i: usize = 0;
        while i < rumors.len()
            invariant
                rumors@.len() == s.len(),
                forall|j: int| 0 <= j < s.len() ==> *#[trigger] rumors@[j] == s[j],
                i <= s.len(),
                ids@ == id_values(s.take(i as int)),
            decreases s.len() - i,
        {
            ids.insert(rumors[i].id().get());
            proof {
                broadcast use vstd::seq_lib::group_seq_properties;

                let prev = s.take(i as int).map_values(|r: Rumor<T>| r.spec_id().value());
                let next = s.take(i + 1).map_values(|r: Rumor<T>| r.spec_id().value());
                assert(next =~= prev.push(s[i as int].spec_id().value()));
                assert forall|v: u128| ids@.contains(v) <==> next.to_set().contains(v) by {
                    assert(next.contains(v) <==> prev.contains(v) || v == s[i as int].spec_id().value());
                }
                assert(ids@ =~= next.to_set());
            }
            i = i + 1;
        }
        assert(s.take(s.len() as int) =~= s);
        IdSetDigest { ids }
    }

    fn delta<D: Digest<ItemId = MessageId>>(&self, remote_digest: &D) -> (items: Vec<Rumor<T>>) {
        let rumors = self.iter_in_insertion_order();
        let ghost s = self@;
        let ghost ans = |id: MessageId, known: bool| remote_digest.answers(id, known);
        let ghost mut known: Seq<bool> = Seq::empty();
        let ghost mut src: Seq<Rumor<T>> = Seq::empty();
        let mut items: Vec<Rumor<T>> = Vec::new();
        let mut i: usize = 0;
        while i < rumors.len()
            invariant
                rumors@.len() == s.len(),
                forall|j: int| 0 <= j < s.len() ==> *#[trigger] rumors@[j] == s[j],
                i <= s.len(),
                ans == (|id: MessageId, known: bool| remote_digest.answers(id, known)),
                answered(s.take(i as int), known, ans),
                src == missing_by(s.take(i as int), known),
                copies_of(items@, src),
            decreases s.len() - i,
        {
            let rumor: &Rumor<T> = rumors[i];
            let answer = remote_digest.contains(&rumor.id());
            proof {
                let prev_known = known;
                known = known.push(answer);
                let t = s.take(i + 1);
                assert(t.drop_last() =~= s.take(i as int));
                assert(t.last() == s[i as int]);
                assert(missing_by(t.drop_last(), known) == missing_by(s.take(i as int), prev_known)) by {
                    lemma_missing_by_agree(s.take(i as int), known, prev_known);
                }
                assert forall|j: int| 0 <= j < t.len() implies #[trigger] ans(t[j].spec_id(), known[j]) by {
                    if j < i {
                        assert(t[j] == s.take(i as int)[j]);
                        assert(ans(s.take(i as int)[j].spec_id(), prev_known[j]));
                    }
                }
            }
            if !answer {
                let ghost prev_items = items@;
                items.push(rumor.clone());
                proof {
                    src = src.push(*rumor);
                    assert forall|j: int| 0 <= j < src.len() implies #[trigger] items@[j].is_copy_of(src[j]) by {
                        if j < src.len() - 1 {
                            assert(items@[j] == prev_items[j]);
                        }
                    }
                }
            }
            i = i + 1;
        }
        assert(s.take(s.len() as int) =~= s);
        assert(answered(s, known, ans));
        items
    }
}

/// Only the answers for the rumors of `s` decide which of them are missing.
proof fn lemma_missing_by_agree<T>(s: Seq<Rumor<T>>, k1: Seq<bool>, k2: Seq<bool>)
    requires
        s.len() <= k1.len(),
        s.len() <= k2.len(),
        forall|i: int| 0 <= i < s.len() ==> k1[i] == k2[i],
    ensures
        missing_by(s, k1) == missing_by(s, k2),
    decreases s.len(),
{
    if s.len() > 0 {
        lemma_missing_by_agree(s.drop_last(), k1, k2);
    }
}

impl<T> Merge for RumorStore<T> {
    type Item = Rumor<T>;

    open spec fn merge_wf(&self) -> bool {
        self.wf()
    }

    open spec fn merges_to(&self, item: Rumor<T>, after: RumorStore<T>, outcome: MergeOutcome) -> bool {
        let (inserted, stored) = spec_insert(self@, self.spec_max_rumors(), item);
        &&& after.spec_max_rumors() == self.spec_max_rumors()
        &&& after@ == stored
        &&& outcome == merge_outcome_of(inserted)
    }

    fn merge(&mut self, item: Rumor<T>) -> (outcome: MergeOutcome)
        ensures
            (outcome == MergeOutcome::Changed) <==> !has_id(old(self)@, item.spec_id()),
            (outcome == MergeOutcome::Changed) <==> final(self)@ != old(self)@,
    {
        let ghost before = *self;
        let ghost it = item;
        let outcome = match self.insert(item) {
            InsertOutcome::Duplicate => MergeOutcome::Unchanged,
            _ => MergeOutcome::Changed,
        };
        proof {
            lemma_merge_reports_change(before, it, *self, outcome);
        }
        outcome
    }
}

/// Merging one rumor into a rumor store reports `Changed` exactly when the
/// store did not hold the rumor's identifier, which is exactly when the
/// store's contents change, also when the store was full and an older rumor
/// made way; `Unchanged` leaves the contents as they were. Either way the
/// store holds the identifier afterwards.
pub proof fn lemma_merge_reports_change<T>(
    before: RumorStore<T>,
    item: Rumor<T>,
    after: RumorStore<T>,
    outcome: MergeOutcome,
)
    requires
        before.merges_to(item, after, outcome),
    ensures
        (outcome == MergeOutcome::Changed) <==> !has_id(before@, item.spec_id()),
        (outcome == MergeOutcome::Changed) <==> after@ != before@,
        outcome == MergeOutcome::Unchanged ==> after@ == before@,
        has_id(after@, item.spec_id()),
{
    if !has_id(before@, item.spec_id()) {
        let last = after@.len() - 1;
        assert(after@[last] == item);
        assert(has_id(after@, item.spec_id()));
        assert(after@ != before@);
    }
}

/// After `k` merges of rumors that are new to `b` and carry distinct
/// identifiers, the store holds no identifier but `b`'s and those of the
/// merged rumors, and each merge so far was reported as a change.
proof fn lemma_fresh_steps<T>(
    b: RumorStore<T>,
    items: Seq<Rumor<T>>,
    states: Seq<RumorStore<T>>,
    outcomes: Seq<MergeOutcome>,
    k: nat,
)
    requires
        b.wf(),
        merge_trace(b, items, states, outcomes),
        distinct_ids(items),
        forall|i: int| 0 <= i < items.len() ==> !has_id(b@, #[trigger] items[i].spec_id()),
        k <= items.len(),
    ensures
        states[k as int].spec_max_rumors() == b.spec_max_rumors(),
        forall|id: MessageId|
            has_id(states[k as int]@, id) ==> has_id(b@, id) || exists|j: int|
                0 <= j < k && #[trigger] items[j].spec_id() == id,
        forall|i: int| 0 <= i < k ==> #[trigger] outcomes[i] == MergeOutcome::Changed,
        count_changed(outcomes.take(k as int)) == k,
    decreases k,
{
    b.lemma_wf();
    if k > 0 {
        let i = (k - 1) as int;
        lemma_fresh_steps(b, items, states, outcomes, (k - 1) as nat);
        assert(states[i].merges_to(items[i], states[i + 1], outcomes[i]));
        let id = items[i].spec_id();
        assert(!has_id(states[i]@, id)) by {
            if has_id(states[i]@, id) {
                let j = choose|j: int| 0 <= j < i && #[trigger] items[j].spec_id() == id;
            }
        }
        lemma_merge_reports_change(states[i], items[i], states[i + 1], outcomes[i]);
        assert forall|x: MessageId| has_id(states[k as int]@, x) implies has_id(b@, x) || exists|j: int|
            0 <= j < k && #[trigger] items[j].spec_id() == x by {
            lemma_insert_ids(states[i]@, states[i].spec_max_rumors(), items[i], x);
            if has_id(states[i]@, x) && !has_id(b@, x) {
                let j = choose|j: int| 0 <= j < i && #[trigger] items[j].spec_id() == x;
                assert(0 <= j < k && items[j].spec_id() == x);
            } else if !has_id(b@, x) {
                assert(items[i].spec_id() == x);
            }
        }
        assert(outcomes.take(k as int).drop_last() =~= outcomes.take(i));
    }
}

/// Merging rumors that the store does not hold, none of them twice, changes
/// the store at every step however full it is: every item is reported as a
/// change, older rumors making way where there is no room.
pub proof fn lemma_fresh_merges_change<T>(
    b: RumorStore<T>,
    items: Seq<Rumor<T>>,
    states: Seq<RumorStore<T>>,
    outcomes: Seq<MergeOutcome>,
)
    requires
        b.wf(),
        merge_trace(b, items, states, outcomes),
        distinct_ids(items),
        forall|i: int| 0 <= i < items.len() ==> !has_id(b@, #[trigger] items[i].spec_id()),
    ensures
        forall|i: int| 0 <= i < outcomes.len() ==> #[trigger] outcomes[i] == MergeOutcome::Changed,
        count_changed(outcomes) == items.len(),
{
    lemma_fresh_steps(b, items, states, outcomes, items.len());
    assert(outcomes.take(items.len() as int) =~= outcomes);
}

/// A digest of `s` knows exactly the identifiers of `s`.
pub proof fn lemma_id_values<T>(s: Seq<Rumor<T>>, id: MessageId)
    ensures
        id_values(s).contains(id.value()) <==> has_id(s, id),
{
    let vals = s.map_values(|r: Rumor<T>| r.spec_id().value());
    if id_values(s).contains(id.value()) {
        assert(vals.contains(id.value()));
        let i = choose|i: int| 0 <= i < vals.len() && vals[i] == id.value();
        MessageId::lemma_value_injective(s[i].spec_id(), id);
        assert(s[i].spec_id() == id);
    }
    if has_id(s, id) {
        let i = choose|i: int| 0 <= i < s.len() && #[trigger] s[i].spec_id() == id;
        assert(vals[i] == id.value());
        assert(vals.contains(id.value()));
    }
}

/// The missing rumors are the rumors of `s` answered as unknown, and they
/// keep identifiers distinct.
pub proof fn lemma_missing_by<T>(s: Seq<Rumor<T>>, known: Seq<bool>)
    requires
        known.len() == s.len(),
    ensures
        forall|x: Rumor<T>| #[trigger]
            missing_by(s, known).contains(x) ==> exists|i: int| 0 <= i < s.len() && s[i] == x && !known[i],
        forall|i: int| 0 <= i < s.len() && !known[i] ==> #[trigger] missing_by(s, known).contains(s[i]),
        distinct_ids(s) ==> distinct_ids(missing_by(s, known)),
    decreases s.len(),
{
    broadcast use vstd::seq_lib::group_seq_properties;

    if s.len() > 0 {
        let n = s.len() - 1;
        let rest = s.drop_last();
        lemma_missing_by_agree(rest, known, known.drop_last());
        lemma_missing_by(rest, known.drop_last());
        let m = missing_by(rest, known);
        assert forall|x: Rumor<T>| #[trigger] missing_by(s, known).contains(x) implies exists|i: int|
            0 <= i < s.len() && s[i] == x && !known[i] by {
            if m.contains(x) {
                let i = choose|i: int| 0 <= i < rest.len() && rest[i] == x && !known.drop_last()[i];
                assert(s[i] == x && !known[i]);
            } else {
                assert(s[n] == x && !known[n]);
            }
        }
        assert forall|i: int| 0 <= i < s.len() && !known[i] implies #[trigger] missing_by(s, known).contains(s[i]) by {
            if i < n {
                assert(rest[i] == s[i]);
                assert(!known.drop_last()[i]);
                assert(m.contains(rest[i]));
            }
        }
        if distinct_ids(s) {
            assert(distinct_ids(rest)) by {
                assert forall|i: int, j: int|
                    0 <= i < rest.len() && 0 <= j < rest.len() && i != j implies rest[i].spec_id()
                    != rest[j].spec_id() by {
                    assert(rest[i] == s[i] && rest[j] == s[j]);
                }
            }
            if !known[n] {
                assert forall|i: int| 0 <= i < m.len() implies #[trigger] m[i].spec_id() != s[n].spec_id() by {
                    assert(m.contains(m[i]));
                    let k = choose|k: int| 0 <= k < rest.len() && rest[k] == m[i] && !known.drop_last()[k];
                    assert(s[k] == m[i]);
                }
            }
        }
    }
}

/// Merging fresh rumors (no identifier known, none twice) into a store with
/// room for all of them inserts each one.
proof fn lemma_fresh_trace<T>(
    b: RumorStore<T>,
    items: Seq<Rumor<T>>,
    states: Seq<RumorStore<T>>,
    outcomes: Seq<MergeOutcome>,
    k: nat,
)
    requires
        merge_trace(b, items, states, outcomes),
        distinct_ids(items),
        forall|i: int| 0 <= i < items.len() ==> !has_id(b@, #[trigger] items[i].spec_id()),
        b@.len() + items.len() <= b.spec_max_rumors(),
        k <= items.len(),
    ensures
        states[k as int]@ == b@ + items.take(k as int),
        states[k as int].spec_max_rumors() == b.spec_max_rumors(),
        count_changed(outcomes.take(k as int)) == k,
    decreases k,
{
    if k > 0 {
        let i = (k - 1) as int;
        lemma_fresh_trace(b, items, states, outcomes, (k - 1) as nat);
        assert(states[i].merges_to(items[i], states[i + 1], outcomes[i]));
        let prev = b@ + items.take(i);
        assert(!has_id(prev, items[i].spec_id())) by {
            if has_id(prev, items[i].spec_id()) {
                let j = choose|j: int| 0 <= j < prev.len() && #[trigger] prev[j].spec_id() == items[i].spec_id();
                if j < b@.len() {
                    assert(b@[j] == prev[j]);
                } else {
                    assert(prev[j] == items[j - b@.len()]);
                }
            }
        }
        assert(b@ + items.take(k as int) =~= prev.push(items[i]));
        assert(outcomes.take(k as int).drop_last() =~= outcomes.take(i));
    }
}

/// Anti-entropy reconciles: after a store `b` merges the delta that store `a`
/// builds against a digest of `b`, `b` knows every rumor identifier that `a`
/// knows, every delta item changed `b`, and `b` holds its old rumors followed by
/// the delta items, whenever `b` has room for the delta.
pub proof fn lemma_anti_entropy_reconciles<T: Clone>(
    a: RumorStore<T>,
    b: RumorStore<T>,
    digest: IdSetDigest,
    items: Seq<Rumor<T>>,
    states: Seq<RumorStore<T>>,
    outcomes: Seq<MergeOutcome>,
)
    requires
        a.wf(),
        b.wf(),
        b.is_digest_of(digest),
        a.is_delta_for(|id: MessageId, known: bool| digest.answers(id, known), items),
        merge_trace(b, items, states, outcomes),
        b@.len() + items.len() <= b.spec_max_rumors(),
    ensures
        states.last()@ == b@ + items,
        count_changed(outcomes) == items.len(),
        forall|id: MessageId| has_id(a@, id) ==> has_id(states.last()@, id),
{
    let ans = |id: MessageId, known: bool| digest.answers(id, known);
    let known = choose|known: Seq<bool>|
        #[trigger] answered(a@, known, ans) && copies_of(items, missing_by(a@, known));
    let missing = missing_by(a@, known);
    a.lemma_wf();
    lemma_missing_by(a@, known);
    assert(distinct_ids(items)) by {
        assert forall|i: int, j: int|
            0 <= i < items.len() && 0 <= j < items.len() && i != j implies items[i].spec_id()
            != items[j].spec_id() by {
            assert(items[i].is_copy_of(missing[i]));
            assert(items[j].is_copy_of(missing[j]));
        }
    }
    assert forall|i: int| 0 <= i < items.len() implies !has_id(b@, #[trigger] items[i].spec_id()) by {
        assert(items[i].is_copy_of(missing[i]));
        assert(missing.contains(missing[i]));
        let k = choose|k: int| 0 <= k < a@.len() && a@[k] == missing[i] && !known[k];
        assert(ans(a@[k].spec_id(), known[k]));
        lemma_id_values(b@, items[i].spec_id());
    }
    lemma_fresh_trace(b, items, states, outcomes, items.len());
    assert(items.take(items.len() as int) =~= items);
    assert(outcomes.take(items.len() as int) =~= outcomes);
    let last = states.last();
    assert forall|id: MessageId| has_id(a@, id) implies has_id(last@, id) by {
        let i = choose|i: int| 0 <= i < a@.len() && #[trigger] a@[i].spec_id() == id;
        assert(ans(a@[i].spec_id(), known[i]));
        lemma_id_values(b@, id);
        if known[i] {
            let j = choose|j: int| 0 <= j < b@.len() && #[trigger] b@[j].spec_id() == id;
            assert(last@[j] == b@[j]);
        } else {
            assert(missing.contains(a@[i]));
            let j = choose|j: int| 0 <= j < missing.len() && missing[j] == a@[i];
            assert(items[j].is_copy_of(missing[j]));
            assert(last@[b@.len() + j] == items[j]);
        }
    }
}

} // verus!
