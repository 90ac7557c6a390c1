//! Gossip node state machine.

use vstd::prelude::*;

use crate::config::GossipConfig;
use crate::effect::Effect;
use crate::event::GossipEvent;
use crate::identity::{MessageId, MessageIdGenerator, NodeId};
use crate::message::GossipMessage;
use crate::peer_selection::{
    choose_distinct_peers, draw_trace, draws_needed, lemma_same_seed_same_choice, spec_select,
};
use crate::rng::{DeterministicRng, RandomSource};
use crate::rumor::{copies_of, copy_rumors, Rumor};
use crate::rumor_store::{
    created_since, distinct_ids, has_id, lemma_created_since, lemma_insert_ids, spec_insert, spec_insert_all,
    InsertOutcome, RumorStore,
};
use crate::time::Round;
use crate::vec_order::reversed;

verus! {

broadcast use crate::rumor::Rumor::lemma_spec_new;

/// Error returned when publishing a batch of local rumors fails.
#[derive(Clone, Copy, Debug, PartialEq, Eq, Structural)]
pub enum PublishManyError {
    /// The message ID generator did not have enough IDs for the requested batch.
    MessageIdGeneratorExhausted,
}

impl PublishManyError {
    /// Returns the message that describes this error.
    pub fn to_string(&self) -> (s: String)
        ensures
            s@ == "message ID generator exhausted"@,
    {
        String::from_str("message ID generator exhausted")
    }
}

/// A generator positioned at `next` can hand out `n` more identifiers.
pub open spec fn has_ids(next: Option<u128>, n: nat) -> bool {
    n == 0 || (next matches Some(v) && v + n - 1 <= u128::MAX)
}

/// The position of a generator at `next` after handing out `n` identifiers
/// (requires `has_ids(next, n)`).
pub open spec fn after_ids(next: Option<u128>, n: nat) -> Option<u128> {
    if n == 0 {
        next
    } else if next.unwrap() + n <= u128::MAX {
        Some((next.unwrap() + n) as u128)
    } else {
        None
    }
}

/// The rumors published from `origin` in `round` for `payloads`, with
/// consecutive identifiers starting at `first`.
pub open spec fn published<T>(origin: NodeId, round: Round, first: u128, payloads: Seq<T>) -> Seq<
    Rumor<T>,
> {
    Seq::new(
        payloads.len(),
        |i: int|
            Rumor::spec_new(MessageId::spec_from_value((first + i) as u128), origin, round, payloads[i]),
    )
}

/// The rumors stored after receiving `rumors`, whose stored copies are
/// `copies`, and the rumors announced as new, in order.
pub open spec fn spec_receive<T>(
    stored: Seq<Rumor<T>>,
    max_rumors: usize,
    rumors: Seq<Rumor<T>>,
    copies: Seq<Rumor<T>>,
) -> (Seq<Rumor<T>>, Seq<Rumor<T>>)
    decreases rumors.len(),
{
    if rumors.len() == 0 {
        (stored, Seq::empty())
    } else {
        let (st, announced) = spec_receive(stored, max_rumors, rumors.drop_last(), copies.drop_last());
        let (outcome, st2) = spec_insert(st, max_rumors, copies[rumors.len() - 1]);
        (st2, if outcome.is_accepted() { announced.push(rumors.last()) } else { announced })
    }
}

/// Duplicate suppression: receiving rumors that are all already known stores
/// nothing new and announces nothing.
pub proof fn lemma_receive_known_rumors<T: Clone>(
    stored: Seq<Rumor<T>>,
    max_rumors: usize,
    rumors: Seq<Rumor<T>>,
    copies: Seq<Rumor<T>>,
)
    requires
        copies_of(copies, rumors),
        forall|i: int| 0 <= i < rumors.len() ==> has_id(stored, #[trigger] rumors[i].spec_id()),
    ensures
        spec_receive(stored, max_rumors, rumors, copies) == (stored, Seq::<Rumor<T>>::empty()),
    decreases rumors.len(),
{
    if rumors.len() > 0 {
        let n = rumors.len() - 1;
        assert(copies_of(copies.drop_last(), rumors.drop_last())) by {
            assert forall|i: int| 0 <= i < n implies #[trigger] copies.drop_last()[i].is_copy_of(
                rumors.drop_last()[i],
            ) by {
                assert(copies[i].is_copy_of(rumors[i]));
            }
        }
        assert forall|i: int| 0 <= i < n implies has_id(stored, #[trigger] rumors.drop_last()[i].spec_id()) by {
            assert(rumors.drop_last()[i] == rumors[i]);
        }
        lemma_receive_known_rumors(stored, max_rumors, rumors.drop_last(), copies.drop_last());
        assert(copies[n].is_copy_of(rumors[n]));
        assert(has_id(stored, rumors[n].spec_id()));
    }
}

/// Every announced rumor is one of the received rumors, and no more rumors
/// are announced than received.
pub proof fn lemma_receive_announces_received<T: Clone>(
    stored: Seq<Rumor<T>>,
    max_rumors: usize,
    rumors: Seq<Rumor<T>>,
    copies: Seq<Rumor<T>>,
)
    ensures
        spec_receive(stored, max_rumors, rumors, copies).1.len() <= rumors.len(),
        forall|x: Rumor<T>| #[trigger]
            spec_receive(stored, max_rumors, rumors, copies).1.contains(x) ==> rumors.contains(x),
    decreases rumors.len(),
{
    broadcast use vstd::seq_lib::group_seq_properties;

    if rumors.len() > 0 {
        lemma_receive_announces_received(stored, max_rumors, rumors.drop_last(), copies.drop_last());
        assert(rumors =~= rumors.drop_last().push(rumors.last()));
    }
}

/// Receiving leaves no identifier in the store but those held before and
/// those of the received rumors.
proof fn lemma_receive_ids<T: Clone>(
    stored: Seq<Rumor<T>>,
    max_rumors: usize,
    rumors: Seq<Rumor<T>>,
    copies: Seq<Rumor<T>>,
    id: MessageId,
)
    requires
        max_rumors > 0,
        copies_of(copies, rumors),
    ensures
        has_id(spec_receive(stored, max_rumors, rumors, copies).0, id) ==> has_id(stored, id) || exists|j: int|
            0 <= j < rumors.len() && #[trigger] rumors[j].spec_id() == id,
    decreases rumors.len(),
{
    if rumors.len() > 0 {
        let n = rumors.len() - 1;
        let rest = rumors.drop_last();
        assert(copies_of(copies.drop_last(), rest)) by {
            assert forall|i: int| 0 <= i < n implies #[trigger] copies.drop_last()[i].is_copy_of(rest[i]) by {
                assert(copies[i].is_copy_of(rumors[i]));
            }
        }
        lemma_receive_ids(stored, max_rumors, rest, copies.drop_last(), id);
        let st = spec_receive(stored, max_rumors, rest, copies.drop_last()).0;
        lemma_insert_ids(st, max_rumors, copies[n], id);
        assert(copies[n].is_copy_of(rumors[n]));
        if has_id(st, id) && !has_id(stored, id) {
            let j = choose|j: int| 0 <= j < rest.len() && #[trigger] rest[j].spec_id() == id;
            assert(rumors[j] == rest[j]);
        }
    }
}

/// Receiving rumors that are all new, none of them twice, announces each of
/// them, in order, whatever room the store has left.
proof fn lemma_receive_fresh<T: Clone>(
    stored: Seq<Rumor<T>>,
    max_rumors: usize,
    rumors: Seq<Rumor<T>>,
    copies: Seq<Rumor<T>>,
)
    requires
        max_rumors > 0,
        copies_of(copies, rumors),
        distinct_ids(rumors),
        forall|i: int| 0 <= i < rumors.len() ==> !has_id(stored, #[trigger] rumors[i].spec_id()),
    ensures
        spec_receive(stored, max_rumors, rumors, copies).1 == rumors,
    decreases rumors.len(),
{
    if rumors.len() > 0 {
        let n = rumors.len() - 1;
        let rest = rumors.drop_last();
        assert(copies_of(copies.drop_last(), rest)) by {
            assert forall|i: int| 0 <= i < n implies #[trigger] copies.drop_last()[i].is_copy_of(rest[i]) by {
                assert(copies[i].is_copy_of(rumors[i]));
            }
        }
        assert forall|i: int| 0 <= i < n implies !has_id(stored, #[trigger] rest[i].spec_id()) by {
            assert(rest[i] == rumors[i]);
        }
        assert(distinct_ids(rest)) by {
            assert forall|i: int, j: int|
                0 <= i < rest.len() && 0 <= j < rest.len() && i != j implies rest[i].spec_id()
                != rest[j].spec_id() by {
                assert(rest[i] == rumors[i] && rest[j] == rumors[j]);
            }
        }
        lemma_receive_fresh(stored, max_rumors, rest, copies.drop_last());
        let st = spec_receive(stored, max_rumors, rest, copies.drop_last()).0;
        let id = rumors[n].spec_id();
        assert(copies[n].is_copy_of(rumors[n]));
        lemma_receive_ids(stored, max_rumors, rest, copies.drop_last(), id);
        assert(!has_id(st, id)) by {
            if has_id(st, id) {
                assert(!has_id(stored, id));
                let j = choose|j: int| 0 <= j < rest.len() && #[trigger] rest[j].spec_id() == id;
                assert(rest[j] == rumors[j]);
            }
        }
        assert(rest.push(rumors.last()) =~= rumors);
    }
}

/// A received rumor whose identifier was neither stored nor carried by an
/// earlier received rumor is announced.
proof fn lemma_receive_first_new<T: Clone>(
    stored: Seq<Rumor<T>>,
    max_rumors: usize,
    rumors: Seq<Rumor<T>>,
    copies: Seq<Rumor<T>>,
    i: int,
)
    requires
        max_rumors > 0,
        copies_of(copies, rumors),
        0 <= i < rumors.len(),
        !has_id(stored, rumors[i].spec_id()),
        forall|j: int| 0 <= j < i ==> #[trigger] rumors[j].spec_id() != rumors[i].spec_id(),
    ensures
        spec_receive(stored, max_rumors, rumors, copies).1.contains(rumors[i]),
    decreases rumors.len(),
{
    let n = rumors.len() - 1;
    let rest = rumors.drop_last();
    assert(copies_of(copies.drop_last(), rest)) by {
        assert forall|k: int| 0 <= k < n implies #[trigger] copies.drop_last()[k].is_copy_of(rest[k]) by {
            assert(copies[k].is_copy_of(rumors[k]));
        }
    }
    let (st, announced) = spec_receive(stored, max_rumors, rest, copies.drop_last());
    if i < n {
        assert forall|j: int| 0 <= j < i implies #[trigger] rest[j].spec_id() != rest[i].spec_id() by {
            assert(rest[j] == rumors[j]);
            assert(rumors[j].spec_id() != rumors[i].spec_id());
        }
        assert(rest[i] == rumors[i]);
        lemma_receive_first_new(stored, max_rumors, rest, copies.drop_last(), i);
        let k = choose|k: int| 0 <= k < announced.len() && announced[k] == rumors[i];
        assert(announced.push(rumors.last())[k] == rumors[i]);
    } else {
        let id = rumors[n].spec_id();
        assert(copies[n].is_copy_of(rumors[n]));
        lemma_receive_ids(stored, max_rumors, rest, copies.drop_last(), id);
        assert(!has_id(st, id)) by {
            if has_id(st, id) {
                let j = choose|j: int| 0 <= j < rest.len() && #[trigger] rest[j].spec_id() == id;
                assert(rest[j] == rumors[j]);
                assert(rumors[j].spec_id() != rumors[i].spec_id());
            }
        }
        assert(announced.push(rumors.last())[announced.len() as int] == rumors[i]);
    }
}

/// The oldest round whose rumors `tick` keeps at `round`.
pub open spec fn oldest_kept_round(round: u64, retention: u64) -> u64 {
    if round >= retention { (round - retention) as u64 } else { 0 }
}

/// The rumors a `tick` at `round` sends, given the rumors kept: at most
/// `max_per_message` of them, starting at position `round mod count` and
/// wrapping around.
pub open spec fn tick_batch<T>(kept: Seq<Rumor<T>>, round: u64, max_per_message: usize) -> Seq<Rumor<T>> {
    let count = kept.len();
    let limit = if max_per_message <= count { max_per_message as nat } else { count };
    let start = ((round as usize) as nat) % count;
    Seq::new(limit, |j: int| kept[(start + j) % (count as int)])
}

/// `message` carries copies of copies of the rumors of `batch`, in order.
pub open spec fn carries_batch<T: Clone>(message: GossipMessage<T>, batch: Seq<Rumor<T>>) -> bool {
    &&& message.spec_rumors().len() == batch.len()
    &&& forall|j: int| 0 <= j < batch.len() ==> #[trigger] message.spec_rumors()[j].is_copy_of_copy(batch[j])
}

/// Receiving `message` turns node `before` into `after` and returns `effects`:
/// each carried rumor is stored (as a copy), and an event announces each
/// rumor the node did not know, in message order; peers, identity and
/// configuration stay.
pub open spec fn received<T: Clone>(
    before: GossipNode<T>,
    message: GossipMessage<T>,
    after: GossipNode<T>,
    effects: Seq<Effect<GossipMessage<T>, GossipEvent<T>>>,
) -> bool {
    &&& after.spec_peers() == before.spec_peers()
    &&& after.spec_self_id() == before.spec_self_id()
    &&& after.spec_config() == before.spec_config()
    &&& exists|copies: Seq<Rumor<T>>|
            #[trigger] copies_of(copies, message.spec_rumors()) && ({
                let (stored, announced) = spec_receive(
                    before.spec_rumors(),
                    before.spec_config().spec_max_rumors(),
                    message.spec_rumors(),
                    copies,
                );
                &&& after.spec_rumors() == stored
                &&& effects.len() == announced.len()
                &&& forall|i: int|
                    0 <= i < announced.len() ==> #[trigger] effects[i] == Effect::<
                        GossipMessage<T>,
                        GossipEvent<T>,
                    >::Emit(GossipEvent::NewRumor(announced[i]))
            })
}

/// A gossip round at `round` turns node `before`, with random source
/// `rng_before`, into `after` with `rng_after`, and returns `effects`:
/// rumors created before the retention window are dropped; if any rumor is
/// left, up to `fanout` peers are chosen with the random source and each is
/// sent the same batch of rumors (see `tick_batch`).
pub open spec fn ticked<T: Clone, R: RandomSource>(
    before: GossipNode<T>,
    rng_before: R,
    round: Round,
    after: GossipNode<T>,
    rng_after: R,
    effects: Seq<Effect<GossipMessage<T>, ()>>,
) -> bool {
    &&& after.spec_peers() == before.spec_peers()
    &&& after.spec_self_id() == before.spec_self_id()
    &&& after.spec_config() == before.spec_config()
    &&& after.spec_rumors() == created_since(
            before.spec_rumors(),
            oldest_kept_round(round.value(), before.spec_config().spec_rumor_retention_rounds()),
        )
    &&& after.spec_rumors().len() == 0 ==> effects.len() == 0 && rng_after == rng_before
    &&& after.spec_rumors().len() > 0 ==> exists|states: Seq<R>, draws: Seq<u64>|
            #[trigger] draw_trace(states, draws) && {
                let targets = spec_select(
                    before.spec_self_id()@,
                    before.spec_peers(),
                    before.spec_config().spec_fanout() as nat,
                    draws,
                );
                let batch = tick_batch(
                    after.spec_rumors(),
                    round.value(),
                    before.spec_config().spec_max_rumors_per_message(),
                );
                &&& states[0] == rng_before
                &&& states.last() == rng_after
                &&& draws.len() == draws_needed(
                    before.spec_self_id()@,
                    before.spec_peers(),
                    before.spec_config().spec_fanout() as nat,
                )
                &&& effects.len() == targets.len()
                &&& forall|i: int|
                    0 <= i < targets.len() ==> (#[trigger] effects[i] matches Effect::Send {
                        target,
                        message,
                    } && target == targets[i] && carries_batch(message, batch))
            }
}

/// New rumors are announced: when a node receives a message whose rumors
/// carry distinct identifiers that the node does not hold, it emits one
/// `NewRumor` event for each of them, in message order, and nothing else, also
/// when storing them evicts older rumors.
pub proof fn lemma_receive_announces_new<T: Clone>(
    before: GossipNode<T>,
    message: GossipMessage<T>,
    after: GossipNode<T>,
    effects: Seq<Effect<GossipMessage<T>, GossipEvent<T>>>,
)
    requires
        before.wf(),
        received(before, message, after, effects),
        distinct_ids(message.spec_rumors()),
        forall|i: int|
            0 <= i < message.spec_rumors().len() ==> !has_id(
                before.spec_rumors(),
                #[trigger] message.spec_rumors()[i].spec_id(),
            ),
    ensures
        effects.len() == message.spec_rumors().len(),
        forall|i: int|
            0 <= i < effects.len() ==> #[trigger] effects[i] == Effect::<
                GossipMessage<T>,
                GossipEvent<T>,
            >::Emit(GossipEvent::NewRumor(message.spec_rumors()[i])),
{
    before.rumors.lemma_wf();
    let rumors = message.spec_rumors();
    let max = before.spec_config().spec_max_rumors();
    let copies = choose|copies: Seq<Rumor<T>>|
        #[trigger] copies_of(copies, rumors) && ({
            let (stored, announced) = spec_receive(before.spec_rumors(), max, rumors, copies);
            &&& after.spec_rumors() == stored
            &&& effects.len() == announced.len()
            &&& forall|i: int|
                0 <= i < announced.len() ==> #[trigger] effects[i] == Effect::<
                    GossipMessage<T>,
                    GossipEvent<T>,
                >::Emit(GossipEvent::NewRumor(announced[i]))
        });
    lemma_receive_fresh(before.spec_rumors(), max, rumors, copies);
}

/// Whatever else a message carries and however full the store is: a carried
/// rumor whose identifier the node did not hold, and which no earlier rumor of
/// the message shares, is announced by a `NewRumor` event.
pub proof fn lemma_receive_announces_unknown<T: Clone>(
    before: GossipNode<T>,
    message: GossipMessage<T>,
    after: GossipNode<T>,
    effects: Seq<Effect<GossipMessage<T>, GossipEvent<T>>>,
    i: int,
)
    requires
        before.wf(),
        received(before, message, after, effects),
        0 <= i < message.spec_rumors().len(),
        !has_id(before.spec_rumors(), message.spec_rumors()[i].spec_id()),
        forall|j: int|
            0 <= j < i ==> #[trigger] message.spec_rumors()[j].spec_id() != message.spec_rumors()[i].spec_id(),
    ensures
        exists|k: int|
            0 <= k < effects.len() && #[trigger] effects[k] == Effect::<
                GossipMessage<T>,
                GossipEvent<T>,
            >::Emit(GossipEvent::NewRumor(message.spec_rumors()[i])),
{
    before.rumors.lemma_wf();
    let rumors = message.spec_rumors();
    let max = before.spec_config().spec_max_rumors();
    let copies = choose|copies: Seq<Rumor<T>>|
        #[trigger] copies_of(copies, rumors) && ({
            let (stored, announced) = spec_receive(before.spec_rumors(), max, rumors, copies);
            &&& after.spec_rumors() == stored
            &&& effects.len() == announced.len()
            &&& forall|i: int|
                0 <= i < announced.len() ==> #[trigger] effects[i] == Effect::<
                    GossipMessage<T>,
                    GossipEvent<T>,
                >::Emit(GossipEvent::NewRumor(announced[i]))
        });
    lemma_receive_first_new(before.spec_rumors(), max, rumors, copies, i);
    let announced = spec_receive(before.spec_rumors(), max, rumors, copies).1;
    let k = choose|k: int| 0 <= k < announced.len() && announced[k] == rumors[i];
    assert(effects[k] == Effect::<GossipMessage<T>, GossipEvent<T>>::Emit(GossipEvent::NewRumor(rumors[i])));
}

/// Retention: after a gossip round at round `r` with a retention of `k`
/// rounds, the node holds exactly the rumors it held that were created at a
/// round `c` with `c + k >= r` (so at round `r - k` or later, or all of them
/// while `r < k`), and no other.
pub proof fn lemma_tick_retention<T: Clone, R: RandomSource>(
    before: GossipNode<T>,
    rng_before: R,
    round: Round,
    after: GossipNode<T>,
    rng_after: R,
    effects: Seq<Effect<GossipMessage<T>, ()>>,
)
    requires
        ticked(before, rng_before, round, after, rng_after, effects),
    ensures
        forall|x: Rumor<T>| #[trigger]
            after.spec_rumors().contains(x) <==> before.spec_rumors().contains(x)
                && x.spec_created_at().value() + before.spec_config().spec_rumor_retention_rounds()
                >= round.value(),
{
    let k = before.spec_config().spec_rumor_retention_rounds();
    let minimum = oldest_kept_round(round.value(), k);
    lemma_created_since(before.spec_rumors(), minimum);
    assert forall|x: Rumor<T>| #[trigger] after.spec_rumors().contains(x) <==> before.spec_rumors().contains(x)
        && x.spec_created_at().value() + k >= round.value() by {
        assert(created_since(before.spec_rumors(), minimum).contains(x) <==> before.spec_rumors().contains(x)
            && x.spec_created_at().value() >= minimum);
    }
}

/// Determinism: a node in a given state, ticked at the same round with a
/// deterministic generator in the same state, keeps the same rumors, leaves the
/// generator in the same state, and sends to the same peers in the same order,
/// each the same batch.
pub proof fn lemma_tick_deterministic<T: Clone>(
    before: GossipNode<T>,
    rng: DeterministicRng,
    round: Round,
    after_a: GossipNode<T>,
    rng_a: DeterministicRng,
    effects_a: Seq<Effect<GossipMessage<T>, ()>>,
    after_b: GossipNode<T>,
    rng_b: DeterministicRng,
    effects_b: Seq<Effect<GossipMessage<T>, ()>>,
)
    requires
        ticked(before, rng, round, after_a, rng_a, effects_a),
        ticked(before, rng, round, after_b, rng_b, effects_b),
    ensures
        after_a.spec_rumors() == after_b.spec_rumors(),
        after_a.spec_peers() == after_b.spec_peers(),
        rng_a == rng_b,
        effects_a.len() == effects_b.len(),
        forall|i: int|
            0 <= i < effects_a.len() ==> (#[trigger] effects_a[i] matches Effect::Send { target: ta, message: ma }
                && effects_b[i] matches Effect::Send { target: tb, message: mb } && ta == tb
                && carries_batch(ma, tick_batch(after_a.spec_rumors(), round.value(),
                    before.spec_config().spec_max_rumors_per_message()))
                && carries_batch(mb, tick_batch(after_a.spec_rumors(), round.value(),
                    before.spec_config().spec_max_rumors_per_message()))),
{
    if after_a.spec_rumors().len() > 0 {
        let name = before.spec_self_id()@;
        let peers = before.spec_peers();
        let fanout = before.spec_config().spec_fanout() as nat;
        let (states_a, draws_a) = choose|states: Seq<DeterministicRng>, draws: Seq<u64>|
            #[trigger] draw_trace(states, draws) && {
                let targets = spec_select(name, peers, fanout, draws);
                let batch = tick_batch(after_a.spec_rumors(), round.value(),
                    before.spec_config().spec_max_rumors_per_message());
                &&& states[0] == rng
                &&& states.last() == rng_a
                &&& draws.len() == draws_needed(name, peers, fanout)
                &&& effects_a.len() == targets.len()
                &&& forall|i: int|
                    0 <= i < targets.len() ==> (#[trigger] effects_a[i] matches Effect::Send {
                        target,
                        message,
                    } && target == targets[i] && carries_batch(message, batch))
            };
        let (states_b, draws_b) = choose|states: Seq<DeterministicRng>, draws: Seq<u64>|
            #[trigger] draw_trace(states, draws) && {
                let targets = spec_select(name, peers, fanout, draws);
                let batch = tick_batch(after_b.spec_rumors(), round.value(),
                    before.spec_config().spec_max_rumors_per_message());
                &&& states[0] == rng
                &&& states.last() == rng_b
                &&& draws.len() == draws_needed(name, peers, fanout)
                &&& effects_b.len() == targets.len()
                &&& forall|i: int|
                    0 <= i < targets.len() ==> (#[trigger] effects_b[i] matches Effect::Send {
                        target,
                        message,
                    } && target == targets[i] && carries_batch(message, batch))
            };
        lemma_same_seed_same_choice(name, peers, fanout, states_a, draws_a, states_b, draws_b);
    }
}

/// A transport-independent gossip node.
///
/// This type contains protocol state only. It does not open sockets, spawn
/// tasks, sleep, or call the system clock.
#[derive(Clone, Debug)]
pub struct GossipNode<T> {
    self_id: NodeId,
    config: GossipConfig,
    peers: Vec<NodeId>,
    rumors: RumorStore<T>,
}

impl<T> GossipNode<T> {
    /// This node's identity.
    pub closed spec fn spec_self_id(self) -> NodeId {
        self.self_id
    }

    /// This node's configuration.
    pub closed spec fn spec_config(self) -> GossipConfig {
        self.config
    }

    /// The known peers.
    pub closed spec fn spec_peers(self) -> Seq<NodeId> {
        self.peers@
    }

    /// The known rumors, oldest first.
    pub closed spec fn spec_rumors(self) -> Seq<Rumor<T>> {
        self.rumors@
    }

    /// A node has at most `usize::MAX` peers.
    pub proof fn lemma_peers_fit(self)
        ensures
            self.spec_peers().len() <= usize::MAX,
    {
        assert(self.peers.len() == self.peers@.len());
    }

    /// The rumor store is well formed and bounded by the configuration.
    pub closed spec fn wf(self) -> bool {
        &&& self.rumors.wf()
        &&& self.rumors.spec_max_rumors() == self.config.spec_max_rumors()
    }

    /// A node never holds more rumors than its configuration allows, and never
    /// holds two rumors with the same identifier.
    pub proof fn lemma_wf(self)
        requires
            self.wf(),
        ensures
            self.spec_rumors().len() <= self.spec_config().spec_max_rumors(),
            distinct_ids(self.spec_rumors()),
    {
        self.rumors.lemma_wf();
    }

    /// Creates a new gossip node with no peers and no rumors.
    pub fn new(self_id: NodeId, config: GossipConfig) -> (node: Self)
        ensures
            node.wf(),
            node.spec_self_id() == self_id,
            node.spec_config() == config,
            node.spec_peers() == Seq::<NodeId>::empty(),
            node.spec_rumors() == Seq::<Rumor<T>>::empty(),
    {
        let rumors = RumorStore::new(config.max_rumors());
        GossipNode { self_id, config, peers: Vec::new(), rumors }
    }

    /// Returns this node's identity.
    pub fn self_id(&self) -> (id: &NodeId)
        ensures
            *id == self.spec_self_id(),
    {
        &self.self_id
    }

    /// Returns this node's configuration.
    pub fn config(&self) -> (config: &GossipConfig)
        ensures
            *config == self.spec_config(),
    {
        &self.config
    }

    /// Replaces the known peer list.
    pub fn set_peers(&mut self, peers: Vec<NodeId>)
        requires
            old(self).wf(),
        ensures
            final(self).wf(),
            final(self).spec_peers() == peers@,
            final(self).spec_self_id() == old(self).spec_self_id(),
            final(self).spec_config() == old(self).spec_config(),
            final(self).spec_rumors() == old(self).spec_rumors(),
    {
        self.peers = peers;
    }

    /// Returns the known peers.
    pub fn peers(&self) -> (peers: &[NodeId])
        ensures
            peers@ == self.spec_peers(),
    {
        self.peers.as_slice()
    }

    /// Inserts a locally known rumor.
    pub fn insert_rumor(&mut self, rumor: Rumor<T>) -> (outcome: InsertOutcome)
        requires
            old(self).wf(),
        ensures
            final(self).wf(),
            (outcome, final(self).spec_rumors()) == spec_insert(
                old(self).spec_rumors(),
                old(self).spec_config().spec_max_rumors(),
                rumor,
            ),
            final(self).spec_peers() == old(self).spec_peers(),
            final(self).spec_self_id() == old(self).spec_self_id(),
            final(self).spec_config() == old(self).spec_config(),
    {
        self.rumors.insert(rumor)
    }

    /// Publishes a local rumor from this node.
    pub fn publish(&mut self, id: MessageId, round: Round, payload: T) -> (outcome: InsertOutcome)
        requires
            old(self).wf(),
        ensures
            final(self).wf(),
            (outcome, final(self).spec_rumors()) == spec_insert(
                old(self).spec_rumors(),
                old(self).spec_config().spec_max_rumors(),
                Rumor::spec_new(id, old(self).spec_self_id(), round, payload),
            ),
            final(self).spec_peers() == old(self).spec_peers(),
            final(self).spec_self_id() == old(self).spec_self_id(),
            final(self).spec_config() == old(self).spec_config(),
    {
        let rumor = Rumor::new(id, self.self_id.clone(), round, payload);
        self.insert_rumor(rumor)
    }

    /// Publishes a batch of local rumors from this node.
    ///
    /// Every required message ID is allocated first. If the generator is
    /// exhausted, neither the node nor the generator changes.
    pub fn publish_many(&mut self, ids: &mut MessageIdGenerator, round: Round, payloads: Vec<T>) -> (r:
        Result<Vec<InsertOutcome>, PublishManyError>)
        requires
            old(self).wf(),
        ensures
            final(self).wf(),
            final(self).spec_peers() == old(self).spec_peers(),
            final(self).spec_self_id() == old(self).spec_self_id(),
            final(self).spec_config() == old(self).spec_config(),
            !has_ids(old(ids).spec_next(), payloads@.len()) ==> r == Err::<
                Vec<InsertOutcome>,
                PublishManyError,
            >(PublishManyError::MessageIdGeneratorExhausted),
            !has_ids(old(ids).spec_next(), payloads@.len()) ==> *final(ids) == *old(ids),
            !has_ids(old(ids).spec_next(), payloads@.len()) ==> final(self).spec_rumors() == old(
                self,
            ).spec_rumors(),
            has_ids(old(ids).spec_next(), payloads@.len()) ==> r is Ok,
            has_ids(old(ids).spec_next(), payloads@.len()) ==> final(ids).spec_next() == after_ids(
                old(ids).spec_next(),
                payloads@.len(),
            ),
            r matches Ok(outcomes) ==> (outcomes@, final(self).spec_rumors()) == spec_insert_all(
                old(self).spec_rumors(),
                old(self).spec_config().spec_max_rumors(),
                published(
                    old(self).spec_self_id(),
                    round,
                    old(ids).spec_next().unwrap(),
                    payloads@,
                ),
            ),
    {
        let n = payloads.len();
        let ghost first = ids.spec_next().unwrap();
        let mut next_ids = *ids;
        let mut allocated: Vec<MessageId> = Vec::new();
        let mut i: usize = 0;
        while i < n
            invariant
                n == payloads@.len(),
                i <= n,
                allocated@.len() == i,
                *ids == *old(ids),
                *self == *old(self),
                old(self).wf(),
                first == ids.spec_next().unwrap(),
                i > 0 ==> ids.spec_next() == Some(first),
                i > 0 ==> first + i - 1 <= u128::MAX,
                next_ids.spec_next() == if i == 0 {
                    ids.spec_next()
                } else if first + i <= u128::MAX {
                    Some((first + i) as u128)
                } else {
                    None
                },
                forall|j: int| 0 <= j < i ==> #[trigger] allocated@[j] == MessageId::spec_from_value(
                    (first + j) as u128,
                ),
            decreases n - i,
        {
            match next_ids.next_id() {
                Some(id) => {
                    allocated.push(id);
                },
                None => {
                    return Err(PublishManyError::MessageIdGeneratorExhausted);
                },
            }
            i = i + 1;
        }
        *ids = next_ids;
        let ghost rumors = published(self.self_id, round, first, payloads@);
        let ghost old_rumors = self.spec_rumors();
        let ghost old_payloads = payloads@;
        let mut pending = reversed(payloads);
        let mut outcomes: Vec<InsertOutcome> = Vec::new();
        let mut k: usize = 0;
        while k < n
            invariant
                self.wf(),
                n == old_payloads.len(),
                rumors == published(self.spec_self_id(), round, first, old_payloads),
                k <= n,
                allocated@.len() == n,
                forall|j: int| 0 <= j < n ==> #[trigger] allocated@[j] == MessageId::spec_from_value(
                    (first + j) as u128,
                ),
                pending@.len() == n - k,
                forall|j: int| 0 <= j < n - k ==> #[trigger] pending@[j] == old_payloads[n - 1 - j],
                (outcomes@, self.spec_rumors()) == spec_insert_all(
                    old_rumors,
                    self.spec_config().spec_max_rumors(),
                    rumors.take(k as int),
                ),
                self.spec_self_id() == old(self).spec_self_id(),
                self.spec_config() == old(self).spec_config(),
                self.spec_peers() == old(self).spec_peers(),
            decreases n - k,
        {
            let payload = pending.pop().unwrap();
            let outcome = self.publish(allocated[k], round, payload);
            proof {
                assert(rumors.take(k + 1).drop_last() =~= rumors.take(k as int));
                assert(rumors.take(k + 1).last() == rumors[k as int]);
            }
            outcomes.push(outcome);
            k = k + 1;
        }
        proof {
            assert(rumors.take(n as int) =~= rumors);
        }
        Ok(outcomes)
    }

    /// Returns the number of known rumors.
    pub fn rumor_count(&self) -> (n: usize)
        ensures
            n == self.spec_rumors().len(),
    {
        self.rumors.len()
    }

    /// Returns `true` if this node already knows a rumor ID.
    pub fn contains_rumor(&self, id: MessageId) -> (b: bool)
        requires
            self.wf(),
        ensures
            b == has_id(self.spec_rumors(), id),
    {
        self.rumors.contains(id)
    }

    /// Returns a known rumor by ID.
    pub fn get_rumor(&self, id: MessageId) -> (r: Option<&Rumor<T>>)
        requires
            self.wf(),
        ensures
            r is None <==> !has_id(self.spec_rumors(), id),
            r matches Some(x) ==> exists|i: int|
                0 <= i < self.spec_rumors().len() && #[trigger] self.spec_rumors()[i] == *x
                    && x.spec_id() == id,
    {
        let r = self.rumors.get(id);
        proof {
            if let Some(x) = r {
                let i = choose|i: int|
                    0 <= i < self.rumors@.len() && #[trigger] self.rumors@[i] == *x && x.spec_id() == id;
                assert(self.spec_rumors()[i] == *x);
            }
        }
        r
    }
}

impl<T: Clone> GossipNode<T> {
    /// Processes an incoming gossip message.
    ///
    /// Each carried rumor is stored (as a copy); an event announces every rumor
    /// that the node did not already know, in message order.
    pub fn receive(&mut self, message: GossipMessage<T>) -> (effects: Vec<
        Effect<GossipMessage<T>, GossipEvent<T>>,
    >)
        requires
            old(self).wf(),
        ensures
            final(self).wf(),
            received(*old(self), message, *final(self), effects@),
    {
        let ghost rumors = message.spec_rumors();
        let ghost old_rumors = self.spec_rumors();
        let ghost max = self.spec_config().spec_max_rumors();
        let GossipMessage::Rumors(incoming) = message;
        let n = incoming.len();
        let mut pending = reversed(incoming);
        let mut effects: Vec<Effect<GossipMessage<T>, GossipEvent<T>>> = Vec::new();
        let ghost mut copies: Seq<Rumor<T>> = Seq::empty();
        let mut k: usize = 0;
        while k < n
            invariant
                self.wf(),
                n == rumors.len(),
                k <= n,
                max == self.spec_config().spec_max_rumors(),
                pending@.len() == n - k,
                forall|j: int| 0 <= j < n - k ==> #[trigger] pending@[j] == rumors[n - 1 - j],
                copies_of(copies, rumors.take(k as int)),
                ({
                    let (stored, announced) = spec_receive(
                        old_rumors,
                        max,
                        rumors.take(k as int),
                        copies,
                    );
                    &&& self.spec_rumors() == stored
                    &&& effects@.len() == announced.len()
                    &&& forall|i: int|
                        0 <= i < announced.len() ==> #[trigger] effects@[i] == Effect::<
                            GossipMessage<T>,
                            GossipEvent<T>,
                        >::Emit(GossipEvent::NewRumor(announced[i]))
                }),
                self.spec_self_id() == old(self).spec_self_id(),
                self.spec_config() == old(self).spec_config(),
                self.spec_peers() == old(self).spec_peers(),
            decreases n - k,
        {
            let rumor = pending.pop().unwrap();
            let ghost prev_copies = copies;
            let ghost prev_effects = effects@;
            let copy = rumor.clone();
            proof {
                copies = copies.push(copy);
            }
            let outcome = self.rumors.insert(copy);
            match outcome {
                InsertOutcome::Duplicate => {},
                _ => {
                    effects.push(Effect::Emit(GossipEvent::NewRumor(rumor)));
                },
            }
            proof {
                let t = rumors.take(k + 1);
                assert(t.drop_last() =~= rumors.take(k as int));
                assert(t.last() == rumors[k as int]);
                assert(copies.drop_last() =~= prev_copies);
                assert(copies_of(copies, t)) by {
                    assert forall|i: int| 0 <= i < t.len() implies #[trigger] copies[i].is_copy_of(t[i]) by {
                        if i < k {
                            assert(copies[i] == prev_copies[i]);
                            assert(t[i] == rumors.take(k as int)[i]);
                        }
                    }
                }
            }
            k = k + 1;
        }
        proof {
            assert(rumors.take(n as int) =~= rumors);
            assert(copies_of(copies, rumors));
        }
        effects
    }

    /// Runs one gossip round and returns effects for the caller to execute.
    ///
    /// Rumors created before the retention window are dropped first. If any
    /// rumor is left, up to `fanout` peers are chosen with `rng` and each is
    /// sent the same batch of rumors (see `tick_batch`).
    pub fn tick<R: RandomSource>(&mut self, rng: &mut R, round: Round) -> (effects: Vec<
        Effect<GossipMessage<T>, ()>,
    >)
        requires
            old(self).wf(),
        ensures
            final(self).wf(),
            ticked(*old(self), *old(rng), round, *final(self), *final(rng), effects@),
    {
        let retention = self.config.rumor_retention_rounds();
        let oldest_kept = Round::new(round.get().saturating_sub(retention));
        self.rumors.prune_older_than(oldest_kept);
        if self.rumors.is_empty() {
            return Vec::new();
        }
        let ghost rng0 = *rng;
        let selected = choose_distinct_peers(rng, &self.self_id, self.peers.as_slice(), self.config.fanout());
        let ghost (states, draws) = choose|states: Seq<R>, draws: Seq<u64>|
            #[trigger] draw_trace(states, draws) && {
                &&& states[0] == rng0
                &&& states.last() == *rng
                &&& draws.len() == draws_needed(self.self_id@, self.peers@, self.config.spec_fanout() as nat)
                &&& selected@ == spec_select(self.self_id@, self.peers@, self.config.spec_fanout() as nat, draws)
            };
        let available = self.rumors.iter_in_insertion_order();
        let rumor_count = available.len();
        let max_per_message = self.config.max_rumors_per_message();
        let rumor_limit = if max_per_message <= rumor_count { max_per_message } else { rumor_count };
        let start = (round.get() as usize) % rumor_count;
        let ghost kept = self.spec_rumors();
        let ghost batch_src = tick_batch(kept, round.value(), max_per_message);
        let mut batch: Vec<Rumor<T>> = Vec::new();
        let mut j: usize = 0;
        while j < rumor_limit
            invariant
                rumor_count == kept.len(),
                rumor_count > 0,
                available@.len() == rumor_count,
                forall|i: int| 0 <= i < rumor_count ==> *#[trigger] available@[i] == kept[i],
                start < rumor_count,
                start == ((round.value() as usize) as nat) % (rumor_count as nat),
                rumor_limit <= rumor_count,
                rumor_limit == batch_src.len(),
                batch_src == tick_batch(kept, round.value(), max_per_message),
                j <= rumor_limit,
                batch@.len() == j,
                forall|i: int| 0 <= i < j ==> #[trigger] batch@[i].is_copy_of(batch_src[i]),
            decreases rumor_limit - j,
        {
            let index = if j < rumor_count - start { start + j } else { j - (rumor_count - start) };
            proof {
                assert(index as int == (start + j) % (rumor_count as int)) by (nonlinear_arith)
                    requires
                        start < rumor_count,
                        j < rumor_count,
                        index as int == if j < rumor_count - start { start + j } else { j - (rumor_count - start) },
                ;
            }
            let rumor: &Rumor<T> = available[index];
            batch.push(rumor.clone());
            j = j + 1;
        }
        let ghost targets = selected@;
        let mut effects: Vec<Effect<GossipMessage<T>, ()>> = Vec::new();
        let mut t: usize = 0;
        while t < selected.len()
            invariant
                targets == selected@,
                t <= targets.len(),
                effects@.len() == t,
                batch@.len() == batch_src.len(),
                forall|i: int| 0 <= i < batch_src.len() ==> #[trigger] batch@[i].is_copy_of(batch_src[i]),
                forall|i: int|
                    0 <= i < t ==> (#[trigger] effects@[i] matches Effect::Send { target, message }
                        && target == targets[i] && carries_batch(message, batch_src)),
            decreases targets.len() - t,
        {
            let message = GossipMessage::rumors(copy_rumors(&batch));
            proof {
                assert forall|m: int| 0 <= m < batch_src.len() implies #[trigger] message.spec_rumors()[m].is_copy_of_copy(
                    batch_src[m],
                ) by {
                    assert(batch@[m].is_copy_of(batch_src[m]));
                    assert(message.spec_rumors()[m].is_copy_of(batch@[m]));
                }
            }
            effects.push(Effect::Send { target: selected[t].clone(), message });
            t = t + 1;
        }
        proof {
            assert(draw_trace(states, draws));
        }
        effects
    }
}

} // verus!
