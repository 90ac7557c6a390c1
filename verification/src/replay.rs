//! Repeatability of the simulator: runs that start alike stay alike.
//!
//! Two clusters are alike when they agree on everything but the payloads of
//! the rumors they hold, which are copies of one another at most: the
//! simulator never looks at a payload, so alike clusters make the same
//! decisions, round after round, and report the same counts. A cluster is
//! alike to itself, so running the same cluster twice gives the same report;
//! clusters built with the same seed from the same node names are alike, so
//! convergence experiments repeat too.

use vstd::prelude::*;

use crate::cluster::{
    all_events, delivered, insert_result, inserted_at, last_named, lemma_last_named_same, lemma_sorted_distinct,
    lemma_sorted_same_names, reach_run, receive_trace, received_all, round_sends, rounds_from, routes, run_events,
    run_trace, sat_total, sends_from, spawned, starts_as, tagged, tick_trace, ticked_once, Cluster, ClusterError,
};
use crate::config::GossipConfig;
use crate::delivery::{
    all_like, due_count, flatten, last_outbound, now_items, pass_delayed, pass_dropped, pass_duplicated,
    pass_now, pass_queue, pass_state, queue_later, queue_like, queue_push, repeat, spec_outbound, PendingSend,
};
use crate::effect::Effect;
use crate::event::GossipEvent;
use crate::identity::{MessageId, NodeId};
use crate::message::GossipMessage;
use crate::network::{lemma_same_network_blocks, same_network, NetworkModel};
use crate::node::{carries_batch, oldest_kept_round, received, spec_receive, tick_batch, ticked, GossipNode};
use crate::peer_selection::{
    draw_trace, draws_needed, lemma_deterministic_draws, lemma_other_peers_names, lemma_select_names, same_names,
    spec_select,
};
use crate::rng::DeterministicRng;
use crate::rumor::{copies_of, Rumor};
use crate::rumor_store::{created_since, has_id, spec_insert, InsertOutcome};
use crate::sim::{names_node, ReachReport, SimNode, TickReport};
use crate::time::Round;
use crate::transport::{events_of, messages_to};

verus! {

/// What a rumor says apart from its payload: identifier, origin's name and round.
pub open spec fn rumor_meta<T>(r: Rumor<T>) -> (MessageId, Seq<char>, Round) {
    (r.spec_id(), r.spec_origin()@, r.spec_created_at())
}

/// The metadata of each rumor of `s`, in order.
pub open spec fn metas<T>(s: Seq<Rumor<T>>) -> Seq<(MessageId, Seq<char>, Round)> {
    s.map_values(|r: Rumor<T>| rumor_meta(r))
}

/// Sequences whose rumors have pairwise equal metadata have equal metadata.
pub proof fn lemma_metas_equal<T>(a: Seq<Rumor<T>>, b: Seq<Rumor<T>>)
    requires
        a.len() == b.len(),
        forall|i: int| 0 <= i < a.len() ==> #[trigger] rumor_meta(a[i]) == rumor_meta(b[i]),
    ensures
        metas(a) == metas(b),
{
    assert forall|i: int| 0 <= i < a.len() implies metas(a)[i] == metas(b)[i] by {
        assert(rumor_meta(a[i]) == rumor_meta(b[i]));
    }
    assert(metas(a) =~= metas(b));
}

/// Equal metadata means equal metadata at each position.
pub proof fn lemma_metas_at<T>(a: Seq<Rumor<T>>, b: Seq<Rumor<T>>, i: int)
    requires
        metas(a) == metas(b),
        0 <= i < a.len(),
    ensures
        a.len() == b.len(),
        rumor_meta(a[i]) == rumor_meta(b[i]),
{
    assert(metas(a).len() == a.len() && metas(b).len() == b.len());
    assert(metas(a)[i] == rumor_meta(a[i]));
    assert(metas(b)[i] == rumor_meta(b[i]));
}

/// A copy of a rumor has the rumor's metadata.
pub proof fn lemma_copy_meta<T: Clone>(copy: Rumor<T>, original: Rumor<T>)
    requires
        copy.is_copy_of(original) || copy.is_copy_of_copy(original),
    ensures
        rumor_meta(copy) == rumor_meta(original),
{
    if !copy.is_copy_of(original) {
        let mid = choose|mid: Rumor<T>| #[trigger] mid.is_copy_of(original) && copy.is_copy_of(mid);
    }
}

/// Whether a sequence holds an identifier depends on its metadata only.
proof fn lemma_has_id_metas<T>(a: Seq<Rumor<T>>, b: Seq<Rumor<T>>, id: MessageId)
    requires
        metas(a) == metas(b),
    ensures
        has_id(a, id) == has_id(b, id),
{
    if has_id(a, id) {
        let i = choose|i: int| 0 <= i < a.len() && #[trigger] a[i].spec_id() == id;
        lemma_metas_at(a, b, i);
    }
    if has_id(b, id) {
        let i = choose|i: int| 0 <= i < b.len() && #[trigger] b[i].spec_id() == id;
        lemma_metas_at(b, a, i);
    }
}

/// Inserting rumors with the same metadata into stores with the same
/// metadata gives the same outcome and stores with the same metadata.
proof fn lemma_insert_metas<T>(a: Seq<Rumor<T>>, b: Seq<Rumor<T>>, max: usize, x: Rumor<T>, y: Rumor<T>)
    requires
        metas(a) == metas(b),
        rumor_meta(x) == rumor_meta(y),
    ensures
        spec_insert(a, max, x).0 == spec_insert(b, max, y).0,
        metas(spec_insert(a, max, x).1) == metas(spec_insert(b, max, y).1),
{
    lemma_has_id_metas(a, b, x.spec_id());
    assert(a.len() == b.len()) by {
        assert(metas(a).len() == a.len() && metas(b).len() == b.len());
    }
    if a.len() == 0 {
        assert(a =~= b);
    }
    if !has_id(a, x.spec_id()) {
        if a.len() < max {
            let (sa, sb) = (a.push(x), b.push(y));
            assert forall|i: int| 0 <= i < sa.len() implies #[trigger] rumor_meta(sa[i]) == rumor_meta(sb[i]) by {
                if i < a.len() {
                    lemma_metas_at(a, b, i);
                }
            }
            lemma_metas_equal(sa, sb);
        } else if a.len() > 0 {
            lemma_metas_at(a, b, 0);
            let (sa, sb) = (a.drop_first().push(x), b.drop_first().push(y));
            assert forall|i: int| 0 <= i < sa.len() implies #[trigger] rumor_meta(sa[i]) == rumor_meta(sb[i]) by {
                if i < a.len() - 1 {
                    lemma_metas_at(a, b, i + 1);
                }
            }
            lemma_metas_equal(sa, sb);
        }
    }
}

/// Retention keeps rumors by their creation round, so it keeps the same
/// metadata of sequences with the same metadata.
pub proof fn lemma_created_since_metas<T>(a: Seq<Rumor<T>>, b: Seq<Rumor<T>>, minimum: u64)
    requires
        metas(a) == metas(b),
    ensures
        metas(created_since(a, minimum)) == metas(created_since(b, minimum)),
    decreases a.len(),
{
    assert(a.len() == b.len()) by {
        assert(metas(a).len() == a.len() && metas(b).len() == b.len());
    }
    if a.len() > 0 {
        let (pa, pb) = (a.drop_last(), b.drop_last());
        assert forall|i: int| 0 <= i < pa.len() implies #[trigger] rumor_meta(pa[i]) == rumor_meta(pb[i]) by {
            lemma_metas_at(a, b, i);
        }
        lemma_metas_equal(pa, pb);
        lemma_created_since_metas(pa, pb, minimum);
        lemma_metas_at(a, b, a.len() - 1);
        let ra = created_since(pa, minimum);
        let rb = created_since(pb, minimum);
        assert(ra.len() == rb.len()) by {
            assert(metas(ra).len() == ra.len() && metas(rb).len() == rb.len());
        }
        let (sa, sb) = (ra.push(a.last()), rb.push(b.last()));
        assert forall|i: int| 0 <= i < sa.len() implies #[trigger] rumor_meta(sa[i]) == rumor_meta(sb[i]) by {
            if i < ra.len() {
                lemma_metas_at(ra, rb, i);
            }
        }
        lemma_metas_equal(sa, sb);
    }
}

/// Appending rumors with the same metadata keeps metadata equal.
pub proof fn lemma_metas_push<T>(a: Seq<Rumor<T>>, b: Seq<Rumor<T>>, x: Rumor<T>, y: Rumor<T>)
    requires
        metas(a) == metas(b),
        rumor_meta(x) == rumor_meta(y),
    ensures
        metas(a.push(x)) == metas(b.push(y)),
{
    assert(a.len() == b.len()) by {
        assert(metas(a).len() == a.len() && metas(b).len() == b.len());
    }
    let (sa, sb) = (a.push(x), b.push(y));
    assert forall|i: int| 0 <= i < sa.len() implies #[trigger] rumor_meta(sa[i]) == rumor_meta(sb[i]) by {
        if i < a.len() {
            lemma_metas_at(a, b, i);
        }
    }
    lemma_metas_equal(sa, sb);
}

/// Dropping the last rumor keeps metadata equal.
pub proof fn lemma_metas_drop_last<T>(a: Seq<Rumor<T>>, b: Seq<Rumor<T>>)
    requires
        metas(a) == metas(b),
        a.len() > 0,
    ensures
        metas(a.drop_last()) == metas(b.drop_last()),
        rumor_meta(a.last()) == rumor_meta(b.last()),
        a.len() == b.len(),
{
    lemma_metas_at(a, b, a.len() - 1);
    let (pa, pb) = (a.drop_last(), b.drop_last());
    assert forall|i: int| 0 <= i < pa.len() implies #[trigger] rumor_meta(pa[i]) == rumor_meta(pb[i]) by {
        lemma_metas_at(a, b, i);
    }
    lemma_metas_equal(pa, pb);
}

/// Receiving rumors with the same metadata into stores with the same
/// metadata stores and announces rumors with the same metadata.
pub proof fn lemma_receive_metas<T: Clone>(
    stored_a: Seq<Rumor<T>>,
    stored_b: Seq<Rumor<T>>,
    max_rumors: usize,
    rumors_a: Seq<Rumor<T>>,
    copies_a: Seq<Rumor<T>>,
    rumors_b: Seq<Rumor<T>>,
    copies_b: Seq<Rumor<T>>,
)
    requires
        metas(stored_a) == metas(stored_b),
        metas(rumors_a) == metas(rumors_b),
        copies_of(copies_a, rumors_a),
        copies_of(copies_b, rumors_b),
    ensures
        metas(spec_receive(stored_a, max_rumors, rumors_a, copies_a).0) == metas(
            spec_receive(stored_b, max_rumors, rumors_b, copies_b).0,
        ),
        metas(spec_receive(stored_a, max_rumors, rumors_a, copies_a).1) == metas(
            spec_receive(stored_b, max_rumors, rumors_b, copies_b).1,
        ),
    decreases rumors_a.len(),
{
    assert(rumors_a.len() == rumors_b.len()) by {
        assert(metas(rumors_a).len() == rumors_a.len() && metas(rumors_b).len() == rumors_b.len());
    }
    if rumors_a.len() == 0 {
        assert(metas(Seq::<Rumor<T>>::empty()) =~= Seq::empty());
    } else {
        lemma_metas_drop_last(rumors_a, rumors_b);
        assert(copies_of(copies_a.drop_last(), rumors_a.drop_last()));
        assert(copies_of(copies_b.drop_last(), rumors_b.drop_last()));
        lemma_receive_metas(
            stored_a,
            stored_b,
            max_rumors,
            rumors_a.drop_last(),
            copies_a.drop_last(),
            rumors_b.drop_last(),
            copies_b.drop_last(),
        );
        let (st_a, an_a) = spec_receive(stored_a, max_rumors, rumors_a.drop_last(), copies_a.drop_last());
        let (st_b, an_b) = spec_receive(stored_b, max_rumors, rumors_b.drop_last(), copies_b.drop_last());
        let last = rumors_a.len() - 1;
        lemma_copy_meta(copies_a[last], rumors_a[last]);
        lemma_copy_meta(copies_b[last], rumors_b[last]);
        lemma_insert_metas(st_a, st_b, max_rumors, copies_a[last], copies_b[last]);
        lemma_metas_push(an_a, an_b, rumors_a.last(), rumors_b.last());
    }
}

/// The batch a round sends from kept rumors with the same metadata has the
/// same metadata.
pub proof fn lemma_tick_batch_metas<T>(a: Seq<Rumor<T>>, b: Seq<Rumor<T>>, round: u64, max_per_message: usize)
    requires
        metas(a) == metas(b),
    ensures
        metas(tick_batch(a, round, max_per_message)) == metas(tick_batch(b, round, max_per_message)),
{
    assert(a.len() == b.len()) by {
        assert(metas(a).len() == a.len() && metas(b).len() == b.len());
    }
    let (ba, bb) = (tick_batch(a, round, max_per_message), tick_batch(b, round, max_per_message));
    assert forall|i: int| 0 <= i < ba.len() implies #[trigger] rumor_meta(ba[i]) == rumor_meta(bb[i]) by {
        let count = a.len();
        let start = ((round as usize) as nat) % count;
        lemma_metas_at(a, b, (start + i) % (count as int));
    }
    lemma_metas_equal(ba, bb);
}

/// The metadata of the rumor an event announces.
pub open spec fn event_meta<T>(e: GossipEvent<T>) -> (MessageId, Seq<char>, Round) {
    match e {
        GossipEvent::NewRumor(r) => rumor_meta(r),
    }
}

/// The metadata of each event of `s`, in order.
pub open spec fn event_metas<T>(s: Seq<GossipEvent<T>>) -> Seq<(MessageId, Seq<char>, Round)> {
    s.map_values(|e: GossipEvent<T>| event_meta(e))
}

/// The metadata of the rumors of each message of `s`, in order.
pub open spec fn message_metas<T>(s: Seq<GossipMessage<T>>) -> Seq<Seq<(MessageId, Seq<char>, Round)>> {
    s.map_values(|m: GossipMessage<T>| metas(m.spec_rumors()))
}

/// Two nodes are alike: same name, configuration and peer names, and rumors
/// with the same metadata in the same order.
pub open spec fn nodes_alike<T>(a: GossipNode<T>, b: GossipNode<T>) -> bool {
    &&& a.spec_self_id()@ == b.spec_self_id()@
    &&& a.spec_config() == b.spec_config()
    &&& same_names(a.spec_peers(), b.spec_peers())
    &&& metas(a.spec_rumors()) == metas(b.spec_rumors())
}

/// Two effects are sends to nodes of the same name of messages whose rumors
/// have the same metadata.
pub open spec fn sends_alike<T>(a: Effect<GossipMessage<T>, ()>, b: Effect<GossipMessage<T>, ()>) -> bool {
    &&& a matches Effect::Send { target: ta, message: ma }
    &&& b matches Effect::Send { target: tb, message: mb }
    &&& ta@ == tb@
    &&& metas(ma.spec_rumors()) == metas(mb.spec_rumors())
}

/// A message carrying a batch carries rumors with the batch's metadata.
proof fn lemma_carries_batch_metas<T: Clone>(message: GossipMessage<T>, batch: Seq<Rumor<T>>)
    requires
        carries_batch(message, batch),
    ensures
        metas(message.spec_rumors()) == metas(batch),
{
    let rumors = message.spec_rumors();
    assert forall|i: int| 0 <= i < rumors.len() implies #[trigger] rumor_meta(rumors[i]) == rumor_meta(batch[i]) by {
        lemma_copy_meta(rumors[i], batch[i]);
    }
    lemma_metas_equal(rumors, batch);
}

/// Alike nodes ticked at the same round with deterministic generators in
/// the same state stay alike, leave the generators in the same state, and
/// send alike messages to the same peers in the same order.
pub proof fn lemma_ticked_alike<T: Clone>(
    before_a: GossipNode<T>,
    before_b: GossipNode<T>,
    rng: DeterministicRng,
    round: Round,
    after_a: GossipNode<T>,
    rng_a: DeterministicRng,
    effects_a: Seq<Effect<GossipMessage<T>, ()>>,
    after_b: GossipNode<T>,
    rng_b: DeterministicRng,
    effects_b: Seq<Effect<GossipMessage<T>, ()>>,
)
    requires
        nodes_alike(before_a, before_b),
        ticked(before_a, rng, round, after_a, rng_a, effects_a),
        ticked(before_b, rng, round, after_b, rng_b, effects_b),
    ensures
        nodes_alike(after_a, after_b),
        rng_a == rng_b,
        effects_a.len() == effects_b.len(),
        forall|i: int| 0 <= i < effects_a.len() ==> #[trigger] sends_alike(effects_a[i], effects_b[i]),
{
    let config = before_a.spec_config();
    let oldest = oldest_kept_round(round.value(), config.spec_rumor_retention_rounds());
    lemma_created_since_metas(before_a.spec_rumors(), before_b.spec_rumors(), oldest);
    let kept_a = after_a.spec_rumors();
    let kept_b = after_b.spec_rumors();
    assert(kept_a.len() == kept_b.len()) by {
        assert(metas(kept_a).len() == kept_a.len() && metas(kept_b).len() == kept_b.len());
    }
    if kept_a.len() > 0 {
        let name = before_a.spec_self_id()@;
        let (peers_a, peers_b) = (before_a.spec_peers(), before_b.spec_peers());
        let fanout = config.spec_fanout() as nat;
        let batch_a = tick_batch(kept_a, round.value(), config.spec_max_rumors_per_message());
        let batch_b = tick_batch(kept_b, round.value(), config.spec_max_rumors_per_message());
        let (states_a, draws_a) = choose|states: Seq<DeterministicRng>, draws: Seq<u64>|
            #[trigger] draw_trace(states, draws) && {
                let targets = spec_select(name, peers_a, fanout, draws);
                &&& states[0] == rng
                &&& states.last() == rng_a
                &&& draws.len() == draws_needed(name, peers_a, fanout)
                &&& effects_a.len() == targets.len()
                &&& forall|i: int|
                    0 <= i < targets.len() ==> (#[trigger] effects_a[i] matches Effect::Send {
                        target,
                        message,
                    } && target == targets[i] && carries_batch(message, batch_a))
            };
        let (states_b, draws_b) = choose|states: Seq<DeterministicRng>, draws: Seq<u64>|
            #[trigger] draw_trace(states, draws) && {
                let targets = spec_select(name, peers_b, fanout, draws);
                &&& states[0] == rng
                &&& states.last() == rng_b
                &&& draws.len() == draws_needed(name, peers_b, fanout)
                &&& effects_b.len() == targets.len()
                &&& forall|i: int|
                    0 <= i < targets.len() ==> (#[trigger] effects_b[i] matches Effect::Send {
                        target,
                        message,
                    } && target == targets[i] && carries_batch(message, batch_b))
            };
        before_a.lemma_peers_fit();
        lemma_select_names(name, peers_a, peers_b, fanout, draws_a);
        lemma_deterministic_draws(states_a, draws_a, states_b, draws_b);
        lemma_tick_batch_metas(kept_a, kept_b, round.value(), config.spec_max_rumors_per_message());
        let (targets_a, targets_b) = (spec_select(name, peers_a, fanout, draws_a), spec_select(name, peers_b, fanout, draws_b));
        assert forall|i: int| 0 <= i < effects_a.len() implies #[trigger] sends_alike(effects_a[i], effects_b[i]) by {
            assert(effects_a[i] matches Effect::Send { target, message } && target == targets_a[i]
                && carries_batch(message, batch_a));
            assert(effects_b[i] matches Effect::Send { target, message } && target == targets_b[i]
                && carries_batch(message, batch_b));
            assert(targets_a[i]@ == targets_b[i]@);
            if let Effect::Send { target: _, message: ma } = effects_a[i] {
                if let Effect::Send { target: _, message: mb } = effects_b[i] {
                    lemma_carries_batch_metas(ma, batch_a);
                    lemma_carries_batch_metas(mb, batch_b);
                }
            }
        }
    }
}

/// Receipts announce the rumors they list, as events, in order.
proof fn lemma_announced_events<T>(
    effects: Seq<Effect<GossipMessage<T>, GossipEvent<T>>>,
    announced: Seq<Rumor<T>>,
)
    requires
        effects.len() == announced.len(),
        forall|i: int|
            0 <= i < announced.len() ==> #[trigger] effects[i] == Effect::<GossipMessage<T>, GossipEvent<T>>::Emit(
                GossipEvent::NewRumor(announced[i]),
            ),
    ensures
        event_metas(events_of(effects)) == metas(announced),
    decreases announced.len(),
{
    if announced.len() == 0 {
        assert(event_metas(events_of(effects)) =~= metas(announced));
    } else {
        let (pe, pa) = (effects.drop_last(), announced.drop_last());
        assert forall|i: int| 0 <= i < pa.len() implies #[trigger] pe[i] == Effect::<GossipMessage<T>, GossipEvent<T>>::Emit(
            GossipEvent::NewRumor(pa[i]),
        ) by {
            assert(pe[i] == effects[i]);
        }
        lemma_announced_events(pe, pa);
        let last = announced.len() - 1;
        assert(effects.last() == effects[last]);
        let evs = events_of(pe);
        assert(events_of(effects) == evs.push(GossipEvent::NewRumor(announced.last())));
        let ev = events_of(effects);
        assert(evs.len() == pa.len()) by {
            assert(event_metas(evs).len() == evs.len());
            assert(metas(pa).len() == pa.len());
        }
        assert(ev.len() == announced.len());
        assert(event_metas(ev).len() == announced.len());
        assert(metas(announced).len() == announced.len());
        assert forall|i: int| 0 <= i < announced.len() implies event_metas(ev)[i] == metas(announced)[i] by {
            assert(event_metas(ev)[i] == event_meta(ev[i]));
            assert(metas(announced)[i] == rumor_meta(announced[i]));
            if i < last {
                assert(ev[i] == evs[i]);
                assert(event_metas(evs)[i] == event_meta(evs[i]));
                assert(metas(pa)[i] == rumor_meta(pa[i]));
                assert(event_metas(evs)[i] == metas(pa)[i]);
                assert(pa[i] == announced[i]);
            }
        }
        assert(event_metas(ev) =~= metas(announced));
    }
}

/// Alike nodes receiving messages whose rumors have the same metadata stay
/// alike and announce events with the same metadata.
pub proof fn lemma_received_alike<T: Clone>(
    before_a: GossipNode<T>,
    before_b: GossipNode<T>,
    message_a: GossipMessage<T>,
    message_b: GossipMessage<T>,
    after_a: GossipNode<T>,
    after_b: GossipNode<T>,
    effects_a: Seq<Effect<GossipMessage<T>, GossipEvent<T>>>,
    effects_b: Seq<Effect<GossipMessage<T>, GossipEvent<T>>>,
)
    requires
        nodes_alike(before_a, before_b),
        metas(message_a.spec_rumors()) == metas(message_b.spec_rumors()),
        received(before_a, message_a, after_a, effects_a),
        received(before_b, message_b, after_b, effects_b),
    ensures
        nodes_alike(after_a, after_b),
        event_metas(events_of(effects_a)) == event_metas(events_of(effects_b)),
{
    let max = before_a.spec_config().spec_max_rumors();
    let copies_a = choose|copies: Seq<Rumor<T>>|
        #[trigger] copies_of(copies, message_a.spec_rumors()) && ({
            let (stored, announced) = spec_receive(before_a.spec_rumors(), max, message_a.spec_rumors(), copies);
            &&& after_a.spec_rumors() == stored
            &&& effects_a.len() == announced.len()
            &&& forall|i: int|
                0 <= i < announced.len() ==> #[trigger] effects_a[i] == Effect::<
                    GossipMessage<T>,
                    GossipEvent<T>,
                >::Emit(GossipEvent::NewRumor(announced[i]))
        });
    let copies_b = choose|copies: Seq<Rumor<T>>|
        #[trigger] copies_of(copies, message_b.spec_rumors()) && ({
            let (stored, announced) = spec_receive(before_b.spec_rumors(), max, message_b.spec_rumors(), copies);
            &&& after_b.spec_rumors() == stored
            &&& effects_b.len() == announced.len()
            &&& forall|i: int|
                0 <= i < announced.len() ==> #[trigger] effects_b[i] == Effect::<
                    GossipMessage<T>,
                    GossipEvent<T>,
                >::Emit(GossipEvent::NewRumor(announced[i]))
        });
    lemma_receive_metas(
        before_a.spec_rumors(),
        before_b.spec_rumors(),
        max,
        message_a.spec_rumors(),
        copies_a,
        message_b.spec_rumors(),
        copies_b,
    );
    let announced_a = spec_receive(before_a.spec_rumors(), max, message_a.spec_rumors(), copies_a).1;
    let announced_b = spec_receive(before_b.spec_rumors(), max, message_b.spec_rumors(), copies_b).1;
    lemma_announced_events(effects_a, announced_a);
    lemma_announced_events(effects_b, announced_b);
}

/// The event metadata of two event sequences, one after the other.
proof fn lemma_event_metas_concat<T>(a: Seq<GossipEvent<T>>, b: Seq<GossipEvent<T>>)
    ensures
        event_metas(a + b) == event_metas(a) + event_metas(b),
{
    assert(event_metas(a + b) =~= event_metas(a) + event_metas(b));
}

/// Messages whose metadata agree carry rumors with the same metadata, one by one.
proof fn lemma_message_metas_at<T>(a: Seq<GossipMessage<T>>, b: Seq<GossipMessage<T>>, i: int)
    requires
        message_metas(a) == message_metas(b),
        0 <= i < a.len(),
    ensures
        a.len() == b.len(),
        metas(a[i].spec_rumors()) == metas(b[i].spec_rumors()),
{
    assert(message_metas(a).len() == a.len() && message_metas(b).len() == b.len());
    assert(message_metas(a)[i] == metas(a[i].spec_rumors()));
    assert(message_metas(b)[i] == metas(b[i].spec_rumors()));
}

proof fn lemma_receive_trace_alike<T: Clone>(
    messages_a: Seq<GossipMessage<T>>,
    messages_b: Seq<GossipMessage<T>>,
    nodes_a: Seq<GossipNode<T>>,
    effects_a: Seq<Seq<Effect<GossipMessage<T>, GossipEvent<T>>>>,
    nodes_b: Seq<GossipNode<T>>,
    effects_b: Seq<Seq<Effect<GossipMessage<T>, GossipEvent<T>>>>,
    k: int,
)
    requires
        receive_trace(messages_a, nodes_a, effects_a),
        receive_trace(messages_b, nodes_b, effects_b),
        nodes_alike(nodes_a[0], nodes_b[0]),
        message_metas(messages_a) == message_metas(messages_b),
        0 <= k <= messages_a.len(),
    ensures
        nodes_alike(nodes_a[k], nodes_b[k]),
        event_metas(all_events(effects_a.take(k))) == event_metas(all_events(effects_b.take(k))),
    decreases k,
{
    if k == 0 {
        assert(effects_a.take(0) =~= Seq::<Seq<Effect<GossipMessage<T>, GossipEvent<T>>>>::empty());
        assert(effects_b.take(0) =~= Seq::<Seq<Effect<GossipMessage<T>, GossipEvent<T>>>>::empty());
    } else {
        lemma_receive_trace_alike(messages_a, messages_b, nodes_a, effects_a, nodes_b, effects_b, k - 1);
        lemma_message_metas_at(messages_a, messages_b, k - 1);
        let i = k - 1;
        assert(received(nodes_a[i], messages_a[i], nodes_a[i + 1], effects_a[i]));
        assert(received(nodes_b[i], messages_b[i], nodes_b[i + 1], effects_b[i]));
        lemma_received_alike(
            nodes_a[k - 1],
            nodes_b[k - 1],
            messages_a[k - 1],
            messages_b[k - 1],
            nodes_a[k],
            nodes_b[k],
            effects_a[k - 1],
            effects_b[k - 1],
        );
        assert(effects_a.take(k).drop_last() =~= effects_a.take(k - 1));
        assert(effects_b.take(k).drop_last() =~= effects_b.take(k - 1));
        assert(effects_a.take(k).last() == effects_a[k - 1]);
        assert(effects_b.take(k).last() == effects_b[k - 1]);
        lemma_event_metas_concat(all_events(effects_a.take(k - 1)), events_of(effects_a[k - 1]));
        lemma_event_metas_concat(all_events(effects_b.take(k - 1)), events_of(effects_b[k - 1]));
    }
}

/// Alike nodes receiving, in order, messages whose rumors have the same
/// metadata stay alike and announce events with the same metadata.
pub proof fn lemma_received_all_alike<T: Clone>(
    before_a: GossipNode<T>,
    before_b: GossipNode<T>,
    messages_a: Seq<GossipMessage<T>>,
    messages_b: Seq<GossipMessage<T>>,
    after_a: GossipNode<T>,
    after_b: GossipNode<T>,
    events_a: Seq<GossipEvent<T>>,
    events_b: Seq<GossipEvent<T>>,
)
    requires
        nodes_alike(before_a, before_b),
        message_metas(messages_a) == message_metas(messages_b),
        received_all(before_a, messages_a, after_a, events_a),
        received_all(before_b, messages_b, after_b, events_b),
    ensures
        nodes_alike(after_a, after_b),
        event_metas(events_a) == event_metas(events_b),
{
    let (nodes_a, effects_a) = choose|
        nodes: Seq<GossipNode<T>>,
        effects: Seq<Seq<Effect<GossipMessage<T>, GossipEvent<T>>>>,
    |
        #[trigger] receive_trace(messages_a, nodes, effects) && nodes[0] == before_a && nodes.last() == after_a
            && events_a == all_events(effects);
    let (nodes_b, effects_b) = choose|
        nodes: Seq<GossipNode<T>>,
        effects: Seq<Seq<Effect<GossipMessage<T>, GossipEvent<T>>>>,
    |
        #[trigger] receive_trace(messages_b, nodes, effects) && nodes[0] == before_b && nodes.last() == after_b
            && events_b == all_events(effects);
    assert(messages_a.len() == messages_b.len()) by {
        assert(message_metas(messages_a).len() == messages_a.len());
        assert(message_metas(messages_b).len() == messages_b.len());
    }
    let n = messages_a.len() as int;
    lemma_receive_trace_alike(messages_a, messages_b, nodes_a, effects_a, nodes_b, effects_b, n);
    assert(effects_a.take(n) =~= effects_a);
    assert(effects_b.take(n) =~= effects_b);
}

/// What a pending send says apart from payloads: its link and the metadata
/// of the rumors it carries.
pub open spec fn send_meta<T>(p: PendingSend<T>) -> (Seq<char>, Seq<char>, Seq<(MessageId, Seq<char>, Round)>) {
    (p.source@, p.target@, metas(p.message.spec_rumors()))
}

/// The metadata of each send of `s`, in order.
pub open spec fn send_metas<T>(s: Seq<PendingSend<T>>) -> Seq<(Seq<char>, Seq<char>, Seq<(MessageId, Seq<char>, Round)>)> {
    s.map_values(|p: PendingSend<T>| send_meta(p))
}

/// The due rounds of a queue of delayed sends, and the metadata of the
/// sends due at each.
pub open spec fn queue_metas<T>(q: Seq<(u64, Seq<PendingSend<T>>)>) -> Seq<
    (u64, Seq<(Seq<char>, Seq<char>, Seq<(MessageId, Seq<char>, Round)>)>),
> {
    q.map_values(|e: (u64, Seq<PendingSend<T>>)| (e.0, send_metas(e.1)))
}

proof fn lemma_send_metas_at<T>(a: Seq<PendingSend<T>>, b: Seq<PendingSend<T>>, i: int)
    requires
        send_metas(a) == send_metas(b),
        0 <= i < a.len(),
    ensures
        a.len() == b.len(),
        send_meta(a[i]) == send_meta(b[i]),
{
    assert(send_metas(a).len() == a.len() && send_metas(b).len() == b.len());
    assert(send_metas(a)[i] == send_meta(a[i]));
    assert(send_metas(b)[i] == send_meta(b[i]));
}

proof fn lemma_send_metas_equal<T>(a: Seq<PendingSend<T>>, b: Seq<PendingSend<T>>)
    requires
        a.len() == b.len(),
        forall|i: int| 0 <= i < a.len() ==> #[trigger] send_meta(a[i]) == send_meta(b[i]),
    ensures
        send_metas(a) == send_metas(b),
{
    assert forall|i: int| 0 <= i < a.len() implies send_metas(a)[i] == send_metas(b)[i] by {
        assert(send_meta(a[i]) == send_meta(b[i]));
    }
    assert(send_metas(a) =~= send_metas(b));
}

proof fn lemma_send_metas_concat<T>(a: Seq<PendingSend<T>>, b: Seq<PendingSend<T>>)
    ensures
        send_metas(a + b) == send_metas(a) + send_metas(b),
{
    assert(send_metas(a + b) =~= send_metas(a) + send_metas(b));
}

proof fn lemma_send_metas_push<T>(a: Seq<PendingSend<T>>, b: Seq<PendingSend<T>>, x: PendingSend<T>, y: PendingSend<T>)
    requires
        send_metas(a) == send_metas(b),
        send_meta(x) == send_meta(y),
    ensures
        send_metas(a.push(x)) == send_metas(b.push(y)),
{
    assert(send_metas(a).len() == a.len() && send_metas(b).len() == b.len());
    assert forall|i: int| 0 <= i < a.len() + 1 implies #[trigger] send_meta(a.push(x)[i]) == send_meta(b.push(y)[i]) by {
        if i < a.len() {
            lemma_send_metas_at(a, b, i);
        }
    }
    lemma_send_metas_equal(a.push(x), b.push(y));
}

proof fn lemma_send_metas_drop_last<T>(a: Seq<PendingSend<T>>, b: Seq<PendingSend<T>>)
    requires
        send_metas(a) == send_metas(b),
        a.len() > 0,
    ensures
        a.len() == b.len(),
        send_metas(a.drop_last()) == send_metas(b.drop_last()),
        send_meta(a.last()) == send_meta(b.last()),
{
    lemma_send_metas_at(a, b, a.len() - 1);
    assert forall|i: int| 0 <= i < a.len() - 1 implies #[trigger] send_meta(a.drop_last()[i]) == send_meta(
        b.drop_last()[i],
    ) by {
        lemma_send_metas_at(a, b, i);
    }
    lemma_send_metas_equal(a.drop_last(), b.drop_last());
}

/// A send like another has its metadata; so do sequences of them.
proof fn lemma_all_like_metas<T: Clone>(actual: Seq<PendingSend<T>>, expected: Seq<PendingSend<T>>)
    requires
        all_like(actual, expected),
    ensures
        send_metas(actual) == send_metas(expected),
{
    assert forall|i: int| 0 <= i < actual.len() implies #[trigger] send_meta(actual[i]) == send_meta(expected[i]) by {
        assert(actual[i].is_like(expected[i]));
        if actual[i].message != expected[i].message {
            let (ra, re) = (actual[i].message.spec_rumors(), expected[i].message.spec_rumors());
            assert forall|k: int| 0 <= k < ra.len() implies #[trigger] rumor_meta(ra[k]) == rumor_meta(re[k]) by {
                lemma_copy_meta(ra[k], re[k]);
            }
            lemma_metas_equal(ra, re);
        }
    }
    lemma_send_metas_equal(actual, expected);
}

proof fn lemma_queue_metas_at<T>(a: Seq<(u64, Seq<PendingSend<T>>)>, b: Seq<(u64, Seq<PendingSend<T>>)>, i: int)
    requires
        queue_metas(a) == queue_metas(b),
        0 <= i < a.len(),
    ensures
        a.len() == b.len(),
        a[i].0 == b[i].0,
        send_metas(a[i].1) == send_metas(b[i].1),
{
    assert(queue_metas(a).len() == a.len() && queue_metas(b).len() == b.len());
    assert(queue_metas(a)[i] == (a[i].0, send_metas(a[i].1)));
    assert(queue_metas(b)[i] == (b[i].0, send_metas(b[i].1)));
}

proof fn lemma_queue_metas_equal<T>(a: Seq<(u64, Seq<PendingSend<T>>)>, b: Seq<(u64, Seq<PendingSend<T>>)>)
    requires
        a.len() == b.len(),
        forall|i: int| 0 <= i < a.len() ==> (#[trigger] a[i]).0 == b[i].0 && send_metas(a[i].1) == send_metas(b[i].1),
    ensures
        queue_metas(a) == queue_metas(b),
{
    assert forall|i: int| 0 <= i < a.len() implies queue_metas(a)[i] == queue_metas(b)[i] by {
        assert(a[i].0 == b[i].0 && send_metas(a[i].1) == send_metas(b[i].1));
    }
    assert(queue_metas(a) =~= queue_metas(b));
}

/// Queues like others have their metadata.
proof fn lemma_queue_like_metas<T: Clone>(actual: Seq<(u64, Seq<PendingSend<T>>)>, expected: Seq<(u64, Seq<PendingSend<T>>)>)
    requires
        queue_like(actual, expected),
    ensures
        queue_metas(actual) == queue_metas(expected),
{
    assert forall|i: int| 0 <= i < actual.len() implies (#[trigger] actual[i]).0 == expected[i].0 && send_metas(
        actual[i].1,
    ) == send_metas(expected[i].1) by {
        lemma_all_like_metas(actual[i].1, expected[i].1);
    }
    lemma_queue_metas_equal(actual, expected);
}

/// Delaying sends with the same metadata until the same round keeps queue
/// metadata equal.
proof fn lemma_queue_push_metas<T>(
    a: Seq<(u64, Seq<PendingSend<T>>)>,
    b: Seq<(u64, Seq<PendingSend<T>>)>,
    due: u64,
    x: PendingSend<T>,
    y: PendingSend<T>,
)
    requires
        queue_metas(a) == queue_metas(b),
        send_meta(x) == send_meta(y),
    ensures
        queue_metas(queue_push(a, due, x)) == queue_metas(queue_push(b, due, y)),
    decreases a.len(),
{
    assert(queue_metas(a).len() == a.len() && queue_metas(b).len() == b.len());
    lemma_send_metas_push(Seq::empty(), Seq::empty(), x, y);
    assert(Seq::<PendingSend<T>>::empty().push(x) =~= seq![x]);
    assert(Seq::<PendingSend<T>>::empty().push(y) =~= seq![y]);
    if a.len() == 0 {
        lemma_queue_metas_equal(seq![(due, seq![x])], seq![(due, seq![y])]);
    } else {
        lemma_queue_metas_at(a, b, 0);
        if a[0].0 == due {
            lemma_send_metas_push(a[0].1, b[0].1, x, y);
            let (qa, qb) = (a.update(0, (due, a[0].1.push(x))), b.update(0, (due, b[0].1.push(y))));
            assert forall|i: int| 0 <= i < qa.len() implies (#[trigger] qa[i]).0 == qb[i].0 && send_metas(qa[i].1)
                == send_metas(qb[i].1) by {
                if i > 0 {
                    lemma_queue_metas_at(a, b, i);
                }
            }
            lemma_queue_metas_equal(qa, qb);
        } else if a[0].0 > due {
            let (qa, qb) = (seq![(due, seq![x])] + a, seq![(due, seq![y])] + b);
            assert forall|i: int| 0 <= i < qa.len() implies (#[trigger] qa[i]).0 == qb[i].0 && send_metas(qa[i].1)
                == send_metas(qb[i].1) by {
                if i > 0 {
                    lemma_queue_metas_at(a, b, i - 1);
                }
            }
            lemma_queue_metas_equal(qa, qb);
        } else {
            assert forall|i: int| 0 <= i < a.len() - 1 implies (#[trigger] a.drop_first()[i]).0 == b.drop_first()[i].0
                && send_metas(a.drop_first()[i].1) == send_metas(b.drop_first()[i].1) by {
                lemma_queue_metas_at(a, b, i + 1);
            }
            lemma_queue_metas_equal(a.drop_first(), b.drop_first());
            lemma_queue_push_metas(a.drop_first(), b.drop_first(), due, x, y);
            let (ra, rb) = (queue_push(a.drop_first(), due, x), queue_push(b.drop_first(), due, y));
            assert(queue_metas(ra).len() == ra.len() && queue_metas(rb).len() == rb.len());
            let (qa, qb) = (seq![a[0]] + ra, seq![b[0]] + rb);
            assert forall|i: int| 0 <= i < qa.len() implies (#[trigger] qa[i]).0 == qb[i].0 && send_metas(qa[i].1)
                == send_metas(qb[i].1) by {
                if i > 0 {
                    lemma_queue_metas_at(ra, rb, i - 1);
                }
            }
            lemma_queue_metas_equal(qa, qb);
        }
    }
}

proof fn lemma_repeat_metas<T>(n: nat, x: PendingSend<T>, y: PendingSend<T>)
    requires
        send_meta(x) == send_meta(y),
    ensures
        send_metas(repeat(n, x)) == send_metas(repeat(n, y)),
{
    lemma_send_metas_equal(repeat(n, x), repeat(n, y));
}

/// The copies delivered now, of sends with the same metadata, have the same
/// metadata.
proof fn lemma_now_items_metas<T>(dues: Seq<Option<u64>>, a: Seq<PendingSend<T>>, b: Seq<PendingSend<T>>)
    requires
        send_metas(a) == send_metas(b),
        a.len() == dues.len(),
    ensures
        send_metas(now_items(dues, a)) == send_metas(now_items(dues, b)),
    decreases dues.len(),
{
    if dues.len() == 0 {
        lemma_send_metas_equal(now_items(dues, a), now_items(dues, b));
    } else {
        lemma_send_metas_drop_last(a, b);
        lemma_now_items_metas(dues.drop_last(), a.drop_last(), b.drop_last());
        if dues.last() is None {
            lemma_send_metas_push(
                now_items(dues.drop_last(), a.drop_last()),
                now_items(dues.drop_last(), b.drop_last()),
                a.last(),
                b.last(),
            );
        }
    }
}

/// Queueing the delayed copies of sends with the same metadata keeps queue
/// metadata equal.
proof fn lemma_queue_later_metas<T>(
    qa: Seq<(u64, Seq<PendingSend<T>>)>,
    qb: Seq<(u64, Seq<PendingSend<T>>)>,
    dues: Seq<Option<u64>>,
    a: Seq<PendingSend<T>>,
    b: Seq<PendingSend<T>>,
)
    requires
        queue_metas(qa) == queue_metas(qb),
        send_metas(a) == send_metas(b),
        a.len() == dues.len(),
    ensures
        queue_metas(queue_later(qa, dues, a)) == queue_metas(queue_later(qb, dues, b)),
    decreases dues.len(),
{
    if dues.len() > 0 {
        lemma_send_metas_drop_last(a, b);
        lemma_queue_later_metas(qa, qb, dues.drop_last(), a.drop_last(), b.drop_last());
        if let Some(due) = dues.last() {
            lemma_queue_push_metas(
                queue_later(qa, dues.drop_last(), a.drop_last()),
                queue_later(qb, dues.drop_last(), b.drop_last()),
                due,
                a.last(),
                b.last(),
            );
        }
    }
}

/// Networks that behave alike do the same to a message on a link.
proof fn lemma_outbound_same_network(
    net_a: NetworkModel,
    net_b: NetworkModel,
    state: u64,
    source: Seq<char>,
    target: Seq<char>,
    round: u64,
)
    requires
        same_network(net_a, net_b),
    ensures
        spec_outbound(net_a, state, source, target, round) == spec_outbound(net_b, state, source, target, round),
{
    lemma_same_network_blocks(net_a, net_b, source, target);
}

/// Networks that behave alike treat sends over the same links alike: the
/// same random source states and counts, and delivered and queued copies
/// with the same metadata.
proof fn lemma_pass_alike<T>(
    net_a: NetworkModel,
    net_b: NetworkModel,
    s0: u64,
    qa: Seq<(u64, Seq<PendingSend<T>>)>,
    qb: Seq<(u64, Seq<PendingSend<T>>)>,
    a: Seq<PendingSend<T>>,
    b: Seq<PendingSend<T>>,
    round: u64,
)
    requires
        same_network(net_a, net_b),
        send_metas(a) == send_metas(b),
        queue_metas(qa) == queue_metas(qb),
    ensures
        pass_state(net_a, s0, a, round) == pass_state(net_b, s0, b, round),
        pass_dropped(net_a, s0, a, round) == pass_dropped(net_b, s0, b, round),
        pass_duplicated(net_a, s0, a, round) == pass_duplicated(net_b, s0, b, round),
        pass_delayed(net_a, s0, a, round) == pass_delayed(net_b, s0, b, round),
        send_metas(pass_now(net_a, s0, a, round)) == send_metas(pass_now(net_b, s0, b, round)),
        queue_metas(pass_queue(net_a, s0, qa, a, round)) == queue_metas(pass_queue(net_b, s0, qb, b, round)),
    decreases a.len(),
{
    assert(send_metas(a).len() == a.len() && send_metas(b).len() == b.len());
    if a.len() == 0 {
        lemma_send_metas_equal(pass_now(net_a, s0, a, round), pass_now(net_b, s0, b, round));
    } else {
        lemma_send_metas_drop_last(a, b);
        lemma_pass_alike(net_a, net_b, s0, qa, qb, a.drop_last(), b.drop_last(), round);
        lemma_outbound_same_network(
            net_a,
            net_b,
            pass_state(net_a, s0, a.drop_last(), round),
            a.last().source@,
            a.last().target@,
            round,
        );
        assert(last_outbound(net_a, s0, a, round) == last_outbound(net_b, s0, b, round));
        let dues = last_outbound(net_a, s0, a, round).2;
        lemma_repeat_metas(dues.len(), a.last(), b.last());
        lemma_now_items_metas(dues, repeat(dues.len(), a.last()), repeat(dues.len(), b.last()));
        lemma_send_metas_concat(
            pass_now(net_a, s0, a.drop_last(), round),
            now_items(dues, repeat(dues.len(), a.last())),
        );
        lemma_send_metas_concat(
            pass_now(net_b, s0, b.drop_last(), round),
            now_items(dues, repeat(dues.len(), b.last())),
        );
        lemma_queue_later_metas(
            pass_queue(net_a, s0, qa, a.drop_last(), round),
            pass_queue(net_b, s0, qb, b.drop_last(), round),
            dues,
            repeat(dues.len(), a.last()),
            repeat(dues.len(), b.last()),
        );
    }
}

/// Queues with the same metadata have the same entries due by a round, and
/// their due and later parts have the same metadata.
proof fn lemma_due_metas<T>(qa: Seq<(u64, Seq<PendingSend<T>>)>, qb: Seq<(u64, Seq<PendingSend<T>>)>, round: u64)
    requires
        queue_metas(qa) == queue_metas(qb),
    ensures
        due_count(qa, round) == due_count(qb, round),
        send_metas(flatten(qa.take(due_count(qa, round) as int))) == send_metas(
            flatten(qb.take(due_count(qb, round) as int)),
        ),
        queue_metas(qa.skip(due_count(qa, round) as int)) == queue_metas(qb.skip(due_count(qb, round) as int)),
{
    lemma_due_count_metas(qa, qb, round);
    let d = due_count(qa, round) as int;
    lemma_due_count_bound(qa, round);
    assert forall|i: int| 0 <= i < qa.len() - d implies (#[trigger] qa.skip(d)[i]).0 == qb.skip(d)[i].0 && send_metas(
        qa.skip(d)[i].1,
    ) == send_metas(qb.skip(d)[i].1) by {
        lemma_queue_metas_at(qa, qb, i + d);
    }
    assert(qa.len() == qb.len()) by {
        assert(queue_metas(qa).len() == qa.len() && queue_metas(qb).len() == qb.len());
    }
    lemma_queue_metas_equal(qa.skip(d), qb.skip(d));
    assert forall|i: int| 0 <= i < d implies (#[trigger] qa.take(d)[i]).0 == qb.take(d)[i].0 && send_metas(
        qa.take(d)[i].1,
    ) == send_metas(qb.take(d)[i].1) by {
        lemma_queue_metas_at(qa, qb, i);
    }
    lemma_queue_metas_equal(qa.take(d), qb.take(d));
    lemma_flatten_metas(qa.take(d), qb.take(d));
}

proof fn lemma_due_count_bound<P>(q: Seq<(u64, Seq<P>)>, round: u64)
    ensures
        due_count(q, round) <= q.len(),
    decreases q.len(),
{
    if q.len() > 0 && q[0].0 <= round {
        lemma_due_count_bound(q.drop_first(), round);
    }
}

proof fn lemma_due_count_metas<T>(qa: Seq<(u64, Seq<PendingSend<T>>)>, qb: Seq<(u64, Seq<PendingSend<T>>)>, round: u64)
    requires
        queue_metas(qa) == queue_metas(qb),
    ensures
        due_count(qa, round) == due_count(qb, round),
    decreases qa.len(),
{
    assert(qa.len() == qb.len()) by {
        assert(queue_metas(qa).len() == qa.len() && queue_metas(qb).len() == qb.len());
    }
    if qa.len() > 0 {
        lemma_queue_metas_at(qa, qb, 0);
        if qa[0].0 <= round {
            assert forall|i: int| 0 <= i < qa.len() - 1 implies (#[trigger] qa.drop_first()[i]).0
                == qb.drop_first()[i].0 && send_metas(qa.drop_first()[i].1) == send_metas(qb.drop_first()[i].1) by {
                lemma_queue_metas_at(qa, qb, i + 1);
            }
            lemma_queue_metas_equal(qa.drop_first(), qb.drop_first());
            lemma_due_count_metas(qa.drop_first(), qb.drop_first(), round);
        }
    }
}

proof fn lemma_flatten_metas<T>(qa: Seq<(u64, Seq<PendingSend<T>>)>, qb: Seq<(u64, Seq<PendingSend<T>>)>)
    requires
        queue_metas(qa) == queue_metas(qb),
    ensures
        send_metas(flatten(qa)) == send_metas(flatten(qb)),
    decreases qa.len(),
{
    assert(qa.len() == qb.len()) by {
        assert(queue_metas(qa).len() == qa.len() && queue_metas(qb).len() == qb.len());
    }
    if qa.len() == 0 {
        lemma_send_metas_equal(flatten(qa), flatten(qb));
    } else {
        lemma_queue_metas_at(qa, qb, 0);
        assert forall|i: int| 0 <= i < qa.len() - 1 implies (#[trigger] qa.drop_first()[i]).0 == qb.drop_first()[i].0
            && send_metas(qa.drop_first()[i].1) == send_metas(qb.drop_first()[i].1) by {
            lemma_queue_metas_at(qa, qb, i + 1);
        }
        lemma_queue_metas_equal(qa.drop_first(), qb.drop_first());
        lemma_flatten_metas(qa.drop_first(), qb.drop_first());
        lemma_send_metas_concat(qa[0].1, flatten(qa.drop_first()));
        lemma_send_metas_concat(qb[0].1, flatten(qb.drop_first()));
    }
}

/// Sends collected from effects that are alike sends have the same metadata.
proof fn lemma_sends_from_alike<T>(
    source_a: NodeId,
    source_b: NodeId,
    a: Seq<Effect<GossipMessage<T>, ()>>,
    b: Seq<Effect<GossipMessage<T>, ()>>,
)
    requires
        source_a@ == source_b@,
        a.len() == b.len(),
        forall|i: int| 0 <= i < a.len() ==> #[trigger] sends_alike(a[i], b[i]),
    ensures
        send_metas(sends_from(source_a, a)) == send_metas(sends_from(source_b, b)),
    decreases a.len(),
{
    if a.len() == 0 {
        lemma_send_metas_equal(sends_from(source_a, a), sends_from(source_b, b));
    } else {
        assert forall|i: int| 0 <= i < a.len() - 1 implies #[trigger] sends_alike(a.drop_last()[i], b.drop_last()[i]) by {
            assert(sends_alike(a[i], b[i]));
        }
        lemma_sends_from_alike(source_a, source_b, a.drop_last(), b.drop_last());
        assert(sends_alike(a[a.len() - 1], b[b.len() - 1]));
        if let Effect::Send { target: ta, message: ma } = a.last() {
            if let Effect::Send { target: tb, message: mb } = b.last() {
                lemma_send_metas_push(
                    sends_from(source_a, a.drop_last()),
                    sends_from(source_b, b.drop_last()),
                    PendingSend { source: source_a, target: ta, message: ma },
                    PendingSend { source: source_b, target: tb, message: mb },
                );
            }
        }
    }
}

/// The sends of a round of nodes whose effects are alike sends have the same
/// metadata.
proof fn lemma_round_sends_alike<T>(
    names_a: Seq<NodeId>,
    names_b: Seq<NodeId>,
    a: Seq<Seq<Effect<GossipMessage<T>, ()>>>,
    b: Seq<Seq<Effect<GossipMessage<T>, ()>>>,
    k: int,
)
    requires
        same_names(names_a, names_b),
        k <= names_a.len(),
        0 <= k <= a.len(),
        a.len() == b.len(),
        forall|j: int| 0 <= j < a.len() ==> (#[trigger] a[j]).len() == b[j].len(),
        forall|j: int, i: int| 0 <= j < a.len() && 0 <= i < a[j].len() ==> #[trigger] sends_alike(a[j][i], b[j][i]),
    ensures
        send_metas(round_sends(names_a, a, k)) == send_metas(round_sends(names_b, b, k)),
    decreases k,
{
    if k == 0 {
        lemma_send_metas_equal(round_sends(names_a, a, k), round_sends(names_b, b, k));
    } else {
        lemma_round_sends_alike(names_a, names_b, a, b, k - 1);
        assert(a[k - 1].len() == b[k - 1].len());
        assert forall|i: int| 0 <= i < a[k - 1].len() implies #[trigger] sends_alike(a[k - 1][i], b[k - 1][i]) by {
            assert(sends_alike(a[k - 1][i], b[k - 1][i]));
        }
        assert(names_a[k - 1]@ == names_b[k - 1]@);
        lemma_sends_from_alike(names_a[k - 1], names_b[k - 1], a[k - 1], b[k - 1]);
        lemma_send_metas_concat(round_sends(names_a, a, k - 1), sends_from(names_a[k - 1], a[k - 1]));
        lemma_send_metas_concat(round_sends(names_b, b, k - 1), sends_from(names_b[k - 1], b[k - 1]));
    }
}

/// The messages addressed to a node among sends with the same metadata
/// carry rumors with the same metadata.
proof fn lemma_messages_to_alike<T>(a: Seq<PendingSend<T>>, b: Seq<PendingSend<T>>, name: Seq<char>)
    requires
        send_metas(a) == send_metas(b),
    ensures
        message_metas(messages_to(routes(a), name)) == message_metas(messages_to(routes(b), name)),
    decreases a.len(),
{
    assert(send_metas(a).len() == a.len() && send_metas(b).len() == b.len());
    if a.len() == 0 {
        assert(message_metas(messages_to(routes(a), name)) =~= message_metas(messages_to(routes(b), name)));
    } else {
        lemma_send_metas_drop_last(a, b);
        lemma_messages_to_alike(a.drop_last(), b.drop_last(), name);
        assert(routes(a).drop_last() =~= routes(a.drop_last()));
        assert(routes(b).drop_last() =~= routes(b.drop_last()));
        let (ra, rb) = (messages_to(routes(a.drop_last()), name), messages_to(routes(b.drop_last()), name));
        assert(routes(a).last() == (a.last().target, a.last().message));
        assert(routes(b).last() == (b.last().target, b.last().message));
        if a.last().target@ == name {
            let (xa, xb) = (ra.push(a.last().message), rb.push(b.last().message));
            assert(message_metas(ra).len() == ra.len() && message_metas(rb).len() == rb.len());
            assert forall|i: int| 0 <= i < xa.len() implies message_metas(xa)[i] == message_metas(xb)[i] by {
                if i < ra.len() {
                    assert(message_metas(ra)[i] == message_metas(rb)[i]);
                }
            }
            assert(message_metas(xa) =~= message_metas(xb));
        }
    }
}

/// Sends with the same metadata deliver the same number of messages to
/// each of the first `k` nodes.
proof fn lemma_delivered_alike<T>(
    names_a: Seq<NodeId>,
    names_b: Seq<NodeId>,
    a: Seq<PendingSend<T>>,
    b: Seq<PendingSend<T>>,
    k: int,
)
    requires
        same_names(names_a, names_b),
        k <= names_a.len(),
        send_metas(a) == send_metas(b),
    ensures
        delivered(names_a, a, k) == delivered(names_b, b, k),
    decreases k,
{
    if k > 0 {
        lemma_delivered_alike(names_a, names_b, a, b, k - 1);
        assert(names_a[k - 1]@ == names_b[k - 1]@);
        lemma_messages_to_alike(a, b, names_a[k - 1]@);
        let (ma, mb) = (messages_to(routes(a), names_a[k - 1]@), messages_to(routes(b), names_b[k - 1]@));
        assert(message_metas(ma).len() == ma.len() && message_metas(mb).len() == mb.len());
    }
}

/// The metadata of events paired with the names of their nodes.
pub open spec fn tagged_metas<T>(s: Seq<(NodeId, GossipEvent<T>)>) -> Seq<(Seq<char>, (MessageId, Seq<char>, Round))> {
    s.map_values(|p: (NodeId, GossipEvent<T>)| (p.0@, event_meta(p.1)))
}

/// Events of the nodes with the same metadata, tagged with the same names,
/// have the same metadata.
proof fn lemma_tagged_alike<T>(
    names_a: Seq<NodeId>,
    names_b: Seq<NodeId>,
    a: Seq<Seq<GossipEvent<T>>>,
    b: Seq<Seq<GossipEvent<T>>>,
    k: int,
)
    requires
        same_names(names_a, names_b),
        k <= names_a.len(),
        0 <= k <= a.len(),
        a.len() == b.len(),
        forall|j: int| 0 <= j < a.len() ==> #[trigger] event_metas(a[j]) == event_metas(b[j]),
    ensures
        tagged_metas(tagged(names_a, a, k)) == tagged_metas(tagged(names_b, b, k)),
    decreases k,
{
    if k == 0 {
        assert(tagged_metas(tagged(names_a, a, k)) =~= tagged_metas(tagged(names_b, b, k)));
    } else {
        lemma_tagged_alike(names_a, names_b, a, b, k - 1);
        assert(names_a[k - 1]@ == names_b[k - 1]@);
        let (ta, tb) = (tagged(names_a, a, k - 1), tagged(names_b, b, k - 1));
        let (ea, eb) = (a[k - 1], b[k - 1]);
        assert(event_metas(ea) == event_metas(eb));
        assert(event_metas(ea).len() == ea.len() && event_metas(eb).len() == eb.len());
        let (xa, xb) = (ea.map_values(|e: GossipEvent<T>| (names_a[k - 1], e)), eb.map_values(
            |e: GossipEvent<T>| (names_b[k - 1], e),
        ));
        assert(tagged_metas(ta).len() == ta.len() && tagged_metas(tb).len() == tb.len());
        assert forall|i: int| 0 <= i < ta.len() + xa.len() implies tagged_metas(ta + xa)[i] == tagged_metas(tb + xb)[i] by {
            if i < ta.len() {
                assert(tagged_metas(ta)[i] == tagged_metas(tb)[i]);
            } else {
                assert(event_metas(ea)[i - ta.len()] == event_metas(eb)[i - ta.len()]);
            }
        }
        assert(tagged_metas(ta + xa) =~= tagged_metas(tb + xb));
    }
}

/// Two clusters are alike: the same node names, networks that behave alike,
/// the same random sources, alike nodes, and delayed messages with the same
/// metadata due at the same rounds. A well-formed cluster is alike to itself.
pub open spec fn clusters_alike<T>(a: Cluster<T>, b: Cluster<T>) -> bool {
    &&& same_names(a.spec_names(), b.spec_names())
    &&& a.spec_len() == a.spec_names().len()
    &&& b.spec_len() == b.spec_names().len()
    &&& same_network(a.spec_network(), b.spec_network())
    &&& a.spec_network_rng() == b.spec_network_rng()
    &&& queue_metas(a.spec_delayed()) == queue_metas(b.spec_delayed())
    &&& forall|j: int|
        0 <= j < a.spec_names().len() ==> nodes_alike((#[trigger] a.spec_node(j)).spec_node(), b.spec_node(j).spec_node())
            && a.spec_node(j).spec_rng() == b.spec_node(j).spec_rng()
}

/// Two tick reports have the same counts, and events with the same metadata
/// from the same nodes, in the same order.
pub open spec fn tick_reports_alike<T>(a: TickReport<GossipEvent<T>>, b: TickReport<GossipEvent<T>>) -> bool {
    &&& a.spec_attempted() == b.spec_attempted()
    &&& a.spec_sent() == b.spec_sent()
    &&& a.spec_dropped() == b.spec_dropped()
    &&& a.spec_duplicated() == b.spec_duplicated()
    &&& a.spec_delayed() == b.spec_delayed()
    &&& a.spec_received() == b.spec_received()
    &&& tagged_metas(a.spec_events()) == tagged_metas(b.spec_events())
}

/// A well-formed cluster is alike to itself.
pub proof fn lemma_clusters_alike_refl<T>(c: Cluster<T>)
    requires
        c.wf(),
    ensures
        clusters_alike(c, c),
{
}

proof fn lemma_tick_trace_alike<T: Clone>(
    before_a: Cluster<T>,
    before_b: Cluster<T>,
    round: Round,
    mid_a: Seq<SimNode<T>>,
    effects_a: Seq<Seq<Effect<GossipMessage<T>, ()>>>,
    now_a: Seq<PendingSend<T>>,
    events_a: Seq<Seq<GossipEvent<T>>>,
    after_a: Cluster<T>,
    report_a: TickReport<GossipEvent<T>>,
    mid_b: Seq<SimNode<T>>,
    effects_b: Seq<Seq<Effect<GossipMessage<T>, ()>>>,
    now_b: Seq<PendingSend<T>>,
    events_b: Seq<Seq<GossipEvent<T>>>,
    after_b: Cluster<T>,
    report_b: TickReport<GossipEvent<T>>,
)
    requires
        clusters_alike(before_a, before_b),
        tick_trace(before_a, round, mid_a, effects_a, now_a, events_a, after_a, report_a),
        tick_trace(before_b, round, mid_b, effects_b, now_b, events_b, after_b, report_b),
    ensures
        clusters_alike(after_a, after_b),
        tick_reports_alike(report_a, report_b),
{
    let (names, names_b) = (before_a.spec_names(), before_b.spec_names());
    let n = names.len() as int;
    let (net, net_b) = (before_a.spec_network(), before_b.spec_network());
    let s0 = before_a.spec_network_rng().spec_state();
    let (qa, qb) = (before_a.spec_delayed(), before_b.spec_delayed());
    assert forall|j: int| 0 <= j < n implies nodes_alike(
        (#[trigger] mid_a[j]).spec_node(),
        mid_b[j].spec_node(),
    ) && mid_a[j].spec_rng() == mid_b[j].spec_rng() && effects_a[j].len() == effects_b[j].len() && forall|i: int|
        0 <= i < effects_a[j].len() ==> #[trigger] sends_alike(effects_a[j][i], effects_b[j][i]) by {
        assert(nodes_alike(before_a.spec_node(j).spec_node(), before_b.spec_node(j).spec_node()));
        assert(ticked(
            before_a.spec_node(j).spec_node(),
            before_a.spec_node(j).spec_rng(),
            round,
            mid_a[j].spec_node(),
            mid_a[j].spec_rng(),
            effects_a[j],
        ));
        assert(ticked(
            before_b.spec_node(j).spec_node(),
            before_b.spec_node(j).spec_rng(),
            round,
            mid_b[j].spec_node(),
            mid_b[j].spec_rng(),
            effects_b[j],
        ));
        lemma_ticked_alike(
            before_a.spec_node(j).spec_node(),
            before_b.spec_node(j).spec_node(),
            before_a.spec_node(j).spec_rng(),
            round,
            mid_a[j].spec_node(),
            mid_a[j].spec_rng(),
            effects_a[j],
            mid_b[j].spec_node(),
            mid_b[j].spec_rng(),
            effects_b[j],
        );
    }
    assert forall|j: int| 0 <= j < effects_a.len() implies (#[trigger] effects_a[j]).len() == effects_b[j].len() by {
        assert(nodes_alike(mid_a[j].spec_node(), mid_b[j].spec_node()));
    }
    assert forall|j: int, i: int| 0 <= j < effects_a.len() && 0 <= i < effects_a[j].len() implies #[trigger] sends_alike(
        effects_a[j][i],
        effects_b[j][i],
    ) by {
        assert(nodes_alike(mid_a[j].spec_node(), mid_b[j].spec_node()));
    }
    lemma_round_sends_alike(names, names_b, effects_a, effects_b, n);
    let (sa, sb) = (round_sends(names, effects_a, n), round_sends(names_b, effects_b, n));
    lemma_due_metas(qa, qb, round.value());
    let due = due_count(qa, round.value()) as int;
    lemma_pass_alike(net, net_b, s0, qa.skip(due), qb.skip(due), sa, sb, round.value());
    DeterministicRng::lemma_state_determines(after_a.spec_network_rng(), after_b.spec_network_rng());
    lemma_queue_like_metas(after_a.spec_delayed(), pass_queue(net, s0, qa.skip(due), sa, round.value()));
    lemma_queue_like_metas(after_b.spec_delayed(), pass_queue(net_b, s0, qb.skip(due), sb, round.value()));
    lemma_all_like_metas(now_a, flatten(qa.take(due)) + pass_now(net, s0, sa, round.value()));
    lemma_all_like_metas(now_b, flatten(qb.take(due)) + pass_now(net_b, s0, sb, round.value()));
    lemma_send_metas_concat(flatten(qa.take(due)), pass_now(net, s0, sa, round.value()));
    lemma_send_metas_concat(flatten(qb.take(due)), pass_now(net_b, s0, sb, round.value()));
    assert(send_metas(now_a) == send_metas(now_b));
    assert forall|j: int| 0 <= j < n implies nodes_alike(
        (#[trigger] after_a.spec_node(j)).spec_node(),
        after_b.spec_node(j).spec_node(),
    ) && after_a.spec_node(j).spec_rng() == after_b.spec_node(j).spec_rng() && event_metas(events_a[j]) == event_metas(
        events_b[j],
    ) by {
        lemma_messages_to_alike(now_a, now_b, names[j]@);
        assert(names[j]@ == names_b[j]@);
        assert(nodes_alike(mid_a[j].spec_node(), mid_b[j].spec_node()));
        lemma_received_all_alike(
            mid_a[j].spec_node(),
            mid_b[j].spec_node(),
            messages_to(routes(now_a), names[j]@),
            messages_to(routes(now_b), names_b[j]@),
            after_a.spec_node(j).spec_node(),
            after_b.spec_node(j).spec_node(),
            events_a[j],
            events_b[j],
        );
    }
    assert forall|j: int| 0 <= j < events_a.len() implies #[trigger] event_metas(events_a[j]) == event_metas(events_b[j]) by {
        assert(nodes_alike(after_a.spec_node(j).spec_node(), after_b.spec_node(j).spec_node()));
    }
    lemma_tagged_alike(names, names_b, events_a, events_b, n);
    lemma_delivered_alike(names, names_b, now_a, now_b, n);
    assert(send_metas(sa).len() == sa.len() && send_metas(sb).len() == sb.len());
    assert(send_metas(now_a).len() == now_a.len() && send_metas(now_b).len() == now_b.len());
}

/// Alike clusters ticked at the same round stay alike and report the same
/// counts and events.
pub proof fn lemma_ticked_once_alike<T: Clone>(
    before_a: Cluster<T>,
    before_b: Cluster<T>,
    round: Round,
    after_a: Cluster<T>,
    report_a: TickReport<GossipEvent<T>>,
    after_b: Cluster<T>,
    report_b: TickReport<GossipEvent<T>>,
)
    requires
        clusters_alike(before_a, before_b),
        ticked_once(before_a, round, after_a, report_a),
        ticked_once(before_b, round, after_b, report_b),
    ensures
        clusters_alike(after_a, after_b),
        tick_reports_alike(report_a, report_b),
{
    let (mid_a, effects_a, now_a, events_a) = choose|
        mid: Seq<SimNode<T>>,
        effects: Seq<Seq<Effect<GossipMessage<T>, ()>>>,
        now: Seq<PendingSend<T>>,
        events: Seq<Seq<GossipEvent<T>>>,
    | #[trigger] tick_trace(before_a, round, mid, effects, now, events, after_a, report_a);
    let (mid_b, effects_b, now_b, events_b) = choose|
        mid: Seq<SimNode<T>>,
        effects: Seq<Seq<Effect<GossipMessage<T>, ()>>>,
        now: Seq<PendingSend<T>>,
        events: Seq<Seq<GossipEvent<T>>>,
    | #[trigger] tick_trace(before_b, round, mid, effects, now, events, after_b, report_b);
    lemma_tick_trace_alike(
        before_a,
        before_b,
        round,
        mid_a,
        effects_a,
        now_a,
        events_a,
        after_a,
        report_a,
        mid_b,
        effects_b,
        now_b,
        events_b,
        after_b,
        report_b,
    );
}

/// In alike clusters, as many nodes know each rumor.
pub proof fn lemma_alike_reach<T>(a: Cluster<T>, b: Cluster<T>, id: MessageId)
    requires
        clusters_alike(a, b),
    ensures
        a.spec_reach(id) == b.spec_reach(id),
{
    assert forall|j: int| 0 <= j < a.spec_len() implies has_id((#[trigger] a.spec_node(j)).spec_node().spec_rumors(), id)
        == has_id(b.spec_node(j).spec_node().spec_rumors(), id) by {
        assert(nodes_alike(a.spec_node(j).spec_node(), b.spec_node(j).spec_node()));
        lemma_has_id_metas(a.spec_node(j).spec_node().spec_rumors(), b.spec_node(j).spec_node().spec_rumors(), id);
    }
    a.lemma_reach_from_nodes(b, id);
}

proof fn lemma_run_trace_alike<T: Clone>(
    rounds_a: Seq<Round>,
    states_a: Seq<Cluster<T>>,
    reports_a: Seq<TickReport<GossipEvent<T>>>,
    rounds_b: Seq<Round>,
    states_b: Seq<Cluster<T>>,
    reports_b: Seq<TickReport<GossipEvent<T>>>,
    k: int,
)
    requires
        run_trace(rounds_a, states_a, reports_a),
        run_trace(rounds_b, states_b, reports_b),
        clusters_alike(states_a[0], states_b[0]),
        0 <= k <= rounds_a.len(),
        k <= rounds_b.len(),
        forall|i: int| 0 <= i < k ==> #[trigger] rounds_a[i] == rounds_b[i],
    ensures
        clusters_alike(states_a[k], states_b[k]),
        forall|i: int| 0 <= i < k ==> #[trigger] tick_reports_alike(reports_a[i], reports_b[i]),
    decreases k,
{
    if k > 0 {
        lemma_run_trace_alike(rounds_a, states_a, reports_a, rounds_b, states_b, reports_b, k - 1);
        let i = k - 1;
        assert(ticked_once(states_a[i], rounds_a[i], states_a[i + 1], reports_a[i]));
        assert(ticked_once(states_b[i], rounds_b[i], states_b[i + 1], reports_b[i]));
        assert(rounds_a[i] == rounds_b[i]);
        lemma_ticked_once_alike(
            states_a[i],
            states_b[i],
            rounds_a[i],
            states_a[i + 1],
            reports_a[i],
            states_b[i + 1],
            reports_b[i],
        );
    }
}

proof fn lemma_sat_total_alike<E>(a: Seq<TickReport<E>>, b: Seq<TickReport<E>>, count: spec_fn(TickReport<E>) -> usize)
    requires
        a.len() == b.len(),
        forall|i: int| 0 <= i < a.len() ==> #[trigger] count(a[i]) == count(b[i]),
    ensures
        sat_total(a, count) == sat_total(b, count),
    decreases a.len(),
{
    if a.len() > 0 {
        assert forall|i: int| 0 <= i < a.len() - 1 implies #[trigger] count(a.drop_last()[i]) == count(b.drop_last()[i]) by {
            assert(count(a[i]) == count(b[i]));
        }
        lemma_sat_total_alike(a.drop_last(), b.drop_last(), count);
        assert(count(a[a.len() - 1]) == count(b[b.len() - 1]));
    }
}

proof fn lemma_run_events_alike<T>(a: Seq<TickReport<GossipEvent<T>>>, b: Seq<TickReport<GossipEvent<T>>>)
    requires
        a.len() == b.len(),
        forall|i: int| 0 <= i < a.len() ==> #[trigger] tick_reports_alike(a[i], b[i]),
    ensures
        run_events(a).len() == run_events(b).len(),
    decreases a.len(),
{
    if a.len() > 0 {
        assert forall|i: int| 0 <= i < a.len() - 1 implies #[trigger] tick_reports_alike(a.drop_last()[i], b.drop_last()[i]) by {
            assert(tick_reports_alike(a[i], b[i]));
        }
        lemma_run_events_alike(a.drop_last(), b.drop_last());
        let (ea, eb) = (a.last().spec_events(), b.last().spec_events());
        assert(tick_reports_alike(a[a.len() - 1], b[b.len() - 1]));
        assert(tagged_metas(ea).len() == ea.len() && tagged_metas(eb).len() == eb.len());
    }
}

/// Repeatability: running alike clusters (the same well-formed cluster, in
/// particular) until a rumor reaches `target_reach` nodes, for at most
/// `max_rounds` rounds, runs the same number of rounds, gives the same
/// report, and ends in alike clusters.
pub proof fn lemma_reach_run_repeatable<T: Clone>(
    before_a: Cluster<T>,
    before_b: Cluster<T>,
    rumor_id: MessageId,
    target_reach: usize,
    max_rounds: u64,
    report_a: ReachReport,
    after_a: Cluster<T>,
    report_b: ReachReport,
    after_b: Cluster<T>,
)
    requires
        clusters_alike(before_a, before_b),
        reach_run(before_a, rumor_id, target_reach, max_rounds, report_a, after_a),
        reach_run(before_b, rumor_id, target_reach, max_rounds, report_b, after_b),
    ensures
        report_a == report_b,
        clusters_alike(after_a, after_b),
{
    let na = report_a.spec_rounds_run() as nat;
    let nb = report_b.spec_rounds_run() as nat;
    let (states_a, reports_a) = choose|states: Seq<Cluster<T>>, reports: Seq<TickReport<GossipEvent<T>>>|
        #[trigger] run_trace(rounds_from(0, na), states, reports) && states[0] == before_a && states.last() == after_a
            && (forall|i: int| 0 <= i < reports.len() ==> (#[trigger] states[i]).spec_reach(rumor_id) < target_reach)
            && {
            &&& report_a.spec_attempted() == sat_total(reports, |t: TickReport<GossipEvent<T>>| t.spec_attempted())
            &&& report_a.spec_sent() == sat_total(reports, |t: TickReport<GossipEvent<T>>| t.spec_sent())
            &&& report_a.spec_dropped() == sat_total(reports, |t: TickReport<GossipEvent<T>>| t.spec_dropped())
            &&& report_a.spec_duplicated() == sat_total(reports, |t: TickReport<GossipEvent<T>>| t.spec_duplicated())
            &&& report_a.spec_delayed() == sat_total(reports, |t: TickReport<GossipEvent<T>>| t.spec_delayed())
            &&& report_a.spec_received() == sat_total(reports, |t: TickReport<GossipEvent<T>>| t.spec_received())
            &&& report_a.spec_new_rumors() == run_events(reports).len()
        };
    let (states_b, reports_b) = choose|states: Seq<Cluster<T>>, reports: Seq<TickReport<GossipEvent<T>>>|
        #[trigger] run_trace(rounds_from(0, nb), states, reports) && states[0] == before_b && states.last() == after_b
            && (forall|i: int| 0 <= i < reports.len() ==> (#[trigger] states[i]).spec_reach(rumor_id) < target_reach)
            && {
            &&& report_b.spec_attempted() == sat_total(reports, |t: TickReport<GossipEvent<T>>| t.spec_attempted())
            &&& report_b.spec_sent() == sat_total(reports, |t: TickReport<GossipEvent<T>>| t.spec_sent())
            &&& report_b.spec_dropped() == sat_total(reports, |t: TickReport<GossipEvent<T>>| t.spec_dropped())
            &&& report_b.spec_duplicated() == sat_total(reports, |t: TickReport<GossipEvent<T>>| t.spec_duplicated())
            &&& report_b.spec_delayed() == sat_total(reports, |t: TickReport<GossipEvent<T>>| t.spec_delayed())
            &&& report_b.spec_received() == sat_total(reports, |t: TickReport<GossipEvent<T>>| t.spec_received())
            &&& report_b.spec_new_rumors() == run_events(reports).len()
        };
    let (ra, rb) = (rounds_from(0, na), rounds_from(0, nb));
    let m = if na <= nb { na as int } else { nb as int };
    assert forall|i: int| 0 <= i < m implies #[trigger] ra[i] == rb[i] by {
    }
    lemma_run_trace_alike(ra, states_a, reports_a, rb, states_b, reports_b, m);
    lemma_alike_reach(states_a[m], states_b[m], rumor_id);
    if na < nb {
        assert(states_a[m] == after_a);
        assert(states_b[m].spec_reach(rumor_id) < target_reach);
    }
    if nb < na {
        assert(states_b[m] == after_b);
        assert(states_a[m].spec_reach(rumor_id) < target_reach);
    }
    assert(na == nb);
    assert(states_a[m] == after_a && states_b[m] == after_b);
    assert(reports_a.len() == m && reports_b.len() == m);
    assert forall|i: int| 0 <= i < m implies #[trigger] tick_reports_alike(reports_a[i], reports_b[i]) by {
    }
    let count = |t: TickReport<GossipEvent<T>>| t.spec_attempted();
    assert forall|i: int| 0 <= i < m implies #[trigger] count(reports_a[i]) == count(reports_b[i]) by {
        assert(tick_reports_alike(reports_a[i], reports_b[i]));
    }
    lemma_sat_total_alike(reports_a, reports_b, count);
    let count = |t: TickReport<GossipEvent<T>>| t.spec_sent();
    assert forall|i: int| 0 <= i < m implies #[trigger] count(reports_a[i]) == count(reports_b[i]) by {
        assert(tick_reports_alike(reports_a[i], reports_b[i]));
    }
    lemma_sat_total_alike(reports_a, reports_b, count);
    let count = |t: TickReport<GossipEvent<T>>| t.spec_dropped();
    assert forall|i: int| 0 <= i < m implies #[trigger] count(reports_a[i]) == count(reports_b[i]) by {
        assert(tick_reports_alike(reports_a[i], reports_b[i]));
    }
    lemma_sat_total_alike(reports_a, reports_b, count);
    let count = |t: TickReport<GossipEvent<T>>| t.spec_duplicated();
    assert forall|i: int| 0 <= i < m implies #[trigger] count(reports_a[i]) == count(reports_b[i]) by {
        assert(tick_reports_alike(reports_a[i], reports_b[i]));
    }
    lemma_sat_total_alike(reports_a, reports_b, count);
    let count = |t: TickReport<GossipEvent<T>>| t.spec_delayed();
    assert forall|i: int| 0 <= i < m implies #[trigger] count(reports_a[i]) == count(reports_b[i]) by {
        assert(tick_reports_alike(reports_a[i], reports_b[i]));
    }
    lemma_sat_total_alike(reports_a, reports_b, count);
    let count = |t: TickReport<GossipEvent<T>>| t.spec_received();
    assert forall|i: int| 0 <= i < m implies #[trigger] count(reports_a[i]) == count(reports_b[i]) by {
        assert(tick_reports_alike(reports_a[i], reports_b[i]));
    }
    lemma_sat_total_alike(reports_a, reports_b, count);
    lemma_run_events_alike(reports_a, reports_b);
    ReachReport::lemma_determined(report_a, report_b);
}

/// Clusters spawned with the same configuration and seed from node lists
/// naming the same nodes, over networks that behave alike, are alike.
pub proof fn lemma_spawned_alike<T>(
    a: Cluster<T>,
    b: Cluster<T>,
    config: GossipConfig,
    ids_a: Seq<NodeId>,
    ids_b: Seq<NodeId>,
    seed: u64,
)
    requires
        spawned(a, config, ids_a, seed),
        spawned(b, config, ids_b, seed),
        same_names(ids_a, ids_b),
        same_network(a.spec_network(), b.spec_network()),
    ensures
        clusters_alike(a, b),
{
    assert forall|name: Seq<char>| names_node(a.spec_names(), name) <==> names_node(b.spec_names(), name) by {
        if names_node(ids_a, name) {
            let i = choose|i: int| 0 <= i < ids_a.len() && #[trigger] ids_a[i]@ == name;
            assert(ids_b[i]@ == name);
        }
        if names_node(ids_b, name) {
            let i = choose|i: int| 0 <= i < ids_b.len() && #[trigger] ids_b[i]@ == name;
            assert(ids_a[i]@ == name);
        }
    }
    lemma_sorted_same_names(a.spec_names(), b.spec_names());
    DeterministicRng::lemma_state_determines(a.spec_network_rng(), b.spec_network_rng());
    assert(queue_metas(a.spec_delayed()) =~= queue_metas(b.spec_delayed()));
    assert forall|j: int| 0 <= j < a.spec_names().len() implies nodes_alike(
        (#[trigger] a.spec_node(j)).spec_node(),
        b.spec_node(j).spec_node(),
    ) && a.spec_node(j).spec_rng() == b.spec_node(j).spec_rng() by {
        let name = a.spec_names()[j]@;
        assert(b.spec_names()[j]@ == name);
        lemma_last_named_same(ids_a, ids_b, name);
        let i = last_named(ids_a, name);
        assert(starts_as(a.spec_node(j), config, ids_a, seed, i));
        assert(starts_as(b.spec_node(j), config, ids_b, seed, i));
        assert(ids_a[i]@ == ids_b[i]@);
        lemma_other_peers_names(ids_a[i]@, ids_a, ids_b);
        let (na, nb) = (a.spec_node(j).spec_node(), b.spec_node(j).spec_node());
        assert(metas(na.spec_rumors()) =~= metas(nb.spec_rumors()));
        DeterministicRng::lemma_state_determines(a.spec_node(j).spec_rng(), b.spec_node(j).spec_rng());
    }
}

/// Inserting rumors with the same metadata at the node of the same name of
/// alike well-formed clusters has the same outcome and leaves them alike.
pub proof fn lemma_inserted_alike<T>(
    before_a: Cluster<T>,
    before_b: Cluster<T>,
    after_a: Cluster<T>,
    after_b: Cluster<T>,
    name: Seq<char>,
    rumor_a: Rumor<T>,
    rumor_b: Rumor<T>,
    result_a: Result<InsertOutcome, ClusterError>,
    result_b: Result<InsertOutcome, ClusterError>,
)
    requires
        clusters_alike(before_a, before_b),
        before_a.wf(),
        before_b.wf(),
        rumor_meta(rumor_a) == rumor_meta(rumor_b),
        insert_result(before_a, after_a, name, rumor_a, result_a),
        insert_result(before_b, after_b, name, rumor_b, result_b),
    ensures
        clusters_alike(after_a, after_b),
        result_a == result_b,
{
    let ja = choose|j: int|
        0 <= j < before_a.spec_names().len() && before_a.spec_names()[j]@ == name && #[trigger] inserted_at(
            before_a,
            after_a,
            j,
            rumor_a,
            result_a->Ok_0,
        );
    let jb = choose|j: int|
        0 <= j < before_b.spec_names().len() && before_b.spec_names()[j]@ == name && #[trigger] inserted_at(
            before_b,
            after_b,
            j,
            rumor_b,
            result_b->Ok_0,
        );
    assert(before_b.spec_names()[ja]@ == name);
    if ja != jb {
        lemma_sorted_distinct(before_b.spec_names(), ja, jb);
    }
    let (old_a, old_b) = (before_a.spec_node(ja).spec_node(), before_b.spec_node(ja).spec_node());
    assert(nodes_alike(old_a, old_b));
    lemma_insert_metas(old_a.spec_rumors(), old_b.spec_rumors(), old_a.spec_config().spec_max_rumors(), rumor_a, rumor_b);
    assert forall|k: int| 0 <= k < after_a.spec_names().len() implies nodes_alike(
        (#[trigger] after_a.spec_node(k)).spec_node(),
        after_b.spec_node(k).spec_node(),
    ) && after_a.spec_node(k).spec_rng() == after_b.spec_node(k).spec_rng() by {
        if k != ja {
            assert(after_a.spec_node(k) == before_a.spec_node(k));
            assert(after_b.spec_node(k) == before_b.spec_node(k));
            assert(nodes_alike(before_a.spec_node(k).spec_node(), before_b.spec_node(k).spec_node()));
        }
    }
}

} // verus!
