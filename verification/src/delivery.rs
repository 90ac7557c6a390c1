//! What the simulated network does to the messages of one round: losing,
//! duplicating and delaying them, and the queue of delayed messages.

use vstd::prelude::*;

use crate::identity::NodeId;
use crate::message::GossipMessage;
use crate::network::{lemma_roll_draw, roll, spec_roll, Chance, NetworkModel};
use crate::rng::{lcg_step, DeterministicRng, RandomSource};
use crate::sim::names_node;
use crate::time::Round;

verus! {

/// A message on its way from one node of a cluster to another.
#[derive(Debug)]
pub struct PendingSend<T> {
    /// The sending node.
    pub source: NodeId,
    /// The receiving node.
    pub target: NodeId,
    /// The message.
    pub message: GossipMessage<T>,
}

impl<T: Clone> PendingSend<T> {
    /// `self` goes over the link of `original` and carries its message or a
    /// copy of it.
    pub open spec fn is_like(self, original: PendingSend<T>) -> bool {
        &&& self.source == original.source
        &&& self.target == original.target
        &&& (self.message == original.message || self.message.is_copy_of(original.message))
    }
}

impl<T: Clone> Clone for PendingSend<T> {
    fn clone(&self) -> (p: Self)
        ensures
            p.is_like(*self),
    {
        PendingSend { source: self.source.clone(), target: self.target.clone(), message: self.message.clone() }
    }
}

/// Each send of `actual` is like the send of `expected` at the same position.
pub open spec fn all_like<T: Clone>(actual: Seq<PendingSend<T>>, expected: Seq<PendingSend<T>>) -> bool {
    &&& actual.len() == expected.len()
    &&& forall|i: int| 0 <= i < expected.len() ==> #[trigger] actual[i].is_like(expected[i])
}

/// The abstract value of a queue of delayed messages: entries of a due round
/// and the messages due then, in the order they were delayed.
pub open spec fn queue_view<P>(q: Seq<(u64, Vec<P>)>) -> Seq<(u64, Seq<P>)> {
    Seq::new(q.len(), |i: int| (q[i].0, q[i].1@))
}

/// Two queues have the same due rounds, and each entry of `actual` is like
/// the entry of `expected` at the same position.
pub open spec fn queue_like<T: Clone>(
    actual: Seq<(u64, Seq<PendingSend<T>>)>,
    expected: Seq<(u64, Seq<PendingSend<T>>)>,
) -> bool {
    &&& actual.len() == expected.len()
    &&& forall|i: int|
        0 <= i < expected.len() ==> (#[trigger] actual[i]).0 == expected[i].0 && all_like(
            actual[i].1,
            expected[i].1,
        )
}

/// The due rounds of the queue strictly increase and no entry is empty.
pub open spec fn queue_wf<P>(q: Seq<(u64, Seq<P>)>) -> bool {
    &&& forall|i: int, j: int| 0 <= i < j < q.len() ==> q[i].0 < q[j].0
    &&& forall|i: int| 0 <= i < q.len() ==> (#[trigger] q[i]).1.len() > 0
}

/// `q` after `p` was delayed until round `due`: added last to the entry of
/// that round, or in a new entry at its place in round order.
pub open spec fn queue_push<P>(q: Seq<(u64, Seq<P>)>, due: u64, p: P) -> Seq<(u64, Seq<P>)>
    decreases q.len(),
{
    if q.len() == 0 {
        seq![(due, seq![p])]
    } else if q[0].0 == due {
        q.update(0, (due, q[0].1.push(p)))
    } else if q[0].0 > due {
        seq![(due, seq![p])] + q
    } else {
        seq![q[0]] + queue_push(q.drop_first(), due, p)
    }
}

/// The number of leading entries of `q` due at `round` or before.
pub open spec fn due_count<P>(q: Seq<(u64, Seq<P>)>, round: u64) -> nat
    decreases q.len(),
{
    if q.len() == 0 || q[0].0 > round {
        0
    } else {
        1 + due_count(q.drop_first(), round)
    }
}

/// The messages of the entries of `q`, entry after entry.
pub open spec fn flatten<P>(q: Seq<(u64, Seq<P>)>) -> Seq<P>
    decreases q.len(),
{
    if q.len() == 0 {
        Seq::empty()
    } else {
        q[0].1 + flatten(q.drop_first())
    }
}

/// The number of messages in `q`.
pub open spec fn queued_count<P>(q: Seq<(u64, Seq<P>)>) -> nat {
    flatten(q).len()
}

/// The round at which a copy sent at `round` is due, if the network delays it,
/// with the random source in state `state`; and the state afterwards.
pub open spec fn spec_copy_due(net: NetworkModel, state: u64, round: u64) -> (Option<u64>, u64) {
    if net.spec_max_delay_rounds() == 0 {
        (None, state)
    } else {
        let (delayed, s1) = spec_roll(net.spec_delay(), state);
        if !delayed {
            (None, s1)
        } else {
            let v = lcg_step(s1);
            let wait = v % net.spec_max_delay_rounds() + 1;
            (Some(if round + wait <= u64::MAX { (round + wait) as u64 } else { u64::MAX }), v)
        }
    }
}

/// What the network does to a message it does not drop, with its random
/// source in state `state`: whether it is duplicated, the due round of each
/// copy (`None`: delivered this round), and the state of the source afterwards.
pub open spec fn spec_kept(net: NetworkModel, state: u64, round: u64) -> (bool, Seq<Option<u64>>, u64) {
    let (twice, s1) = spec_roll(net.spec_duplicate(), state);
    let (first, s2) = spec_copy_due(net, s1, round);
    if twice {
        let (second, s3) = spec_copy_due(net, s2, round);
        (true, seq![first, second], s3)
    } else {
        (false, seq![first], s2)
    }
}

/// What the network does to one message sent from `source` to `target` at
/// `round`, with its random source in state `state`: whether it is dropped,
/// whether it is duplicated, the due round of each copy that goes on (`None`:
/// delivered this round), and the state of the random source afterwards.
///
/// A message over a cut link is dropped without drawing anything.
pub open spec fn spec_outbound(net: NetworkModel, state: u64, source: Seq<char>, target: Seq<char>, round: u64) -> (
    bool,
    bool,
    Seq<Option<u64>>,
    u64,
) {
    if net.spec_blocks(source, target) {
        (true, false, Seq::empty(), state)
    } else {
        let (lost, s1) = spec_roll(net.spec_loss(), state);
        if lost {
            (true, false, Seq::empty(), s1)
        } else {
            let (twice, dues, s2) = spec_kept(net, s1, round);
            (false, twice, dues, s2)
        }
    }
}

/// The copies delivered this round, given the due round of each copy and the
/// copies themselves.
pub open spec fn now_items<P>(dues: Seq<Option<u64>>, items: Seq<P>) -> Seq<P>
    decreases dues.len(),
{
    if dues.len() == 0 {
        Seq::empty()
    } else {
        let rest = now_items(dues.drop_last(), items.drop_last());
        if dues.last() is None {
            rest.push(items.last())
        } else {
            rest
        }
    }
}

/// The number of copies delayed, given the due round of each copy.
pub open spec fn later_count(dues: Seq<Option<u64>>) -> nat
    decreases dues.len(),
{
    if dues.len() == 0 {
        0
    } else {
        later_count(dues.drop_last()) + if dues.last() is Some { 1nat } else { 0nat }
    }
}

/// `q` after the delayed copies were queued, given the due round of each copy
/// and the copies themselves.
pub open spec fn queue_later<P>(q: Seq<(u64, Seq<P>)>, dues: Seq<Option<u64>>, items: Seq<P>) -> Seq<(u64, Seq<P>)>
    decreases dues.len(),
{
    if dues.len() == 0 {
        q
    } else {
        let rest = queue_later(q, dues.drop_last(), items.drop_last());
        match dues.last() {
            Some(due) => queue_push(rest, due, items.last()),
            None => rest,
        }
    }
}

/// `n` times `p`.
pub open spec fn repeat<P>(n: nat, p: P) -> Seq<P> {
    Seq::new(n, |i: int| p)
}

/// What the network does to the last of `sends`, after the others.
pub open spec fn last_outbound<T>(net: NetworkModel, s0: u64, sends: Seq<PendingSend<T>>, round: u64) -> (
    bool,
    bool,
    Seq<Option<u64>>,
    u64,
)
    recommends
        sends.len() > 0,
    decreases sends.len(), 0nat,
{
    if sends.len() == 0 {
        (false, false, Seq::empty(), s0)
    } else {
        spec_outbound(
            net,
            pass_state(net, s0, sends.drop_last(), round),
            sends.last().source@,
            sends.last().target@,
            round,
        )
    }
}

/// The state of the network's random source after it handled `sends`, one
/// after another, starting in state `s0`.
pub open spec fn pass_state<T>(net: NetworkModel, s0: u64, sends: Seq<PendingSend<T>>, round: u64) -> u64
    decreases sends.len(), 1nat,
{
    if sends.len() == 0 {
        s0
    } else {
        last_outbound(net, s0, sends, round).3
    }
}

/// The number of `sends` the network drops.
pub open spec fn pass_dropped<T>(net: NetworkModel, s0: u64, sends: Seq<PendingSend<T>>, round: u64) -> nat
    decreases sends.len(),
{
    if sends.len() == 0 {
        0
    } else {
        pass_dropped(net, s0, sends.drop_last(), round) + if last_outbound(net, s0, sends, round).0 {
            1nat
        } else {
            0nat
        }
    }
}

/// The number of `sends` the network duplicates.
pub open spec fn pass_duplicated<T>(net: NetworkModel, s0: u64, sends: Seq<PendingSend<T>>, round: u64) -> nat
    decreases sends.len(),
{
    if sends.len() == 0 {
        0
    } else {
        pass_duplicated(net, s0, sends.drop_last(), round) + if last_outbound(net, s0, sends, round).1 {
            1nat
        } else {
            0nat
        }
    }
}

/// The number of copies of `sends` the network delays.
pub open spec fn pass_delayed<T>(net: NetworkModel, s0: u64, sends: Seq<PendingSend<T>>, round: u64) -> nat
    decreases sends.len(),
{
    if sends.len() == 0 {
        0
    } else {
        pass_delayed(net, s0, sends.drop_last(), round) + later_count(last_outbound(net, s0, sends, round).2)
    }
}

/// The copies of `sends` the network delivers this round, in order.
pub open spec fn pass_now<T>(net: NetworkModel, s0: u64, sends: Seq<PendingSend<T>>, round: u64) -> Seq<
    PendingSend<T>,
>
    decreases sends.len(),
{
    if sends.len() == 0 {
        Seq::empty()
    } else {
        pass_now(net, s0, sends.drop_last(), round) + now_items(
            last_outbound(net, s0, sends, round).2,
            repeat(last_outbound(net, s0, sends, round).2.len(), sends.last()),
        )
    }
}

/// The queue `q0` after the network delayed copies of `sends`.
pub open spec fn pass_queue<T>(
    net: NetworkModel,
    s0: u64,
    q0: Seq<(u64, Seq<PendingSend<T>>)>,
    sends: Seq<PendingSend<T>>,
    round: u64,
) -> Seq<(u64, Seq<PendingSend<T>>)>
    decreases sends.len(),
{
    if sends.len() == 0 {
        q0
    } else {
        queue_later(
            pass_queue(net, s0, q0, sends.drop_last(), round),
            last_outbound(net, s0, sends, round).2,
            repeat(last_outbound(net, s0, sends, round).2.len(), sends.last()),
        )
    }
}

proof fn lemma_queue_push_prefix<P>(q: Seq<(u64, Seq<P>)>, due: u64, p: P, i: int)
    requires
        0 <= i <= q.len(),
        forall|j: int| 0 <= j < i ==> q[j].0 < due,
    ensures
        queue_push(q, due, p) == q.take(i) + queue_push(q.skip(i), due, p),
    decreases i,
{
    if i == 0 {
        assert(q.skip(0) =~= q);
        assert(q.take(0) + queue_push(q, due, p) =~= queue_push(q, due, p));
    } else {
        lemma_queue_push_prefix(q.drop_first(), due, p, i - 1);
        assert(q.drop_first().skip(i - 1) =~= q.skip(i));
        assert(seq![q[0]] + q.drop_first().take(i - 1) =~= q.take(i));
        assert(seq![q[0]] + (q.drop_first().take(i - 1) + queue_push(q.skip(i), due, p)) =~= q.take(i)
            + queue_push(q.skip(i), due, p));
    }
}

proof fn lemma_queue_push_above<P>(q: Seq<(u64, Seq<P>)>, due: u64, p: P, m: u64)
    requires
        forall|j: int| 0 <= j < q.len() ==> q[j].0 > m,
        due > m,
    ensures
        forall|j: int| 0 <= j < queue_push(q, due, p).len() ==> (#[trigger] queue_push(q, due, p)[j]).0 > m,
    decreases q.len(),
{
    if q.len() > 0 && q[0].0 < due {
        lemma_queue_push_above(q.drop_first(), due, p, m);
        let r = queue_push(q, due, p);
        assert forall|j: int| 0 <= j < r.len() implies (#[trigger] r[j]).0 > m by {
            if j > 0 {
                assert(r[j] == queue_push(q.drop_first(), due, p)[j - 1]);
            }
        }
    }
}

proof fn lemma_queue_push_wf<P>(q: Seq<(u64, Seq<P>)>, due: u64, p: P)
    requires
        queue_wf(q),
    ensures
        queue_wf(queue_push(q, due, p)),
    decreases q.len(),
{
    let r = queue_push(q, due, p);
    if q.len() == 0 {
    } else if q[0].0 == due {
        assert forall|i: int, j: int| 0 <= i < j < r.len() implies r[i].0 < r[j].0 by {
            assert(q[i].0 < q[j].0);
        }
        assert forall|i: int| 0 <= i < r.len() implies (#[trigger] r[i]).1.len() > 0 by {
            assert(q[i].1.len() > 0);
        }
    } else if q[0].0 > due {
        assert forall|i: int, j: int| 0 <= i < j < r.len() implies r[i].0 < r[j].0 by {
            if i > 0 {
                assert(q[i - 1].0 < q[j - 1].0);
            } else {
                assert(q[0].0 <= q[j - 1].0);
            }
        }
        assert forall|i: int| 0 <= i < r.len() implies (#[trigger] r[i]).1.len() > 0 by {
            if i > 0 {
                assert(q[i - 1].1.len() > 0);
            }
        }
    } else {
        let t = q.drop_first();
        assert(queue_wf(t)) by {
            assert forall|i: int, j: int| 0 <= i < j < t.len() implies t[i].0 < t[j].0 by {
                assert(q[i + 1].0 < q[j + 1].0);
            }
            assert forall|i: int| 0 <= i < t.len() implies (#[trigger] t[i]).1.len() > 0 by {
                assert(q[i + 1].1.len() > 0);
            }
        }
        lemma_queue_push_wf(t, due, p);
        assert forall|j: int| 0 <= j < t.len() implies t[j].0 > q[0].0 by {
            assert(q[0].0 < q[j + 1].0);
        }
        lemma_queue_push_above(t, due, p, q[0].0);
        let rest = queue_push(t, due, p);
        assert forall|i: int, j: int| 0 <= i < j < r.len() implies r[i].0 < r[j].0 by {
            assert(r[j] == rest[j - 1]);
            if i > 0 {
                assert(r[i] == rest[i - 1]);
            }
        }
        assert forall|i: int| 0 <= i < r.len() implies (#[trigger] r[i]).1.len() > 0 by {
            if i > 0 {
                assert(r[i] == rest[i - 1]);
            } else {
                assert(q[0].1.len() > 0);
            }
        }
    }
}

/// Delays `p` until round `due`.
fn queue_push_exec<P>(q: &mut Vec<(u64, Vec<P>)>, due: u64, p: P)
    requires
        queue_wf(queue_view(old(q)@)),
    ensures
        queue_view(final(q)@) == queue_push(queue_view(old(q)@), due, p),
        queue_wf(queue_view(final(q)@)),
{
    let ghost v0 = queue_view(q@);
    let mut i: usize = 0;
    while i < q.len() && q[i].0 < due
        invariant
            i <= q@.len(),
            v0 == queue_view(q@),
            forall|j: int| 0 <= j < i ==> v0[j].0 < due,
        decreases q@.len() - i,
    {
        i = i + 1;
    }
    proof {
        lemma_queue_push_prefix(v0, due, p, i as int);
        lemma_queue_push_wf(v0, due, p);
    }
    if i < q.len() && q[i].0 == due {
        let (d, mut msgs) = q.remove(i);
        let ghost before = msgs@;
        msgs.push(p);
        q.insert(i, (d, msgs));
        proof {
            assert(v0.skip(i as int)[0] == v0[i as int]);
            assert(queue_view(q@) =~= v0.take(i as int) + queue_push(v0.skip(i as int), due, p));
        }
    } else {
        let mut msgs: Vec<P> = Vec::new();
        msgs.push(p);
        q.insert(i, (due, msgs));
        proof {
            if i < v0.len() {
                assert(v0.skip(i as int)[0] == v0[i as int]);
            }
            assert(queue_view(q@) =~= v0.take(i as int) + queue_push(v0.skip(i as int), due, p));
        }
    }
}

proof fn lemma_flatten_append<P>(a: Seq<(u64, Seq<P>)>, b: Seq<(u64, Seq<P>)>)
    ensures
        flatten(a + b) == flatten(a) + flatten(b),
    decreases a.len(),
{
    if a.len() == 0 {
        assert(a + b =~= b);
        assert(flatten(a) + flatten(b) =~= flatten(b));
    } else {
        lemma_flatten_append(a.drop_first(), b);
        assert((a + b).drop_first() =~= a.drop_first() + b);
        assert(flatten(a) + flatten(b) =~= a[0].1 + (flatten(a.drop_first()) + flatten(b)));
    }
}

proof fn lemma_queue_wf_skip<P>(q: Seq<(u64, Seq<P>)>, k: int)
    requires
        queue_wf(q),
        0 <= k <= q.len(),
    ensures
        queue_wf(q.skip(k)),
{
    let t = q.skip(k);
    assert forall|i: int, j: int| 0 <= i < j < t.len() implies t[i].0 < t[j].0 by {
        assert(q[i + k].0 < q[j + k].0);
    }
    assert forall|i: int| 0 <= i < t.len() implies (#[trigger] t[i]).1.len() > 0 by {
        assert(q[i + k].1.len() > 0);
    }
}

/// Removes from the queue the messages due at `round` or before and returns
/// them, entry after entry.
pub fn drain_due<P>(q: &mut Vec<(u64, Vec<P>)>, round: u64) -> (out: Vec<P>)
    requires
        queue_wf(queue_view(old(q)@)),
    ensures
        out@ == flatten(queue_view(old(q)@).take(due_count(queue_view(old(q)@), round) as int)),
        queue_view(final(q)@) == queue_view(old(q)@).skip(due_count(queue_view(old(q)@), round) as int),
        due_count(queue_view(old(q)@), round) <= queue_view(old(q)@).len(),
        queue_wf(queue_view(final(q)@)),
{
    let ghost v = queue_view(q@);
    let ghost mut k: int = 0;
    let mut out: Vec<P> = Vec::new();
    proof {
        assert(v.skip(0) =~= v);
        assert(v.take(0) =~= Seq::<(u64, Seq<P>)>::empty());
    }
    while q.len() > 0 && q[0].0 <= round
        invariant
            0 <= k <= v.len(),
            queue_wf(v),
            queue_view(q@) == v.skip(k),
            out@ == flatten(v.take(k)),
            due_count(v, round) == k + due_count(v.skip(k), round),
        decreases q@.len(),
    {
        let ghost cur = queue_view(q@);
        let (_due, mut msgs) = q.remove(0);
        let ghost m = msgs@;
        out.append(&mut msgs);
        proof {
            assert(cur[0] == v[k]);
            assert(cur.drop_first() =~= v.skip(k + 1));
            assert(queue_view(q@) =~= cur.drop_first());
            assert(v.take(k + 1) =~= v.take(k) + seq![v[k]]);
            lemma_flatten_append(v.take(k), seq![v[k]]);
            assert(flatten(seq![v[k]]) =~= v[k].1 + flatten(seq![v[k]].drop_first()));
            assert(seq![v[k]].drop_first() =~= Seq::<(u64, Seq<P>)>::empty());
            assert(flatten(seq![v[k]]) =~= v[k].1);
            k = k + 1;
        }
    }
    proof {
        lemma_queue_wf_skip(v, k);
    }
    out
}

/// The round at which a copy sent at `round` is due, if the network delays it.
fn copy_due(net: &NetworkModel, rng: &mut DeterministicRng, round: Round) -> (r: Option<u64>)
    ensures
        (r, final(rng).spec_state()) == spec_copy_due(*net, old(rng).spec_state(), round.value()),
{
    let max = net.max_delay_rounds();
    if max == 0 {
        return None;
    }
    if !roll(net.delay(), rng) {
        return None;
    }
    let v = rng.next_u64();
    let wait = v % max + 1;
    Some(round.get().saturating_add(wait))
}

/// Delivers `p` this round, or queues it until `due`.
fn place<P>(q: &mut Vec<(u64, Vec<P>)>, now: &mut Vec<P>, p: P, due: Option<u64>)
    requires
        queue_wf(queue_view(old(q)@)),
    ensures
        queue_view(final(q)@) == queue_later(queue_view(old(q)@), seq![due], seq![p]),
        final(now)@ == old(now)@ + now_items(seq![due], seq![p]),
        queue_wf(queue_view(final(q)@)),
{
    let ghost dues = seq![due];
    let ghost items = seq![p];
    proof {
        assert(dues.drop_last() =~= Seq::<Option<u64>>::empty());
        assert(items.drop_last() =~= Seq::<P>::empty());
        assert(dues.last() == due);
        assert(items.last() == p);
        assert(now_items(dues.drop_last(), items.drop_last()) =~= Seq::<P>::empty());
        assert(queue_later(queue_view(q@), dues.drop_last(), items.drop_last()) == queue_view(q@));
    }
    match due {
        Some(d) => {
            queue_push_exec(q, d, p);
            assert(now@ =~= old(now)@ + now_items(dues, items));
        },
        None => {
            now.push(p);
            assert(now@ =~= old(now)@ + now_items(dues, items));
        },
    }
}

proof fn lemma_single_copy<P>(q: Seq<(u64, Seq<P>)>, d: Option<u64>, p: P)
    ensures
        later_count(seq![d]) == if d is Some { 1nat } else { 0nat },
        queue_later(q, seq![d], seq![p]) == match d {
            Some(due) => queue_push(q, due, p),
            None => q,
        },
        now_items(seq![d], seq![p]) == if d is None { seq![p] } else { Seq::<P>::empty() },
{
    assert(seq![d].drop_last() =~= Seq::<Option<u64>>::empty());
    assert(seq![p].drop_last() =~= Seq::<P>::empty());
    assert(later_count(Seq::<Option<u64>>::empty()) == 0);
    assert(queue_later(q, Seq::<Option<u64>>::empty(), Seq::<P>::empty()) == q);
    assert(seq![d].last() == d);
    assert(seq![p].last() == p);
    assert(now_items(Seq::<Option<u64>>::empty(), Seq::<P>::empty()) =~= Seq::<P>::empty());
    assert(now_items(seq![d], seq![p]) =~= if d is None { seq![p] } else { Seq::<P>::empty() });
}

proof fn lemma_two_copies<P>(q: Seq<(u64, Seq<P>)>, d1: Option<u64>, d2: Option<u64>, p1: P, p2: P)
    ensures
        later_count(seq![d1, d2]) == later_count(seq![d1]) + later_count(seq![d2]),
        queue_later(q, seq![d1, d2], seq![p1, p2]) == queue_later(queue_later(q, seq![d1], seq![p1]), seq![d2], seq![p2]),
        now_items(seq![d1, d2], seq![p1, p2]) == now_items(seq![d1], seq![p1]) + now_items(seq![d2], seq![p2]),
{
    lemma_single_copy(q, d1, p1);
    lemma_single_copy(queue_later(q, seq![d1], seq![p1]), d2, p2);
    assert(seq![d1, d2].drop_last() =~= seq![d1]);
    assert(seq![p1, p2].drop_last() =~= seq![p1]);
    assert(seq![d1, d2].last() == d2);
    assert(seq![p1, p2].last() == p2);
}

/// Delivers the copies of a message the network does not drop: one, or two
/// when it duplicates the message, each now or later.
///
/// Returns whether it was duplicated and how many copies were delayed.
fn kept<T: Clone>(
    net: &NetworkModel,
    rng: &mut DeterministicRng,
    q: &mut Vec<(u64, Vec<PendingSend<T>>)>,
    now: &mut Vec<PendingSend<T>>,
    send: PendingSend<T>,
    round: Round,
) -> (r: (bool, usize))
    requires
        queue_wf(queue_view(old(q)@)),
    ensures
        queue_wf(queue_view(final(q)@)),
        ({
            let (twice, dues, state) = spec_kept(*net, old(rng).spec_state(), round.value());
            &&& r.0 == twice
            &&& r.1 == later_count(dues)
            &&& final(rng).spec_state() == state
            &&& exists|copies: Seq<PendingSend<T>>|
                #[trigger] all_like(copies, repeat(dues.len(), send))
                    && queue_view(final(q)@) == queue_later(queue_view(old(q)@), dues, copies)
                    && final(now)@ == old(now)@ + now_items(dues, copies)
        }),
{
    let ghost q0 = queue_view(q@);
    let ghost n0 = now@;
    let twice = roll(net.duplicate(), rng);
    if twice {
        let first = send.clone();
        let ghost c0 = first;
        let d1 = copy_due(net, rng, round);
        place(q, now, first, d1);
        let ghost q1 = queue_view(q@);
        let ghost n1 = now@;
        let ghost c1 = send;
        let d2 = copy_due(net, rng, round);
        place(q, now, send, d2);
        proof {
            lemma_two_copies(q0, d1, d2, c0, c1);
            lemma_single_copy(q0, d1, c0);
            lemma_single_copy(q1, d2, c1);
            let copies = seq![c0, c1];
            let (t, dues, st) = spec_kept(*net, old(rng).spec_state(), round.value());
            assert(dues == seq![d1, d2]);
            assert(all_like(copies, repeat(dues.len(), send)));
            assert(now@ =~= n0 + now_items(dues, copies));
            assert(queue_view(q@) == queue_later(q0, dues, copies));
        }
        let delayed: usize = (if d1.is_some() { 1 } else { 0 }) + (if d2.is_some() { 1 } else { 0 });
        (true, delayed)
    } else {
        let ghost c0 = send;
        let d1 = copy_due(net, rng, round);
        place(q, now, send, d1);
        proof {
            lemma_single_copy(q0, d1, c0);
            let (t, dues, st) = spec_kept(*net, old(rng).spec_state(), round.value());
            assert(dues == seq![d1]);
            assert(all_like(seq![c0], repeat(dues.len(), send)));
            assert(now@ =~= n0 + now_items(dues, seq![c0]));
        }
        let delayed: usize = if d1.is_some() { 1 } else { 0 };
        (false, delayed)
    }
}

/// Decides what the network does to one send at `round`: drops it, or
/// delivers one or two copies now or later.
///
/// Returns whether it was dropped, whether it was duplicated, and how many
/// copies were delayed.
pub fn outbound<T: Clone>(
    net: &NetworkModel,
    rng: &mut DeterministicRng,
    q: &mut Vec<(u64, Vec<PendingSend<T>>)>,
    now: &mut Vec<PendingSend<T>>,
    send: PendingSend<T>,
    round: Round,
) -> (r: (bool, bool, usize))
    requires
        queue_wf(queue_view(old(q)@)),
    ensures
        queue_wf(queue_view(final(q)@)),
        ({
            let (dropped, twice, dues, state) = spec_outbound(
                *net,
                old(rng).spec_state(),
                send.source@,
                send.target@,
                round.value(),
            );
            &&& r.0 == dropped
            &&& r.1 == twice
            &&& r.2 == later_count(dues)
            &&& final(rng).spec_state() == state
            &&& exists|copies: Seq<PendingSend<T>>|
                #[trigger] all_like(copies, repeat(dues.len(), send))
                    && queue_view(final(q)@) == queue_later(queue_view(old(q)@), dues, copies)
                    && final(now)@ == old(now)@ + now_items(dues, copies)
        }),
{
    let ghost none = Seq::<PendingSend<T>>::empty();
    proof {
        let e = Seq::<Option<u64>>::empty();
        assert(all_like(none, repeat(e.len(), send)));
        assert(now@ =~= now@ + now_items(e, none));
        assert(queue_later(queue_view(q@), e, none) == queue_view(q@));
        assert(later_count(e) == 0);
    }
    if net.blocks(&send.source, &send.target) {
        return (true, false, 0);
    }
    let ghost s0 = rng.spec_state();
    if roll(net.loss(), rng) {
        return (true, false, 0);
    }
    let ghost s1 = rng.spec_state();
    let ghost p = send;
    let ghost q1 = queue_view(q@);
    let ghost n1 = now@;
    let (twice, delayed) = kept(net, rng, q, now, send, round);
    proof {
        let (t, dues, st) = spec_kept(*net, s1, round.value());
        assert(spec_roll(net.spec_loss(), s0) == (false, s1));
        let copies = choose|copies: Seq<PendingSend<T>>|
            #[trigger] all_like(copies, repeat(dues.len(), p)) && queue_view(q@) == queue_later(q1, dues, copies)
                && now@ == n1 + now_items(dues, copies);
        assert(all_like(copies, repeat(dues.len(), p)));
        assert(!net.spec_blocks(p.source@, p.target@));
        assert(spec_outbound(*net, s0, p.source@, p.target@, round.value()) == (false, t, dues, st));
        assert(twice == t);
        assert(delayed == later_count(dues));
        assert(rng.spec_state() == st);
        assert(q1 == queue_view(old(q)@));
        assert(n1 == old(now)@);
        assert(p == send);
        assert(exists|copies: Seq<PendingSend<T>>|
                #[trigger] all_like(copies, repeat(dues.len(), send))
                    && queue_view(q@) == queue_later(queue_view(old(q)@), dues, copies)
                    && now@ == old(now)@ + now_items(dues, copies));
        let r = (false, twice, delayed);
        assert({
            let (dropped, twice, dues, state) = spec_outbound(
                *net,
                old(rng).spec_state(),
                send.source@,
                send.target@,
                round.value(),
            );
            &&& r.0 == dropped
            &&& r.1 == twice
            &&& r.2 == later_count(dues)
            &&& rng.spec_state() == state
        });
    }
    (false, twice, delayed)
}

/// `n`, or `usize::MAX` when it is larger.
pub open spec fn sat_usize(n: nat) -> usize {
    if n <= usize::MAX { n as usize } else { usize::MAX }
}

proof fn lemma_like_refl<T: Clone>(s: Seq<PendingSend<T>>)
    ensures
        all_like(s, s),
{
}

proof fn lemma_all_like_concat<T: Clone>(
    a: Seq<PendingSend<T>>,
    b: Seq<PendingSend<T>>,
    c: Seq<PendingSend<T>>,
    d: Seq<PendingSend<T>>,
)
    requires
        all_like(a, b),
        all_like(c, d),
    ensures
        all_like(a + c, b + d),
{
    assert forall|i: int| 0 <= i < (b + d).len() implies #[trigger] (a + c)[i].is_like((b + d)[i]) by {
        if i < b.len() {
            assert(a[i].is_like(b[i]));
        } else {
            assert(c[i - b.len()].is_like(d[i - b.len()]));
        }
    }
}

proof fn lemma_queue_push_like<T: Clone>(
    a: Seq<(u64, Seq<PendingSend<T>>)>,
    b: Seq<(u64, Seq<PendingSend<T>>)>,
    due: u64,
    x: PendingSend<T>,
    y: PendingSend<T>,
)
    requires
        queue_like(a, b),
        x.is_like(y),
    ensures
        queue_like(queue_push(a, due, x), queue_push(b, due, y)),
    decreases a.len(),
{
    let ra = queue_push(a, due, x);
    let rb = queue_push(b, due, y);
    if a.len() == 0 {
        assert(all_like(seq![x], seq![y]));
    } else {
        assert(a[0].0 == b[0].0 && all_like(a[0].1, b[0].1));
        if a[0].0 == due {
            lemma_all_like_concat(a[0].1, b[0].1, seq![x], seq![y]);
            assert(a[0].1.push(x) =~= a[0].1 + seq![x]);
            assert(b[0].1.push(y) =~= b[0].1 + seq![y]);
            assert forall|i: int| 0 <= i < rb.len() implies (#[trigger] ra[i]).0 == rb[i].0 && all_like(ra[i].1, rb[i].1) by {
                if i > 0 {
                    assert(a[i].0 == b[i].0 && all_like(a[i].1, b[i].1));
                }
            }
        } else if a[0].0 > due {
            assert(all_like(seq![x], seq![y]));
            assert forall|i: int| 0 <= i < rb.len() implies (#[trigger] ra[i]).0 == rb[i].0 && all_like(ra[i].1, rb[i].1) by {
                if i > 0 {
                    assert(a[i - 1].0 == b[i - 1].0 && all_like(a[i - 1].1, b[i - 1].1));
                }
            }
        } else {
            assert(queue_like(a.drop_first(), b.drop_first())) by {
                assert forall|i: int| 0 <= i < b.drop_first().len() implies (#[trigger] a.drop_first()[i]).0
                    == b.drop_first()[i].0 && all_like(a.drop_first()[i].1, b.drop_first()[i].1) by {
                    assert(a[i + 1].0 == b[i + 1].0 && all_like(a[i + 1].1, b[i + 1].1));
                }
            }
            lemma_queue_push_like(a.drop_first(), b.drop_first(), due, x, y);
            let ta = queue_push(a.drop_first(), due, x);
            let tb = queue_push(b.drop_first(), due, y);
            assert forall|i: int| 0 <= i < rb.len() implies (#[trigger] ra[i]).0 == rb[i].0 && all_like(ra[i].1, rb[i].1) by {
                if i > 0 {
                    assert(ra[i] == ta[i - 1]);
                    assert(rb[i] == tb[i - 1]);
                    assert(ta[i - 1].0 == tb[i - 1].0 && all_like(ta[i - 1].1, tb[i - 1].1));
                }
            }
        }
    }
}

proof fn lemma_later_like<T: Clone>(
    a: Seq<(u64, Seq<PendingSend<T>>)>,
    b: Seq<(u64, Seq<PendingSend<T>>)>,
    dues: Seq<Option<u64>>,
    x: Seq<PendingSend<T>>,
    y: Seq<PendingSend<T>>,
)
    requires
        queue_like(a, b),
        all_like(x, y),
        x.len() == dues.len(),
    ensures
        queue_like(queue_later(a, dues, x), queue_later(b, dues, y)),
        all_like(now_items(dues, x), now_items(dues, y)),
    decreases dues.len(),
{
    if dues.len() > 0 {
        assert(all_like(x.drop_last(), y.drop_last())) by {
            assert forall|i: int| 0 <= i < y.drop_last().len() implies #[trigger] x.drop_last()[i].is_like(
                y.drop_last()[i],
            ) by {
                assert(x[i].is_like(y[i]));
            }
        }
        lemma_later_like(a, b, dues.drop_last(), x.drop_last(), y.drop_last());
        assert(x.last().is_like(y.last())) by {
            assert(x[x.len() - 1].is_like(y[y.len() - 1]));
        }
        match dues.last() {
            Some(due) => {
                lemma_queue_push_like(
                    queue_later(a, dues.drop_last(), x.drop_last()),
                    queue_later(b, dues.drop_last(), y.drop_last()),
                    due,
                    x.last(),
                    y.last(),
                );
            },
            None => {
                lemma_all_like_concat(
                    now_items(dues.drop_last(), x.drop_last()),
                    now_items(dues.drop_last(), y.drop_last()),
                    seq![x.last()],
                    seq![y.last()],
                );
                assert(now_items(dues, x) =~= now_items(dues.drop_last(), x.drop_last()) + seq![x.last()]);
                assert(now_items(dues, y) =~= now_items(dues.drop_last(), y.drop_last()) + seq![y.last()]);
            },
        }
    }
}

proof fn lemma_later_wf<P>(q: Seq<(u64, Seq<P>)>, dues: Seq<Option<u64>>, items: Seq<P>)
    requires
        queue_wf(q),
    ensures
        queue_wf(queue_later(q, dues, items)),
    decreases dues.len(),
{
    if dues.len() > 0 {
        lemma_later_wf(q, dues.drop_last(), items.drop_last());
        if let Some(due) = dues.last() {
            lemma_queue_push_wf(queue_later(q, dues.drop_last(), items.drop_last()), due, items.last());
        }
    }
}

/// The network handles `sends`, one after another: dropped sends vanish,
/// copies delivered now are added to `now`, and delayed copies are queued.
///
/// Returns how many sends were attempted, dropped and duplicated, and how many
/// copies were delayed (saturating).
pub fn network_pass<T: Clone>(
    net: &NetworkModel,
    rng: &mut DeterministicRng,
    q: &mut Vec<(u64, Vec<PendingSend<T>>)>,
    now: &mut Vec<PendingSend<T>>,
    sends: Vec<PendingSend<T>>,
    round: Round,
) -> (r: (usize, usize, usize, usize))
    requires
        queue_wf(queue_view(old(q)@)),
    ensures
        queue_wf(queue_view(final(q)@)),
        final(rng).spec_state() == pass_state(*net, old(rng).spec_state(), sends@, round.value()),
        queue_like(
            queue_view(final(q)@),
            pass_queue(*net, old(rng).spec_state(), queue_view(old(q)@), sends@, round.value()),
        ),
        all_like(final(now)@, old(now)@ + pass_now(*net, old(rng).spec_state(), sends@, round.value())),
        r.0 == sends@.len(),
        r.1 == pass_dropped(*net, old(rng).spec_state(), sends@, round.value()),
        r.2 == pass_duplicated(*net, old(rng).spec_state(), sends@, round.value()),
        r.3 == sat_usize(pass_delayed(*net, old(rng).spec_state(), sends@, round.value())),
{
    let ghost all = sends@;
    let ghost s0 = rng.spec_state();
    let ghost q0 = queue_view(q@);
    let ghost n0 = now@;
    let n = sends.len();
    let mut pending = crate::vec_order::reversed(sends);
    let mut dropped: usize = 0;
    let mut duplicated: usize = 0;
    let mut delayed: usize = 0;
    let mut k: usize = 0;
    proof {
        assert(all.take(0) =~= Seq::<PendingSend<T>>::empty());
        lemma_like_refl(n0);
        assert(n0 + pass_now(*net, s0, all.take(0), round.value()) =~= n0);
        assert(queue_like(q0, q0));
    }
    while k < n
        invariant
            n == all.len(),
            k <= n,
            pending@.len() == n - k,
            forall|j: int| 0 <= j < n - k ==> #[trigger] pending@[j] == all[n - 1 - j],
            queue_wf(queue_view(q@)),
            rng.spec_state() == pass_state(*net, s0, all.take(k as int), round.value()),
            queue_like(queue_view(q@), pass_queue(*net, s0, q0, all.take(k as int), round.value())),
            all_like(now@, n0 + pass_now(*net, s0, all.take(k as int), round.value())),
            dropped == pass_dropped(*net, s0, all.take(k as int), round.value()),
            duplicated == pass_duplicated(*net, s0, all.take(k as int), round.value()),
            delayed == sat_usize(pass_delayed(*net, s0, all.take(k as int), round.value())),
            dropped <= k,
            duplicated <= k,
        decreases n - k,
    {
        let send = pending.pop().unwrap();
        let ghost p = send;
        let ghost t = all.take(k + 1);
        let ghost qa = queue_view(q@);
        let ghost na = now@;
        let ghost sa = rng.spec_state();
        proof {
            assert(t.drop_last() =~= all.take(k as int));
            assert(t.last() == all[k as int]);
            assert(p == all[k as int]);
        }
        let (was_dropped, was_duplicated, copies_delayed) = outbound(net, rng, q, now, send, round);
        proof {
            let (d, tw, dues, st) = spec_outbound(*net, sa, p.source@, p.target@, round.value());
            assert(last_outbound(*net, s0, t, round.value()) == (d, tw, dues, st));
            let copies = choose|copies: Seq<PendingSend<T>>|
                #[trigger] all_like(copies, repeat(dues.len(), p)) && queue_view(q@) == queue_later(qa, dues, copies)
                    && now@ == na + now_items(dues, copies);
            let qe = pass_queue(*net, s0, q0, all.take(k as int), round.value());
            let ne = n0 + pass_now(*net, s0, all.take(k as int), round.value());
            lemma_later_like(qa, qe, dues, copies, repeat(dues.len(), p));
            lemma_all_like_concat(na, ne, now_items(dues, copies), now_items(dues, repeat(dues.len(), p)));
            assert(n0 + pass_now(*net, s0, t, round.value()) =~= ne + now_items(dues, repeat(dues.len(), p)));
        }
        if was_dropped {
            dropped = dropped + 1;
        }
        if was_duplicated {
            duplicated = duplicated + 1;
        }
        delayed = delayed.saturating_add(copies_delayed);
        k = k + 1;
    }
    proof {
        assert(all.take(n as int) =~= all);
    }
    (n, dropped, duplicated, delayed)
}

proof fn lemma_items_split<P>(dues: Seq<Option<u64>>, items: Seq<P>)
    requires
        items.len() == dues.len(),
    ensures
        now_items(dues, items).len() + later_count(dues) == dues.len(),
    decreases dues.len(),
{
    if dues.len() > 0 {
        lemma_items_split(dues.drop_last(), items.drop_last());
    }
}

proof fn lemma_outbound_shape(net: NetworkModel, state: u64, source: Seq<char>, target: Seq<char>, round: u64)
    ensures
        ({
            let (dropped, twice, dues, _s) = spec_outbound(net, state, source, target, round);
            &&& dropped ==> dues.len() == 0 && !twice
            &&& !dropped ==> dues.len() == if twice { 2nat } else { 1nat }
        }),
{
}

/// Messages are neither lost nor invented by the network, beyond what it
/// decides: of `sends`, those not dropped go on, once or twice when
/// duplicated, and each copy is delivered this round or delayed.
pub proof fn lemma_pass_conservation<T>(net: NetworkModel, s0: u64, sends: Seq<PendingSend<T>>, round: u64)
    ensures
        pass_dropped(net, s0, sends, round) <= sends.len(),
        pass_duplicated(net, s0, sends, round) + pass_dropped(net, s0, sends, round) <= sends.len(),
        pass_now(net, s0, sends, round).len() + pass_delayed(net, s0, sends, round) == sends.len() - pass_dropped(
            net,
            s0,
            sends,
            round,
        ) + pass_duplicated(net, s0, sends, round),
    decreases sends.len(),
{
    if sends.len() > 0 {
        let rest = sends.drop_last();
        lemma_pass_conservation(net, s0, rest, round);
        let (d, tw, dues, st) = last_outbound(net, s0, sends, round);
        lemma_outbound_shape(net, pass_state(net, s0, rest, round), sends.last().source@, sends.last().target@, round);
        lemma_items_split(dues, repeat(dues.len(), sends.last()));
    }
}

/// A network that loses, duplicates and delays nothing and cuts no link
/// delivers every send this round, unchanged, and draws nothing.
pub proof fn lemma_reliable_pass<T>(
    net: NetworkModel,
    s0: u64,
    q0: Seq<(u64, Seq<PendingSend<T>>)>,
    sends: Seq<PendingSend<T>>,
    round: u64,
)
    requires
        net.spec_loss() == Chance::Never,
        net.spec_duplicate() == Chance::Never,
        net.spec_max_delay_rounds() == 0,
        net.spec_partitions().len() == 0,
    ensures
        pass_state(net, s0, sends, round) == s0,
        pass_dropped(net, s0, sends, round) == 0,
        pass_duplicated(net, s0, sends, round) == 0,
        pass_delayed(net, s0, sends, round) == 0,
        pass_now(net, s0, sends, round) == sends,
        pass_queue(net, s0, q0, sends, round) == q0,
    decreases sends.len(),
{
    if sends.len() > 0 {
        let rest = sends.drop_last();
        lemma_reliable_pass(net, s0, q0, rest, round);
        let p = sends.last();
        assert(!net.spec_blocks(p.source@, p.target@));
        let (d, tw, dues, st) = last_outbound(net, s0, sends, round);
        assert(dues == seq![Option::<u64>::None]);
        let items = repeat(1, p);
        assert(items =~= seq![p]);
        lemma_single_copy(pass_queue(net, s0, q0, rest, round), Option::<u64>::None, p);
        assert(sends =~= rest + seq![p]);
    }
}

/// A send across a cut link is dropped, without drawing anything.
pub proof fn lemma_partition_drops(net: NetworkModel, state: u64, source: Seq<char>, target: Seq<char>, round: u64)
    requires
        net.spec_blocks(source, target),
    ensures
        spec_outbound(net, state, source, target, round).0,
        spec_outbound(net, state, source, target, round).2.len() == 0,
        spec_outbound(net, state, source, target, round).3 == state,
{
}

/// A send over an open link, on a network that loses messages at a rate of
/// `bound` in 2^64, is dropped exactly when the first value drawn from the
/// network's random source is below `bound`; a kept send's copies are decided
/// with the source in the state that draw left.
pub proof fn lemma_loss_draw(
    net: NetworkModel,
    rng: DeterministicRng,
    value: u64,
    after: DeterministicRng,
    source: Seq<char>,
    target: Seq<char>,
    round: u64,
    bound: u64,
)
    requires
        !net.spec_blocks(source, target),
        net.spec_loss() == Chance::Below(bound),
        rng.draws(value, after),
    ensures
        spec_outbound(net, rng.spec_state(), source, target, round).0 <==> value < bound,
        !(value < bound) ==> ({
            let (twice, dues, st) = spec_kept(net, after.spec_state(), round);
            spec_outbound(net, rng.spec_state(), source, target, round) == (false, twice, dues, st)
        }),
{
    lemma_roll_draw(net.spec_loss(), rng, value, after);
}

/// A network that always loses messages drops every send and delivers
/// nothing, now or later.
pub proof fn lemma_lossy_pass<T>(
    net: NetworkModel,
    s0: u64,
    q0: Seq<(u64, Seq<PendingSend<T>>)>,
    sends: Seq<PendingSend<T>>,
    round: u64,
)
    requires
        net.spec_loss() == Chance::Always,
    ensures
        pass_dropped(net, s0, sends, round) == sends.len(),
        pass_duplicated(net, s0, sends, round) == 0,
        pass_delayed(net, s0, sends, round) == 0,
        pass_now(net, s0, sends, round) == Seq::<PendingSend<T>>::empty(),
        pass_queue(net, s0, q0, sends, round) == q0,
    decreases sends.len(),
{
    if sends.len() > 0 {
        let rest = sends.drop_last();
        lemma_lossy_pass(net, s0, q0, rest, round);
        let (d, tw, dues, st) = last_outbound(net, s0, sends, round);
        assert(dues.len() == 0);
        assert(now_items(dues, repeat(0, sends.last())) =~= Seq::<PendingSend<T>>::empty());
        assert(pass_now(net, s0, sends, round) =~= Seq::<PendingSend<T>>::empty());
    }
}

/// A network that always duplicates, and loses, delays and cuts nothing,
/// delivers every send twice this round.
pub proof fn lemma_duplicating_pass<T>(net: NetworkModel, s0: u64, sends: Seq<PendingSend<T>>, round: u64)
    requires
        net.spec_loss() == Chance::Never,
        net.spec_duplicate() == Chance::Always,
        net.spec_max_delay_rounds() == 0,
        net.spec_partitions().len() == 0,
    ensures
        pass_dropped(net, s0, sends, round) == 0,
        pass_duplicated(net, s0, sends, round) == sends.len(),
        pass_delayed(net, s0, sends, round) == 0,
        pass_now(net, s0, sends, round).len() == 2 * sends.len(),
        pass_state(net, s0, sends, round) == s0,
    decreases sends.len(),
{
    if sends.len() > 0 {
        let rest = sends.drop_last();
        lemma_duplicating_pass(net, s0, rest, round);
        let p = sends.last();
        assert(!net.spec_blocks(p.source@, p.target@));
        let (d, tw, dues, st) = last_outbound(net, s0, sends, round);
        assert(dues == seq![Option::<u64>::None, Option::<u64>::None]);
        lemma_items_split(dues, repeat(2, p));
        lemma_two_copies(Seq::<(u64, Seq<PendingSend<T>>)>::empty(), Option::<u64>::None, Option::<u64>::None, p, p);
        lemma_single_copy(Seq::<(u64, Seq<PendingSend<T>>)>::empty(), Option::<u64>::None, p);
    }
}

/// A delayed copy is due after the round it was sent in, and at most
/// `max_delay_rounds` rounds later (saturating at the last round).
pub proof fn lemma_copy_due_bounds(net: NetworkModel, state: u64, round: u64)
    ensures
        spec_copy_due(net, state, round).0 matches Some(due) ==> (round < u64::MAX ==> round < due) && due <= round
            + net.spec_max_delay_rounds() && due <= u64::MAX,
{
    let (due, st) = spec_copy_due(net, state, round);
    if let Some(d) = due {
        let (delayed, s1) = spec_roll(net.spec_delay(), state);
        let v = lcg_step(s1);
        let max = net.spec_max_delay_rounds();
        assert(v % max < max) by (nonlinear_arith)
            requires
                max > 0,
        ;
    }
}

/// A network that always delays, with a positive longest delay, and loses,
/// duplicates and cuts nothing, delivers nothing this round: every send is
/// delayed.
pub proof fn lemma_delaying_pass<T>(net: NetworkModel, s0: u64, sends: Seq<PendingSend<T>>, round: u64)
    requires
        net.spec_loss() == Chance::Never,
        net.spec_duplicate() == Chance::Never,
        net.spec_delay() == Chance::Always,
        net.spec_max_delay_rounds() > 0,
        net.spec_partitions().len() == 0,
    ensures
        pass_dropped(net, s0, sends, round) == 0,
        pass_delayed(net, s0, sends, round) == sends.len(),
        pass_now(net, s0, sends, round) == Seq::<PendingSend<T>>::empty(),
    decreases sends.len(),
{
    if sends.len() > 0 {
        let rest = sends.drop_last();
        lemma_delaying_pass(net, s0, rest, round);
        let p = sends.last();
        assert(!net.spec_blocks(p.source@, p.target@));
        let (d, tw, dues, st) = last_outbound(net, s0, sends, round);
        assert(dues.len() == 1 && dues[0] is Some);
        assert(dues == seq![dues[0]]);
        assert(repeat(1, p) =~= seq![p]);
        lemma_single_copy(Seq::<(u64, Seq<PendingSend<T>>)>::empty(), dues[0], p);
        assert(pass_now(net, s0, sends, round) =~= Seq::<PendingSend<T>>::empty());
    }
}

proof fn lemma_queued_push<P>(q: Seq<(u64, Seq<P>)>, due: u64, p: P)
    ensures
        queued_count(queue_push(q, due, p)) == queued_count(q) + 1,
    decreases q.len(),
{
    if q.len() == 0 {
        let r = seq![(due, seq![p])];
        assert(r.drop_first() =~= Seq::<(u64, Seq<P>)>::empty());
        assert(flatten(r) =~= seq![p] + flatten(r.drop_first()));
    } else if q[0].0 == due {
        let r = q.update(0, (due, q[0].1.push(p)));
        assert(r.drop_first() =~= q.drop_first());
    } else if q[0].0 > due {
        let r = seq![(due, seq![p])] + q;
        assert(r.drop_first() =~= q);
    } else {
        lemma_queued_push(q.drop_first(), due, p);
        let r = seq![q[0]] + queue_push(q.drop_first(), due, p);
        assert(r.drop_first() =~= queue_push(q.drop_first(), due, p));
    }
}

proof fn lemma_queued_later<P>(q: Seq<(u64, Seq<P>)>, dues: Seq<Option<u64>>, items: Seq<P>)
    ensures
        queued_count(queue_later(q, dues, items)) == queued_count(q) + later_count(dues),
    decreases dues.len(),
{
    if dues.len() > 0 {
        lemma_queued_later(q, dues.drop_last(), items.drop_last());
        if let Some(due) = dues.last() {
            lemma_queued_push(queue_later(q, dues.drop_last(), items.drop_last()), due, items.last());
        }
    }
}

/// The delayed copies of a pass join the queue: it grows by their number.
pub proof fn lemma_pass_queued<T>(
    net: NetworkModel,
    s0: u64,
    q0: Seq<(u64, Seq<PendingSend<T>>)>,
    sends: Seq<PendingSend<T>>,
    round: u64,
)
    ensures
        queued_count(pass_queue(net, s0, q0, sends, round)) == queued_count(q0) + pass_delayed(net, s0, sends, round),
    decreases sends.len(),
{
    if sends.len() > 0 {
        lemma_pass_queued(net, s0, q0, sends.drop_last(), round);
        let dues = last_outbound(net, s0, sends, round).2;
        lemma_queued_later(pass_queue(net, s0, q0, sends.drop_last(), round), dues, repeat(dues.len(), sends.last()));
    }
}

/// Queues alike hold as many messages.
pub proof fn lemma_queue_like_count<T: Clone>(a: Seq<(u64, Seq<PendingSend<T>>)>, b: Seq<(u64, Seq<PendingSend<T>>)>)
    requires
        queue_like(a, b),
    ensures
        queued_count(a) == queued_count(b),
    decreases a.len(),
{
    if a.len() > 0 {
        assert(a[0].0 == b[0].0 && all_like(a[0].1, b[0].1));
        assert(queue_like(a.drop_first(), b.drop_first())) by {
            assert forall|i: int| 0 <= i < b.drop_first().len() implies (#[trigger] a.drop_first()[i]).0 == b.drop_first()[i].0
                && all_like(a.drop_first()[i].1, b.drop_first()[i].1) by {
                assert(a[i + 1].0 == b[i + 1].0 && all_like(a[i + 1].1, b[i + 1].1));
            }
        }
        lemma_queue_like_count(a.drop_first(), b.drop_first());
    }
}

/// The messages of a queue are those of its first `k` entries and of the rest.
pub proof fn lemma_queued_split<P>(q: Seq<(u64, Seq<P>)>, k: int)
    requires
        0 <= k <= q.len(),
    ensures
        queued_count(q) == flatten(q.take(k)).len() + queued_count(q.skip(k)),
{
    assert(q =~= q.take(k) + q.skip(k));
    lemma_flatten_append(q.take(k), q.skip(k));
}

/// Every send of `s` goes to a node named in `names`.
pub open spec fn sends_named<T>(names: Seq<NodeId>, s: Seq<PendingSend<T>>) -> bool {
    forall|i: int| 0 <= i < s.len() ==> names_node(names, (#[trigger] s[i]).target@)
}

/// Every delayed send of `q` goes to a node named in `names`.
pub open spec fn queue_named<T>(names: Seq<NodeId>, q: Seq<(u64, Seq<PendingSend<T>>)>) -> bool {
    forall|i: int| 0 <= i < q.len() ==> sends_named(names, (#[trigger] q[i]).1)
}

/// Every entry of `q` is due after `round`.
pub open spec fn queue_due_after<P>(q: Seq<(u64, Seq<P>)>, round: u64) -> bool {
    forall|i: int| 0 <= i < q.len() ==> (#[trigger] q[i]).0 > round
}

proof fn lemma_concat_named<T>(names: Seq<NodeId>, a: Seq<PendingSend<T>>, b: Seq<PendingSend<T>>)
    requires
        sends_named(names, a),
        sends_named(names, b),
    ensures
        sends_named(names, a + b),
{
    assert forall|i: int| 0 <= i < (a + b).len() implies names_node(names, (#[trigger] (a + b)[i]).target@) by {
        if i < a.len() {
            assert((a + b)[i] == a[i]);
        } else {
            assert((a + b)[i] == b[i - a.len()]);
        }
    }
}

proof fn lemma_now_items_named<T>(names: Seq<NodeId>, dues: Seq<Option<u64>>, items: Seq<PendingSend<T>>)
    requires
        items.len() == dues.len(),
        sends_named(names, items),
    ensures
        sends_named(names, now_items(dues, items)),
    decreases dues.len(),
{
    if dues.len() > 0 {
        assert(sends_named(names, items.drop_last())) by {
            assert forall|i: int| 0 <= i < items.len() - 1 implies names_node(
                names,
                (#[trigger] items.drop_last()[i]).target@,
            ) by {
                assert(items.drop_last()[i] == items[i]);
            }
        }
        lemma_now_items_named(names, dues.drop_last(), items.drop_last());
        let rest = now_items(dues.drop_last(), items.drop_last());
        assert(names_node(names, items[items.len() - 1].target@));
        assert forall|i: int| 0 <= i < rest.len() + 1 implies names_node(
            names,
            (#[trigger] rest.push(items.last())[i]).target@,
        ) by {
            if i < rest.len() {
                assert(rest.push(items.last())[i] == rest[i]);
            }
        }
    }
}

/// The copies the network delivers now go where their sends went.
pub proof fn lemma_pass_now_named<T>(names: Seq<NodeId>, net: NetworkModel, s0: u64, sends: Seq<PendingSend<T>>, round: u64)
    requires
        sends_named(names, sends),
    ensures
        sends_named(names, pass_now(net, s0, sends, round)),
    decreases sends.len(),
{
    if sends.len() > 0 {
        assert(sends_named(names, sends.drop_last())) by {
            assert forall|i: int| 0 <= i < sends.len() - 1 implies names_node(
                names,
                (#[trigger] sends.drop_last()[i]).target@,
            ) by {
                assert(sends.drop_last()[i] == sends[i]);
            }
        }
        lemma_pass_now_named(names, net, s0, sends.drop_last(), round);
        let dues = last_outbound(net, s0, sends, round).2;
        let items = repeat(dues.len(), sends.last());
        assert(names_node(names, sends[sends.len() - 1].target@));
        assert(sends_named(names, items));
        lemma_now_items_named(names, dues, items);
        lemma_concat_named(names, pass_now(net, s0, sends.drop_last(), round), now_items(dues, items));
    }
}

/// The delayed sends of a queue go where they went when they were queued.
pub proof fn lemma_flatten_named<T>(names: Seq<NodeId>, q: Seq<(u64, Seq<PendingSend<T>>)>)
    requires
        queue_named(names, q),
    ensures
        sends_named(names, flatten(q)),
    decreases q.len(),
{
    if q.len() > 0 {
        assert(queue_named(names, q.drop_first())) by {
            assert forall|i: int| 0 <= i < q.len() - 1 implies sends_named(names, (#[trigger] q.drop_first()[i]).1) by {
                assert(q.drop_first()[i] == q[i + 1]);
            }
        }
        lemma_flatten_named(names, q.drop_first());
        assert(sends_named(names, q[0].1));
        lemma_concat_named(names, q[0].1, flatten(q.drop_first()));
    }
}

proof fn lemma_queue_push_after<P>(q: Seq<(u64, Seq<P>)>, due: u64, p: P, round: u64)
    requires
        queue_due_after(q, round),
        due > round,
    ensures
        queue_due_after(queue_push(q, due, p), round),
    decreases q.len(),
{
    if q.len() > 0 && q[0].0 < due {
        assert(queue_due_after(q.drop_first(), round)) by {
            assert forall|i: int| 0 <= i < q.len() - 1 implies (#[trigger] q.drop_first()[i]).0 > round by {
                assert(q.drop_first()[i] == q[i + 1]);
            }
        }
        lemma_queue_push_after(q.drop_first(), due, p, round);
        let r = queue_push(q.drop_first(), due, p);
        assert forall|i: int| 0 <= i < r.len() + 1 implies (#[trigger] (seq![q[0]] + r)[i]).0 > round by {
            if i > 0 {
                assert((seq![q[0]] + r)[i] == r[i - 1]);
            }
        }
    } else if q.len() > 0 && q[0].0 > due {
        assert forall|i: int| 0 <= i < q.len() + 1 implies (#[trigger] (seq![(due, seq![p])] + q)[i]).0 > round by {
            if i > 0 {
                assert((seq![(due, seq![p])] + q)[i] == q[i - 1]);
            }
        }
    }
}

proof fn lemma_queue_later_after<P>(q: Seq<(u64, Seq<P>)>, dues: Seq<Option<u64>>, items: Seq<P>, round: u64)
    requires
        queue_due_after(q, round),
        forall|i: int| 0 <= i < dues.len() ==> (#[trigger] dues[i] matches Some(d) ==> d > round),
    ensures
        queue_due_after(queue_later(q, dues, items), round),
    decreases dues.len(),
{
    if dues.len() > 0 {
        assert forall|i: int| 0 <= i < dues.len() - 1 implies (#[trigger] dues.drop_last()[i] matches Some(d)
            ==> d > round) by {
            assert(dues.drop_last()[i] == dues[i]);
        }
        lemma_queue_later_after(q, dues.drop_last(), items.drop_last(), round);
        assert(dues[dues.len() - 1] matches Some(d) ==> d > round);
        if let Some(due) = dues.last() {
            lemma_queue_push_after(queue_later(q, dues.drop_last(), items.drop_last()), due, items.last(), round);
        }
    }
}

proof fn lemma_outbound_due_after(net: NetworkModel, state: u64, source: Seq<char>, target: Seq<char>, round: u64)
    requires
        round < u64::MAX,
    ensures
        forall|i: int|
            0 <= i < spec_outbound(net, state, source, target, round).2.len() ==> (#[trigger] spec_outbound(
                net,
                state,
                source,
                target,
                round,
            ).2[i] matches Some(d) ==> d > round),
{
    let (lost, s1) = spec_roll(net.spec_loss(), state);
    let (twice, s2) = spec_roll(net.spec_duplicate(), s1);
    lemma_copy_due_bounds(net, s2, round);
    let s3 = spec_copy_due(net, s2, round).1;
    lemma_copy_due_bounds(net, s3, round);
}

/// Copies the network delays this round, at a round before the last, come
/// due in a later round.
pub proof fn lemma_pass_queue_after<T>(
    net: NetworkModel,
    s0: u64,
    q0: Seq<(u64, Seq<PendingSend<T>>)>,
    sends: Seq<PendingSend<T>>,
    round: u64,
)
    requires
        round < u64::MAX,
        queue_due_after(q0, round),
    ensures
        queue_due_after(pass_queue(net, s0, q0, sends, round), round),
    decreases sends.len(),
{
    if sends.len() > 0 {
        lemma_pass_queue_after(net, s0, q0, sends.drop_last(), round);
        lemma_outbound_due_after(
            net,
            pass_state(net, s0, sends.drop_last(), round),
            sends.last().source@,
            sends.last().target@,
            round,
        );
        let dues = last_outbound(net, s0, sends, round).2;
        lemma_queue_later_after(
            pass_queue(net, s0, q0, sends.drop_last(), round),
            dues,
            repeat(dues.len(), sends.last()),
            round,
        );
    }
}

/// The entries of an ordered queue that are not due by `round` come due later.
pub proof fn lemma_skip_due_after<P>(q: Seq<(u64, Seq<P>)>, round: u64)
    requires
        queue_wf(q),
    ensures
        due_count(q, round) <= q.len(),
        queue_due_after(q.skip(due_count(q, round) as int), round),
    decreases q.len(),
{
    if q.len() > 0 {
        if q[0].0 > round {
            assert forall|i: int| 0 <= i < q.len() implies (#[trigger] q.skip(0)[i]).0 > round by {
                if i > 0 {
                    assert(q[0].0 < q[i].0);
                }
            }
        } else {
            let r = q.drop_first();
            assert(queue_wf(r)) by {
                assert forall|i: int, j: int| 0 <= i < j < r.len() implies r[i].0 < r[j].0 by {
                    assert(q[i + 1].0 < q[j + 1].0);
                }
                assert forall|i: int| 0 <= i < r.len() implies (#[trigger] r[i]).1.len() > 0 by {
                    assert(r[i] == q[i + 1]);
                }
            }
            lemma_skip_due_after(r, round);
            let d = due_count(r, round) as int;
            assert(q.skip(d + 1) =~= r.skip(d));
        }
    }
}

} // verus!
