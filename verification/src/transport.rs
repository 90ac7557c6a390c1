//! Transport abstractions: applying protocol effects to a message sink.
//!
//! This module defines a trait, not concrete networking. Real transports can
//! use TCP, UDP, QUIC, in-memory channels, or test simulators.

use vstd::prelude::*;

use crate::effect::Effect;
use crate::identity::NodeId;

verus! {

/// Error returned by a gossip transport.
#[derive(Debug)]
pub struct TransportError {
    target: NodeId,
    message: String,
}

impl TransportError {
    /// The node the failed send was addressed to.
    pub closed spec fn spec_target(self) -> NodeId {
        self.target
    }

    /// The error message.
    pub closed spec fn spec_message(self) -> Seq<char> {
        self.message@
    }

    /// Creates a transport error for a target node.
    pub fn new(target: NodeId, message: &str) -> (e: Self)
        ensures
            e.spec_target() == target,
            e.spec_message() == message@,
    {
        TransportError { target, message: String::from_str(message) }
    }

    /// Returns the target node related to this error.
    pub fn target(&self) -> (t: &NodeId)
        ensures
            *t == self.spec_target(),
    {
        &self.target
    }

    /// Returns the error message.
    pub fn message(&self) -> (m: &str)
        ensures
            m@ == self.spec_message(),
    {
        self.message.as_str()
    }

    /// Returns the display form: `transport error sending to <target>: <message>`.
    pub fn to_string(&self) -> (s: String)
        ensures
            s@ == "transport error sending to "@ + self.spec_target()@ + ": "@ + self.spec_message(),
    {
        let mut s = String::from_str("transport error sending to ");
        s.append(self.target.as_str());
        s.append(": ");
        s.append(self.message.as_str());
        s
    }
}

impl Clone for TransportError {
    fn clone(&self) -> (e: Self)
        ensures
            e == *self,
    {
        TransportError { target: self.target.clone(), message: self.message.clone() }
    }
}

impl PartialEq for TransportError {
    fn eq(&self, other: &Self) -> (b: bool) {
        self.target == other.target && self.message == other.message
    }
}

impl vstd::std_specs::cmp::PartialEqSpecImpl for TransportError {
    open spec fn obeys_eq_spec() -> bool {
        true
    }

    open spec fn eq_spec(&self, other: &TransportError) -> bool {
        self.spec_target()@ == other.spec_target()@ && self.spec_message() == other.spec_message()
    }
}

impl Eq for TransportError {
}

/// A synchronous transport capable of sending one message to one target.
///
/// The trait is generic over the message type: a caller may send raw bytes,
/// encoded protocol messages, or in-memory test messages.
pub trait Transport<Message>: Sized {
    /// Sending `message` to `target` from `self` may leave `after` and return `result`.
    ///
    /// A transport that says nothing of its sends allows every outcome.
    open spec fn sends_to(&self, target: NodeId, message: Message, after: Self, result: Result<(), TransportError>) -> bool {
        true
    }

    /// Sends one message to one target.
    fn send(&mut self, target: &NodeId, message: Message) -> (result: Result<(), TransportError>)
        ensures
            old(self).sends_to(*target, message, *final(self), result),
    ;
}

/// In-memory transport useful for tests and simulations: one queue of
/// messages per target node.
#[derive(Debug, PartialEq, Eq)]
pub struct InMemoryTransport<Message> {
    inboxes: Vec<(NodeId, Vec<Message>)>,
}

/// No two inboxes belong to the same node.
pub open spec fn distinct_inboxes<Message>(inboxes: Seq<(NodeId, Vec<Message>)>) -> bool {
    forall|i: int, j: int|
        0 <= i < inboxes.len() && 0 <= j < inboxes.len() && i != j ==> inboxes[i].0@ != inboxes[j].0@
}

impl<Message> InMemoryTransport<Message> {
    /// No two inboxes belong to the same node.
    #[verifier::type_invariant]
    closed spec fn inboxes_distinct(self) -> bool {
        distinct_inboxes(self.inboxes@)
    }

    /// The messages queued for the node named `name`, oldest first.
    pub closed spec fn spec_queue(self, name: Seq<char>) -> Seq<Message> {
        if exists|i: int| 0 <= i < self.inboxes@.len() && #[trigger] self.inboxes@[i].0@ == name {
            let i = choose|i: int| 0 <= i < self.inboxes@.len() && #[trigger] self.inboxes@[i].0@ == name;
            self.inboxes@[i].1@
        } else {
            Seq::empty()
        }
    }

    proof fn lemma_queue_at(inboxes: Seq<(NodeId, Vec<Message>)>, i: int, t: InMemoryTransport<Message>)
        requires
            t.inboxes@ == inboxes,
            distinct_inboxes(inboxes),
            0 <= i < inboxes.len(),
        ensures
            t.spec_queue(inboxes[i].0@) == inboxes[i].1@,
    {
        let name = inboxes[i].0@;
        let j = choose|j: int| 0 <= j < inboxes.len() && #[trigger] inboxes[j].0@ == name;
        assert(j == i);
    }

    /// Removing inbox `i` (by swapping in the last one) leaves every other
    /// queue as it was and no queue for its node.
    proof fn lemma_swap_remove(old_t: InMemoryTransport<Message>, new_t: InMemoryTransport<Message>, i: int)
        requires
            distinct_inboxes(old_t.inboxes@),
            0 <= i < old_t.inboxes@.len(),
            new_t.inboxes@ == old_t.inboxes@.update(i, old_t.inboxes@.last()).drop_last(),
        ensures
            distinct_inboxes(new_t.inboxes@),
            new_t.spec_queue(old_t.inboxes@[i].0@) == Seq::<Message>::empty(),
            forall|name: Seq<char>|
                name != old_t.inboxes@[i].0@ ==> #[trigger] new_t.spec_queue(name) == old_t.spec_queue(name),
    {
        let o = old_t.inboxes@;
        let n = new_t.inboxes@;
        let last = o.len() - 1;
        let src = |k: int| if k == i { last } else { k };
        assert forall|a: int, b: int| 0 <= a < n.len() && 0 <= b < n.len() && a != b implies n[a].0@ != n[b].0@ by {
            assert(n[a] == o[src(a)]);
            assert(n[b] == o[src(b)]);
        }
        assert(!exists|k: int| 0 <= k < n.len() && #[trigger] n[k].0@ == o[i].0@) by {
            if exists|k: int| 0 <= k < n.len() && #[trigger] n[k].0@ == o[i].0@ {
                let k = choose|k: int| 0 <= k < n.len() && #[trigger] n[k].0@ == o[i].0@;
                assert(n[k] == o[src(k)]);
            }
        }
        assert forall|name: Seq<char>| name != o[i].0@ implies #[trigger] new_t.spec_queue(name) == old_t.spec_queue(name) by {
            if exists|k: int| 0 <= k < n.len() && #[trigger] n[k].0@ == name {
                let k = choose|k: int| 0 <= k < n.len() && #[trigger] n[k].0@ == name;
                assert(n[k] == o[src(k)]);
                Self::lemma_queue_at(n, k, new_t);
                Self::lemma_queue_at(o, src(k), old_t);
            } else if exists|k: int| 0 <= k < o.len() && #[trigger] o[k].0@ == name {
                let k = choose|k: int| 0 <= k < o.len() && #[trigger] o[k].0@ == name;
                assert(k != i);
                let m = if k == last { i } else { k };
                assert(n[m] == o[k]);
            }
        }
    }

    /// Creates an empty in-memory transport.
    pub fn new() -> (t: Self)
        ensures
            forall|name: Seq<char>| #[trigger] t.spec_queue(name) == Seq::<Message>::empty(),
    {
        InMemoryTransport { inboxes: Vec::new() }
    }

    fn position(&self, target: &NodeId) -> (r: Option<usize>)
        ensures
            r matches Some(i) ==> i < self.inboxes@.len() && self.inboxes@[i as int].0@ == target@,
            r is None ==> forall|i: int| 0 <= i < self.inboxes@.len() ==> #[trigger] self.inboxes@[i].0@ != target@,
    {
        let mut i: usize = 0;
        while i < self.inboxes.len()
            invariant
                i <= self.inboxes@.len(),
                forall|j: int| 0 <= j < i ==> #[trigger] self.inboxes@[j].0@ != target@,
            decreases self.inboxes@.len() - i,
        {
            if self.inboxes[i].0.same_as(target) {
                return Some(i);
            }
            i = i + 1;
        }
        None
    }

    /// Returns the number of queued messages for a target node.
    pub fn queued_len(&self, target: &NodeId) -> (n: usize)
        ensures
            n == self.spec_queue(target@).len(),
    {
        proof {
            use_type_invariant(self);
        }
        match self.position(target) {
            Some(i) => {
                proof {
                    Self::lemma_queue_at(self.inboxes@, i as int, *self);
                }
                self.inboxes[i].1.len()
            },
            None => 0,
        }
    }

    /// Returns `true` if the target has at least one queued message.
    pub fn has_queued(&self, target: &NodeId) -> (b: bool)
        ensures
            b == (self.spec_queue(target@).len() > 0),
    {
        self.queued_len(target) > 0
    }

    /// Removes and returns all queued messages for a target node.
    pub fn drain(&mut self, target: &NodeId) -> (messages: Vec<Message>)
        ensures
            messages@ == old(self).spec_queue(target@),
            final(self).spec_queue(target@) == Seq::<Message>::empty(),
            forall|name: Seq<char>|
                name != target@ ==> #[trigger] final(self).spec_queue(name) == old(self).spec_queue(name),
    {
        proof {
            use_type_invariant(&*self);
        }
        match self.position(target) {
            Some(i) => {
                proof {
                    Self::lemma_queue_at(self.inboxes@, i as int, *self);
                }
                let ghost old_self = *self;
                let mut taken = InMemoryTransport::new();
                std::mem::swap(self, &mut taken);
                let InMemoryTransport { mut inboxes } = taken;
                let (_name, messages) = inboxes.swap_remove(i);
                let ghost new_self = InMemoryTransport { inboxes };
                proof {
                    Self::lemma_swap_remove(old_self, new_self, i as int);
                }
                *self = InMemoryTransport { inboxes };
                messages
            },
            None => Vec::new(),
        }
    }
}

impl<Message> Default for InMemoryTransport<Message> {
    fn default() -> (t: Self)
        ensures
            forall|name: Seq<char>| #[trigger] t.spec_queue(name) == Seq::<Message>::empty(),
    {
        InMemoryTransport::new()
    }
}

impl<Message> Transport<Message> for InMemoryTransport<Message> {
    /// Sending always succeeds and appends the message to the target's queue.
    open spec fn sends_to(&self, target: NodeId, message: Message, after: Self, result: Result<(), TransportError>) -> bool {
        &&& result is Ok
        &&& after.spec_queue(target@) == self.spec_queue(target@).push(message)
        &&& forall|name: Seq<char>| name != target@ ==> #[trigger] after.spec_queue(name) == self.spec_queue(name)
    }

    fn send(&mut self, target: &NodeId, message: Message) -> (result: Result<(), TransportError>) {
        proof {
            use_type_invariant(&*self);
        }
        let ghost old_self = *self;
        let position = self.position(target);
        let mut taken = InMemoryTransport::new();
        std::mem::swap(self, &mut taken);
        let InMemoryTransport { mut inboxes } = taken;
        match position {
            Some(i) => {
                proof {
                    Self::lemma_queue_at(inboxes@, i as int, old_self);
                }
                let (name, mut queue) = inboxes.swap_remove(i);
                let ghost mid = InMemoryTransport { inboxes };
                proof {
                    Self::lemma_swap_remove(old_self, mid, i as int);
                }
                queue.push(message);
                inboxes.push((name, queue));
                *self = InMemoryTransport { inboxes };
                proof {
                    Self::lemma_queue_at(self.inboxes@, self.inboxes@.len() - 1, *self);
                    assert forall|n: Seq<char>| n != target@ implies #[trigger] self.spec_queue(n) == mid.spec_queue(n) by {
                        if exists|k: int| 0 <= k < self.inboxes@.len() && #[trigger] self.inboxes@[k].0@ == n {
                            let k = choose|k: int| 0 <= k < self.inboxes@.len() && #[trigger] self.inboxes@[k].0@ == n;
                            assert(k < mid.inboxes@.len());
                            assert(self.inboxes@[k] == mid.inboxes@[k]);
                            Self::lemma_queue_at(self.inboxes@, k, *self);
                            Self::lemma_queue_at(mid.inboxes@, k, mid);
                        } else if exists|k: int| 0 <= k < mid.inboxes@.len() && #[trigger] mid.inboxes@[k].0@ == n {
                            let k = choose|k: int| 0 <= k < mid.inboxes@.len() && #[trigger] mid.inboxes@[k].0@ == n;
                            assert(self.inboxes@[k] == mid.inboxes@[k]);
                        }
                    }
                }
            },
            None => {
                let ghost mid = InMemoryTransport { inboxes };
                let mut queue: Vec<Message> = Vec::new();
                queue.push(message);
                inboxes.push((target.clone(), queue));
                *self = InMemoryTransport { inboxes };
                proof {
                    assert(old_self.spec_queue(target@) == Seq::<Message>::empty());
                    Self::lemma_queue_at(self.inboxes@, self.inboxes@.len() - 1, *self);
                    assert forall|n: Seq<char>| n != target@ implies #[trigger] self.spec_queue(n) == mid.spec_queue(n) by {
                        if exists|k: int| 0 <= k < self.inboxes@.len() && #[trigger] self.inboxes@[k].0@ == n {
                            let k = choose|k: int| 0 <= k < self.inboxes@.len() && #[trigger] self.inboxes@[k].0@ == n;
                            assert(k < mid.inboxes@.len());
                            assert(self.inboxes@[k] == mid.inboxes@[k]);
                            Self::lemma_queue_at(self.inboxes@, k, *self);
                            Self::lemma_queue_at(mid.inboxes@, k, mid);
                        } else if exists|k: int| 0 <= k < mid.inboxes@.len() && #[trigger] mid.inboxes@[k].0@ == n {
                            let k = choose|k: int| 0 <= k < mid.inboxes@.len() && #[trigger] mid.inboxes@[k].0@ == n;
                            assert(self.inboxes@[k] == mid.inboxes@[k]);
                        }
                    }
                }
            },
        }
        Ok(())
    }
}

impl<Message: Clone> Clone for InMemoryTransport<Message> {
    /// Copies every inbox, in the same order; each queue keeps its length.
    fn clone(&self) -> (t: Self) {
        proof {
            use_type_invariant(self);
        }
        let mut inboxes: Vec<(NodeId, Vec<Message>)> = Vec::new();
        let mut i: usize = 0;
        while i < self.inboxes.len()
            invariant
                i <= self.inboxes@.len(),
                inboxes@.len() == i,
                distinct_inboxes(self.inboxes@),
                forall|k: int| 0 <= k < i ==> (#[trigger] inboxes@[k]).0@ == self.inboxes@[k].0@,
            decreases self.inboxes@.len() - i,
        {
            let name = self.inboxes[i].0.clone();
            let queue = self.inboxes[i].1.clone();
            inboxes.push((name, queue));
            i = i + 1;
        }
        InMemoryTransport { inboxes }
    }
}

/// Summary produced after applying protocol effects to a transport.
#[derive(Clone, Debug, PartialEq, Eq)]
pub struct EffectReport<Event> {
    sent: usize,
    events: Vec<Event>,
    errors: Vec<TransportError>,
}

impl<Event> EffectReport<Event> {
    /// The number of messages sent successfully.
    pub closed spec fn spec_sent(self) -> usize {
        self.sent
    }

    /// The emitted protocol events, in order.
    pub closed spec fn spec_events(self) -> Seq<Event> {
        self.events@
    }

    /// The transport errors, in order.
    pub closed spec fn spec_errors(self) -> Seq<TransportError> {
        self.errors@
    }

    /// Creates an empty effect report.
    pub fn new() -> (r: Self)
        ensures
            r.spec_sent() == 0,
            r.spec_events() == Seq::<Event>::empty(),
            r.spec_errors() == Seq::<TransportError>::empty(),
    {
        EffectReport { sent: 0, events: Vec::new(), errors: Vec::new() }
    }

    /// Returns the number of messages sent successfully.
    pub fn sent(&self) -> (n: usize)
        ensures
            n == self.spec_sent(),
    {
        self.sent
    }

    /// Returns emitted protocol events.
    pub fn events(&self) -> (events: &[Event])
        ensures
            events@ == self.spec_events(),
    {
        self.events.as_slice()
    }

    /// Returns transport errors.
    pub fn errors(&self) -> (errors: &[TransportError])
        ensures
            errors@ == self.spec_errors(),
    {
        self.errors.as_slice()
    }

    /// Returns `true` if at least one transport send failed.
    pub fn has_errors(&self) -> (b: bool)
        ensures
            b == (self.spec_errors().len() > 0),
    {
        self.errors.len() > 0
    }
}

impl<Event> Default for EffectReport<Event> {
    fn default() -> (r: Self)
        ensures
            r.spec_sent() == 0,
            r.spec_events() == Seq::<Event>::empty(),
            r.spec_errors() == Seq::<TransportError>::empty(),
    {
        EffectReport::new()
    }
}

/// The send requests among `effects`, in order.
pub open spec fn sends_of<Message, Event>(effects: Seq<Effect<Message, Event>>) -> Seq<(NodeId, Message)>
    decreases effects.len(),
{
    if effects.len() == 0 {
        Seq::empty()
    } else {
        let rest = sends_of(effects.drop_last());
        match effects.last() {
            Effect::Send { target, message } => rest.push((target, message)),
            Effect::Emit(_) => rest,
        }
    }
}

/// The events among `effects`, in order.
pub open spec fn events_of<Message, Event>(effects: Seq<Effect<Message, Event>>) -> Seq<Event>
    decreases effects.len(),
{
    if effects.len() == 0 {
        Seq::empty()
    } else {
        let rest = events_of(effects.drop_last());
        match effects.last() {
            Effect::Send { .. } => rest,
            Effect::Emit(event) => rest.push(event),
        }
    }
}

/// `states` and `results` trace performing `sends` one after another on `start`.
pub open spec fn send_trace<Message, T: Transport<Message>>(
    start: T,
    sends: Seq<(NodeId, Message)>,
    states: Seq<T>,
    results: Seq<Result<(), TransportError>>,
) -> bool {
    &&& states.len() == sends.len() + 1
    &&& results.len() == sends.len()
    &&& states[0] == start
    &&& forall|i: int|
        0 <= i < sends.len() ==> #[trigger] states[i].sends_to(sends[i].0, sends[i].1, states[i + 1], results[i])
}

/// The number of successful results.
pub open spec fn count_ok(results: Seq<Result<(), TransportError>>) -> nat
    decreases results.len(),
{
    if results.len() == 0 {
        0
    } else {
        count_ok(results.drop_last()) + if results.last() is Ok { 1nat } else { 0nat }
    }
}

/// The errors among `results`, in order.
pub open spec fn errors_of(results: Seq<Result<(), TransportError>>) -> Seq<TransportError>
    decreases results.len(),
{
    if results.len() == 0 {
        Seq::empty()
    } else {
        let rest = errors_of(results.drop_last());
        match results.last() {
            Ok(()) => rest,
            Err(e) => rest.push(e),
        }
    }
}

proof fn lemma_count_ok_bound(results: Seq<Result<(), TransportError>>)
    ensures
        count_ok(results) <= results.len(),
    decreases results.len(),
{
    if results.len() > 0 {
        lemma_count_ok_bound(results.drop_last());
    }
}

/// The messages among `sends` addressed to the node named `name`, in order.
pub open spec fn messages_to<Message>(sends: Seq<(NodeId, Message)>, name: Seq<char>) -> Seq<Message>
    decreases sends.len(),
{
    if sends.len() == 0 {
        Seq::empty()
    } else {
        let rest = messages_to(sends.drop_last(), name);
        if sends.last().0@ == name {
            rest.push(sends.last().1)
        } else {
            rest
        }
    }
}

/// The in-memory transport delivers in order and never fails: after any
/// sequence of sends, every send succeeded, no error was produced, and the
/// queue of each node is its old queue followed by the messages sent to it.
pub proof fn lemma_in_memory_delivery<Message>(
    start: InMemoryTransport<Message>,
    sends: Seq<(NodeId, Message)>,
    states: Seq<InMemoryTransport<Message>>,
    results: Seq<Result<(), TransportError>>,
)
    requires
        send_trace(start, sends, states, results),
    ensures
        count_ok(results) == sends.len(),
        errors_of(results) == Seq::<TransportError>::empty(),
        forall|name: Seq<char>|
            #[trigger] states.last().spec_queue(name) == start.spec_queue(name) + messages_to(sends, name),
    decreases sends.len(),
{
    if sends.len() == 0 {
        assert forall|name: Seq<char>|
            #[trigger] states.last().spec_queue(name) == start.spec_queue(name) + messages_to(sends, name) by {
            assert(start.spec_queue(name) + Seq::<Message>::empty() =~= start.spec_queue(name));
        }
    } else {
        let n = sends.len() - 1;
        let prefix_states = states.drop_last();
        let prefix_results = results.drop_last();
        assert forall|i: int| 0 <= i < n implies #[trigger] prefix_states[i].sends_to(
            sends.drop_last()[i].0,
            sends.drop_last()[i].1,
            prefix_states[i + 1],
            prefix_results[i],
        ) by {
            assert(states[i].sends_to(sends[i].0, sends[i].1, states[i + 1], results[i]));
        }
        lemma_in_memory_delivery(start, sends.drop_last(), prefix_states, prefix_results);
        assert(states[n].sends_to(sends[n].0, sends[n].1, states[n + 1], results[n]));
        assert forall|name: Seq<char>|
            #[trigger] states.last().spec_queue(name) == start.spec_queue(name) + messages_to(sends, name) by {
            assert(prefix_states.last() == states[n]);
            if sends[n].0@ == name {
                assert(start.spec_queue(name) + messages_to(sends, name) =~= (start.spec_queue(name)
                    + messages_to(sends.drop_last(), name)).push(sends[n].1));
            }
        }
    }
}

/// Applies protocol effects to a transport, in order.
///
/// Send effects are passed to the transport; emit effects are collected into
/// the returned report.
pub fn apply_effects<Message, Event, T: Transport<Message>>(
    transport: &mut T,
    effects: Vec<Effect<Message, Event>>,
) -> (report: EffectReport<Event>)
    ensures
        report.spec_events() == events_of(effects@),
        exists|states: Seq<T>, results: Seq<Result<(), TransportError>>|
            #[trigger] send_trace(*old(transport), sends_of(effects@), states, results) && {
                &&& *final(transport) == states.last()
                &&& report.spec_sent() == count_ok(results)
                &&& report.spec_errors() == errors_of(results)
            },
{
    let ghost all = effects@;
    let n = effects.len();
    let mut pending = crate::vec_order::reversed(effects);
    let mut report = EffectReport::new();
    let ghost mut states: Seq<T> = seq![*transport];
    let ghost mut results: Seq<Result<(), TransportError>> = Seq::empty();
    let mut k: usize = 0;
    while k < n
        invariant
            n == all.len(),
            k <= n,
            pending@.len() == n - k,
            forall|j: int| 0 <= j < n - k ==> #[trigger] pending@[j] == all[n - 1 - j],
            send_trace(*old(transport), sends_of(all.take(k as int)), states, results),
            *transport == states.last(),
            report.sent == count_ok(results),
            report.errors@ == errors_of(results),
            report.events@ == events_of(all.take(k as int)),
            results.len() <= k,
        decreases n - k,
    {
        let effect = pending.pop().unwrap();
        proof {
            let t = all.take(k + 1);
            assert(t.drop_last() =~= all.take(k as int));
            assert(t.last() == all[k as int]);
            lemma_count_ok_bound(results);
        }
        match effect {
            Effect::Send { target, message } => {
                let ghost m = message;
                let ghost prev_states = states;
                let ghost prev_results = results;
                let ghost sends = sends_of(all.take(k + 1));
                let result = transport.send(&target, message);
                proof {
                    states = states.push(*transport);
                    results = results.push(result);
                    assert(sends == sends_of(all.take(k as int)).push((target, m)));
                    assert(results.drop_last() =~= prev_results);
                    assert forall|i: int| 0 <= i < sends.len() implies #[trigger] states[i].sends_to(
                        sends[i].0,
                        sends[i].1,
                        states[i + 1],
                        results[i],
                    ) by {
                        if i < sends.len() - 1 {
                            assert(sends[i] == sends_of(all.take(k as int))[i]);
                            assert(prev_states[i].sends_to(
                                sends[i].0,
                                sends[i].1,
                                prev_states[i + 1],
                                prev_results[i],
                            ));
                        }
                    }
                }
                match result {
                    Ok(()) => {
                        report.sent = report.sent + 1;
                    },
                    Err(e) => {
                        report.errors.push(e);
                    },
                }
            },
            Effect::Emit(event) => {
                report.events.push(event);
            },
        }
        k = k + 1;
    }
    proof {
        assert(all.take(n as int) =~= all);
    }
    report
}

} // verus!
