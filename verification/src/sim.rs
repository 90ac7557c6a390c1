//! Deterministic simulation of gossip clusters: simulated nodes, network
//! partitions, and the reports of ticks, runs, reach and convergence.

use vstd::prelude::*;

use crate::effect::Effect;
use crate::identity::NodeId;
use crate::message::GossipMessage;
use crate::node::{ticked, GossipNode};
use crate::rng::DeterministicRng;
use crate::time::Round;

verus! {

/// A node managed by a simulation cluster: a gossip node and its own random source.
#[derive(Clone, Debug)]
pub struct SimNode<T> {
    node: GossipNode<T>,
    rng: DeterministicRng,
}

impl<T> SimNode<T> {
    /// The gossip node.
    pub closed spec fn spec_node(self) -> GossipNode<T> {
        self.node
    }

    /// The node's random source.
    pub closed spec fn spec_rng(self) -> DeterministicRng {
        self.rng
    }

    /// Creates a simulated node.
    pub fn new(node: GossipNode<T>, rng: DeterministicRng) -> (s: Self)
        ensures
            s.spec_node() == node,
            s.spec_rng() == rng,
    {
        SimNode { node, rng }
    }

    /// Returns the inner gossip node.
    pub fn node(&self) -> (node: &GossipNode<T>)
        ensures
            *node == self.spec_node(),
    {
        &self.node
    }

    /// Returns the mutable inner gossip node.
    pub fn node_mut(&mut self) -> (node: &mut GossipNode<T>)
        ensures
            *node == old(self).spec_node(),
            final(self).spec_node() == *final(node),
            final(self).spec_rng() == old(self).spec_rng(),
    {
        &mut self.node
    }
}

impl<T: Clone> SimNode<T> {
    /// Runs one gossip round of the node with its own random source.
    pub fn tick(&mut self, round: Round) -> (effects: Vec<Effect<GossipMessage<T>, ()>>)
        requires
            old(self).spec_node().wf(),
        ensures
            final(self).spec_node().wf(),
            ticked(
                old(self).spec_node(),
                old(self).spec_rng(),
                round,
                final(self).spec_node(),
                final(self).spec_rng(),
                effects@,
            ),
    {
        self.node.tick(&mut self.rng, round)
    }
}

/// `names` holds a node named `name`.
pub open spec fn names_node(names: Seq<NodeId>, name: Seq<char>) -> bool {
    exists|i: int| 0 <= i < names.len() && #[trigger] names[i]@ == name
}

/// A simulated network partition between two sets of nodes.
#[derive(Debug, PartialEq, Eq)]
pub struct NetworkPartition {
    side_a: Vec<NodeId>,
    side_b: Vec<NodeId>,
}

impl NetworkPartition {
    /// The first side of the partition.
    pub closed spec fn spec_side_a(self) -> Seq<NodeId> {
        self.side_a@
    }

    /// The second side of the partition.
    pub closed spec fn spec_side_b(self) -> Seq<NodeId> {
        self.side_b@
    }

    /// The partition cuts the link from `source` to `target`: they lie on
    /// opposite sides.
    pub open spec fn spec_blocks(self, source: Seq<char>, target: Seq<char>) -> bool {
        ||| names_node(self.spec_side_a(), source) && names_node(self.spec_side_b(), target)
        ||| names_node(self.spec_side_b(), source) && names_node(self.spec_side_a(), target)
    }

    /// Creates a partition between two sets of nodes.
    pub fn new(side_a: Vec<NodeId>, side_b: Vec<NodeId>) -> (p: Self)
        ensures
            p.spec_side_a() == side_a@,
            p.spec_side_b() == side_b@,
    {
        NetworkPartition { side_a, side_b }
    }

    /// Returns the first side of the partition.
    pub fn side_a(&self) -> (side: &[NodeId])
        ensures
            side@ == self.spec_side_a(),
    {
        self.side_a.as_slice()
    }

    /// Returns the second side of the partition.
    pub fn side_b(&self) -> (side: &[NodeId])
        ensures
            side@ == self.spec_side_b(),
    {
        self.side_b.as_slice()
    }

    /// Returns `true` if the partition cuts the link from `source` to `target`.
    pub fn blocks(&self, source: &NodeId, target: &NodeId) -> (b: bool)
        ensures
            b == self.spec_blocks(source@, target@),
    {
        let source_in_a = contains_name(&self.side_a, source);
        let source_in_b = contains_name(&self.side_b, source);
        let target_in_a = contains_name(&self.side_a, target);
        let target_in_b = contains_name(&self.side_b, target);
        (source_in_a && target_in_b) || (source_in_b && target_in_a)
    }
}

impl Clone for NetworkPartition {
    fn clone(&self) -> (p: Self)
        ensures
            p.spec_side_a() == self.spec_side_a(),
            p.spec_side_b() == self.spec_side_b(),
    {
        NetworkPartition { side_a: clone_ids(&self.side_a), side_b: clone_ids(&self.side_b) }
    }
}

/// Returns `true` if `names` holds a node named like `name`.
pub fn contains_name(names: &Vec<NodeId>, name: &NodeId) -> (b: bool)
    ensures
        b == names_node(names@, name@),
{
    let mut i: usize = 0;
    while i < names.len()
        invariant
            i <= names@.len(),
            forall|j: int| 0 <= j < i ==> #[trigger] names@[j]@ != name@,
        decreases names@.len() - i,
    {
        if names[i].same_as(name) {
            return true;
        }
        i = i + 1;
    }
    false
}

/// Returns a copy of a list of node identifiers.
pub fn clone_ids(ids: &Vec<NodeId>) -> (copy: Vec<NodeId>)
    ensures
        copy@ == ids@,
{
    let mut copy: Vec<NodeId> = Vec::new();
    let mut i: usize = 0;
    while i < ids.len()
        invariant
            i <= ids@.len(),
            copy@ == ids@.take(i as int),
        decreases ids@.len() - i,
    {
        copy.push(ids[i].clone());
        i = i + 1;
        assert(copy@ =~= ids@.take(i as int));
    }
    assert(ids@.take(ids@.len() as int) =~= ids@);
    copy
}

/// Original sends that the network did not drop (saturating at zero).
pub open spec fn spec_accepted(attempted: usize, dropped: usize) -> usize {
    if attempted >= dropped { (attempted - dropped) as usize } else { 0 }
}

/// Message copies after duplication: accepted sends plus duplicates
/// (saturating at `usize::MAX`).
pub open spec fn spec_message_copies(attempted: usize, dropped: usize, duplicated: usize) -> usize {
    let total = spec_accepted(attempted, dropped) + duplicated;
    if total <= usize::MAX { total as usize } else { usize::MAX }
}

fn accepted_messages(attempted: usize, dropped: usize) -> (n: usize)
    ensures
        n == spec_accepted(attempted, dropped),
{
    attempted.saturating_sub(dropped)
}

fn message_copies(attempted: usize, dropped: usize, duplicated: usize) -> (n: usize)
    ensures
        n == spec_message_copies(attempted, dropped, duplicated),
{
    accepted_messages(attempted, dropped).saturating_add(duplicated)
}

/// Summary of one simulated cluster tick.
#[derive(Clone, Debug, PartialEq, Eq)]
pub struct TickReport<Event> {
    attempted: usize,
    sent: usize,
    dropped: usize,
    duplicated: usize,
    delayed: usize,
    received: usize,
    events: Vec<(NodeId, Event)>,
}

impl<Event> TickReport<Event> {
    /// Original send attempts.
    pub closed spec fn spec_attempted(self) -> usize {
        self.attempted
    }

    /// Messages handed to the simulated transport.
    pub closed spec fn spec_sent(self) -> usize {
        self.sent
    }

    /// Messages dropped by the simulated network.
    pub closed spec fn spec_dropped(self) -> usize {
        self.dropped
    }

    /// Extra duplicate messages created.
    pub closed spec fn spec_duplicated(self) -> usize {
        self.duplicated
    }

    /// Messages delayed for a future tick.
    pub closed spec fn spec_delayed(self) -> usize {
        self.delayed
    }

    /// Messages delivered to receiving nodes.
    pub closed spec fn spec_received(self) -> usize {
        self.received
    }

    /// Events emitted during delivery, paired with the receiving node.
    pub closed spec fn spec_events(self) -> Seq<(NodeId, Event)> {
        self.events@
    }

    /// Creates an empty tick report.
    pub fn new() -> (r: Self)
        ensures
            r.spec_attempted() == 0,
            r.spec_sent() == 0,
            r.spec_dropped() == 0,
            r.spec_duplicated() == 0,
            r.spec_delayed() == 0,
            r.spec_received() == 0,
            r.spec_events() == Seq::<(NodeId, Event)>::empty(),
    {
        TickReport {
            attempted: 0,
            sent: 0,
            dropped: 0,
            duplicated: 0,
            delayed: 0,
            received: 0,
            events: Vec::new(),
        }
    }

    /// Creates a tick report from its counters and events.
    pub(crate) fn from_counts(
        attempted: usize,
        sent: usize,
        dropped: usize,
        duplicated: usize,
        delayed: usize,
        received: usize,
        events: Vec<(NodeId, Event)>,
    ) -> (r: Self)
        ensures
            r.spec_attempted() == attempted,
            r.spec_sent() == sent,
            r.spec_dropped() == dropped,
            r.spec_duplicated() == duplicated,
            r.spec_delayed() == delayed,
            r.spec_received() == received,
            r.spec_events() == events@,
    {
        TickReport { attempted, sent, dropped, duplicated, delayed, received, events }
    }

    /// Returns the number of original send attempts during the tick.
    pub fn attempted(&self) -> (n: usize)
        ensures
            n == self.spec_attempted(),
    {
        self.attempted
    }

    /// Returns the number of messages handed to the simulated transport during the tick.
    pub fn sent(&self) -> (n: usize)
        ensures
            n == self.spec_sent(),
    {
        self.sent
    }

    /// Returns the number of messages dropped by the simulated network during the tick.
    pub fn dropped(&self) -> (n: usize)
        ensures
            n == self.spec_dropped(),
    {
        self.dropped
    }

    /// Returns the number of extra duplicate messages created during the tick.
    pub fn duplicated(&self) -> (n: usize)
        ensures
            n == self.spec_duplicated(),
    {
        self.duplicated
    }

    /// Returns the number of messages delayed for a future tick.
    pub fn delayed(&self) -> (n: usize)
        ensures
            n == self.spec_delayed(),
    {
        self.delayed
    }

    /// Returns the number of messages delivered to receiving nodes during the tick.
    pub fn received(&self) -> (n: usize)
        ensures
            n == self.spec_received(),
    {
        self.received
    }

    /// Returns original send attempts that were not dropped by the simulated network.
    pub fn accepted(&self) -> (n: usize)
        ensures
            n == spec_accepted(self.spec_attempted(), self.spec_dropped()),
    {
        accepted_messages(self.attempted, self.dropped)
    }

    /// Returns message copies created after duplicate expansion.
    pub fn message_copies(&self) -> (n: usize)
        ensures
            n == spec_message_copies(self.spec_attempted(), self.spec_dropped(), self.spec_duplicated()),
    {
        message_copies(self.attempted, self.dropped, self.duplicated)
    }

    /// Returns the number of new-rumor events emitted during the tick.
    pub fn new_rumors(&self) -> (n: usize)
        ensures
            n == self.spec_events().len(),
    {
        self.events.len()
    }

    /// Returns events emitted during delivery, paired with the receiving node.
    pub fn events(&self) -> (events: &[(NodeId, Event)])
        ensures
            events@ == self.spec_events(),
    {
        self.events.as_slice()
    }
}

impl<Event> Default for TickReport<Event> {
    fn default() -> (r: Self)
        ensures
            r.spec_attempted() == 0,
            r.spec_sent() == 0,
            r.spec_dropped() == 0,
            r.spec_duplicated() == 0,
            r.spec_delayed() == 0,
            r.spec_received() == 0,
            r.spec_events() == Seq::<(NodeId, Event)>::empty(),
    {
        TickReport::new()
    }
}

/// `a + b`, saturating at `usize::MAX`.
pub open spec fn sat_add(a: usize, b: usize) -> usize {
    if a + b <= usize::MAX { (a + b) as usize } else { usize::MAX }
}

/// Summary of running a simulation for multiple rounds.
///
/// Counters add up the ticks of the run, saturating at their maximum.
#[derive(Clone, Debug, PartialEq, Eq)]
pub struct RunReport<Event> {
    rounds_run: u64,
    attempted: usize,
    sent: usize,
    dropped: usize,
    duplicated: usize,
    delayed: usize,
    received: usize,
    events: Vec<(NodeId, Event)>,
}

impl<Event> RunReport<Event> {
    /// Rounds run.
    pub closed spec fn spec_rounds_run(self) -> u64 {
        self.rounds_run
    }

    /// Original send attempts.
    pub closed spec fn spec_attempted(self) -> usize {
        self.attempted
    }

    /// Messages handed to the simulated transport.
    pub closed spec fn spec_sent(self) -> usize {
        self.sent
    }

    /// Messages dropped by the simulated network.
    pub closed spec fn spec_dropped(self) -> usize {
        self.dropped
    }

    /// Extra duplicate messages created.
    pub closed spec fn spec_duplicated(self) -> usize {
        self.duplicated
    }

    /// Messages delayed for future delivery.
    pub closed spec fn spec_delayed(self) -> usize {
        self.delayed
    }

    /// Messages delivered to receiving nodes.
    pub closed spec fn spec_received(self) -> usize {
        self.received
    }

    /// Events emitted during the run, paired with the receiving node.
    pub closed spec fn spec_events(self) -> Seq<(NodeId, Event)> {
        self.events@
    }

    /// Creates an empty run report.
    pub fn new() -> (r: Self)
        ensures
            r.spec_rounds_run() == 0,
            r.spec_attempted() == 0,
            r.spec_sent() == 0,
            r.spec_dropped() == 0,
            r.spec_duplicated() == 0,
            r.spec_delayed() == 0,
            r.spec_received() == 0,
            r.spec_events() == Seq::<(NodeId, Event)>::empty(),
    {
        RunReport {
            rounds_run: 0,
            attempted: 0,
            sent: 0,
            dropped: 0,
            duplicated: 0,
            delayed: 0,
            received: 0,
            events: Vec::new(),
        }
    }

    /// Returns how many rounds were run.
    pub fn rounds_run(&self) -> (n: u64)
        ensures
            n == self.spec_rounds_run(),
    {
        self.rounds_run
    }

    /// Returns the number of original send attempts during the run.
    pub fn attempted(&self) -> (n: usize)
        ensures
            n == self.spec_attempted(),
    {
        self.attempted
    }

    /// Returns the number of messages handed to the simulated transport during the run.
    pub fn sent(&self) -> (n: usize)
        ensures
            n == self.spec_sent(),
    {
        self.sent
    }

    /// Returns the number of messages dropped by the simulated network during the run.
    pub fn dropped(&self) -> (n: usize)
        ensures
            n == self.spec_dropped(),
    {
        self.dropped
    }

    /// Returns the number of extra duplicate messages created during the run.
    pub fn duplicated(&self) -> (n: usize)
        ensures
            n == self.spec_duplicated(),
    {
        self.duplicated
    }

    /// Returns the number of messages delayed for future delivery during the run.
    pub fn delayed(&self) -> (n: usize)
        ensures
            n == self.spec_delayed(),
    {
        self.delayed
    }

    /// Returns the number of messages delivered to receiving nodes during the run.
    pub fn received(&self) -> (n: usize)
        ensures
            n == self.spec_received(),
    {
        self.received
    }

    /// Returns original send attempts that were not dropped by the simulated network.
    pub fn accepted(&self) -> (n: usize)
        ensures
            n == spec_accepted(self.spec_attempted(), self.spec_dropped()),
    {
        accepted_messages(self.attempted, self.dropped)
    }

    /// Returns message copies created after duplicate expansion.
    pub fn message_copies(&self) -> (n: usize)
        ensures
            n == spec_message_copies(self.spec_attempted(), self.spec_dropped(), self.spec_duplicated()),
    {
        message_copies(self.attempted, self.dropped, self.duplicated)
    }

    /// Returns the number of new-rumor events emitted during the run.
    pub fn new_rumors(&self) -> (n: usize)
        ensures
            n == self.spec_events().len(),
    {
        self.events.len()
    }

    /// Returns events emitted during the run, paired with the receiving node.
    pub fn events(&self) -> (events: &[(NodeId, Event)])
        ensures
            events@ == self.spec_events(),
    {
        self.events.as_slice()
    }

    /// Adds one tick to the run.
    pub fn record_tick(&mut self, tick: TickReport<Event>)
        ensures
            final(self).spec_rounds_run() == if old(self).spec_rounds_run() < u64::MAX {
                (old(self).spec_rounds_run() + 1) as u64
            } else {
                u64::MAX
            },
            final(self).spec_attempted() == sat_add(old(self).spec_attempted(), tick.spec_attempted()),
            final(self).spec_sent() == sat_add(old(self).spec_sent(), tick.spec_sent()),
            final(self).spec_dropped() == sat_add(old(self).spec_dropped(), tick.spec_dropped()),
            final(self).spec_duplicated() == sat_add(old(self).spec_duplicated(), tick.spec_duplicated()),
            final(self).spec_delayed() == sat_add(old(self).spec_delayed(), tick.spec_delayed()),
            final(self).spec_received() == sat_add(old(self).spec_received(), tick.spec_received()),
            final(self).spec_events() == old(self).spec_events() + tick.spec_events(),
    {
        let TickReport { attempted, sent, dropped, duplicated, delayed, received, events } = tick;
        self.rounds_run = self.rounds_run.saturating_add(1);
        self.attempted = self.attempted.saturating_add(attempted);
        self.sent = self.sent.saturating_add(sent);
        self.dropped = self.dropped.saturating_add(dropped);
        self.duplicated = self.duplicated.saturating_add(duplicated);
        self.delayed = self.delayed.saturating_add(delayed);
        self.received = self.received.saturating_add(received);
        let mut events = events;
        self.events.append(&mut events);
    }
}

impl<Event> Default for RunReport<Event> {
    fn default() -> (r: Self)
        ensures
            r.spec_rounds_run() == 0,
            r.spec_attempted() == 0,
            r.spec_sent() == 0,
            r.spec_events() == Seq::<(NodeId, Event)>::empty(),
    {
        RunReport::new()
    }
}

/// Result of running a cluster until a rumor reaches a target number of nodes.
#[derive(Clone, Copy, Debug, PartialEq, Eq, Structural)]
pub struct ReachReport {
    reached: bool,
    rounds_run: u64,
    reached_nodes: usize,
    attempted: usize,
    sent: usize,
    dropped: usize,
    duplicated: usize,
    delayed: usize,
    received: usize,
    new_rumors: usize,
}

impl ReachReport {
    /// The target reach was achieved.
    pub closed spec fn spec_reached(self) -> bool {
        self.reached
    }

    /// Rounds run.
    pub closed spec fn spec_rounds_run(self) -> u64 {
        self.rounds_run
    }

    /// Nodes that knew the rumor when the run ended.
    pub closed spec fn spec_reached_nodes(self) -> usize {
        self.reached_nodes
    }

    /// Original send attempts while running.
    pub closed spec fn spec_attempted(self) -> usize {
        self.attempted
    }

    /// Messages sent while running.
    pub closed spec fn spec_sent(self) -> usize {
        self.sent
    }

    /// Messages dropped while running.
    pub closed spec fn spec_dropped(self) -> usize {
        self.dropped
    }

    /// Extra duplicates created while running.
    pub closed spec fn spec_duplicated(self) -> usize {
        self.duplicated
    }

    /// Messages delayed while running.
    pub closed spec fn spec_delayed(self) -> usize {
        self.delayed
    }

    /// Messages delivered while running.
    pub closed spec fn spec_received(self) -> usize {
        self.received
    }

    /// New-rumor events emitted while running.
    pub closed spec fn spec_new_rumors(self) -> usize {
        self.new_rumors
    }

    /// A reach report is determined by what it reports.
    pub proof fn lemma_determined(a: ReachReport, b: ReachReport)
        requires
            a.spec_reached() == b.spec_reached(),
            a.spec_rounds_run() == b.spec_rounds_run(),
            a.spec_reached_nodes() == b.spec_reached_nodes(),
            a.spec_attempted() == b.spec_attempted(),
            a.spec_sent() == b.spec_sent(),
            a.spec_dropped() == b.spec_dropped(),
            a.spec_duplicated() == b.spec_duplicated(),
            a.spec_delayed() == b.spec_delayed(),
            a.spec_received() == b.spec_received(),
            a.spec_new_rumors() == b.spec_new_rumors(),
        ensures
            a == b,
    {
    }

    /// Creates a reach report; the other network counters are zero.
    pub fn new(reached: bool, rounds_run: u64, reached_nodes: usize, sent: usize) -> (r: Self)
        ensures
            r.spec_reached() == reached,
            r.spec_rounds_run() == rounds_run,
            r.spec_reached_nodes() == reached_nodes,
            r.spec_sent() == sent,
            r.spec_attempted() == 0,
            r.spec_dropped() == 0,
            r.spec_duplicated() == 0,
            r.spec_delayed() == 0,
            r.spec_received() == 0,
            r.spec_new_rumors() == 0,
    {
        ReachReport {
            reached,
            rounds_run,
            reached_nodes,
            attempted: 0,
            sent,
            dropped: 0,
            duplicated: 0,
            delayed: 0,
            received: 0,
            new_rumors: 0,
        }
    }

    /// Creates a reach report from the counters of a run.
    pub fn from_run_report<Event>(reached: bool, reached_nodes: usize, report: RunReport<Event>) -> (r: Self)
        ensures
            r.spec_reached() == reached,
            r.spec_reached_nodes() == reached_nodes,
            r.spec_rounds_run() == report.spec_rounds_run(),
            r.spec_attempted() == report.spec_attempted(),
            r.spec_sent() == report.spec_sent(),
            r.spec_dropped() == report.spec_dropped(),
            r.spec_duplicated() == report.spec_duplicated(),
            r.spec_delayed() == report.spec_delayed(),
            r.spec_received() == report.spec_received(),
            r.spec_new_rumors() == report.spec_events().len(),
    {
        ReachReport {
            reached,
            rounds_run: report.rounds_run(),
            reached_nodes,
            attempted: report.attempted(),
            sent: report.sent(),
            dropped: report.dropped(),
            duplicated: report.duplicated(),
            delayed: report.delayed(),
            received: report.received(),
            new_rumors: report.new_rumors(),
        }
    }

    /// Returns `true` if the target reach was achieved.
    pub fn reached(&self) -> (b: bool)
        ensures
            b == self.spec_reached(),
    {
        self.reached
    }

    /// Returns how many rounds were run.
    pub fn rounds_run(&self) -> (n: u64)
        ensures
            n == self.spec_rounds_run(),
    {
        self.rounds_run
    }

    /// Returns how many nodes knew the rumor when the run ended.
    pub fn reached_nodes(&self) -> (n: usize)
        ensures
            n == self.spec_reached_nodes(),
    {
        self.reached_nodes
    }

    /// Returns the number of original send attempts while running.
    pub fn attempted(&self) -> (n: usize)
        ensures
            n == self.spec_attempted(),
    {
        self.attempted
    }

    /// Returns the total number of messages sent while running.
    pub fn sent(&self) -> (n: usize)
        ensures
            n == self.spec_sent(),
    {
        self.sent
    }

    /// Returns the number of messages dropped by the simulated network while running.
    pub fn dropped(&self) -> (n: usize)
        ensures
            n == self.spec_dropped(),
    {
        self.dropped
    }

    /// Returns the number of extra duplicate messages created while running.
    pub fn duplicated(&self) -> (n: usize)
        ensures
            n == self.spec_duplicated(),
    {
        self.duplicated
    }

    /// Returns the number of messages delayed for future delivery while running.
    pub fn delayed(&self) -> (n: usize)
        ensures
            n == self.spec_delayed(),
    {
        self.delayed
    }

    /// Returns the number of messages delivered to receiving nodes while running.
    pub fn received(&self) -> (n: usize)
        ensures
            n == self.spec_received(),
    {
        self.received
    }

    /// Returns original send attempts that were not dropped by the simulated network.
    pub fn accepted(&self) -> (n: usize)
        ensures
            n == spec_accepted(self.spec_attempted(), self.spec_dropped()),
    {
        accepted_messages(self.attempted, self.dropped)
    }

    /// Returns message copies created after duplicate expansion.
    pub fn message_copies(&self) -> (n: usize)
        ensures
            n == spec_message_copies(self.spec_attempted(), self.spec_dropped(), self.spec_duplicated()),
    {
        message_copies(self.attempted, self.dropped, self.duplicated)
    }

    /// Returns the number of new-rumor events emitted while running.
    pub fn new_rumors(&self) -> (n: usize)
        ensures
            n == self.spec_new_rumors(),
    {
        self.new_rumors
    }

    /// Checks that the target reach was achieved; callers must only call it
    /// on reports that did reach the target.
    pub fn assert_reached(&self)
        requires
            self.spec_reached(),
    {
    }

    /// Checks that the target reach was achieved within `max_rounds`; callers
    /// must only call it on reports that did.
    pub fn assert_reached_within(&self, max_rounds: u64)
        requires
            self.spec_reached(),
            self.spec_rounds_run() <= max_rounds,
    {
        self.assert_reached();
    }
}

/// Error returned when creating an invalid convergence experiment.
#[derive(Clone, Copy, Debug, PartialEq, Eq, Structural)]
pub enum ExperimentError {
    /// Experiment must contain at least one node.
    ZeroNodeCount,
    /// Fanout must be greater than zero.
    ZeroFanout,
    /// Experiment must run at least one trial.
    ZeroTrials,
}

impl ExperimentError {
    /// The message that describes an error.
    pub open spec fn spec_message(self) -> Seq<char> {
        match self {
            ExperimentError::ZeroNodeCount => "node_count must be greater than zero"@,
            ExperimentError::ZeroFanout => "fanout must be greater than zero"@,
            ExperimentError::ZeroTrials => "trials must be greater than zero"@,
        }
    }

    /// Returns the message that describes this error.
    pub fn to_string(&self) -> (s: String)
        ensures
            s@ == self.spec_message(),
    {
        match self {
            ExperimentError::ZeroNodeCount => String::from_str("node_count must be greater than zero"),
            ExperimentError::ZeroFanout => String::from_str("fanout must be greater than zero"),
            ExperimentError::ZeroTrials => String::from_str("trials must be greater than zero"),
        }
    }
}

/// Aggregate result of repeated convergence trials.
#[derive(Clone, Debug, PartialEq)]
pub struct ConvergenceReport {
    trials: usize,
    successes: usize,
    successful_rounds: Vec<u64>,
    attempted: usize,
    sent: usize,
    dropped: usize,
    duplicated: usize,
    delayed: usize,
    received: usize,
}

impl ConvergenceReport {
    /// Trials run.
    pub closed spec fn spec_trials(self) -> usize {
        self.trials
    }

    /// Successful trials.
    pub closed spec fn spec_successes(self) -> usize {
        self.successes
    }

    /// Rounds each successful trial took, in trial order.
    pub closed spec fn spec_successful_rounds(self) -> Seq<u64> {
        self.successful_rounds@
    }

    /// Original send attempts across all trials.
    pub closed spec fn spec_attempted(self) -> usize {
        self.attempted
    }

    /// Messages sent across all trials.
    pub closed spec fn spec_sent(self) -> usize {
        self.sent
    }

    /// Messages dropped across all trials.
    pub closed spec fn spec_dropped(self) -> usize {
        self.dropped
    }

    /// Extra duplicates across all trials.
    pub closed spec fn spec_duplicated(self) -> usize {
        self.duplicated
    }

    /// Messages delayed across all trials.
    pub closed spec fn spec_delayed(self) -> usize {
        self.delayed
    }

    /// Messages delivered across all trials.
    pub closed spec fn spec_received(self) -> usize {
        self.received
    }

    /// Creates a convergence report.
    pub fn new(
        trials: usize,
        successes: usize,
        successful_rounds: Vec<u64>,
        attempted: usize,
        sent: usize,
        dropped: usize,
        duplicated: usize,
        delayed: usize,
        received: usize,
    ) -> (r: Self)
        ensures
            r.spec_trials() == trials,
            r.spec_successes() == successes,
            r.spec_successful_rounds() == successful_rounds@,
            r.spec_attempted() == attempted,
            r.spec_sent() == sent,
            r.spec_dropped() == dropped,
            r.spec_duplicated() == duplicated,
            r.spec_delayed() == delayed,
            r.spec_received() == received,
    {
        ConvergenceReport {
            trials,
            successes,
            successful_rounds,
            attempted,
            sent,
            dropped,
            duplicated,
            delayed,
            received,
        }
    }

    /// Returns the total number of trials.
    pub fn trials(&self) -> (n: usize)
        ensures
            n == self.spec_trials(),
    {
        self.trials
    }

    /// Returns the number of successful trials.
    pub fn successes(&self) -> (n: usize)
        ensures
            n == self.spec_successes(),
    {
        self.successes
    }

    /// Returns the number of failed trials (saturating at zero).
    pub fn failures(&self) -> (n: usize)
        ensures
            n == spec_accepted(self.spec_trials(), self.spec_successes()),
    {
        self.trials.saturating_sub(self.successes)
    }

    /// Returns the successful round counts.
    pub fn successful_rounds(&self) -> (rounds: &[u64])
        ensures
            rounds@ == self.spec_successful_rounds(),
    {
        self.successful_rounds.as_slice()
    }

    /// Returns the number of original send attempts across all trials.
    pub fn attempted(&self) -> (n: usize)
        ensures
            n == self.spec_attempted(),
    {
        self.attempted
    }

    /// Returns the number of messages handed to simulated transports across all trials.
    pub fn sent(&self) -> (n: usize)
        ensures
            n == self.spec_sent(),
    {
        self.sent
    }

    /// Returns the number of messages dropped by simulated networks across all trials.
    pub fn dropped(&self) -> (n: usize)
        ensures
            n == self.spec_dropped(),
    {
        self.dropped
    }

    /// Returns the number of extra duplicate messages created across all trials.
    pub fn duplicated(&self) -> (n: usize)
        ensures
            n == self.spec_duplicated(),
    {
        self.duplicated
    }

    /// Returns the number of messages delayed for future delivery across all trials.
    pub fn delayed(&self) -> (n: usize)
        ensures
            n == self.spec_delayed(),
    {
        self.delayed
    }

    /// Returns the number of messages delivered to receiving nodes across all trials.
    pub fn received(&self) -> (n: usize)
        ensures
            n == self.spec_received(),
    {
        self.received
    }

    /// Returns original send attempts that were not dropped by the simulated network.
    pub fn accepted(&self) -> (n: usize)
        ensures
            n == spec_accepted(self.spec_attempted(), self.spec_dropped()),
    {
        accepted_messages(self.attempted, self.dropped)
    }

    /// Returns message copies created after duplicate expansion.
    pub fn message_copies(&self) -> (n: usize)
        ensures
            n == spec_message_copies(self.spec_attempted(), self.spec_dropped(), self.spec_duplicated()),
    {
        message_copies(self.attempted, self.dropped, self.duplicated)
    }

    /// Returns the successful round count that sits at 1-based `rank` once the
    /// successful rounds are sorted ascending; rank 0 reads as rank 1. `None`
    /// when the rank lies past the last successful trial.
    pub fn successful_round_at_rank(&self, rank: usize) -> (r: Option<u64>)
        ensures
            r == rank_pick(sorted_rounds(self.spec_successful_rounds()), rank as int),
    {
        let sorted = sort_rounds(&self.successful_rounds);
        let index: usize = if rank == 0 { 0 } else { rank - 1 };
        if index < sorted.len() {
            Some(sorted[index])
        } else {
            None
        }
    }
}

/// The order in which round counts are ranked: ascending.
pub open spec fn rounds_leq() -> spec_fn(u64, u64) -> bool {
    |a: u64, b: u64| a <= b
}

/// `rounds` sorted ascending.
pub open spec fn sorted_rounds(rounds: Seq<u64>) -> Seq<u64> {
    rounds.sort_by(rounds_leq())
}

/// The element at 1-based `rank` of `sorted` (rank 0 reads as rank 1), if any.
pub open spec fn rank_pick(sorted: Seq<u64>, rank: int) -> Option<u64> {
    let index = if rank <= 0 { 0 } else { rank - 1 };
    if index < sorted.len() {
        Some(sorted[index])
    } else {
        None
    }
}

/// Sorts round counts ascending.
fn sort_rounds(rounds: &Vec<u64>) -> (sorted: Vec<u64>)
    ensures
        sorted@ == sorted_rounds(rounds@),
{
    broadcast use vstd::seq_lib::group_to_multiset_ensures;
    broadcast use vstd::multiset::group_multiset_axioms;

    let mut out: Vec<u64> = Vec::new();
    let mut i: usize = 0;
    while i < rounds.len()
        invariant
            i <= rounds@.len(),
            vstd::relations::sorted_by(out@, rounds_leq()),
            out@.to_multiset() == rounds@.take(i as int).to_multiset(),
        decreases rounds@.len() - i,
    {
        let x = rounds[i];
        let mut p: usize = 0;
        while p < out.len() && out[p] <= x
            invariant
                p <= out@.len(),
                forall|k: int| 0 <= k < p ==> out@[k] <= x,
            decreases out@.len() - p,
        {
            p = p + 1;
        }
        let ghost before = out@;
        proof {
            assert forall|k: int| p <= k < before.len() implies x < before[k] by {
                assert(rounds_leq()(before[p as int], before[k]));
            }
        }
        out.insert(p, x);
        proof {
            assert(out@ == before.insert(p as int, x));
            vstd::seq_lib::to_multiset_insert(before, p as int, x);
            assert(rounds@.take(i + 1) =~= rounds@.take(i as int).push(x));
            vstd::seq_lib::to_multiset_build(rounds@.take(i as int), x);
            assert forall|a: int, b: int| 0 <= a < b < out@.len() implies #[trigger] rounds_leq()(out@[a], out@[b]) by {
                if b < p {
                    assert(rounds_leq()(before[a], before[b]));
                } else if b == p {
                } else if a < p {
                    assert(out@[b] == before[b - 1]);
                } else if a == p {
                    assert(out@[b] == before[b - 1]);
                } else {
                    assert(rounds_leq()(before[a - 1], before[b - 1]));
                }
            }
        }
        i = i + 1;
    }
    proof {
        assert(rounds@.take(rounds@.len() as int) =~= rounds@);
        let leq = rounds_leq();
        assert(vstd::relations::total_ordering(leq));
        rounds@.lemma_sort_by_ensures(leq);
        vstd::seq_lib::lemma_sorted_unique(out@, rounds@.sort_by(leq), leq);
    }
    out
}

/// Result of running one named convergence scenario.
#[derive(Clone, Debug, PartialEq)]
pub struct ConvergenceScenarioReport {
    label: String,
    report: ConvergenceReport,
}

impl ConvergenceScenarioReport {
    /// The scenario label.
    pub closed spec fn spec_label(self) -> Seq<char> {
        self.label@
    }

    /// The scenario's convergence report.
    pub closed spec fn spec_report(self) -> ConvergenceReport {
        self.report
    }

    /// Creates a named convergence scenario report.
    pub fn new(label: String, report: ConvergenceReport) -> (r: Self)
        ensures
            r.spec_label() == label@,
            r.spec_report() == report,
    {
        ConvergenceScenarioReport { label, report }
    }

    /// Returns the scenario label.
    pub fn label(&self) -> (label: &str)
        ensures
            label@ == self.spec_label(),
    {
        self.label.as_str()
    }

    /// Returns the convergence report for this scenario.
    pub fn report(&self) -> (report: &ConvergenceReport)
        ensures
            *report == self.spec_report(),
    {
        &self.report
    }
}

/// Aggregate result of running a convergence comparison.
#[derive(Clone, Debug, PartialEq)]
pub struct ConvergenceComparisonReport {
    results: Vec<ConvergenceScenarioReport>,
}

impl ConvergenceComparisonReport {
    /// The scenario reports, in insertion order.
    pub closed spec fn spec_results(self) -> Seq<ConvergenceScenarioReport> {
        self.results@
    }

    /// Creates a convergence comparison report from scenario reports.
    pub fn new(results: Vec<ConvergenceScenarioReport>) -> (r: Self)
        ensures
            r.spec_results() == results@,
    {
        ConvergenceComparisonReport { results }
    }

    /// Returns reports for every scenario in insertion order.
    pub fn results(&self) -> (results: &[ConvergenceScenarioReport])
        ensures
            results@ == self.spec_results(),
    {
        self.results.as_slice()
    }

    /// Returns the number of scenario reports.
    pub fn len(&self) -> (n: usize)
        ensures
            n == self.spec_results().len(),
    {
        self.results.len()
    }

    /// Returns `true` if this report contains no scenario reports.
    pub fn is_empty(&self) -> (b: bool)
        ensures
            b == (self.spec_results().len() == 0),
    {
        self.results.len() == 0
    }
}

} // verus!
