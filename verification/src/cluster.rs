//! A deterministic in-memory simulation cluster: gossip nodes in order of
//! their names, an in-memory transport, and a simulated network between them.

use vstd::prelude::*;

use crate::config::GossipConfig;
use crate::delivery::{
    all_like, drain_due, due_count, flatten, network_pass, pass_delayed, pass_dropped, pass_duplicated, pass_now,
    pass_queue, pass_state, queue_due_after, queue_like, queue_named, queue_view, queue_wf, queued_count, sat_usize,
    sends_named, PendingSend,
};
use crate::effect::Effect;
use crate::event::GossipEvent;
use crate::identity::{lemma_name_lt_irreflexive, lemma_name_lt_total, lemma_name_lt_transitive, name_lt, MessageId, NodeId};
use crate::message::GossipMessage;
use crate::network::{Chance, NetworkModel};
use crate::node::{received, ticked, GossipNode};
use crate::peer_selection::{other_peers, same_names};
use crate::rng::DeterministicRng;
use crate::rumor::Rumor;
use crate::rumor_store::{has_id, spec_insert, InsertOutcome};
use crate::sim::{names_node, NetworkPartition, SimNode, TickReport};
use crate::time::Round;
use crate::transport::{apply_effects, events_of, lemma_in_memory_delivery, messages_to, sends_of, InMemoryTransport};

verus! {

/// Each name of `names` comes strictly before the next ones.
pub open spec fn names_sorted(names: Seq<NodeId>) -> bool {
    forall|i: int, j: int| 0 <= i < j < names.len() ==> name_lt(names[i]@, names[j]@)
}

/// The names of the entries of `entries`, in order.
pub open spec fn entry_names<V>(entries: Seq<(NodeId, V)>) -> Seq<NodeId> {
    Seq::new(entries.len(), |i: int| entries[i].0)
}

/// The position of the last entry of `ids` named `name`, or -1.
pub open spec fn last_named(ids: Seq<NodeId>, name: Seq<char>) -> int
    decreases ids.len(),
{
    if ids.len() == 0 {
        -1
    } else if ids.last()@ == name {
        ids.len() - 1
    } else {
        last_named(ids.drop_last(), name)
    }
}

/// `a + b`, saturating at `u64::MAX`.
pub open spec fn sat_add_u64(a: u64, b: int) -> u64 {
    if a + b <= u64::MAX { (a + b) as u64 } else { u64::MAX }
}

/// `node` is what a cluster seeded with `seed` starts with for the node
/// `ids[i]`: a node of that name with `config`, every other node of `ids` as
/// peer, no rumor, and a random source seeded with `seed + i`.
pub open spec fn starts_as<T>(node: SimNode<T>, config: GossipConfig, ids: Seq<NodeId>, seed: u64, i: int) -> bool {
    &&& 0 <= i && i < ids.len()
    &&& node.spec_node().wf()
    &&& node.spec_node().spec_self_id() == ids[i]
    &&& node.spec_node().spec_config() == config
    &&& node.spec_node().spec_peers() == other_peers(ids[i]@, ids)
    &&& node.spec_node().spec_rumors() == Seq::<Rumor<T>>::empty()
    &&& node.spec_rng().spec_state() == sat_add_u64(seed, i)
}

/// `c` holds the nodes that `Cluster::with_seed(config, ids, seed)` builds:
/// one node per name of `ids`, in order of names, each as the last identifier
/// of that name starts it (see `starts_as`); its network's random source is
/// seeded with `seed` plus the number of identifiers, and no message is delayed.
pub open spec fn spawned<T>(c: Cluster<T>, config: GossipConfig, ids: Seq<NodeId>, seed: u64) -> bool {
    &&& c.wf()
    &&& forall|name: Seq<char>| names_node(c.spec_names(), name) <==> names_node(ids, name)
    &&& forall|j: int|
        0 <= j < c.spec_names().len() ==> starts_as(
            #[trigger] c.spec_node(j),
            config,
            ids,
            seed,
            last_named(ids, c.spec_names()[j]@),
        )
    &&& c.spec_network_rng().spec_state() == sat_add_u64(seed, ids.len() as int)
    &&& c.spec_delayed() == Seq::<(u64, Seq<PendingSend<T>>)>::empty()
}

/// `c` is the cluster that `Cluster::with_seed(config, ids, seed)` builds:
/// the nodes of `spawned`, and a reliable network.
pub open spec fn seeded<T>(c: Cluster<T>, config: GossipConfig, ids: Seq<NodeId>, seed: u64) -> bool {
    &&& spawned(c, config, ids, seed)
    &&& c.spec_network().spec_loss() == Chance::Never
    &&& c.spec_network().spec_duplicate() == Chance::Never
    &&& c.spec_network().spec_delay() == Chance::Never
    &&& c.spec_network().spec_max_delay_rounds() == 0
    &&& c.spec_network().spec_partitions() == Seq::<NetworkPartition>::empty()
}

/// A deterministic in-memory simulation cluster.
///
/// Nodes are kept in the order of their names, which is the order in which
/// they act in a round.
#[derive(Clone, Debug)]
pub struct Cluster<T> {
    names: Vec<NodeId>,
    nodes: Vec<SimNode<T>>,
    transport: InMemoryTransport<GossipMessage<T>>,
    network: NetworkModel,
    network_rng: DeterministicRng,
    delayed: Vec<(u64, Vec<PendingSend<T>>)>,
}

impl<T> Cluster<T> {
    /// The names of the nodes, in order.
    pub closed spec fn spec_names(self) -> Seq<NodeId> {
        self.names@
    }

    /// The number of simulated nodes.
    pub closed spec fn spec_len(self) -> nat {
        self.nodes@.len()
    }

    /// The simulated node at position `i`.
    pub closed spec fn spec_node(self, i: int) -> SimNode<T> {
        self.nodes@[i]
    }

    /// The simulated network model.
    pub closed spec fn spec_network(self) -> NetworkModel {
        self.network
    }

    /// The random source of the simulated network.
    pub closed spec fn spec_network_rng(self) -> DeterministicRng {
        self.network_rng
    }

    /// The delayed messages: due rounds in increasing order, and the messages
    /// due then.
    pub closed spec fn spec_delayed(self) -> Seq<(u64, Seq<PendingSend<T>>)> {
        queue_view(self.delayed@)
    }

    /// The messages in transit to the node named `name`.
    pub closed spec fn spec_in_transit(self, name: Seq<char>) -> Seq<GossipMessage<T>> {
        self.transport.spec_queue(name)
    }

    /// Names strictly increase, every node is well formed, the delayed
    /// messages are ordered by due round, and nothing is in transit to a node
    /// of the cluster between rounds.
    pub open spec fn wf(self) -> bool {
        &&& self.spec_len() == self.spec_names().len()
        &&& names_sorted(self.spec_names())
        &&& forall|i: int| 0 <= i < self.spec_names().len() ==> (#[trigger] self.spec_node(i)).spec_node().wf()
        &&& queue_wf(self.spec_delayed())
        &&& forall|i: int|
            0 <= i < self.spec_names().len() ==> #[trigger] self.spec_in_transit(self.spec_names()[i]@)
                == Seq::<GossipMessage<T>>::empty()
    }

    /// The names of the nodes that know the rumor `id`, in order.
    pub closed spec fn spec_known(self, id: MessageId) -> Seq<NodeId> {
        names_where(self.names@, self.nodes@, id, true, self.nodes@.len() as int)
    }

    /// The names of the nodes that do not know the rumor `id`, in order.
    pub closed spec fn spec_unknown(self, id: MessageId) -> Seq<NodeId> {
        names_where(self.names@, self.nodes@, id, false, self.nodes@.len() as int)
    }

    /// The number of nodes of the cluster that know the rumor `id`.
    pub open spec fn spec_reach(self, id: MessageId) -> nat {
        self.spec_known(id).len()
    }

    /// How many nodes know a rumor depends only on whether each node holds
    /// the rumor's identifier.
    pub proof fn lemma_reach_from_nodes(self, other: Cluster<T>, id: MessageId)
        requires
            self.spec_len() == other.spec_len(),
            forall|j: int|
                0 <= j < self.spec_len() ==> has_id((#[trigger] self.spec_node(j)).spec_node().spec_rumors(), id)
                    == has_id(other.spec_node(j).spec_node().spec_rumors(), id),
        ensures
            self.spec_reach(id) == other.spec_reach(id),
    {
        assert forall|j: int| 0 <= j < self.nodes@.len() implies has_id(
            (#[trigger] self.nodes@[j]).spec_node().spec_rumors(),
            id,
        ) == has_id(other.nodes@[j].spec_node().spec_rumors(), id) by {
            assert(self.spec_node(j) == self.nodes@[j]);
        }
        lemma_names_where_alike(self.names@, other.names@, self.nodes@, other.nodes@, id, self.nodes@.len() as int);
    }

    /// A rumor held by some node has reached at least one node.
    pub proof fn lemma_reach_held(self, id: MessageId, j: int)
        requires
            0 <= j < self.spec_len(),
            has_id(self.spec_node(j).spec_node().spec_rumors(), id),
        ensures
            self.spec_reach(id) >= 1,
    {
        lemma_names_where_held(self.names@, self.nodes@, id, j, self.nodes@.len() as int);
    }

    /// A rumor held by no node but the one at `j` has reached at most one node.
    pub proof fn lemma_reach_only(self, id: MessageId, j: int)
        requires
            forall|k: int|
                0 <= k < self.spec_len() && k != j ==> !has_id((#[trigger] self.spec_node(k)).spec_node().spec_rumors(), id),
        ensures
            self.spec_reach(id) <= 1,
    {
        assert forall|k: int| 0 <= k < self.nodes@.len() && k != j implies !has_id(
            (#[trigger] self.nodes@[k]).spec_node().spec_rumors(),
            id,
        ) by {
            assert(self.spec_node(k) == self.nodes@[k]);
        }
        lemma_names_where_only(self.names@, self.nodes@, id, j, self.nodes@.len() as int);
    }

    /// Every node that knows or does not know a rumor is counted once.
    pub proof fn lemma_known_unknown(self, id: MessageId)
        requires
            self.wf(),
        ensures
            self.spec_known(id).len() + self.spec_unknown(id).len() == self.spec_names().len(),
    {
        lemma_names_where_split(self.names@, self.nodes@, id, self.nodes@.len() as int);
    }

    /// `other` is `self` with the gossip node at position `j` replaced:
    /// names, random sources, the other nodes, the network and the messages
    /// in flight stay.
    pub open spec fn same_but_node(self, other: Cluster<T>, j: int) -> bool {
        &&& other.spec_names() == self.spec_names()
        &&& other.spec_len() == self.spec_len()
        &&& other.spec_node(j).spec_rng() == self.spec_node(j).spec_rng()
        &&& forall|k: int| 0 <= k < self.spec_names().len() && k != j ==> #[trigger] other.spec_node(k) == self.spec_node(k)
        &&& other.spec_network() == self.spec_network()
        &&& other.spec_network_rng() == self.spec_network_rng()
        &&& other.spec_delayed() == self.spec_delayed()
        &&& forall|name: Seq<char>| #[trigger] other.spec_in_transit(name) == self.spec_in_transit(name)
    }
}

/// The names of the entries below `k` whose node knows the rumor `id`
/// (`knows`), or does not (`!knows`), in order.
pub open spec fn names_where<T>(names: Seq<NodeId>, nodes: Seq<SimNode<T>>, id: MessageId, knows: bool, k: int) -> Seq<NodeId>
    decreases k,
{
    if k <= 0 {
        Seq::empty()
    } else {
        let rest = names_where(names, nodes, id, knows, k - 1);
        if has_id(nodes[k - 1].spec_node().spec_rumors(), id) == knows {
            rest.push(names[k - 1])
        } else {
            rest
        }
    }
}

proof fn lemma_names_where_alike<T>(
    names_a: Seq<NodeId>,
    names_b: Seq<NodeId>,
    a: Seq<SimNode<T>>,
    b: Seq<SimNode<T>>,
    id: MessageId,
    k: int,
)
    requires
        k <= a.len(),
        forall|j: int|
            0 <= j < a.len() ==> has_id((#[trigger] a[j]).spec_node().spec_rumors(), id) == has_id(
                b[j].spec_node().spec_rumors(),
                id,
            ),
    ensures
        names_where(names_a, a, id, true, k).len() == names_where(names_b, b, id, true, k).len(),
    decreases k,
{
    if k > 0 {
        lemma_names_where_alike(names_a, names_b, a, b, id, k - 1);
        assert(has_id(a[k - 1].spec_node().spec_rumors(), id) == has_id(b[k - 1].spec_node().spec_rumors(), id));
    }
}

proof fn lemma_names_where_held<T>(names: Seq<NodeId>, nodes: Seq<SimNode<T>>, id: MessageId, j: int, k: int)
    requires
        0 <= j < k,
        has_id(nodes[j].spec_node().spec_rumors(), id),
    ensures
        names_where(names, nodes, id, true, k).len() >= 1,
    decreases k,
{
    if k - 1 > j {
        lemma_names_where_held(names, nodes, id, j, k - 1);
    }
}

proof fn lemma_names_where_only<T>(names: Seq<NodeId>, nodes: Seq<SimNode<T>>, id: MessageId, j: int, k: int)
    requires
        k <= nodes.len(),
        forall|i: int| 0 <= i < nodes.len() && i != j ==> !has_id((#[trigger] nodes[i]).spec_node().spec_rumors(), id),
    ensures
        names_where(names, nodes, id, true, k).len() <= if 0 <= j < k { 1int } else { 0int },
    decreases k,
{
    if k > 0 {
        lemma_names_where_only(names, nodes, id, j, k - 1);
        if k - 1 != j {
            assert(!has_id(nodes[k - 1].spec_node().spec_rumors(), id));
        }
    }
}

proof fn lemma_names_where_split<T>(names: Seq<NodeId>, nodes: Seq<SimNode<T>>, id: MessageId, k: int)
    requires
        0 <= k,
    ensures
        names_where(names, nodes, id, true, k).len() + names_where(names, nodes, id, false, k).len() == k,
    decreases k,
{
    if k > 0 {
        lemma_names_where_split(names, nodes, id, k - 1);
    }
}

/// Returns the identifiers of `ids` other than those named like `name`, in order.
fn peers_except(ids: &Vec<NodeId>, name: &NodeId) -> (peers: Vec<NodeId>)
    ensures
        peers@ == other_peers(name@, ids@),
{
    let mut peers: Vec<NodeId> = Vec::new();
    let mut i: usize = 0;
    while i < ids.len()
        invariant
            i <= ids@.len(),
            peers@ == other_peers(name@, ids@.take(i as int)),
        decreases ids@.len() - i,
    {
        proof {
            assert(ids@.take(i + 1).drop_last() =~= ids@.take(i as int));
            assert(ids@.take(i + 1).last() == ids@[i as int]);
        }
        if !ids[i].same_as(name) {
            peers.push(ids[i].clone());
        }
        i = i + 1;
    }
    proof {
        assert(ids@.take(ids@.len() as int) =~= ids@);
    }
    peers
}

/// Splits entries into their names and their values, in order.
fn unzip<V>(entries: Vec<(NodeId, V)>) -> (r: (Vec<NodeId>, Vec<V>))
    ensures
        r.0@ == entry_names(entries@),
        r.1@.len() == entries@.len(),
        forall|i: int| 0 <= i < entries@.len() ==> #[trigger] r.1@[i] == entries@[i].1,
{
    let ghost all = entries@;
    let n = entries.len();
    let mut pending = crate::vec_order::reversed(entries);
    let mut names: Vec<NodeId> = Vec::new();
    let mut values: Vec<V> = Vec::new();
    let mut k: usize = 0;
    while k < n
        invariant
            n == all.len(),
            k <= n,
            pending@.len() == n - k,
            forall|j: int| 0 <= j < n - k ==> #[trigger] pending@[j] == all[n - 1 - j],
            names@ == entry_names(all).take(k as int),
            values@.len() == k,
            forall|i: int| 0 <= i < k ==> #[trigger] values@[i] == all[i].1,
        decreases n - k,
    {
        let (name, value) = pending.pop().unwrap();
        names.push(name);
        values.push(value);
        proof {
            assert(names@ =~= entry_names(all).take(k + 1));
        }
        k = k + 1;
    }
    proof {
        assert(entry_names(all).take(n as int) =~= entry_names(all));
    }
    (names, values)
}

/// Adds `value` under `key` to entries ordered by name, replacing the entry
/// of that name if there is one.
fn upsert<V>(entries: &mut Vec<(NodeId, V)>, key: NodeId, value: V)
    requires
        names_sorted(entry_names(old(entries)@)),
    ensures
        names_sorted(entry_names(final(entries)@)),
        forall|name: Seq<char>|
            names_node(entry_names(final(entries)@), name) <==> (names_node(entry_names(old(entries)@), name)
                || name == key@),
        forall|j: int|
            0 <= j < final(entries)@.len() ==> ((#[trigger] final(entries)@[j]).0@ == key@ && final(entries)@[j].1
                == value) || (final(entries)@[j].0@ != key@ && old(entries)@.contains(final(entries)@[j])),
{
    let ghost e0 = entries@;
    let mut i: usize = 0;
    while i < entries.len() && entries[i].0.precedes(&key)
        invariant
            i <= entries@.len(),
            entries@ == e0,
            forall|j: int| 0 <= j < i ==> name_lt(#[trigger] e0[j].0@, key@),
        decreases entries@.len() - i,
    {
        i = i + 1;
    }
    let ghost names0 = entry_names(e0);
    if i < entries.len() && entries[i].0.same_as(&key) {
        entries.set(i, (key, value));
        proof {
            let e1 = entries@;
            assert(names0[i as int]@ == key@);
            assert(entry_names(e1)[i as int]@ == key@);
            assert(entry_names(e1) =~= names0.update(i as int, e1[i as int].0));
            assert forall|a: int, b: int| 0 <= a < b < e1.len() implies name_lt(
                entry_names(e1)[a]@,
                entry_names(e1)[b]@,
            ) by {
                assert(name_lt(names0[a]@, names0[b]@));
            }
            assert forall|name: Seq<char>|
                names_node(entry_names(e1), name) <==> (names_node(names0, name) || name == key@) by {
                if names_node(names0, name) {
                    let j = choose|j: int| 0 <= j < names0.len() && #[trigger] names0[j]@ == name;
                    assert(entry_names(e1)[j]@ == name);
                }
                if name == key@ {
                    assert(entry_names(e1)[i as int]@ == name);
                }
                if names_node(entry_names(e1), name) {
                    let j = choose|j: int| 0 <= j < e1.len() && #[trigger] entry_names(e1)[j]@ == name;
                    if j != i {
                        assert(names0[j]@ == name);
                    }
                }
            }
            assert(forall|name: Seq<char>|
                names_node(entry_names(entries@), name) <==> (names_node(entry_names(old(entries)@), name)
                    || name == key@));
            assert forall|j: int| 0 <= j < e1.len() implies ((#[trigger] e1[j]).0@ == key@ && e1[j].1 == value) || (
            e1[j].0@ != key@ && e0.contains(e1[j])) by {
                if j != i {
                    assert(e1[j] == e0[j]);
                    assert(name_lt(names0[j]@, names0[i as int]@) || name_lt(names0[i as int]@, names0[j]@));
                    if e1[j].0@ == key@ {
                        lemma_name_lt_irreflexive(key@);
                    }
                }
            }
        }
    } else {
        entries.insert(i, (key, value));
        proof {
            let e1 = entries@;
            if i < e0.len() {
                lemma_name_lt_total(e0[i as int].0@, key@);
            }
            assert forall|a: int, b: int| 0 <= a < b < e1.len() implies name_lt(
                entry_names(e1)[a]@,
                entry_names(e1)[b]@,
            ) by {
                if b < i {
                    assert(name_lt(names0[a]@, names0[b]@));
                } else if b == i {
                    assert(name_lt(e0[a].0@, key@));
                } else if a == i {
                    if b - 1 > i {
                        assert(name_lt(names0[i as int]@, names0[b - 1]@));
                        lemma_name_lt_transitive(key@, names0[i as int]@, names0[b - 1]@);
                    }
                } else if a < i {
                    assert(name_lt(e0[a].0@, key@));
                    assert(name_lt(key@, names0[i as int]@));
                    if b - 1 > i {
                        assert(name_lt(names0[i as int]@, names0[b - 1]@));
                        lemma_name_lt_transitive(key@, names0[i as int]@, names0[b - 1]@);
                    }
                    lemma_name_lt_transitive(e0[a].0@, key@, names0[b - 1]@);
                } else {
                    assert(name_lt(names0[a - 1]@, names0[b - 1]@));
                }
            }
            assert forall|name: Seq<char>|
                names_node(entry_names(e1), name) <==> (names_node(names0, name) || name == key@) by {
                if names_node(names0, name) {
                    let j = choose|j: int| 0 <= j < names0.len() && #[trigger] names0[j]@ == name;
                    if j < i {
                        assert(entry_names(e1)[j]@ == name);
                    } else {
                        assert(entry_names(e1)[j + 1]@ == name);
                    }
                }
                if name == key@ {
                    assert(entry_names(e1)[i as int]@ == name);
                }
                if names_node(entry_names(e1), name) {
                    let j = choose|j: int| 0 <= j < e1.len() && #[trigger] entry_names(e1)[j]@ == name;
                    if j < i {
                        assert(names0[j]@ == name);
                    } else if j > i {
                        assert(names0[j - 1]@ == name);
                    }
                }
            }
            assert(forall|name: Seq<char>|
                names_node(entry_names(entries@), name) <==> (names_node(entry_names(old(entries)@), name)
                    || name == key@));
            assert forall|j: int| 0 <= j < e1.len() implies ((#[trigger] e1[j]).0@ == key@ && e1[j].1 == value) || (
            e1[j].0@ != key@ && e0.contains(e1[j])) by {
                if j < i {
                    assert(e1[j] == e0[j]);
                    assert(name_lt(e0[j].0@, key@));
                    if e1[j].0@ == key@ {
                        lemma_name_lt_irreflexive(key@);
                    }
                } else if j > i {
                    assert(e1[j] == e0[j - 1]);
                    if j - 1 > i {
                        assert(name_lt(names0[i as int]@, names0[j - 1]@));
                        lemma_name_lt_transitive(key@, names0[i as int]@, names0[j - 1]@);
                    }
                    if e1[j].0@ == key@ {
                        lemma_name_lt_irreflexive(key@);
                    }
                }
            }
        }
    }
}

proof fn lemma_last_named_step(ids: Seq<NodeId>, i: int, name: Seq<char>)
    requires
        0 <= i < ids.len(),
    ensures
        last_named(ids.take(i + 1), name) == if ids[i]@ == name { i } else { last_named(ids.take(i), name) },
{
    assert(ids.take(i + 1).drop_last() =~= ids.take(i));
    assert(ids.take(i + 1).last() == ids[i]);
}

proof fn lemma_last_named_range(ids: Seq<NodeId>, name: Seq<char>)
    ensures
        -1 <= last_named(ids, name) < ids.len(),
        last_named(ids, name) >= 0 ==> ids[last_named(ids, name)]@ == name,
        names_node(ids, name) <==> last_named(ids, name) >= 0,
    decreases ids.len(),
{
    if ids.len() > 0 {
        lemma_last_named_range(ids.drop_last(), name);
        if names_node(ids, name) {
            let j = choose|j: int| 0 <= j < ids.len() && #[trigger] ids[j]@ == name;
            if j < ids.len() - 1 {
                assert(ids.drop_last()[j]@ == name);
            }
        }
        if last_named(ids, name) >= 0 {
            let k = last_named(ids, name);
            assert(ids[k]@ == name);
        }
        if names_node(ids.drop_last(), name) {
            let j = choose|j: int| 0 <= j < ids.drop_last().len() && #[trigger] ids.drop_last()[j]@ == name;
            assert(ids[j]@ == name);
        }
    }
}

impl<T> Cluster<T> {
    /// Creates a cluster with deterministic per-node RNG seeds derived from `seed`.
    ///
    /// Each identifier of `node_ids` becomes a node whose peers are all the
    /// other identifiers, with a random source seeded with `seed` plus its
    /// position (saturating); a later identifier of the same name replaces an
    /// earlier one. The network is reliable, and its random source is seeded
    /// with `seed` plus the number of identifiers.
    pub fn with_seed(config: GossipConfig, node_ids: Vec<NodeId>, seed: u64) -> (c: Self)
        ensures
            seeded(c, config, node_ids@, seed),
    {
        let ghost ids = node_ids@;
        let mut nodes: Vec<(NodeId, SimNode<T>)> = Vec::new();
        let mut index: usize = 0;
        while index < node_ids.len()
            invariant
                ids == node_ids@,
                index <= ids.len(),
                names_sorted(entry_names(nodes@)),
                forall|name: Seq<char>|
                    names_node(entry_names(nodes@), name) <==> names_node(ids.take(index as int), name),
                forall|j: int|
                    0 <= j < nodes@.len() ==> 0 <= last_named(ids.take(index as int), (#[trigger] nodes@[j]).0@)
                        && last_named(ids.take(index as int), nodes@[j].0@) < index && starts_as(
                        nodes@[j].1,
                        config,
                        ids,
                        seed,
                        last_named(ids.take(index as int), nodes@[j].0@),
                    ),
            decreases ids.len() - index,
        {
            let node_id = node_ids[index].clone();
            let peers = peers_except(&node_ids, &node_id);
            let mut node = GossipNode::new(node_id.clone(), config);
            node.set_peers(peers);
            let node_seed = seed.saturating_add(index as u64);
            let sim = SimNode::new(node, DeterministicRng::new(node_seed));
            let ghost before = nodes@;
            let ghost key = node_id;
            let ghost value = sim;
            upsert(&mut nodes, node_id, sim);
            proof {
                let i = index as int;
                assert(starts_as(value, config, ids, seed, i));
                assert forall|name: Seq<char>|
                    names_node(entry_names(nodes@), name) <==> names_node(ids.take(i + 1), name) by {
                    if names_node(ids.take(i + 1), name) {
                        let j = choose|j: int| 0 <= j < ids.take(i + 1).len() && #[trigger] ids.take(i + 1)[j]@ == name;
                        if j < i {
                            assert(ids.take(i)[j]@ == name);
                        }
                    }
                    if names_node(ids.take(i), name) {
                        let j = choose|j: int| 0 <= j < ids.take(i).len() && #[trigger] ids.take(i)[j]@ == name;
                        assert(ids.take(i + 1)[j]@ == name);
                    }
                    if name == key@ {
                        assert(ids.take(i + 1)[i]@ == name);
                    }
                }
                assert forall|j: int|
                    0 <= j < nodes@.len() implies 0 <= last_named(ids.take(i + 1), (#[trigger] nodes@[j]).0@)
                        && last_named(ids.take(i + 1), nodes@[j].0@) < i + 1 && starts_as(nodes@[j].1, config, ids, seed, last_named(ids.take(i + 1), nodes@[j].0@)) by {
                    let name = nodes@[j].0@;
                    lemma_last_named_step(ids, i, name);
                    if name != key@ {
                        let jj = choose|jj: int| 0 <= jj < before.len() && before[jj] == nodes@[j];
                        assert(before[jj].0@ == name);
                    }
                }
            }
            index = index + 1;
        }
        proof {
            assert(ids.take(ids.len() as int) =~= ids);
        }
        let (names, sims) = unzip(nodes);
        let c = Cluster {
            names,
            nodes: sims,
            transport: InMemoryTransport::new(),
            network: NetworkModel::new(),
            network_rng: DeterministicRng::new(seed.saturating_add(node_ids.len() as u64)),
            delayed: Vec::new(),
        };
        proof {
            assert(c.spec_delayed() =~= Seq::<(u64, Seq<PendingSend<T>>)>::empty());
            assert forall|j: int| 0 <= j < c.spec_names().len() implies (#[trigger] c.spec_node(j)).spec_node().wf() by {
                assert(c.spec_node(j) == nodes@[j].1);
                assert(c.spec_names()[j] == nodes@[j].0);
            }
            assert forall|j: int|
                0 <= j < c.spec_names().len() implies starts_as(
                    #[trigger] c.spec_node(j),
                    config,
                    node_ids@,
                    seed,
                    last_named(node_ids@, c.spec_names()[j]@),
                ) by {
                assert(c.spec_node(j) == nodes@[j].1);
                assert(c.spec_names()[j] == nodes@[j].0);
            }
        }
        c
    }

    /// Creates a cluster where each node knows every other node as a peer
    /// (seed `1`).
    pub fn new(config: GossipConfig, node_ids: Vec<NodeId>) -> (c: Self)
        ensures
            seeded(c, config, node_ids@, 1),
    {
        Self::with_seed(config, node_ids, 1)
    }
}

impl<T> Cluster<T> {
    /// The position of the node named `name`, if any.
    fn find(&self, node_id: &NodeId) -> (r: Option<usize>)
        ensures
            r matches Some(j) ==> j < self.spec_names().len() && self.spec_names()[j as int]@ == node_id@,
            r is None <==> !names_node(self.spec_names(), node_id@),
    {
        let mut j: usize = 0;
        while j < self.names.len()
            invariant
                j <= self.names@.len(),
                forall|k: int| 0 <= k < j ==> #[trigger] self.spec_names()[k]@ != node_id@,
            decreases self.names@.len() - j,
        {
            if self.names[j].same_as(node_id) {
                assert(self.spec_names()[j as int]@ == node_id@);
                return Some(j);
            }
            j = j + 1;
        }
        None
    }

    /// Returns a mutable node by ID.
    pub fn node_mut(&mut self, node_id: &NodeId) -> (r: Option<&mut GossipNode<T>>)
        requires
            old(self).wf(),
        ensures
            r is None <==> !names_node(old(self).spec_names(), node_id@),
            r is None ==> *final(self) == *old(self),
            r matches Some(n) ==> exists|j: int|
                #![trigger old(self).spec_node(j)]
                0 <= j < old(self).spec_names().len() && old(self).spec_names()[j]@ == node_id@
                    && *n == old(self).spec_node(j).spec_node()
                    && old(self).same_but_node(*final(self), j)
                    && final(self).spec_node(j).spec_node() == *final(n),
    {
        match self.find(node_id) {
            Some(j) => {
                assert(old(self).spec_names()[j as int]@ == node_id@);
                assert(old(self).spec_node(j as int) == self.nodes@[j as int]);
                let entry = &mut self.nodes[j];
                let n = entry.node_mut();
                assert(*n == old(self).spec_node(j as int).spec_node());
                Some(n)
            },
            None => None,
        }
    }
}

impl<T> Cluster<T> {
    /// Returns a node by ID.
    pub fn node(&self, node_id: &NodeId) -> (r: Option<&GossipNode<T>>)
        requires
            self.wf(),
        ensures
            r is None <==> !names_node(self.spec_names(), node_id@),
            r matches Some(n) ==> exists|j: int|
                0 <= j < self.spec_names().len() && self.spec_names()[j]@ == node_id@ && *n == (
                #[trigger] self.spec_node(j)).spec_node(),
    {
        match self.find(node_id) {
            Some(j) => {
                assert(self.spec_node(j as int) == self.nodes@[j as int]);
                Some(self.nodes[j].node())
            },
            None => None,
        }
    }

    /// Returns the number of nodes in the cluster.
    pub fn node_count(&self) -> (n: usize)
        ensures
            n == self.spec_names().len(),
    {
        self.names.len()
    }

    /// Returns node IDs in deterministic order: the order of their names.
    pub fn node_ids(&self) -> (ids: Vec<&NodeId>)
        ensures
            ids@.len() == self.spec_names().len(),
            forall|i: int| 0 <= i < ids@.len() ==> *#[trigger] ids@[i] == self.spec_names()[i],
    {
        let mut ids: Vec<&NodeId> = Vec::new();
        let mut i: usize = 0;
        while i < self.names.len()
            invariant
                i <= self.names@.len(),
                ids@.len() == i,
                forall|k: int| 0 <= k < i ==> *#[trigger] ids@[k] == self.spec_names()[k],
            decreases self.names@.len() - i,
        {
            ids.push(&self.names[i]);
            i = i + 1;
        }
        ids
    }

    /// Returns the simulated network model.
    pub fn network_model(&self) -> (m: &NetworkModel)
        ensures
            *m == self.spec_network(),
    {
        &self.network
    }

    /// Returns a copy of this cluster with a different network model.
    pub fn with_network_model(self, network: NetworkModel) -> (c: Self)
        ensures
            c.spec_names() == self.spec_names(),
            forall|j: int| 0 <= j < self.spec_names().len() ==> #[trigger] c.spec_node(j) == self.spec_node(j),
            c.spec_network() == network,
            c.spec_network_rng() == self.spec_network_rng(),
            c.spec_delayed() == self.spec_delayed(),
            forall|name: Seq<char>| #[trigger] c.spec_in_transit(name) == self.spec_in_transit(name),
            self.wf() ==> c.wf(),
            forall|config: GossipConfig, ids: Seq<NodeId>, seed: u64|
                spawned(self, config, ids, seed) ==> #[trigger] spawned(c, config, ids, seed),
    {
        let ghost before = self;
        let c = Cluster { network, ..self };
        proof {
            Self::lemma_wf_parts(before, c);
            assert forall|config: GossipConfig, ids: Seq<NodeId>, seed: u64|
                spawned(before, config, ids, seed) implies #[trigger] spawned(c, config, ids, seed) by {
                assert(c.spec_names() == before.spec_names());
                assert forall|name: Seq<char>| names_node(c.spec_names(), name) <==> names_node(ids, name) by {
                    assert(names_node(before.spec_names(), name) <==> names_node(ids, name));
                }
                assert forall|j: int|
                    0 <= j < c.spec_names().len() implies starts_as(#[trigger] c.spec_node(j), config, ids, seed, last_named(ids, c.spec_names()[j]@)) by {
                    assert(c.spec_node(j) == before.spec_node(j));
                }
            }
        }
        c
    }

    /// Returns the maximum simulated delivery delay in rounds.
    pub fn max_delay_rounds(&self) -> (n: u64)
        ensures
            n == self.spec_network().spec_max_delay_rounds(),
    {
        self.network.max_delay_rounds()
    }

    /// Returns active network partitions.
    pub fn partitions(&self) -> (p: &[NetworkPartition])
        ensures
            p@ == self.spec_network().spec_partitions(),
    {
        self.network.partitions()
    }

    /// Returns a copy of this cluster with an added network partition.
    pub fn with_partition(self, partition: NetworkPartition) -> (c: Self)
        ensures
            c.spec_names() == self.spec_names(),
            forall|j: int| 0 <= j < self.spec_names().len() ==> #[trigger] c.spec_node(j) == self.spec_node(j),
            c.spec_network().spec_loss() == self.spec_network().spec_loss(),
            c.spec_network().spec_duplicate() == self.spec_network().spec_duplicate(),
            c.spec_network().spec_delay() == self.spec_network().spec_delay(),
            c.spec_network().spec_max_delay_rounds() == self.spec_network().spec_max_delay_rounds(),
            c.spec_network().spec_partitions() == self.spec_network().spec_partitions().push(partition),
            c.spec_network_rng() == self.spec_network_rng(),
            c.spec_delayed() == self.spec_delayed(),
            forall|name: Seq<char>| #[trigger] c.spec_in_transit(name) == self.spec_in_transit(name),
            self.wf() ==> c.wf(),
    {
        let Cluster { names, nodes, transport, network, network_rng, delayed } = self;
        let ghost before = self;
        let c = Cluster { names, nodes, transport, network: network.with_partition(partition), network_rng, delayed };
        proof {
            Self::lemma_wf_parts(before, c);
        }
        c
    }

    /// Returns a copy of this cluster with all network partitions removed.
    pub fn without_partitions(self) -> (c: Self)
        ensures
            c.spec_names() == self.spec_names(),
            forall|j: int| 0 <= j < self.spec_names().len() ==> #[trigger] c.spec_node(j) == self.spec_node(j),
            c.spec_network().spec_loss() == self.spec_network().spec_loss(),
            c.spec_network().spec_duplicate() == self.spec_network().spec_duplicate(),
            c.spec_network().spec_delay() == self.spec_network().spec_delay(),
            c.spec_network().spec_max_delay_rounds() == self.spec_network().spec_max_delay_rounds(),
            c.spec_network().spec_partitions() == Seq::<NetworkPartition>::empty(),
            c.spec_network_rng() == self.spec_network_rng(),
            c.spec_delayed() == self.spec_delayed(),
            forall|name: Seq<char>| #[trigger] c.spec_in_transit(name) == self.spec_in_transit(name),
            self.wf() ==> c.wf(),
    {
        let Cluster { names, nodes, transport, network, network_rng, delayed } = self;
        let ghost before = self;
        let c = Cluster { names, nodes, transport, network: network.without_partitions(), network_rng, delayed };
        proof {
            Self::lemma_wf_parts(before, c);
        }
        c
    }

    /// Returns how many messages are currently queued for delayed delivery
    /// (saturating).
    pub fn pending_delayed_count(&self) -> (n: usize)
        ensures
            n == crate::delivery::sat_usize(queued_count(self.spec_delayed())),
    {
        let ghost q = self.spec_delayed();
        let mut total: usize = 0;
        let mut i: usize = self.delayed.len();
        proof {
            assert(q.skip(q.len() as int) =~= Seq::<(u64, Seq<PendingSend<T>>)>::empty());
        }
        while i > 0
            invariant
                i <= q.len(),
                q == queue_view(self.delayed@),
                total == crate::delivery::sat_usize(flatten(q.skip(i as int)).len()),
            decreases i,
        {
            i = i - 1;
            proof {
                assert(q.skip(i as int).drop_first() =~= q.skip(i + 1));
                assert(q.skip(i as int)[0] == q[i as int]);
            }
            total = total.saturating_add(self.delayed[i].1.len());
        }
        proof {
            assert(q.skip(0) =~= q);
        }
        total
    }

    /// Returns delayed-delivery queue sizes by due round, in round order.
    pub fn pending_delayed_rounds(&self) -> (rounds: Vec<(Round, usize)>)
        ensures
            rounds@.len() == self.spec_delayed().len(),
            forall|i: int|
                0 <= i < rounds@.len() ==> (#[trigger] rounds@[i]).0 == Round::spec_new(self.spec_delayed()[i].0)
                    && rounds@[i].1 == self.spec_delayed()[i].1.len(),
    {
        let mut rounds: Vec<(Round, usize)> = Vec::new();
        let mut i: usize = 0;
        while i < self.delayed.len()
            invariant
                i <= self.delayed@.len(),
                rounds@.len() == i,
                forall|k: int|
                    0 <= k < i ==> (#[trigger] rounds@[k]).0 == Round::spec_new(self.spec_delayed()[k].0)
                        && rounds@[k].1 == self.spec_delayed()[k].1.len(),
            decreases self.delayed@.len() - i,
        {
            rounds.push((Round::new(self.delayed[i].0), self.delayed[i].1.len()));
            i = i + 1;
        }
        rounds
    }

    /// Returns how many nodes know a rumor ID.
    pub fn rumor_reach(&self, rumor_id: MessageId) -> (n: usize)
        requires
            self.wf(),
        ensures
            n == self.spec_reach(rumor_id),
    {
        self.known_by(rumor_id).len()
    }

    /// Returns node IDs that know a rumor ID, in order.
    pub fn known_by(&self, rumor_id: MessageId) -> (ids: Vec<NodeId>)
        requires
            self.wf(),
        ensures
            ids@ == self.spec_known(rumor_id),
    {
        self.names_knowing(rumor_id, true)
    }

    /// Returns node IDs that do not know a rumor ID, in order.
    pub fn unknown_by(&self, rumor_id: MessageId) -> (ids: Vec<NodeId>)
        requires
            self.wf(),
        ensures
            ids@ == self.spec_unknown(rumor_id),
    {
        self.names_knowing(rumor_id, false)
    }

    fn names_knowing(&self, rumor_id: MessageId, knows: bool) -> (ids: Vec<NodeId>)
        requires
            self.wf(),
        ensures
            ids@ == names_where(self.names@, self.nodes@, rumor_id, knows, self.nodes@.len() as int),
    {
        let mut ids: Vec<NodeId> = Vec::new();
        let mut i: usize = 0;
        while i < self.nodes.len()
            invariant
                self.wf(),
                i <= self.nodes@.len(),
                ids@ == names_where(self.names@, self.nodes@, rumor_id, knows, i as int),
            decreases self.nodes@.len() - i,
        {
            assert(self.spec_node(i as int) == self.nodes@[i as int]);
            if self.nodes[i].node().contains_rumor(rumor_id) == knows {
                ids.push(self.names[i].clone());
            }
            i = i + 1;
        }
        ids
    }

    /// Returns how many nodes do not know a rumor ID.
    pub fn missing_count(&self, rumor_id: MessageId) -> (n: usize)
        requires
            self.wf(),
        ensures
            n == self.spec_names().len() - self.spec_reach(rumor_id),
    {
        proof {
            self.lemma_known_unknown(rumor_id);
        }
        self.node_count() - self.rumor_reach(rumor_id)
    }

    /// Returns `true` if every node in the cluster knows a rumor ID.
    ///
    /// Returns `false` for an empty cluster.
    pub fn all_know(&self, rumor_id: MessageId) -> (b: bool)
        requires
            self.wf(),
        ensures
            b == (self.spec_names().len() > 0 && self.spec_reach(rumor_id) == self.spec_names().len()),
    {
        self.names.len() > 0 && self.rumor_reach(rumor_id) == self.node_count()
    }
}

/// `after` is `before` where `rumor` was inserted into the node at position
/// `j`, with `outcome`; nothing else changed.
pub open spec fn inserted_at<T>(before: Cluster<T>, after: Cluster<T>, j: int, rumor: Rumor<T>, outcome: InsertOutcome) -> bool {
    let old_node = before.spec_node(j).spec_node();
    let new_node = after.spec_node(j).spec_node();
    &&& before.same_but_node(after, j)
    &&& (outcome, new_node.spec_rumors()) == spec_insert(
        old_node.spec_rumors(),
        old_node.spec_config().spec_max_rumors(),
        rumor,
    )
    &&& new_node.spec_peers() == old_node.spec_peers()
    &&& new_node.spec_self_id() == old_node.spec_self_id()
    &&& new_node.spec_config() == old_node.spec_config()
}

/// `after` is `before` where the rumor `rumor` was inserted into the node
/// named `name`, with the outcome `r`, as `Cluster::insert_rumor` does.
pub open spec fn insert_result<T>(
    before: Cluster<T>,
    after: Cluster<T>,
    name: Seq<char>,
    rumor: Rumor<T>,
    r: Result<InsertOutcome, ClusterError>,
) -> bool {
    r is Ok && exists|j: int|
        0 <= j < before.spec_names().len() && before.spec_names()[j]@ == name && #[trigger] inserted_at(
            before,
            after,
            j,
            rumor,
            r->Ok_0,
        )
}

/// Error returned when operating on a simulation cluster.
#[derive(Clone, Debug, PartialEq, Eq)]
pub enum ClusterError {
    /// The requested node does not exist in the cluster.
    UnknownNode(NodeId),
}

impl ClusterError {
    /// Returns the message that describes this error.
    pub fn to_string(&self) -> (s: String)
        ensures
            s@ == match self {
                ClusterError::UnknownNode(id) => "unknown node: "@ + id@,
            },
    {
        match self {
            ClusterError::UnknownNode(id) => {
                let mut s = String::from_str("unknown node: ");
                s.append(id.as_str());
                proof {
                    reveal_strlit("unknown node: ");
                }
                s
            },
        }
    }
}

impl<T> Cluster<T> {
    /// Inserts a rumor into one node.
    ///
    /// Fails with `UnknownNode` when no node of the cluster has that ID.
    pub fn insert_rumor(&mut self, node_id: &NodeId, rumor: Rumor<T>) -> (r: Result<InsertOutcome, ClusterError>)
        requires
            old(self).wf(),
        ensures
            final(self).wf(),
            !names_node(old(self).spec_names(), node_id@) ==> r == Err::<InsertOutcome, ClusterError>(
                ClusterError::UnknownNode(*node_id),
            ) && *final(self) == *old(self),
            names_node(old(self).spec_names(), node_id@) ==> insert_result(*old(self), *final(self), node_id@, rumor, r),
    {
        match self.find(node_id) {
            Some(j) => {
                let ghost before = *self;
                assert(self.spec_node(j as int).spec_node().wf());
                let ghost rv = rumor;
                let entry = &mut self.nodes[j];
                let outcome = entry.node_mut().insert_rumor(rumor);
                proof {
                    Self::lemma_node_replaced(before, *self, j as int);
                    assert(before.spec_names()[j as int]@ == node_id@);
                    assert(inserted_at(before, *self, j as int, rv, outcome));
                }
                let r = Ok(outcome);
                assert(r is Ok && r->Ok_0 == outcome);
                assert(inserted_at(before, *self, j as int, rv, r->Ok_0));
                assert(insert_result(before, *self, node_id@, rv, r));
                r
            },
            None => Err(ClusterError::UnknownNode(node_id.clone())),
        }
    }

    /// Publishes a local rumor from one node.
    ///
    /// Fails with `UnknownNode` when no node of the cluster has that ID.
    pub fn publish(&mut self, node_id: &NodeId, rumor_id: MessageId, round: Round, payload: T) -> (r: Result<
        InsertOutcome,
        ClusterError,
    >)
        requires
            old(self).wf(),
        ensures
            final(self).wf(),
            !names_node(old(self).spec_names(), node_id@) ==> r == Err::<InsertOutcome, ClusterError>(
                ClusterError::UnknownNode(*node_id),
            ) && *final(self) == *old(self),
            names_node(old(self).spec_names(), node_id@) ==> exists|j: int|
                0 <= j < old(self).spec_names().len() && old(self).spec_names()[j]@ == node_id@
                    && #[trigger] insert_result(
                    *old(self),
                    *final(self),
                    node_id@,
                    Rumor::spec_new(rumor_id, old(self).spec_node(j).spec_node().spec_self_id(), round, payload),
                    r,
                ),
    {
        match self.find(node_id) {
            Some(j) => {
                let ghost before = *self;
                assert(self.spec_node(j as int).spec_node().wf());
                let ghost rv = Rumor::spec_new(rumor_id, before.spec_node(j as int).spec_node().spec_self_id(), round, payload);
                let entry = &mut self.nodes[j];
                let outcome = entry.node_mut().publish(rumor_id, round, payload);
                proof {
                    Self::lemma_node_replaced(before, *self, j as int);
                    assert(before.spec_names()[j as int]@ == node_id@);
                    assert(inserted_at(before, *self, j as int, rv, outcome));
                }
                let r = Ok(outcome);
                assert(r is Ok && r->Ok_0 == outcome);
                assert(inserted_at(before, *self, j as int, rv, r->Ok_0));
                assert(insert_result(before, *self, node_id@, rv, r));
                r
            },
            None => Err(ClusterError::UnknownNode(node_id.clone())),
        }
    }
}

impl<T> Cluster<T> {
    /// Replacing a node of a well-formed cluster by a well-formed node keeps
    /// the cluster well formed.
    pub proof fn lemma_same_but_node_wf(before: Cluster<T>, after: Cluster<T>, j: int)
        requires
            before.wf(),
            before.same_but_node(after, j),
            0 <= j < before.spec_names().len(),
            after.spec_node(j).spec_node().wf(),
        ensures
            after.wf(),
    {
        assert forall|k: int| 0 <= k < after.spec_names().len() implies (#[trigger] after.spec_node(k)).spec_node().wf() by {
            if k != j {
                assert(after.spec_node(k) == before.spec_node(k));
            }
        }
        assert forall|k: int| 0 <= k < after.spec_names().len() implies #[trigger] after.spec_in_transit(
            after.spec_names()[k]@,
        ) == Seq::<GossipMessage<T>>::empty() by {
            assert(before.spec_in_transit(before.spec_names()[k]@) == Seq::<GossipMessage<T>>::empty());
        }
    }

    proof fn lemma_wf_parts(a: Cluster<T>, b: Cluster<T>)
        requires
            a.names == b.names,
            a.nodes == b.nodes,
            a.transport == b.transport,
            a.delayed == b.delayed,
        ensures
            a.wf() ==> b.wf(),
    {
        assert(a.spec_names() == b.spec_names());
        assert(a.spec_delayed() == b.spec_delayed());
        if a.wf() {
            assert forall|j: int| 0 <= j < b.spec_names().len() implies (#[trigger] b.spec_node(j)).spec_node().wf() by {
                assert(a.spec_node(j) == b.spec_node(j));
            }
            assert forall|k: int| 0 <= k < b.spec_names().len() implies #[trigger] b.spec_in_transit(
                b.spec_names()[k]@,
            ) == Seq::<GossipMessage<T>>::empty() by {
                assert(a.spec_in_transit(a.spec_names()[k]@) == Seq::<GossipMessage<T>>::empty());
            }
        }
    }

    proof fn lemma_node_replaced(before: Cluster<T>, after: Cluster<T>, j: int)
        requires
            before.wf(),
            0 <= j < before.nodes@.len(),
            after.nodes@ == before.nodes@.update(j, after.nodes@[j]),
            after.nodes@[j].spec_rng() == before.nodes@[j].spec_rng(),
            after.names == before.names,
            after.transport == before.transport,
            after.network == before.network,
            after.network_rng == before.network_rng,
            after.delayed == before.delayed,
        ensures
            before.same_but_node(after, j),
            after.spec_node(j).spec_node().wf() ==> after.wf(),
    {
        assert forall|k: int| 0 <= k < before.spec_names().len() && k != j implies #[trigger] after.spec_node(k)
            == before.spec_node(k) by {
            assert(after.nodes@[k] == before.nodes@[k]);
        }
        if after.spec_node(j).spec_node().wf() {
            assert forall|k: int| 0 <= k < after.spec_names().len() implies (#[trigger] after.spec_node(k)).spec_node().wf() by {
                if k != j {
                    assert(after.spec_node(k) == before.spec_node(k));
                }
            }
            assert forall|k: int| 0 <= k < after.spec_names().len() implies #[trigger] after.spec_in_transit(
                after.spec_names()[k]@,
            ) == Seq::<GossipMessage<T>>::empty() by {
                assert(before.spec_in_transit(before.spec_names()[k]@) == Seq::<GossipMessage<T>>::empty());
            }
        }
    }
}

/// The sends among `effects` of the node named `source`, as messages in flight.
pub open spec fn sends_from<T>(source: NodeId, effects: Seq<Effect<GossipMessage<T>, ()>>) -> Seq<PendingSend<T>>
    decreases effects.len(),
{
    if effects.len() == 0 {
        Seq::empty()
    } else {
        let rest = sends_from(source, effects.drop_last());
        match effects.last() {
            Effect::Send { target, message } => rest.push(PendingSend { source, target, message }),
            Effect::Emit(_) => rest,
        }
    }
}

/// The sends of the first `k` nodes of a round, node after node.
pub open spec fn round_sends<T>(names: Seq<NodeId>, effects: Seq<Seq<Effect<GossipMessage<T>, ()>>>, k: int) -> Seq<
    PendingSend<T>,
>
    decreases k,
{
    if k <= 0 {
        Seq::empty()
    } else {
        round_sends(names, effects, k - 1) + sends_from(names[k - 1], effects[k - 1])
    }
}

/// The target and message of each send.
pub open spec fn routes<T>(sends: Seq<PendingSend<T>>) -> Seq<(NodeId, GossipMessage<T>)> {
    Seq::new(sends.len(), |i: int| (sends[i].target, sends[i].message))
}

/// `nodes` are the states of a node that received `messages` one after
/// another, with `effects` returned by each receipt.
pub open spec fn receive_trace<T: Clone>(
    messages: Seq<GossipMessage<T>>,
    nodes: Seq<GossipNode<T>>,
    effects: Seq<Seq<Effect<GossipMessage<T>, GossipEvent<T>>>>,
) -> bool {
    &&& nodes.len() == messages.len() + 1
    &&& effects.len() == messages.len()
    &&& forall|i: int| 0 <= i < messages.len() ==> #[trigger] received(nodes[i], messages[i], nodes[i + 1], effects[i])
}

/// The events among `effects`, receipt after receipt.
pub open spec fn all_events<T>(effects: Seq<Seq<Effect<GossipMessage<T>, GossipEvent<T>>>>) -> Seq<GossipEvent<T>>
    decreases effects.len(),
{
    if effects.len() == 0 {
        Seq::empty()
    } else {
        all_events(effects.drop_last()) + events_of(effects.last())
    }
}

/// Node `before` received `messages` one after another and became `after`,
/// announcing `events`.
pub open spec fn received_all<T: Clone>(
    before: GossipNode<T>,
    messages: Seq<GossipMessage<T>>,
    after: GossipNode<T>,
    events: Seq<GossipEvent<T>>,
) -> bool {
    exists|nodes: Seq<GossipNode<T>>, effects: Seq<Seq<Effect<GossipMessage<T>, GossipEvent<T>>>>|
        #[trigger] receive_trace(messages, nodes, effects) && nodes[0] == before && nodes.last() == after && events
            == all_events(effects)
}

/// The events of the first `k` nodes, each paired with the name of its node.
pub open spec fn tagged<T>(names: Seq<NodeId>, events: Seq<Seq<GossipEvent<T>>>, k: int) -> Seq<(NodeId, GossipEvent<T>)>
    decreases k,
{
    if k <= 0 {
        Seq::empty()
    } else {
        tagged(names, events, k - 1) + events[k - 1].map_values(|e: GossipEvent<T>| (names[k - 1], e))
    }
}

/// The number of messages of `sends` addressed to the first `k` nodes.
pub open spec fn delivered<T>(names: Seq<NodeId>, sends: Seq<PendingSend<T>>, k: int) -> nat
    decreases k,
{
    if k <= 0 {
        0
    } else {
        delivered(names, sends, k - 1) + messages_to(routes(sends), names[k - 1]@).len()
    }
}

/// One round of the cluster `before` at `round` gave `after` and `report`:
///
/// 1. each node, in order of names, ran a gossip round (see `ticked`), turning
///    into `mid` with `effects`;
/// 2. the network handled the sends of the round one after another (see
///    `spec_outbound`): the messages delayed until this round or before and
///    the copies delivered now are `now` (each one of them or a copy), the
///    other copies joined the delayed messages, and the network's random
///    source advanced;
/// 3. each node received, in order, the messages of `now` addressed to it
///    (see `received_all`), announcing `events`.
///
/// The report counts the sends, what the network did to them, the messages
/// handed to the transport and delivered, and lists the events by node.
pub open spec fn tick_trace<T: Clone>(
    before: Cluster<T>,
    round: Round,
    mid: Seq<SimNode<T>>,
    effects: Seq<Seq<Effect<GossipMessage<T>, ()>>>,
    now: Seq<PendingSend<T>>,
    events: Seq<Seq<GossipEvent<T>>>,
    after: Cluster<T>,
    report: TickReport<GossipEvent<T>>,
) -> bool {
    let n = before.spec_names().len();
    let names = before.spec_names();
    let net = before.spec_network();
    let s0 = before.spec_network_rng().spec_state();
    let q = before.spec_delayed();
    let due = due_count(q, round.value()) as int;
    let sends = round_sends(names, effects, n as int);
    &&& mid.len() == n
    &&& effects.len() == n
    &&& events.len() == n
    &&& after.spec_names() == names
    &&& after.spec_len() == n
    &&& after.spec_network() == net
    &&& forall|j: int|
        0 <= j < n ==> ticked(
            (#[trigger] before.spec_node(j)).spec_node(),
            before.spec_node(j).spec_rng(),
            round,
            mid[j].spec_node(),
            mid[j].spec_rng(),
            effects[j],
        )
    &&& after.spec_network_rng().spec_state() == pass_state(net, s0, sends, round.value())
    &&& queue_like(after.spec_delayed(), pass_queue(net, s0, q.skip(due), sends, round.value()))
    &&& all_like(now, flatten(q.take(due)) + pass_now(net, s0, sends, round.value()))
    &&& forall|j: int|
        0 <= j < n ==> (#[trigger] after.spec_node(j)).spec_rng() == mid[j].spec_rng() && received_all(
            mid[j].spec_node(),
            messages_to(routes(now), names[j]@),
            after.spec_node(j).spec_node(),
            events[j],
        )
    &&& report.spec_attempted() == sends.len()
    &&& report.spec_dropped() == pass_dropped(net, s0, sends, round.value())
    &&& report.spec_duplicated() == pass_duplicated(net, s0, sends, round.value())
    &&& report.spec_delayed() == sat_usize(pass_delayed(net, s0, sends, round.value()))
    &&& report.spec_sent() == now.len()
    &&& report.spec_received() == sat_usize(delivered(names, now, n as int))
    &&& report.spec_events() == tagged(names, events, n as int)
}

/// Adds the sends among `effects` of the node named `source` to `out`.
fn collect_sends<T>(source: &NodeId, effects: Vec<Effect<GossipMessage<T>, ()>>, out: &mut Vec<PendingSend<T>>)
    ensures
        final(out)@ == old(out)@ + sends_from(*source, effects@),
{
    let ghost all = effects@;
    let ghost base = out@;
    let n = effects.len();
    let mut pending = crate::vec_order::reversed(effects);
    let mut k: usize = 0;
    proof {
        assert(all.take(0) =~= Seq::<Effect<GossipMessage<T>, ()>>::empty());
        assert(base + sends_from(*source, all.take(0)) =~= base);
    }
    while k < n
        invariant
            n == all.len(),
            k <= n,
            pending@.len() == n - k,
            forall|j: int| 0 <= j < n - k ==> #[trigger] pending@[j] == all[n - 1 - j],
            out@ == base + sends_from(*source, all.take(k as int)),
        decreases n - k,
    {
        let effect = pending.pop().unwrap();
        proof {
            assert(all.take(k + 1).drop_last() =~= all.take(k as int));
            assert(all.take(k + 1).last() == all[k as int]);
        }
        match effect {
            Effect::Send { target, message } => {
                out.push(PendingSend { source: source.clone(), target, message });
                proof {
                    assert(out@ =~= base + sends_from(*source, all.take(k + 1)));
                }
            },
            Effect::Emit(_) => {},
        }
        k = k + 1;
    }
    proof {
        assert(all.take(n as int) =~= all);
    }
}

impl<T: Clone> Cluster<T> {
    /// Runs one gossip round of every node, in order, and returns their sends.
    fn tick_nodes(&mut self, round: Round) -> (sends: Vec<PendingSend<T>>)
        requires
            old(self).wf(),
        ensures
            final(self).wf(),
            final(self).names == old(self).names,
            final(self).transport == old(self).transport,
            final(self).network == old(self).network,
            final(self).network_rng == old(self).network_rng,
            final(self).delayed == old(self).delayed,
            final(self).nodes@.len() == old(self).nodes@.len(),
            exists|effects: Seq<Seq<Effect<GossipMessage<T>, ()>>>|
                #![trigger round_sends(old(self).spec_names(), effects, old(self).spec_names().len() as int)]
                effects.len() == old(self).spec_names().len() && sends@ == round_sends(
                    old(self).spec_names(),
                    effects,
                    old(self).spec_names().len() as int,
                ) && forall|j: int|
                    0 <= j < old(self).spec_names().len() ==> ticked(
                        (#[trigger] old(self).spec_node(j)).spec_node(),
                        old(self).spec_node(j).spec_rng(),
                        round,
                        final(self).spec_node(j).spec_node(),
                        final(self).spec_node(j).spec_rng(),
                        effects[j],
                    ),
    {
        let ghost names = self.names@;
        let ghost start = self.nodes@;
        let n = self.names.len();
        let mut sends: Vec<PendingSend<T>> = Vec::new();
        let ghost mut effs: Seq<Seq<Effect<GossipMessage<T>, ()>>> = Seq::empty();
        let mut j: usize = 0;
        while j < n
            invariant
                n == names.len(),
                names == self.names@,
                self.names == old(self).names,
                self.transport == old(self).transport,
                self.network == old(self).network,
                self.network_rng == old(self).network_rng,
                self.delayed == old(self).delayed,
                start == old(self).nodes@,
                old(self).wf(),
                self.nodes@.len() == n,
                j <= n,
                effs.len() == j,
                sends@ == round_sends(names, effs, j as int),
                forall|k: int| j <= k < n ==> #[trigger] self.nodes@[k] == start[k],
                forall|k: int|
                    0 <= k < j ==> (#[trigger] self.nodes@[k]).spec_node().wf() && ticked(
                        start[k].spec_node(),
                        start[k].spec_rng(),
                        round,
                        self.nodes@[k].spec_node(),
                        self.nodes@[k].spec_rng(),
                        effs[k],
                    ),
            decreases n - j,
        {
            assert(old(self).spec_node(j as int) == start[j as int]);
            let entry = &mut self.nodes[j];
            let effects = entry.tick(round);
            let ghost e = effects@;
            let ghost prev = sends@;
            collect_sends(&self.names[j], effects, &mut sends);
            proof {
                let effs2 = effs.push(e);
                assert(round_sends(names, effs2, j as int) == round_sends(names, effs, j as int)) by {
                    lemma_round_sends_prefix(names, effs, effs2, j as int);
                }
                effs = effs2;
            }
            j = j + 1;
        }
        proof {
            assert forall|k: int| 0 <= k < n implies ticked(
                (#[trigger] old(self).spec_node(k)).spec_node(),
                old(self).spec_node(k).spec_rng(),
                round,
                self.spec_node(k).spec_node(),
                self.spec_node(k).spec_rng(),
                effs[k],
            ) by {
                assert(old(self).spec_node(k) == start[k]);
                assert(self.spec_node(k) == self.nodes@[k]);
            }
            assert forall|k: int| 0 <= k < self.spec_names().len() implies (#[trigger] self.spec_node(k)).spec_node().wf() by {
                assert(self.spec_node(k) == self.nodes@[k]);
            }
            assert forall|k: int| 0 <= k < self.spec_names().len() implies #[trigger] self.spec_in_transit(
                self.spec_names()[k]@,
            ) == Seq::<GossipMessage<T>>::empty() by {
                assert(old(self).spec_in_transit(old(self).spec_names()[k]@) == Seq::<GossipMessage<T>>::empty());
            }
        }
        sends
    }
}

proof fn lemma_round_sends_prefix<T>(
    names: Seq<NodeId>,
    a: Seq<Seq<Effect<GossipMessage<T>, ()>>>,
    b: Seq<Seq<Effect<GossipMessage<T>, ()>>>,
    k: int,
)
    requires
        0 <= k <= a.len(),
        k <= b.len(),
        forall|i: int| 0 <= i < k ==> a[i] == b[i],
    ensures
        round_sends(names, a, k) == round_sends(names, b, k),
    decreases k,
{
    if k > 0 {
        lemma_round_sends_prefix(names, a, b, k - 1);
    }
}

impl<T: Clone> Cluster<T> {
    /// Hands `now` to the in-memory transport, in order; returns how many
    /// messages it accepted.
    fn send_to_transport(&mut self, now: Vec<PendingSend<T>>) -> (sent: usize)
        ensures
            sent == now@.len(),
            final(self).names == old(self).names,
            final(self).nodes == old(self).nodes,
            final(self).network == old(self).network,
            final(self).network_rng == old(self).network_rng,
            final(self).delayed == old(self).delayed,
            forall|name: Seq<char>|
                #[trigger] final(self).spec_in_transit(name) == old(self).spec_in_transit(name) + messages_to(
                    routes(now@),
                    name,
                ),
    {
        let ghost all = now@;
        let n = now.len();
        let mut pending = crate::vec_order::reversed(now);
        let mut effects: Vec<Effect<GossipMessage<T>, ()>> = Vec::new();
        let mut k: usize = 0;
        proof {
            assert(routes(all).take(0) =~= Seq::<(NodeId, GossipMessage<T>)>::empty());
        }
        while k < n
            invariant
                n == all.len(),
                k <= n,
                pending@.len() == n - k,
                forall|j: int| 0 <= j < n - k ==> #[trigger] pending@[j] == all[n - 1 - j],
                effects@.len() == k,
                sends_of(effects@) == routes(all).take(k as int),
            decreases n - k,
        {
            let send = pending.pop().unwrap();
            let PendingSend { source: _, target, message } = send;
            let ghost prev = effects@;
            effects.push(Effect::Send { target, message });
            proof {
                assert(effects@.drop_last() =~= prev);
                assert(routes(all).take(k + 1) =~= routes(all).take(k as int).push(routes(all)[k as int]));
            }
            k = k + 1;
        }
        proof {
            assert(routes(all).take(n as int) =~= routes(all));
        }
        let ghost start = self.transport;
        let report = apply_effects(&mut self.transport, effects);
        proof {
            let (states, results) = choose|states: Seq<InMemoryTransport<GossipMessage<T>>>, results: Seq<Result<(), crate::transport::TransportError>>|
                #[trigger] crate::transport::send_trace(start, routes(all), states, results) && {
                    &&& self.transport == states.last()
                    &&& report.spec_sent() == crate::transport::count_ok(results)
                    &&& report.spec_errors() == crate::transport::errors_of(results)
                };
            lemma_in_memory_delivery(start, routes(all), states, results);
        }
        report.sent()
    }
}

/// `evs`, each paired with `name`.
pub open spec fn tag<T>(name: NodeId, evs: Seq<GossipEvent<T>>) -> Seq<(NodeId, GossipEvent<T>)> {
    evs.map_values(|e: GossipEvent<T>| (name, e))
}

/// The number of messages in transit to the first `k` nodes of `c`.
pub open spec fn transit_count<T>(c: Cluster<T>, k: int) -> nat
    decreases k,
{
    if k <= 0 {
        0
    } else {
        transit_count(c, k - 1) + c.spec_in_transit(c.spec_names()[k - 1]@).len()
    }
}

/// Node `node` receives `messages` in order; the events it announces are
/// added to `events`, paired with `name`.
fn receive_all<T: Clone>(
    node: &mut GossipNode<T>,
    messages: Vec<GossipMessage<T>>,
    name: &NodeId,
    events: &mut Vec<(NodeId, GossipEvent<T>)>,
)
    requires
        old(node).wf(),
    ensures
        final(node).wf(),
        exists|evs: Seq<GossipEvent<T>>|
            #[trigger] received_all(*old(node), messages@, *final(node), evs) && final(events)@ == old(events)@ + tag(
                *name,
                evs,
            ),
{
    let ghost all = messages@;
    let ghost base = events@;
    let n = messages.len();
    let mut pending = crate::vec_order::reversed(messages);
    let ghost mut nodes: Seq<GossipNode<T>> = seq![*node];
    let ghost mut effs: Seq<Seq<Effect<GossipMessage<T>, GossipEvent<T>>>> = Seq::empty();
    let mut k: usize = 0;
    proof {
        assert(base + tag(*name, all_events(effs)) =~= base);
    }
    while k < n
        invariant
            n == all.len(),
            k <= n,
            pending@.len() == n - k,
            forall|j: int| 0 <= j < n - k ==> #[trigger] pending@[j] == all[n - 1 - j],
            node.wf(),
            nodes[0] == *old(node),
            base == old(events)@,
            receive_trace(all.take(k as int), nodes, effs),
            nodes.last() == *node,
            events@ == base + tag(*name, all_events(effs)),
        decreases n - k,
    {
        let message = pending.pop().unwrap();
        let ghost mid = *node;
        let effects = node.receive(message);
        let ghost eff = effects@;
        let ghost before_events = events@;
        let en = effects.len();
        let mut queue = crate::vec_order::reversed(effects);
        let mut i: usize = 0;
        proof {
            assert(eff.take(0) =~= Seq::<Effect<GossipMessage<T>, GossipEvent<T>>>::empty());
            assert(before_events + tag(*name, events_of(eff.take(0))) =~= before_events);
        }
        while i < en
            invariant
                en == eff.len(),
                i <= en,
                queue@.len() == en - i,
                forall|j: int| 0 <= j < en - i ==> #[trigger] queue@[j] == eff[en - 1 - j],
                events@ == before_events + tag(*name, events_of(eff.take(i as int))),
            decreases en - i,
        {
            let effect = queue.pop().unwrap();
            proof {
                assert(eff.take(i + 1).drop_last() =~= eff.take(i as int));
                assert(eff.take(i + 1).last() == eff[i as int]);
            }
            match effect {
                Effect::Emit(event) => {
                    events.push((name.clone(), event));
                    proof {
                        assert(events@ =~= before_events + tag(*name, events_of(eff.take(i + 1))));
                    }
                },
                Effect::Send { .. } => {},
            }
            i = i + 1;
        }
        proof {
            assert(eff.take(en as int) =~= eff);
            let t = all.take(k + 1);
            let nodes2 = nodes.push(*node);
            let effs2 = effs.push(eff);
            assert forall|j: int| 0 <= j < t.len() implies #[trigger] received(nodes2[j], t[j], nodes2[j + 1], effs2[j]) by {
                if j < k {
                    assert(received(nodes[j], all.take(k as int)[j], nodes[j + 1], effs[j]));
                } else {
                    assert(nodes2[j] == mid);
                }
            }
            assert(effs2.drop_last() =~= effs);
            assert(events@ =~= base + tag(*name, all_events(effs2)));
            nodes = nodes2;
            effs = effs2;
        }
        k = k + 1;
    }
    proof {
        assert(all.take(n as int) =~= all);
        assert(received_all(nodes[0], all, nodes.last(), all_events(effs)));
    }
}

/// Two lists of names in increasing order that name the same nodes name them
/// in the same order.
pub proof fn lemma_sorted_same_names(a: Seq<NodeId>, b: Seq<NodeId>)
    requires
        names_sorted(a),
        names_sorted(b),
        forall|name: Seq<char>| names_node(a, name) <==> names_node(b, name),
    ensures
        same_names(a, b),
    decreases a.len(),
{
    if a.len() == 0 {
        if b.len() > 0 {
            assert(names_node(b, b[0]@));
        }
    } else {
        assert(names_node(a, a[0]@));
        let k = choose|k: int| 0 <= k < b.len() && #[trigger] b[k]@ == a[0]@;
        if k > 0 {
            assert(name_lt(b[0]@, b[k]@));
            assert(names_node(b, b[0]@));
            let m = choose|m: int| 0 <= m < a.len() && #[trigger] a[m]@ == b[0]@;
            if m == 0 {
                lemma_name_lt_irreflexive(a[0]@);
            } else {
                assert(name_lt(a[0]@, a[m]@));
                lemma_name_lt_total(a[0]@, b[0]@);
            }
        }
        let (ra, rb) = (a.drop_first(), b.drop_first());
        assert(names_sorted(ra)) by {
            assert forall|i: int, j: int| 0 <= i < j < ra.len() implies name_lt(ra[i]@, ra[j]@) by {
                assert(name_lt(a[i + 1]@, a[j + 1]@));
            }
        }
        assert(names_sorted(rb)) by {
            assert forall|i: int, j: int| 0 <= i < j < rb.len() implies name_lt(rb[i]@, rb[j]@) by {
                assert(name_lt(b[i + 1]@, b[j + 1]@));
            }
        }
        assert forall|name: Seq<char>| names_node(ra, name) <==> names_node(rb, name) by {
            if names_node(ra, name) {
                let i = choose|i: int| 0 <= i < ra.len() && #[trigger] ra[i]@ == name;
                assert(names_node(a, name)) by {
                    assert(a[i + 1]@ == name);
                }
                let j = choose|j: int| 0 <= j < b.len() && #[trigger] b[j]@ == name;
                lemma_sorted_distinct(a, 0, i + 1);
                if j == 0 {
                    assert(false);
                }
                assert(rb[j - 1]@ == name);
            }
            if names_node(rb, name) {
                let i = choose|i: int| 0 <= i < rb.len() && #[trigger] rb[i]@ == name;
                assert(names_node(b, name)) by {
                    assert(b[i + 1]@ == name);
                }
                let j = choose|j: int| 0 <= j < a.len() && #[trigger] a[j]@ == name;
                lemma_sorted_distinct(b, 0, i + 1);
                if j == 0 {
                    assert(false);
                }
                assert(ra[j - 1]@ == name);
            }
        }
        lemma_sorted_same_names(ra, rb);
        assert forall|i: int| 0 <= i < a.len() implies #[trigger] a[i]@ == b[i]@ by {
            if i > 0 {
                assert(ra[i - 1]@ == rb[i - 1]@);
            }
        }
    }
}

/// The position of the last entry with a name depends only on the names.
pub proof fn lemma_last_named_same(a: Seq<NodeId>, b: Seq<NodeId>, name: Seq<char>)
    requires
        same_names(a, b),
    ensures
        last_named(a, name) == last_named(b, name),
    decreases a.len(),
{
    if a.len() > 0 {
        assert(a.last()@ == b.last()@) by {
            assert(a[a.len() - 1]@ == b[b.len() - 1]@);
        }
        assert(same_names(a.drop_last(), b.drop_last())) by {
            assert forall|i: int| 0 <= i < a.len() - 1 implies #[trigger] a.drop_last()[i]@ == b.drop_last()[i]@ by {
                assert(a[i]@ == b[i]@);
            }
        }
        lemma_last_named_same(a.drop_last(), b.drop_last(), name);
    }
}

pub proof fn lemma_sorted_distinct(names: Seq<NodeId>, a: int, b: int)
    requires
        names_sorted(names),
        0 <= a < names.len(),
        0 <= b < names.len(),
        a != b,
    ensures
        names[a]@ != names[b]@,
{
    if names[a]@ == names[b]@ {
        lemma_name_lt_irreflexive(names[a]@);
        if a < b {
            assert(name_lt(names[a]@, names[b]@));
        } else {
            assert(name_lt(names[b]@, names[a]@));
        }
    }
}

impl<T: Clone> Cluster<T> {
    /// Delivers to each node, in order, the messages in transit to it.
    ///
    /// Returns how many messages were delivered (saturating) and the events
    /// the nodes announced, paired with their names.
    fn deliver(&mut self) -> (r: (usize, Vec<(NodeId, GossipEvent<T>)>))
        requires
            old(self).nodes@.len() == old(self).names@.len(),
            names_sorted(old(self).spec_names()),
            forall|j: int| 0 <= j < old(self).spec_names().len() ==> (#[trigger] old(self).spec_node(j)).spec_node().wf(),
        ensures
            final(self).names == old(self).names,
            final(self).network == old(self).network,
            final(self).network_rng == old(self).network_rng,
            final(self).delayed == old(self).delayed,
            final(self).nodes@.len() == old(self).nodes@.len(),
            forall|j: int|
                0 <= j < old(self).spec_names().len() ==> (#[trigger] final(self).spec_node(j)).spec_node().wf()
                    && final(self).spec_node(j).spec_rng() == old(self).spec_node(j).spec_rng(),
            forall|j: int|
                0 <= j < old(self).spec_names().len() ==> #[trigger] final(self).spec_in_transit(
                    old(self).spec_names()[j]@,
                ) == Seq::<GossipMessage<T>>::empty(),
            r.0 == sat_usize(transit_count(*old(self), old(self).spec_names().len() as int)),
            exists|evs: Seq<Seq<GossipEvent<T>>>|
                #![trigger tagged(old(self).spec_names(), evs, old(self).spec_names().len() as int)]
                evs.len() == old(self).spec_names().len() && r.1@ == tagged(
                    old(self).spec_names(),
                    evs,
                    old(self).spec_names().len() as int,
                ) && forall|j: int|
                    0 <= j < old(self).spec_names().len() ==> received_all(
                        (#[trigger] old(self).spec_node(j)).spec_node(),
                        old(self).spec_in_transit(old(self).spec_names()[j]@),
                        final(self).spec_node(j).spec_node(),
                        evs[j],
                    ),
    {
        let ghost names = self.names@;
        let ghost start = self.nodes@;
        let ghost c0 = *self;
        let n = self.names.len();
        let mut events: Vec<(NodeId, GossipEvent<T>)> = Vec::new();
        let mut count: usize = 0;
        let ghost mut evs: Seq<Seq<GossipEvent<T>>> = Seq::empty();
        let mut j: usize = 0;
        proof {
            assert forall|k: int| 0 <= k < n implies (#[trigger] start[k]).spec_node().wf() by {
                assert(old(self).spec_node(k) == start[k]);
            }
        }
        while j < n
            invariant
                n == names.len(),
                names == self.names@,
                names == c0.names@,
                start == c0.nodes@,
                c0 == *old(self),
                names_sorted(names),
                self.names == old(self).names,
                self.network == old(self).network,
                self.network_rng == old(self).network_rng,
                self.delayed == old(self).delayed,
                self.nodes@.len() == n,
                j <= n,
                evs.len() == j,
                events@ == tagged(names, evs, j as int),
                count == sat_usize(transit_count(c0, j as int)),
                forall|k: int| j <= k < n ==> #[trigger] self.nodes@[k] == start[k],
                forall|k: int| j <= k < n ==> (#[trigger] start[k]).spec_node().wf(),
                forall|k: int|
                    0 <= k < j ==> (#[trigger] self.nodes@[k]).spec_node().wf() && self.nodes@[k].spec_rng()
                        == start[k].spec_rng() && received_all(
                        start[k].spec_node(),
                        c0.spec_in_transit(names[k]@),
                        self.nodes@[k].spec_node(),
                        evs[k],
                    ),
                forall|k: int| 0 <= k < j ==> #[trigger] self.spec_in_transit(names[k]@) == Seq::<GossipMessage<T>>::empty(),
                forall|name: Seq<char>|
                    (forall|k: int| 0 <= k < j ==> #[trigger] names[k]@ != name) ==> #[trigger] self.spec_in_transit(name)
                        == c0.spec_in_transit(name),
            decreases n - j,
        {
            proof {
                assert forall|k: int| 0 <= k < j implies #[trigger] names[k]@ != names[j as int]@ by {
                    lemma_sorted_distinct(names, k, j as int);
                }
                assert(c0.spec_node(j as int) == start[j as int]);
            }
            let ghost pre = *self;
            proof {
                assert(pre.spec_in_transit(names[j as int]@) == c0.spec_in_transit(names[j as int]@));
            }
            let messages = self.transport.drain(&self.names[j]);
            let ghost msgs = messages@;
            let ml = messages.len();
            let ghost prev_events = events@;
            let entry = &mut self.nodes[j];
            receive_all(entry.node_mut(), messages, &self.names[j], &mut events);
            count = count.saturating_add(ml);
            proof {
                let e = choose|e: Seq<GossipEvent<T>>|
                    #[trigger] received_all(start[j as int].spec_node(), msgs, self.nodes@[j as int].spec_node(), e)
                        && events@ == prev_events + tag(names[j as int], e);
                let evs2 = evs.push(e);
                assert(tagged(names, evs2, j as int) == tagged(names, evs, j as int)) by {
                    lemma_tagged_prefix(names, evs, evs2, j as int);
                }
                evs = evs2;
                assert forall|name: Seq<char>|
                    (forall|k: int| 0 <= k < j + 1 ==> #[trigger] names[k]@ != name) implies #[trigger] self.spec_in_transit(name)
                        == c0.spec_in_transit(name) by {
                    assert(names[j as int]@ != name);
                    assert forall|k: int| 0 <= k < j implies #[trigger] names[k]@ != name by {
                        assert(names[k]@ != name);
                    }
                    assert(pre.spec_in_transit(name) == c0.spec_in_transit(name));
                    assert(self.spec_in_transit(name) == pre.spec_in_transit(name));
                }
                assert forall|k: int| 0 <= k < j + 1 implies #[trigger] self.spec_in_transit(names[k]@) == Seq::<
                    GossipMessage<T>,
                >::empty() by {
                    if k < j {
                        lemma_sorted_distinct(names, k, j as int);
                        assert(pre.spec_in_transit(names[k]@) == Seq::<GossipMessage<T>>::empty());
                        assert(self.spec_in_transit(names[k]@) == pre.spec_in_transit(names[k]@));
                    }
                }
            }
            j = j + 1;
        }
        proof {
            assert forall|k: int| 0 <= k < n implies (#[trigger] self.spec_node(k)).spec_node().wf()
                && self.spec_node(k).spec_rng() == old(self).spec_node(k).spec_rng() by {
                assert(self.spec_node(k) == self.nodes@[k]);
                assert(old(self).spec_node(k) == start[k]);
            }
            assert forall|k: int| 0 <= k < n implies received_all(
                (#[trigger] old(self).spec_node(k)).spec_node(),
                old(self).spec_in_transit(old(self).spec_names()[k]@),
                self.spec_node(k).spec_node(),
                evs[k],
            ) by {
                assert(self.spec_node(k) == self.nodes@[k]);
                assert(old(self).spec_node(k) == start[k]);
            }
        }
        (count, events)
    }
}

proof fn lemma_tagged_prefix<T>(names: Seq<NodeId>, a: Seq<Seq<GossipEvent<T>>>, b: Seq<Seq<GossipEvent<T>>>, k: int)
    requires
        0 <= k <= a.len(),
        k <= b.len(),
        forall|i: int| 0 <= i < k ==> a[i] == b[i],
    ensures
        tagged(names, a, k) == tagged(names, b, k),
    decreases k,
{
    if k > 0 {
        lemma_tagged_prefix(names, a, b, k - 1);
    }
}

proof fn lemma_transit_delivered<T>(c: Cluster<T>, names: Seq<NodeId>, now: Seq<PendingSend<T>>, k: int)
    requires
        0 <= k <= names.len(),
        c.spec_names() == names,
        forall|j: int| 0 <= j < k ==> #[trigger] c.spec_in_transit(names[j]@) == messages_to(routes(now), names[j]@),
    ensures
        transit_count(c, k) == delivered(names, now, k),
    decreases k,
{
    if k > 0 {
        lemma_transit_delivered(c, names, now, k - 1);
        assert(c.spec_in_transit(names[k - 1]@) == messages_to(routes(now), names[k - 1]@));
    }
}

impl<T: Clone> Cluster<T> {
    /// Runs one simulation round (see `tick_trace`).
    pub fn tick(&mut self, round: Round) -> (report: TickReport<GossipEvent<T>>)
        requires
            old(self).wf(),
        ensures
            final(self).wf(),
            ticked_once(*old(self), round, *final(self), report),
    {
        let ghost c0 = *self;
        let ghost names = self.names@;
        let ghost n = names.len();
        let ghost q = c0.spec_delayed();
        let due = drain_due(&mut self.delayed, round.get());
        let ghost c1 = *self;
        proof {
            assert(c1.spec_names() == names);
            assert forall|k: int| 0 <= k < n implies (#[trigger] c1.spec_node(k)).spec_node().wf() by {
                assert(c1.spec_node(k) == c0.spec_node(k));
            }
            assert forall|k: int| 0 <= k < n implies #[trigger] c1.spec_in_transit(names[k]@) == Seq::<
                GossipMessage<T>,
            >::empty() by {
                assert(c0.spec_in_transit(names[k]@) == Seq::<GossipMessage<T>>::empty());
            }
        }
        let sends = self.tick_nodes(round);
        let ghost c2 = *self;
        let ghost sends_seq = sends@;
        let ghost due_seq = due@;
        let mut now = due;
        let (attempted, dropped, duplicated, delayed) = network_pass(
            &self.network,
            &mut self.network_rng,
            &mut self.delayed,
            &mut now,
            sends,
            round,
        );
        let ghost now_seq = now@;
        let ghost c3 = *self;
        let sent = self.send_to_transport(now);
        let ghost c4 = *self;
        proof {
            assert forall|j: int| 0 <= j < n implies (#[trigger] c4.spec_node(j)).spec_node().wf() by {
                assert(c4.spec_node(j) == c2.spec_node(j));
            }
        }
        let (received, events) = self.deliver();
        let report = TickReport::from_counts(attempted, sent, dropped, duplicated, delayed, received, events);
        proof {
            let effects = choose|effects: Seq<Seq<Effect<GossipMessage<T>, ()>>>|
                #![trigger round_sends(c1.spec_names(), effects, c1.spec_names().len() as int)]
                effects.len() == c1.spec_names().len() && sends_seq == round_sends(
                    c1.spec_names(),
                    effects,
                    c1.spec_names().len() as int,
                ) && forall|j: int|
                    0 <= j < c1.spec_names().len() ==> ticked(
                        (#[trigger] c1.spec_node(j)).spec_node(),
                        c1.spec_node(j).spec_rng(),
                        round,
                        c2.spec_node(j).spec_node(),
                        c2.spec_node(j).spec_rng(),
                        effects[j],
                    );
            let evs = choose|evs: Seq<Seq<GossipEvent<T>>>|
                #![trigger tagged(c4.spec_names(), evs, c4.spec_names().len() as int)]
                evs.len() == c4.spec_names().len() && events@ == tagged(
                    c4.spec_names(),
                    evs,
                    c4.spec_names().len() as int,
                ) && forall|j: int|
                    0 <= j < c4.spec_names().len() ==> received_all(
                        (#[trigger] c4.spec_node(j)).spec_node(),
                        c4.spec_in_transit(c4.spec_names()[j]@),
                        self.spec_node(j).spec_node(),
                        evs[j],
                    );
            let mid = c2.nodes@;
            assert forall|j: int| 0 <= j < n implies #[trigger] c4.spec_in_transit(names[j]@) == messages_to(
                routes(now_seq),
                names[j]@,
            ) by {
                assert(c3.spec_in_transit(names[j]@) == c0.spec_in_transit(names[j]@));
                assert(c0.spec_in_transit(names[j]@) == Seq::<GossipMessage<T>>::empty());
                assert(Seq::<GossipMessage<T>>::empty() + messages_to(routes(now_seq), names[j]@) =~= messages_to(
                    routes(now_seq),
                    names[j]@,
                ));
            }
            lemma_transit_delivered(c4, names, now_seq, n as int);
            assert forall|j: int| 0 <= j < n implies ticked(
                (#[trigger] c0.spec_node(j)).spec_node(),
                c0.spec_node(j).spec_rng(),
                round,
                mid[j].spec_node(),
                mid[j].spec_rng(),
                effects[j],
            ) by {
                assert(c1.spec_node(j) == c0.spec_node(j));
                assert(c2.spec_node(j) == mid[j]);
            }
            assert forall|j: int| 0 <= j < n implies (#[trigger] self.spec_node(j)).spec_rng() == mid[j].spec_rng()
                && received_all(mid[j].spec_node(), messages_to(routes(now_seq), names[j]@), self.spec_node(j).spec_node(), evs[j]) by {
                assert(c4.spec_node(j) == c2.spec_node(j));
                assert(c2.spec_node(j) == mid[j]);
            }
            assert(c1.spec_delayed() == q.skip(due_count(q, round.value()) as int));
            assert(tick_trace(c0, round, mid, effects, now_seq, evs, *self, report));
            assert(ticked_once(c0, round, *self, report));
            assert forall|k: int| 0 <= k < self.spec_names().len() implies #[trigger] self.spec_in_transit(
                self.spec_names()[k]@,
            ) == Seq::<GossipMessage<T>>::empty() by {
                assert(self.spec_names() == names);
            }
            assert(queue_wf(self.spec_delayed()));
        }
        report
    }
}

/// One round of the cluster `before` at `round` can give `after` and
/// `report` (see `tick_trace`).
pub open spec fn ticked_once<T: Clone>(
    before: Cluster<T>,
    round: Round,
    after: Cluster<T>,
    report: TickReport<GossipEvent<T>>,
) -> bool {
    exists|
        mid: Seq<SimNode<T>>,
        effects: Seq<Seq<Effect<GossipMessage<T>, ()>>>,
        now: Seq<PendingSend<T>>,
        events: Seq<Seq<GossipEvent<T>>>,
    | #[trigger] tick_trace(before, round, mid, effects, now, events, after, report)
}

/// `states` are the clusters of a run of `rounds` from `states[0]`, one
/// round after another, with the reports `reports`.
pub open spec fn run_trace<T: Clone>(
    rounds: Seq<Round>,
    states: Seq<Cluster<T>>,
    reports: Seq<TickReport<GossipEvent<T>>>,
) -> bool {
    &&& states.len() == rounds.len() + 1
    &&& reports.len() == rounds.len()
    &&& forall|i: int| 0 <= i < rounds.len() ==> #[trigger] ticked_once(states[i], rounds[i], states[i + 1], reports[i])
}

/// The rounds `start`, `start + 1`, ... (saturating), `count` of them.
pub open spec fn rounds_from(start: u64, count: nat) -> Seq<Round> {
    Seq::new(count, |i: int| Round::spec_new(sat_add_u64(start, i)))
}

/// The sum of `count` over `reports`, saturating at `usize::MAX` at each step.
pub open spec fn sat_total<E>(reports: Seq<TickReport<E>>, count: spec_fn(TickReport<E>) -> usize) -> usize
    decreases reports.len(),
{
    if reports.len() == 0 {
        0
    } else {
        crate::sim::sat_add(sat_total(reports.drop_last(), count), count(reports.last()))
    }
}

/// The events of `reports`, report after report.
pub open spec fn run_events<E>(reports: Seq<TickReport<E>>) -> Seq<(NodeId, E)>
    decreases reports.len(),
{
    if reports.len() == 0 {
        Seq::empty()
    } else {
        run_events(reports.drop_last()) + reports.last().spec_events()
    }
}

/// `report` adds up the tick reports `reports`: their number, counters
/// (saturating) and events.
pub open spec fn sums_up<E>(report: crate::sim::RunReport<E>, reports: Seq<TickReport<E>>) -> bool {
    &&& report.spec_rounds_run() == reports.len()
    &&& report.spec_attempted() == sat_total(reports, |t: TickReport<E>| t.spec_attempted())
    &&& report.spec_sent() == sat_total(reports, |t: TickReport<E>| t.spec_sent())
    &&& report.spec_dropped() == sat_total(reports, |t: TickReport<E>| t.spec_dropped())
    &&& report.spec_duplicated() == sat_total(reports, |t: TickReport<E>| t.spec_duplicated())
    &&& report.spec_delayed() == sat_total(reports, |t: TickReport<E>| t.spec_delayed())
    &&& report.spec_received() == sat_total(reports, |t: TickReport<E>| t.spec_received())
    &&& report.spec_events() == run_events(reports)
}

proof fn lemma_sums_up_push<E>(
    before: crate::sim::RunReport<E>,
    after: crate::sim::RunReport<E>,
    reports: Seq<TickReport<E>>,
    tick: TickReport<E>,
)
    requires
        sums_up(before, reports),
        reports.len() < u64::MAX,
        after.spec_rounds_run() == (before.spec_rounds_run() + 1) as u64,
        after.spec_attempted() == crate::sim::sat_add(before.spec_attempted(), tick.spec_attempted()),
        after.spec_sent() == crate::sim::sat_add(before.spec_sent(), tick.spec_sent()),
        after.spec_dropped() == crate::sim::sat_add(before.spec_dropped(), tick.spec_dropped()),
        after.spec_duplicated() == crate::sim::sat_add(before.spec_duplicated(), tick.spec_duplicated()),
        after.spec_delayed() == crate::sim::sat_add(before.spec_delayed(), tick.spec_delayed()),
        after.spec_received() == crate::sim::sat_add(before.spec_received(), tick.spec_received()),
        after.spec_events() == before.spec_events() + tick.spec_events(),
    ensures
        sums_up(after, reports.push(tick)),
{
    let r2 = reports.push(tick);
    assert(r2.drop_last() =~= reports);
    assert(r2.last() == tick);
}

impl<T: Clone> Cluster<T> {
    /// Runs a fixed number of simulation rounds, from `start_round` on.
    pub fn run_for_rounds(&mut self, start_round: Round, rounds: u64) -> (report: crate::sim::RunReport<GossipEvent<T>>)
        requires
            old(self).wf(),
        ensures
            final(self).wf(),
            exists|states: Seq<Cluster<T>>, reports: Seq<TickReport<GossipEvent<T>>>|
                #[trigger] run_trace(rounds_from(start_round.value(), rounds as nat), states, reports)
                    && states[0] == *old(self) && states.last() == *final(self) && sums_up(report, reports),
    {
        let mut report = crate::sim::RunReport::new();
        let ghost mut states: Seq<Cluster<T>> = seq![*self];
        let ghost mut reports: Seq<TickReport<GossipEvent<T>>> = Seq::empty();
        let mut offset: u64 = 0;
        proof {
            assert(run_events(reports) =~= Seq::<(NodeId, GossipEvent<T>)>::empty());
        }
        while offset < rounds
            invariant
                offset <= rounds,
                self.wf(),
                run_trace(rounds_from(start_round.value(), offset as nat), states, reports),
                states[0] == *old(self),
                states.last() == *self,
                sums_up(report, reports),
            decreases rounds - offset,
        {
            let round = Round::new(start_round.get().saturating_add(offset));
            let ghost before = *self;
            let tick = self.tick(round);
            let ghost t = tick;
            let ghost prev = report;
            report.record_tick(tick);
            proof {
                lemma_sums_up_push(prev, report, reports, t);
                let rs = rounds_from(start_round.value(), (offset + 1) as nat);
                let states2 = states.push(*self);
                let reports2 = reports.push(t);
                assert forall|i: int| 0 <= i < rs.len() implies #[trigger] ticked_once(states2[i], rs[i], states2[i + 1], reports2[i]) by {
                    if i < offset {
                        assert(rs[i] == rounds_from(start_round.value(), offset as nat)[i]);
                    } else {
                        assert(rs[i] == round);
                    }
                }
                states = states2;
                reports = reports2;
            }
            offset = offset + 1;
        }
        report
    }
}

/// `after` and `r` are what running rounds `0`, `1`, ... of `before` until
/// the rumor `rumor_id` reaches `target_reach` nodes, or `max_rounds` rounds
/// ran, gives: whether the target was reached, how many nodes knew the rumor,
/// how many rounds ran (none when it was reached already), the rounds'
/// traces, and their counters added up.
pub open spec fn reach_run<T: Clone>(
    before: Cluster<T>,
    rumor_id: MessageId,
    target_reach: usize,
    max_rounds: u64,
    r: crate::sim::ReachReport,
    after: Cluster<T>,
) -> bool {
    &&& r.spec_reached() == (after.spec_reach(rumor_id) >= target_reach)
    &&& r.spec_reached_nodes() == after.spec_reach(rumor_id)
    &&& r.spec_rounds_run() <= max_rounds
    &&& !r.spec_reached() ==> r.spec_rounds_run() == max_rounds
    &&& exists|states: Seq<Cluster<T>>, reports: Seq<TickReport<GossipEvent<T>>>|
            #[trigger] run_trace(rounds_from(0, r.spec_rounds_run() as nat), states, reports) && states[0]
                == before && states.last() == after && (forall|i: int|
                0 <= i < reports.len() ==> (#[trigger] states[i]).spec_reach(rumor_id) < target_reach) && {
                &&& r.spec_attempted() == sat_total(reports, |t: TickReport<GossipEvent<T>>| t.spec_attempted())
                &&& r.spec_sent() == sat_total(reports, |t: TickReport<GossipEvent<T>>| t.spec_sent())
                &&& r.spec_dropped() == sat_total(reports, |t: TickReport<GossipEvent<T>>| t.spec_dropped())
                &&& r.spec_duplicated() == sat_total(reports, |t: TickReport<GossipEvent<T>>| t.spec_duplicated())
                &&& r.spec_delayed() == sat_total(reports, |t: TickReport<GossipEvent<T>>| t.spec_delayed())
                &&& r.spec_received() == sat_total(reports, |t: TickReport<GossipEvent<T>>| t.spec_received())
                &&& r.spec_new_rumors() == run_events(reports).len()
            }
}

impl<T: Clone> Cluster<T> {
    /// Runs rounds `0`, `1`, ... until a rumor reaches at least `target_reach`
    /// nodes or `max_rounds` rounds were run.
    ///
    /// A cluster where the rumor already reaches the target runs no round and
    /// reports nothing sent.
    pub fn run_until_reached(&mut self, rumor_id: MessageId, target_reach: usize, max_rounds: u64) -> (r: crate::sim::ReachReport)
        requires
            old(self).wf(),
        ensures
            final(self).wf(),
            reach_run(*old(self), rumor_id, target_reach, max_rounds, r, *final(self)),
    {
        let initial_reach = self.rumor_reach(rumor_id);
        let ghost states0: Seq<Cluster<T>> = seq![*self];
        let ghost reports0: Seq<TickReport<GossipEvent<T>>> = Seq::empty();
        if initial_reach >= target_reach {
            let r = crate::sim::ReachReport::new(true, 0, initial_reach, 0);
            proof {
                assert(run_trace(rounds_from(0, 0), states0, reports0));
            }
            return r;
        }
        let mut run = crate::sim::RunReport::new();
        let ghost mut states: Seq<Cluster<T>> = states0;
        let ghost mut reports: Seq<TickReport<GossipEvent<T>>> = reports0;
        let mut round: u64 = 0;
        proof {
            assert(run_events(reports) =~= Seq::<(NodeId, GossipEvent<T>)>::empty());
        }
        while round < max_rounds
            invariant
                round <= max_rounds,
                self.wf(),
                run_trace(rounds_from(0, round as nat), states, reports),
                states[0] == *old(self),
                states.last() == *self,
                sums_up(run, reports),
                forall|i: int| 0 <= i < reports.len() ==> (#[trigger] states[i]).spec_reach(rumor_id) < target_reach,
                self.spec_reach(rumor_id) < target_reach,
            decreases max_rounds - round,
        {
            let ghost before = *self;
            let tick = self.tick(Round::new(round));
            let ghost t = tick;
            let ghost prev = run;
            run.record_tick(tick);
            proof {
                lemma_sums_up_push(prev, run, reports, t);
                let rs = rounds_from(0, (round + 1) as nat);
                let states2 = states.push(*self);
                let reports2 = reports.push(t);
                assert forall|i: int| 0 <= i < rs.len() implies #[trigger] ticked_once(states2[i], rs[i], states2[i + 1], reports2[i]) by {
                    if i < round {
                        assert(rs[i] == rounds_from(0, round as nat)[i]);
                    } else {
                        assert(rs[i] == Round::spec_new(round));
                    }
                }
                assert forall|i: int| 0 <= i < reports2.len() implies (#[trigger] states2[i]).spec_reach(rumor_id) < target_reach by {
                    if i < reports.len() {
                        assert(states2[i] == states[i]);
                    }
                }
                states = states2;
                reports = reports2;
            }
            let reached_nodes = self.rumor_reach(rumor_id);
            if reached_nodes >= target_reach {
                let r = crate::sim::ReachReport::from_run_report(true, reached_nodes, run);
                proof {
                    assert(r.spec_rounds_run() == reports.len());
                    assert(run_trace(rounds_from(0, r.spec_rounds_run() as nat), states, reports));
                }
                return r;
            }
            round = round + 1;
        }
        let reached_nodes = self.rumor_reach(rumor_id);
        crate::sim::ReachReport::from_run_report(false, reached_nodes, run)
    }
}

/// The number of messages a round at `round` takes out of the delayed queue of `c`.
pub open spec fn due_messages<T>(c: Cluster<T>, round: Round) -> nat {
    flatten(c.spec_delayed().take(due_count(c.spec_delayed(), round.value()) as int)).len()
}

/// In a round, every original send is either dropped or goes on, once or
/// twice when duplicated; each copy, and each delayed message that came due,
/// is handed to the transport or joins the delayed queue, and only copies are
/// delayed. Nothing is lost or invented beyond what the network decides.
pub proof fn lemma_tick_accounting<T: Clone>(
    before: Cluster<T>,
    round: Round,
    after: Cluster<T>,
    report: TickReport<GossipEvent<T>>,
)
    requires
        before.wf(),
        ticked_once(before, round, after, report),
        report.spec_delayed() < usize::MAX,
    ensures
        report.spec_dropped() <= report.spec_attempted(),
        report.spec_duplicated() + report.spec_dropped() <= report.spec_attempted(),
        report.spec_sent() + report.spec_delayed() == due_messages(before, round) + report.spec_attempted()
            - report.spec_dropped() + report.spec_duplicated(),
        report.spec_delayed() <= report.spec_attempted() - report.spec_dropped() + report.spec_duplicated(),
        queued_count(after.spec_delayed()) == queued_count(before.spec_delayed()) - due_messages(before, round)
            + report.spec_delayed(),
{
    let (mid, effects, now, events) = choose|
        mid: Seq<SimNode<T>>,
        effects: Seq<Seq<Effect<GossipMessage<T>, ()>>>,
        now: Seq<PendingSend<T>>,
        events: Seq<Seq<GossipEvent<T>>>,
    | #[trigger] tick_trace(before, round, mid, effects, now, events, after, report);
    let names = before.spec_names();
    let net = before.spec_network();
    let s0 = before.spec_network_rng().spec_state();
    let q = before.spec_delayed();
    let due = due_count(q, round.value()) as int;
    let sends = round_sends(names, effects, names.len() as int);
    crate::delivery::lemma_pass_conservation(net, s0, sends, round.value());
    crate::delivery::lemma_pass_queued(net, s0, q.skip(due), sends, round.value());
    crate::delivery::lemma_queue_like_count(after.spec_delayed(), pass_queue(net, s0, q.skip(due), sends, round.value()));
    lemma_due_count_bound(q, round.value());
    crate::delivery::lemma_queued_split(q, due);
}

/// Every peer of every node of `c` is itself a node of `c`.
pub open spec fn peers_are_nodes<T>(c: Cluster<T>) -> bool {
    forall|j: int, k: int|
        0 <= j < c.spec_names().len() && 0 <= k < c.spec_node(j).spec_node().spec_peers().len() ==> names_node(
            c.spec_names(),
            (#[trigger] c.spec_node(j).spec_node().spec_peers()[k])@,
        )
}

proof fn lemma_delivered_empty<T>(names: Seq<NodeId>, k: int)
    ensures
        delivered(names, Seq::<PendingSend<T>>::empty(), k) == 0,
    decreases k,
{
    if k > 0 {
        lemma_delivered_empty::<T>(names, k - 1);
        assert(routes(Seq::<PendingSend<T>>::empty()) =~= Seq::<(NodeId, GossipMessage<T>)>::empty());
    }
}

proof fn lemma_delivered_push<T>(names: Seq<NodeId>, now: Seq<PendingSend<T>>, x: PendingSend<T>, k: int)
    requires
        names_sorted(names),
        0 <= k <= names.len(),
    ensures
        delivered(names, now.push(x), k) == delivered(names, now, k) + if names_node(names.take(k), x.target@) {
            1nat
        } else {
            0nat
        },
    decreases k,
{
    if k == 0 {
        assert(!names_node(names.take(0), x.target@));
    } else {
        lemma_delivered_push(names, now, x, k - 1);
        assert(routes(now.push(x)).drop_last() =~= routes(now));
        assert(routes(now.push(x)).last() == (x.target, x.message));
        let name = names[k - 1]@;
        assert(names_node(names.take(k), x.target@) <==> names_node(names.take(k - 1), x.target@) || name
            == x.target@) by {
            if names_node(names.take(k), x.target@) {
                let i = choose|i: int| 0 <= i < names.take(k).len() && #[trigger] names.take(k)[i]@ == x.target@;
                if i < k - 1 {
                    assert(names.take(k - 1)[i]@ == x.target@);
                }
            }
            if names_node(names.take(k - 1), x.target@) {
                let i = choose|i: int| 0 <= i < names.take(k - 1).len() && #[trigger] names.take(k - 1)[i]@
                    == x.target@;
                assert(names.take(k)[i]@ == x.target@);
            }
            if name == x.target@ {
                assert(names.take(k)[k - 1]@ == x.target@);
            }
        }
        if names_node(names.take(k - 1), x.target@) && name == x.target@ {
            let i = choose|i: int| 0 <= i < names.take(k - 1).len() && #[trigger] names.take(k - 1)[i]@
                == x.target@;
            lemma_sorted_distinct(names, i, k - 1);
        }
    }
}

/// Sends that all go to nodes of the cluster are all delivered.
proof fn lemma_delivered_all<T>(names: Seq<NodeId>, now: Seq<PendingSend<T>>)
    requires
        names_sorted(names),
        sends_named(names, now),
    ensures
        delivered(names, now, names.len() as int) == now.len(),
    decreases now.len(),
{
    if now.len() == 0 {
        lemma_delivered_empty::<T>(names, names.len() as int);
        assert(now =~= Seq::<PendingSend<T>>::empty());
    } else {
        let rest = now.drop_last();
        assert(sends_named(names, rest)) by {
            assert forall|i: int| 0 <= i < rest.len() implies names_node(names, (#[trigger] rest[i]).target@) by {
                assert(rest[i] == now[i]);
            }
        }
        lemma_delivered_all(names, rest);
        assert(now =~= rest.push(now.last()));
        lemma_delivered_push(names, rest, now.last(), names.len() as int);
        assert(names.take(names.len() as int) =~= names);
        assert(names_node(names, now[now.len() - 1].target@));
    }
}

proof fn lemma_sends_from_named<T>(names: Seq<NodeId>, source: NodeId, effects: Seq<Effect<GossipMessage<T>, ()>>)
    requires
        forall|i: int|
            0 <= i < effects.len() ==> (#[trigger] effects[i] matches Effect::Send { target, .. } ==> names_node(
                names,
                target@,
            )),
    ensures
        sends_named(names, sends_from(source, effects)),
    decreases effects.len(),
{
    if effects.len() > 0 {
        assert forall|i: int| 0 <= i < effects.len() - 1 implies (#[trigger] effects.drop_last()[i] matches Effect::Send {
            target,
            ..
        } ==> names_node(names, target@)) by {
            assert(effects.drop_last()[i] == effects[i]);
        }
        lemma_sends_from_named(names, source, effects.drop_last());
        let rest = sends_from(source, effects.drop_last());
        assert(effects[effects.len() - 1] matches Effect::Send { target, .. } ==> names_node(names, target@));
        if let Effect::Send { target, message } = effects.last() {
            let p = PendingSend { source, target, message };
            assert forall|i: int| 0 <= i < rest.len() + 1 implies names_node(names, (#[trigger] rest.push(p)[i]).target@) by {
                if i < rest.len() {
                    assert(rest.push(p)[i] == rest[i]);
                }
            }
        }
    }
}

proof fn lemma_round_sends_named<T>(names: Seq<NodeId>, effects: Seq<Seq<Effect<GossipMessage<T>, ()>>>, k: int)
    requires
        0 <= k <= effects.len(),
        k <= names.len(),
        forall|j: int, i: int|
            0 <= j < k && 0 <= i < effects[j].len() ==> (#[trigger] effects[j][i] matches Effect::Send {
                target,
                ..
            } ==> names_node(names, target@)),
    ensures
        sends_named(names, round_sends(names, effects, k)),
    decreases k,
{
    if k > 0 {
        lemma_round_sends_named(names, effects, k - 1);
        assert forall|i: int| 0 <= i < effects[k - 1].len() implies (#[trigger] effects[k - 1][i] matches Effect::Send {
            target,
            ..
        } ==> names_node(names, target@)) by {
            assert(effects[k - 1][i] matches Effect::Send { target, .. } ==> names_node(names, target@));
        }
        lemma_sends_from_named(names, names[k - 1], effects[k - 1]);
        let (a, b) = (round_sends(names, effects, k - 1), sends_from(names[k - 1], effects[k - 1]));
        assert forall|i: int| 0 <= i < (a + b).len() implies names_node(names, (#[trigger] (a + b)[i]).target@) by {
            if i < a.len() {
                assert((a + b)[i] == a[i]);
            } else {
                assert((a + b)[i] == b[i - a.len()]);
            }
        }
    }
}

/// A node's gossip round sends only to its peers.
proof fn lemma_ticked_targets<T: Clone>(
    before: GossipNode<T>,
    rng: DeterministicRng,
    round: Round,
    after: GossipNode<T>,
    rng_after: DeterministicRng,
    effects: Seq<Effect<GossipMessage<T>, ()>>,
)
    requires
        ticked(before, rng, round, after, rng_after, effects),
    ensures
        forall|i: int|
            0 <= i < effects.len() ==> (#[trigger] effects[i] matches Effect::Send { target, .. }
                && before.spec_peers().contains(target)),
{
    if after.spec_rumors().len() > 0 {
        let name = before.spec_self_id()@;
        let peers = before.spec_peers();
        let fanout = before.spec_config().spec_fanout() as nat;
        let batch = crate::node::tick_batch(
            after.spec_rumors(),
            round.value(),
            before.spec_config().spec_max_rumors_per_message(),
        );
        let (states, draws) = choose|states: Seq<DeterministicRng>, draws: Seq<u64>|
            #[trigger] crate::peer_selection::draw_trace(states, draws) && {
                let targets = crate::peer_selection::spec_select(name, peers, fanout, draws);
                &&& states[0] == rng
                &&& states.last() == rng_after
                &&& draws.len() == crate::peer_selection::draws_needed(name, peers, fanout)
                &&& effects.len() == targets.len()
                &&& forall|i: int|
                    0 <= i < targets.len() ==> (#[trigger] effects[i] matches Effect::Send {
                        target,
                        message,
                    } && target == targets[i] && crate::node::carries_batch(message, batch))
            };
        before.lemma_peers_fit();
        crate::peer_selection::lemma_chosen_peers(name, peers, fanout, draws);
        let targets = crate::peer_selection::spec_select(name, peers, fanout, draws);
        assert forall|i: int| 0 <= i < effects.len() implies (#[trigger] effects[i] matches Effect::Send { target, .. }
            && before.spec_peers().contains(target)) by {
            assert(targets.contains(targets[i]));
        }
    }
}

/// When every peer of every node is a node of the cluster, and every delayed
/// message goes to one, a round delivers every message it hands to the
/// transport; and a round before the last leaves no delayed message due by
/// that round.
pub proof fn lemma_tick_delivers_all<T: Clone>(
    before: Cluster<T>,
    round: Round,
    after: Cluster<T>,
    report: TickReport<GossipEvent<T>>,
)
    requires
        before.wf(),
        ticked_once(before, round, after, report),
        peers_are_nodes(before),
        queue_named(before.spec_names(), before.spec_delayed()),
    ensures
        report.spec_received() == report.spec_sent(),
        round.value() < u64::MAX ==> queue_due_after(after.spec_delayed(), round.value()),
{
    let (mid, effects, now, events) = choose|
        mid: Seq<SimNode<T>>,
        effects: Seq<Seq<Effect<GossipMessage<T>, ()>>>,
        now: Seq<PendingSend<T>>,
        events: Seq<Seq<GossipEvent<T>>>,
    | #[trigger] tick_trace(before, round, mid, effects, now, events, after, report);
    let names = before.spec_names();
    let n = names.len() as int;
    let net = before.spec_network();
    let s0 = before.spec_network_rng().spec_state();
    let q = before.spec_delayed();
    let due = due_count(q, round.value()) as int;
    assert forall|j: int, i: int| 0 <= j < n && 0 <= i < effects[j].len() implies (#[trigger] effects[j][i] matches Effect::Send {
        target,
        ..
    } ==> names_node(names, target@)) by {
        let node = before.spec_node(j);
        assert(ticked(node.spec_node(), node.spec_rng(), round, mid[j].spec_node(), mid[j].spec_rng(), effects[j]));
        lemma_ticked_targets(node.spec_node(), node.spec_rng(), round, mid[j].spec_node(), mid[j].spec_rng(), effects[j]);
        if let Effect::Send { target, .. } = effects[j][i] {
            let peers = node.spec_node().spec_peers();
            assert(peers.contains(target));
            let k = choose|k: int| 0 <= k < peers.len() && peers[k] == target;
            assert(names_node(names, before.spec_node(j).spec_node().spec_peers()[k]@));
        }
    }
    lemma_round_sends_named(names, effects, n);
    let sends = round_sends(names, effects, n);
    crate::delivery::lemma_pass_now_named(names, net, s0, sends, round.value());
    lemma_due_count_bound(q, round.value());
    assert(queue_named(names, q.take(due))) by {
        assert forall|i: int| 0 <= i < due implies sends_named(names, (#[trigger] q.take(due)[i]).1) by {
            assert(q.take(due)[i] == q[i]);
        }
    }
    crate::delivery::lemma_flatten_named(names, q.take(due));
    let expected = flatten(q.take(due)) + pass_now(net, s0, sends, round.value());
    assert(sends_named(names, expected)) by {
        let (a, b) = (flatten(q.take(due)), pass_now(net, s0, sends, round.value()));
        assert forall|i: int| 0 <= i < (a + b).len() implies names_node(names, (#[trigger] (a + b)[i]).target@) by {
            if i < a.len() {
                assert((a + b)[i] == a[i]);
            } else {
                assert((a + b)[i] == b[i - a.len()]);
            }
        }
    }
    assert(sends_named(names, now)) by {
        assert forall|i: int| 0 <= i < now.len() implies names_node(names, (#[trigger] now[i]).target@) by {
            assert(now[i].is_like(expected[i]));
        }
    }
    lemma_delivered_all(names, now);
    if round.value() < u64::MAX {
        crate::delivery::lemma_skip_due_after(q, round.value());
        crate::delivery::lemma_pass_queue_after(net, s0, q.skip(due), sends, round.value());
        let expected_q = pass_queue(net, s0, q.skip(due), sends, round.value());
        assert forall|i: int| 0 <= i < after.spec_delayed().len() implies (#[trigger] after.spec_delayed()[i]).0
            > round.value() by {
            assert(after.spec_delayed()[i].0 == expected_q[i].0);
        }
    }
}

/// The names of `ids`, in order.
pub open spec fn id_names(ids: Seq<NodeId>) -> Seq<Seq<char>> {
    ids.map_values(|n: NodeId| n@)
}

/// A spawned cluster has one node for each distinct name among the
/// identifiers it was spawned with; with no name repeated, one per identifier.
pub proof fn lemma_spawned_count<T>(c: Cluster<T>, config: GossipConfig, ids: Seq<NodeId>, seed: u64)
    requires
        spawned(c, config, ids, seed),
    ensures
        c.spec_len() == id_names(ids).to_set().len(),
        c.spec_len() == c.spec_names().len(),
        crate::peer_selection::distinct_names(ids) ==> c.spec_len() == ids.len(),
{
    let names = c.spec_names();
    let vn = id_names(names);
    let vi = id_names(ids);
    assert(vn.no_duplicates()) by {
        assert forall|i: int, j: int| 0 <= i < vn.len() && 0 <= j < vn.len() && i != j implies vn[i] != vn[j] by {
            lemma_sorted_distinct(names, i, j);
        }
    }
    vn.unique_seq_to_set();
    assert(vn.to_set() =~= vi.to_set()) by {
        assert forall|v: Seq<char>| vn.to_set().contains(v) <==> vi.to_set().contains(v) by {
            if vn.to_set().contains(v) {
                assert(vn.contains(v));
                let i = choose|i: int| 0 <= i < vn.len() && vn[i] == v;
                assert(vn[i] == names[i]@);
                assert(names_node(names, v));
                assert(names_node(ids, v));
                let k = choose|k: int| 0 <= k < ids.len() && #[trigger] ids[k]@ == v;
                assert(vi[k] == v);
                assert(vi.contains(v));
            }
            if vi.to_set().contains(v) {
                assert(vi.contains(v));
                let i = choose|i: int| 0 <= i < vi.len() && vi[i] == v;
                assert(vi[i] == ids[i]@);
                assert(names_node(ids, v));
                assert(names_node(names, v));
                let k = choose|k: int| 0 <= k < names.len() && #[trigger] names[k]@ == v;
                assert(vn[k] == v);
                assert(vn.contains(v));
            }
        }
    }
    if crate::peer_selection::distinct_names(ids) {
        assert(vi.no_duplicates()) by {
            assert forall|i: int, j: int| 0 <= i < vi.len() && 0 <= j < vi.len() && i != j implies vi[i] != vi[j] by {
                assert(ids[i]@ != ids[j]@);
            }
        }
        vi.unique_seq_to_set();
    }
}

/// A round drops at most the sends it attempts.
pub proof fn lemma_tick_drops_attempts<T: Clone>(
    before: Cluster<T>,
    round: Round,
    after: Cluster<T>,
    report: TickReport<GossipEvent<T>>,
)
    requires
        ticked_once(before, round, after, report),
    ensures
        report.spec_dropped() <= report.spec_attempted(),
{
    let (mid, effects, now, events) = choose|
        mid: Seq<SimNode<T>>,
        effects: Seq<Seq<Effect<GossipMessage<T>, ()>>>,
        now: Seq<PendingSend<T>>,
        events: Seq<Seq<GossipEvent<T>>>,
    | #[trigger] tick_trace(before, round, mid, effects, now, events, after, report);
    let names = before.spec_names();
    let sends = round_sends(names, effects, names.len() as int);
    crate::delivery::lemma_pass_conservation(
        before.spec_network(),
        before.spec_network_rng().spec_state(),
        sends,
        round.value(),
    );
}

proof fn lemma_due_count_bound<P>(q: Seq<(u64, Seq<P>)>, round: u64)
    ensures
        due_count(q, round) <= q.len(),
    decreases q.len(),
{
    if q.len() > 0 {
        lemma_due_count_bound(q.drop_first(), round);
    }
}

/// Over a network that loses, duplicates and delays nothing and cuts no
/// link, a round drops, duplicates and delays nothing, hands every send and
/// every message that came due to the transport, and leaves the network's
/// random source as it was.
pub proof fn lemma_reliable_tick<T: Clone>(
    before: Cluster<T>,
    round: Round,
    after: Cluster<T>,
    report: TickReport<GossipEvent<T>>,
)
    requires
        before.wf(),
        ticked_once(before, round, after, report),
        before.spec_network().spec_loss() == Chance::Never,
        before.spec_network().spec_duplicate() == Chance::Never,
        before.spec_network().spec_max_delay_rounds() == 0,
        before.spec_network().spec_partitions().len() == 0,
    ensures
        report.spec_dropped() == 0,
        report.spec_duplicated() == 0,
        report.spec_delayed() == 0,
        report.spec_sent() == due_messages(before, round) + report.spec_attempted(),
        after.spec_network_rng() == before.spec_network_rng(),
        queued_count(after.spec_delayed()) == queued_count(before.spec_delayed()) - due_messages(before, round),
{
    let (mid, effects, now, events) = choose|
        mid: Seq<SimNode<T>>,
        effects: Seq<Seq<Effect<GossipMessage<T>, ()>>>,
        now: Seq<PendingSend<T>>,
        events: Seq<Seq<GossipEvent<T>>>,
    | #[trigger] tick_trace(before, round, mid, effects, now, events, after, report);
    let names = before.spec_names();
    let net = before.spec_network();
    let s0 = before.spec_network_rng().spec_state();
    let q = before.spec_delayed();
    let due = due_count(q, round.value()) as int;
    let sends = round_sends(names, effects, names.len() as int);
    crate::delivery::lemma_reliable_pass(net, s0, q.skip(due), sends, round.value());
    lemma_tick_accounting(before, round, after, report);
    DeterministicRng::lemma_state_determines(after.spec_network_rng(), before.spec_network_rng());
}

} // verus!
