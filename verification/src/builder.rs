//! Building simulation clusters: generated node names, fully connected and
//! line topologies.

use vstd::prelude::*;

use crate::cluster::{last_named, lemma_sorted_distinct, names_sorted, sat_add_u64, seeded, spawned, starts_as, Cluster};
use crate::config::GossipConfig;
use crate::identity::NodeId;
use crate::network::NetworkModel;
use crate::rumor::Rumor;
use crate::sim::{clone_ids, names_node, NetworkPartition, SimNode};
use crate::text::{decimal, u64_to_decimal};

verus! {

/// The name of the generated node at position `i`: `node-` and `i` in decimal.
pub open spec fn generated_name(i: nat) -> Seq<char> {
    "node-"@ + decimal(i)
}

/// Returns the node IDs `node-0`, `node-1`, ..., `node-{count - 1}`.
pub fn generated_node_ids(count: usize) -> (ids: Vec<NodeId>)
    ensures
        ids@.len() == count,
        forall|i: int| 0 <= i < count ==> #[trigger] ids@[i]@ == generated_name(i as nat),
{
    let mut ids: Vec<NodeId> = Vec::new();
    let mut i: usize = 0;
    while i < count
        invariant
            i <= count,
            ids@.len() == i,
            forall|k: int| 0 <= k < i ==> #[trigger] ids@[k]@ == generated_name(k as nat),
        decreases count - i,
    {
        let mut name = String::from_str("node-");
        let digits = u64_to_decimal(i as u64);
        name.append(digits.as_str());
        proof {
            reveal_strlit("node-");
        }
        ids.push(NodeId::new(name));
        i = i + 1;
    }
    ids
}

/// The peers of the node at position `i` of a line: its neighbors before
/// and after it.
pub open spec fn line_peers(ids: Seq<NodeId>, i: int) -> Seq<NodeId> {
    (if i > 0 { seq![ids[i - 1]] } else { Seq::<NodeId>::empty() }) + (if i + 1 < ids.len() {
        seq![ids[i + 1]]
    } else {
        Seq::<NodeId>::empty()
    })
}

/// `node` is what a line topology built with `seed` starts with for the node
/// `ids[i]`: as `starts_as`, but its peers are its neighbors in `ids`.
pub open spec fn line_node<T>(node: SimNode<T>, config: GossipConfig, ids: Seq<NodeId>, seed: u64, i: int) -> bool {
    &&& 0 <= i && i < ids.len()
    &&& node.spec_node().wf()
    &&& node.spec_node().spec_self_id() == ids[i]
    &&& node.spec_node().spec_config() == config
    &&& node.spec_node().spec_peers() == line_peers(ids, i)
    &&& node.spec_node().spec_rumors() == Seq::<Rumor<T>>::empty()
    &&& node.spec_rng().spec_state() == sat_add_u64(seed, i)
}

/// `c` is the cluster that a builder with `config`, `ids`, `seed` and
/// `network` gives for a line topology: as `connected`, but each node peers
/// with its neighbors in `ids` (those of the last identifier of its name).
pub open spec fn lined<T>(c: Cluster<T>, config: GossipConfig, ids: Seq<NodeId>, seed: u64, network: NetworkModel) -> bool {
    &&& c.wf()
    &&& forall|name: Seq<char>| names_node(c.spec_names(), name) <==> names_node(ids, name)
    &&& forall|j: int|
        0 <= j < c.spec_names().len() ==> line_node(
            #[trigger] c.spec_node(j),
            config,
            ids,
            seed,
            last_named(ids, c.spec_names()[j]@),
        )
    &&& c.spec_network() == network
    &&& c.spec_network_rng().spec_state() == sat_add_u64(seed, ids.len() as int)
    &&& c.spec_delayed().len() == 0
}

/// `c` is the cluster that a builder with `config`, `ids`, `seed` and
/// `network` gives for a fully connected topology: as `seeded`, with the
/// network `network`.
pub open spec fn connected<T>(c: Cluster<T>, config: GossipConfig, ids: Seq<NodeId>, seed: u64, network: NetworkModel) -> bool {
    &&& spawned(c, config, ids, seed)
    &&& c.spec_network() == network
}

proof fn lemma_lined<T>(c: Cluster<T>, config: GossipConfig, ids: Seq<NodeId>, seed: u64, network: NetworkModel)
    requires
        c.wf(),
        forall|name: Seq<char>| names_node(c.spec_names(), name) <==> names_node(ids, name),
        forall|j: int|
            0 <= j < c.spec_names().len() ==> line_node(
                #[trigger] c.spec_node(j),
                config,
                ids,
                seed,
                last_named(ids, c.spec_names()[j]@),
            ),
        c.spec_network() == network,
        c.spec_network_rng().spec_state() == sat_add_u64(seed, ids.len() as int),
        c.spec_delayed().len() == 0,
    ensures
        lined(c, config, ids, seed, network),
{
}

/// Builder for deterministic simulation clusters.
#[derive(Debug, PartialEq)]
pub struct ClusterBuilder {
    config: GossipConfig,
    node_ids: Vec<NodeId>,
    seed: u64,
    network: NetworkModel,
}

impl ClusterBuilder {
    /// The gossip configuration of built clusters.
    pub closed spec fn spec_config(self) -> GossipConfig {
        self.config
    }

    /// The node IDs of built clusters.
    pub closed spec fn spec_node_ids(self) -> Seq<NodeId> {
        self.node_ids@
    }

    /// The seed of built clusters.
    pub closed spec fn spec_seed(self) -> u64 {
        self.seed
    }

    /// The network model of built clusters.
    pub closed spec fn spec_network(self) -> NetworkModel {
        self.network
    }

    /// Creates a cluster builder with no nodes, seed `1`, and a reliable network.
    pub fn new(config: GossipConfig) -> (b: Self)
        ensures
            b.spec_config() == config,
            b.spec_node_ids() == Seq::<NodeId>::empty(),
            b.spec_seed() == 1,
            b.spec_network().spec_loss() == crate::network::Chance::Never,
            b.spec_network().spec_duplicate() == crate::network::Chance::Never,
            b.spec_network().spec_delay() == crate::network::Chance::Never,
            b.spec_network().spec_max_delay_rounds() == 0,
            b.spec_network().spec_partitions() == Seq::<NetworkPartition>::empty(),
    {
        ClusterBuilder { config, node_ids: Vec::new(), seed: 1, network: NetworkModel::new() }
    }

    /// Returns the gossip configuration used for built clusters.
    pub fn config(&self) -> (c: &GossipConfig)
        ensures
            *c == self.spec_config(),
    {
        &self.config
    }

    /// Returns node IDs that will be used for built clusters.
    pub fn node_ids(&self) -> (ids: &[NodeId])
        ensures
            ids@ == self.spec_node_ids(),
    {
        self.node_ids.as_slice()
    }

    /// Returns the seed used for deterministic node and network randomness.
    pub fn seed(&self) -> (s: u64)
        ensures
            s == self.spec_seed(),
    {
        self.seed
    }

    /// Returns the simulated network model used for built clusters.
    pub fn network_model(&self) -> (m: &NetworkModel)
        ensures
            *m == self.spec_network(),
    {
        &self.network
    }

    /// Returns this builder with generated node IDs `node-0`, `node-1`, ...
    pub fn with_node_count(self, node_count: usize) -> (b: Self)
        ensures
            b.spec_config() == self.spec_config(),
            b.spec_node_ids().len() == node_count,
            forall|i: int| 0 <= i < node_count ==> #[trigger] b.spec_node_ids()[i]@ == generated_name(i as nat),
            b.spec_seed() == self.spec_seed(),
            b.spec_network() == self.spec_network(),
    {
        ClusterBuilder { node_ids: generated_node_ids(node_count), ..self }
    }

    /// Returns this builder with explicit node IDs.
    pub fn with_node_ids(self, node_ids: Vec<NodeId>) -> (b: Self)
        ensures
            b.spec_config() == self.spec_config(),
            b.spec_node_ids() == node_ids@,
            b.spec_seed() == self.spec_seed(),
            b.spec_network() == self.spec_network(),
    {
        ClusterBuilder { node_ids, ..self }
    }

    /// Returns this builder with a different deterministic seed.
    pub fn with_seed(self, seed: u64) -> (b: Self)
        ensures
            b.spec_config() == self.spec_config(),
            b.spec_node_ids() == self.spec_node_ids(),
            b.spec_seed() == seed,
            b.spec_network() == self.spec_network(),
    {
        ClusterBuilder { seed, ..self }
    }

    /// Returns this builder with a different network model.
    pub fn with_network_model(self, network: NetworkModel) -> (b: Self)
        ensures
            b.spec_config() == self.spec_config(),
            b.spec_node_ids() == self.spec_node_ids(),
            b.spec_seed() == self.spec_seed(),
            b.spec_network() == network,
    {
        ClusterBuilder { network, ..self }
    }

    /// Returns this builder with an added network partition.
    pub fn with_partition(self, partition: NetworkPartition) -> (b: Self)
        ensures
            b.spec_config() == self.spec_config(),
            b.spec_node_ids() == self.spec_node_ids(),
            b.spec_seed() == self.spec_seed(),
            b.spec_network().spec_loss() == self.spec_network().spec_loss(),
            b.spec_network().spec_duplicate() == self.spec_network().spec_duplicate(),
            b.spec_network().spec_delay() == self.spec_network().spec_delay(),
            b.spec_network().spec_max_delay_rounds() == self.spec_network().spec_max_delay_rounds(),
            b.spec_network().spec_partitions() == self.spec_network().spec_partitions().push(partition),
    {
        let ClusterBuilder { config, node_ids, seed, network } = self;
        ClusterBuilder { config, node_ids, seed, network: network.with_partition(partition) }
    }

    /// Returns this builder with all network partitions removed.
    pub fn without_partitions(self) -> (b: Self)
        ensures
            b.spec_config() == self.spec_config(),
            b.spec_node_ids() == self.spec_node_ids(),
            b.spec_seed() == self.spec_seed(),
            b.spec_network().spec_loss() == self.spec_network().spec_loss(),
            b.spec_network().spec_duplicate() == self.spec_network().spec_duplicate(),
            b.spec_network().spec_delay() == self.spec_network().spec_delay(),
            b.spec_network().spec_max_delay_rounds() == self.spec_network().spec_max_delay_rounds(),
            b.spec_network().spec_partitions() == Seq::<NetworkPartition>::empty(),
    {
        let ClusterBuilder { config, node_ids, seed, network } = self;
        ClusterBuilder { config, node_ids, seed, network: network.without_partitions() }
    }

    /// Builds a cluster where every node peers with every other node.
    pub fn fully_connected<T>(self) -> (c: Cluster<T>)
        ensures
            connected(c, self.spec_config(), self.spec_node_ids(), self.spec_seed(), self.spec_network()),
    {
        let ghost ids = self.node_ids@;
        let ClusterBuilder { config, node_ids, seed, network } = self;
        let c0: Cluster<T> = Cluster::with_seed(config, node_ids, seed);
        let ghost net = network;
        let c = c0.with_network_model(network);
        proof {
            assert(spawned(c, config, ids, seed));
        }
        c
    }

    /// Builds a line topology cluster.
    ///
    /// Each node peers with its immediate neighbor or neighbors in the builder's
    /// node-ID order.
    pub fn line<T>(self) -> (c: Cluster<T>)
        ensures
            lined(c, self.spec_config(), self.spec_node_ids(), self.spec_seed(), self.spec_network()),
    {
        let node_ids = clone_ids(&self.node_ids);
        let ghost ids = node_ids@;
        let ghost config = self.config;
        let ghost seed = self.seed;
        let ghost network = self.network;
        let mut cluster: Cluster<T> = self.fully_connected();
        let ghost start = cluster;
        let n = node_ids.len();
        let mut index: usize = 0;
        while index < n
            invariant
                n == ids.len(),
                ids == node_ids@,
                index <= n,
                cluster.wf(),
                cluster.spec_names() == start.spec_names(),
                cluster.spec_network() == network,
                cluster.spec_network_rng() == start.spec_network_rng(),
                cluster.spec_delayed() == start.spec_delayed(),
                connected(start, config, ids, seed, network),
                forall|j: int|
                    0 <= j < start.spec_names().len() ==> {
                        let l = last_named(ids.take(index as int), start.spec_names()[j]@);
                        let node = (#[trigger] cluster.spec_node(j)).spec_node();
                        let first = start.spec_node(j).spec_node();
                        &&& node.wf()
                        &&& node.spec_self_id() == first.spec_self_id()
                        &&& node.spec_config() == first.spec_config()
                        &&& node.spec_rumors() == first.spec_rumors()
                        &&& cluster.spec_node(j).spec_rng() == start.spec_node(j).spec_rng()
                        &&& node.spec_peers() == if l >= 0 { line_peers(ids, l) } else { first.spec_peers() }
                    },
            decreases n - index,
        {
            let mut peers: Vec<NodeId> = Vec::new();
            if index > 0 {
                peers.push(node_ids[index - 1].clone());
            }
            if index + 1 < n {
                peers.push(node_ids[index + 1].clone());
            }
            proof {
                assert(peers@ =~= line_peers(ids, index as int));
            }
            let ghost before = cluster;
            proof {
                assert(names_node(ids, ids[index as int]@));
            }
            match cluster.node_mut(&node_ids[index]) {
                Some(node) => {
                    node.set_peers(peers);
                },
                None => {},
            }
            proof {
                let j0 = choose|j0: int|
                    #![trigger before.spec_node(j0)]
                    0 <= j0 < before.spec_names().len() && before.spec_names()[j0]@ == ids[index as int]@
                        && before.same_but_node(cluster, j0)
                        && cluster.spec_node(j0).spec_node().spec_peers() == peers@
                        && cluster.spec_node(j0).spec_node().wf()
                        && cluster.spec_node(j0).spec_node().spec_self_id() == before.spec_node(j0).spec_node().spec_self_id()
                        && cluster.spec_node(j0).spec_node().spec_config() == before.spec_node(j0).spec_node().spec_config()
                        && cluster.spec_node(j0).spec_node().spec_rumors() == before.spec_node(j0).spec_node().spec_rumors();
                Cluster::lemma_same_but_node_wf(before, cluster, j0);
                assert forall|j: int| 0 <= j < start.spec_names().len() implies {
                    let l = last_named(ids.take(index + 1), start.spec_names()[j]@);
                    let node = (#[trigger] cluster.spec_node(j)).spec_node();
                    let first = start.spec_node(j).spec_node();
                    &&& node.wf()
                    &&& node.spec_self_id() == first.spec_self_id()
                    &&& node.spec_config() == first.spec_config()
                    &&& node.spec_rumors() == first.spec_rumors()
                    &&& cluster.spec_node(j).spec_rng() == start.spec_node(j).spec_rng()
                    &&& node.spec_peers() == if l >= 0 { line_peers(ids, l) } else { first.spec_peers() }
                } by {
                    assert(ids.take(index + 1).drop_last() =~= ids.take(index as int));
                    assert(ids.take(index + 1).last() == ids[index as int]);
                    if j != j0 {
                        lemma_sorted_distinct(start.spec_names(), j, j0);
                        assert(cluster.spec_node(j) == before.spec_node(j));
                    }
                }
            }
            index = index + 1;
        }
        proof {
            assert(ids.take(n as int) =~= ids);
            assert forall|j: int| 0 <= j < cluster.spec_names().len() implies line_node(
                #[trigger] cluster.spec_node(j),
                config,
                ids,
                seed,
                last_named(ids, cluster.spec_names()[j]@),
            ) by {
                assert(starts_as(start.spec_node(j), config, ids, seed, last_named(ids, start.spec_names()[j]@)));
                assert(names_node(ids, start.spec_names()[j]@));
            }
            assert forall|name: Seq<char>| names_node(cluster.spec_names(), name) <==> names_node(ids, name) by {
                assert(names_node(start.spec_names(), name) <==> names_node(ids, name));
            }
            assert(spawned(start, config, ids, seed));
            assert(cluster.spec_network_rng().spec_state() == sat_add_u64(seed, ids.len() as int));
            assert(cluster.spec_delayed().len() == 0);
            assert(cluster.wf());
            assert(cluster.spec_network() == network);
            lemma_lined(cluster, config, ids, seed, network);
        }
        cluster
    }
}

impl Clone for ClusterBuilder {
    fn clone(&self) -> (b: Self)
        ensures
            b.spec_config() == self.spec_config(),
            b.spec_node_ids() == self.spec_node_ids(),
            b.spec_seed() == self.spec_seed(),
            b.spec_network().spec_loss() == self.spec_network().spec_loss(),
            b.spec_network().spec_duplicate() == self.spec_network().spec_duplicate(),
            b.spec_network().spec_delay() == self.spec_network().spec_delay(),
            b.spec_network().spec_max_delay_rounds() == self.spec_network().spec_max_delay_rounds(),
            b.spec_network().spec_partitions().len() == self.spec_network().spec_partitions().len(),
    {
        ClusterBuilder {
            config: self.config,
            node_ids: clone_ids(&self.node_ids),
            seed: self.seed,
            network: self.network.clone(),
        }
    }
}

impl<T> Cluster<T> {
    /// Creates a fully connected cluster with generated node IDs `node-0`,
    /// `node-1`, ... (seed `1`).
    pub fn fully_connected(config: GossipConfig, node_count: usize) -> (c: Self)
        ensures
            exists|ids: Seq<NodeId>|
                #![trigger spawned(c, config, ids, 1)]
                generated(ids, node_count as nat) && seeded(c, config, ids, 1),
    {
        Self::fully_connected_with_seed(config, node_count, 1)
    }

    /// Creates a fully connected cluster with generated node IDs and a deterministic seed.
    pub fn fully_connected_with_seed(config: GossipConfig, node_count: usize, seed: u64) -> (c: Self)
        ensures
            exists|ids: Seq<NodeId>|
                #![trigger spawned(c, config, ids, seed)]
                generated(ids, node_count as nat) && seeded(c, config, ids, seed),
    {
        let b = ClusterBuilder::new(config).with_node_count(node_count).with_seed(seed);
        let ghost ids = b.spec_node_ids();
        let c = b.fully_connected();
        proof {
            assert(generated(ids, node_count as nat));
        }
        c
    }

    /// Creates a line topology cluster with generated node IDs:
    /// `node-0 <-> node-1 <-> node-2 <-> ...` (seed `1`).
    pub fn line(config: GossipConfig, node_count: usize) -> (c: Self)
        ensures
            exists|ids: Seq<NodeId>, network: NetworkModel|
                #![trigger lined(c, config, ids, 1, network)]
                generated(ids, node_count as nat) && lined(c, config, ids, 1, network) && reliable(network),
    {
        Self::line_with_seed(config, node_count, 1)
    }

    /// Creates a line topology cluster with generated node IDs and a deterministic seed.
    pub fn line_with_seed(config: GossipConfig, node_count: usize, seed: u64) -> (c: Self)
        ensures
            exists|ids: Seq<NodeId>, network: NetworkModel|
                #![trigger lined(c, config, ids, seed, network)]
                generated(ids, node_count as nat) && lined(c, config, ids, seed, network) && reliable(network),
    {
        let b = ClusterBuilder::new(config).with_node_count(node_count).with_seed(seed);
        let ghost ids = b.spec_node_ids();
        let ghost network = b.spec_network();
        let c = b.line();
        proof {
            assert(generated(ids, node_count as nat));
            assert(lined(c, config, ids, seed, network));
        }
        c
    }
}

/// `ids` are the generated node IDs `node-0`, ..., `node-{count - 1}`.
pub open spec fn generated(ids: Seq<NodeId>, count: nat) -> bool {
    &&& ids.len() == count
    &&& forall|i: int| 0 <= i < count ==> #[trigger] ids[i]@ == generated_name(i as nat)
}

/// `network` loses, duplicates and delays nothing, and cuts no link.
pub open spec fn reliable(network: NetworkModel) -> bool {
    &&& network.spec_loss() == crate::network::Chance::Never
    &&& network.spec_duplicate() == crate::network::Chance::Never
    &&& network.spec_delay() == crate::network::Chance::Never
    &&& network.spec_max_delay_rounds() == 0
    &&& network.spec_partitions() == Seq::<NetworkPartition>::empty()
}

} // verus!
