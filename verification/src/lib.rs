//! Transport-independent, deterministic gossip protocol building blocks.

pub mod anti_entropy;
pub mod builder;
pub mod cluster;
pub mod config;
pub mod delivery;
pub mod effect;
pub mod event;
pub mod experiment;
pub mod identity;
pub mod message;
pub mod network;
pub mod node;
pub mod peer_selection;
pub mod replay;
pub mod rng;
pub mod rumor;
pub mod rumor_store;
pub mod sim;
pub mod text;
pub mod time;
pub mod transport;
mod vec_order;

pub use builder::{generated_node_ids, ClusterBuilder};
pub use cluster::{Cluster, ClusterError};
pub use delivery::PendingSend;
pub use experiment::{ConvergenceComparison, ConvergenceExperiment, ConvergenceScenario};
pub use network::{Chance, NetworkModel};
pub use anti_entropy::{
    delta_message, digest_message, merge_delta, AntiEntropyMessage, DeltaStore, Digest, IdSetDigest,
    Merge, MergeOutcome, MergeReport,
};
pub use config::{ConfigError, GossipConfig};
pub use effect::Effect;
pub use event::GossipEvent;
pub use identity::{MessageId, MessageIdGenerator, NodeId};
pub use message::GossipMessage;
pub use node::{GossipNode, PublishManyError};
pub use peer_selection::choose_distinct_peers;
pub use rng::{DeterministicRng, RandomSource};
pub use rumor::Rumor;
pub use rumor_store::{InsertOutcome, RumorStore};
pub use sim::{
    ConvergenceComparisonReport, ConvergenceReport, ConvergenceScenarioReport, ExperimentError,
    NetworkPartition, ReachReport, RunReport, SimNode, TickReport,
};
pub use time::{Round, Timestamp};
pub use transport::{apply_effects, EffectReport, InMemoryTransport, Transport, TransportError};
