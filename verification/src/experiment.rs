//! Repeated convergence trials on simulated clusters, and named comparisons
//! of them.

use vstd::prelude::*;

use crate::cluster::{
    insert_result, inserted_at, reach_run, rounds_from, run_events, run_trace, sat_add_u64, sat_total, spawned, ticked_once,
    Cluster,
};
use crate::event::GossipEvent;
use crate::config::GossipConfig;
use crate::identity::{MessageId, NodeId};
use crate::network::{same_network, NetworkModel};
use crate::peer_selection::same_names;
use crate::replay::{lemma_inserted_alike, lemma_reach_run_repeatable, lemma_spawned_alike, rumor_meta};
use crate::rumor::Rumor;
use crate::sim::{
    names_node, ConvergenceComparisonReport, ConvergenceReport, ConvergenceScenarioReport, ExperimentError, ReachReport,
    TickReport,
};
use crate::text::{decimal, u64_to_decimal};
use crate::time::Round;

verus! {

/// The name of node `i` of trial `t`: `trial-{t}-node-{i}`.
pub open spec fn trial_name(t: nat, i: nat) -> Seq<char> {
    "trial-"@ + decimal(t) + "-node-"@ + decimal(i)
}

/// `ids` are the node IDs of trial `t` with `count` nodes.
pub open spec fn trial_ids(ids: Seq<NodeId>, t: nat, count: nat) -> bool {
    &&& ids.len() == count
    &&& forall|i: int| 0 <= i < count ==> #[trigger] ids[i]@ == trial_name(t, i as nat)
}

/// Returns the node IDs of trial `trial` with `count` nodes.
fn trial_node_ids(trial: usize, count: usize) -> (ids: Vec<NodeId>)
    ensures
        trial_ids(ids@, trial as nat, count as nat),
{
    let mut ids: Vec<NodeId> = Vec::new();
    let mut i: usize = 0;
    proof {
        reveal_strlit("trial-");
        reveal_strlit("-node-");
    }
    while i < count
        invariant
            i <= count,
            ids@.len() == i,
            forall|k: int| 0 <= k < i ==> #[trigger] ids@[k]@ == trial_name(trial as nat, k as nat),
        decreases count - i,
    {
        let mut name = String::from_str("trial-");
        let t = u64_to_decimal(trial as u64);
        name.append(t.as_str());
        name.append("-node-");
        let k = u64_to_decimal(i as u64);
        name.append(k.as_str());
        ids.push(NodeId::new(name));
        proof {
            assert(ids@[i as int]@ =~= trial_name(trial as nat, i as nat));
        }
        i = i + 1;
    }
    ids
}

/// The rumor that trial `t` starts at its first node `origin`.
pub open spec fn trial_rumor(t: nat, origin: NodeId) -> Rumor<&'static str> {
    Rumor::spec_new(MessageId::spec_from_value((t + 1) as u128), origin, Round::spec_new(0), "experiment")
}

/// Configuration for running repeated convergence trials.
#[derive(Debug, PartialEq, Eq)]
pub struct ConvergenceExperiment {
    node_count: usize,
    config: GossipConfig,
    network: NetworkModel,
    max_rounds: u64,
    trials: usize,
    base_seed: u64,
}

impl ConvergenceExperiment {
    /// An experiment has at least one node and runs at least one trial.
    #[verifier::type_invariant]
    closed spec fn counts_positive(self) -> bool {
        self.node_count > 0 && self.trials > 0
    }

    /// Nodes per trial.
    pub closed spec fn spec_node_count(self) -> usize {
        self.node_count
    }

    /// The gossip configuration of each trial.
    pub closed spec fn spec_config(self) -> GossipConfig {
        self.config
    }

    /// The network model of each trial.
    pub closed spec fn spec_network(self) -> NetworkModel {
        self.network
    }

    /// The most rounds a trial runs.
    pub closed spec fn spec_max_rounds(self) -> u64 {
        self.max_rounds
    }

    /// The number of trials.
    pub closed spec fn spec_trials(self) -> usize {
        self.trials
    }

    /// The seed of the first trial; trial `t` uses this seed plus `t`.
    pub closed spec fn spec_base_seed(self) -> u64 {
        self.base_seed
    }

    /// Creates a convergence experiment with `fanout`, at most 1024 rumors per
    /// node, a reliable network and base seed `1`.
    pub fn new(node_count: usize, fanout: usize, max_rounds: u64, trials: usize) -> (r: Result<Self, ExperimentError>)
        ensures
            node_count == 0 ==> r == Err::<Self, ExperimentError>(ExperimentError::ZeroNodeCount),
            node_count != 0 && fanout == 0 ==> r == Err::<Self, ExperimentError>(ExperimentError::ZeroFanout),
            node_count != 0 && fanout != 0 && trials == 0 ==> r == Err::<Self, ExperimentError>(
                ExperimentError::ZeroTrials,
            ),
            node_count != 0 && fanout != 0 && trials != 0 ==> r is Ok,
            r matches Ok(e) ==> {
                &&& e.spec_node_count() == node_count
                &&& e.spec_config().spec_fanout() == fanout
                &&& e.spec_config().spec_max_rumors() == 1024
                &&& e.spec_config().spec_rumor_retention_rounds() == 8
                &&& e.spec_config().spec_max_rumors_per_message() == 32
                &&& crate::builder::reliable(e.spec_network())
                &&& e.spec_max_rounds() == max_rounds
                &&& e.spec_trials() == trials
                &&& e.spec_base_seed() == 1
            },
    {
        if node_count == 0 {
            return Err(ExperimentError::ZeroNodeCount);
        }
        if fanout == 0 {
            return Err(ExperimentError::ZeroFanout);
        }
        if trials == 0 {
            return Err(ExperimentError::ZeroTrials);
        }
        match GossipConfig::new(fanout, 1024) {
            Ok(config) => Ok(
                ConvergenceExperiment { node_count, config, network: NetworkModel::new(), max_rounds, trials, base_seed: 1 },
            ),
            Err(_) => Err(ExperimentError::ZeroFanout),
        }
    }

    /// Returns the gossip configuration used for each trial.
    pub fn config(&self) -> (c: &GossipConfig)
        ensures
            *c == self.spec_config(),
    {
        &self.config
    }

    /// Returns a copy of this experiment with a different gossip configuration.
    pub fn with_config(self, config: GossipConfig) -> (e: Self)
        ensures
            e.spec_node_count() == self.spec_node_count(),
            e.spec_config() == config,
            e.spec_network() == self.spec_network(),
            e.spec_max_rounds() == self.spec_max_rounds(),
            e.spec_trials() == self.spec_trials(),
            e.spec_base_seed() == self.spec_base_seed(),
    {
        proof {
            use_type_invariant(&self);
        }
        ConvergenceExperiment { config, ..self }
    }

    /// Returns the base seed used to derive per-trial seeds.
    pub fn base_seed(&self) -> (s: u64)
        ensures
            s == self.spec_base_seed(),
    {
        self.base_seed
    }

    /// Returns a copy of this experiment with a different base seed.
    pub fn with_seed(self, base_seed: u64) -> (e: Self)
        ensures
            e.spec_node_count() == self.spec_node_count(),
            e.spec_config() == self.spec_config(),
            e.spec_network() == self.spec_network(),
            e.spec_max_rounds() == self.spec_max_rounds(),
            e.spec_trials() == self.spec_trials(),
            e.spec_base_seed() == base_seed,
    {
        proof {
            use_type_invariant(&self);
        }
        ConvergenceExperiment { base_seed, ..self }
    }

    /// Returns the network model used for each trial.
    pub fn network_model(&self) -> (m: &NetworkModel)
        ensures
            *m == self.spec_network(),
    {
        &self.network
    }

    /// Returns a copy of this experiment with a different network model.
    pub fn with_network_model(self, network: NetworkModel) -> (e: Self)
        ensures
            e.spec_node_count() == self.spec_node_count(),
            e.spec_config() == self.spec_config(),
            e.spec_network() == network,
            e.spec_max_rounds() == self.spec_max_rounds(),
            e.spec_trials() == self.spec_trials(),
            e.spec_base_seed() == self.spec_base_seed(),
    {
        proof {
            use_type_invariant(&self);
        }
        ConvergenceExperiment { network, ..self }
    }
}

/// Trial `t` of `exp` set up `before` with the node IDs `ids`: the cluster
/// of `with_seed` with the experiment's configuration and the seed plus `t`
/// (saturating), over a network like the experiment's, whose first node
/// then got the trial's rumor.
pub open spec fn trial_setup(exp: ConvergenceExperiment, t: nat, ids: Seq<NodeId>, before: Cluster<&'static str>) -> bool {
    exists|c0: Cluster<&'static str>, outcome: crate::rumor_store::InsertOutcome|
        #![trigger spawned(c0, exp.spec_config(), ids, sat_add_u64(exp.spec_base_seed(), t as int)), insert_result(c0, before, ids[0]@, trial_rumor(t, ids[0]), Ok(outcome))]
        spawned(c0, exp.spec_config(), ids, sat_add_u64(exp.spec_base_seed(), t as int)) && same_network(
            c0.spec_network(),
            exp.spec_network(),
        ) && insert_result(c0, before, ids[0]@, trial_rumor(t, ids[0]), Ok(outcome))
}

/// Trial `t` of `exp` gave the reach report `r`: its cluster (see
/// `trial_setup`) ran until every node knew the trial's rumor, or for the
/// experiment's most rounds (see `reach_run`).
pub open spec fn trial_ran(exp: ConvergenceExperiment, t: nat, r: ReachReport) -> bool {
    exists|ids: Seq<NodeId>, before: Cluster<&'static str>, after: Cluster<&'static str>|
        #![trigger trial_setup(exp, t, ids, before), reach_run(before, MessageId::spec_from_value((t + 1) as u128), exp.spec_node_count(), exp.spec_max_rounds(), r, after)]
        trial_setup(exp, t, ids, before) && trial_ids(ids, t, exp.spec_node_count() as nat) && reach_run(
            before,
            MessageId::spec_from_value((t + 1) as u128),
            exp.spec_node_count(),
            exp.spec_max_rounds(),
            r,
            after,
        )
}

/// The rounds of the reports that reached their target, in order.
pub open spec fn successful_rounds_of(reports: Seq<ReachReport>) -> Seq<u64>
    decreases reports.len(),
{
    if reports.len() == 0 {
        Seq::empty()
    } else {
        successful_rounds_of(reports.drop_last()) + if reports.last().spec_reached() {
            seq![reports.last().spec_rounds_run()]
        } else {
            Seq::empty()
        }
    }
}

/// The sum of `count` over `reports`, saturating at `usize::MAX` at each step.
pub open spec fn reach_total(reports: Seq<ReachReport>, count: spec_fn(ReachReport) -> usize) -> usize
    decreases reports.len(),
{
    if reports.len() == 0 {
        0
    } else {
        crate::sim::sat_add(reach_total(reports.drop_last(), count), count(reports.last()))
    }
}

/// `r` adds up the trials whose reach reports are `reports`.
pub open spec fn adds_up(r: ConvergenceReport, reports: Seq<ReachReport>) -> bool {
    &&& r.spec_trials() == reports.len()
    &&& r.spec_successful_rounds() == successful_rounds_of(reports)
    &&& r.spec_successes() == successful_rounds_of(reports).len()
    &&& r.spec_attempted() == reach_total(reports, |x: ReachReport| x.spec_attempted())
    &&& r.spec_sent() == reach_total(reports, |x: ReachReport| x.spec_sent())
    &&& r.spec_dropped() == reach_total(reports, |x: ReachReport| x.spec_dropped())
    &&& r.spec_duplicated() == reach_total(reports, |x: ReachReport| x.spec_duplicated())
    &&& r.spec_delayed() == reach_total(reports, |x: ReachReport| x.spec_delayed())
    &&& r.spec_received() == reach_total(reports, |x: ReachReport| x.spec_received())
}

impl ConvergenceExperiment {
    /// Runs one trial: a cluster of the trial's nodes, whose first node
    /// starts the trial's rumor, runs until every node knows it.
    fn run_trial(&self, trial: usize) -> (r: ReachReport)
        ensures
            trial_ran(*self, trial as nat, r),
    {
        proof {
            use_type_invariant(self);
        }
        let node_ids = trial_node_ids(trial, self.node_count);
        let ghost ids = node_ids@;
        let origin = node_ids[0].clone();
        let rumor_id = MessageId::new(trial as u128 + 1);
        let rumor = Rumor::new(rumor_id, origin.clone(), Round::zero(), "experiment");
        let seed = self.base_seed.saturating_add(trial as u64);
        let c0: Cluster<&'static str> = Cluster::with_seed(self.config, node_ids, seed);
        let network = self.network.clone();
        let mut cluster = c0.with_network_model(network);
        let ghost start = cluster;
        proof {
            assert(spawned(cluster, self.config, ids, seed));
            assert(names_node_of(ids, ids[0]@));
            assert(crate::sim::names_node(cluster.spec_names(), origin@));
        }
        let inserted = cluster.insert_rumor(&origin, rumor);
        let ghost before = cluster;
        let report = cluster.run_until_reached(rumor_id, self.node_count, self.max_rounds);
        proof {
            let outcome = inserted->Ok_0;
            MessageId::lemma_from_value((trial + 1) as u128);
            MessageId::lemma_value_injective(rumor_id, MessageId::spec_from_value((trial + 1) as u128));
            assert(rumor_id == MessageId::spec_from_value((trial + 1) as u128));
            assert(origin == ids[0]);
            assert(trial_rumor(trial as nat, ids[0]) == rumor);
            assert(spawned(start, self.spec_config(), ids, sat_add_u64(self.spec_base_seed(), trial as int)));
            assert(trial_setup(*self, trial as nat, ids, before));
            assert(trial_ids(ids, trial as nat, self.spec_node_count() as nat));
            let t = trial as nat;
            assert(MessageId::spec_from_value((t + 1) as u128) == rumor_id);
            assert(reach_run(before, MessageId::spec_from_value((t + 1) as u128), self.spec_node_count(), self.spec_max_rounds(), report, cluster));
            assert(trial_ran(*self, t, report));
        }
        report
    }

    /// Runs this convergence experiment: each trial in turn (see `trial_ran`).
    pub fn run(&self) -> (r: ConvergenceReport)
        ensures
            experiment_ran(*self, r),
    {
        let mut successes: usize = 0;
        let mut successful_rounds: Vec<u64> = Vec::new();
        let mut attempted: usize = 0;
        let mut sent: usize = 0;
        let mut dropped: usize = 0;
        let mut duplicated: usize = 0;
        let mut delayed: usize = 0;
        let mut received: usize = 0;
        let ghost mut reports: Seq<ReachReport> = Seq::empty();
        let mut trial: usize = 0;
        while trial < self.trials
            invariant
                trial <= self.spec_trials(),
                reports.len() == trial,
                forall|t: int| 0 <= t < reports.len() ==> trial_ran(*self, t as nat, #[trigger] reports[t]),
                successful_rounds@ == successful_rounds_of(reports),
                successes == successful_rounds@.len(),
                successes <= trial,
                attempted == reach_total(reports, |x: ReachReport| x.spec_attempted()),
                sent == reach_total(reports, |x: ReachReport| x.spec_sent()),
                dropped == reach_total(reports, |x: ReachReport| x.spec_dropped()),
                duplicated == reach_total(reports, |x: ReachReport| x.spec_duplicated()),
                delayed == reach_total(reports, |x: ReachReport| x.spec_delayed()),
                received == reach_total(reports, |x: ReachReport| x.spec_received()),
            decreases self.spec_trials() - trial,
        {
            let report = self.run_trial(trial);
            let ghost reports2 = reports.push(report);
            proof {
                assert(reports2.drop_last() =~= reports);
                assert(reports2.last() == report);
            }
            if report.reached() {
                successes = successes + 1;
                successful_rounds.push(report.rounds_run());
            }
            attempted = attempted.saturating_add(report.attempted());
            sent = sent.saturating_add(report.sent());
            dropped = dropped.saturating_add(report.dropped());
            duplicated = duplicated.saturating_add(report.duplicated());
            delayed = delayed.saturating_add(report.delayed());
            received = received.saturating_add(report.received());
            proof {
                assert forall|t: int| 0 <= t < reports2.len() implies trial_ran(*self, t as nat, #[trigger] reports2[t]) by {
                    if t < trial {
                        assert(reports2[t] == reports[t]);
                    }
                }
                reports = reports2;
            }
            trial = trial + 1;
        }
        let r = ConvergenceReport::new(
            self.trials,
            successes,
            successful_rounds,
            attempted,
            sent,
            dropped,
            duplicated,
            delayed,
            received,
        );
        proof {
            assert(adds_up(r, reports));
        }
        r
    }
}

impl Clone for ConvergenceExperiment {
    fn clone(&self) -> (e: Self)
        ensures
            e.spec_node_count() == self.spec_node_count(),
            e.spec_config() == self.spec_config(),
            same_network(e.spec_network(), self.spec_network()),
            e.spec_max_rounds() == self.spec_max_rounds(),
            e.spec_trials() == self.spec_trials(),
            e.spec_base_seed() == self.spec_base_seed(),
    {
        proof {
            use_type_invariant(self);
        }
        ConvergenceExperiment {
            node_count: self.node_count,
            config: self.config,
            network: self.network.clone(),
            max_rounds: self.max_rounds,
            trials: self.trials,
            base_seed: self.base_seed,
        }
    }
}

/// `r` is a report of running `exp`: it adds up one reach report per trial,
/// each a run of that trial.
pub open spec fn experiment_ran(exp: ConvergenceExperiment, r: ConvergenceReport) -> bool {
    exists|reports: Seq<ReachReport>|
        #[trigger] adds_up(r, reports) && reports.len() == exp.spec_trials() && forall|t: int|
            0 <= t < reports.len() ==> trial_ran(exp, t as nat, #[trigger] reports[t])
}

/// Two runs of the same trial of an experiment report the same.
proof fn lemma_trial_repeatable(exp: ConvergenceExperiment, t: nat, report_a: ReachReport, report_b: ReachReport)
    requires
        trial_ran(exp, t, report_a),
        trial_ran(exp, t, report_b),
    ensures
        report_a == report_b,
{
    let id = MessageId::spec_from_value((t + 1) as u128);
    let (ids_a, before_a, after_a) = choose|ids: Seq<NodeId>, before: Cluster<&'static str>, after: Cluster<&'static str>|
        #![trigger trial_setup(exp, t, ids, before), reach_run(before, id, exp.spec_node_count(), exp.spec_max_rounds(), report_a, after)]
        trial_setup(exp, t, ids, before) && trial_ids(ids, t, exp.spec_node_count() as nat) && reach_run(
            before,
            id,
            exp.spec_node_count(),
            exp.spec_max_rounds(),
            report_a,
            after,
        );
    let (ids_b, before_b, after_b) = choose|ids: Seq<NodeId>, before: Cluster<&'static str>, after: Cluster<&'static str>|
        #![trigger trial_setup(exp, t, ids, before), reach_run(before, id, exp.spec_node_count(), exp.spec_max_rounds(), report_b, after)]
        trial_setup(exp, t, ids, before) && trial_ids(ids, t, exp.spec_node_count() as nat) && reach_run(
            before,
            id,
            exp.spec_node_count(),
            exp.spec_max_rounds(),
            report_b,
            after,
        );
    let seed = sat_add_u64(exp.spec_base_seed(), t as int);
    let (c0_a, outcome_a) = choose|c0: Cluster<&'static str>, outcome: crate::rumor_store::InsertOutcome|
        #![trigger spawned(c0, exp.spec_config(), ids_a, seed), insert_result(c0, before_a, ids_a[0]@, trial_rumor(t, ids_a[0]), Ok(outcome))]
        spawned(c0, exp.spec_config(), ids_a, seed) && same_network(c0.spec_network(), exp.spec_network())
            && insert_result(c0, before_a, ids_a[0]@, trial_rumor(t, ids_a[0]), Ok(outcome));
    let (c0_b, outcome_b) = choose|c0: Cluster<&'static str>, outcome: crate::rumor_store::InsertOutcome|
        #![trigger spawned(c0, exp.spec_config(), ids_b, seed), insert_result(c0, before_b, ids_b[0]@, trial_rumor(t, ids_b[0]), Ok(outcome))]
        spawned(c0, exp.spec_config(), ids_b, seed) && same_network(c0.spec_network(), exp.spec_network())
            && insert_result(c0, before_b, ids_b[0]@, trial_rumor(t, ids_b[0]), Ok(outcome));
    assert(same_names(ids_a, ids_b)) by {
        assert forall|i: int| 0 <= i < ids_a.len() implies #[trigger] ids_a[i]@ == ids_b[i]@ by {
            assert(ids_a[i]@ == trial_name(t, i as nat));
            assert(ids_b[i]@ == trial_name(t, i as nat));
        }
    }
    assert(ids_a.len() > 0) by {
        let j = choose|j: int|
            0 <= j < c0_a.spec_names().len() && c0_a.spec_names()[j]@ == ids_a[0]@ && #[trigger] inserted_at(
                c0_a,
                before_a,
                j,
                trial_rumor(t, ids_a[0]),
                outcome_a,
            );
        assert(names_node(c0_a.spec_names(), c0_a.spec_names()[j]@));
    }
    assert(same_network(c0_a.spec_network(), c0_b.spec_network())) by {
        let (pa, pb, pe) = (
            c0_a.spec_network().spec_partitions(),
            c0_b.spec_network().spec_partitions(),
            exp.spec_network().spec_partitions(),
        );
        assert forall|i: int| 0 <= i < pb.len() implies (#[trigger] pa[i]).spec_side_a() == pb[i].spec_side_a()
            && pa[i].spec_side_b() == pb[i].spec_side_b() by {
            assert(pa[i].spec_side_a() == pe[i].spec_side_a() && pa[i].spec_side_b() == pe[i].spec_side_b());
            assert(pb[i].spec_side_a() == pe[i].spec_side_a() && pb[i].spec_side_b() == pe[i].spec_side_b());
        }
    }
    lemma_spawned_alike(c0_a, c0_b, exp.spec_config(), ids_a, ids_b, seed);
    assert(ids_a[0]@ == ids_b[0]@);
    let (rumor_a, rumor_b) = (trial_rumor(t, ids_a[0]), trial_rumor(t, ids_b[0]));
    assert(rumor_meta(rumor_a) == rumor_meta(rumor_b)) by {
        broadcast use crate::rumor::Rumor::lemma_spec_new;

    }
    lemma_inserted_alike(c0_a, c0_b, before_a, before_b, ids_a[0]@, rumor_a, rumor_b, Ok(outcome_a), Ok(outcome_b));
    lemma_reach_run_repeatable(
        before_a,
        before_b,
        id,
        exp.spec_node_count(),
        exp.spec_max_rounds(),
        report_a,
        after_a,
        report_b,
        after_b,
    );
}

/// Repeatability: two runs of the same experiment report the same trials,
/// the same rounds of the successful ones, and the same counts.
pub proof fn lemma_experiment_repeatable(exp: ConvergenceExperiment, a: ConvergenceReport, b: ConvergenceReport)
    requires
        experiment_ran(exp, a),
        experiment_ran(exp, b),
    ensures
        a.spec_trials() == b.spec_trials(),
        a.spec_successes() == b.spec_successes(),
        a.spec_successful_rounds() == b.spec_successful_rounds(),
        a.spec_attempted() == b.spec_attempted(),
        a.spec_sent() == b.spec_sent(),
        a.spec_dropped() == b.spec_dropped(),
        a.spec_duplicated() == b.spec_duplicated(),
        a.spec_delayed() == b.spec_delayed(),
        a.spec_received() == b.spec_received(),
{
    let reports_a = choose|reports: Seq<ReachReport>|
        #[trigger] adds_up(a, reports) && reports.len() == exp.spec_trials() && forall|t: int|
            0 <= t < reports.len() ==> trial_ran(exp, t as nat, #[trigger] reports[t]);
    let reports_b = choose|reports: Seq<ReachReport>|
        #[trigger] adds_up(b, reports) && reports.len() == exp.spec_trials() && forall|t: int|
            0 <= t < reports.len() ==> trial_ran(exp, t as nat, #[trigger] reports[t]);
    assert forall|t: int| 0 <= t < reports_a.len() implies reports_a[t] == reports_b[t] by {
        assert(trial_ran(exp, t as nat, reports_a[t]));
        assert(trial_ran(exp, t as nat, reports_b[t]));
        lemma_trial_repeatable(exp, t as nat, reports_a[t], reports_b[t]);
    }
    assert(reports_a =~= reports_b);
}

/// The rumor of trial `t` starts at exactly one node of the trial's cluster.
proof fn lemma_trial_start(exp: ConvergenceExperiment, t: nat, ids: Seq<NodeId>, before: Cluster<&'static str>)
    requires
        trial_setup(exp, t, ids, before),
    ensures
        before.spec_reach(MessageId::spec_from_value((t + 1) as u128)) == 1,
{
    broadcast use crate::rumor::Rumor::lemma_spec_new;

    let id = MessageId::spec_from_value((t + 1) as u128);
    let seed = sat_add_u64(exp.spec_base_seed(), t as int);
    let rumor = trial_rumor(t, ids[0]);
    let (c0, outcome) = choose|c0: Cluster<&'static str>, outcome: crate::rumor_store::InsertOutcome|
        #![trigger spawned(c0, exp.spec_config(), ids, seed), insert_result(c0, before, ids[0]@, trial_rumor(t, ids[0]), Ok(outcome))]
        spawned(c0, exp.spec_config(), ids, seed) && same_network(c0.spec_network(), exp.spec_network())
            && insert_result(c0, before, ids[0]@, trial_rumor(t, ids[0]), Ok(outcome));
    let j = choose|j: int|
        0 <= j < c0.spec_names().len() && c0.spec_names()[j]@ == ids[0]@ && #[trigger] inserted_at(
            c0,
            before,
            j,
            rumor,
            outcome,
        );
    assert(rumor.spec_id() == id);
    let old_node = c0.spec_node(j).spec_node();
    let stored = before.spec_node(j).spec_node().spec_rumors();
    assert(old_node.spec_rumors() == Seq::<Rumor<&'static str>>::empty());
    assert(stored.len() > 0 && stored.last() == rumor);
    assert(crate::rumor_store::has_id(stored, id)) by {
        assert(stored[stored.len() - 1].spec_id() == id);
    }
    before.lemma_reach_held(id, j);
    assert forall|k: int| 0 <= k < before.spec_len() && k != j implies !crate::rumor_store::has_id(
        (#[trigger] before.spec_node(k)).spec_node().spec_rumors(),
        id,
    ) by {
        assert(before.spec_node(k) == c0.spec_node(k));
        assert(c0.spec_node(k).spec_node().spec_rumors() == Seq::<Rumor<&'static str>>::empty());
    }
    before.lemma_reach_only(id, j);
}

proof fn lemma_sat_total_le<E>(reports: Seq<TickReport<E>>, low: spec_fn(TickReport<E>) -> usize, high: spec_fn(TickReport<E>) -> usize)
    requires
        forall|i: int| 0 <= i < reports.len() ==> #[trigger] low(reports[i]) <= high(reports[i]),
    ensures
        sat_total(reports, low) <= sat_total(reports, high),
    decreases reports.len(),
{
    if reports.len() > 0 {
        assert forall|i: int| 0 <= i < reports.len() - 1 implies #[trigger] low(reports.drop_last()[i]) <= high(
            reports.drop_last()[i],
        ) by {
            assert(low(reports[i]) <= high(reports[i]));
        }
        lemma_sat_total_le(reports.drop_last(), low, high);
        assert(low(reports[reports.len() - 1]) <= high(reports[reports.len() - 1]));
    }
}

/// What a reach run reports within its bounds: it runs at most `max_rounds`
/// rounds and drops at most what it attempts; a rumor that already reached
/// the target needs no round; with no round allowed, the target is reached
/// exactly when it already was.
proof fn lemma_reach_run_bounds<T: Clone>(
    before: Cluster<T>,
    id: MessageId,
    target: usize,
    max_rounds: u64,
    r: ReachReport,
    after: Cluster<T>,
)
    requires
        reach_run(before, id, target, max_rounds, r, after),
    ensures
        r.spec_rounds_run() <= max_rounds,
        r.spec_dropped() <= r.spec_attempted(),
        before.spec_reach(id) >= target ==> r.spec_reached() && r.spec_rounds_run() == 0 && r.spec_attempted() == 0,
        max_rounds == 0 ==> r.spec_reached() == (before.spec_reach(id) >= target),
{
    let n = r.spec_rounds_run() as nat;
    let (states, reports) = choose|states: Seq<Cluster<T>>, reports: Seq<TickReport<GossipEvent<T>>>|
        #[trigger] run_trace(rounds_from(0, n), states, reports) && states[0] == before && states.last() == after
            && (forall|i: int| 0 <= i < reports.len() ==> (#[trigger] states[i]).spec_reach(id) < target) && {
            &&& r.spec_attempted() == sat_total(reports, |t: TickReport<GossipEvent<T>>| t.spec_attempted())
            &&& r.spec_sent() == sat_total(reports, |t: TickReport<GossipEvent<T>>| t.spec_sent())
            &&& r.spec_dropped() == sat_total(reports, |t: TickReport<GossipEvent<T>>| t.spec_dropped())
            &&& r.spec_duplicated() == sat_total(reports, |t: TickReport<GossipEvent<T>>| t.spec_duplicated())
            &&& r.spec_delayed() == sat_total(reports, |t: TickReport<GossipEvent<T>>| t.spec_delayed())
            &&& r.spec_received() == sat_total(reports, |t: TickReport<GossipEvent<T>>| t.spec_received())
            &&& r.spec_new_rumors() == run_events(reports).len()
        };
    let rounds = rounds_from(0, n);
    let low = |t: TickReport<GossipEvent<T>>| t.spec_dropped();
    let high = |t: TickReport<GossipEvent<T>>| t.spec_attempted();
    assert forall|i: int| 0 <= i < reports.len() implies #[trigger] low(reports[i]) <= high(reports[i]) by {
        assert(ticked_once(states[i], rounds[i], states[i + 1], reports[i]));
        crate::cluster::lemma_tick_drops_attempts(states[i], rounds[i], states[i + 1], reports[i]);
    }
    lemma_sat_total_le(reports, low, high);
    if before.spec_reach(id) >= target && n > 0 {
        assert(states[0].spec_reach(id) < target);
    }
    if n == 0 {
        assert(states.last() == states[0]);
    }
}

/// Trial `t` of `exp` runs at most the experiment's rounds and drops at most
/// what it attempts; with one node it succeeds at once without sending; with
/// more nodes and no round allowed it fails.
proof fn lemma_trial_bounds(exp: ConvergenceExperiment, t: nat, r: ReachReport)
    requires
        trial_ran(exp, t, r),
    ensures
        r.spec_rounds_run() <= exp.spec_max_rounds(),
        r.spec_dropped() <= r.spec_attempted(),
        exp.spec_node_count() == 1 ==> r.spec_reached() && r.spec_rounds_run() == 0 && r.spec_attempted() == 0,
        exp.spec_max_rounds() == 0 && exp.spec_node_count() > 1 ==> !r.spec_reached(),
{
    let id = MessageId::spec_from_value((t + 1) as u128);
    let (ids, before, after) = choose|ids: Seq<NodeId>, before: Cluster<&'static str>, after: Cluster<&'static str>|
        #![trigger trial_setup(exp, t, ids, before), reach_run(before, id, exp.spec_node_count(), exp.spec_max_rounds(), r, after)]
        trial_setup(exp, t, ids, before) && trial_ids(ids, t, exp.spec_node_count() as nat) && reach_run(
            before,
            id,
            exp.spec_node_count(),
            exp.spec_max_rounds(),
            r,
            after,
        );
    lemma_trial_start(exp, t, ids, before);
    lemma_reach_run_bounds(before, id, exp.spec_node_count(), exp.spec_max_rounds(), r, after);
}

proof fn lemma_successful_rounds_bounds(reports: Seq<ReachReport>, max_rounds: u64)
    ensures
        successful_rounds_of(reports).len() <= reports.len(),
        (forall|t: int| 0 <= t < reports.len() ==> (#[trigger] reports[t]).spec_rounds_run() <= max_rounds) ==> forall|i: int|
            0 <= i < successful_rounds_of(reports).len() ==> #[trigger] successful_rounds_of(reports)[i] <= max_rounds,
        (forall|t: int| 0 <= t < reports.len() ==> (#[trigger] reports[t]).spec_reached() && reports[t].spec_rounds_run()
            == 0) ==> successful_rounds_of(reports).len() == reports.len() && forall|i: int|
            0 <= i < successful_rounds_of(reports).len() ==> #[trigger] successful_rounds_of(reports)[i] == 0,
        (forall|t: int| 0 <= t < reports.len() ==> !(#[trigger] reports[t]).spec_reached()) ==> successful_rounds_of(
            reports,
        ).len() == 0,
    decreases reports.len(),
{
    if reports.len() > 0 {
        let rest = reports.drop_last();
        lemma_successful_rounds_bounds(rest, max_rounds);
        let last = reports.len() - 1;
        assert(reports.last() == reports[last]);
        let s = successful_rounds_of(rest);
        let tail = if reports.last().spec_reached() { seq![reports.last().spec_rounds_run()] } else { Seq::<u64>::empty() };
        if forall|t: int| 0 <= t < reports.len() ==> (#[trigger] reports[t]).spec_rounds_run() <= max_rounds {
            assert forall|t: int| 0 <= t < rest.len() implies (#[trigger] rest[t]).spec_rounds_run() <= max_rounds by {
                assert(rest[t] == reports[t]);
            }
            assert(reports[last].spec_rounds_run() <= max_rounds);
            assert forall|i: int| 0 <= i < (s + tail).len() implies #[trigger] (s + tail)[i] <= max_rounds by {
                if i < s.len() {
                    assert((s + tail)[i] == s[i]);
                }
            }
        }
        if forall|t: int| 0 <= t < reports.len() ==> (#[trigger] reports[t]).spec_reached() && reports[t].spec_rounds_run() == 0 {
            assert forall|t: int| 0 <= t < rest.len() implies (#[trigger] rest[t]).spec_reached() && rest[t].spec_rounds_run() == 0 by {
                assert(rest[t] == reports[t]);
            }
            assert(reports[last].spec_reached() && reports[last].spec_rounds_run() == 0);
            assert forall|i: int| 0 <= i < (s + tail).len() implies #[trigger] (s + tail)[i] == 0 by {
                if i < s.len() {
                    assert((s + tail)[i] == s[i]);
                }
            }
        }
        if forall|t: int| 0 <= t < reports.len() ==> !(#[trigger] reports[t]).spec_reached() {
            assert forall|t: int| 0 <= t < rest.len() implies !(#[trigger] rest[t]).spec_reached() by {
                assert(rest[t] == reports[t]);
            }
            assert(!reports[last].spec_reached());
        }
    }
}

proof fn lemma_reach_total_le(reports: Seq<ReachReport>, low: spec_fn(ReachReport) -> usize, high: spec_fn(ReachReport) -> usize)
    requires
        forall|i: int| 0 <= i < reports.len() ==> #[trigger] low(reports[i]) <= high(reports[i]),
    ensures
        reach_total(reports, low) <= reach_total(reports, high),
        (forall|i: int| 0 <= i < reports.len() ==> #[trigger] high(reports[i]) == 0) ==> reach_total(reports, high) == 0,
    decreases reports.len(),
{
    if reports.len() > 0 {
        assert forall|i: int| 0 <= i < reports.len() - 1 implies #[trigger] low(reports.drop_last()[i]) <= high(
            reports.drop_last()[i],
        ) by {
            assert(low(reports[i]) <= high(reports[i]));
        }
        lemma_reach_total_le(reports.drop_last(), low, high);
        assert(low(reports[reports.len() - 1]) <= high(reports[reports.len() - 1]));
        if forall|i: int| 0 <= i < reports.len() ==> #[trigger] high(reports[i]) == 0 {
            assert forall|i: int| 0 <= i < reports.len() - 1 implies #[trigger] high(reports.drop_last()[i]) == 0 by {
                assert(high(reports[i]) == 0);
            }
            assert(high(reports[reports.len() - 1]) == 0);
        }
    }
}

/// What every run of an experiment reports: one entry per trial, at most one
/// successful round count per trial and each within the round budget, and no
/// more drops than attempts; with one node every trial succeeds at once
/// without sending; with several nodes and no round allowed none succeeds.
pub proof fn lemma_experiment_bounds(exp: ConvergenceExperiment, r: ConvergenceReport)
    requires
        experiment_ran(exp, r),
    ensures
        r.spec_trials() == exp.spec_trials(),
        r.spec_successes() <= r.spec_trials(),
        r.spec_successful_rounds().len() == r.spec_successes(),
        forall|i: int| 0 <= i < r.spec_successful_rounds().len() ==> #[trigger] r.spec_successful_rounds()[i]
            <= exp.spec_max_rounds(),
        r.spec_dropped() <= r.spec_attempted(),
        exp.spec_node_count() == 1 ==> r.spec_successes() == r.spec_trials() && r.spec_attempted() == 0 && forall|i: int|
            0 <= i < r.spec_successful_rounds().len() ==> #[trigger] r.spec_successful_rounds()[i] == 0,
        exp.spec_max_rounds() == 0 && exp.spec_node_count() > 1 ==> r.spec_successes() == 0,
{
    let reports = choose|reports: Seq<ReachReport>|
        #[trigger] adds_up(r, reports) && reports.len() == exp.spec_trials() && forall|t: int|
            0 <= t < reports.len() ==> trial_ran(exp, t as nat, #[trigger] reports[t]);
    assert forall|t: int| 0 <= t < reports.len() implies {
        &&& (#[trigger] reports[t]).spec_rounds_run() <= exp.spec_max_rounds()
        &&& reports[t].spec_dropped() <= reports[t].spec_attempted()
        &&& exp.spec_node_count() == 1 ==> reports[t].spec_reached() && reports[t].spec_rounds_run() == 0
            && reports[t].spec_attempted() == 0
        &&& exp.spec_max_rounds() == 0 && exp.spec_node_count() > 1 ==> !reports[t].spec_reached()
    } by {
        assert(trial_ran(exp, t as nat, reports[t]));
        lemma_trial_bounds(exp, t as nat, reports[t]);
    }
    lemma_successful_rounds_bounds(reports, exp.spec_max_rounds());
    let low = |x: ReachReport| x.spec_dropped();
    let high = |x: ReachReport| x.spec_attempted();
    assert forall|i: int| 0 <= i < reports.len() implies #[trigger] low(reports[i]) <= high(reports[i]) by {
        assert(reports[i].spec_dropped() <= reports[i].spec_attempted());
    }
    lemma_reach_total_le(reports, low, high);
    if exp.spec_node_count() == 1 {
        assert forall|i: int| 0 <= i < reports.len() implies #[trigger] high(reports[i]) == 0 by {
            assert(reports[i].spec_attempted() == 0);
        }
    }
}

/// A named convergence experiment.
#[derive(Clone, Debug, PartialEq)]
pub struct ConvergenceScenario {
    label: String,
    experiment: ConvergenceExperiment,
}

impl ConvergenceScenario {
    /// The scenario label.
    pub closed spec fn spec_label(self) -> Seq<char> {
        self.label@
    }

    /// The scenario's experiment.
    pub closed spec fn spec_experiment(self) -> ConvergenceExperiment {
        self.experiment
    }

    /// Creates a named convergence scenario.
    pub fn new(label: String, experiment: ConvergenceExperiment) -> (s: Self)
        ensures
            s.spec_label() == label@,
            s.spec_experiment() == experiment,
    {
        ConvergenceScenario { label, experiment }
    }

    /// Returns the scenario label.
    pub fn label(&self) -> (label: &str)
        ensures
            label@ == self.spec_label(),
    {
        self.label.as_str()
    }

    /// Returns the convergence experiment for this scenario.
    pub fn experiment(&self) -> (e: &ConvergenceExperiment)
        ensures
            *e == self.spec_experiment(),
    {
        &self.experiment
    }

    fn run(self) -> (r: ConvergenceScenarioReport)
        ensures
            r.spec_label() == self.spec_label(),
            experiment_ran(self.spec_experiment(), r.spec_report()),
    {
        let report = self.experiment.run();
        ConvergenceScenarioReport::new(self.label, report)
    }
}

/// Runs named convergence experiments and keeps their reports together.
#[derive(Clone, Debug, PartialEq)]
pub struct ConvergenceComparison {
    scenarios: Vec<ConvergenceScenario>,
}

impl ConvergenceComparison {
    /// The scenarios, in the order they were added.
    pub closed spec fn spec_scenarios(self) -> Seq<ConvergenceScenario> {
        self.scenarios@
    }

    /// Creates an empty convergence comparison.
    pub fn new() -> (c: Self)
        ensures
            c.spec_scenarios() == Seq::<ConvergenceScenario>::empty(),
    {
        ConvergenceComparison { scenarios: Vec::new() }
    }

    /// Adds a named experiment to this comparison.
    pub fn add(self, label: String, experiment: ConvergenceExperiment) -> (c: Self)
        ensures
            c.spec_scenarios().len() == self.spec_scenarios().len() + 1,
            c.spec_scenarios().drop_last() == self.spec_scenarios(),
            c.spec_scenarios().last().spec_label() == label@,
            c.spec_scenarios().last().spec_experiment() == experiment,
    {
        let mut c = self;
        c.scenarios.push(ConvergenceScenario::new(label, experiment));
        proof {
            assert(c.scenarios@.drop_last() =~= self.scenarios@);
        }
        c
    }

    /// Adds an already-created scenario to this comparison.
    pub fn add_scenario(self, scenario: ConvergenceScenario) -> (c: Self)
        ensures
            c.spec_scenarios() == self.spec_scenarios().push(scenario),
    {
        let mut c = self;
        c.scenarios.push(scenario);
        c
    }

    /// Returns named scenarios that will be run.
    pub fn scenarios(&self) -> (s: &[ConvergenceScenario])
        ensures
            s@ == self.spec_scenarios(),
    {
        self.scenarios.as_slice()
    }

    /// Returns the number of scenarios in this comparison.
    pub fn len(&self) -> (n: usize)
        ensures
            n == self.spec_scenarios().len(),
    {
        self.scenarios.len()
    }

    /// Returns `true` if this comparison contains no scenarios.
    pub fn is_empty(&self) -> (b: bool)
        ensures
            b == (self.spec_scenarios().len() == 0),
    {
        self.scenarios.len() == 0
    }

    /// Runs every scenario, in order, and returns their reports.
    pub fn run(self) -> (r: ConvergenceComparisonReport)
        ensures
            r.spec_results().len() == self.spec_scenarios().len(),
            forall|i: int|
                0 <= i < r.spec_results().len() ==> (#[trigger] r.spec_results()[i]).spec_label()
                    == self.spec_scenarios()[i].spec_label() && experiment_ran(
                    self.spec_scenarios()[i].spec_experiment(),
                    r.spec_results()[i].spec_report(),
                ),
    {
        let ghost all = self.scenarios@;
        let n = self.scenarios.len();
        let mut pending = crate::vec_order::reversed(self.scenarios);
        let mut results: Vec<ConvergenceScenarioReport> = Vec::new();
        let mut k: usize = 0;
        while k < n
            invariant
                n == all.len(),
                k <= n,
                pending@.len() == n - k,
                forall|j: int| 0 <= j < n - k ==> #[trigger] pending@[j] == all[n - 1 - j],
                results@.len() == k,
                forall|i: int|
                    0 <= i < k ==> (#[trigger] results@[i]).spec_label() == all[i].spec_label() && experiment_ran(
                        all[i].spec_experiment(),
                        results@[i].spec_report(),
                    ),
            decreases n - k,
        {
            let scenario = pending.pop().unwrap();
            results.push(scenario.run());
            k = k + 1;
        }
        ConvergenceComparisonReport::new(results)
    }
}

impl Default for ConvergenceComparison {
    fn default() -> (c: Self)
        ensures
            c.spec_scenarios() == Seq::<ConvergenceScenario>::empty(),
    {
        ConvergenceComparison::new()
    }
}

/// `names` holds an identifier named `name`.
pub open spec fn names_node_of(names: Seq<NodeId>, name: Seq<char>) -> bool {
    crate::sim::names_node(names, name)
}

} // verus!
