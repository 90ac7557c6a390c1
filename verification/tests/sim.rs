use gossiper::{
    ConvergenceReport, ExperimentError, NetworkPartition, NodeId, ReachReport, RunReport, TickReport,
};

fn ratio(numerator: usize, denominator: usize) -> f64 {
    if denominator == 0 {
        return 0.0;
    }
    numerator as f64 / denominator as f64
}

#[test]
fn reach_report_exposes_sent_count() {
    let report = ReachReport::new(true, 2, 3, 7);

    assert!(report.reached());
    assert_eq!(report.rounds_run(), 2);
    assert_eq!(report.reached_nodes(), 3);
    assert_eq!(report.attempted(), 0);
    assert_eq!(report.sent(), 7);
    assert_eq!(report.dropped(), 0);
    assert_eq!(report.duplicated(), 0);
    assert_eq!(report.delayed(), 0);
    assert_eq!(report.received(), 0);
    assert_eq!(report.new_rumors(), 0);
}

#[test]
fn reach_report_assertions_pass_for_successful_convergence() {
    let report = ReachReport::new(true, 2, 3, 7);

    report.assert_reached();
    report.assert_reached_within(2);
}

#[test]
fn run_report_starts_empty() {
    let report: RunReport<&str> = RunReport::new();

    assert_eq!(report.rounds_run(), 0);
    assert_eq!(report.attempted(), 0);
    assert_eq!(report.sent(), 0);
    assert_eq!(report.dropped(), 0);
    assert_eq!(report.duplicated(), 0);
    assert_eq!(report.delayed(), 0);
    assert_eq!(report.received(), 0);
    assert_eq!(report.accepted(), 0);
    assert_eq!(report.message_copies(), 0);
    assert_eq!(ratio(report.dropped(), report.attempted()), 0.0);
    assert_eq!(ratio(report.duplicated(), report.accepted()), 0.0);
    assert_eq!(ratio(report.delayed(), report.message_copies()), 0.0);
    assert_eq!(ratio(report.received(), report.sent()), 0.0);
    assert_eq!(report.new_rumors(), 0);
    assert_eq!(ratio(report.new_rumors(), report.received()), 0.0);
    assert!(report.events().is_empty());
}

#[test]
fn lib_convergence_report_calculates_success_rate() {
    let report = ConvergenceReport::new(4, 3, vec![2, 3, 4], 10, 9, 1, 2, 3, 8);

    assert_eq!(report.trials(), 4);
    assert_eq!(report.successes(), 3);
    assert_eq!(report.failures(), 1);
    assert_eq!(ratio(report.successes(), report.trials()), 0.75);
    assert_eq!(ratio(report.failures(), report.trials()), 0.25);
    assert_eq!(report.successful_rounds(), &[2, 3, 4]);
    assert_eq!(report.attempted(), 10);
    assert_eq!(report.sent(), 9);
    assert_eq!(report.dropped(), 1);
    assert_eq!(report.duplicated(), 2);
    assert_eq!(report.delayed(), 3);
    assert_eq!(report.received(), 8);
    assert_eq!(report.accepted(), 9);
    assert_eq!(report.message_copies(), 11);
    assert_eq!(ratio(report.dropped(), report.attempted()), 0.1);
    assert_eq!(ratio(report.duplicated(), report.accepted()), 2.0 / 9.0);
    assert_eq!(ratio(report.delayed(), report.message_copies()), 3.0 / 11.0);
    assert_eq!(ratio(report.received(), report.sent()), 8.0 / 9.0);
}

#[test]
fn lib_convergence_report_handles_zero_trials_and_no_successes() {
    let report = ConvergenceReport::new(0, 0, Vec::new(), 0, 0, 0, 0, 0, 0);

    assert_eq!(report.failures(), 0);
    assert!(report.successful_rounds().is_empty());
    assert_eq!(report.accepted(), 0);
    assert_eq!(report.message_copies(), 0);
}

#[test]
fn convergence_report_failures_saturate_at_zero() {
    let report = ConvergenceReport::new(1, 3, vec![1, 2, 3], 1, 0, 4, 0, 0, 0);

    assert_eq!(report.failures(), 0);
    assert_eq!(report.accepted(), 0);
}

#[test]
fn tick_report_starts_empty() {
    let report: TickReport<&str> = TickReport::new();

    assert_eq!(report.attempted(), 0);
    assert_eq!(report.sent(), 0);
    assert_eq!(report.dropped(), 0);
    assert_eq!(report.duplicated(), 0);
    assert_eq!(report.delayed(), 0);
    assert_eq!(report.received(), 0);
    assert_eq!(report.accepted(), 0);
    assert_eq!(report.message_copies(), 0);
    assert_eq!(report.new_rumors(), 0);
    assert!(report.events().is_empty());
}

#[test]
fn network_partition_blocks_links_between_its_sides_both_ways() {
    let partition = NetworkPartition::new(
        vec![NodeId::from("node-a"), NodeId::from("node-b")],
        vec![NodeId::from("node-c")],
    );

    assert_eq!(partition.side_a(), &[NodeId::from("node-a"), NodeId::from("node-b")]);
    assert_eq!(partition.side_b(), &[NodeId::from("node-c")]);
    assert!(partition.blocks(&NodeId::from("node-a"), &NodeId::from("node-c")));
    assert!(partition.blocks(&NodeId::from("node-c"), &NodeId::from("node-b")));
    assert!(!partition.blocks(&NodeId::from("node-a"), &NodeId::from("node-b")));
    assert!(!partition.blocks(&NodeId::from("node-a"), &NodeId::from("node-d")));
}

#[test]
fn experiment_errors_describe_themselves() {
    assert_eq!(ExperimentError::ZeroNodeCount.to_string(), "node_count must be greater than zero");
    assert_eq!(ExperimentError::ZeroFanout.to_string(), "fanout must be greater than zero");
    assert_eq!(ExperimentError::ZeroTrials.to_string(), "trials must be greater than zero");
}

#[test]
fn convergence_report_ranks_successful_rounds_in_ascending_order() {
    let report = ConvergenceReport::new(5, 4, vec![5, 2, 9, 2], 0, 0, 0, 0, 0, 0);

    assert_eq!(report.successful_round_at_rank(0), Some(2));
    assert_eq!(report.successful_round_at_rank(1), Some(2));
    assert_eq!(report.successful_round_at_rank(2), Some(2));
    assert_eq!(report.successful_round_at_rank(3), Some(5));
    assert_eq!(report.successful_round_at_rank(4), Some(9));
    assert_eq!(report.successful_round_at_rank(5), None);
    assert_eq!(report.successful_rounds(), &[5, 2, 9, 2]);
}

#[test]
fn convergence_report_rank_of_empty_report_is_none() {
    let report = ConvergenceReport::new(2, 0, Vec::new(), 0, 0, 0, 0, 0, 0);

    assert_eq!(report.successful_round_at_rank(0), None);
    assert_eq!(report.successful_round_at_rank(1), None);
}
