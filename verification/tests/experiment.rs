use gossiper::{
    Chance, ConvergenceComparison, ConvergenceExperiment, ConvergenceScenario, ExperimentError, GossipConfig,
    NetworkModel,
};

fn ratio(numerator: usize, denominator: usize) -> f64 {
    if denominator == 0 {
        return 0.0;
    }
    numerator as f64 / denominator as f64
}

#[test]
fn lib_convergence_experiment_runs_trials() {
    let experiment = ConvergenceExperiment::new(5, 2, 5, 4).expect("valid experiment");

    let report = experiment.run();

    assert_eq!(report.trials(), 4);
    assert!(report.successes() <= 4);
    assert!(ratio(report.successes(), report.trials()) >= 0.0);
    assert!(ratio(report.successes(), report.trials()) <= 1.0);
    assert_eq!(report.successful_rounds().len(), report.successes());
}

#[test]
fn lib_convergence_experiment_uses_default_config_from_fanout() {
    let experiment = ConvergenceExperiment::new(5, 2, 5, 4).expect("valid experiment");

    assert_eq!(experiment.config().fanout(), 2);
    assert_eq!(experiment.config().max_rumors(), 1_024);
}

#[test]
fn lib_convergence_experiment_can_override_config() {
    let config = GossipConfig::new(3, 64)
        .expect("valid config")
        .with_max_rumors_per_message(4)
        .expect("valid per-message limit");

    let experiment = ConvergenceExperiment::new(5, 2, 5, 4).expect("valid experiment").with_config(config);

    assert_eq!(experiment.config().fanout(), 3);
    assert_eq!(experiment.config().max_rumors(), 64);
    assert_eq!(experiment.config().max_rumors_per_message(), 4);
}

#[test]
fn lib_convergence_experiment_has_default_base_seed() {
    let experiment = ConvergenceExperiment::new(5, 2, 5, 4).expect("valid experiment");

    assert_eq!(experiment.base_seed(), 1);
}

#[test]
fn lib_convergence_experiment_can_override_base_seed() {
    let experiment = ConvergenceExperiment::new(5, 2, 5, 4).expect("valid experiment").with_seed(42);

    assert_eq!(experiment.base_seed(), 42);
}

#[test]
fn convergence_experiment_uses_reliable_network_by_default() {
    let experiment = ConvergenceExperiment::new(5, 2, 5, 4).expect("valid experiment");

    assert_eq!(experiment.network_model().loss(), Chance::Never);
    assert_eq!(experiment.network_model().duplicate(), Chance::Never);
    assert_eq!(experiment.network_model().delay(), Chance::Never);
    assert!(experiment.network_model().partitions().is_empty());
}

#[test]
fn convergence_experiment_can_override_network_model() {
    let network = NetworkModel::new().with_loss(Chance::Always);

    let experiment = ConvergenceExperiment::new(5, 2, 5, 4).expect("valid experiment").with_network_model(network);

    assert_eq!(experiment.network_model().loss(), Chance::Always);
}

#[test]
fn convergence_experiment_respects_network_model() {
    let network = NetworkModel::new().with_loss(Chance::Always);

    let experiment = ConvergenceExperiment::new(5, 2, 5, 4).expect("valid experiment").with_network_model(network);

    let report = experiment.run();

    assert_eq!(report.trials(), 4);
    assert_eq!(report.successes(), 0);
    assert_eq!(ratio(report.successes(), report.trials()), 0.0);
}

#[test]
fn convergence_experiment_reports_network_metrics() {
    let network = NetworkModel::new().with_loss(Chance::Always);

    let report = ConvergenceExperiment::new(5, 2, 3, 4).expect("valid experiment").with_network_model(network).run();

    assert_eq!(report.trials(), 4);
    assert_eq!(report.successes(), 0);
    assert!(report.attempted() > 0);
    assert_eq!(report.sent(), 0);
    assert_eq!(report.dropped(), report.attempted());
    assert_eq!(report.received(), 0);
}

#[test]
fn convergence_scenario_exposes_label_and_experiment() {
    let experiment = ConvergenceExperiment::new(5, 2, 3, 4).expect("valid experiment");
    let scenario = ConvergenceScenario::new(String::from("reliable"), experiment);

    assert_eq!(scenario.label(), "reliable");
    assert_eq!(scenario.experiment().config().fanout(), 2);
}

#[test]
fn convergence_comparison_runs_named_experiments_in_order() {
    let reliable = ConvergenceExperiment::new(5, 2, 5, 3).expect("valid experiment").with_seed(10);
    let lossy_network = NetworkModel::new().with_loss(Chance::Always);
    let lossy = ConvergenceExperiment::new(5, 2, 5, 3)
        .expect("valid experiment")
        .with_seed(10)
        .with_network_model(lossy_network);

    let comparison =
        ConvergenceComparison::new().add(String::from("reliable"), reliable).add(String::from("lossy"), lossy);

    assert_eq!(comparison.len(), 2);
    assert!(!comparison.is_empty());
    assert_eq!(comparison.scenarios()[0].label(), "reliable");

    let report = comparison.run();

    assert_eq!(report.len(), 2);
    assert!(!report.is_empty());
    assert_eq!(report.results()[0].label(), "reliable");
    assert_eq!(report.results()[1].label(), "lossy");
    assert_eq!(report.results()[0].report().trials(), 3);
    assert_eq!(report.results()[1].report().successes(), 0);
}

#[test]
fn convergence_comparison_can_add_prebuilt_scenarios() {
    let experiment = ConvergenceExperiment::new(3, 1, 3, 2).expect("valid experiment");
    let scenario = ConvergenceScenario::new(String::from("custom"), experiment);
    let comparison = ConvergenceComparison::new().add_scenario(scenario);

    let report = comparison.run();

    assert_eq!(report.results()[0].label(), "custom");
    assert_eq!(report.results()[0].report().trials(), 2);
}

#[test]
fn lib_convergence_experiment_rejects_zero_nodes() {
    let error = ConvergenceExperiment::new(0, 2, 5, 4).expect_err("zero nodes should fail");

    assert_eq!(error, ExperimentError::ZeroNodeCount);
    assert_eq!(error.to_string(), "node_count must be greater than zero");
}

#[test]
fn lib_convergence_experiment_rejects_zero_fanout() {
    let error = ConvergenceExperiment::new(5, 0, 5, 4).expect_err("zero fanout should fail");

    assert_eq!(error, ExperimentError::ZeroFanout);
    assert_eq!(error.to_string(), "fanout must be greater than zero");
}

#[test]
fn lib_convergence_experiment_rejects_zero_trials() {
    let error = ConvergenceExperiment::new(5, 2, 5, 0).expect_err("zero trials should fail");

    assert_eq!(error, ExperimentError::ZeroTrials);
    assert_eq!(error.to_string(), "trials must be greater than zero");
}

#[test]
fn reliable_experiment_converges_in_every_trial() {
    let report = ConvergenceExperiment::new(4, 3, 10, 3).expect("valid experiment").run();

    assert_eq!(report.trials(), 3);
    assert_eq!(report.successes(), 3);
    assert_eq!(report.failures(), 0);
    assert_eq!(report.dropped(), 0);
    assert_eq!(report.sent(), report.attempted());
    assert!(report.successful_rounds().iter().all(|rounds| *rounds >= 1 && *rounds <= 10));
}

#[test]
fn single_node_experiment_succeeds_without_rounds() {
    let report = ConvergenceExperiment::new(1, 1, 5, 2).expect("valid experiment").run();

    assert_eq!(report.successes(), 2);
    assert_eq!(report.successful_rounds(), &[0, 0]);
    assert_eq!(report.sent(), 0);
}

#[test]
fn convergence_experiment_copies_compare_equal() {
    let experiment = ConvergenceExperiment::new(6, 2, 20, 3)
        .expect("valid experiment")
        .with_network_model(NetworkModel::new().with_loss(Chance::Below(u64::MAX / 10)))
        .with_seed(9);
    let copy = experiment.clone();

    assert_eq!(copy, experiment);
    assert_eq!(copy.run(), experiment.run());
    assert_ne!(copy.clone().with_seed(10), experiment);
}

#[test]
fn running_an_experiment_twice_reports_the_same() {
    let experiment = ConvergenceExperiment::new(10, 2, 25, 4)
        .expect("valid experiment")
        .with_network_model(
            NetworkModel::new()
                .with_loss(Chance::Below(u64::MAX / 5))
                .with_duplicate(Chance::Below(u64::MAX / 10))
                .with_delay(Chance::Below(u64::MAX / 4), 3),
        )
        .with_seed(21);

    let first = experiment.run();
    let second = experiment.run();

    assert_eq!(first, second);
    assert_eq!(first.trials(), 4);
    assert_eq!(first.successful_rounds(), second.successful_rounds());
    assert_eq!(first.dropped(), second.dropped());
    assert_eq!(first.delayed(), second.delayed());
}

#[test]
fn experiment_edge_cases_follow_the_round_budget() {
    let single = ConvergenceExperiment::new(1, 1, 5, 3).expect("valid experiment").run();
    assert_eq!(single.trials(), 3);
    assert_eq!(single.successes(), 3);
    assert_eq!(single.successful_rounds(), &[0, 0, 0]);
    assert_eq!(single.attempted(), 0);

    let no_rounds = ConvergenceExperiment::new(4, 2, 0, 2).expect("valid experiment").run();
    assert_eq!(no_rounds.trials(), 2);
    assert_eq!(no_rounds.successes(), 0);
    assert!(no_rounds.successful_rounds().is_empty());

    let lossy = ConvergenceExperiment::new(8, 2, 6, 5)
        .expect("valid experiment")
        .with_network_model(NetworkModel::new().with_loss(Chance::Below(u64::MAX / 2)))
        .run();
    assert!(lossy.successes() <= lossy.trials());
    assert!(lossy.successful_rounds().iter().all(|rounds| *rounds <= 6));
    assert!(lossy.dropped() <= lossy.attempted());
}
