use gossiper::{
    Chance, Cluster, ClusterBuilder, ClusterError, GossipConfig, InsertOutcome, MessageId, NetworkModel,
    NetworkPartition, NodeId, Round,
};

fn ratio(numerator: usize, denominator: usize) -> f64 {
    if denominator == 0 {
        return 0.0;
    }
    numerator as f64 / denominator as f64
}

fn ids(names: &[&str]) -> Vec<NodeId> {
    names.iter().map(|name| NodeId::from(*name)).collect()
}

#[test]
fn lib_cluster_connects_all_nodes_as_peers() {
    let cluster: Cluster<&str> = Cluster::new(
        GossipConfig::new(1, 10).expect("valid config"),
        vec![NodeId::from("node-a"), NodeId::from("node-b"), NodeId::from("node-c")],
    );

    assert_eq!(
        cluster.node(&NodeId::from("node-a")).expect("node should exist").peers(),
        &[NodeId::from("node-b"), NodeId::from("node-c")]
    );
}

#[test]
fn cluster_exposes_node_count_and_ids() {
    let cluster: Cluster<&str> = Cluster::new(
        GossipConfig::new(1, 10).expect("valid config"),
        vec![NodeId::from("node-c"), NodeId::from("node-a"), NodeId::from("node-b")],
    );

    let node_ids: Vec<NodeId> = cluster.node_ids().into_iter().cloned().collect();

    assert_eq!(cluster.node_count(), 3);
    assert_eq!(node_ids, vec![NodeId::from("node-a"), NodeId::from("node-b"), NodeId::from("node-c")]);
}

#[test]
fn fully_connected_generates_node_ids() {
    let cluster: Cluster<&str> = Cluster::fully_connected(GossipConfig::new(1, 10).expect("valid config"), 3);

    let node_ids: Vec<NodeId> = cluster.node_ids().into_iter().cloned().collect();

    assert_eq!(node_ids, vec![NodeId::from("node-0"), NodeId::from("node-1"), NodeId::from("node-2")]);
    assert_eq!(
        cluster.node(&NodeId::from("node-0")).expect("node should exist").peers(),
        &[NodeId::from("node-1"), NodeId::from("node-2")]
    );
}

#[test]
fn line_generates_neighbor_peers() {
    let cluster: Cluster<&str> = Cluster::line(GossipConfig::new(1, 10).expect("valid config"), 4);

    assert_eq!(cluster.node(&NodeId::from("node-0")).expect("node should exist").peers(), &[NodeId::from("node-1")]);
    assert_eq!(
        cluster.node(&NodeId::from("node-1")).expect("node should exist").peers(),
        &[NodeId::from("node-0"), NodeId::from("node-2")]
    );
    assert_eq!(cluster.node(&NodeId::from("node-3")).expect("node should exist").peers(), &[NodeId::from("node-2")]);
}

#[test]
fn cluster_builder_builds_fully_connected_cluster() {
    let network = NetworkModel::new().with_loss(Chance::Below(u64::MAX / 4));

    let cluster: Cluster<&str> = ClusterBuilder::new(GossipConfig::new(1, 10).expect("valid config"))
        .with_node_count(3)
        .with_seed(42)
        .with_network_model(network)
        .fully_connected();

    assert_eq!(cluster.node_count(), 3);
    assert_eq!(cluster.network_model().loss(), Chance::Below(u64::MAX / 4));
    assert_eq!(
        cluster.node(&NodeId::from("node-0")).expect("node should exist").peers(),
        &[NodeId::from("node-1"), NodeId::from("node-2")]
    );
}

#[test]
fn cluster_builder_builds_line_with_custom_node_ids() {
    let cluster: Cluster<&str> = ClusterBuilder::new(GossipConfig::new(1, 10).expect("valid config"))
        .with_node_ids(vec![NodeId::from("alpha"), NodeId::from("beta"), NodeId::from("gamma")])
        .line();

    assert_eq!(cluster.node(&NodeId::from("alpha")).expect("node should exist").peers(), &[NodeId::from("beta")]);
    assert_eq!(
        cluster.node(&NodeId::from("beta")).expect("node should exist").peers(),
        &[NodeId::from("alpha"), NodeId::from("gamma")]
    );
    assert_eq!(cluster.node(&NodeId::from("gamma")).expect("node should exist").peers(), &[NodeId::from("beta")]);
}

#[test]
fn lib_cluster_spreads_rumor_over_ticks() {
    let mut cluster = Cluster::new(
        GossipConfig::new(2, 10).expect("valid config"),
        vec![NodeId::from("node-a"), NodeId::from("node-b"), NodeId::from("node-c")],
    );

    cluster
        .publish(&NodeId::from("node-a"), MessageId::new(1), Round::zero(), "hello")
        .expect("node should exist");

    assert_eq!(cluster.rumor_reach(MessageId::new(1)), 1);

    cluster.tick(Round::new(0));
    cluster.tick(Round::new(1));

    assert_eq!(cluster.rumor_reach(MessageId::new(1)), 3);
}

#[test]
fn cluster_reports_whether_all_nodes_know_rumor() {
    let mut cluster = Cluster::new(
        GossipConfig::new(2, 10).expect("valid config"),
        vec![NodeId::from("node-a"), NodeId::from("node-b"), NodeId::from("node-c")],
    );

    cluster
        .publish(&NodeId::from("node-a"), MessageId::new(1), Round::zero(), "hello")
        .expect("node should exist");

    assert!(!cluster.all_know(MessageId::new(1)));

    cluster.run_until_reached(MessageId::new(1), 3, 5);

    assert!(cluster.all_know(MessageId::new(1)));
}

#[test]
fn cluster_reports_known_and_unknown_nodes_for_rumor() {
    let mut cluster = Cluster::new(
        GossipConfig::new(1, 10).expect("valid config"),
        vec![NodeId::from("node-c"), NodeId::from("node-a"), NodeId::from("node-b")],
    );

    cluster
        .publish(&NodeId::from("node-a"), MessageId::new(1), Round::zero(), "hello")
        .expect("node should exist");

    assert_eq!(cluster.known_by(MessageId::new(1)), vec![NodeId::from("node-a")]);
    assert_eq!(cluster.unknown_by(MessageId::new(1)), vec![NodeId::from("node-b"), NodeId::from("node-c")]);
    assert_eq!(cluster.missing_count(MessageId::new(1)), 2);
}

#[test]
fn cluster_reports_every_node_unknown_for_missing_rumor() {
    let cluster: Cluster<&str> = Cluster::new(
        GossipConfig::new(1, 10).expect("valid config"),
        vec![NodeId::from("node-b"), NodeId::from("node-a")],
    );

    assert!(cluster.known_by(MessageId::new(99)).is_empty());
    assert_eq!(cluster.unknown_by(MessageId::new(99)), vec![NodeId::from("node-a"), NodeId::from("node-b")]);
    assert_eq!(cluster.missing_count(MessageId::new(99)), 2);
}

#[test]
fn empty_cluster_does_not_report_all_know() {
    let cluster: Cluster<&str> = Cluster::new(GossipConfig::new(1, 10).expect("valid config"), Vec::new());

    assert!(!cluster.all_know(MessageId::new(1)));
}

#[test]
fn cluster_publish_uses_node_as_origin() {
    let mut cluster = Cluster::new(GossipConfig::new(1, 10).expect("valid config"), vec![NodeId::from("node-a")]);

    let outcome = cluster
        .publish(&NodeId::from("node-a"), MessageId::new(1), Round::new(7), "hello")
        .expect("node should exist");

    assert_eq!(outcome, InsertOutcome::Inserted);

    let stored = cluster
        .node(&NodeId::from("node-a"))
        .expect("node should exist")
        .get_rumor(MessageId::new(1))
        .expect("rumor should exist");

    assert_eq!(stored.origin(), &NodeId::from("node-a"));
    assert_eq!(stored.created_at(), Round::new(7));
    assert_eq!(stored.payload(), &"hello");
}

#[test]
fn cluster_publish_reports_unknown_node() {
    let mut cluster: Cluster<&str> =
        Cluster::new(GossipConfig::new(1, 10).expect("valid config"), vec![NodeId::from("node-a")]);

    let error = cluster
        .publish(&NodeId::from("missing"), MessageId::new(1), Round::zero(), "hello")
        .expect_err("missing node should fail");

    assert_eq!(error, ClusterError::UnknownNode(NodeId::from("missing")));
    assert_eq!(error.to_string(), "unknown node: missing");
}

#[test]
fn lib_cluster_with_seed_can_change_peer_selection() {
    let config = GossipConfig::new(1, 10).expect("valid config");
    let node_ids = vec![NodeId::from("node-a"), NodeId::from("node-b"), NodeId::from("node-c"), NodeId::from("node-d")];

    let mut first = Cluster::with_seed(config.clone(), node_ids.clone(), 1);
    let mut second = Cluster::with_seed(config, node_ids, 3);

    first
        .publish(&NodeId::from("node-a"), MessageId::new(1), Round::zero(), "hello")
        .expect("node should exist");
    second
        .publish(&NodeId::from("node-a"), MessageId::new(1), Round::zero(), "hello")
        .expect("node should exist");

    first.tick(Round::new(0));
    second.tick(Round::new(0));

    let first_reached_b = first.node(&NodeId::from("node-b")).expect("node should exist").contains_rumor(MessageId::new(1));
    let second_reached_b =
        second.node(&NodeId::from("node-b")).expect("node should exist").contains_rumor(MessageId::new(1));

    assert_ne!(first_reached_b, second_reached_b);
}

#[test]
fn cluster_defaults_to_no_packet_loss() {
    let cluster: Cluster<&str> = Cluster::new(GossipConfig::new(1, 10).expect("valid config"), Vec::new());

    assert_eq!(cluster.network_model().loss(), Chance::Never);
}

#[test]
fn cluster_with_full_packet_loss_drops_all_messages() {
    let mut cluster = Cluster::new(
        GossipConfig::new(2, 10).expect("valid config"),
        vec![NodeId::from("node-a"), NodeId::from("node-b"), NodeId::from("node-c")],
    )
    .with_network_model(NetworkModel::new().with_loss(Chance::Always));

    cluster
        .publish(&NodeId::from("node-a"), MessageId::new(1), Round::zero(), "hello")
        .expect("node should exist");

    let report = cluster.tick(Round::zero());

    assert_eq!(report.attempted(), 2);
    assert_eq!(report.sent(), 0);
    assert_eq!(report.dropped(), 2);
    assert_eq!(report.accepted(), 0);
    assert_eq!(report.message_copies(), 0);
    assert_eq!(ratio(report.dropped(), report.attempted()), 1.0);
    assert_eq!(ratio(report.duplicated(), report.accepted()), 0.0);
    assert_eq!(ratio(report.delayed(), report.message_copies()), 0.0);
    assert_eq!(ratio(report.received(), report.sent()), 0.0);
    assert_eq!(ratio(report.new_rumors(), report.received()), 0.0);
    assert_eq!(cluster.rumor_reach(MessageId::new(1)), 1);
}

#[test]
fn network_model_defaults_to_reliable_delivery() {
    let network = NetworkModel::new();

    assert_eq!(network.loss(), Chance::Never);
    assert_eq!(network.duplicate(), Chance::Never);
    assert_eq!(network.delay(), Chance::Never);
    assert_eq!(network.max_delay_rounds(), 0);
    assert!(network.partitions().is_empty());
}

#[test]
fn cluster_defaults_to_no_duplicate_delivery() {
    let cluster: Cluster<&str> = Cluster::new(GossipConfig::new(1, 10).expect("valid config"), Vec::new());

    assert_eq!(cluster.network_model().duplicate(), Chance::Never);
}

#[test]
fn cluster_with_full_duplicate_delivery_still_deduplicates_rumors() {
    let mut cluster = Cluster::new(
        GossipConfig::new(1, 10).expect("valid config"),
        vec![NodeId::from("node-a"), NodeId::from("node-b")],
    )
    .with_network_model(NetworkModel::new().with_duplicate(Chance::Always));

    cluster
        .publish(&NodeId::from("node-a"), MessageId::new(1), Round::zero(), "hello")
        .expect("node should exist");

    let report = cluster.tick(Round::zero());

    assert_eq!(report.attempted(), 1);
    assert_eq!(report.sent(), 2);
    assert_eq!(report.duplicated(), 1);
    assert_eq!(report.received(), 2);
    assert_eq!(report.new_rumors(), 1);
    assert_eq!(report.accepted(), 1);
    assert_eq!(report.message_copies(), 2);
    assert_eq!(ratio(report.dropped(), report.attempted()), 0.0);
    assert_eq!(ratio(report.duplicated(), report.accepted()), 1.0);
    assert_eq!(ratio(report.delayed(), report.message_copies()), 0.0);
    assert_eq!(ratio(report.received(), report.sent()), 1.0);
    assert_eq!(ratio(report.new_rumors(), report.received()), 0.5);
    assert_eq!(cluster.rumor_reach(MessageId::new(1)), 2);
    assert_eq!(report.events().len(), 1);
}

#[test]
fn cluster_with_full_delay_holds_messages_until_future_tick() {
    let mut cluster = Cluster::new(
        GossipConfig::new(1, 10).expect("valid config"),
        vec![NodeId::from("node-a"), NodeId::from("node-b")],
    )
    .with_network_model(NetworkModel::new().with_delay(Chance::Always, 1));

    cluster
        .publish(&NodeId::from("node-a"), MessageId::new(1), Round::zero(), "hello")
        .expect("node should exist");

    let first = cluster.tick(Round::zero());

    assert_eq!(first.attempted(), 1);
    assert_eq!(first.sent(), 0);
    assert_eq!(first.delayed(), 1);
    assert_eq!(first.received(), 0);
    assert_eq!(first.accepted(), 1);
    assert_eq!(first.message_copies(), 1);
    assert_eq!(ratio(first.delayed(), first.message_copies()), 1.0);
    assert_eq!(cluster.pending_delayed_count(), 1);
    assert_eq!(cluster.pending_delayed_rounds(), vec![(Round::new(1), 1)]);
    assert_eq!(cluster.rumor_reach(MessageId::new(1)), 1);

    let second = cluster.tick(Round::new(1));

    assert_eq!(second.sent(), 1);
    assert_eq!(second.received(), 1);
    assert_eq!(second.new_rumors(), 1);
    assert_eq!(ratio(second.received(), second.sent()), 1.0);
    assert_eq!(ratio(second.new_rumors(), second.received()), 1.0);
    assert_eq!(cluster.pending_delayed_count(), 1);
    assert_eq!(cluster.pending_delayed_rounds(), vec![(Round::new(2), 1)]);
    assert_eq!(cluster.rumor_reach(MessageId::new(1)), 2);
}

#[test]
fn network_partition_blocks_cross_partition_messages_until_healed() {
    let partition = NetworkPartition::new(vec![NodeId::from("node-a")], vec![NodeId::from("node-b")]);
    let mut cluster = Cluster::new(
        GossipConfig::new(1, 10).expect("valid config"),
        vec![NodeId::from("node-a"), NodeId::from("node-b")],
    )
    .with_partition(partition);

    cluster
        .publish(&NodeId::from("node-a"), MessageId::new(1), Round::zero(), "hello")
        .expect("node should exist");

    let blocked = cluster.tick(Round::zero());

    assert_eq!(cluster.partitions().len(), 1);
    assert_eq!(blocked.attempted(), 1);
    assert_eq!(blocked.dropped(), 1);
    assert_eq!(blocked.sent(), 0);
    assert_eq!(cluster.rumor_reach(MessageId::new(1)), 1);

    cluster = cluster.without_partitions();

    let healed = cluster.tick(Round::new(1));

    assert!(cluster.partitions().is_empty());
    assert_eq!(healed.sent(), 1);
    assert_eq!(healed.received(), 1);
    assert_eq!(cluster.rumor_reach(MessageId::new(1)), 2);
}

#[test]
fn cluster_can_run_for_fixed_round_count() {
    let mut cluster = Cluster::new(
        GossipConfig::new(1, 10).expect("valid config"),
        vec![NodeId::from("node-a"), NodeId::from("node-b")],
    );

    cluster
        .publish(&NodeId::from("node-a"), MessageId::new(1), Round::zero(), "hello")
        .expect("node should exist");

    let report = cluster.run_for_rounds(Round::zero(), 2);

    assert_eq!(report.rounds_run(), 2);
    assert!(report.attempted() >= 1);
    assert!(report.sent() >= 1);
    assert_eq!(cluster.rumor_reach(MessageId::new(1)), 2);
}

#[test]
fn lib_run_until_reached_reports_success() {
    let mut cluster = Cluster::new(
        GossipConfig::new(2, 10).expect("valid config"),
        vec![NodeId::from("node-a"), NodeId::from("node-b"), NodeId::from("node-c")],
    );

    cluster
        .publish(&NodeId::from("node-a"), MessageId::new(1), Round::zero(), "hello")
        .expect("node should exist");

    let report = cluster.run_until_reached(MessageId::new(1), 3, 5);

    assert!(report.reached());
    assert!(report.rounds_run() <= 5);
    assert_eq!(report.reached_nodes(), 3);
    assert!(report.attempted() > 0);
    assert!(report.sent() > 0);
    assert!(report.received() > 0);
    assert!(report.new_rumors() > 0);
    assert_eq!(ratio(report.received(), report.sent()), 1.0);
}

#[test]
fn lib_run_until_reached_reports_failure_after_budget() {
    let mut cluster = Cluster::new(GossipConfig::new(1, 10).expect("valid config"), vec![NodeId::from("node-a")]);

    cluster
        .publish(&NodeId::from("node-a"), MessageId::new(1), Round::zero(), "hello")
        .expect("node should exist");

    let report = cluster.run_until_reached(MessageId::new(1), 2, 3);

    assert!(!report.reached());
    assert_eq!(report.rounds_run(), 3);
    assert_eq!(report.reached_nodes(), 1);
    assert_eq!(report.sent(), 0);
    assert_eq!(report.received(), 0);
}

#[test]
fn lib_run_until_reached_returns_immediately_if_already_reached() {
    let mut cluster = Cluster::new(GossipConfig::new(1, 10).expect("valid config"), vec![NodeId::from("node-a")]);

    cluster
        .publish(&NodeId::from("node-a"), MessageId::new(1), Round::zero(), "hello")
        .expect("node should exist");

    let report = cluster.run_until_reached(MessageId::new(1), 1, 3);

    assert!(report.reached());
    assert_eq!(report.rounds_run(), 0);
    assert_eq!(report.reached_nodes(), 1);
    assert_eq!(report.sent(), 0);
}

#[test]
fn cluster_insert_rumor_reports_unknown_node_and_duplicates() {
    let mut cluster: Cluster<&str> = Cluster::new(GossipConfig::new(1, 10).expect("valid config"), ids(&["node-a"]));
    let rumor = gossiper::Rumor::new(MessageId::new(5), NodeId::from("node-z"), Round::new(2), "payload");

    assert_eq!(cluster.insert_rumor(&NodeId::from("node-a"), rumor.clone()), Ok(InsertOutcome::Inserted));
    assert_eq!(cluster.insert_rumor(&NodeId::from("node-a"), rumor.clone()), Ok(InsertOutcome::Duplicate));
    assert_eq!(
        cluster.insert_rumor(&NodeId::from("node-b"), rumor),
        Err(ClusterError::UnknownNode(NodeId::from("node-b")))
    );
    assert_eq!(cluster.rumor_reach(MessageId::new(5)), 1);
}

#[test]
fn cluster_later_identifier_of_same_name_replaces_earlier() {
    let cluster: Cluster<&str> =
        Cluster::new(GossipConfig::new(1, 10).expect("valid config"), ids(&["node-b", "node-a", "node-b"]));

    let node_ids: Vec<NodeId> = cluster.node_ids().into_iter().cloned().collect();

    assert_eq!(node_ids, ids(&["node-a", "node-b"]));
    assert_eq!(cluster.node(&NodeId::from("node-a")).expect("node should exist").peers(), &ids(&["node-b", "node-b"])[..]);
    assert_eq!(cluster.node(&NodeId::from("node-b")).expect("node should exist").peers(), &ids(&["node-a"])[..]);
}

#[test]
fn reliable_tick_hands_every_send_to_the_transport() {
    let mut cluster = Cluster::new(GossipConfig::new(3, 10).expect("valid config"), ids(&["a", "b", "c", "d"]));

    cluster.publish(&NodeId::from("a"), MessageId::new(1), Round::zero(), "x").expect("node should exist");
    cluster.publish(&NodeId::from("c"), MessageId::new(2), Round::zero(), "y").expect("node should exist");

    let report = cluster.tick(Round::zero());

    assert_eq!(report.attempted(), 6);
    assert_eq!(report.dropped(), 0);
    assert_eq!(report.duplicated(), 0);
    assert_eq!(report.delayed(), 0);
    assert_eq!(report.sent(), 6);
    assert_eq!(report.received(), 6);
    assert_eq!(cluster.pending_delayed_count(), 0);
    assert!(cluster.pending_delayed_rounds().is_empty());
}

#[test]
fn lossy_network_drops_a_share_of_sends_and_accounts_for_them() {
    let mut cluster = Cluster::with_seed(GossipConfig::new(3, 10).expect("valid config"), ids(&["a", "b", "c", "d"]), 7)
        .with_network_model(
            NetworkModel::new()
                .with_loss(Chance::Below(u64::MAX / 2))
                .with_duplicate(Chance::Below(u64::MAX / 2))
                .with_delay(Chance::Below(u64::MAX / 2), 3),
        );

    cluster.publish(&NodeId::from("a"), MessageId::new(1), Round::zero(), "x").expect("node should exist");
    let mut total_delayed = 0;
    let mut total_due = 0;
    for round in 0..6 {
        let before = cluster.pending_delayed_count();
        let report = cluster.tick(Round::new(round));
        assert!(report.dropped() <= report.attempted());
        assert!(report.duplicated() + report.dropped() <= report.attempted());
        let after = cluster.pending_delayed_count();
        let due = before + report.delayed() - after;
        assert_eq!(report.sent() + report.delayed(), due + report.attempted() - report.dropped() + report.duplicated());
        total_delayed += report.delayed();
        total_due += due;
        for (round_due, count) in cluster.pending_delayed_rounds() {
            assert!(round_due.get() > round && round_due.get() <= round + 3);
            assert!(count > 0);
        }
    }
    assert_eq!(cluster.pending_delayed_count(), total_delayed - total_due);
}

#[test]
fn clusters_with_the_same_seed_repeat_the_same_lossy_run() {
    let config = GossipConfig::new(2, 10).expect("valid config");
    let network = NetworkModel::new()
        .with_loss(Chance::Below(u64::MAX / 4))
        .with_duplicate(Chance::Below(u64::MAX / 8))
        .with_delay(Chance::Below(u64::MAX / 5), 2);
    let build = || {
        ClusterBuilder::new(config.clone())
            .with_node_count(8)
            .with_seed(11)
            .with_network_model(network.clone())
            .fully_connected::<&str>()
    };
    let mut first = build();
    let mut second = build();
    first
        .publish(&NodeId::from("node-0"), MessageId::new(1), Round::zero(), "hello")
        .expect("node should exist");
    second
        .publish(&NodeId::from("node-0"), MessageId::new(1), Round::zero(), "hello")
        .expect("node should exist");

    let first_report = first.run_until_reached(MessageId::new(1), 8, 30);
    let second_report = second.run_until_reached(MessageId::new(1), 8, 30);

    assert_eq!(first_report.reached(), second_report.reached());
    assert_eq!(first_report.rounds_run(), second_report.rounds_run());
    assert_eq!(first_report.attempted(), second_report.attempted());
    assert_eq!(first_report.dropped(), second_report.dropped());
    assert_eq!(first_report.duplicated(), second_report.duplicated());
    assert_eq!(first_report.delayed(), second_report.delayed());
    assert_eq!(first_report.received(), second_report.received());
    assert_eq!(first.known_by(MessageId::new(1)), second.known_by(MessageId::new(1)));
    assert_eq!(first.pending_delayed_count(), second.pending_delayed_count());
}

#[test]
fn every_message_handed_over_reaches_a_node_and_delays_come_due_later() {
    let config = GossipConfig::new(3, 10).expect("valid config");
    let network = NetworkModel::new()
        .with_duplicate(Chance::Below(u64::MAX / 3))
        .with_delay(Chance::Below(u64::MAX / 2), 4);
    let mut cluster = ClusterBuilder::new(config)
        .with_node_count(6)
        .with_seed(5)
        .with_network_model(network)
        .fully_connected::<&str>();
    cluster
        .publish(&NodeId::from("node-0"), MessageId::new(1), Round::zero(), "hello")
        .expect("node should exist");

    for round in 0..8u64 {
        let report = cluster.tick(Round::new(round));
        assert_eq!(report.received(), report.sent());
        assert!(report.delayed() <= report.message_copies());
        for (due, _) in cluster.pending_delayed_rounds() {
            assert!(due.get() > round);
        }
    }
}

#[test]
fn with_seed_makes_one_node_per_distinct_name() {
    let config = GossipConfig::new(1, 10).expect("valid config");
    let ids = vec![NodeId::from("node-c"), NodeId::from("node-a"), NodeId::from("node-c"), NodeId::from("node-b")];
    let cluster: Cluster<&str> = Cluster::with_seed(config, ids, 4);

    assert_eq!(cluster.node_count(), 3);
    let names: Vec<NodeId> = cluster.node_ids().into_iter().cloned().collect();
    assert_eq!(names, vec![NodeId::from("node-a"), NodeId::from("node-b"), NodeId::from("node-c")]);
}
