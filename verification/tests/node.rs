use gossiper::{
    DeterministicRng, Effect, GossipConfig, GossipEvent, GossipMessage, GossipNode, InsertOutcome,
    MessageId, MessageIdGenerator, NodeId, PublishManyError, RandomSource, Round, Rumor,
};

fn rumor(id: u128, payload: &'static str) -> Rumor<&'static str> {
    Rumor::new(
        MessageId::new(id),
        NodeId::from("node-a"),
        Round::new(0),
        payload,
    )
}

#[test]
fn starts_without_peers_or_rumors() {
    let node: GossipNode<&str> =
        GossipNode::new(NodeId::from("node-a"), GossipConfig::default());

    assert_eq!(node.self_id(), &NodeId::from("node-a"));
    assert!(node.peers().is_empty());
    assert_eq!(node.rumor_count(), 0);
}

#[test]
fn inserts_rumor() {
    let mut node = GossipNode::new(NodeId::from("node-a"), GossipConfig::default());

    let outcome = node.insert_rumor(rumor(1, "hello"));

    assert_eq!(outcome, InsertOutcome::Inserted);
    assert_eq!(node.rumor_count(), 1);
}

#[test]
fn receive_stores_new_rumor_and_emits_event() {
    let mut node = GossipNode::new(NodeId::from("node-b"), GossipConfig::default());
    let message = GossipMessage::rumors(vec![rumor(1, "hello")]);

    let effects = node.receive(message);

    assert_eq!(node.rumor_count(), 1);
    assert_eq!(effects.len(), 1);

    match &effects[0] {
        Effect::Emit(GossipEvent::NewRumor(rumor)) => {
            assert_eq!(rumor.id(), MessageId::new(1));
            assert_eq!(rumor.payload(), &"hello");
        }
        Effect::Send { .. } => panic!("expected event effect"),
    }
}

#[test]
fn receive_suppresses_duplicate_rumor() {
    let mut node = GossipNode::new(NodeId::from("node-b"), GossipConfig::default());

    let first = node.receive(GossipMessage::rumors(vec![rumor(1, "hello")]));
    let second = node.receive(GossipMessage::rumors(vec![rumor(1, "hello again")]));

    assert_eq!(first.len(), 1);
    assert!(second.is_empty());
    assert_eq!(node.rumor_count(), 1);
}

#[test]
fn tick_returns_no_effects_without_rumors() {
    let mut node: GossipNode<&str> =
        GossipNode::new(NodeId::from("node-a"), GossipConfig::default());
    node.set_peers(vec![NodeId::from("node-b")]);

    let mut rng = DeterministicRng::new(1);
    let effects = node.tick(&mut rng, Round::new(0));

    assert!(effects.is_empty());
}

#[test]
fn tick_sends_known_rumors_to_selected_peers() {
    let config = GossipConfig::new(2, 10).expect("valid config");
    let mut node = GossipNode::new(NodeId::from("node-a"), config);
    node.set_peers(vec![
        NodeId::from("node-a"),
        NodeId::from("node-b"),
        NodeId::from("node-c"),
        NodeId::from("node-d"),
    ]);
    node.insert_rumor(rumor(1, "hello"));

    let mut rng = DeterministicRng::new(1);
    let effects = node.tick(&mut rng, Round::new(0));

    assert_eq!(effects.len(), 2);

    for effect in effects {
        match effect {
            Effect::Send { target, message } => {
                assert_ne!(target, NodeId::from("node-a"));

                match message {
                    GossipMessage::Rumors(rumors) => {
                        assert_eq!(rumors.len(), 1);
                        assert_eq!(rumors[0].payload(), &"hello");
                    }
                }
            }
            Effect::Emit(()) => panic!("expected send effect"),
        }
    }
}

#[test]
fn tick_keeps_rumors_within_retention_window() {
    let config = GossipConfig::new(1, 10)
        .expect("valid config")
        .with_rumor_retention_rounds(3)
        .expect("valid retention");
    let mut node = GossipNode::new(NodeId::from("node-a"), config);

    node.set_peers(vec![NodeId::from("node-b")]);
    node.insert_rumor(rumor(1, "hello"));

    let mut rng = DeterministicRng::new(1);
    let effects = node.tick(&mut rng, Round::new(3));

    assert_eq!(effects.len(), 1);
    assert_eq!(node.rumor_count(), 1);
}

#[test]
fn tick_prunes_rumors_after_retention_window() {
    let config = GossipConfig::new(1, 10)
        .expect("valid config")
        .with_rumor_retention_rounds(3)
        .expect("valid retention");
    let mut node = GossipNode::new(NodeId::from("node-a"), config);

    node.set_peers(vec![NodeId::from("node-b")]);
    node.insert_rumor(rumor(1, "hello"));

    let mut rng = DeterministicRng::new(1);
    let effects = node.tick(&mut rng, Round::new(4));

    assert!(effects.is_empty());
    assert_eq!(node.rumor_count(), 0);
}

#[test]
fn exposes_read_only_rumor_lookup() {
    let mut node = GossipNode::new(NodeId::from("node-a"), GossipConfig::default());

    node.insert_rumor(rumor(1, "hello"));

    assert!(node.contains_rumor(MessageId::new(1)));
    assert!(!node.contains_rumor(MessageId::new(2)));

    let stored = node
        .get_rumor(MessageId::new(1))
        .expect("rumor should be stored");

    assert_eq!(stored.payload(), &"hello");
    assert_eq!(node.get_rumor(MessageId::new(2)), None);
}

#[test]
fn tick_limits_rumors_per_message() {
    let config = GossipConfig::new(1, 10)
        .expect("valid config")
        .with_max_rumors_per_message(2)
        .expect("valid per-message limit");
    let mut node = GossipNode::new(NodeId::from("node-a"), config);

    node.set_peers(vec![NodeId::from("node-b")]);
    node.insert_rumor(rumor(1, "first"));
    node.insert_rumor(rumor(2, "second"));
    node.insert_rumor(rumor(3, "third"));

    let mut rng = DeterministicRng::new(1);
    let effects = node.tick(&mut rng, Round::new(0));

    assert_eq!(effects.len(), 1);

    match &effects[0] {
        Effect::Send { message, .. } => {
            assert_eq!(message.rumor_count(), 2);
        }
        Effect::Emit(()) => panic!("expected send effect"),
    }
}

#[test]
fn tick_rotates_limited_rumor_batch_by_round() {
    let config = GossipConfig::new(1, 10)
        .expect("valid config")
        .with_max_rumors_per_message(2)
        .expect("valid per-message limit");
    let mut node = GossipNode::new(NodeId::from("node-a"), config);

    node.set_peers(vec![NodeId::from("node-b")]);
    node.insert_rumor(rumor(1, "first"));
    node.insert_rumor(rumor(2, "second"));
    node.insert_rumor(rumor(3, "third"));

    let mut rng = DeterministicRng::new(1);
    let effects = node.tick(&mut rng, Round::new(1));

    assert_eq!(effects.len(), 1);

    match &effects[0] {
        Effect::Send {
            message: GossipMessage::Rumors(rumors),
            ..
        } => {
            let payloads: Vec<_> = rumors.iter().map(|rumor| *rumor.payload()).collect();

            assert_eq!(payloads, vec!["second", "third"]);
        }
        Effect::Emit(()) => panic!("expected send effect"),
    }
}

#[test]
fn publishes_local_rumor_with_self_as_origin() {
    let mut node = GossipNode::new(NodeId::from("node-a"), GossipConfig::default());

    let outcome = node.publish(MessageId::new(1), Round::new(7), "hello");

    assert_eq!(outcome, InsertOutcome::Inserted);

    let stored = node
        .get_rumor(MessageId::new(1))
        .expect("rumor should be stored");

    assert_eq!(stored.origin(), &NodeId::from("node-a"));
    assert_eq!(stored.created_at(), Round::new(7));
    assert_eq!(stored.payload(), &"hello");
}

#[test]
fn publishes_many_local_rumors_with_generated_ids() {
    let mut node = GossipNode::new(NodeId::from("node-a"), GossipConfig::default());
    let mut ids = MessageIdGenerator::new(10);

    let outcomes = node
        .publish_many(&mut ids, Round::new(7), vec!["first", "second", "third"])
        .expect("generator has enough IDs");

    assert_eq!(
        outcomes,
        vec![
            InsertOutcome::Inserted,
            InsertOutcome::Inserted,
            InsertOutcome::Inserted,
        ]
    );
    assert_eq!(ids.peek(), Some(MessageId::new(13)));
    assert_eq!(node.rumor_count(), 3);
    assert_eq!(
        node.get_rumor(MessageId::new(10))
            .expect("rumor should exist")
            .payload(),
        &"first"
    );
    assert_eq!(
        node.get_rumor(MessageId::new(11))
            .expect("rumor should exist")
            .payload(),
        &"second"
    );
    assert_eq!(
        node.get_rumor(MessageId::new(12))
            .expect("rumor should exist")
            .payload(),
        &"third"
    );
}

#[test]
fn publish_many_does_not_partially_insert_when_generator_is_exhausted() {
    let mut node = GossipNode::new(NodeId::from("node-a"), GossipConfig::default());
    let mut ids = MessageIdGenerator::new(u128::MAX);

    let error = node
        .publish_many(&mut ids, Round::new(7), vec!["first", "second"])
        .expect_err("generator has only one ID left");

    assert_eq!(error, PublishManyError::MessageIdGeneratorExhausted);
    assert_eq!(ids.peek(), Some(MessageId::new(u128::MAX)));
    assert_eq!(node.rumor_count(), 0);
}

#[test]
fn publish_many_uses_the_last_id_and_exhausts_the_generator() {
    let mut node = GossipNode::new(NodeId::from("node-a"), GossipConfig::default());
    let mut ids = MessageIdGenerator::new(u128::MAX - 1);

    let outcomes = node
        .publish_many(&mut ids, Round::new(1), vec!["a", "b"])
        .expect("exactly two IDs are left");

    assert_eq!(outcomes.len(), 2);
    assert_eq!(ids.peek(), None);
    assert!(node.contains_rumor(MessageId::new(u128::MAX)));
}

#[test]
fn receive_announces_each_new_rumor_once_in_order() {
    let mut node = GossipNode::new(NodeId::from("node-b"), GossipConfig::default());
    node.insert_rumor(rumor(2, "known"));

    let effects = node.receive(GossipMessage::rumors(vec![
        rumor(1, "one"),
        rumor(2, "two"),
        rumor(3, "three"),
        rumor(1, "one again"),
    ]));

    let announced: Vec<_> = effects
        .iter()
        .map(|effect| match effect {
            Effect::Emit(GossipEvent::NewRumor(rumor)) => rumor.id().get(),
            Effect::Send { .. } => panic!("expected event effect"),
        })
        .collect();
    assert_eq!(announced, vec![1, 3]);
    assert_eq!(node.rumor_count(), 3);
}

#[test]
fn tick_batch_wraps_around_the_stored_rumors() {
    let config = GossipConfig::new(1, 10)
        .expect("valid config")
        .with_max_rumors_per_message(2)
        .expect("valid per-message limit");
    let mut node = GossipNode::new(NodeId::from("node-a"), config);

    node.set_peers(vec![NodeId::from("node-b")]);
    node.insert_rumor(rumor(1, "first"));
    node.insert_rumor(rumor(2, "second"));
    node.insert_rumor(rumor(3, "third"));

    let mut rng = DeterministicRng::new(1);
    let effects = node.tick(&mut rng, Round::new(2));

    match &effects[0] {
        Effect::Send {
            message: GossipMessage::Rumors(rumors),
            ..
        } => {
            let payloads: Vec<_> = rumors.iter().map(|rumor| *rumor.payload()).collect();

            assert_eq!(payloads, vec!["third", "first"]);
        }
        Effect::Emit(()) => panic!("expected send effect"),
    }
}

#[test]
fn ticking_alike_nodes_with_alike_generators_gives_alike_effects() {
    let peers = vec![
        NodeId::from("node-b"),
        NodeId::from("node-c"),
        NodeId::from("node-d"),
        NodeId::from("node-e"),
    ];
    let config = GossipConfig::new(2, 10).expect("valid config");
    let mut first = GossipNode::new(NodeId::from("node-a"), config.clone());
    let mut second = GossipNode::new(NodeId::from("node-a"), config);
    first.set_peers(peers.clone());
    second.set_peers(peers);
    first.publish(MessageId::new(7), Round::new(0), "hello");
    second.publish(MessageId::new(7), Round::new(0), "hello");

    let mut rng_first = DeterministicRng::new(42);
    let mut rng_second = DeterministicRng::new(42);
    let effects_first = first.tick(&mut rng_first, Round::new(1));
    let effects_second = second.tick(&mut rng_second, Round::new(1));

    assert_eq!(effects_first.len(), 2);
    assert_eq!(effects_first, effects_second);
    assert_eq!(rng_first.next_u64(), rng_second.next_u64());
}

#[test]
fn tick_sends_once_to_a_peer_listed_twice() {
    let config = GossipConfig::new(2, 10).expect("valid config");
    let mut node = GossipNode::new(NodeId::from("node-a"), config);
    node.set_peers(vec![NodeId::from("node-b"), NodeId::from("node-b")]);
    node.publish(MessageId::new(1), Round::new(0), "hello");

    let mut rng = DeterministicRng::new(3);
    let effects = node.tick(&mut rng, Round::new(0));

    assert_eq!(effects.len(), 1);
    assert!(matches!(&effects[0], Effect::Send { target, .. } if target == &NodeId::from("node-b")));
}
