use gossiper::{GossipEvent, MessageId, NodeId, Round, Rumor};

#[test]
fn rumor_exposes_metadata_and_payload() {
    let rumor = Rumor::new(
        MessageId::new(10),
        NodeId::from("node-a"),
        Round::new(3),
        "service moved",
    );

    assert_eq!(rumor.id(), MessageId::new(10));
    assert_eq!(rumor.origin(), &NodeId::from("node-a"));
    assert_eq!(rumor.created_at(), Round::new(3));
    assert_eq!(rumor.payload(), &"service moved");
}

#[test]
fn rumor_can_map_payload() {
    let rumor = Rumor::new(
        MessageId::new(10),
        NodeId::from("node-a"),
        Round::new(3),
        "service moved",
    );

    let mapped = rumor.map_payload(|payload| payload.len());

    assert_eq!(mapped.id(), MessageId::new(10));
    assert_eq!(mapped.origin(), &NodeId::from("node-a"));
    assert_eq!(mapped.created_at(), Round::new(3));
    assert_eq!(mapped.payload(), &13);
}

#[test]
fn rumor_into_payload_and_clone() {
    let rumor = Rumor::new(MessageId::new(1), NodeId::from("n"), Round::new(0), String::from("x"));
    let copy = rumor.clone();

    assert_eq!(copy, rumor);
    assert_eq!(rumor.into_payload(), "x");
}

#[test]
fn new_rumor_events_compare_by_their_rumor() {
    let event = GossipEvent::new_rumor(Rumor::new(MessageId::new(1), NodeId::from("node-a"), Round::new(2), "x"));
    let same = GossipEvent::new_rumor(Rumor::new(MessageId::new(1), NodeId::from("node-a"), Round::new(2), "x"));
    let other = GossipEvent::new_rumor(Rumor::new(MessageId::new(1), NodeId::from("node-a"), Round::new(2), "y"));

    assert_eq!(event, same);
    assert_ne!(event, other);
    assert_eq!(event.clone(), event);
}
