use gossiper::{GossipMessage, MessageId, NodeId, Round, Rumor};

fn rumor(id: u128, payload: &'static str) -> Rumor<&'static str> {
    Rumor::new(
        MessageId::new(id),
        NodeId::from("node-a"),
        Round::new(0),
        payload,
    )
}

#[test]
fn rumors_message_counts_payloads() {
    let message = GossipMessage::rumors(vec![rumor(1, "a"), rumor(2, "b")]);

    assert_eq!(message.rumor_count(), 2);
    assert!(!message.is_empty());
}

#[test]
fn empty_rumors_message_is_empty() {
    let message: GossipMessage<&str> = GossipMessage::rumors(Vec::new());

    assert_eq!(message.rumor_count(), 0);
    assert!(message.is_empty());
}

#[test]
fn messages_are_equal_when_they_carry_equal_rumors_in_order() {
    let first = GossipMessage::rumors(vec![rumor(1, "a"), rumor(2, "b")]);
    let same = GossipMessage::rumors(vec![rumor(1, "a"), rumor(2, "b")]);
    let reordered = GossipMessage::rumors(vec![rumor(2, "b"), rumor(1, "a")]);
    let shorter = GossipMessage::rumors(vec![rumor(1, "a")]);
    let other_payload = GossipMessage::rumors(vec![rumor(1, "a"), rumor(2, "c")]);

    assert_eq!(first, same);
    assert_ne!(first, reordered);
    assert_ne!(first, shorter);
    assert_ne!(first, other_payload);
    assert_eq!(GossipMessage::<&str>::rumors(Vec::new()), GossipMessage::rumors(Vec::new()));
}
