use gossiper::{MessageId, MessageIdGenerator, NodeId};

#[test]
fn node_id_can_be_created_from_str() {
    let node = NodeId::from("node-a");

    assert_eq!(node.as_str(), "node-a");
    assert_eq!(node.to_string(), "node-a");
}

#[test]
fn node_id_can_be_created_from_string() {
    let node = NodeId::from(String::from("node-b"));

    assert_eq!(node.into_string(), "node-b");
}

#[test]
fn message_id_wraps_u128() {
    let id = MessageId::new(42);

    assert_eq!(id.get(), 42);
    assert_eq!(id.to_string(), "42");
}

#[test]
fn message_id_display_renders_zero_and_large_values() {
    assert_eq!(MessageId::new(0).to_string(), "0");
    assert_eq!(
        MessageId::new(u128::MAX).to_string(),
        "340282366920938463463374607431768211455"
    );
}

#[test]
fn generator_hands_out_consecutive_ids() {
    let mut ids = MessageIdGenerator::new(10);

    assert_eq!(ids.next_id(), Some(MessageId::new(10)));
    assert_eq!(ids.next_id(), Some(MessageId::new(11)));
    assert_eq!(ids.peek(), Some(MessageId::new(12)));
}

#[test]
fn generator_is_exhausted_after_the_largest_id() {
    let mut ids = MessageIdGenerator::new(u128::MAX);

    assert_eq!(ids.next_id(), Some(MessageId::new(u128::MAX)));
    assert_eq!(ids.peek(), None);
    assert_eq!(ids.next_id(), None);
}

#[test]
fn node_ids_compare_by_name() {
    assert_eq!(NodeId::from("a"), NodeId::new(String::from("a")));
    assert_ne!(NodeId::from("a"), NodeId::from("b"));
    assert!(NodeId::from("a").same_as(&NodeId::from("a")));
}
