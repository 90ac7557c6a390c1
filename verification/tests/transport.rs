use gossiper::{apply_effects, EffectReport, Effect, InMemoryTransport, NodeId, Transport, TransportError};

#[derive(Default)]
struct RecordingTransport {
    sent: Vec<(NodeId, String)>,
}

impl Transport<String> for RecordingTransport {
    fn send(&mut self, target: &NodeId, message: String) -> Result<(), TransportError> {
        self.sent.push((target.clone(), message));
        Ok(())
    }
}

#[test]
fn recording_transport_can_implement_trait() {
    let mut transport = RecordingTransport::default();

    transport
        .send(&NodeId::from("node-b"), "hello".to_string())
        .expect("send should succeed");

    assert_eq!(
        transport.sent,
        vec![(NodeId::from("node-b"), "hello".to_string())]
    );
}

#[test]
fn transport_error_displays_target_and_message() {
    let error = TransportError::new(NodeId::from("node-b"), "connection refused");

    assert_eq!(error.target(), &NodeId::from("node-b"));
    assert_eq!(error.message(), "connection refused");
    assert_eq!(
        error.to_string(),
        "transport error sending to node-b: connection refused"
    );
}

#[test]
fn apply_effects_sends_messages_and_collects_events() {
    let mut transport = RecordingTransport::default();
    let effects = vec![
        Effect::Send {
            target: NodeId::from("node-b"),
            message: "hello".to_string(),
        },
        Effect::Emit("learned-rumor"),
    ];

    let report = apply_effects(&mut transport, effects);

    assert_eq!(report.sent(), 1);
    assert_eq!(report.events(), &["learned-rumor"]);
    assert!(report.errors().is_empty());
    assert_eq!(
        transport.sent,
        vec![(NodeId::from("node-b"), "hello".to_string())]
    );
}

struct FailingTransport;

impl Transport<String> for FailingTransport {
    fn send(&mut self, target: &NodeId, _message: String) -> Result<(), TransportError> {
        Err(TransportError::new(target.clone(), "offline"))
    }
}

#[test]
fn apply_effects_records_transport_errors() {
    let mut transport = FailingTransport;
    let effects: Vec<Effect<String, ()>> = vec![Effect::Send {
        target: NodeId::from("node-b"),
        message: "hello".to_string(),
    }];

    let report = apply_effects(&mut transport, effects);

    assert_eq!(report.sent(), 0);
    assert!(report.events().is_empty());
    assert!(report.has_errors());
    assert_eq!(report.errors()[0].target(), &NodeId::from("node-b"));
    assert_eq!(report.errors()[0].message(), "offline");
}

#[test]
fn in_memory_transport_queues_messages_by_target() {
    let mut transport = InMemoryTransport::new();
    let node_b = NodeId::from("node-b");
    let node_c = NodeId::from("node-c");

    transport
        .send(&node_b, "first".to_string())
        .expect("send should succeed");
    transport
        .send(&node_b, "second".to_string())
        .expect("send should succeed");
    transport
        .send(&node_c, "third".to_string())
        .expect("send should succeed");

    assert_eq!(transport.queued_len(&node_b), 2);
    assert_eq!(transport.queued_len(&node_c), 1);
    assert!(transport.has_queued(&node_b));

    assert_eq!(
        transport.drain(&node_b),
        vec!["first".to_string(), "second".to_string()]
    );

    assert_eq!(transport.queued_len(&node_b), 0);
    assert_eq!(transport.drain(&node_b), Vec::<String>::new());
}

#[test]
fn apply_effects_can_drive_in_memory_transport() {
    let mut transport = InMemoryTransport::new();
    let node_b = NodeId::from("node-b");

    let effects = vec![Effect::Send {
        target: node_b.clone(),
        message: "hello".to_string(),
    }];

    let report: EffectReport<()> = apply_effects(&mut transport, effects);

    assert_eq!(report.sent(), 1);
    assert!(!report.has_errors());
    assert_eq!(transport.drain(&node_b), vec!["hello".to_string()]);
}

#[test]
fn draining_one_target_keeps_other_queues() {
    let mut transport = InMemoryTransport::new();
    let node_b = NodeId::from("node-b");
    let node_c = NodeId::from("node-c");
    let node_d = NodeId::from("node-d");

    let effects: Vec<Effect<u8, ()>> = vec![
        Effect::Send { target: node_b.clone(), message: 1 },
        Effect::Send { target: node_c.clone(), message: 2 },
        Effect::Send { target: node_d.clone(), message: 3 },
        Effect::Send { target: node_b.clone(), message: 4 },
    ];
    let report = apply_effects(&mut transport, effects);

    assert_eq!(report.sent(), 4);
    assert_eq!(transport.drain(&node_c), vec![2]);
    assert_eq!(transport.drain(&node_b), vec![1, 4]);
    assert_eq!(transport.queued_len(&node_d), 1);
    assert!(!transport.has_queued(&node_c));
}
