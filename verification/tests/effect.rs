use gossiper::{Effect, NodeId};

#[test]
fn send_effect_contains_target_and_message() {
    let effect: Effect<&str, ()> = Effect::Send {
        target: NodeId::from("node-b"),
        message: "hello",
    };

    assert_eq!(
        effect,
        Effect::Send {
            target: NodeId::from("node-b"),
            message: "hello"
        }
    );
}

#[test]
fn map_message_changes_only_message() {
    let effect: Effect<&str, ()> = Effect::Send {
        target: NodeId::from("node-b"),
        message: "hello",
    };

    let mapped = effect.map_message(|message| message.len());

    assert_eq!(
        mapped,
        Effect::Send {
            target: NodeId::from("node-b"),
            message: 5
        }
    );
}

#[test]
fn map_event_changes_only_event() {
    let effect: Effect<(), &str> = Effect::Emit("joined");

    let mapped = effect.map_event(|event| event.len());

    assert_eq!(mapped, Effect::Emit(6));
}

#[test]
fn map_message_leaves_events_and_map_event_leaves_sends() {
    let event: Effect<&str, u8> = Effect::Emit(1);
    assert_eq!(event.map_message(|message| message.len()), Effect::Emit(1));

    let send: Effect<u8, &str> = Effect::Send { target: NodeId::from("b"), message: 2 };
    assert_eq!(
        send.map_event(|event| event.len()),
        Effect::Send { target: NodeId::from("b"), message: 2 }
    );
}
