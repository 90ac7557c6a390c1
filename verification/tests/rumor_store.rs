use gossiper::{InsertOutcome, MessageId, NodeId, Round, Rumor, RumorStore};

fn rumor(id: u128, payload: &'static str) -> Rumor<&'static str> {
    Rumor::new(
        MessageId::new(id),
        NodeId::from("node-a"),
        Round::new(0),
        payload,
    )
}

#[test]
fn starts_empty() {
    let store: RumorStore<&str> = RumorStore::new(3);

    assert!(store.is_empty());
    assert_eq!(store.len(), 0);
}

#[test]
fn inserts_new_rumor() {
    let mut store = RumorStore::new(3);

    let outcome = store.insert(rumor(1, "hello"));

    assert_eq!(outcome, InsertOutcome::Inserted);
    assert!(store.contains(MessageId::new(1)));
    assert_eq!(store.len(), 1);
}

#[test]
fn suppresses_duplicate_rumor() {
    let mut store = RumorStore::new(3);

    assert_eq!(store.insert(rumor(1, "hello")), InsertOutcome::Inserted);
    assert_eq!(
        store.insert(rumor(1, "hello again")),
        InsertOutcome::Duplicate
    );

    assert_eq!(store.len(), 1);
    assert_eq!(
        store
            .get(MessageId::new(1))
            .expect("rumor should exist")
            .payload(),
        &"hello"
    );
}

#[test]
fn evicts_oldest_rumor_when_full() {
    let mut store = RumorStore::new(2);

    assert_eq!(store.insert(rumor(1, "first")), InsertOutcome::Inserted);
    assert_eq!(store.insert(rumor(2, "second")), InsertOutcome::Inserted);
    assert_eq!(
        store.insert(rumor(3, "third")),
        InsertOutcome::InsertedWithEviction {
            evicted: MessageId::new(1)
        }
    );

    assert!(!store.contains(MessageId::new(1)));
    assert!(store.contains(MessageId::new(2)));
    assert!(store.contains(MessageId::new(3)));
    assert_eq!(store.len(), 2);
}

#[test]
fn iterates_in_insertion_order() {
    let mut store = RumorStore::new(3);

    store.insert(rumor(1, "first"));
    store.insert(rumor(2, "second"));
    store.insert(rumor(3, "third"));

    let payloads: Vec<_> = store
        .iter_in_insertion_order()
        .into_iter()
        .map(|rumor| *rumor.payload())
        .collect();

    assert_eq!(payloads, vec!["first", "second", "third"]);
}

#[test]
fn prunes_rumors_older_than_minimum_round() {
    let mut store = RumorStore::new(5);

    store.insert(Rumor::new(
        MessageId::new(1),
        NodeId::from("node-a"),
        Round::new(1),
        "old",
    ));
    store.insert(Rumor::new(
        MessageId::new(2),
        NodeId::from("node-a"),
        Round::new(3),
        "new",
    ));

    let removed = store.prune_older_than(Round::new(3));

    assert_eq!(removed, 1);
    assert!(!store.contains(MessageId::new(1)));
    assert!(store.contains(MessageId::new(2)));
}

#[test]
fn prune_keeps_order_consistent() {
    let mut store = RumorStore::new(5);

    store.insert(Rumor::new(
        MessageId::new(1),
        NodeId::from("node-a"),
        Round::new(1),
        "old",
    ));
    store.insert(Rumor::new(
        MessageId::new(2),
        NodeId::from("node-a"),
        Round::new(3),
        "middle",
    ));
    store.insert(Rumor::new(
        MessageId::new(3),
        NodeId::from("node-a"),
        Round::new(4),
        "new",
    ));

    store.prune_older_than(Round::new(3));

    let payloads: Vec<_> = store
        .iter_in_insertion_order()
        .into_iter()
        .map(|rumor| *rumor.payload())
        .collect();

    assert_eq!(payloads, vec!["middle", "new"]);
}

#[test]
fn store_never_exceeds_capacity() {
    let mut store = RumorStore::new(3);

    for id in 0..10 {
        store.insert(rumor(id, "x"));
        assert!(store.len() <= 3);
    }

    let ids: Vec<_> = store
        .iter_in_insertion_order()
        .into_iter()
        .map(|rumor| rumor.id().get())
        .collect();
    assert_eq!(ids, vec![7, 8, 9]);
}

#[test]
fn eviction_then_reinsert_of_evicted_id_is_accepted() {
    let mut store = RumorStore::new(1);

    assert_eq!(store.insert(rumor(1, "a")), InsertOutcome::Inserted);
    assert_eq!(
        store.insert(rumor(2, "b")),
        InsertOutcome::InsertedWithEviction { evicted: MessageId::new(1) }
    );
    assert_eq!(
        store.insert(rumor(1, "a")),
        InsertOutcome::InsertedWithEviction { evicted: MessageId::new(2) }
    );
}

#[test]
fn prune_keeps_rumors_from_the_minimum_round() {
    let mut store = RumorStore::new(5);
    store.insert(Rumor::new(MessageId::new(1), NodeId::from("a"), Round::new(3), "x"));

    assert_eq!(store.prune_older_than(Round::new(3)), 0);
    assert_eq!(store.len(), 1);
    assert_eq!(store.prune_older_than(Round::new(4)), 1);
    assert!(store.is_empty());
}
