use gossiper::{
    delta_message, digest_message, merge_delta, AntiEntropyMessage, DeltaStore, Digest,
    IdSetDigest, Merge, MergeOutcome, MergeReport, MessageId, NodeId, Round, Rumor, RumorStore,
};

fn rumor(id: u128, payload: &'static str) -> Rumor<&'static str> {
    Rumor::new(
        MessageId::new(id),
        NodeId::from("node-a"),
        Round::new(0),
        payload,
    )
}

#[test]
fn id_set_digest_reports_known_ids() {
    let digest = IdSetDigest::from_ids(&[MessageId::new(1), MessageId::new(2)]);

    assert_eq!(digest.len(), 2);
    assert!(digest.contains(&MessageId::new(1)));
    assert!(!digest.contains(&MessageId::new(3)));
}

#[test]
fn rumor_store_builds_digest_from_known_rumors() {
    let mut store = RumorStore::new(3);
    store.insert(rumor(1, "one"));
    store.insert(rumor(2, "two"));

    let digest = store.digest();

    assert!(digest.contains(&MessageId::new(1)));
    assert!(digest.contains(&MessageId::new(2)));
    assert!(!digest.contains(&MessageId::new(3)));
}

#[test]
fn rumor_store_delta_returns_only_missing_rumors() {
    let mut store = RumorStore::new(3);
    store.insert(rumor(1, "one"));
    store.insert(rumor(2, "two"));
    store.insert(rumor(3, "three"));

    let remote_digest = IdSetDigest::from_ids(&[MessageId::new(1), MessageId::new(3)]);
    let delta = store.delta(&remote_digest);

    assert_eq!(delta.len(), 1);
    assert_eq!(delta[0].id(), MessageId::new(2));
    assert_eq!(delta[0].payload(), &"two");
}

#[test]
fn rumor_store_merge_reports_whether_state_changed() {
    let mut store = RumorStore::new(3);
    let first = rumor(1, "one");

    assert_eq!(store.merge(first.clone()), MergeOutcome::Changed);
    assert_eq!(store.merge(first), MergeOutcome::Unchanged);
}

#[test]
fn anti_entropy_message_reports_delta_size() {
    let digest = IdSetDigest::from_ids(&[MessageId::new(1)]);
    let digest_message: AntiEntropyMessage<_, Rumor<&str>> = AntiEntropyMessage::digest(digest);
    let delta_message: AntiEntropyMessage<IdSetDigest, _> =
        AntiEntropyMessage::delta(vec![rumor(2, "two"), rumor(3, "three")]);
    let empty_delta: AntiEntropyMessage<IdSetDigest, Rumor<&str>> =
        AntiEntropyMessage::delta(Vec::new());

    assert_eq!(digest_message.delta_len(), 0);
    assert!(!digest_message.is_empty_delta());
    assert_eq!(delta_message.delta_len(), 2);
    assert!(!delta_message.is_empty_delta());
    assert_eq!(empty_delta.delta_len(), 0);
    assert!(empty_delta.is_empty_delta());
}

#[test]
fn digest_message_builds_digest_from_store() {
    let mut store = RumorStore::new(3);
    store.insert(rumor(1, "one"));

    let message = digest_message(&store);

    match message {
        AntiEntropyMessage::Digest(digest) => {
            assert!(digest.contains(&MessageId::new(1)));
        }
        AntiEntropyMessage::Delta(_) => panic!("expected digest message"),
    }
}

#[test]
fn delta_message_builds_items_missing_from_remote_digest() {
    let mut store = RumorStore::new(3);
    store.insert(rumor(1, "one"));
    store.insert(rumor(2, "two"));

    let remote_digest = IdSetDigest::from_ids(&[MessageId::new(1)]);
    let message = delta_message(&store, &remote_digest);

    match message {
        AntiEntropyMessage::Digest(_) => panic!("expected delta message"),
        AntiEntropyMessage::Delta(items) => {
            assert_eq!(items.len(), 1);
            assert_eq!(items[0].id(), MessageId::new(2));
            assert_eq!(items[0].payload(), &"two");
        }
    }
}

#[test]
fn merge_delta_reports_changed_and_unchanged_items() {
    let mut store = RumorStore::new(3);
    let known = rumor(1, "one");
    let missing = rumor(2, "two");

    store.insert(known.clone());

    let report = merge_delta(&mut store, vec![known, missing]);

    assert_eq!(report.changed(), 1);
    assert_eq!(report.unchanged(), 1);
    assert_eq!(report.total(), 2);
    assert!(report.has_changes());
    assert!(store.contains(MessageId::new(2)));
}

#[test]
fn anti_entropy_round_trip_reconciles_two_stores() {
    let mut node_a = RumorStore::new(8);
    let mut node_b = RumorStore::new(8);

    node_a.insert(rumor(1, "one"));
    node_a.insert(rumor(2, "two"));
    node_a.insert(rumor(3, "three"));
    node_b.insert(rumor(2, "two"));

    let digest = node_b.digest();
    let items = match delta_message(&node_a, &digest) {
        AntiEntropyMessage::Delta(items) => items,
        AntiEntropyMessage::Digest(_) => panic!("expected delta message"),
    };
    let report = merge_delta(&mut node_b, items);

    assert_eq!(report.changed(), 2);
    assert_eq!(report.unchanged(), 0);
    for id in 1..=3 {
        assert!(node_b.contains(MessageId::new(id)));
    }
    assert!(delta_message(&node_a, &node_b.digest()).is_empty_delta());
}

#[test]
fn empty_digest_and_default_report() {
    let digest = IdSetDigest::new();
    assert!(digest.is_empty());
    assert_eq!(digest.len(), 0);
    assert_eq!(IdSetDigest::default().len(), 0);

    let report = MergeReport::default();
    assert_eq!(report.total(), 0);
    assert!(!report.has_changes());
}

#[test]
fn merge_report_rebuilds_from_counts_that_fit() {
    let report = MergeReport::from_counts(3, 4).expect("counts fit");
    assert_eq!(report.changed(), 3);
    assert_eq!(report.unchanged(), 4);
    assert_eq!(report.total(), 7);
    assert!(report.has_changes());
    assert!(MergeReport::from_counts(usize::MAX, 1).is_none());
    assert_eq!(MergeReport::from_counts(usize::MAX, 0).map(|r| r.total()), Some(usize::MAX));
}

#[test]
fn digests_and_messages_compare_by_content() {
    let digest = IdSetDigest::from_ids(&[MessageId::new(3), MessageId::new(1)]);
    let same = IdSetDigest::from_ids(&[MessageId::new(1), MessageId::new(3), MessageId::new(1)]);
    let other = IdSetDigest::from_ids(&[MessageId::new(1)]);

    assert_eq!(digest, same);
    assert_ne!(digest, other);
    assert_eq!(digest.ids(), vec![MessageId::new(1), MessageId::new(3)]);

    let message: AntiEntropyMessage<IdSetDigest, u8> = AntiEntropyMessage::digest(digest.clone());
    assert_eq!(message, AntiEntropyMessage::digest(same));
    assert_ne!(message, AntiEntropyMessage::delta(vec![1]));
}
