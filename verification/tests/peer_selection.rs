use gossiper::{choose_distinct_peers, DeterministicRng, NodeId};
use std::collections::BTreeSet;

fn node(value: &str) -> NodeId {
    NodeId::from(value)
}

#[test]
fn returns_empty_when_fanout_is_zero() {
    let peers = vec![node("a"), node("b")];
    let mut rng = DeterministicRng::new(1);

    let selected = choose_distinct_peers(&mut rng, &node("a"), &peers, 0);

    assert!(selected.is_empty());
}

#[test]
fn never_selects_self() {
    let self_id = node("a");
    let peers = vec![node("a"), node("b"), node("c")];
    let mut rng = DeterministicRng::new(1);

    let selected = choose_distinct_peers(&mut rng, &self_id, &peers, 2);

    assert!(!selected.contains(&self_id));
}

#[test]
fn does_not_return_duplicates() {
    let self_id = node("a");
    let peers = vec![node("a"), node("b"), node("c"), node("d"), node("e")];
    let mut rng = DeterministicRng::new(2);

    let selected = choose_distinct_peers(&mut rng, &self_id, &peers, 3);
    let unique: BTreeSet<_> = selected.iter().collect();

    assert_eq!(selected.len(), unique.len());
}

#[test]
fn caps_selection_at_available_peers() {
    let self_id = node("a");
    let peers = vec![node("a"), node("b"), node("c")];
    let mut rng = DeterministicRng::new(3);

    let selected = choose_distinct_peers(&mut rng, &self_id, &peers, 10);

    assert_eq!(selected.len(), 2);
}

#[test]
fn same_seed_produces_same_selection() {
    let self_id = node("a");
    let peers = vec![node("a"), node("b"), node("c"), node("d"), node("e")];

    let mut rng_a = DeterministicRng::new(99);
    let mut rng_b = DeterministicRng::new(99);

    let selected_a = choose_distinct_peers(&mut rng_a, &self_id, &peers, 3);
    let selected_b = choose_distinct_peers(&mut rng_b, &self_id, &peers, 3);

    assert_eq!(selected_a, selected_b);
}

#[test]
fn empty_peer_list_selects_nothing() {
    let mut rng = DeterministicRng::new(5);

    assert!(choose_distinct_peers(&mut rng, &node("a"), &[], 3).is_empty());
}

#[test]
fn selection_follows_partial_shuffle_of_candidates() {
    // Seed 0 draws 1, then 6364136223846793006: with 3 candidates the first
    // step keeps "b" (1 % 3 == 1 swaps b and c), the second step draws among two.
    let peers = vec![node("a"), node("b"), node("c"), node("d")];
    let mut rng = DeterministicRng::new(0);

    let selected = choose_distinct_peers(&mut rng, &node("a"), &peers, 1);

    assert_eq!(selected, vec![node("c")]);
}

#[test]
fn repeated_peer_names_are_chosen_once() {
    let self_id = node("a");
    let peers = vec![node("b"), node("b")];
    let mut rng = DeterministicRng::new(5);

    let selected = choose_distinct_peers(&mut rng, &self_id, &peers, 2);

    assert_eq!(selected, vec![node("b")]);
}

#[test]
fn selection_counts_distinct_names_other_than_self() {
    let self_id = node("a");
    let peers = vec![node("c"), node("a"), node("b"), node("c"), node("b"), node("a")];

    for seed in 0..20 {
        let mut rng = DeterministicRng::new(seed);
        let selected = choose_distinct_peers(&mut rng, &self_id, &peers, 10);
        let unique: BTreeSet<_> = selected.iter().collect();

        assert_eq!(selected.len(), 2);
        assert_eq!(unique.len(), 2);
        assert!(!selected.contains(&self_id));
    }

    let mut rng = DeterministicRng::new(7);
    assert_eq!(choose_distinct_peers(&mut rng, &self_id, &peers, 1).len(), 1);
}
