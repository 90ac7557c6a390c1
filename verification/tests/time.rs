use gossiper::{Round, Timestamp};

#[test]
fn round_starts_at_zero() {
    assert_eq!(Round::zero().get(), 0);
}

#[test]
fn round_can_advance() {
    assert_eq!(Round::new(7).next().get(), 8);
}

#[test]
fn round_next_saturates() {
    assert_eq!(Round::new(u64::MAX).next().get(), u64::MAX);
}

#[test]
fn timestamp_reports_elapsed_duration() {
    let start = Timestamp::from_millis(100);
    let end = Timestamp::from_millis(250);

    assert_eq!(end.duration_since(start), Some(150));
}

#[test]
fn timestamp_detects_backwards_time() {
    let start = Timestamp::from_millis(250);
    let end = Timestamp::from_millis(100);

    assert_eq!(end.duration_since(start), None);
}

#[test]
fn round_and_timestamp_display() {
    assert_eq!(Round::new(3).to_string(), "3");
    assert_eq!(Timestamp::from_millis(123).to_string(), "123ms");
}
