use gossiper::{ConfigError, GossipConfig};

#[test]
fn default_config_is_valid() {
    let config = GossipConfig::default();

    assert_eq!(config.fanout(), 3);
    assert_eq!(config.max_rumors(), 1_024);
}

#[test]
fn accepts_positive_values() {
    let config = GossipConfig::new(5, 100).expect("valid config");

    assert_eq!(config.fanout(), 5);
    assert_eq!(config.max_rumors(), 100);
}

#[test]
fn rejects_zero_fanout() {
    let error = GossipConfig::new(0, 100).expect_err("zero fanout should fail");

    assert_eq!(error, ConfigError::ZeroFanout);
    assert_eq!(error.to_string(), "fanout must be greater than zero");
}

#[test]
fn rejects_zero_max_rumors() {
    let error = GossipConfig::new(3, 0).expect_err("zero max rumors should fail");

    assert_eq!(error, ConfigError::ZeroMaxRumors);
    assert_eq!(error.to_string(), "max_rumors must be greater than zero");
}

#[test]
fn default_config_has_rumor_retention() {
    let config = GossipConfig::default();

    assert_eq!(config.rumor_retention_rounds(), 8);
}

#[test]
fn can_override_rumor_retention_rounds() {
    let config = GossipConfig::default()
        .with_rumor_retention_rounds(12)
        .expect("valid retention");

    assert_eq!(config.rumor_retention_rounds(), 12);
}

#[test]
fn rejects_zero_rumor_retention_rounds() {
    let error = GossipConfig::default()
        .with_rumor_retention_rounds(0)
        .expect_err("zero retention should fail");

    assert_eq!(error, ConfigError::ZeroRumorRetentionRounds);
    assert_eq!(
        error.to_string(),
        "rumor_retention_rounds must be greater than zero"
    );
}

#[test]
fn default_config_has_max_rumors_per_message() {
    let config = GossipConfig::default();

    assert_eq!(config.max_rumors_per_message(), 32);
}

#[test]
fn can_override_max_rumors_per_message() {
    let config = GossipConfig::default()
        .with_max_rumors_per_message(7)
        .expect("valid per-message limit");

    assert_eq!(config.max_rumors_per_message(), 7);
}

#[test]
fn rejects_zero_max_rumors_per_message() {
    let error = GossipConfig::default()
        .with_max_rumors_per_message(0)
        .expect_err("zero per-message limit should fail");

    assert_eq!(error, ConfigError::ZeroMaxRumorsPerMessage);
    assert_eq!(
        error.to_string(),
        "max_rumors_per_message must be greater than zero"
    );
}

#[test]
fn new_config_keeps_default_retention_and_message_limit() {
    let config = GossipConfig::new(2, 64).expect("valid config");

    assert_eq!(config.rumor_retention_rounds(), 8);
    assert_eq!(config.max_rumors_per_message(), 32);
}

#[test]
fn rejects_zero_fanout_before_zero_max_rumors() {
    assert_eq!(GossipConfig::new(0, 0), Err(ConfigError::ZeroFanout));
}
