//! Configuration for gossip protocol components.

use vstd::prelude::*;

verus! {

/// Configuration for gossip behavior.
///
/// Every limit of a configuration is greater than zero (its type invariant, `wf`).
#[derive(Clone, Copy, Debug, PartialEq, Eq, Structural)]
pub struct GossipConfig {
    fanout: usize,
    max_rumors: usize,
    rumor_retention_rounds: u64,
    max_rumors_per_message: usize,
}

/// Error returned when creating an invalid gossip configuration.
#[derive(Clone, Copy, Debug, PartialEq, Eq, Structural)]
pub enum ConfigError {
    /// Fanout must be greater than zero.
    ZeroFanout,
    /// Maximum retained rumors must be greater than zero.
    ZeroMaxRumors,
    /// Rumor retention must be greater than zero.
    ZeroRumorRetentionRounds,
    /// Per-message rumor limit must be greater than zero.
    ZeroMaxRumorsPerMessage,
}

impl ConfigError {
    /// The message that describes an error.
    pub open spec fn spec_message(self) -> Seq<char> {
        match self {
            ConfigError::ZeroFanout => "fanout must be greater than zero"@,
            ConfigError::ZeroMaxRumors => "max_rumors must be greater than zero"@,
            ConfigError::ZeroRumorRetentionRounds => "rumor_retention_rounds must be greater than zero"@,
            ConfigError::ZeroMaxRumorsPerMessage => "max_rumors_per_message must be greater than zero"@,
        }
    }

    /// Returns the message that describes this error.
    pub fn to_string(&self) -> (s: String)
        ensures
            s@ == self.spec_message(),
    {
        match self {
            ConfigError::ZeroFanout => String::from_str("fanout must be greater than zero"),
            ConfigError::ZeroMaxRumors => String::from_str("max_rumors must be greater than zero"),
            ConfigError::ZeroRumorRetentionRounds => String::from_str(
                "rumor_retention_rounds must be greater than zero",
            ),
            ConfigError::ZeroMaxRumorsPerMessage => String::from_str(
                "max_rumors_per_message must be greater than zero",
            ),
        }
    }
}

impl GossipConfig {
    /// Number of peers contacted per gossip round.
    pub closed spec fn spec_fanout(self) -> usize {
        self.fanout
    }

    /// Maximum number of rumors retained by a node.
    pub closed spec fn spec_max_rumors(self) -> usize {
        self.max_rumors
    }

    /// Number of rounds a rumor is kept after its creation round.
    pub closed spec fn spec_rumor_retention_rounds(self) -> u64 {
        self.rumor_retention_rounds
    }

    /// Maximum number of rumors included in one gossip message.
    pub closed spec fn spec_max_rumors_per_message(self) -> usize {
        self.max_rumors_per_message
    }

    /// Every limit is greater than zero.
    #[verifier::type_invariant]
    closed spec fn limits_positive(self) -> bool {
        self.wf()
    }

    /// Every limit is greater than zero.
    pub open spec fn wf(self) -> bool {
        &&& self.spec_fanout() > 0
        &&& self.spec_max_rumors() > 0
        &&& self.spec_rumor_retention_rounds() > 0
        &&& self.spec_max_rumors_per_message() > 0
    }

    /// Creates a validated gossip configuration, with a retention window of 8
    /// rounds and at most 32 rumors per message.
    pub fn new(fanout: usize, max_rumors: usize) -> (r: Result<Self, ConfigError>)
        ensures
            fanout == 0 ==> r == Err::<Self, ConfigError>(ConfigError::ZeroFanout),
            fanout != 0 && max_rumors == 0 ==> r == Err::<Self, ConfigError>(
                ConfigError::ZeroMaxRumors,
            ),
            fanout != 0 && max_rumors != 0 ==> r is Ok,
            r matches Ok(c) ==> {
                &&& c.wf()
                &&& c.spec_fanout() == fanout
                &&& c.spec_max_rumors() == max_rumors
                &&& c.spec_rumor_retention_rounds() == 8
                &&& c.spec_max_rumors_per_message() == 32
            },
    {
        if fanout == 0 {
            return Err(ConfigError::ZeroFanout);
        }
        if max_rumors == 0 {
            return Err(ConfigError::ZeroMaxRumors);
        }
        Ok(GossipConfig { fanout, max_rumors, rumor_retention_rounds: 8, max_rumors_per_message: 32 })
    }

    /// Returns the number of peers contacted per gossip round.
    pub fn fanout(&self) -> (v: usize)
        ensures
            v == self.spec_fanout(),
            v > 0,
    {
        proof {
            use_type_invariant(self);
        }
        self.fanout
    }

    /// Returns the maximum number of rumors retained by the node.
    pub fn max_rumors(&self) -> (v: usize)
        ensures
            v == self.spec_max_rumors(),
            v > 0,
    {
        proof {
            use_type_invariant(self);
        }
        self.max_rumors
    }

    /// Returns how many rounds a rumor is kept after its creation round.
    pub fn rumor_retention_rounds(&self) -> (v: u64)
        ensures
            v == self.spec_rumor_retention_rounds(),
            v > 0,
    {
        proof {
            use_type_invariant(self);
        }
        self.rumor_retention_rounds
    }

    /// Returns the maximum number of rumors included in one gossip message.
    pub fn max_rumors_per_message(&self) -> (v: usize)
        ensures
            v == self.spec_max_rumors_per_message(),
            v > 0,
    {
        proof {
            use_type_invariant(self);
        }
        self.max_rumors_per_message
    }

    /// Returns this configuration with a different rumor retention window.
    pub fn with_rumor_retention_rounds(self, rumor_retention_rounds: u64) -> (r: Result<
        Self,
        ConfigError,
    >)
        ensures
            rumor_retention_rounds == 0 ==> r == Err::<Self, ConfigError>(
                ConfigError::ZeroRumorRetentionRounds,
            ),
            rumor_retention_rounds != 0 ==> r is Ok,
            r matches Ok(c) ==> {
                &&& c.spec_fanout() == self.spec_fanout()
                &&& c.spec_max_rumors() == self.spec_max_rumors()
                &&& c.spec_rumor_retention_rounds() == rumor_retention_rounds
                &&& c.spec_max_rumors_per_message() == self.spec_max_rumors_per_message()
                &&& c.wf()
            },
    {
        proof {
            use_type_invariant(&self);
        }
        if rumor_retention_rounds == 0 {
            return Err(ConfigError::ZeroRumorRetentionRounds);
        }
        Ok(
            GossipConfig {
                fanout: self.fanout,
                max_rumors: self.max_rumors,
                rumor_retention_rounds,
                max_rumors_per_message: self.max_rumors_per_message,
            },
        )
    }

    /// Returns this configuration with a different per-message rumor limit.
    pub fn with_max_rumors_per_message(self, max_rumors_per_message: usize) -> (r: Result<
        Self,
        ConfigError,
    >)
        ensures
            max_rumors_per_message == 0 ==> r == Err::<Self, ConfigError>(
                ConfigError::ZeroMaxRumorsPerMessage,
            ),
            max_rumors_per_message != 0 ==> r is Ok,
            r matches Ok(c) ==> {
                &&& c.spec_fanout() == self.spec_fanout()
                &&& c.spec_max_rumors() == self.spec_max_rumors()
                &&& c.spec_rumor_retention_rounds() == self.spec_rumor_retention_rounds()
                &&& c.spec_max_rumors_per_message() == max_rumors_per_message
                &&& c.wf()
            },
    {
        proof {
            use_type_invariant(&self);
        }
        if max_rumors_per_message == 0 {
            return Err(ConfigError::ZeroMaxRumorsPerMessage);
        }
        Ok(
            GossipConfig {
                fanout: self.fanout,
                max_rumors: self.max_rumors,
                rumor_retention_rounds: self.rumor_retention_rounds,
                max_rumors_per_message,
            },
        )
    }
}

impl Default for GossipConfig {
    /// Fanout 3, 1024 retained rumors, 8 rounds of retention, 32 rumors per message.
    fn default() -> (c: Self)
        ensures
            c.wf(),
            c.spec_fanout() == 3,
            c.spec_max_rumors() == 1024,
            c.spec_rumor_retention_rounds() == 8,
            c.spec_max_rumors_per_message() == 32,
    {
        GossipConfig { fanout: 3, max_rumors: 1_024, rumor_retention_rounds: 8, max_rumors_per_message: 32 }
    }
}

} // verus!
