//! Time-related protocol types.

use vstd::prelude::*;

verus! {

/// A logical gossip round.
///
/// Rounds are controlled by the caller. The core protocol never sleeps and never
/// reads the system clock.
#[derive(Clone, Copy, Debug, PartialEq, Eq, Structural, PartialOrd, Ord, Hash)]
pub struct Round(u64);

impl Round {
    /// The first gossip round.
    pub fn zero() -> (r: Round)
        ensures
            r.value() == 0,
            r == Round::spec_new(0),
    {
        Round(0)
    }

    /// The numeric value of this round.
    pub closed spec fn value(self) -> u64 {
        self.0
    }

    /// The round with the given numeric value.
    pub closed spec fn spec_new(value: u64) -> Round {
        Round(value)
    }

    /// The round built from a value has that value, and rounds are equal
    /// exactly when their values are.
    pub proof fn lemma_value(v: u64, a: Round, b: Round)
        ensures
            Round::spec_new(v).value() == v,
            (a.value() == b.value()) <==> (a == b),
    {
    }

    /// Creates a round from a numeric value.
    pub fn new(value: u64) -> (r: Self)
        ensures
            r.value() == value,
            r == Round::spec_new(value),
    {
        Round(value)
    }

    /// Returns the numeric round value.
    pub fn get(self) -> (v: u64)
        ensures
            v == self.value(),
    {
        self.0
    }

    /// Returns the display form of this round: its value in decimal.
    pub fn to_string(&self) -> (s: String)
        ensures
            s@ == crate::text::decimal(self.value() as nat),
    {
        crate::text::u64_to_decimal(self.0)
    }

    /// Returns the next round, saturating at `u64::MAX`.
    pub fn next(self) -> (r: Self)
        ensures
            r.value() == if self.value() < u64::MAX { (self.value() + 1) as u64 } else { u64::MAX },
    {
        Round(self.0.saturating_add(1))
    }
}

impl From<u64> for Round {
    fn from(value: u64) -> (r: Self)
        ensures
            r.value() == value,
    {
        Round(value)
    }
}

impl vstd::std_specs::convert::FromSpecImpl<u64> for Round {
    open spec fn obeys_from_spec() -> bool {
        true
    }

    open spec fn from_spec(v: u64) -> Round {
        Round::spec_new(v)
    }
}

/// A caller-provided monotonic timestamp in milliseconds.
#[derive(Clone, Copy, Debug, PartialEq, Eq, Structural, PartialOrd, Ord, Hash)]
pub struct Timestamp(u64);

impl Timestamp {
    /// The number of milliseconds of this timestamp.
    pub closed spec fn millis(self) -> u64 {
        self.0
    }

    /// Creates a timestamp from milliseconds.
    pub fn from_millis(value: u64) -> (t: Self)
        ensures
            t.millis() == value,
    {
        Timestamp(value)
    }

    /// Returns the timestamp as milliseconds.
    pub fn as_millis(self) -> (v: u64)
        ensures
            v == self.millis(),
    {
        self.0
    }

    /// Returns the elapsed milliseconds since an earlier timestamp.
    ///
    /// Returns `None` if `earlier` is greater than `self`, which would mean time
    /// moved backwards from the protocol's point of view.
    pub fn duration_since(self, earlier: Self) -> (d: Option<u64>)
        ensures
            d == if earlier.millis() <= self.millis() {
                Some((self.millis() - earlier.millis()) as u64)
            } else {
                None
            },
    {
        self.0.checked_sub(earlier.0)
    }

    /// Returns the display form of this timestamp, such as `123ms`.
    pub fn to_string(&self) -> (s: String)
        ensures
            s@ == crate::text::decimal(self.millis() as nat) + seq!['m', 's'],
    {
        let mut s = crate::text::u64_to_decimal(self.0);
        s.append("ms");
        proof {
            reveal_strlit("ms");
        }
        s
    }
}

} // verus!
