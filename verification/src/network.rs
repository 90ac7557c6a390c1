//! The simulated network between the nodes of a cluster: partitions, and how
//! often it loses, duplicates and delays messages.

use vstd::prelude::*;

use crate::identity::NodeId;
use crate::message::GossipMessage;
use crate::rng::{lcg_step, DeterministicRng, RandomSource};
use crate::sim::NetworkPartition;

verus! {

/// How often the simulated network does something to a message.
///
/// A rate between zero and one is stored as the bound under which a value
/// drawn from the network's random source makes the event happen.
#[derive(Clone, Copy, Debug, PartialEq, Eq, Structural)]
pub enum Chance {
    /// The event never happens; nothing is drawn.
    Never,
    /// The event always happens; nothing is drawn.
    Always,
    /// The event happens when the next drawn value is below the bound.
    Below(u64),
}

/// Asking `chance` with the random source in state `state`: whether the event
/// happens, and the state of the source afterwards.
pub open spec fn spec_roll(chance: Chance, state: u64) -> (bool, u64) {
    match chance {
        Chance::Never => (false, state),
        Chance::Always => (true, state),
        Chance::Below(bound) => {
            let v = lcg_step(state);
            (v < bound, v)
        },
    }
}

/// How a roll answers, in terms of the value drawn: `Never` and `Always`
/// draw nothing and answer no and yes; `Below(bound)` draws one value from the
/// source and answers yes exactly when that value is strictly below `bound`, so
/// of the 2^64 values a draw can give, exactly `bound` make the event happen.
pub proof fn lemma_roll_draw(chance: Chance, rng: DeterministicRng, value: u64, after: DeterministicRng)
    requires
        rng.draws(value, after),
    ensures
        chance is Never ==> spec_roll(chance, rng.spec_state()) == (false, rng.spec_state()),
        chance is Always ==> spec_roll(chance, rng.spec_state()) == (true, rng.spec_state()),
        chance matches Chance::Below(bound) ==> spec_roll(chance, rng.spec_state()) == (
            value < bound,
            after.spec_state(),
        ),
{
    DeterministicRng::lemma_draws(rng, value, after);
}

/// Asks `chance` with `rng`.
pub fn roll(chance: Chance, rng: &mut DeterministicRng) -> (b: bool)
    ensures
        (b, final(rng).spec_state()) == spec_roll(chance, old(rng).spec_state()),
        !(chance is Below) ==> *final(rng) == *old(rng) && (b <==> chance is Always),
        chance matches Chance::Below(bound) ==> old(rng).draws(final(rng).spec_state(), *final(rng))
            && (b <==> final(rng).spec_state() < bound),
{
    match chance {
        Chance::Never => false,
        Chance::Always => true,
        Chance::Below(bound) => {
            let v = rng.next_u64();
            v < bound
        },
    }
}

/// A deterministic model of unreliable network behavior.
#[derive(Debug, PartialEq, Eq)]
pub struct NetworkModel {
    loss: Chance,
    duplicate: Chance,
    delay: Chance,
    max_delay_rounds: u64,
    partitions: Vec<NetworkPartition>,
}

impl NetworkModel {
    /// How often a message is lost.
    pub closed spec fn spec_loss(self) -> Chance {
        self.loss
    }

    /// How often a message is delivered twice.
    pub closed spec fn spec_duplicate(self) -> Chance {
        self.duplicate
    }

    /// How often a message copy is delayed.
    pub closed spec fn spec_delay(self) -> Chance {
        self.delay
    }

    /// The longest delay, in rounds; no message is delayed when it is zero.
    pub closed spec fn spec_max_delay_rounds(self) -> u64 {
        self.max_delay_rounds
    }

    /// The active partitions.
    pub closed spec fn spec_partitions(self) -> Seq<NetworkPartition> {
        self.partitions@
    }

    /// Some partition cuts the link from `source` to `target`.
    pub open spec fn spec_blocks(self, source: Seq<char>, target: Seq<char>) -> bool {
        exists|i: int|
            0 <= i < self.spec_partitions().len() && #[trigger] self.spec_partitions()[i].spec_blocks(
                source,
                target,
            )
    }

    /// Creates a reliable network model: nothing is lost, duplicated or
    /// delayed, and there is no partition.
    pub fn new() -> (m: Self)
        ensures
            m.spec_loss() == Chance::Never,
            m.spec_duplicate() == Chance::Never,
            m.spec_delay() == Chance::Never,
            m.spec_max_delay_rounds() == 0,
            m.spec_partitions() == Seq::<NetworkPartition>::empty(),
    {
        NetworkModel {
            loss: Chance::Never,
            duplicate: Chance::Never,
            delay: Chance::Never,
            max_delay_rounds: 0,
            partitions: Vec::new(),
        }
    }

    /// Returns how often a message is lost.
    pub fn loss(&self) -> (c: Chance)
        ensures
            c == self.spec_loss(),
    {
        self.loss
    }

    /// Returns how often a message is delivered twice.
    pub fn duplicate(&self) -> (c: Chance)
        ensures
            c == self.spec_duplicate(),
    {
        self.duplicate
    }

    /// Returns how often a message copy is delayed.
    pub fn delay(&self) -> (c: Chance)
        ensures
            c == self.spec_delay(),
    {
        self.delay
    }

    /// Returns the maximum number of rounds a delayed message may wait.
    pub fn max_delay_rounds(&self) -> (n: u64)
        ensures
            n == self.spec_max_delay_rounds(),
    {
        self.max_delay_rounds
    }

    /// Returns active network partitions.
    pub fn partitions(&self) -> (p: &[NetworkPartition])
        ensures
            p@ == self.spec_partitions(),
    {
        self.partitions.as_slice()
    }

    /// Returns this model with a different chance of losing a message.
    pub fn with_loss(self, loss: Chance) -> (m: Self)
        ensures
            m.spec_loss() == loss,
            m.spec_duplicate() == self.spec_duplicate(),
            m.spec_delay() == self.spec_delay(),
            m.spec_max_delay_rounds() == self.spec_max_delay_rounds(),
            m.spec_partitions() == self.spec_partitions(),
    {
        NetworkModel { loss, ..self }
    }

    /// Returns this model with a different chance of delivering a message twice.
    pub fn with_duplicate(self, duplicate: Chance) -> (m: Self)
        ensures
            m.spec_loss() == self.spec_loss(),
            m.spec_duplicate() == duplicate,
            m.spec_delay() == self.spec_delay(),
            m.spec_max_delay_rounds() == self.spec_max_delay_rounds(),
            m.spec_partitions() == self.spec_partitions(),
    {
        NetworkModel { duplicate, ..self }
    }

    /// Returns this model with a different chance of delaying a message copy,
    /// by one to `max_delay_rounds` rounds.
    pub fn with_delay(self, delay: Chance, max_delay_rounds: u64) -> (m: Self)
        ensures
            m.spec_loss() == self.spec_loss(),
            m.spec_duplicate() == self.spec_duplicate(),
            m.spec_delay() == delay,
            m.spec_max_delay_rounds() == max_delay_rounds,
            m.spec_partitions() == self.spec_partitions(),
    {
        NetworkModel { delay, max_delay_rounds, ..self }
    }

    /// Returns this model with an added network partition.
    pub fn with_partition(self, partition: NetworkPartition) -> (m: Self)
        ensures
            m.spec_loss() == self.spec_loss(),
            m.spec_duplicate() == self.spec_duplicate(),
            m.spec_delay() == self.spec_delay(),
            m.spec_max_delay_rounds() == self.spec_max_delay_rounds(),
            m.spec_partitions() == self.spec_partitions().push(partition),
    {
        let mut m = self;
        m.partitions.push(partition);
        m
    }

    /// Returns this model with all network partitions removed.
    pub fn without_partitions(self) -> (m: Self)
        ensures
            m.spec_loss() == self.spec_loss(),
            m.spec_duplicate() == self.spec_duplicate(),
            m.spec_delay() == self.spec_delay(),
            m.spec_max_delay_rounds() == self.spec_max_delay_rounds(),
            m.spec_partitions() == Seq::<NetworkPartition>::empty(),
    {
        NetworkModel { partitions: Vec::new(), ..self }
    }

    /// Returns `true` if some partition cuts the link from `source` to `target`.
    pub fn blocks(&self, source: &NodeId, target: &NodeId) -> (b: bool)
        ensures
            b == self.spec_blocks(source@, target@),
    {
        let mut i: usize = 0;
        while i < self.partitions.len()
            invariant
                i <= self.partitions@.len(),
                forall|j: int| 0 <= j < i ==> !#[trigger] self.partitions@[j].spec_blocks(source@, target@),
            decreases self.partitions@.len() - i,
        {
            if self.partitions[i].blocks(source, target) {
                assert(self.spec_partitions()[i as int].spec_blocks(source@, target@));
                return true;
            }
            i = i + 1;
        }
        false
    }
}

/// `a` and `b` lose, duplicate and delay messages alike, and cut the same
/// links.
pub open spec fn same_network(a: NetworkModel, b: NetworkModel) -> bool {
    &&& a.spec_loss() == b.spec_loss()
    &&& a.spec_duplicate() == b.spec_duplicate()
    &&& a.spec_delay() == b.spec_delay()
    &&& a.spec_max_delay_rounds() == b.spec_max_delay_rounds()
    &&& a.spec_partitions().len() == b.spec_partitions().len()
    &&& forall|i: int|
        0 <= i < b.spec_partitions().len() ==> (#[trigger] a.spec_partitions()[i]).spec_side_a()
            == b.spec_partitions()[i].spec_side_a() && a.spec_partitions()[i].spec_side_b()
            == b.spec_partitions()[i].spec_side_b()
}

/// Networks that behave alike cut the same links.
pub proof fn lemma_same_network_blocks(a: NetworkModel, b: NetworkModel, source: Seq<char>, target: Seq<char>)
    requires
        same_network(a, b),
    ensures
        a.spec_blocks(source, target) == b.spec_blocks(source, target),
{
    if a.spec_blocks(source, target) {
        let i = choose|i: int|
            0 <= i < a.spec_partitions().len() && #[trigger] a.spec_partitions()[i].spec_blocks(source, target);
        assert(b.spec_partitions()[i].spec_blocks(source, target));
    }
    if b.spec_blocks(source, target) {
        let i = choose|i: int|
            0 <= i < b.spec_partitions().len() && #[trigger] b.spec_partitions()[i].spec_blocks(source, target);
        assert(a.spec_partitions()[i].spec_blocks(source, target));
    }
}

impl Clone for NetworkModel {
    fn clone(&self) -> (m: Self)
        ensures
            same_network(m, *self),
    {
        let mut partitions: Vec<NetworkPartition> = Vec::new();
        let mut i: usize = 0;
        while i < self.partitions.len()
            invariant
                i <= self.partitions@.len(),
                partitions@.len() == i,
                forall|j: int|
                    0 <= j < i ==> (#[trigger] partitions@[j]).spec_side_a() == self.partitions@[j].spec_side_a()
                        && partitions@[j].spec_side_b() == self.partitions@[j].spec_side_b(),
            decreases self.partitions@.len() - i,
        {
            partitions.push(self.partitions[i].clone());
            i = i + 1;
        }
        NetworkModel {
            loss: self.loss,
            duplicate: self.duplicate,
            delay: self.delay,
            max_delay_rounds: self.max_delay_rounds,
            partitions,
        }
    }
}

impl Default for NetworkModel {
    fn default() -> (m: Self)
        ensures
            m.spec_loss() == Chance::Never,
            m.spec_duplicate() == Chance::Never,
            m.spec_delay() == Chance::Never,
            m.spec_max_delay_rounds() == 0,
            m.spec_partitions() == Seq::<NetworkPartition>::empty(),
    {
        NetworkModel::new()
    }
}

} // verus!
