//! Peer selection utilities.

use vstd::prelude::*;

use crate::identity::NodeId;
use crate::rng::{DeterministicRng, RandomSource};

verus! {

/// The peers of `peers` other than the node named `self_name`, in order.
pub open spec fn other_peers(self_name: Seq<char>, peers: Seq<NodeId>) -> Seq<NodeId>
    decreases peers.len(),
{
    if peers.len() == 0 {
        Seq::empty()
    } else {
        let rest = other_peers(self_name, peers.drop_last());
        if peers.last()@ == self_name {
            rest
        } else {
            rest.push(peers.last())
        }
    }
}

/// No two entries of `s` name the same node.
pub open spec fn distinct_names(s: Seq<NodeId>) -> bool {
    forall|i: int, j: int| 0 <= i < s.len() && 0 <= j < s.len() && i != j ==> s[i]@ != s[j]@
}

/// Some entry of `s` is named `name`.
pub open spec fn has_name(s: Seq<NodeId>, name: Seq<char>) -> bool {
    exists|i: int| 0 <= i < s.len() && #[trigger] s[i]@ == name
}

/// The peers a node may choose from: the first entry of `peers` with each
/// name, other than the node named `self_name`, in order.
pub open spec fn candidates(self_name: Seq<char>, peers: Seq<NodeId>) -> Seq<NodeId>
    decreases peers.len(),
{
    if peers.len() == 0 {
        Seq::empty()
    } else {
        let rest = candidates(self_name, peers.drop_last());
        if peers.last()@ == self_name || has_name(rest, peers.last()@) {
            rest
        } else {
            rest.push(peers.last())
        }
    }
}

/// The candidates are peers other than the node itself, no two of them share
/// a name, and every name of `peers` other than the node's own is among them.
pub proof fn lemma_candidates(self_name: Seq<char>, peers: Seq<NodeId>)
    ensures
        candidates(self_name, peers).len() <= peers.len(),
        forall|x: NodeId| #[trigger]
            candidates(self_name, peers).contains(x) ==> peers.contains(x) && x@ != self_name,
        distinct_names(candidates(self_name, peers)),
        forall|name: Seq<char>| #[trigger]
            has_name(candidates(self_name, peers), name) <==> has_name(peers, name) && name != self_name,
    decreases peers.len(),
{
    if peers.len() > 0 {
        let rest = peers.drop_last();
        lemma_candidates(self_name, rest);
        let c = candidates(self_name, rest);
        let last = peers.last();
        assert forall|x: NodeId| #[trigger] rest.contains(x) implies peers.contains(x) by {
            let k = choose|k: int| 0 <= k < rest.len() && rest[k] == x;
            assert(peers[k] == x);
        }
        assert(peers.contains(last)) by {
            assert(peers[peers.len() - 1] == last);
        }
        assert forall|name: Seq<char>| has_name(peers, name) <==> has_name(rest, name) || last@ == name by {
            if has_name(peers, name) {
                let k = choose|k: int| 0 <= k < peers.len() && #[trigger] peers[k]@ == name;
                if k < rest.len() {
                    assert(rest[k]@ == name);
                }
            }
            if has_name(rest, name) {
                let k = choose|k: int| 0 <= k < rest.len() && #[trigger] rest[k]@ == name;
                assert(peers[k]@ == name);
            }
            if last@ == name {
                assert(peers[peers.len() - 1]@ == name);
            }
        }
        if !(last@ == self_name || has_name(c, last@)) {
            let d = c.push(last);
            assert forall|x: NodeId| #[trigger] d.contains(x) implies peers.contains(x) && x@ != self_name by {
                let k = choose|k: int| 0 <= k < d.len() && d[k] == x;
                if k < c.len() {
                    assert(c.contains(x));
                }
            }
            assert forall|a: int, b: int| 0 <= a < d.len() && 0 <= b < d.len() && a != b implies d[a]@ != d[b]@ by {
                if a == c.len() {
                    assert(!(c[b]@ == last@));
                } else if b == c.len() {
                    assert(!(c[a]@ == last@));
                }
            }
            assert forall|name: Seq<char>| #[trigger] has_name(d, name) <==> has_name(c, name) || last@ == name by {
                if has_name(d, name) {
                    let k = choose|k: int| 0 <= k < d.len() && #[trigger] d[k]@ == name;
                    if k < c.len() {
                        assert(c[k]@ == name);
                    }
                }
                if has_name(c, name) {
                    let k = choose|k: int| 0 <= k < c.len() && #[trigger] c[k]@ == name;
                    assert(d[k]@ == name);
                }
                if last@ == name {
                    assert(d[c.len() as int]@ == name);
                }
            }
        }
    }
}

/// Peer lists that name the same nodes give candidates that name the same
/// nodes.
proof fn lemma_candidates_names(self_name: Seq<char>, a: Seq<NodeId>, b: Seq<NodeId>)
    requires
        same_names(a, b),
    ensures
        same_names(candidates(self_name, a), candidates(self_name, b)),
    decreases a.len(),
{
    if a.len() > 0 {
        assert(same_names(a.drop_last(), b.drop_last())) by {
            assert forall|i: int| 0 <= i < a.len() - 1 implies #[trigger] a.drop_last()[i]@ == b.drop_last()[i]@ by {
                assert(a[i]@ == b[i]@);
            }
        }
        lemma_candidates_names(self_name, a.drop_last(), b.drop_last());
        let (ca, cb) = (candidates(self_name, a.drop_last()), candidates(self_name, b.drop_last()));
        let name = a[a.len() - 1]@;
        assert(b[b.len() - 1]@ == name);
        assert(has_name(ca, name) == has_name(cb, name)) by {
            if has_name(ca, name) {
                let k = choose|k: int| 0 <= k < ca.len() && #[trigger] ca[k]@ == name;
                assert(cb[k]@ == name);
            }
            if has_name(cb, name) {
                let k = choose|k: int| 0 <= k < cb.len() && #[trigger] cb[k]@ == name;
                assert(ca[k]@ == name);
            }
        }
        if !(name == self_name || has_name(ca, name)) {
            let (da, db) = (ca.push(a.last()), cb.push(b.last()));
            assert forall|i: int| 0 <= i < da.len() implies #[trigger] da[i]@ == db[i]@ by {
                if i < ca.len() {
                    assert(ca[i]@ == cb[i]@);
                }
            }
        }
    }
}

/// `s` with the entries at `i` and `j` exchanged.
pub open spec fn swap_entries<A>(s: Seq<A>, i: int, j: int) -> Seq<A> {
    s.update(i, s[j]).update(j, s[i])
}

/// The candidates after `k` steps of the partial Fisher-Yates shuffle driven
/// by `draws`: step `i` exchanges entry `i` with entry `i + draws[i] mod (len - i)`.
pub open spec fn shuffle_with(cands: Seq<NodeId>, draws: Seq<u64>, k: nat) -> Seq<NodeId>
    decreases k,
{
    if k == 0 {
        cands
    } else {
        let c = shuffle_with(cands, draws, (k - 1) as nat);
        let i = k - 1;
        let j = i + ((draws[i] as usize) % ((c.len() - i) as usize)) as int;
        swap_entries(c, i, j)
    }
}

/// The smaller of two numbers.
pub open spec fn min_nat(a: nat, b: nat) -> nat {
    if a <= b { a } else { b }
}

/// How many values `choose_distinct_peers` draws.
pub open spec fn draws_needed(self_name: Seq<char>, peers: Seq<NodeId>, fanout: nat) -> nat {
    if fanout == 0 || peers.len() == 0 {
        0
    } else {
        min_nat(fanout, candidates(self_name, peers).len())
    }
}

/// The peers chosen by `choose_distinct_peers` with the drawn values `draws`.
pub open spec fn spec_select(self_name: Seq<char>, peers: Seq<NodeId>, fanout: nat, draws: Seq<u64>) -> Seq<NodeId> {
    if fanout == 0 || peers.len() == 0 {
        Seq::empty()
    } else {
        let cands = candidates(self_name, peers);
        let limit = min_nat(fanout, cands.len());
        shuffle_with(cands, draws, limit).take(limit as int)
    }
}

/// `states` are the states of a random source that drew `draws`, one after another.
pub open spec fn draw_trace<R: RandomSource>(states: Seq<R>, draws: Seq<u64>) -> bool {
    &&& states.len() == draws.len() + 1
    &&& forall|i: int| 0 <= i < draws.len() ==> #[trigger] states[i].draws(draws[i], states[i + 1])
}

/// A shuffle keeps the length and the entries, and keeps entries distinct.
pub proof fn lemma_shuffle_with(cands: Seq<NodeId>, draws: Seq<u64>, k: nat)
    requires
        k <= cands.len(),
        cands.len() <= usize::MAX,
    ensures
        shuffle_with(cands, draws, k).len() == cands.len(),
        forall|x: NodeId| #[trigger] shuffle_with(cands, draws, k).contains(x) ==> cands.contains(x),
        distinct_names(cands) ==> distinct_names(shuffle_with(cands, draws, k)),
    decreases k,
{
    if k > 0 {
        lemma_shuffle_with(cands, draws, (k - 1) as nat);
        let c = shuffle_with(cands, draws, (k - 1) as nat);
        let i = k - 1;
        let j = i + ((draws[i] as usize) % ((c.len() - i) as usize)) as int;
        let s = swap_entries(c, i, j);
        assert(i <= j < c.len());
        assert forall|x: NodeId| #[trigger] s.contains(x) implies cands.contains(x) by {
            let m = choose|m: int| 0 <= m < s.len() && s[m] == x;
            if m == i {
                assert(c.contains(c[j]));
            } else if m == j {
                assert(c.contains(c[i]));
            } else {
                assert(c.contains(c[m]));
            }
        }
        if distinct_names(cands) {
            assert forall|a: int, b: int|
                0 <= a < s.len() && 0 <= b < s.len() && a != b implies s[a]@ != s[b]@ by {
                let pa = if a == i { j } else if a == j { i } else { a };
                let pb = if b == i { j } else if b == j { i } else { b };
                assert(s[a] == c[pa]);
                assert(s[b] == c[pb]);
            }
        }
    }
}

/// The shuffle's later steps do not change the entries already fixed.
proof fn lemma_shuffle_prefix(cands: Seq<NodeId>, draws: Seq<u64>, k: nat)
    requires
        k < cands.len(),
        cands.len() <= usize::MAX,
    ensures
        shuffle_with(cands, draws, k + 1).take(k as int) == shuffle_with(cands, draws, k).take(k as int),
{
    lemma_shuffle_with(cands, draws, k);
    let c = shuffle_with(cands, draws, k);
    let j = k + ((draws[k as int] as usize) % ((c.len() - k) as usize)) as int;
    assert(k <= j < c.len());
    assert(shuffle_with(cands, draws, k + 1) == swap_entries(c, k as int, j));
    assert(shuffle_with(cands, draws, k + 1).take(k as int) =~= c.take(k as int));
}

/// Whatever values are drawn, the chosen peers are peers other than the node
/// itself and no two of them share a name; when `fanout` and `peers` are not
/// empty there are exactly `min(fanout, number of names among peers other than
/// the node's own)` of them, and none otherwise.
pub proof fn lemma_chosen_peers(self_name: Seq<char>, peers: Seq<NodeId>, fanout: nat, draws: Seq<u64>)
    requires
        peers.len() <= usize::MAX,
    ensures
        ({
            let chosen = spec_select(self_name, peers, fanout, draws);
            &&& chosen.len() == draws_needed(self_name, peers, fanout)
            &&& chosen.len() <= fanout
            &&& forall|x: NodeId| #[trigger] chosen.contains(x) ==> peers.contains(x) && x@ != self_name
            &&& distinct_names(chosen)
        }),
        fanout != 0 && peers.len() != 0 ==> draws_needed(self_name, peers, fanout) == min_nat(
            fanout,
            candidates(self_name, peers).len(),
        ),
        forall|name: Seq<char>| #[trigger]
            has_name(candidates(self_name, peers), name) <==> has_name(peers, name) && name != self_name,
{
    lemma_candidates(self_name, peers);
    if fanout != 0 && peers.len() != 0 {
        let cands = candidates(self_name, peers);
        let limit = min_nat(fanout, cands.len());
        lemma_shuffle_with(cands, draws, limit);
        let c = shuffle_with(cands, draws, limit);
        let chosen = c.take(limit as int);
        assert forall|x: NodeId| #[trigger] chosen.contains(x) implies peers.contains(x) && x@
            != self_name by {
            let m = choose|m: int| 0 <= m < chosen.len() && chosen[m] == x;
            assert(c.contains(c[m]));
            assert(cands.contains(x));
        }
        assert forall|a: int, b: int| 0 <= a < chosen.len() && 0 <= b < chosen.len() && a != b implies chosen[a]@
            != chosen[b]@ by {
            assert(chosen[a] == c[a] && chosen[b] == c[b]);
        }
    }
}

/// A deterministic generator draws the same values, and ends in the same
/// state, from the same starting state.
pub proof fn lemma_deterministic_draws(
    states_a: Seq<DeterministicRng>,
    draws_a: Seq<u64>,
    states_b: Seq<DeterministicRng>,
    draws_b: Seq<u64>,
)
    requires
        draw_trace(states_a, draws_a),
        draw_trace(states_b, draws_b),
        states_a[0].spec_state() == states_b[0].spec_state(),
        draws_a.len() == draws_b.len(),
    ensures
        draws_a == draws_b,
        states_a.last() == states_b.last(),
    decreases draws_a.len(),
{
    let n = draws_a.len();
    if n == 0 {
        DeterministicRng::lemma_state_determines(states_a[0], states_b[0]);
    } else {
        let sa = states_a.drop_last();
        let sb = states_b.drop_last();
        assert forall|i: int| 0 <= i < n - 1 implies #[trigger] sa[i].draws(draws_a.drop_last()[i], sa[i + 1]) by {
            assert(states_a[i].draws(draws_a[i], states_a[i + 1]));
        }
        assert forall|i: int| 0 <= i < n - 1 implies #[trigger] sb[i].draws(draws_b.drop_last()[i], sb[i + 1]) by {
            assert(states_b[i].draws(draws_b[i], states_b[i + 1]));
        }
        lemma_deterministic_draws(sa, draws_a.drop_last(), sb, draws_b.drop_last());
        let k = n - 1;
        assert(states_a[k].draws(draws_a[k], states_a[k + 1]));
        assert(states_b[k].draws(draws_b[k], states_b[k + 1]));
        DeterministicRng::lemma_draws(states_a[k], draws_a[k], states_a[k + 1]);
        DeterministicRng::lemma_draws(states_b[k], draws_b[k], states_b[k + 1]);
        assert(sa.last() == states_a[k]);
        assert(sb.last() == states_b[k]);
        assert(draws_a[k] == draws_b[k]);
        DeterministicRng::lemma_state_determines(states_a[k + 1], states_b[k + 1]);
        assert forall|i: int| 0 <= i < n implies draws_a[i] == draws_b[i] by {
            if i < k {
                assert(draws_a.drop_last()[i] == draws_b.drop_last()[i]);
            }
        }
        assert(draws_a =~= draws_b);
    }
}

/// `a` and `b` name the same nodes, position by position.
pub open spec fn same_names(a: Seq<NodeId>, b: Seq<NodeId>) -> bool {
    &&& a.len() == b.len()
    &&& forall|i: int| 0 <= i < a.len() ==> #[trigger] a[i]@ == b[i]@
}

pub proof fn lemma_other_peers_names(self_name: Seq<char>, a: Seq<NodeId>, b: Seq<NodeId>)
    requires
        same_names(a, b),
    ensures
        same_names(other_peers(self_name, a), other_peers(self_name, b)),
    decreases a.len(),
{
    if a.len() > 0 {
        assert(same_names(a.drop_last(), b.drop_last())) by {
            assert forall|i: int| 0 <= i < a.len() - 1 implies #[trigger] a.drop_last()[i]@ == b.drop_last()[i]@ by {
                assert(a[i]@ == b[i]@);
            }
        }
        lemma_other_peers_names(self_name, a.drop_last(), b.drop_last());
        assert(a[a.len() - 1]@ == b[b.len() - 1]@);
    }
}

proof fn lemma_shuffle_names(a: Seq<NodeId>, b: Seq<NodeId>, draws: Seq<u64>, k: nat)
    requires
        same_names(a, b),
        k <= a.len(),
        a.len() <= usize::MAX,
    ensures
        shuffle_with(a, draws, k).len() == a.len(),
        same_names(shuffle_with(a, draws, k), shuffle_with(b, draws, k)),
    decreases k,
{
    if k > 0 {
        lemma_shuffle_names(a, b, draws, (k - 1) as nat);
        let ca = shuffle_with(a, draws, (k - 1) as nat);
        let cb = shuffle_with(b, draws, (k - 1) as nat);
        let i = k - 1;
        let j = i + ((draws[i] as usize) % ((ca.len() - i) as usize)) as int;
        assert(i <= j < ca.len()) by {
            assert(((draws[i] as usize) % ((ca.len() - i) as usize)) < ca.len() - i);
        }
        let (sa, sb) = (swap_entries(ca, i, j), swap_entries(cb, i, j));
        assert(sa.len() == ca.len() && sb.len() == cb.len());
        assert forall|x: int| 0 <= x < sa.len() implies #[trigger] sa[x]@ == sb[x]@ by {
            assert(ca[i]@ == cb[i]@ && ca[j]@ == cb[j]@);
            if x == j {
                assert(sa[x] == ca[i] && sb[x] == cb[i]);
            } else if x == i {
                assert(sa[x] == ca[j] && sb[x] == cb[j]);
            } else {
                assert(sa[x] == ca[x] && sb[x] == cb[x]);
                assert(ca[x]@ == cb[x]@);
            }
        }
    }
}

/// Peer lists that name the same nodes give the same number of draws and,
/// for the same draws, choices that name the same nodes.
pub proof fn lemma_select_names(self_name: Seq<char>, a: Seq<NodeId>, b: Seq<NodeId>, fanout: nat, draws: Seq<u64>)
    requires
        same_names(a, b),
        a.len() <= usize::MAX,
    ensures
        draws_needed(self_name, a, fanout) == draws_needed(self_name, b, fanout),
        same_names(spec_select(self_name, a, fanout, draws), spec_select(self_name, b, fanout, draws)),
{
    lemma_candidates_names(self_name, a, b);
    if fanout > 0 && a.len() > 0 {
        let (ca, cb) = (candidates(self_name, a), candidates(self_name, b));
        let limit = min_nat(fanout, ca.len());
        lemma_candidates(self_name, a);
        lemma_shuffle_names(ca, cb, draws, limit);
        let (sa, sb) = (shuffle_with(ca, draws, limit), shuffle_with(cb, draws, limit));
        assert forall|x: int| 0 <= x < sa.take(limit as int).len() implies #[trigger] sa.take(limit as int)[x]@
            == sb.take(limit as int)[x]@ by {
            assert(sa.take(limit as int)[x] == sa[x] && sb.take(limit as int)[x] == sb[x]);
            assert(sa[x]@ == sb[x]@);
        }
    }
}

/// Determinism: two deterministic generators seeded alike choose the same
/// peers and end in the same state.
pub proof fn lemma_same_seed_same_choice(
    self_name: Seq<char>,
    peers: Seq<NodeId>,
    fanout: nat,
    states_a: Seq<DeterministicRng>,
    draws_a: Seq<u64>,
    states_b: Seq<DeterministicRng>,
    draws_b: Seq<u64>,
)
    requires
        draw_trace(states_a, draws_a),
        draw_trace(states_b, draws_b),
        states_a[0].spec_state() == states_b[0].spec_state(),
        draws_a.len() == draws_needed(self_name, peers, fanout),
        draws_b.len() == draws_needed(self_name, peers, fanout),
    ensures
        spec_select(self_name, peers, fanout, draws_a) == spec_select(self_name, peers, fanout, draws_b),
        states_a.last() == states_b.last(),
{
    lemma_deterministic_draws(states_a, draws_a, states_b, draws_b);
}

/// Returns `true` when some entry of `s` is named like `name`.
fn names_among(s: &Vec<NodeId>, name: &NodeId) -> (b: bool)
    ensures
        b == has_name(s@, name@),
{
    let mut i: usize = 0;
    while i < s.len()
        invariant
            i <= s@.len(),
            forall|k: int| 0 <= k < i ==> #[trigger] s@[k]@ != name@,
        decreases s@.len() - i,
    {
        if s[i].same_as(name) {
            return true;
        }
        i = i + 1;
    }
    false
}

/// Chooses up to `fanout` distinct peers with the random source.
///
/// The returned peers never include `self_id` and never name a node twice,
/// even when `peers` does: they are selected, by a partial Fisher-Yates
/// shuffle, from the first entry of `peers` with each name other than
/// `self_id` (see `candidates` and `lemma_chosen_peers`).
pub fn choose_distinct_peers<R: RandomSource>(
    rng: &mut R,
    self_id: &NodeId,
    peers: &[NodeId],
    fanout: usize,
) -> (selected: Vec<NodeId>)
    ensures
        exists|states: Seq<R>, draws: Seq<u64>|
            #[trigger] draw_trace(states, draws) && {
                &&& states[0] == *old(rng)
                &&& states.last() == *final(rng)
                &&& draws.len() == draws_needed(self_id@, peers@, fanout as nat)
                &&& selected@ == spec_select(self_id@, peers@, fanout as nat, draws)
            },
{
    let ghost rng0 = *rng;
    let ghost mut states: Seq<R> = seq![*rng];
    let ghost mut draws: Seq<u64> = Seq::empty();
    if fanout == 0 || peers.len() == 0 {
        assert(draw_trace(states, draws));
        return Vec::new();
    }
    let mut pool: Vec<NodeId> = Vec::new();
    let mut i: usize = 0;
    while i < peers.len()
        invariant
            i <= peers@.len(),
            pool@ == candidates(self_id@, peers@.take(i as int)),
        decreases peers@.len() - i,
    {
        assert(peers@.take(i + 1).drop_last() =~= peers@.take(i as int));
        assert(peers@.take(i + 1).last() == peers@[i as int]);
        if !peers[i].same_as(self_id) && !names_among(&pool, &peers[i]) {
            pool.push(peers[i].clone());
        }
        i = i + 1;
    }
    assert(peers@.take(peers@.len() as int) =~= peers@);
    let ghost cands0 = pool@;
    proof {
        lemma_candidates(self_id@, peers@);
    }
    let limit: usize = if fanout <= pool.len() { fanout } else { pool.len() };
    let mut selected: Vec<NodeId> = Vec::new();
    let mut index: usize = 0;
    while index < limit
        invariant
            limit <= cands0.len(),
            cands0.len() <= usize::MAX,
            limit == min_nat(fanout as nat, cands0.len()),
            index <= limit,
            draws.len() == index,
            draw_trace(states, draws),
            states[0] == rng0,
            states.last() == *rng,
            pool@ == shuffle_with(cands0, draws, index as nat),
            pool@.len() == cands0.len(),
            selected@ == pool@.take(index as int),
        decreases limit - index,
    {
        proof {
            lemma_shuffle_with(cands0, draws, index as nat);
        }
        let ghost before = *rng;
        let remaining = pool.len() - index;
        let offset = match rng.index(remaining) {
            Some(o) => o,
            None => 0,
        };
        let ghost v = choose|v: u64| #[trigger] before.draws(v, *rng) && Some(offset) == Some(((v as usize) % remaining) as usize);
        proof {
            let prev_states = states;
            let prev_draws = draws;
            states = states.push(*rng);
            draws = draws.push(v);
            assert forall|k: int| 0 <= k < draws.len() implies #[trigger] states[k].draws(draws[k], states[k + 1]) by {
                if k < prev_draws.len() {
                    assert(prev_states[k].draws(prev_draws[k], prev_states[k + 1]));
                }
            }
            assert(shuffle_with(cands0, draws, index as nat) == shuffle_with(cands0, prev_draws, index as nat)) by {
                lemma_shuffle_extend(cands0, prev_draws, v, index as nat);
            }
            lemma_shuffle_prefix(cands0, draws, index as nat);
        }
        let swap_with = index + offset;
        let first = pool[index].clone();
        let second = pool[swap_with].clone();
        pool.set(index, second);
        pool.set(swap_with, first);
        selected.push(pool[index].clone());
        index = index + 1;
        proof {
            lemma_shuffle_with(cands0, draws, index as nat);
            assert(selected@ =~= pool@.take(index as int));
        }
    }
    selected
}

/// Appending a draw does not change the first `k` steps.
proof fn lemma_shuffle_extend(cands: Seq<NodeId>, draws: Seq<u64>, v: u64, k: nat)
    requires
        k <= draws.len(),
    ensures
        shuffle_with(cands, draws.push(v), k) == shuffle_with(cands, draws, k),
    decreases k,
{
    if k > 0 {
        lemma_shuffle_extend(cands, draws, v, (k - 1) as nat);
        assert(draws.push(v)[k - 1] == draws[k - 1]);
    }
}

} // verus!
