//! Identity types used by the gossip protocol.

use vstd::prelude::*;

verus! {

/// Stable logical identity for a gossip participant.
///
/// A `NodeId` identifies a protocol participant, not a network address.
/// Its abstract value is the sequence of characters of its name.
#[derive(Debug, PartialOrd, Ord, Hash)]
pub struct NodeId(String);

impl View for NodeId {
    type V = Seq<char>;

    closed spec fn view(&self) -> Seq<char> {
        self.0@
    }
}

impl NodeId {
    /// Creates a new node identifier from its name.
    pub fn new(value: String) -> (id: Self)
        ensures
            id@ == value@,
    {
        NodeId(value)
    }

    /// Returns the node identifier as a string slice.
    pub fn as_str(&self) -> (s: &str)
        ensures
            s@ == self@,
    {
        self.0.as_str()
    }

    /// Consumes the node identifier and returns the inner string.
    pub fn into_string(self) -> (s: String)
        ensures
            s@ == self@,
    {
        self.0
    }

    /// Returns the node name as an owned string (its display form).
    pub fn to_string(&self) -> (s: String)
        ensures
            s@ == self@,
    {
        self.0.clone()
    }

    /// Returns `true` if both identifiers name the same node.
    pub fn same_as(&self, other: &NodeId) -> (b: bool)
        ensures
            b == (self@ == other@),
    {
        self.0 == other.0
    }
}

impl Clone for NodeId {
    fn clone(&self) -> (id: Self)
        ensures
            id == *self,
            id@ == self@,
    {
        NodeId(self.0.clone())
    }
}

impl PartialEq for NodeId {
    fn eq(&self, other: &Self) -> (b: bool) {
        self.0 == other.0
    }
}

impl vstd::std_specs::cmp::PartialEqSpecImpl for NodeId {
    open spec fn obeys_eq_spec() -> bool {
        true
    }

    open spec fn eq_spec(&self, other: &NodeId) -> bool {
        self@ == other@
    }
}

impl Eq for NodeId {
}

impl NodeId {
    /// The identifier whose name is the given string.
    pub closed spec fn spec_from_string(v: String) -> NodeId {
        NodeId(v)
    }
}

impl From<String> for NodeId {
    fn from(value: String) -> (id: Self)
        ensures
            id@ == value@,
    {
        NodeId(value)
    }
}

impl vstd::std_specs::convert::FromSpecImpl<String> for NodeId {
    open spec fn obeys_from_spec() -> bool {
        true
    }

    open spec fn from_spec(v: String) -> NodeId {
        NodeId::spec_from_string(v)
    }
}

impl<'a> From<&'a str> for NodeId {
    fn from(value: &'a str) -> (id: Self)
        ensures
            id@ == value@,
    {
        NodeId(String::from_str(value))
    }
}

impl<'a> vstd::std_specs::convert::FromSpecImpl<&'a str> for NodeId {
    /// A borrowed name has no spec-level owned string to build from, so the
    /// result is described by the `ensures` of `from` instead.
    open spec fn obeys_from_spec() -> bool {
        false
    }

    open spec fn from_spec(v: &'a str) -> NodeId {
        arbitrary()
    }
}

/// `a` comes strictly before `b` in the lexicographic order of their
/// characters (the order of `String`, whose UTF-8 bytes compare as the
/// characters they encode).
pub open spec fn name_lt(a: Seq<char>, b: Seq<char>) -> bool
    decreases a.len(),
{
    if b.len() == 0 {
        false
    } else if a.len() == 0 {
        true
    } else if a[0] != b[0] {
        (a[0] as int) < (b[0] as int)
    } else {
        name_lt(a.drop_first(), b.drop_first())
    }
}

/// No name comes before itself.
pub proof fn lemma_name_lt_irreflexive(a: Seq<char>)
    ensures
        !name_lt(a, a),
    decreases a.len(),
{
    if a.len() > 0 {
        lemma_name_lt_irreflexive(a.drop_first());
    }
}

/// The order of names is transitive.
pub proof fn lemma_name_lt_transitive(a: Seq<char>, b: Seq<char>, c: Seq<char>)
    requires
        name_lt(a, b),
        name_lt(b, c),
    ensures
        name_lt(a, c),
    decreases a.len(),
{
    if a.len() > 0 && b.len() > 0 && c.len() > 0 && a[0] == b[0] && b[0] == c[0] {
        lemma_name_lt_transitive(a.drop_first(), b.drop_first(), c.drop_first());
    }
}

/// Of two different names, one comes before the other, and never both.
pub proof fn lemma_name_lt_total(a: Seq<char>, b: Seq<char>)
    ensures
        a != b ==> name_lt(a, b) || name_lt(b, a),
        !(name_lt(a, b) && name_lt(b, a)),
    decreases a.len(),
{
    if a.len() > 0 && b.len() > 0 {
        if a[0] == b[0] {
            lemma_name_lt_total(a.drop_first(), b.drop_first());
            if a.drop_first() == b.drop_first() {
                assert(a =~= seq![a[0]] + a.drop_first());
                assert(b =~= seq![b[0]] + b.drop_first());
            }
        } else {
            assert((a[0] as int) != (b[0] as int));
        }
    } else if a.len() == 0 && b.len() == 0 {
        assert(a =~= b);
    }
}

proof fn lemma_name_lt_skip(a: Seq<char>, b: Seq<char>, i: int)
    requires
        0 <= i <= a.len(),
        i <= b.len(),
        a.take(i) == b.take(i),
    ensures
        name_lt(a, b) == name_lt(a.skip(i), b.skip(i)),
    decreases i,
{
    if i > 0 {
        assert(a[0] == a.take(i)[0]);
        assert(b[0] == b.take(i)[0]);
        assert(a.drop_first().take(i - 1) =~= a.take(i).drop_first());
        assert(b.drop_first().take(i - 1) =~= b.take(i).drop_first());
        lemma_name_lt_skip(a.drop_first(), b.drop_first(), i - 1);
        assert(a.drop_first().skip(i - 1) =~= a.skip(i));
        assert(b.drop_first().skip(i - 1) =~= b.skip(i));
    } else {
        assert(a.skip(0) =~= a);
        assert(b.skip(0) =~= b);
    }
}

impl NodeId {
    /// Returns `true` if this identifier comes strictly before `other` in the
    /// order of names.
    pub fn precedes(&self, other: &NodeId) -> (b: bool)
        ensures
            b == name_lt(self@, other@),
    {
        let a = self.0.as_str();
        let c = other.0.as_str();
        let la = a.unicode_len();
        let lc = c.unicode_len();
        let mut i: usize = 0;
        while i < la && i < lc && a.get_char(i) == c.get_char(i)
            invariant
                la == a@.len(),
                lc == c@.len(),
                a@ == self@,
                c@ == other@,
                i <= la,
                i <= lc,
                a@.take(i as int) == c@.take(i as int),
            decreases la - i,
        {
            assert(a@.take(i + 1) =~= a@.take(i as int).push(a@[i as int]));
            assert(c@.take(i + 1) =~= c@.take(i as int).push(c@[i as int]));
            i = i + 1;
        }
        proof {
            lemma_name_lt_skip(a@, c@, i as int);
        }
        if i == lc {
            false
        } else if i == la {
            true
        } else {
            let x = a.get_char(i);
            let y = c.get_char(i);
            (x as u32) < (y as u32)
        }
    }
}

/// Stable identifier for a gossip message or rumor.
///
/// Message IDs are used for duplicate suppression.
#[derive(Clone, Copy, Debug, PartialEq, Eq, Structural, PartialOrd, Ord, Hash)]
pub struct MessageId(u128);

impl MessageId {
    /// The numeric value of this identifier.
    pub closed spec fn value(self) -> u128 {
        self.0
    }

    /// Creates a new message identifier.
    pub fn new(value: u128) -> (id: Self)
        ensures
            id.value() == value,
    {
        MessageId(value)
    }

    /// Returns the numeric value of the message identifier.
    pub fn get(self) -> (value: u128)
        ensures
            value == self.value(),
    {
        self.0
    }

    /// Returns the display form of this identifier: its value in decimal.
    pub fn to_string(&self) -> (s: String)
        ensures
            s@ == crate::text::decimal(self.value() as nat),
    {
        crate::text::u128_to_decimal(self.0)
    }

    /// Two identifiers are equal exactly when their numeric values are.
    pub proof fn lemma_value_injective(a: MessageId, b: MessageId)
        ensures
            (a.value() == b.value()) <==> (a == b),
    {
    }
}

impl From<u128> for MessageId {
    fn from(value: u128) -> (id: Self)
        ensures
            id.value() == value,
    {
        MessageId(value)
    }
}

impl vstd::std_specs::convert::FromSpecImpl<u128> for MessageId {
    open spec fn obeys_from_spec() -> bool {
        true
    }

    open spec fn from_spec(v: u128) -> MessageId {
        MessageId::spec_from_value(v)
    }
}

impl MessageId {
    /// The identifier with the given numeric value.
    pub closed spec fn spec_from_value(v: u128) -> MessageId {
        MessageId(v)
    }

    /// The identifier built from a value has that value.
    pub proof fn lemma_from_value(v: u128)
        ensures
            #[trigger] MessageId::spec_from_value(v).value() == v,
    {
    }
}

/// Hands out consecutive message identifiers.
///
/// The generator is exhausted once it has handed out `u128::MAX`.
#[derive(Clone, Copy, Debug, PartialEq, Eq, Structural)]
pub struct MessageIdGenerator {
    next: Option<u128>,
}

impl MessageIdGenerator {
    /// The value the next call of `next_id` hands out, if any.
    pub closed spec fn spec_next(self) -> Option<u128> {
        self.next
    }

    /// Creates a generator whose first identifier is `start`.
    pub fn new(start: u128) -> (g: Self)
        ensures
            g.spec_next() == Some(start),
    {
        MessageIdGenerator { next: Some(start) }
    }

    /// Returns the next identifier without consuming it.
    pub fn peek(&self) -> (id: Option<MessageId>)
        ensures
            id == match self.spec_next() {
                Some(v) => Some(MessageId::spec_from_value(v)),
                None => None,
            },
    {
        match self.next {
            Some(v) => Some(MessageId(v)),
            None => None,
        }
    }

    /// Hands out the next identifier and advances the generator.
    ///
    /// Returns `None` once the generator is exhausted.
    pub fn next_id(&mut self) -> (id: Option<MessageId>)
        ensures
            id == match old(self).spec_next() {
                Some(v) => Some(MessageId::spec_from_value(v)),
                None => None,
            },
            final(self).spec_next() == match old(self).spec_next() {
                Some(v) => if v < u128::MAX { Some((v + 1) as u128) } else { None },
                None => None,
            },
    {
        match self.next {
            Some(v) => {
                self.next = v.checked_add(1);
                Some(MessageId(v))
            },
            None => None,
        }
    }
}

impl Default for MessageIdGenerator {
    fn default() -> (g: Self)
        ensures
            g.spec_next() == Some(0u128),
    {
        MessageIdGenerator::new(0)
    }
}

} // verus!
