//! Effects returned by protocol state machines.

use vstd::prelude::*;

use crate::identity::NodeId;
use vstd::std_specs::cmp::PartialEqSpec;

verus! {

/// An action requested by the protocol core.
///
/// The core does not execute effects itself. A caller, runtime adapter, or
/// simulator interprets and executes them.
#[derive(Clone, Debug)]
pub enum Effect<Message, Event> {
    /// Send a protocol message to another node.
    Send {
        /// The target node.
        target: NodeId,
        /// The message to send.
        message: Message,
    },
    /// Emit an event to the application using the protocol.
    Emit(Event),
}

impl<Message, Event> Effect<Message, Event> {
    /// Maps the message inside this effect while leaving events unchanged.
    pub fn map_message<NextMessage, F: FnOnce(Message) -> NextMessage>(self, map: F) -> (r: Effect<
        NextMessage,
        Event,
    >)
        requires
            self matches Effect::Send { message, .. } ==> map.requires((message,)),
        ensures
            match self {
                Effect::Send { target, message } => r matches Effect::Send {
                    target: t,
                    message: m,
                } && t == target && map.ensures((message,), m),
                Effect::Emit(event) => r == Effect::<NextMessage, Event>::Emit(event),
            },
    {
        match self {
            Effect::Send { target, message } => Effect::Send { target, message: map(message) },
            Effect::Emit(event) => Effect::Emit(event),
        }
    }

    /// Maps the event inside this effect while leaving messages unchanged.
    pub fn map_event<NextEvent, F: FnOnce(Event) -> NextEvent>(self, map: F) -> (r: Effect<
        Message,
        NextEvent,
    >)
        requires
            self matches Effect::Emit(event) ==> map.requires((event,)),
        ensures
            match self {
                Effect::Send { target, message } => r == Effect::<Message, NextEvent>::Send {
                    target,
                    message,
                },
                Effect::Emit(event) => r matches Effect::Emit(e) && map.ensures((event,), e),
            },
    {
        match self {
            Effect::Send { target, message } => Effect::Send { target, message },
            Effect::Emit(event) => Effect::Emit(map(event)),
        }
    }
}

impl<Message: PartialEq + PartialEqSpec, Event: PartialEq + PartialEqSpec> PartialEq for Effect<Message, Event> {
    fn eq(&self, other: &Self) -> (b: bool) {
        match (self, other) {
            (
                Effect::Send { target: t1, message: m1 },
                Effect::Send { target: t2, message: m2 },
            ) => t1 == t2 && m1 == m2,
            (Effect::Emit(e1), Effect::Emit(e2)) => e1 == e2,
            _ => false,
        }
    }
}

impl<Message: PartialEq + PartialEqSpec, Event: PartialEq + PartialEqSpec> vstd::std_specs::cmp::PartialEqSpecImpl for Effect<Message, Event> {
    open spec fn obeys_eq_spec() -> bool {
        Message::obeys_eq_spec() && Event::obeys_eq_spec()
    }

    open spec fn eq_spec(&self, other: &Effect<Message, Event>) -> bool {
        match (self, other) {
            (
                Effect::Send { target: t1, message: m1 },
                Effect::Send { target: t2, message: m2 },
            ) => t1@ == t2@ && m1.eq_spec(m2),
            (Effect::Emit(e1), Effect::Emit(e2)) => e1.eq_spec(e2),
            _ => false,
        }
    }
}

impl<Message: Eq + PartialEqSpec, Event: Eq + PartialEqSpec> Eq for Effect<Message, Event> {
}

} // verus!
