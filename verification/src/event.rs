//! Events: what a clip makes happen.

use vstd::prelude::*;

use crate::common::{id_text, is_random_id, DataId};
use crate::midi_message::{message_key, message_text, MidiMessage};

verus! {

/// The kind of an event.
#[derive(Clone, Copy, Debug, PartialEq, Eq, Structural)]
pub enum EventType {
    /// A MIDI event.
    Midi(MidiMessage),
}

impl EventType {
    /// The MIDI message of this event.
    pub fn get_message(&self) -> (m: MidiMessage)
        ensures
            *self == EventType::Midi(m),
    {
        match self {
            EventType::Midi(message) => *message,
        }
    }

    /// Creates a MIDI event.
    pub fn new(event: MidiMessage) -> (e: EventType)
        ensures
            e == EventType::Midi(event),
    {
        EventType::Midi(event)
    }

    /// The event in text form: that of its message.
    pub fn to_string(&self) -> (s: String)
        ensures
            s@ == message_text(self->Midi_0),
    {
        match self {
            EventType::Midi(message) => message.to_string(),
        }
    }
}

/// Identifier of an event.
#[derive(Clone, Copy, Debug, PartialEq, Eq, Structural, Hash)]
pub struct EventId(pub DataId);

impl EventId {
    /// Creates a new random event identifier.
    pub fn new() -> (id: EventId)
        ensures
            is_random_id(id.0.0),
    {
        EventId(DataId::new())
    }

    /// The identifier in its hyphenated text form.
    pub fn to_string(&self) -> (s: String)
        ensures
            s@ == id_text(self.0.0),
    {
        self.0.to_string()
    }
}

impl Default for EventId {
    fn default() -> (id: EventId)
        ensures
            id.0.0 == 0,
    {
        EventId(DataId(0))
    }
}

/// An event with its identity and whether it is in use.
#[derive(Clone, Copy, Debug, PartialEq, Eq, Structural)]
pub struct Event {
    /// The identifier of this event.
    pub id: EventId,
    /// The kind of this event.
    pub inner: EventType,
    /// True if this event is active and should be used.
    pub active: bool,
}

impl Event {
    /// Creates an event.
    pub fn new(id: EventId, event: EventType, active: bool) -> (e: Event)
        ensures
            e == (Event { id, inner: event, active }),
    {
        Event { id, inner: event, active }
    }

    /// The key of this event's message, or 0 where it has none.
    pub fn get_key(&self) -> (key: u8)
        ensures
            key == message_key(self.inner->Midi_0),
    {
        match self.inner {
            EventType::Midi(midi_message) => midi_message.get_key(),
        }
    }
}

} // verus!
