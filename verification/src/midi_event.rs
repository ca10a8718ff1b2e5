//! Requests to the MIDI output and note events of step triggers.

use vstd::prelude::*;

use crate::midi_message::MidiMessage;
use crate::note::Note;

verus! {

/// A MIDI message addressed to an output port.
#[derive(Debug)]
pub struct MidiRequest {
    /// The message to send.
    message: MidiMessage,
    /// The port to send it to.
    port: u8,
}

impl MidiRequest {
    /// The message this request carries.
    pub closed spec fn requested_message(&self) -> MidiMessage {
        self.message
    }

    /// The port this request is addressed to.
    pub closed spec fn requested_port(&self) -> u8 {
        self.port
    }

    /// Creates a request to send `message` to `port`.
    pub fn new(message: MidiMessage, port: u8) -> (r: MidiRequest)
        ensures
            r.requested_message() == message,
            r.requested_port() == port,
    {
        MidiRequest { message, port }
    }

    /// The message of this request.
    pub fn get_message(&self) -> (m: &MidiMessage)
        ensures
            *m == self.requested_message(),
    {
        &self.message
    }

    /// The port of this request.
    pub fn get_port(&self) -> (p: u8)
        ensures
            p == self.requested_port(),
    {
        self.port
    }
}

/// A note starting or stopping.
#[derive(Clone, Copy, Debug, PartialEq, Eq, Structural)]
pub enum MidiEvent {
    /// The note starts.
    NoteOn(Note),
    /// The note stops.
    NoteOff(Note),
}

} // verus!
