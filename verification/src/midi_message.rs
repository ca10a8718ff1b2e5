//! MIDI messages and their wire encoding.

use vstd::prelude::*;

use crate::common::{ALL_NOTE_ON_MSG, NOTE_OFF_MSG, NOTE_ON_MSG};
use crate::text::{decimal, decimal_string};

verus! {

/// MIDI message types.
#[derive(Clone, Copy, Debug, PartialEq, Eq, Structural)]
pub enum MidiMessage {
    /// Note on.
    NoteOn {
        /// A 0-127 value mapped to a note of the scale.
        key: u8,
        /// The speed of the note's activation.
        velocity: u8,
    },
    /// Note off.
    NoteOff {
        /// A 0-127 value mapped to a note of the scale.
        key: u8,
        /// The speed of the note's release.
        velocity: u8,
    },
    /// All notes off.
    AllNoteOff,
}

/// The three bytes that encode `m` on `channel`.
pub open spec fn midi_bytes(m: MidiMessage, channel: u8) -> Seq<u8> {
    match m {
        MidiMessage::NoteOn { key, velocity } => seq![0x90u8 | channel, key, velocity],
        MidiMessage::NoteOff { key, velocity } => seq![0x80u8 | channel, key, velocity],
        MidiMessage::AllNoteOff => seq![0xB0u8, 123u8, 0u8],
    }
}

/// The key a message is about, or 0 for "all notes off".
pub open spec fn message_key(m: MidiMessage) -> u8 {
    match m {
        MidiMessage::NoteOn { key, .. } => key,
        MidiMessage::NoteOff { key, .. } => key,
        MidiMessage::AllNoteOff => 0,
    }
}

/// The text form of a message.
pub open spec fn message_text(m: MidiMessage) -> Seq<char> {
    match m {
        MidiMessage::NoteOn { key, velocity } => "[note_on]key:"@ + decimal(key as nat)
            + ", velocity:"@ + decimal(velocity as nat),
        MidiMessage::NoteOff { key, velocity } => "[note_off]key:"@ + decimal(key as nat)
            + ", velocity:"@ + decimal(velocity as nat),
        MidiMessage::AllNoteOff => "[global_note_off]"@,
    }
}

impl MidiMessage {
    /// Encodes this message as the bytes to send to a MIDI port; the channel
    /// is or-ed into the status byte of note messages.
    pub fn to_midi(&self, channel: u8) -> (bytes: [u8; 3])
        ensures
            bytes@ == midi_bytes(*self, channel),
    {
        let b = match self {
            MidiMessage::NoteOn { key, velocity } => [NOTE_ON_MSG | channel, *key, *velocity],
            MidiMessage::NoteOff { key, velocity } => [NOTE_OFF_MSG | channel, *key, *velocity],
            MidiMessage::AllNoteOff => [ALL_NOTE_ON_MSG, 123, 0],
        };
        assert(b@ =~= midi_bytes(*self, channel));
        b
    }

    /// The key of this message, or 0 for "all notes off".
    pub fn get_key(&self) -> (key: u8)
        ensures
            key == message_key(*self),
    {
        match self {
            MidiMessage::NoteOn { key, .. } => *key,
            MidiMessage::NoteOff { key, .. } => *key,
            MidiMessage::AllNoteOff => 0,
        }
    }

    /// The message in text form.
    pub fn to_string(&self) -> (s: String)
        ensures
            s@ == message_text(*self),
    {
        match self {
            MidiMessage::NoteOn { key, velocity } => {
                let mut s = String::from_str("[note_on]key:");
                let k = decimal_string(*key as u64);
                s.append(k.as_str());
                s.append(", velocity:");
                let v = decimal_string(*velocity as u64);
                s.append(v.as_str());
                s
            },
            MidiMessage::NoteOff { key, velocity } => {
                let mut s = String::from_str("[note_off]key:");
                let k = decimal_string(*key as u64);
                s.append(k.as_str());
                s.append(", velocity:");
                let v = decimal_string(*velocity as u64);
                s.append(v.as_str());
                s
            },
            MidiMessage::AllNoteOff => String::from_str("[global_note_off]"),
        }
    }
}

impl Default for MidiMessage {
    fn default() -> (m: MidiMessage)
        ensures
            m == (MidiMessage::NoteOn { key: 66, velocity: 64 }),
    {
        MidiMessage::NoteOn { key: 66, velocity: 64 }
    }
}

/// A note message on channel `channel` (one of the 16, 0 to 15) goes out
/// as its status, note-on 0x90 or note-off 0x80, plus the channel (the
/// channel is the status byte's low nibble), then its key, then its
/// velocity; "all notes off" goes out as the control change 0xB0, 123, 0.
pub proof fn lemma_note_bytes_carry_channel(key: u8, velocity: u8, channel: u8)
    requires
        channel < 16,
    ensures
        midi_bytes(MidiMessage::NoteOn { key, velocity }, channel) == seq![
            (0x90 + channel) as u8,
            key,
            velocity,
        ],
        midi_bytes(MidiMessage::NoteOff { key, velocity }, channel) == seq![
            (0x80 + channel) as u8,
            key,
            velocity,
        ],
        midi_bytes(MidiMessage::AllNoteOff, channel) == seq![0xB0u8, 123u8, 0u8],
        (0x90 + channel) as u8 % 16 == channel,
        (0x80 + channel) as u8 % 16 == channel,
{
    assert(0x90u8 | channel == (0x90 + channel) as u8) by (bit_vector)
        requires
            channel < 16,
    ;
    assert(0x80u8 | channel == (0x80 + channel) as u8) by (bit_vector)
        requires
            channel < 16,
    ;
}

} // verus!
