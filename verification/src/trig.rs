//! Step triggers: a note played by an instrument for a duration.

use vstd::prelude::*;

use crate::instrument::{instrument_text, Instrument};
use crate::midi_event::MidiEvent;
use crate::note::{note_text, Note};

verus! {

/// A step trigger.
#[derive(Clone, Debug)]
pub struct Trig {
    /// The instrument that plays the note.
    pub instrument: Instrument,
    /// How long the note lasts, in ticks.
    pub duration: u32,
    /// True if the trigger fires.
    pub on: bool,
    /// The note played.
    pub note: Note,
}

impl Trig {
    /// The key of the note.
    pub fn get_note_index(&self) -> (i: u8)
        ensures
            i == self.note.index,
    {
        self.note.index
    }

    /// The event that starts the note.
    pub fn get_note_on(&self) -> (e: MidiEvent)
        ensures
            e == MidiEvent::NoteOn(self.note),
    {
        MidiEvent::NoteOn(self.note)
    }

    /// The event that stops the note.
    pub fn get_note_off(&self) -> (e: MidiEvent)
        ensures
            e == MidiEvent::NoteOff(self.note),
    {
        MidiEvent::NoteOff(self.note)
    }

    /// Creates a trigger for `instrument`, lasting one beat (480 ticks) with
    /// the default note; the given duration is not used.
    pub fn new(instrument: Instrument, duration: u8, on: bool) -> (t: Trig)
        ensures
            t.instrument == instrument,
            t.on == on,
            t.duration == 480,
            t.note == (Note { index: 48, velocity: 96 }),
    {
        let _ = duration;
        Trig { instrument, on, duration: 480, note: Note::default() }
    }

    /// The trigger as text: its note and instrument.
    pub fn to_string(&self) -> (s: String)
        ensures
            s@ == "note:"@ + note_text(self.note) + ", instrument:"@
                + instrument_text(self.instrument),
    {
        let mut s = String::from_str("note:");
        let n = self.note.to_string();
        s.append(n.as_str());
        s.append(", instrument:");
        let i = self.instrument.to_string();
        s.append(i.as_str());
        s
    }
}

} // verus!
