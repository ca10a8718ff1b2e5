//! Notes played by step triggers.

use vstd::prelude::*;

use crate::text::{decimal, decimal_string};

verus! {

/// A note: a key of the scale and how hard it is struck.
#[derive(Clone, Copy, Debug, PartialEq, Eq, Structural)]
pub struct Note {
    /// The 0-127 key of the note.
    pub index: u8,
    /// The velocity of the note.
    pub velocity: u8,
}

impl Default for Note {
    fn default() -> (n: Note)
        ensures
            n.index == 48,
            n.velocity == 96,
    {
        Note { index: 48, velocity: 96 }
    }
}

/// The text form of a note.
pub open spec fn note_text(n: Note) -> Seq<char> {
    "key: "@ + decimal(n.index as nat) + ", velocity: "@ + decimal(n.velocity as nat)
}

impl Note {
    /// The note as text: its key and velocity.
    pub fn to_string(&self) -> (s: String)
        ensures
            s@ == note_text(*self),
    {
        let mut s = String::from_str("key: ");
        let k = decimal_string(self.index as u64);
        s.append(k.as_str());
        s.append(", velocity: ");
        let v = decimal_string(self.velocity as u64);
        s.append(v.as_str());
        s
    }
}

} // verus!
