//! A minimal sequencer that plays a fixed melody once, one note per step,
//! from its last note to its first.

use vstd::prelude::*;

verus! {

/// The melody the demonstration sequencer starts with.
pub open spec fn demo_melody() -> Seq<u8> {
    seq![69u8, 69u8, 66u8, 66u8, 67u8, 67u8]
}

/// How many steps make one bar of the demonstration sequencer.
pub const STEPS_PER_BAR: u64 = 4;

/// The state of the demonstration sequencer.
#[derive(Debug)]
pub struct DemoSequencer {
    /// Tempo, in beats a minute.
    pub bpm: u64,
    /// True while it plays.
    pub playing: bool,
    /// The notes still to play; the last one plays next.
    pub sequence: Vec<u8>,
    /// The step within the bar.
    pub current_tick: u64,
}

/// What one step of the demonstration sequencer does.
#[derive(Clone, Copy, Debug, PartialEq, Eq, Structural)]
pub struct DemoStep {
    /// The note to start now, if any is left.
    pub note: Option<u8>,
    /// True if another step follows.
    pub go_on: bool,
}

impl DemoSequencer {
    /// A stopped sequencer at `bpm` holding the demonstration melody.
    pub fn new(bpm: u64) -> (s: DemoSequencer)
        ensures
            s.bpm == bpm,
            !s.playing,
            s.sequence@ == demo_melody(),
            s.current_tick == 0,
    {
        let sequence = vec![69u8, 69u8, 66u8, 66u8, 67u8, 67u8];
        assert(sequence@ =~= demo_melody());
        DemoSequencer { bpm, playing: false, sequence, current_tick: 0 }
    }

    /// The length of a step in milliseconds: one beat.
    pub fn tick_length_ms(&self) -> (ms: u64)
        requires
            self.bpm > 0,
        ensures
            ms == 60000u64 / self.bpm,
    {
        60000 / self.bpm
    }

    /// One step while playing: takes the last note of the sequence to play
    /// now and counts the step, going back to zero at the end of a bar;
    /// playing goes on while notes are left.
    pub fn step(&mut self) -> (out: DemoStep)
        requires
            old(self).current_tick < u64::MAX,
        ensures
            final(self).bpm == old(self).bpm,
            final(self).playing == old(self).playing,
            final(self).current_tick == if old(self).current_tick + 1 == STEPS_PER_BAR {
                0
            } else {
                old(self).current_tick + 1
            },
            if old(self).sequence@.len() > 0 {
                out.note == Some(old(self).sequence@.last()) && final(self).sequence@ == old(
                    self,
                ).sequence@.drop_last()
            } else {
                out.note.is_none() && final(self).sequence@ == old(self).sequence@
            },
            out.go_on == (final(self).sequence@.len() >= 1),
    {
        let note = self.sequence.pop();
        self.current_tick = self.current_tick + 1;
        if self.current_tick == STEPS_PER_BAR {
            self.current_tick = 0;
        }
        DemoStep { note, go_on: self.sequence.len() >= 1 }
    }
}

} // verus!
