//! The application's decisions on its messages, and the note names shown
//! by the editor.

use vstd::prelude::*;

use crate::clip::ClipId;
use crate::common::id_text;
use crate::sequencer::SequencerCommand;
use crate::text::{decimal, decimal_string};
use crate::tick::Tick;
use crate::track::TrackId;

verus! {

/// Messages of the application, with positions already turned into ticks.
#[derive(Clone, Copy, Debug, PartialEq, Eq, Structural)]
pub enum AppMessage {
    /// Quit the application.
    Exit,
    /// A clip started being dragged.
    DragClip { clip_id: ClipId },
    /// A dragged clip was dropped.
    DroppedClip { clip_id: ClipId },
    /// Move a clip to a track, starting at a tick.
    MoveClipRequest { clip_id: ClipId, track_id: TrackId, tick: Tick },
    /// A frame passed.
    Tick,
    /// Play the sequencer.
    PlaySequencer,
    /// Reset the sequencer.
    ResetSequencer,
    /// Pause the sequencer.
    PauseSequencer,
    /// A clip was selected.
    SelectClip { clip_id: ClipId },
}

/// What the application does after a message.
#[derive(Clone, Copy, Debug, PartialEq, Eq, Structural)]
pub enum AppEffect {
    /// Nothing more.
    Nothing,
    /// Quit.
    Exit,
    /// Move a clip in the project.
    MoveClip { clip_id: ClipId, track_id: TrackId, tick: Tick },
    /// Send a command to the sequencer.
    Sequencer(SequencerCommand),
    /// Redraw the playhead line.
    RedrawPlayhead,
}

/// The application's interaction state.
#[derive(Clone, Copy, Debug, PartialEq, Eq, Structural)]
pub struct AppState {
    /// A clip that was dropped and that the tracks have not taken yet.
    pub dropped_clip: Option<ClipId>,
    /// The selected clip.
    pub selected_clip: Option<ClipId>,
}

/// What the application does after `message`.
pub open spec fn effect_of(message: AppMessage) -> AppEffect {
    match message {
        AppMessage::Exit => AppEffect::Exit,
        AppMessage::MoveClipRequest { clip_id, track_id, tick } => AppEffect::MoveClip {
            clip_id,
            track_id,
            tick,
        },
        AppMessage::Tick => AppEffect::RedrawPlayhead,
        AppMessage::PlaySequencer => AppEffect::Sequencer(SequencerCommand::Play),
        AppMessage::ResetSequencer => AppEffect::Sequencer(SequencerCommand::Reset),
        AppMessage::PauseSequencer => AppEffect::Sequencer(SequencerCommand::Pause),
        _ => AppEffect::Nothing,
    }
}

impl AppState {
    /// No clip dropped, none selected.
    pub fn new() -> (s: AppState)
        ensures
            s == (AppState { dropped_clip: None, selected_clip: None }),
    {
        AppState { dropped_clip: None, selected_clip: None }
    }

    /// Handles a message. A pending dropped clip lasts until the next
    /// message; a drop makes the dropped clip pending, a selection selects
    /// the clip; moves, sequencer controls, frames and quitting become
    /// effects for the application to carry out.
    pub fn update(&mut self, message: AppMessage) -> (effect: AppEffect)
        ensures
            final(self).dropped_clip == match message {
                AppMessage::DroppedClip { clip_id } => Some(clip_id),
                _ => None::<ClipId>,
            },
            final(self).selected_clip == match message {
                AppMessage::SelectClip { clip_id } => Some(clip_id),
                _ => old(self).selected_clip,
            },
            effect == effect_of(message),
    {
        if self.dropped_clip.is_some() {
            self.dropped_clip = None;
        }
        match message {
            AppMessage::Exit => AppEffect::Exit,
            AppMessage::DragClip { clip_id: _ } => {
                self.dropped_clip = None;
                AppEffect::Nothing
            },
            AppMessage::DroppedClip { clip_id } => {
                self.dropped_clip = Some(clip_id);
                AppEffect::Nothing
            },
            AppMessage::MoveClipRequest { clip_id, track_id, tick } => AppEffect::MoveClip {
                clip_id,
                track_id,
                tick,
            },
            AppMessage::Tick => AppEffect::RedrawPlayhead,
            AppMessage::PlaySequencer => AppEffect::Sequencer(SequencerCommand::Play),
            AppMessage::ResetSequencer => AppEffect::Sequencer(SequencerCommand::Reset),
            AppMessage::PauseSequencer => AppEffect::Sequencer(SequencerCommand::Pause),
            AppMessage::SelectClip { clip_id } => {
                self.selected_clip = Some(clip_id);
                AppEffect::Nothing
            },
        }
    }

    /// Whether the clip with identifier `id` is the selected one.
    pub fn is_selected(&self, id: ClipId) -> (r: bool)
        ensures
            r == (self.selected_clip == Some(id)),
    {
        match self.selected_clip {
            Some(selected) => selected.0.0 == id.0.0,
            None => false,
        }
    }

    /// The header of the editor: which clip it edits, if any.
    pub fn editor_header(&self) -> (s: String)
        ensures
            s@ == match self.selected_clip {
                Some(id) => "editing clip "@ + id_text(id.0.0),
                None => "nothing selected"@,
            },
    {
        match self.selected_clip {
            Some(id) => {
                let mut s = String::from_str("editing clip ");
                let t = id.to_string();
                s.append(t.as_str());
                s
            },
            None => String::from_str("nothing selected"),
        }
    }
}

/// The name of the `i`-th step of the chromatic scale, from c.
pub open spec fn step_name(i: int) -> Seq<char> {
    if i == 0 {
        "c"@
    } else if i == 1 {
        "c#"@
    } else if i == 2 {
        "d"@
    } else if i == 3 {
        "d#"@
    } else if i == 4 {
        "e"@
    } else if i == 5 {
        "f"@
    } else if i == 6 {
        "f#"@
    } else if i == 7 {
        "g"@
    } else if i == 8 {
        "g#"@
    } else if i == 9 {
        "a"@
    } else if i == 10 {
        "a#"@
    } else {
        "b"@
    }
}

/// The name of MIDI note `i`: its step of the scale, then its octave.
pub open spec fn note_name(i: int) -> Seq<char> {
    step_name(i % 12) + decimal((i / 12) as nat)
}

/// The text of a step of the scale.
fn step_str(i: usize) -> (s: &'static str)
    requires
        i < 12,
    ensures
        s@ == step_name(i as int),
{
    if i == 0 {
        "c"
    } else if i == 1 {
        "c#"
    } else if i == 2 {
        "d"
    } else if i == 3 {
        "d#"
    } else if i == 4 {
        "e"
    } else if i == 5 {
        "f"
    } else if i == 6 {
        "f#"
    } else if i == 7 {
        "g"
    } else if i == 8 {
        "g#"
    } else if i == 9 {
        "a"
    } else if i == 10 {
        "a#"
    } else {
        "b"
    }
}

/// The names of the 120 notes the editor offers, from "c0" up to "b9".
pub fn note_names() -> (names: Vec<String>)
    ensures
        names@.len() == 120,
        forall|i: int| 0 <= i < 120 ==> (#[trigger] names@[i])@ == note_name(i),
{
    let mut names: Vec<String> = Vec::new();
    let mut index: usize = 0;
    while index < 120
        invariant
            0 <= index <= 120,
            names@.len() == index,
            forall|i: int| 0 <= i < index ==> (#[trigger] names@[i])@ == note_name(i),
        decreases 120 - index,
    {
        let step = index % 12;
        let octave = index / 12;
        let mut note = String::from_str(step_str(step));
        let o = decimal_string(octave as u64);
        note.append(o.as_str());
        names.push(note);
        index = index + 1;
    }
    names
}

/// The note names follow the chromatic scale from c, octave by octave: the
/// name of note `i` is the `i % 12`-th of c, c#, d, d#, e, f, f#, g, g#, a,
/// a#, b, followed by the octave `i / 12` in decimal; so the first twelve
/// run from "c0" to "b0", and each later twelve repeat them an octave up.
pub proof fn lemma_note_names_follow_scale(i: int)
    requires
        0 <= i < 120,
    ensures
        note_name(i) == seq![
            "c"@,
            "c#"@,
            "d"@,
            "d#"@,
            "e"@,
            "f"@,
            "f#"@,
            "g"@,
            "g#"@,
            "a"@,
            "a#"@,
            "b"@,
        ][i % 12] + decimal((i / 12) as nat),
{
}

} // verus!
