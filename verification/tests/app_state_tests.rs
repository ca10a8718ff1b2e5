use hexencer::app_state::{note_names, AppEffect, AppMessage, AppState};
use hexencer::clip::ClipId;
use hexencer::common::DataId;
use hexencer::sequencer::SequencerCommand;
use hexencer::tick::Tick;
use hexencer::track::TrackId;

#[test]
fn messages_become_effects() {
    let mut s = AppState::new();
    assert_eq!(s.update(AppMessage::Exit), AppEffect::Exit);
    assert_eq!(s.update(AppMessage::Tick), AppEffect::RedrawPlayhead);
    assert_eq!(
        s.update(AppMessage::PlaySequencer),
        AppEffect::Sequencer(SequencerCommand::Play)
    );
    assert_eq!(
        s.update(AppMessage::ResetSequencer),
        AppEffect::Sequencer(SequencerCommand::Reset)
    );
    assert_eq!(
        s.update(AppMessage::PauseSequencer),
        AppEffect::Sequencer(SequencerCommand::Pause)
    );
    let clip_id = ClipId(DataId(3));
    let track_id = TrackId(DataId(4));
    assert_eq!(
        s.update(AppMessage::MoveClipRequest { clip_id, track_id, tick: Tick(960) }),
        AppEffect::MoveClip { clip_id, track_id, tick: Tick(960) }
    );
}

#[test]
fn a_dropped_clip_waits_one_message() {
    let mut s = AppState::new();
    let clip_id = ClipId(DataId(3));
    assert_eq!(s.update(AppMessage::DragClip { clip_id }), AppEffect::Nothing);
    assert_eq!(s.dropped_clip, None);
    assert_eq!(s.update(AppMessage::DroppedClip { clip_id }), AppEffect::Nothing);
    assert_eq!(s.dropped_clip, Some(clip_id));
    s.update(AppMessage::Tick);
    assert_eq!(s.dropped_clip, None);
}

#[test]
fn selecting_a_clip_shows_it_in_the_editor() {
    let mut s = AppState::new();
    assert_eq!(s.editor_header(), "nothing selected");
    let clip_id = ClipId(DataId(0xabc));
    assert!(!s.is_selected(clip_id));
    assert_eq!(s.update(AppMessage::SelectClip { clip_id }), AppEffect::Nothing);
    assert!(s.is_selected(clip_id));
    assert!(!s.is_selected(ClipId(DataId(1))));
    assert_eq!(s.editor_header(), "editing clip 00000000-0000-0000-0000-000000000abc");
    s.update(AppMessage::Tick);
    assert!(s.is_selected(clip_id));
}

#[test]
fn the_editor_names_120_notes() {
    let names = note_names();
    assert_eq!(names.len(), 120);
    assert_eq!(names[0], "c0");
    assert_eq!(names[1], "c#0");
    assert_eq!(names[11], "b0");
    assert_eq!(names[12], "c1");
    assert_eq!(names[60], "c5");
    assert_eq!(names[119], "b9");
}
