use hexencer::clip::{Clip, ClipId};
use hexencer::common::DataId;
use hexencer::sequencer::{events_at, SequencerCommand, SequencerState};
use hexencer::tick::Tick;
use hexencer::track::{Track, TrackCollection, TrackId};

#[test]
fn new_sequencer_is_stopped_at_zero() {
    let s = SequencerState::new();
    assert!(!s.running());
    assert_eq!(s.tick_now(), Tick(0));
    assert_eq!(s.ppqn(), 480);
    let d = SequencerState::default();
    assert!(!d.running());
}

#[test]
fn commands_drive_the_transport() {
    let mut s = SequencerState::new();
    s.handle_command(SequencerCommand::Play);
    assert!(s.running());
    assert_eq!(s.advance(), Some(Tick(0)));
    assert_eq!(s.advance(), Some(Tick(1)));
    assert_eq!(s.tick_now(), Tick(2));
    s.handle_command(SequencerCommand::Pause);
    assert!(!s.running());
    assert_eq!(s.advance(), None);
    assert_eq!(s.tick_now(), Tick(2));
    s.handle_command(SequencerCommand::Play);
    s.advance();
    s.handle_command(SequencerCommand::Stop);
    assert_eq!(s.tick_now(), Tick(3));
    s.handle_command(SequencerCommand::Reset);
    assert!(!s.running());
    assert_eq!(s.tick_now(), Tick(0));
    assert_eq!(s.ppqn(), 480);
}

#[test]
fn events_due_come_track_by_track() {
    let mut tracks = TrackCollection::default();
    let mut a = Track::new(TrackId::new(), "a");
    let c1 = Clip::new(Tick(0), "c1", Tick(100)).copy_with(ClipId(DataId(1)), Tick(0), Tick(100));
    a.add_clip(c1);
    let mut b = Track::new(TrackId::new(), "b");
    let c2 = Clip::new(Tick(500), "c2", Tick(100)).copy_with(ClipId(DataId(2)), Tick(500), Tick(100));
    b.add_clip(c2);
    tracks.add(a);
    tracks.add(b);

    let at0 = events_at(&tracks, Tick(0));
    assert_eq!(at0.len(), 2);
    assert_eq!(at0[0].get_key(), 46);
    assert_eq!(at0[1].get_key(), 46);
    let at480 = events_at(&tracks, Tick(480));
    assert_eq!(at480.iter().map(|e| e.get_key()).collect::<Vec<u8>>(), vec![47, 47]);
    assert!(events_at(&tracks, Tick(1)).is_empty());
    assert!(events_at(&TrackCollection::default(), Tick(0)).is_empty());
}
