use hexencer::clip::{Clip, ClipId, ClipKey};
use hexencer::common::DataId;
use hexencer::event::EventType;
use hexencer::event_list::{EventCollection, EventSegment};
use hexencer::midi_message::MidiMessage;
use hexencer::tick::Tick;
use hexencer::track::{Track, TrackCollection, TrackCollectionError, TrackId};

#[test]
fn new_track_plays_through_port0() {
    let t = Track::new(TrackId(DataId(1)), "drums");
    assert_eq!(t.name, "drums");
    assert_eq!(t.instrument.name, "port0");
    assert_eq!(t.clip_collection.len(), 0);
    assert_eq!(t.to_string(), "drums, instrument: name:port0, port:0");
}

#[test]
fn track_port_channel_and_clips() {
    let mut t = Track::new(TrackId(DataId(1)), "bass");
    t.set_port(1);
    t.set_channel(9);
    assert_eq!((t.instrument.port, t.instrument.channel), (1, 9));
    let clip = Clip::new(Tick(0), "c", Tick(10)).copy_with(ClipId(DataId(5)), Tick(0), Tick(10));
    t.add_clip(clip);
    assert_eq!(t.clip_collection.len(), 1);
    t.remove_clip(&ClipKey { start: Tick(0), id: ClipId(DataId(5)) });
    assert_eq!(t.clip_collection.len(), 0);
}

#[test]
fn collection_lookups() {
    let mut tc = TrackCollection::default();
    let a = TrackId(DataId(10));
    let b = TrackId(DataId(20));
    tc.add(Track::new(a, "a"));
    let mut tb = Track::new(b, "b");
    tb.set_port(1);
    tc.push(tb);
    assert_eq!(tc.len(), 2);
    assert_eq!(tc.get_track_port(1), 1);
    assert_eq!(tc.get(0).unwrap().name, "a");
    assert!(tc.get(2).is_none());
    assert_eq!(tc.get_by_id(b).unwrap().name, "b");
    assert!(tc.get_by_id(TrackId(DataId(30))).is_none());
    assert_eq!(tc.get_clips(5).err(), Some(TrackCollectionError::NoTrack(5)));
    tc.get_mut(a).unwrap().set_channel(3);
    assert_eq!(tc.tracks()[0].instrument.channel, 3);
    assert!(tc.get_mut(TrackId(DataId(30))).is_none());
    assert_eq!(tc.pop().unwrap().name, "b");
    assert_eq!(tc.len(), 1);
}

#[test]
fn take_clip_takes_from_the_first_track_holding_it() {
    let mut tc = TrackCollection::default();
    let mut a = Track::new(TrackId(DataId(1)), "a");
    let mut b = Track::new(TrackId(DataId(2)), "b");
    a.add_clip(Clip::new(Tick(0), "x", Tick(10)).copy_with(ClipId(DataId(7)), Tick(0), Tick(10)));
    b.add_clip(Clip::new(Tick(0), "y", Tick(10)).copy_with(ClipId(DataId(8)), Tick(50), Tick(10)));
    tc.add(a);
    tc.add(b);
    let taken = tc.take_clip(ClipId(DataId(8))).unwrap();
    assert_eq!(taken.name.as_str(), "y");
    assert_eq!(taken.start, Tick(50));
    assert_eq!(tc.get_clips(1).unwrap().len(), 0);
    assert_eq!(tc.get_clips(0).unwrap().len(), 1);
    assert!(tc.take_clip(ClipId(DataId(8))).is_none());
}

#[test]
fn event_collections_group_segments_by_tick() {
    let mut events = EventCollection::new();
    let on = |key: u8| EventType::Midi(MidiMessage::NoteOn { key, velocity: 64 });
    let first = EventSegment::new(DataId(1), Tick(0), Tick(10), on(60), true);
    let second = EventSegment::new(DataId(2), Tick(0), Tick(20), on(62), false);
    events.add_event(Tick(0), first);
    events.add_event(Tick(0), second);
    events.add_event(Tick(5), first);
    assert_eq!(events.get(&Tick(0)).unwrap(), &vec![first, second]);
    assert_eq!(events.get(&Tick(5)).unwrap(), &vec![first]);
    assert!(events.get(&Tick(1)).is_none());
    let copy = events.duplicate();
    assert_eq!(copy.get(&Tick(0)).unwrap().len(), 2);

    let built = EventCollection::from_entries(vec![
        (Tick(1), vec![first]),
        (Tick(2), vec![second]),
        (Tick(1), vec![second]),
    ]);
    assert_eq!(built.get(&Tick(1)).unwrap(), &vec![second]);
    assert_eq!(built.get(&Tick(2)).unwrap(), &vec![second]);
}

#[test]
fn segments_know_their_key_and_end() {
    let s = EventSegment::new2(Tick(3), Tick(9), 70, 100, true);
    assert_eq!(s.get_key(), 70);
    assert_eq!(s.get_end(), Tick(9));
    assert_eq!(s.start, Tick(3));
    assert!(s.is_active);
    let off = EventSegment::new(
        DataId(1),
        Tick(0),
        Tick(1),
        EventType::Midi(MidiMessage::NoteOff { key: 70, velocity: 0 }),
        true,
    );
    assert_eq!(off.get_key(), 0);
}

#[test]
fn remove_clip_removes_the_first_clip_with_the_id() {
    let mut tc = TrackCollection::default();
    let mut a = Track::new(TrackId(DataId(1)), "a");
    let mut b = Track::new(TrackId(DataId(2)), "b");
    a.add_clip(Clip::new(Tick(0), "x", Tick(10)).copy_with(ClipId(DataId(7)), Tick(0), Tick(10)));
    b.add_clip(Clip::new(Tick(0), "y", Tick(10)).copy_with(ClipId(DataId(8)), Tick(20), Tick(10)));
    b.add_clip(Clip::new(Tick(0), "z", Tick(10)).copy_with(ClipId(DataId(8)), Tick(50), Tick(10)));
    tc.add(a);
    tc.add(b);
    tc.remove_clip(ClipId(DataId(8)));
    assert_eq!(tc.get_clips(0).unwrap().len(), 1);
    let left = tc.get_clips(1).unwrap();
    assert_eq!(left.len(), 1);
    assert_eq!(left.clips()[0].start, Tick(50));
    tc.remove_clip(ClipId(DataId(99)));
    assert_eq!(tc.get_clips(0).unwrap().len(), 1);
    assert_eq!(tc.get_clips(1).unwrap().len(), 1);
}

#[test]
fn event_entries_come_in_tick_order() {
    let mut events = EventCollection::new();
    let on = |key: u8| EventType::Midi(MidiMessage::NoteOn { key, velocity: 64 });
    events.add_event(Tick(960), EventSegment::new(DataId(3), Tick(960), Tick(970), on(50), true));
    events.add_event(Tick(0), EventSegment::new(DataId(1), Tick(0), Tick(10), on(46), true));
    events.add_event(Tick(480), EventSegment::new(DataId(2), Tick(480), Tick(490), on(47), true));
    events.add_event(Tick(0), EventSegment::new(DataId(4), Tick(0), Tick(5), on(48), true));
    let entries = events.entries();
    let ticks: Vec<u64> = entries.iter().map(|(t, _)| t.0).collect();
    assert_eq!(ticks, vec![0, 480, 960]);
    let keys: Vec<Vec<u8>> =
        entries.iter().map(|(_, v)| v.iter().map(|e| e.get_key()).collect()).collect();
    assert_eq!(keys, vec![vec![46, 48], vec![47], vec![50]]);
    assert!(EventCollection::new().entries().is_empty());
}
