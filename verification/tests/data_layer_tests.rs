use hexencer::clip::Clip;
use hexencer::data_layer::{DataLayer, DataLayerError};
use hexencer::tick::Tick;
use hexencer::track::{Track, TrackId};

#[test]
#[should_panic]
fn cant_add_when_track_not_found() {
    let mut data = DataLayer::default();
    let track = Track::new(TrackId::new(), "test");
    data.project_manager.add_track(track);

    let clip = Clip::new(0.into(), "test", 120.into());
    data.add_clip(TrackId::new(), clip).unwrap();
}

#[test]
fn can_add_track() {
    let mut data = DataLayer::default();
    let track_id = TrackId::new();
    let track = Track::new(track_id, "test");
    data.project_manager.add_track(track);

    {
        let clips = data.project_manager.track_collection.get_clips(0).unwrap();
        assert_eq!(clips.len(), 0);
    }

    let clip = Clip::new(0.into(), "test", 120.into());
    data.add_clip(track_id, clip).unwrap();

    {
        let clips = data.project_manager.track_collection.get_clips(0).unwrap();
        assert_eq!(clips.len(), 1);
    }
}

#[test]
fn sets_and_gets_tick() {
    let mut data = DataLayer::default();
    data.set_tick(Tick::from(100));
    assert_eq!(data.get_tick(), Tick::from(100));
    data.set_tick(Tick::from(999));
    assert_eq!(data.get_tick(), Tick::from(999));
}

#[test]
fn add_clip_to_missing_track_names_the_track() {
    let mut data = DataLayer::default();
    data.project_manager.add_track(Track::new(TrackId::new(), "test"));
    let missing = TrackId::new();
    let clip = Clip::new(Tick(0), "test", Tick(120));
    assert_eq!(data.add_clip(missing, clip), Err(DataLayerError::NoTrack(missing)));
    assert_eq!(data.project_manager.track_collection.get_clips(0).unwrap().len(), 0);
}

#[test]
fn add_clip_goes_to_first_track_with_the_id() {
    let mut data = DataLayer::default();
    let id = TrackId::new();
    data.project_manager.add_track(Track::new(TrackId::new(), "other"));
    data.project_manager.add_track(Track::new(id, "first"));
    data.project_manager.add_track(Track::new(id, "second"));
    let clip = Clip::new(Tick(10), "c", Tick(20));
    let clip_id = clip.id;
    assert_eq!(data.add_clip(id, clip), Ok(()));
    let tc = &data.project_manager.track_collection;
    assert_eq!(tc.get_clips(0).unwrap().len(), 0);
    assert_eq!(tc.get_clips(1).unwrap().len(), 1);
    assert_eq!(tc.get_clips(2).unwrap().len(), 0);
    assert_eq!(tc.get_clips(1).unwrap().clips()[0].id, clip_id);
    assert!(data.project_manager.find_clip(clip_id).is_some());
}

#[test]
fn add_clip_keeps_the_tick() {
    let mut data = DataLayer::default();
    let id = TrackId::new();
    data.project_manager.add_track(Track::new(id, "t"));
    data.set_tick(Tick(42));
    data.add_clip(id, Clip::new(Tick(0), "c", Tick(5))).unwrap();
    assert_eq!(data.get_tick(), Tick(42));
}

#[test]
fn default_data_layer_is_empty() {
    let data = DataLayer::default();
    assert_eq!(data.project_manager.track_count(), 0);
    assert_eq!(data.get_tick(), Tick(0));
    assert_eq!(data.editor_state.selected_clip.0, 0);
}

#[test]
fn fake_data_has_four_demonstration_tracks() {
    let data = DataLayer::fake_data();
    let tc = &data.project_manager.track_collection;
    assert_eq!(tc.len(), 4);
    assert_eq!(data.get_tick(), Tick(0));
    let names: Vec<&str> = tc.tracks().iter().map(|t| t.name.as_str()).collect();
    assert_eq!(names, vec!["track_0", "track_1", "track_2", "track_2"]);
    let counts: Vec<usize> = (0..4).map(|i| tc.get_clips(i).unwrap().len()).collect();
    assert_eq!(counts, vec![0, 1, 2, 3]);
    let clip_names: Vec<String> = tc
        .get_clips(3)
        .unwrap()
        .clips()
        .iter()
        .map(|c| c.name.as_str().to_string())
        .collect();
    assert_eq!(clip_names, vec!["clip_3", "clip_4", "clip_5"]);
    let spans: Vec<(u64, u64)> =
        tc.get_clips(2).unwrap().clips().iter().map(|c| (c.start.0, c.duration.0)).collect();
    assert_eq!(spans, vec![(120, 10), (480, 120)]);
    let first_list = tc.get_clips(1).unwrap().clips();
    let first = &first_list[0];
    assert_eq!((first.name.as_str(), first.start.0, first.duration.0), ("clip_0", 0, 240));
    assert_eq!(first.events.get(&Tick(960)).unwrap()[0].get_key(), 50);
    for t in tc.tracks() {
        assert_eq!(t.instrument.port, 0);
        assert_eq!(t.instrument.channel, 0);
        assert_eq!(t.instrument.name, "port0");
    }
}
