use hexencer::clip::{Clip, ClipId};
use hexencer::common::DataId;
use hexencer::project::Project;
use hexencer::tick::Tick;
use hexencer::track::{Track, TrackId};

#[test]
fn can_find_clip_after_adding() {
    let mut project = Project::new();
    let mut track = Track::new(TrackId::new(), "track 0");
    let clip = Clip::new(Tick::from(120), "new_clip", Tick::from(120));
    track.add_clip(clip);

    project.add_track(track);
}

#[test]
fn find_clip_returns_the_added_clip() {
    let mut project = Project::new();
    let mut track = Track::new(TrackId::new(), "track 0");
    let clip = Clip::new(Tick::from(120), "new_clip", Tick::from(120));
    let clip_id = clip.id();
    track.add_clip(clip);
    project.add_track(track);

    let found = project.find_clip(clip_id).expect("the clip was added");
    assert_eq!(found.id, clip_id);
    assert_eq!(found.start, Tick(120));
    assert_eq!(found.duration, Tick(120));
    assert_eq!(found.name.as_str(), "new_clip");
}

#[test]
fn find_clip_of_unknown_id_is_none() {
    let mut project = Project::new();
    let mut track = Track::new(TrackId::new(), "track 0");
    track.add_clip(Clip::new(Tick(0), "a", Tick(10)));
    project.add_track(track);
    assert!(project.find_clip(ClipId(DataId(7))).is_none());
    assert!(Project::new().find_clip(ClipId(DataId(7))).is_none());
}

#[test]
fn add_and_remove_track() {
    let mut project = Project::default();
    assert_eq!(project.track_count(), 0);
    project.add_track(Track::new(TrackId::new(), "a"));
    project.push_track();
    assert_eq!(project.track_count(), 2);
    let last = project.track_collection.get(1).unwrap();
    assert_eq!(last.name, "test");
    assert_eq!(last.clip_collection.len(), 0);
    project.remove_track();
    assert_eq!(project.track_count(), 1);
    assert_eq!(project.track_collection.get(0).unwrap().name, "a");
    project.remove_track();
    project.remove_track();
    assert_eq!(project.track_count(), 0);
}

#[test]
fn move_clip_to_another_track() {
    let mut project = Project::new();
    let from = TrackId::new();
    let to = TrackId::new();
    let mut source = Track::new(from, "from");
    let clip = Clip::new(Tick(100), "moving", Tick(50));
    let clip_id = clip.id;
    source.add_clip(clip);
    project.add_track(source);
    project.add_track(Track::new(to, "to"));

    project.move_clip(clip_id, to, Tick(300));

    assert_eq!(project.track_collection.get_clips(0).unwrap().len(), 0);
    let target = project.track_collection.get_clips(1).unwrap();
    assert_eq!(target.len(), 1);
    let target_clips = target.clips();
    let moved = &target_clips[0];
    assert_eq!(moved.id, clip_id);
    assert_eq!(moved.start, Tick(300));
    assert_eq!(moved.duration, Tick(50));
}

#[test]
fn move_clip_to_missing_track_keeps_it() {
    let mut project = Project::new();
    let mut source = Track::new(TrackId::new(), "from");
    let clip = Clip::new(Tick(100), "moving", Tick(50));
    let clip_id = clip.id;
    source.add_clip(clip);
    project.add_track(source);

    project.move_clip(clip_id, TrackId::new(), Tick(300));

    let clips = project.track_collection.get_clips(0).unwrap();
    assert_eq!(clips.len(), 1);
    assert_eq!(clips.clips()[0].start, Tick(100));
    assert_eq!(project.find_clip(clip_id).unwrap().id, clip_id);
}

#[test]
fn move_of_unknown_clip_changes_nothing() {
    let mut project = Project::new();
    let id = TrackId::new();
    let mut track = Track::new(id, "t");
    track.add_clip(Clip::new(Tick(0), "a", Tick(10)));
    project.add_track(track);
    project.move_clip(ClipId(DataId(5)), id, Tick(40));
    let clips = project.track_collection.get_clips(0).unwrap();
    assert_eq!(clips.len(), 1);
    assert_eq!(clips.clips()[0].start, Tick(0));
}

#[test]
fn move_within_a_track_changes_the_start() {
    let mut project = Project::new();
    let id = TrackId::new();
    let mut track = Track::new(id, "t");
    let clip = Clip::new(Tick(0), "a", Tick(10));
    let clip_id = clip.id;
    track.add_clip(clip);
    project.add_track(track);
    project.move_clip(clip_id, id, Tick(480));
    let clips = project.track_collection.get_clips(0).unwrap();
    assert_eq!(clips.len(), 1);
    assert_eq!(clips.clips()[0].start, Tick(480));
    assert_eq!(project.find_clip(clip_id).unwrap().start, Tick(480));
}

#[test]
fn moved_clip_is_held_by_the_target_track_alone() {
    let mut project = Project::new();
    let from = TrackId::new();
    let to = TrackId::new();
    let mut source = Track::new(from, "from");
    let clip = Clip::new(Tick(100), "moving", Tick(50));
    let clip_id = clip.id;
    source.add_clip(clip);
    source.add_clip(Clip::new(Tick(400), "stays", Tick(20)));
    let mut target = Track::new(to, "to");
    target.add_clip(Clip::new(Tick(0), "long", Tick(1000)));
    project.add_track(source);
    project.add_track(target);

    project.move_clip(clip_id, to, Tick(300));

    let source_clips = project.track_collection.get_clips(0).unwrap().clips();
    assert!(source_clips.iter().all(|c| c.id != clip_id));
    assert_eq!(source_clips.len(), 1);
    let target_clips = project.track_collection.get_clips(1).unwrap().clips();
    let with_id: Vec<_> = target_clips.iter().filter(|c| c.id == clip_id).collect();
    assert_eq!(with_id.len(), 1);
    assert_eq!(with_id[0].start, Tick(300));
    assert_eq!(with_id[0].duration, Tick(50));
    assert_eq!(with_id[0].name.as_str(), "moving");
    // the long clip was split around the moved one
    assert_eq!(target_clips.len(), 3);
}
