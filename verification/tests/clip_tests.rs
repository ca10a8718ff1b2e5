use hexencer::clip::{Clip, ClipCollection, ClipId, ClipKey};
use hexencer::common::DataId;
use hexencer::tick::Tick;

fn clip_with(id: u128, start: u64, duration: u64, name: &str) -> Clip {
    let c = Clip::new(Tick(start), name, Tick(duration));
    c.copy_with(ClipId(DataId(id)), Tick(start), Tick(duration))
}

fn spans(c: &ClipCollection) -> Vec<(u64, u64, u128)> {
    c.clips().iter().map(|c| (c.start.0, c.duration.0, c.id.0 .0)).collect()
}

#[test]
fn create_clipkey_from_clip() {
    let clip = Clip::new(Tick::from(999), "test_clip", Tick::from(2000));
    let clip_key = ClipKey::from(&clip);

    assert_eq!(clip_key.start, Tick::from(999));
    assert_eq!(clip_key.id, clip.id);
}

#[test]
fn can_get_overlapped_clips() {
    // 0-100 overlapped by 50-150
    let mut clip_collection = ClipCollection::new();
    let clip = Clip::new(Tick::from(0), "test_clip", Tick::from(100));
    clip_collection.insert(clip.clone());

    let sample_clip = Clip::new(50.into(), "sample_clip", 100.into());
    let overlapped = clip_collection.get_surrounded_overlapped_clips(&sample_clip);
    assert_eq!(overlapped.len(), 1);
}

#[test]
fn should_ignore_non_overlapped_clips() {
    // 0-50 overlapped by 50-150
    let mut clip_collection = ClipCollection::new();
    let clip = Clip::new(0.into(), "test_clip", 50.into());
    clip_collection.insert(clip.clone());

    let sample_clip = Clip::new(50.into(), "sample_clip", 100.into());
    let overlapped = clip_collection.get_surrounded_overlapped_clips(&sample_clip);
    assert_eq!(overlapped.len(), 0);
}

#[test]
fn should_detect_inner_overlap_when_start_is_equal() {
    // 0-50 overlapped by 0-100
    let mut clip_collection = ClipCollection::new();
    let clip = Clip::new(0.into(), "test_clip", 50.into());
    clip_collection.insert(clip.clone());

    let sample_clip = Clip::new(0.into(), "sample_clip", 100.into());
    let overlapped = clip_collection.get_overlapped_inner(&sample_clip);
    assert_eq!(overlapped.len(), 1);
}

#[test]
fn inner_overlap_does_not_depend_on_identifiers() {
    for (existing, sample) in [(1u128, 2u128), (2, 1)] {
        let mut c = ClipCollection::new();
        c.insert(clip_with(existing, 0, 50, "a"));
        let overlapped = c.get_overlapped_inner(&clip_with(sample, 0, 100, "s"));
        assert_eq!(overlapped.len(), 1);
    }
}

#[test]
fn insert_removes_a_clip_ending_where_the_new_one_ends() {
    let mut c = ClipCollection::new();
    c.insert(clip_with(1, 25, 50, "inside"));
    c.insert(clip_with(2, 0, 75, "new"));
    assert_eq!(spans(&c), vec![(0, 75, 2)]);
}

#[test]
fn insert_trims_a_clip_starting_with_the_new_one() {
    for existing in [1u128, 9] {
        let mut c = ClipCollection::new();
        c.insert(clip_with(existing, 100, 200, "long"));
        c.insert(clip_with(5, 100, 50, "new"));
        let s = spans(&c);
        assert_eq!(s.len(), 2);
        assert_eq!(s[0], (100, 50, 5));
        assert_eq!((s[1].0, s[1].1), (150, 150));
    }
    let mut c = ClipCollection::new();
    c.insert(clip_with(9, 100, 50, "same"));
    c.insert(clip_with(5, 100, 50, "new"));
    assert_eq!(spans(&c), vec![(100, 50, 5)]);
}

#[test]
fn new_clip_holds_three_demonstration_notes() {
    let clip = Clip::new(Tick(10), "demo", Tick(2000));
    assert_eq!(clip.start, Tick(10));
    assert_eq!(clip.duration, Tick(2000));
    assert_eq!(clip.name.as_str(), "demo");
    let at0 = clip.events.get(&Tick(0)).unwrap();
    assert_eq!(at0.len(), 1);
    assert_eq!(at0[0].get_key(), 46);
    assert_eq!(at0[0].end, Tick(480));
    let at480 = clip.events.get(&Tick(480)).unwrap();
    assert_eq!(at480[0].get_key(), 47);
    assert_eq!(at480[0].start, Tick(240));
    assert_eq!(at480[0].end, Tick(700));
    let at960 = clip.events.get(&Tick(960)).unwrap();
    assert_eq!(at960[0].get_key(), 50);
    assert_eq!(at960[0].get_end(), Tick(1440));
    assert!(clip.events.get(&Tick(1)).is_none());
}

#[test]
fn clip_end_and_identity() {
    let clip = clip_with(0x0123, 100, 25, "c");
    assert_eq!(clip.end(), Tick(125));
    assert_eq!(clip.id(), ClipId(DataId(0x0123)));
    assert_eq!(clip.id_as_string(), "00000000-0000-0000-0000-000000000123");
    let copy = clip.duplicate();
    assert_eq!(copy.id, clip.id);
    assert_eq!(copy.start, clip.start);
    assert_eq!(copy.name.as_str(), "c");
}

#[test]
fn collection_keeps_clips_in_key_order() {
    let mut c = ClipCollection::new();
    c.insert(clip_with(3, 300, 10, "c"));
    c.insert(clip_with(1, 100, 10, "a"));
    c.insert(clip_with(2, 200, 10, "b"));
    assert_eq!(spans(&c), vec![(100, 10, 1), (200, 10, 2), (300, 10, 3)]);
    assert_eq!(c.len(), 3);
}

#[test]
fn equal_starts_are_ordered_by_id() {
    let mut c = ClipCollection::new();
    c.insert(clip_with(9, 100, 0, "b"));
    c.insert(clip_with(4, 100, 0, "a"));
    assert_eq!(spans(&c), vec![(100, 0, 4), (100, 0, 9)]);
}

#[test]
fn insert_drops_clips_inside_the_new_span() {
    let mut c = ClipCollection::new();
    c.insert(clip_with(1, 110, 10, "inside"));
    c.insert(clip_with(2, 130, 20, "inside too"));
    c.insert(clip_with(3, 100, 100, "new"));
    assert_eq!(spans(&c), vec![(100, 100, 3)]);
}

#[test]
fn insert_cuts_a_clip_reaching_past_the_end() {
    let mut c = ClipCollection::new();
    c.insert(clip_with(1, 150, 100, "long"));
    c.insert(clip_with(2, 100, 100, "new"));
    let s = spans(&c);
    assert_eq!(s.len(), 2);
    assert_eq!(s[0], (100, 100, 2));
    // the part after the new clip keeps going to tick 250
    assert_eq!((s[1].0, s[1].1), (200, 50));
}

#[test]
fn insert_splits_a_clip_surrounding_the_new_one() {
    let mut c = ClipCollection::new();
    c.insert(clip_with(1, 0, 300, "long"));
    c.insert(clip_with(2, 100, 50, "new"));
    let s = spans(&c);
    assert_eq!(s.len(), 3);
    assert_eq!((s[0].0, s[0].1), (0, 100));
    assert_eq!(s[1], (100, 50, 2));
    assert_eq!((s[2].0, s[2].1), (150, 150));
    let names: Vec<String> = c.clips().iter().map(|c| c.name.as_str().to_string()).collect();
    assert_eq!(names, vec!["long", "new", "long"]);
}

#[test]
fn insert_shortens_a_clip_ending_inside_the_new_one() {
    let mut c = ClipCollection::new();
    c.insert(clip_with(1, 0, 120, "left"));
    c.insert(clip_with(2, 100, 100, "new"));
    let s = spans(&c);
    assert_eq!(s.len(), 2);
    assert_eq!((s[0].0, s[0].1), (0, 100));
    assert_eq!(s[1], (100, 100, 2));
}

#[test]
fn insert_keeps_clips_away_from_the_new_one() {
    let mut c = ClipCollection::new();
    c.insert(clip_with(1, 0, 100, "before"));
    c.insert(clip_with(2, 300, 10, "after"));
    c.insert(clip_with(3, 100, 100, "new"));
    assert_eq!(spans(&c), vec![(0, 100, 1), (100, 100, 3), (300, 10, 2)]);
}

#[test]
fn inserted_clip_overlaps_no_other_clip() {
    let mut c = ClipCollection::new();
    c.insert(clip_with(1, 0, 500, "a"));
    c.insert(clip_with(2, 450, 200, "b"));
    c.insert(clip_with(3, 600, 50, "c"));
    c.insert(clip_with(4, 200, 500, "new"));
    let new_start = 200u64;
    let new_end = 700u64;
    for clip in c.clips() {
        if clip.id.0 .0 != 4 {
            let start = clip.start.0;
            let end = start + clip.duration.0;
            assert!(end <= new_start || start >= new_end, "{} {}", start, end);
        }
    }
    assert!(c.clips().iter().any(|x| x.id.0 .0 == 4 && x.start.0 == 200));
}

#[test]
fn get_remove_and_find_take() {
    let mut c = ClipCollection::new();
    c.insert(clip_with(1, 0, 10, "a"));
    c.insert(clip_with(2, 20, 10, "b"));
    let key = ClipKey { start: Tick(20), id: ClipId(DataId(2)) };
    assert_eq!(c.get(&key).unwrap().name.as_str(), "b");
    let missing = ClipKey { start: Tick(21), id: ClipId(DataId(2)) };
    assert!(c.get(&missing).is_none());
    assert_eq!(c.remove(&key).unwrap().id, ClipId(DataId(2)));
    assert!(c.remove(&key).is_none());
    assert_eq!(c.len(), 1);
    assert_eq!(c.find_take(ClipId(DataId(1))).unwrap().start, Tick(0));
    assert!(c.find_take(ClipId(DataId(1))).is_none());
    assert_eq!(c.len(), 0);
}

#[test]
fn overlap_queries_return_keys_with_clips() {
    let mut c = ClipCollection::new();
    c.insert(clip_with(1, 0, 100, "a"));
    c.insert(clip_with(2, 150, 10, "b"));
    c.insert(clip_with(3, 300, 10, "c"));
    let sample = clip_with(9, 50, 200, "s");
    let outer = c.get_surrounded_overlapped_clips(&sample);
    assert_eq!(outer.len(), 1);
    assert_eq!(outer[0].0, ClipKey { start: Tick(0), id: ClipId(DataId(1)) });
    let inner = c.get_overlapped_inner(&sample);
    assert_eq!(inner.len(), 1);
    assert_eq!(inner[0].0, ClipKey { start: Tick(150), id: ClipId(DataId(2)) });
    assert_eq!(inner[0].1.name.as_str(), "b");
}

#[test]
fn clip_ids_default_to_nil() {
    assert_eq!(ClipId::default(), ClipId(DataId(0)));
    let k = ClipKey::default();
    assert_eq!(k.start, Tick(0));
    assert_eq!(k.id, ClipId(DataId(0)));
    assert_eq!(ClipId(DataId(0xab)).to_string(), "00000000-0000-0000-0000-0000000000ab");
}

#[test]
fn insert_keeps_clips_from_sharing_ticks() {
    let mut c = ClipCollection::new();
    c.insert(clip_with(1, 0, 30, "a"));
    c.insert(clip_with(2, 40, 20, "b"));
    c.insert(clip_with(3, 70, 30, "c"));
    c.insert(clip_with(4, 120, 100, "d"));
    c.insert(clip_with(5, 20, 55, "new"));
    c.insert(clip_with(6, 150, 10, "inside"));
    let s = spans(&c);
    for i in 0..s.len() {
        for j in 0..s.len() {
            if i != j {
                let (a, b) = (s[i], s[j]);
                assert!(a.1 == 0 || b.1 == 0 || a.0 + a.1 <= b.0 || b.0 + b.1 <= a.0);
            }
        }
    }
    assert_eq!(
        s.iter().map(|x| (x.0, x.1)).collect::<Vec<_>>(),
        vec![(0, 20), (20, 55), (75, 25), (120, 30), (150, 10), (160, 60)]
    );
}
