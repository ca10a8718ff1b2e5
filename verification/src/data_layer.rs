//! The object that holds all persistent data of the application.

use vstd::prelude::*;

use crate::clip::{all_random, demo_segment, end_of, insert_result, Clip, ClipView};
use crate::clip_laws::lemma_insert_after_all;
use crate::common::{is_random_id, DataId};
use crate::instrument::Instrument;
use crate::project::Project;
use crate::tick::Tick;
use crate::track::{first_track, no_track, Track, TrackId, TrackView};

verus! {

/// State of the editor, such as the note or automation editor modes.
#[derive(Debug)]
pub struct EditorState {
    /// Identifier of the selected clip, so that it can be found later.
    pub selected_clip: DataId,
}

impl Default for EditorState {
    fn default() -> (e: EditorState)
        ensures
            e.selected_clip.0 == 0,
    {
        EditorState { selected_clip: DataId(0) }
    }
}

/// Error of the data layer.
#[derive(Clone, Copy, Debug, PartialEq, Eq, Structural)]
pub enum DataLayerError {
    /// An action on a track was attempted, but no track has that identifier.
    NoTrack(TrackId),
}

/// Holds all persistent data objects used by the application.
#[derive(Debug)]
pub struct DataLayer {
    /// The project being edited.
    pub project_manager: Project,
    /// The state of the editor.
    pub editor_state: EditorState,
    /// The playhead tick, handed to the data layer so the interface can show it.
    pub tick: Tick,
}

impl Default for DataLayer {
    fn default() -> (d: DataLayer)
        ensures
            d.project_manager.track_collection@ == Seq::<TrackView>::empty(),
            d.project_manager.instrument_manager@ == Seq::<Instrument>::empty(),
            d.editor_state.selected_clip.0 == 0,
            d.tick.0 == 0,
    {
        DataLayer {
            project_manager: Project::new(),
            editor_state: EditorState::default(),
            tick: Tick(0),
        }
    }
}

/// A demonstration clip as `Clip::new` makes it: called `name`, starting at
/// `start`, lasting `duration` ticks, with a random identifier and its three
/// demonstration notes.
pub open spec fn demo_clip(c: ClipView, name: Seq<char>, start: u64, duration: u64) -> bool {
    &&& c.name == name
    &&& c.start == start
    &&& c.duration == duration
    &&& is_random_id(c.id)
    &&& c.events.dom() =~= set![0u64, 480u64, 960u64]
    &&& demo_segment(c.events[0]@, 0, 480, 46)
    &&& demo_segment(c.events[480]@, 240, 700, 47)
    &&& demo_segment(c.events[960]@, 960, 1440, 50)
}

/// Adds a demonstration clip to `track`, after all of its clips.
fn add_demo_clip(track: &mut Track, name: &str, start: u64, duration: u64)
    requires
        start + duration <= u64::MAX,
        forall|i: int|
            0 <= i < old(track)@.clips.len() ==> (#[trigger] old(track)@.clips[i]).start < start
                && end_of(old(track)@.clips[i]) <= start,
    ensures
        exists|c: ClipView|
            demo_clip(c, name@, start, duration) && final(track)@ == (TrackView {
                clips: old(track)@.clips.push(c),
                ..old(track)@
            }),
{
    let ghost init = (*track)@;
    let clip = Clip::new(Tick(start), name, Tick(duration));
    let ghost cv = clip@;
    assert(demo_clip(cv, name@, start, duration));
    track.add_clip(clip);
    proof {
        let (i, o) = choose|i: Seq<u128>, o: Seq<u128>|
            all_random(i) && all_random(o) && (*track)@ == (TrackView {
                clips: insert_result(init.clips, cv, i, o),
                ..init
            });
        lemma_insert_after_all(init.clips, cv, i, o);
    }
}

impl DataLayer {
    /// Adds `clip` to the first track with identifier `track_id`, resolving
    /// overlaps as `ClipCollection::insert` does; fails when there is no
    /// such track.
    pub fn add_clip(&mut self, track_id: TrackId, clip: Clip) -> (r: Result<(), DataLayerError>)
        requires
            clip.start.0 + clip.duration.0 <= u64::MAX,
        ensures
            final(self).tick.0 == old(self).tick.0,
            final(self).editor_state.selected_clip == old(self).editor_state.selected_clip,
            final(self).project_manager.instrument_manager@
                == old(self).project_manager.instrument_manager@,
            match r {
                Ok(()) => exists|q: int, inner: Seq<u128>, outer: Seq<u128>|
                    first_track(old(self).project_manager.track_collection@, track_id.0.0, q)
                        && all_random(inner) && all_random(outer)
                        && final(self).project_manager.track_collection@ == old(
                        self,
                    ).project_manager.track_collection@.update(
                        q,
                        TrackView {
                            clips: insert_result(
                                old(self).project_manager.track_collection@[q].clips,
                                clip@,
                                inner,
                                outer,
                            ),
                            ..old(self).project_manager.track_collection@[q]
                        },
                    ),
                Err(e) => e == DataLayerError::NoTrack(track_id) && no_track(
                    old(self).project_manager.track_collection@,
                    track_id.0.0,
                ) && final(self).project_manager.track_collection@
                    == old(self).project_manager.track_collection@,
            },
    {
        let ghost s = self.project_manager.track_collection@;
        let ghost cv = clip@;
        if let Some(track) = self.project_manager.track_collection.get_mut(track_id) {
            let ghost q = choose|q: int| first_track(s, track_id.0.0, q) && (*track)@ == s[q];
            let ghost init = (*track)@;
            track.add_clip(clip);
            let ghost fin = (*track)@;
            proof {
                let (i, o) = choose|i: Seq<u128>, o: Seq<u128>|
                    all_random(i) && all_random(o) && fin == (TrackView {
                        clips: insert_result(init.clips, cv, i, o),
                        ..init
                    });
                assert(self.project_manager.track_collection@ == s.update(q, fin));
            }
        } else {
            return Err(DataLayerError::NoTrack(track_id));
        }
        Ok(())
    }

    /// Sets the playhead tick.
    pub fn set_tick(&mut self, tick: Tick)
        ensures
            final(self).tick.0 == tick.0,
            final(self).project_manager.track_collection@
                == old(self).project_manager.track_collection@,
            final(self).project_manager.instrument_manager@
                == old(self).project_manager.instrument_manager@,
            final(self).editor_state.selected_clip == old(self).editor_state.selected_clip,
    {
        self.tick = tick;
    }

    /// The playhead tick.
    pub fn get_tick(&self) -> (t: Tick)
        ensures
            t.0 == self.tick.0,
    {
        self.tick
    }

    /// A data layer with four demonstration tracks: the first without clips,
    /// the second with one clip, the others with two and three.
    pub fn fake_data() -> (d: DataLayer)
        ensures
            d.tick.0 == 0,
            d.editor_state.selected_clip.0 == 0,
            d.project_manager.instrument_manager@ == Seq::<Instrument>::empty(),
            d.project_manager.track_collection@.len() == 4,
            forall|i: int|
                0 <= i < 4 ==> is_random_id(#[trigger] d.project_manager.track_collection@[i].id)
                    && d.project_manager.track_collection@[i].instrument_name == "port0"@
                    && d.project_manager.track_collection@[i].port == 0
                    && d.project_manager.track_collection@[i].channel == 0,
            d.project_manager.track_collection@[0].name == "track_0"@,
            d.project_manager.track_collection@[1].name == "track_1"@,
            d.project_manager.track_collection@[2].name == "track_2"@,
            d.project_manager.track_collection@[3].name == "track_2"@,
            d.project_manager.track_collection@[0].clips.len() == 0,
            d.project_manager.track_collection@[1].clips.len() == 1,
            demo_clip(d.project_manager.track_collection@[1].clips[0], "clip_0"@, 0, 240),
            d.project_manager.track_collection@[2].clips.len() == 2,
            demo_clip(d.project_manager.track_collection@[2].clips[0], "clip_1"@, 120, 10),
            demo_clip(d.project_manager.track_collection@[2].clips[1], "clip_2"@, 480, 120),
            d.project_manager.track_collection@[3].clips.len() == 3,
            demo_clip(d.project_manager.track_collection@[3].clips[0], "clip_3"@, 0, 10),
            demo_clip(d.project_manager.track_collection@[3].clips[1], "clip_4"@, 120, 20),
            demo_clip(d.project_manager.track_collection@[3].clips[2], "clip_5"@, 240, 420),
    {
        let mut project_manager = Project::default();

        let track_0 = Track::new(TrackId::new(), "track_0");
        project_manager.add_track(track_0);

        let mut track_1 = Track::new(TrackId::new(), "track_1");
        add_demo_clip(&mut track_1, "clip_0", 0, 240);
        project_manager.add_track(track_1);

        let mut track_2 = Track::new(TrackId::new(), "track_2");
        add_demo_clip(&mut track_2, "clip_1", 120, 10);
        add_demo_clip(&mut track_2, "clip_2", 480, 120);
        project_manager.add_track(track_2);

        let mut track_3 = Track::new(TrackId::new(), "track_2");
        add_demo_clip(&mut track_3, "clip_3", 0, 10);
        add_demo_clip(&mut track_3, "clip_4", 120, 20);
        add_demo_clip(&mut track_3, "clip_5", 240, 420);
        project_manager.add_track(track_3);

        DataLayer { project_manager, editor_state: EditorState::default(), tick: Tick(0) }
    }
}

/// Reading the playhead gives back the tick last set: after `set_tick(t)`,
/// `get_tick` returns `t`, whatever the data layer held before.
pub proof fn lemma_get_tick_after_set_tick(after_set: DataLayer, t: Tick, read: Tick)
    requires
        after_set.tick.0 == t.0,
        read.0 == after_set.tick.0,
    ensures
        read == t,
{
}

} // verus!
