//! A project: its tracks and instruments.

use vstd::prelude::*;

use crate::clip::{all_random, ids_match, insert_result, Clip, ClipId, ClipView};
use crate::common::is_random_id;
use crate::instrument::Instrument;
use crate::tick::Tick;
use crate::track::{
    first_clip, first_holding, first_track, holds_clip, no_track, Track, TrackCollection,
    TrackId, TrackView,
};

verus! {

/// Keeps and manages the instruments of a project.
#[derive(Debug)]
pub struct InstrumentManager {
    /// The instruments managed.
    inner: Vec<Instrument>,
}

impl View for InstrumentManager {
    type V = Seq<Instrument>;

    closed spec fn view(&self) -> Seq<Instrument> {
        self.inner@
    }
}

impl Default for InstrumentManager {
    fn default() -> (m: InstrumentManager)
        ensures
            m@ == Seq::<Instrument>::empty(),
    {
        InstrumentManager { inner: Vec::new() }
    }
}

/// The tracks after taking out the first clip, in key order, with
/// identifier `id` from the first track `p` that holds one; `j` is that
/// clip's position.
pub open spec fn without_clip(s: Seq<TrackView>, p: int, j: int) -> Seq<TrackView> {
    s.update(p, TrackView { clips: s[p].clips.remove(j), ..s[p] })
}

/// The tracks after moving clip `c`, taken out as `without_clip` says, to
/// start at `tick` on the first track with identifier `track` (there is
/// one); `inner` and `outer` hold the new identifiers that inserting it
/// gives to pieces of clips it splits.
pub open spec fn after_move(
    mid: Seq<TrackView>,
    c: ClipView,
    track: u128,
    tick: u64,
    inner: Seq<u128>,
    outer: Seq<u128>,
) -> Seq<TrackView> {
    let q = choose|q: int| first_track(mid, track, q);
    mid.update(
        q,
        TrackView {
            clips: insert_result(mid[q].clips, ClipView { start: tick, ..c }, inner, outer),
            ..mid[q]
        },
    )
}

/// The identifiers `inner` and `outer` are as many as inserting clip `c`,
/// moved to start at `tick`, into the first track with identifier `track`
/// takes in each pass.
pub open spec fn move_ids_match(
    mid: Seq<TrackView>,
    c: ClipView,
    track: u128,
    tick: u64,
    inner: Seq<u128>,
    outer: Seq<u128>,
) -> bool {
    let q = choose|q: int| first_track(mid, track, q);
    ids_match(mid[q].clips, ClipView { start: tick, ..c }, inner, outer)
}

/// A sequencer project.
#[derive(Debug)]
pub struct Project {
    /// The tracks of this project.
    pub track_collection: TrackCollection,
    /// The instruments of this project.
    pub instrument_manager: InstrumentManager,
}

impl Default for Project {
    fn default() -> (p: Project)
        ensures
            p.track_collection@ == Seq::<TrackView>::empty(),
            p.instrument_manager@ == Seq::<Instrument>::empty(),
    {
        Project::new()
    }
}

impl Project {
    /// Creates an empty project.
    pub fn new() -> (p: Project)
        ensures
            p.track_collection@ == Seq::<TrackView>::empty(),
            p.instrument_manager@ == Seq::<Instrument>::empty(),
    {
        Project {
            track_collection: TrackCollection::default(),
            instrument_manager: InstrumentManager::default(),
        }
    }

    /// The number of tracks.
    pub fn track_count(&self) -> (n: usize)
        ensures
            n == self.track_collection@.len(),
    {
        self.track_collection.len()
    }

    /// Adds a track at the end.
    pub fn add_track(&mut self, track: Track)
        ensures
            final(self).track_collection@ == old(self).track_collection@.push(track@),
            final(self).instrument_manager@ == old(self).instrument_manager@,
    {
        self.track_collection.push(track);
    }

    /// Removes the last track, if any.
    pub fn remove_track(&mut self)
        ensures
            final(self).track_collection@ == if old(self).track_collection@.len() > 0 {
                old(self).track_collection@.drop_last()
            } else {
                old(self).track_collection@
            },
            final(self).instrument_manager@ == old(self).instrument_manager@,
    {
        self.track_collection.pop();
    }

    /// A copy of the first clip, in track order and then key order, with
    /// identifier `target_clip_id`, if any.
    pub fn find_clip(&self, target_clip_id: ClipId) -> (r: Option<Clip>)
        ensures
            match r {
                Some(c) => exists|p: int, j: int|
                    first_holding(self.track_collection@, target_clip_id.0.0, p) && first_clip(
                        self.track_collection@[p].clips,
                        target_clip_id.0.0,
                        j,
                    ) && c@ == self.track_collection@[p].clips[j],
                None => forall|q: int|
                    0 <= q < self.track_collection@.len() ==> !holds_clip(
                        #[trigger] self.track_collection@[q],
                        target_clip_id.0.0,
                    ),
            },
    {
        let tracks = self.track_collection.tracks();
        let ghost s = self.track_collection@;
        let mut p: usize = 0;
        while p < tracks.len()
            invariant
                0 <= p <= tracks@.len(),
                s == self.track_collection@,
                crate::track::track_views(tracks@) == s,
                forall|q: int| 0 <= q < p ==> !holds_clip(#[trigger] s[q], target_clip_id.0.0),
            decreases tracks@.len() - p,
        {
            let clips = tracks[p].clip_collection.clips();
            assert(s[p as int] == tracks@[p as int]@);
            let mut j: usize = 0;
            while j < clips.len()
                invariant
                    0 <= p < s.len(),
                    s == self.track_collection@,
                    0 <= j <= clips@.len(),
                    forall|q: int| 0 <= q < p ==> !holds_clip(#[trigger] s[q], target_clip_id.0.0),
                    crate::clip::clip_views(clips@) == s[p as int].clips,
                    forall|q: int|
                        0 <= q < j ==> (#[trigger] s[p as int].clips[q]).id != target_clip_id.0.0,
                decreases clips@.len() - j,
            {
                if clips[j].id.0.0 == target_clip_id.0.0 {
                    let c = clips[j].duplicate();
                    assert(first_clip(s[p as int].clips, target_clip_id.0.0, j as int));
                    assert(first_holding(s, target_clip_id.0.0, p as int));
                    return Some(c);
                }
                j = j + 1;
            }
            assert(!holds_clip(s[p as int], target_clip_id.0.0));
            p = p + 1;
        }
        None
    }

    /// Adds a track labelled "test" with a new random identifier at the end.
    pub fn push_track(&mut self)
        ensures
            final(self).track_collection@.len() == old(self).track_collection@.len() + 1,
            final(self).track_collection@.drop_last() == old(self).track_collection@,
            is_random_id(final(self).track_collection@.last().id),
            final(self).track_collection@.last().name == "test"@,
            final(self).track_collection@.last().clips == Seq::<ClipView>::empty(),
            final(self).instrument_manager@ == old(self).instrument_manager@,
    {
        let track = Track::new(TrackId::new(), "test");
        self.add_track(track);
    }

    /// Moves the clip with identifier `clip_id` to start at `tick` on the
    /// track with identifier `track_id`. The clip is taken from the first
    /// track that holds it and put on the first track with identifier
    /// `track_id`; when no track has that identifier, or no track holds the
    /// clip, nothing changes. The clip that moves must still end within 64
    /// bits of ticks at its new start.
    pub fn move_clip(&mut self, clip_id: ClipId, track_id: TrackId, tick: Tick)
        requires
            !no_track(old(self).track_collection@, track_id.0.0) ==> forall|p: int, j: int|
                first_holding(old(self).track_collection@, clip_id.0.0, p) && first_clip(
                    old(self).track_collection@[p].clips,
                    clip_id.0.0,
                    j,
                ) ==> tick.0 + old(self).track_collection@[p].clips[j].duration <= u64::MAX,
        ensures
            final(self).instrument_manager@ == old(self).instrument_manager@,
            no_track(old(self).track_collection@, track_id.0.0) || (forall|q: int|
                0 <= q < old(self).track_collection@.len() ==> !holds_clip(
                    #[trigger] old(self).track_collection@[q],
                    clip_id.0.0,
                )) ==> final(self).track_collection@ == old(self).track_collection@,
            !no_track(old(self).track_collection@, track_id.0.0) && (exists|q: int|
                0 <= q < old(self).track_collection@.len() && holds_clip(
                    #[trigger] old(self).track_collection@[q],
                    clip_id.0.0,
                )) ==> exists|p: int, j: int, inner: Seq<u128>, outer: Seq<u128>|
                first_holding(old(self).track_collection@, clip_id.0.0, p) && first_clip(
                    old(self).track_collection@[p].clips,
                    clip_id.0.0,
                    j,
                ) && all_random(inner) && all_random(outer) && move_ids_match(
                    without_clip(old(self).track_collection@, p, j),
                    old(self).track_collection@[p].clips[j],
                    track_id.0.0,
                    tick.0,
                    inner,
                    outer,
                ) && final(self).track_collection@ == after_move(
                    without_clip(old(self).track_collection@, p, j),
                    old(self).track_collection@[p].clips[j],
                    track_id.0.0,
                    tick.0,
                    inner,
                    outer,
                ),
    {
        if self.track_collection.get_by_id(track_id).is_none() {
            return;
        }
        let ghost s = self.track_collection@;
        let clip = self.track_collection.take_clip(clip_id);
        if let Some(mut clip) = clip {
            let ghost mid = self.track_collection@;
            assert(exists|p: int, j: int|
                first_holding(s, clip_id.0.0, p) && first_clip(s[p].clips, clip_id.0.0, j)
                    && clip@ == s[p].clips[j] && mid == s.update(
                    p,
                    TrackView { clips: s[p].clips.remove(j), ..s[p] },
                ));
            let ghost (p, j) = choose|p: int, j: int|
                first_holding(s, clip_id.0.0, p) && first_clip(s[p].clips, clip_id.0.0, j)
                    && clip@ == s[p].clips[j] && mid == s.update(
                    p,
                    TrackView { clips: s[p].clips.remove(j), ..s[p] },
                );
            assert(mid == without_clip(s, p, j));
            let ghost cv = clip@;
            clip.start = tick;
            proof {
                assert forall|r: int| 0 <= r < mid.len() implies (#[trigger] mid[r]).id == s[r].id by {
                    if r == p {
                    }
                }
            }
            match self.track_collection.get_mut(track_id) {
                Some(track) => {
                    let ghost q0 = choose|q0: int|
                        first_track(mid, track_id.0.0, q0) && (*track)@ == mid[q0];
                    let ghost init = (*track)@;
                    let ghost clipv = clip@;
                    assert(clipv == ClipView { start: tick.0, ..cv });
                    track.add_clip(clip);
                    let ghost fin = (*track)@;
                    proof {
                        let (i, o) = choose|i: Seq<u128>, o: Seq<u128>|
                            all_random(i) && all_random(o) && ids_match(init.clips, clipv, i, o)
                                && fin == (TrackView {
                                clips: insert_result(init.clips, clipv, i, o),
                                ..init
                            });
                        let q = choose|q: int| first_track(mid, track_id.0.0, q);
                        if q < q0 {
                            assert(mid[q].id == track_id.0.0);
                        } else if q > q0 {
                            assert(mid[q0].id == track_id.0.0);
                        }
                        assert(self.track_collection@ == mid.update(q0, fin));
                        assert(self.track_collection@ == after_move(
                            mid,
                            cv,
                            track_id.0.0,
                            tick.0,
                            i,
                            o,
                        ));
                    }
                },
                None => {
                    proof {
                        let q = choose|q: int| 0 <= q < s.len() && s[q].id == track_id.0.0;
                        assert(mid[q].id == track_id.0.0);
                    }
                },
            }
        }
    }
}

} // verus!
