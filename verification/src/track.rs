//! Tracks and the ordered collection of tracks of a project.

use vstd::prelude::*;

use crate::clip::{
    all_random, has_key, ids_match, insert_result, key_of, seq_remove, Clip, ClipCollection, ClipId,
    ClipKey, ClipView,
};
use crate::common::{id_text, is_random_id, DataId};
use crate::instrument::{instrument_text, Instrument};

verus! {

/// Identifier of a track.
#[derive(Clone, Copy, Debug, PartialEq, Eq, Structural, Hash)]
pub struct TrackId(pub DataId);

impl TrackId {
    /// Creates a new random track identifier.
    pub fn new() -> (id: TrackId)
        ensures
            is_random_id(id.0.0),
    {
        TrackId(DataId::new())
    }

    /// The identifier in its hyphenated text form.
    pub fn to_string(&self) -> (s: String)
        ensures
            s@ == id_text(self.0.0),
    {
        self.0.to_string()
    }
}

impl Default for TrackId {
    fn default() -> (id: TrackId)
        ensures
            id.0.0 == 0,
    {
        TrackId(DataId(0))
    }
}

/// Error of a track collection.
#[derive(Clone, Copy, Debug, PartialEq, Eq, Structural)]
pub enum TrackCollectionError {
    /// There is no track at this index.
    NoTrack(usize),
}

/// What a track is, as the contracts see it.
pub struct TrackView {
    /// Identifier.
    pub id: u128,
    /// Label.
    pub name: Seq<char>,
    /// Name of the instrument.
    pub instrument_name: Seq<char>,
    /// MIDI port of the instrument.
    pub port: u8,
    /// MIDI channel of the instrument.
    pub channel: u8,
    /// Clips, in key order.
    pub clips: Seq<ClipView>,
}

/// A track: a labelled lane of clips played through one instrument.
#[derive(Debug)]
pub struct Track {
    /// Unique identifier of this track.
    pub id: TrackId,
    /// Name of the track, used as its label.
    pub name: String,
    /// Instrument assigned to this track.
    pub instrument: Instrument,
    /// Clips of this track.
    pub clip_collection: ClipCollection,
}

impl View for Track {
    type V = TrackView;

    open spec fn view(&self) -> TrackView {
        TrackView {
            id: self.id.0.0,
            name: self.name@,
            instrument_name: self.instrument.name@,
            port: self.instrument.port,
            channel: self.instrument.channel,
            clips: self.clip_collection@,
        }
    }
}

/// The text form of a track: its label and instrument.
pub open spec fn track_text(name: Seq<char>, instrument: Instrument) -> Seq<char> {
    name + ", instrument: "@ + instrument_text(instrument)
}

impl Track {
    /// Creates a track without clips, playing through instrument "port0" on
    /// port 0, channel 0.
    pub fn new(id: TrackId, name: &str) -> (t: Track)
        ensures
            t@ == (TrackView {
                id: id.0.0,
                name: name@,
                instrument_name: "port0"@,
                port: 0,
                channel: 0,
                clips: Seq::empty(),
            }),
    {
        Track {
            id,
            name: String::from_str(name),
            instrument: Instrument::new("port0", 0, 0),
            clip_collection: ClipCollection::new(),
        }
    }

    /// Sets the MIDI port of this track.
    pub fn set_port(&mut self, port: u8)
        ensures
            final(self)@ == (TrackView { port, ..old(self)@ }),
    {
        self.instrument.port = port;
    }

    /// Sets the MIDI channel of this track.
    pub fn set_channel(&mut self, channel: u8)
        ensures
            final(self)@ == (TrackView { channel, ..old(self)@ }),
    {
        self.instrument.channel = channel;
    }

    /// Adds a clip to this track, resolving overlaps as
    /// `ClipCollection::insert` does.
    pub fn add_clip(&mut self, clip: Clip)
        requires
            clip.start.0 + clip.duration.0 <= u64::MAX,
        ensures
            exists|inner: Seq<u128>, outer: Seq<u128>|
                all_random(inner) && all_random(outer) && ids_match(
                    old(self)@.clips,
                    clip@,
                    inner,
                    outer,
                ) && final(self)@ == (TrackView {
                    clips: insert_result(old(self)@.clips, clip@, inner, outer),
                    ..old(self)@
                }),
    {
        let ghost before = self.clip_collection@;
        self.clip_collection.insert(clip);
        proof {
            let (i, o) = choose|i: Seq<u128>, o: Seq<u128>|
                all_random(i) && all_random(o) && ids_match(before, clip@, i, o)
                    && self.clip_collection@ == insert_result(before, clip@, i, o);
            assert(self@ == (TrackView { clips: insert_result(old(self)@.clips, clip@, i, o), ..old(self)@ }));
        }
    }

    /// Removes the clip under `key` from this track.
    pub fn remove_clip(&mut self, key: &ClipKey)
        ensures
            final(self)@ == (TrackView {
                clips: seq_remove(old(self)@.clips, (key.start.0, key.id.0.0)),
                ..old(self)@
            }),
    {
        self.clip_collection.remove(key);
    }

    /// The track as text: its label and instrument.
    pub fn to_string(&self) -> (s: String)
        ensures
            s@ == track_text(self.name@, self.instrument),
    {
        let mut s = String::from_str(self.name.as_str());
        s.append(", instrument: ");
        let i = self.instrument.to_string();
        s.append(i.as_str());
        s
    }
}

/// The views of a sequence of tracks.
pub open spec fn track_views(v: Seq<Track>) -> Seq<TrackView> {
    v.map_values(|t: Track| t@)
}

/// `p` is the first position of a track with identifier `id`.
pub open spec fn first_track(s: Seq<TrackView>, id: u128, p: int) -> bool {
    &&& 0 <= p < s.len()
    &&& s[p].id == id
    &&& forall|q: int| 0 <= q < p ==> (#[trigger] s[q]).id != id
}

/// `p` is the first position of a track holding a clip with identifier `id`.
pub open spec fn first_holding(s: Seq<TrackView>, id: u128, p: int) -> bool {
    &&& 0 <= p < s.len()
    &&& holds_clip(s[p], id)
    &&& forall|q: int| 0 <= q < p ==> !holds_clip(#[trigger] s[q], id)
}

/// No track has identifier `id`.
pub open spec fn no_track(s: Seq<TrackView>, id: u128) -> bool {
    forall|q: int| 0 <= q < s.len() ==> (#[trigger] s[q]).id != id
}

/// Some clip of the track has identifier `id`.
pub open spec fn holds_clip(t: TrackView, id: u128) -> bool {
    exists|j: int| 0 <= j < t.clips.len() && t.clips[j].id == id
}

/// `j` is the first position, in key order, of a clip with identifier `id`.
pub open spec fn first_clip(clips: Seq<ClipView>, id: u128, j: int) -> bool {
    &&& 0 <= j < clips.len()
    &&& clips[j].id == id
    &&& forall|q: int| 0 <= q < j ==> (#[trigger] clips[q]).id != id
}

/// A collection of tracks, in the order they were added.
#[derive(Debug)]
pub struct TrackCollection {
    /// The tracks.
    inner: Vec<Track>,
}

impl View for TrackCollection {
    type V = Seq<TrackView>;

    closed spec fn view(&self) -> Seq<TrackView> {
        track_views(self.inner@)
    }
}

impl Default for TrackCollection {
    fn default() -> (c: TrackCollection)
        ensures
            c@ == Seq::<TrackView>::empty(),
    {
        let c = TrackCollection { inner: Vec::new() };
        assert(c@ =~= Seq::<TrackView>::empty());
        c
    }
}

/// The position of the first clip with identifier `clip_id`, if any.
fn first_with_id(clips: &[Clip], clip_id: ClipId) -> (r: Option<usize>)
    ensures
        match r {
            Some(j) => j < clips@.len() && first_clip(
                crate::clip::clip_views(clips@),
                clip_id.0.0,
                j as int,
            ),
            None => forall|q: int|
                0 <= q < clips@.len() ==> (#[trigger] clips@[q]).id.0.0 != clip_id.0.0,
        },
{
    let mut j: usize = 0;
    while j < clips.len()
        invariant
            0 <= j <= clips@.len(),
            forall|q: int| 0 <= q < j ==> (#[trigger] clips@[q]).id.0.0 != clip_id.0.0,
        decreases clips@.len() - j,
    {
        if clips[j].id.0.0 == clip_id.0.0 {
            proof {
                let cv = crate::clip::clip_views(clips@);
                assert forall|q: int| 0 <= q < j implies (#[trigger] cv[q]).id != clip_id.0.0 by {
                    assert(cv[q] == clips@[q]@);
                }
            }
            return Some(j);
        }
        j = j + 1;
    }
    None
}

/// Where the track at `p` has identifier `id`, a first track with that
/// identifier comes at or before `p`.
proof fn lemma_first_track_at_most(s: Seq<TrackView>, id: u128, p: int)
    requires
        0 <= p < s.len(),
        s[p].id == id,
    ensures
        exists|q: int| q <= p && first_track(s, id, q),
    decreases p,
{
    if exists|r: int| 0 <= r < p && s[r].id == id {
        let r = choose|r: int| 0 <= r < p && s[r].id == id;
        lemma_first_track_at_most(s, id, r);
    } else {
        assert(first_track(s, id, p));
    }
}

impl TrackCollection {
    /// The clips of the track at `index`.
    pub fn get_clips(&self, index: usize) -> (r: Result<&ClipCollection, TrackCollectionError>)
        ensures
            match r {
                Ok(c) => index < self@.len() && c@ == self@[index as int].clips,
                Err(e) => index >= self@.len() && e == TrackCollectionError::NoTrack(index),
            },
    {
        if index < self.inner.len() {
            Ok(&self.inner[index].clip_collection)
        } else {
            Err(TrackCollectionError::NoTrack(index))
        }
    }

    /// Adds a track at the end of the collection.
    pub fn add(&mut self, new_track: Track)
        ensures
            final(self)@ == old(self)@.push(new_track@),
    {
        self.inner.push(new_track);
        assert(self@ =~= old(self)@.push(new_track@));
    }

    /// The MIDI port of the track at `index`.
    pub fn get_track_port(&self, index: usize) -> (port: u8)
        requires
            index < self@.len(),
        ensures
            port == self@[index as int].port,
    {
        self.inner[index].instrument.port
    }

    /// The tracks, in order.
    pub fn tracks(&self) -> (s: &[Track])
        ensures
            track_views(s@) == self@,
    {
        self.inner.as_slice()
    }

    /// The track at `index`, if any.
    pub fn get(&self, index: usize) -> (r: Option<&Track>)
        ensures
            match r {
                Some(t) => index < self@.len() && t@ == self@[index as int],
                None => index >= self@.len(),
            },
    {
        if index < self.inner.len() {
            Some(&self.inner[index])
        } else {
            None
        }
    }

    /// The position of the first track with identifier `id`, if any.
    fn position(&self, id: TrackId) -> (r: Option<usize>)
        ensures
            match r {
                Some(p) => first_track(self@, id.0.0, p as int),
                None => no_track(self@, id.0.0),
            },
    {
        let mut i: usize = 0;
        while i < self.inner.len()
            invariant
                0 <= i <= self.inner.len(),
                forall|q: int| 0 <= q < i ==> (#[trigger] self@[q]).id != id.0.0,
            decreases self.inner.len() - i,
        {
            if self.inner[i].id.0.0 == id.0.0 {
                return Some(i);
            }
            i = i + 1;
        }
        None
    }

    /// The first track with identifier `id`, if any.
    pub fn get_by_id(&self, id: TrackId) -> (r: Option<&Track>)
        ensures
            match r {
                Some(t) => exists|p: int| first_track(self@, id.0.0, p) && t@ == self@[p],
                None => no_track(self@, id.0.0),
            },
    {
        match self.position(id) {
            Some(p) => Some(&self.inner[p]),
            None => None,
        }
    }

    /// The number of tracks.
    pub fn len(&self) -> (n: usize)
        ensures
            n == self@.len(),
    {
        self.inner.len()
    }

    /// Adds a track at the end of the collection.
    pub fn push(&mut self, track: Track)
        ensures
            final(self)@ == old(self)@.push(track@),
    {
        self.inner.push(track);
        assert(self@ =~= old(self)@.push(track@));
    }

    /// Takes the last track out of the collection.
    pub fn pop(&mut self) -> (r: Option<Track>)
        ensures
            match r {
                Some(t) => old(self)@.len() > 0 && t@ == old(self)@.last() && final(self)@
                    == old(self)@.drop_last(),
                None => old(self)@.len() == 0 && final(self)@ == old(self)@,
            },
    {
        let r = self.inner.pop();
        assert(self@ =~= if old(self)@.len() > 0 {
            old(self)@.drop_last()
        } else {
            old(self)@
        });
        r
    }

    /// Takes the clip with identifier `clip_id` out of the first track that
    /// holds one (the first such clip in key order), if any.
    pub fn take_clip(&mut self, clip_id: ClipId) -> (r: Option<Clip>)
        ensures
            match r {
                Some(c) => exists|p: int, j: int|
                    first_holding(old(self)@, clip_id.0.0, p) && first_clip(
                        old(self)@[p].clips,
                        clip_id.0.0,
                        j,
                    ) && c@ == old(self)@[p].clips[j] && final(self)@ == old(self)@.update(
                        p,
                        TrackView { clips: old(self)@[p].clips.remove(j), ..old(self)@[p] },
                    ),
                None => (forall|q: int|
                    0 <= q < old(self)@.len() ==> !holds_clip(#[trigger] old(self)@[q], clip_id.0.0))
                    && final(self)@ == old(self)@,
            },
    {
        let mut i: usize = 0;
        while i < self.inner.len()
            invariant
                0 <= i <= self.inner.len(),
                self@ == old(self)@,
                forall|q: int| 0 <= q < i ==> !holds_clip(#[trigger] self@[q], clip_id.0.0),
            decreases self.inner.len() - i,
        {
            let ghost before = self@;
            let r = self.inner[i].clip_collection.find_take(clip_id);
            match r {
                Some(c) => {
                    proof {
                        let p = i as int;
                        let j = choose|j: int|
                            0 <= j < before[p].clips.len() && before[p].clips[j].id == clip_id.0.0
                                && (forall|q: int|
                                0 <= q < j ==> (#[trigger] before[p].clips[q]).id != clip_id.0.0)
                                && c@ == before[p].clips[j] && self@[p].clips
                                == before[p].clips.remove(j);
                        assert(self@ =~= before.update(
                            p,
                            TrackView { clips: before[p].clips.remove(j), ..before[p] },
                        ));
                        assert(first_clip(before[p].clips, clip_id.0.0, j));
                    }
                    return Some(c);
                },
                None => {
                    assert(self@ =~= before);
                },
            }
            i = i + 1;
        }
        None
    }

    /// Where the clip with identifier `clip_id` is: the first track that
    /// holds one, and the key of the first such clip in key order.
    fn find_clip_key(&self, clip_id: ClipId) -> (r: Option<(usize, ClipKey)>)
        ensures
            match r {
                Some(found) => exists|j: int|
                    first_holding(self@, clip_id.0.0, found.0 as int) && first_clip(
                        self@[found.0 as int].clips,
                        clip_id.0.0,
                        j,
                    ) && (found.1.start.0, found.1.id.0.0) == key_of(self@[found.0 as int].clips[j]),
                None => forall|q: int|
                    0 <= q < self@.len() ==> !holds_clip(#[trigger] self@[q], clip_id.0.0),
            },
    {
        let mut p: usize = 0;
        while p < self.inner.len()
            invariant
                0 <= p <= self.inner.len(),
                forall|q: int| 0 <= q < p ==> !holds_clip(#[trigger] self@[q], clip_id.0.0),
            decreases self.inner.len() - p,
        {
            let clips = self.inner[p].clip_collection.clips();
            match first_with_id(clips.as_slice(), clip_id) {
                Some(j) => {
                    let key = ClipKey { start: clips[j].start, id: clips[j].id };
                    proof {
                        let cv = self@[p as int].clips;
                        assert(cv[j as int] == clips@[j as int]@);
                        assert(first_clip(cv, clip_id.0.0, j as int));
                        assert(first_holding(self@, clip_id.0.0, p as int));
                        assert(key_of(cv[j as int]) == (key.start.0, key.id.0.0));
                    }
                    let found = Some((p, key));
                    assert(found.unwrap().0 == p && found.unwrap().1 == key);
                    assert(exists|jj: int|
                        first_holding(self@, clip_id.0.0, found.unwrap().0 as int) && first_clip(
                            self@[found.unwrap().0 as int].clips,
                            clip_id.0.0,
                            jj,
                        ) && (found.unwrap().1.start.0, found.unwrap().1.id.0.0) == key_of(
                            self@[found.unwrap().0 as int].clips[jj],
                        ));
                    return found;
                },
                None => {
                    assert(!holds_clip(self@[p as int], clip_id.0.0));
                },
            }
            p = p + 1;
        }
        None
    }

    /// Removes the clip with identifier `clip_id`: the first one, in key
    /// order, of the first track that holds one. It is removed, by its key,
    /// from the first track that has that track's identifier, which must
    /// hold a clip under that key. Nothing changes when no track holds such
    /// a clip.
    pub fn remove_clip(&mut self, clip_id: ClipId)
        requires
            forall|p: int, j: int, q: int|
                first_holding(old(self)@, clip_id.0.0, p) && first_clip(
                    old(self)@[p].clips,
                    clip_id.0.0,
                    j,
                ) && first_track(old(self)@, old(self)@[p].id, q) ==> has_key(
                    old(self)@[q].clips,
                    key_of(old(self)@[p].clips[j]),
                ),
        ensures
            (forall|q: int|
                0 <= q < old(self)@.len() ==> !holds_clip(#[trigger] old(self)@[q], clip_id.0.0))
                ==> final(self)@ == old(self)@,
            (exists|q: int|
                0 <= q < old(self)@.len() && holds_clip(#[trigger] old(self)@[q], clip_id.0.0))
                ==> exists|p: int, j: int, q: int|
                first_holding(old(self)@, clip_id.0.0, p) && first_clip(
                    old(self)@[p].clips,
                    clip_id.0.0,
                    j,
                ) && first_track(old(self)@, old(self)@[p].id, q) && final(self)@ == old(
                    self,
                )@.update(
                    q,
                    TrackView {
                        clips: seq_remove(old(self)@[q].clips, key_of(old(self)@[p].clips[j])),
                        ..old(self)@[q]
                    },
                ),
    {
        let ghost s = self@;
        match self.find_clip_key(clip_id) {
            Some((p, key)) => {
                let track_id = self.inner[p].id;
                let ghost j = choose|j: int|
                    first_holding(s, clip_id.0.0, p as int) && first_clip(
                        s[p as int].clips,
                        clip_id.0.0,
                        j,
                    ) && (key.start.0, key.id.0.0) == key_of(s[p as int].clips[j]);
                proof {
                    lemma_first_track_at_most(s, track_id.0.0, p as int);
                }
                match self.get_mut(track_id) {
                    Some(track) => {
                        let ghost q = choose|q: int| first_track(s, track_id.0.0, q) && (*track)@ == s[q];
                        let ghost before = (*track)@;
                        let removed = track.clip_collection.remove(&key);
                        assert(removed.is_some());
                        assert((*track)@ == (TrackView {
                            clips: seq_remove(before.clips, (key.start.0, key.id.0.0)),
                            ..before
                        }));
                    },
                    None => {
                        assert(s[p as int].id == track_id.0.0);
                    },
                }
            },
            None => {},
        }
    }

    /// The first track with identifier `id`, for changing it, if any.
    pub fn get_mut(&mut self, id: TrackId) -> (r: Option<&mut Track>)
        ensures
            match r {
                Some(t) => exists|p: int|
                    first_track(old(self)@, id.0.0, p) && (*t)@ == old(self)@[p] && final(self)@
                        == old(self)@.update(p, (*final(t))@),
                None => no_track(old(self)@, id.0.0) && final(self)@ == old(self)@,
            },
    {
        match self.position(id) {
            Some(p) => {
                let t = &mut self.inner[p];
                Some(t)
            },
            None => None,
        }
    }
}

} // verus!
