//! The sequencer's decisions: its transport state, how commands change it,
//! what one tick of time does, and which events are due at a tick.

use vstd::prelude::*;

use crate::clip::ClipView;
use crate::event_list::EventSegment;
use crate::tick::Tick;
use crate::track::{TrackCollection, TrackView};

verus! {

/// Commands a sequencer accepts.
#[derive(Clone, Copy, Debug, PartialEq, Eq, Structural)]
pub enum SequencerCommand {
    /// Start playing.
    Play,
    /// Stop playing.
    Stop,
    /// Stop playing and go back to tick zero.
    Reset,
    /// Pause playing.
    Pause,
}

/// Transport state of a sequencer.
#[derive(Clone, Copy, Debug)]
pub struct SequencerState {
    /// True while the sequencer plays.
    running: bool,
    /// Position of the playhead.
    pub current_tick: Tick,
    /// Parts per quarter note: ticks per beat.
    ppqn: u32,
}

impl SequencerState {
    /// The sequencer plays.
    pub closed spec fn is_running(&self) -> bool {
        self.running
    }

    /// The position of the playhead.
    pub closed spec fn position(&self) -> u64 {
        self.current_tick.0
    }

    /// Ticks per beat.
    pub closed spec fn ticks_per_beat(&self) -> u32 {
        self.ppqn
    }

    /// A stopped sequencer at tick zero, with 480 ticks per beat.
    pub fn new() -> (s: SequencerState)
        ensures
            !s.is_running(),
            s.position() == 0,
            s.ticks_per_beat() == 480,
    {
        SequencerState { running: false, current_tick: Tick(0), ppqn: 480 }
    }

    /// True while the sequencer plays.
    pub fn running(&self) -> (r: bool)
        ensures
            r == self.is_running(),
    {
        self.running
    }

    /// The position of the playhead.
    pub fn tick_now(&self) -> (t: Tick)
        ensures
            t.0 == self.position(),
    {
        self.current_tick
    }

    /// Ticks per beat.
    pub fn ppqn(&self) -> (p: u32)
        ensures
            p == self.ticks_per_beat(),
    {
        self.ppqn
    }

    /// Applies a command: play starts the sequencer, stop and pause stop it
    /// where it is, reset stops it and puts the playhead back at zero.
    pub fn handle_command(&mut self, command: SequencerCommand)
        ensures
            final(self).ticks_per_beat() == old(self).ticks_per_beat(),
            final(self).is_running() == (command == SequencerCommand::Play),
            final(self).position() == if command == SequencerCommand::Reset {
                0
            } else {
                old(self).position()
            },
    {
        match command {
            SequencerCommand::Play => {
                self.running = true;
            },
            SequencerCommand::Stop => {
                self.running = false;
            },
            SequencerCommand::Reset => {
                self.current_tick = Tick(0);
                self.running = false;
            },
            SequencerCommand::Pause => {
                self.running = false;
            },
        }
    }

    /// One tick of time: while playing, returns the tick whose events are
    /// due now and moves the playhead one tick on; while stopped, does
    /// nothing.
    pub fn advance(&mut self) -> (due: Option<Tick>)
        requires
            old(self).is_running() ==> old(self).position() < u64::MAX,
        ensures
            final(self).is_running() == old(self).is_running(),
            final(self).ticks_per_beat() == old(self).ticks_per_beat(),
            if old(self).is_running() {
                due == Some(Tick(old(self).position())) && final(self).position() == old(
                    self,
                ).position() + 1
            } else {
                due.is_none() && final(self).position() == old(self).position()
            },
    {
        if self.running {
            let due = self.current_tick;
            self.current_tick.tick();
            Some(due)
        } else {
            None
        }
    }
}

impl Default for SequencerState {
    fn default() -> (s: SequencerState)
        ensures
            !s.is_running(),
            s.position() == 0,
            s.ticks_per_beat() == 480,
    {
        SequencerState::new()
    }
}

/// The events a clip holds at tick `t` of its event list.
pub open spec fn clip_events_at(c: ClipView, t: u64) -> Seq<EventSegment> {
    if c.events.contains_key(t) {
        c.events[t]@
    } else {
        Seq::empty()
    }
}

/// The events the clips hold at tick `t`, clip after clip.
pub open spec fn clips_events_at(cs: Seq<ClipView>, t: u64) -> Seq<EventSegment>
    decreases cs.len(),
{
    if cs.len() == 0 {
        Seq::empty()
    } else {
        clips_events_at(cs.drop_last(), t) + clip_events_at(cs.last(), t)
    }
}

/// The events the tracks hold at tick `t`, track after track.
pub open spec fn tracks_events_at(ts: Seq<TrackView>, t: u64) -> Seq<EventSegment>
    decreases ts.len(),
{
    if ts.len() == 0 {
        Seq::empty()
    } else {
        tracks_events_at(ts.drop_last(), t) + clips_events_at(ts.last().clips, t)
    }
}

/// The events due at `tick`: those every clip of every track holds under
/// that tick in its event list, in track order, then clip order, then the
/// order they were added in.
pub fn events_at(tracks: &TrackCollection, tick: Tick) -> (events: Vec<EventSegment>)
    ensures
        events@ == tracks_events_at(tracks@, tick.0),
{
    let ts = tracks.tracks();
    let ghost tv = tracks@;
    let mut out: Vec<EventSegment> = Vec::new();
    let mut p: usize = 0;
    while p < ts.len()
        invariant
            0 <= p <= ts@.len(),
            crate::track::track_views(ts@) == tv,
            out@ == tracks_events_at(tv.take(p as int), tick.0),
        decreases ts@.len() - p,
    {
        let clips = ts[p].clip_collection.clips();
        let ghost cv = tv[p as int].clips;
        assert(crate::clip::clip_views(clips@) == cv);
        let ghost base = out@;
        let mut j: usize = 0;
        while j < clips.len()
            invariant
                0 <= j <= clips@.len(),
                crate::clip::clip_views(clips@) == cv,
                out@ == base + clips_events_at(cv.take(j as int), tick.0),
            decreases clips@.len() - j,
        {
            let ghost before = out@;
            match clips[j].events.get(&tick) {
                Some(segments) => {
                    let mut k: usize = 0;
                    while k < segments.len()
                        invariant
                            0 <= k <= segments@.len(),
                            out@ == before + segments@.take(k as int),
                        decreases segments@.len() - k,
                    {
                        out.push(segments[k]);
                        assert(segments@.take(k + 1) =~= segments@.take(k as int).push(
                            segments@[k as int],
                        ));
                        assert(out@ =~= before + segments@.take(k + 1));
                        k = k + 1;
                    }
                    assert(segments@.take(segments@.len() as int) =~= segments@);
                },
                None => {},
            }
            proof {
                assert(cv.take(j + 1).drop_last() =~= cv.take(j as int));
                assert(cv.take(j + 1).last() == cv[j as int]);
                assert(cv[j as int] == clips@[j as int]@);
                assert(out@ =~= base + clips_events_at(cv.take(j + 1), tick.0));
            }
            j = j + 1;
        }
        proof {
            assert(cv.take(cv.len() as int) =~= cv);
            assert(tv.take(p + 1).drop_last() =~= tv.take(p as int));
            assert(tv.take(p + 1).last() == tv[p as int]);
        }
        p = p + 1;
    }
    proof {
        assert(tv.take(tv.len() as int) =~= tv);
    }
    out
}

/// How many segments clip `c` holds under tick `t` in its event list.
pub open spec fn segment_count(c: ClipView, t: u64) -> nat {
    if c.events.dom().contains(t) {
        c.events[t]@.len()
    } else {
        0
    }
}

/// How many segments the clips hold under tick `t`, all together.
pub open spec fn clips_segment_count(cs: Seq<ClipView>, t: u64) -> nat
    decreases cs.len(),
{
    if cs.len() == 0 {
        0
    } else {
        clips_segment_count(cs.drop_last(), t) + segment_count(cs.last(), t)
    }
}

/// How many segments the clips of the tracks hold under tick `t`, all
/// together.
pub open spec fn tracks_segment_count(ts: Seq<TrackView>, t: u64) -> nat
    decreases ts.len(),
{
    if ts.len() == 0 {
        0
    } else {
        tracks_segment_count(ts.drop_last(), t) + clips_segment_count(ts.last().clips, t)
    }
}

/// Every segment a clip holds under tick `t` is among the clips' events due
/// at `t`.
proof fn lemma_clip_segment_due(cs: Seq<ClipView>, t: u64, i: int, k: int)
    requires
        0 <= i < cs.len(),
        cs[i].events.dom().contains(t),
        0 <= k < cs[i].events[t]@.len(),
    ensures
        clips_events_at(cs, t).contains(cs[i].events[t]@[k]),
    decreases cs.len(),
{
    let pre = clips_events_at(cs.drop_last(), t);
    if i == cs.len() - 1 {
        let all = clips_events_at(cs, t);
        assert(all[pre.len() + k] == cs[i].events[t]@[k]);
    } else {
        assert(cs.drop_last()[i] == cs[i]);
        lemma_clip_segment_due(cs.drop_last(), t, i, k);
        let j = choose|j: int| 0 <= j < pre.len() && pre[j] == cs[i].events[t]@[k];
        assert(clips_events_at(cs, t)[j] == pre[j]);
    }
}

/// Every segment that a clip of a track holds under tick `t` is due at `t`:
/// it is among the events `events_at` gives for `t`. A chord, several
/// segments under one tick, is due whole.
pub proof fn lemma_every_segment_is_due(ts: Seq<TrackView>, t: u64, r: int, i: int, k: int)
    requires
        0 <= r < ts.len(),
        0 <= i < ts[r].clips.len(),
        ts[r].clips[i].events.dom().contains(t),
        0 <= k < ts[r].clips[i].events[t]@.len(),
    ensures
        tracks_events_at(ts, t).contains(ts[r].clips[i].events[t]@[k]),
    decreases ts.len(),
{
    let pre = tracks_events_at(ts.drop_last(), t);
    let x = ts[r].clips[i].events[t]@[k];
    if r == ts.len() - 1 {
        lemma_clip_segment_due(ts[r].clips, t, i, k);
        let part = clips_events_at(ts.last().clips, t);
        let j = choose|j: int| 0 <= j < part.len() && part[j] == x;
        assert(tracks_events_at(ts, t)[pre.len() + j] == x);
    } else {
        assert(ts.drop_last()[r] == ts[r]);
        lemma_every_segment_is_due(ts.drop_last(), t, r, i, k);
        let j = choose|j: int| 0 <= j < pre.len() && pre[j] == x;
        assert(tracks_events_at(ts, t)[j] == x);
    }
}

/// The clips' events due at `t` are as many as the segments they hold under
/// `t`.
proof fn lemma_clips_due_count(cs: Seq<ClipView>, t: u64)
    ensures
        clips_events_at(cs, t).len() == clips_segment_count(cs, t),
    decreases cs.len(),
{
    if cs.len() > 0 {
        lemma_clips_due_count(cs.drop_last(), t);
    }
}

/// The events due at tick `t` are exactly as many as the segments all
/// clips of all tracks hold under `t`: with `lemma_every_segment_is_due`,
/// none is left out and none is added.
pub proof fn lemma_due_count(ts: Seq<TrackView>, t: u64)
    ensures
        tracks_events_at(ts, t).len() == tracks_segment_count(ts, t),
    decreases ts.len(),
{
    if ts.len() > 0 {
        lemma_due_count(ts.drop_last(), t);
        lemma_clips_due_count(ts.last().clips, t);
    }
}

} // verus!
