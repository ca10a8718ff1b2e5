//! Laws of a project that span several of its operations.

use vstd::prelude::*;

use crate::app_state::{effect_of, AppEffect, AppMessage};
use crate::clip::{end_of, ends_fit, insert_result, key_lt, key_of, sorted_clips, ClipId, ClipView};
use crate::clip_laws::{fresh_ids, lemma_insert_only_clip_with_id, lemma_insert_result_holds_clip};
use crate::project::{after_move, move_ids_match, without_clip};
use crate::tick::Tick;
use crate::track::{
    first_clip, first_holding, first_track, holds_clip, no_track, TrackId, TrackView,
};

verus! {

/// A clip added to a track (`Track::add_clip`) is found once the track is
/// added to a project (`Project::add_track`): a track of the project then
/// holds a clip with its identifier, so `Project::find_clip` with that
/// identifier answers `Some`.
pub proof fn lemma_clip_found_after_adding(
    tracks: Seq<TrackView>,
    t: TrackView,
    c: ClipView,
    inner: Seq<u128>,
    outer: Seq<u128>,
)
    ensures
        ({
            let added = TrackView { clips: insert_result(t.clips, c, inner, outer), ..t };
            exists|q: int|
                0 <= q < tracks.push(added).len() && holds_clip(
                    #[trigger] tracks.push(added)[q],
                    c.id,
                )
        }),
{
    let added = TrackView { clips: insert_result(t.clips, c, inner, outer), ..t };
    lemma_insert_result_holds_clip(t.clips, c, inner, outer);
    let j = choose|j: int| 0 <= j < added.clips.len() && added.clips[j] == c;
    let q = tracks.len() as int;
    assert(tracks.push(added)[q] == added);
    assert(added.clips[j].id == c.id);
    assert(holds_clip(tracks.push(added)[q], c.id));
}

/// A clip that `DataLayer::add_clip` adds to the track at `q` is held by
/// that track afterwards, so `Project::find_clip` with its identifier
/// answers `Some`.
pub proof fn lemma_clip_held_after_add_clip(
    tracks: Seq<TrackView>,
    q: int,
    c: ClipView,
    inner: Seq<u128>,
    outer: Seq<u128>,
)
    requires
        0 <= q < tracks.len(),
    ensures
        holds_clip(
            tracks.update(
                q,
                TrackView { clips: insert_result(tracks[q].clips, c, inner, outer), ..tracks[q] },
            )[q],
            c.id,
        ),
{
    let added = TrackView { clips: insert_result(tracks[q].clips, c, inner, outer), ..tracks[q] };
    lemma_insert_result_holds_clip(tracks[q].clips, c, inner, outer);
    let j = choose|j: int| 0 <= j < added.clips.len() && added.clips[j] == c;
    assert(tracks.update(q, added)[q] == added);
    assert(added.clips[j].id == c.id);
}

/// Where some track has identifier `id`, a first one has.
proof fn lemma_first_track_exists(s: Seq<TrackView>, id: u128, q: int)
    requires
        0 <= q < s.len(),
        s[q].id == id,
    ensures
        exists|p: int| first_track(s, id, p),
    decreases q,
{
    if exists|r: int| 0 <= r < q && s[r].id == id {
        let r = choose|r: int| 0 <= r < q && s[r].id == id;
        lemma_first_track_exists(s, id, r);
    } else {
        assert(first_track(s, id, q));
    }
}

/// A clip that `Project::move_clip` moves lands on the first track with
/// the target identifier, starting at the target tick, when there is such a
/// track; the other tracks are left as the clip's removal left them.
pub proof fn lemma_moved_clip_lands(
    mid: Seq<TrackView>,
    c: ClipView,
    track: u128,
    tick: u64,
    inner: Seq<u128>,
    outer: Seq<u128>,
)
    requires
        !no_track(mid, track),
    ensures
        exists|q: int|
            first_track(mid, track, q) && after_move(mid, c, track, tick, inner, outer)[q].clips.contains(
                ClipView { start: tick, ..c },
            ) && forall|r: int|
                0 <= r < mid.len() && r != q ==> #[trigger] after_move(
                    mid,
                    c,
                    track,
                    tick,
                    inner,
                    outer,
                )[r] == mid[r],
{
    let q0 = choose|q0: int| 0 <= q0 < mid.len() && mid[q0].id == track;
    lemma_first_track_exists(mid, track, q0);
    let q = choose|q: int| first_track(mid, track, q);
    let moved = ClipView { start: tick, ..c };
    lemma_insert_result_holds_clip(mid[q].clips, moved, inner, outer);
    assert(after_move(mid, c, track, tick, inner, outer)[q].clips == insert_result(
        mid[q].clips,
        moved,
        inner,
        outer,
    ));
}

/// Removing the last track (`Project::remove_track`) undoes adding a track
/// (`Project::add_track`).
pub proof fn lemma_remove_undoes_add_track(tracks: Seq<TrackView>, t: TrackView)
    ensures
        ({
            let added = tracks.push(t);
            (if added.len() > 0 {
                added.drop_last()
            } else {
                added
            }) == tracks
        }),
{
    assert(tracks.push(t).drop_last() =~= tracks);
}

/// Dropping a clip on a track moves it there: the application answers a
/// move request with a move of that clip to that track and tick, and the
/// move (`Project::move_clip`, when the clip is held and the track exists)
/// puts the clip, with its identifier and length, at that tick on the first
/// track with that identifier, leaving the other tracks as the clip's
/// removal left them.
pub proof fn lemma_drop_moves_clip(
    s: Seq<TrackView>,
    p: int,
    j: int,
    clip_id: ClipId,
    track_id: TrackId,
    tick: Tick,
    inner: Seq<u128>,
    outer: Seq<u128>,
)
    requires
        first_holding(s, clip_id.0.0, p),
        first_clip(s[p].clips, clip_id.0.0, j),
        !no_track(s, track_id.0.0),
    ensures
        effect_of(AppMessage::MoveClipRequest { clip_id, track_id, tick }) == (AppEffect::MoveClip {
            clip_id,
            track_id,
            tick,
        }),
        exists|q: int|
            first_track(without_clip(s, p, j), track_id.0.0, q) && after_move(
                without_clip(s, p, j),
                s[p].clips[j],
                track_id.0.0,
                tick.0,
                inner,
                outer,
            )[q].clips.contains(
                ClipView { start: tick.0, ..s[p].clips[j] },
            ),
        s[p].clips[j].id == clip_id.0.0,
{
    let mid = without_clip(s, p, j);
    let q0 = choose|q0: int| 0 <= q0 < s.len() && s[q0].id == track_id.0.0;
    assert(mid[q0].id == track_id.0.0);
    lemma_moved_clip_lands(mid, s[p].clips[j], track_id.0.0, tick.0, inner, outer);
}

/// There is only one first track with a given identifier.
proof fn lemma_first_track_unique(s: Seq<TrackView>, id: u128, a: int, b: int)
    requires
        first_track(s, id, a),
        first_track(s, id, b),
    ensures
        a == b,
{
    if a < b {
        assert(s[a].id == id);
    } else if b < a {
        assert(s[b].id == id);
    }
}

/// After `Project::move_clip` moves a clip to a track, that track (the first
/// with the target identifier) is the only track holding a clip with the
/// moved clip's identifier, and that clip is the moved one: its start is the
/// target tick, its length, name and the rest are kept. This holds where
/// the moved clip was the only clip of the project with its identifier and
/// the new identifiers given to pieces of clips it splits are fresh: they
/// differ from each other, from those of the target track's clips and from
/// the moved clip's.
pub proof fn lemma_moved_clip_held_by_target_alone(
    s: Seq<TrackView>,
    p: int,
    j: int,
    q: int,
    track: u128,
    tick: u64,
    inner: Seq<u128>,
    outer: Seq<u128>,
)
    requires
        0 <= p < s.len(),
        0 <= j < s[p].clips.len(),
        forall|r: int| 0 <= r < s.len() ==> sorted_clips(#[trigger] s[r].clips) && ends_fit(s[r].clips),
        forall|r: int, i: int|
            0 <= r < s.len() && 0 <= i < s[r].clips.len() && (#[trigger] s[r].clips[i]).id
                == s[p].clips[j].id ==> r == p && i == j,
        first_track(s, track, q),
        tick + s[p].clips[j].duration <= u64::MAX,
        move_ids_match(without_clip(s, p, j), s[p].clips[j], track, tick, inner, outer),
        fresh_ids(inner + outer, without_clip(s, p, j)[q].clips),
        forall|i: int|
            0 <= i < (inner + outer).len() ==> #[trigger] (inner + outer)[i] != s[p].clips[j].id,
    ensures
        ({
            let c = s[p].clips[j];
            let moved = ClipView { start: tick, ..c };
            let after = after_move(without_clip(s, p, j), c, track, tick, inner, outer);
            &&& after.len() == s.len()
            &&& after[q].id == track
            &&& after[q].clips.contains(moved)
            &&& forall|e: ClipView| #[trigger] after[q].clips.contains(e) && e.id == c.id ==> e == moved
            &&& forall|r: int| 0 <= r < after.len() && r != q ==> !holds_clip(#[trigger] after[r], c.id)
        }),
{
    let c = s[p].clips[j];
    let moved = ClipView { start: tick, ..c };
    let mid = without_clip(s, p, j);
    let after = after_move(mid, c, track, tick, inner, outer);
    assert forall|r: int| 0 <= r < mid.len() implies (#[trigger] mid[r]).id == s[r].id by {}
    assert(first_track(mid, track, q));
    let q1 = choose|q1: int| first_track(mid, track, q1);
    lemma_first_track_unique(mid, track, q, q1);
    let mc = s[p].clips.remove(j);
    assert(sorted_clips(mc) && ends_fit(mc)) by {
        let sc = s[p].clips;
        assert(sorted_clips(sc) && ends_fit(sc));
        assert forall|a: int, b: int| 0 <= a < b < mc.len() implies key_lt(
            key_of(mc[a]),
            key_of(mc[b]),
        ) by {
            let a0 = if a < j { a } else { a + 1 };
            let b0 = if b < j { b } else { b + 1 };
            assert(mc[a] == sc[a0] && mc[b] == sc[b0]);
        }
        assert forall|a: int| 0 <= a < mc.len() implies end_of(#[trigger] mc[a]) <= u64::MAX by {
            let a0 = if a < j { a } else { a + 1 };
            assert(mc[a] == sc[a0]);
        }
    }
    // No clip of the project other than the moved one has its identifier.
    assert forall|r: int, i: int| 0 <= r < mid.len() && 0 <= i < mid[r].clips.len() implies (
    #[trigger] mid[r].clips[i]).id != c.id by {
        if r == p {
            let i0 = if i < j { i } else { i + 1 };
            assert(mid[r].clips[i] == s[p].clips[i0]);
        }
    }
    let tc = mid[q].clips;
    assert(sorted_clips(tc) && ends_fit(tc));
    assert forall|e: ClipView| #[trigger] tc.contains(e) implies e.id != moved.id by {
        let i = choose|i: int| 0 <= i < tc.len() && tc[i] == e;
        assert(mid[q].clips[i] == e);
    }
    lemma_insert_only_clip_with_id(tc, moved, inner, outer);
    assert(after[q].clips == insert_result(tc, moved, inner, outer));
    assert forall|r: int| 0 <= r < after.len() && r != q implies !holds_clip(#[trigger] after[r], c.id) by {
        assert(after[r] == mid[r]);
        if holds_clip(mid[r], c.id) {
            let i = choose|i: int| 0 <= i < mid[r].clips.len() && mid[r].clips[i].id == c.id;
            assert(mid[r].clips[i].id != c.id);
        }
    }
}

/// Dropping a clip on a track leaves it there alone: the application
/// answers a move request with a move of that clip to that track and tick,
/// and after the move (`Project::move_clip`) the first track with that
/// identifier is the only track holding a clip with the dropped clip's
/// identifier, that clip starting at the tick with its length and name
/// kept. This holds where the dropped clip was the only clip of the project
/// with its identifier and the new identifiers given to pieces are fresh.
pub proof fn lemma_drop_leaves_clip_on_target_alone(
    s: Seq<TrackView>,
    p: int,
    j: int,
    q: int,
    clip_id: ClipId,
    track_id: TrackId,
    tick: Tick,
    inner: Seq<u128>,
    outer: Seq<u128>,
)
    requires
        first_holding(s, clip_id.0.0, p),
        first_clip(s[p].clips, clip_id.0.0, j),
        forall|r: int| 0 <= r < s.len() ==> sorted_clips(#[trigger] s[r].clips) && ends_fit(s[r].clips),
        forall|r: int, i: int|
            0 <= r < s.len() && 0 <= i < s[r].clips.len() && (#[trigger] s[r].clips[i]).id
                == clip_id.0.0 ==> r == p && i == j,
        first_track(s, track_id.0.0, q),
        tick.0 + s[p].clips[j].duration <= u64::MAX,
        move_ids_match(without_clip(s, p, j), s[p].clips[j], track_id.0.0, tick.0, inner, outer),
        fresh_ids(inner + outer, without_clip(s, p, j)[q].clips),
        forall|i: int| 0 <= i < (inner + outer).len() ==> #[trigger] (inner + outer)[i] != clip_id.0.0,
    ensures
        effect_of(AppMessage::MoveClipRequest { clip_id, track_id, tick }) == (AppEffect::MoveClip {
            clip_id,
            track_id,
            tick,
        }),
        ({
            let after = after_move(
                without_clip(s, p, j),
                s[p].clips[j],
                track_id.0.0,
                tick.0,
                inner,
                outer,
            );
            &&& after[q].clips.contains(ClipView { start: tick.0, ..s[p].clips[j] })
            &&& s[p].clips[j].id == clip_id.0.0
            &&& forall|e: ClipView| #[trigger] after[q].clips.contains(e) && e.id == clip_id.0.0
                ==> e == ClipView { start: tick.0, ..s[p].clips[j] }
            &&& forall|r: int| 0 <= r < after.len() && r != q ==> !holds_clip(
                #[trigger] after[r],
                clip_id.0.0,
            )
        }),
{
    lemma_moved_clip_held_by_target_alone(s, p, j, q, track_id.0.0, tick.0, inner, outer);
}

} // verus!
