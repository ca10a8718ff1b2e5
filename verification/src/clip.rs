//! Clips and the ordered, overlap-free-by-construction collection of clips
//! that a track holds.

use vstd::prelude::*;

use crate::common::{id_text, is_random_id, DataId};
use crate::event::EventType;
use crate::event_list::{EventCollection, EventSegment};
use crate::midi_message::MidiMessage;
use crate::tick::Tick;
use crate::tick_order::{lemma_clip_keys_ordered, lemma_increasing_clip_keys};
use std::collections::BTreeMap;
use vstd::std_specs::iter::IteratorSpec;

verus! {

broadcast use vstd::std_specs::btree::group_btree_axioms;

/// Identifier of a clip.
#[derive(Clone, Copy, Debug, PartialEq, Eq, Structural, PartialOrd, Ord, Hash)]
pub struct ClipId(pub DataId);

impl ClipId {
    /// Creates a new random clip identifier.
    pub fn new() -> (id: ClipId)
        ensures
            is_random_id(id.0.0),
    {
        ClipId(DataId::new())
    }

    /// The identifier in its hyphenated text form.
    pub fn to_string(&self) -> (s: String)
        ensures
            s@ == id_text(self.0.0),
    {
        self.0.to_string()
    }
}

impl Default for ClipId {
    fn default() -> (id: ClipId)
        ensures
            id.0.0 == 0,
    {
        ClipId(DataId(0))
    }
}

/// The key under which a clip is kept: its start, then its identifier.
#[derive(Clone, Copy, Debug, PartialEq, Eq, Structural, PartialOrd, Ord, Hash)]
pub struct ClipKey {
    /// Start tick of the clip.
    pub start: Tick,
    /// Identifier of the clip.
    pub id: ClipId,
}

impl Default for ClipKey {
    fn default() -> (k: ClipKey)
        ensures
            k.start.0 == 0,
            k.id.0.0 == 0,
    {
        ClipKey { start: Tick(0), id: ClipId(DataId(0)) }
    }
}

impl<'a> From<&'a Clip> for ClipKey {
    fn from(value: &'a Clip) -> (k: ClipKey) {
        ClipKey { start: value.start, id: value.id }
    }
}

impl<'a> vstd::std_specs::convert::FromSpecImpl<&'a Clip> for ClipKey {
    open spec fn obeys_from_spec() -> bool {
        true
    }

    open spec fn from_spec(v: &'a Clip) -> ClipKey {
        ClipKey { start: v.start, id: v.id }
    }
}

/// What a clip is, as the contracts see it.
pub struct ClipView {
    /// Start tick.
    pub start: u64,
    /// Identifier.
    pub id: u128,
    /// Visible name.
    pub name: Seq<char>,
    /// Events, by tick.
    pub events: Map<u64, Vec<EventSegment>>,
    /// Length in ticks.
    pub duration: u64,
}

/// A clip: a stretch of a track that holds events, such as notes.
#[derive(Debug, Clone)]
pub struct Clip {
    /// Tick at which the clip starts.
    pub start: Tick,
    /// Identifier of the clip.
    pub id: ClipId,
    /// Visible name of the clip.
    pub name: Box<String>,
    /// Events in this clip.
    pub events: EventCollection,
    /// Length of the clip.
    pub duration: Tick,
}

impl View for Clip {
    type V = ClipView;

    open spec fn view(&self) -> ClipView {
        ClipView {
            start: self.start.0,
            id: self.id.0.0,
            name: self.name@,
            events: self.events@,
            duration: self.duration.0,
        }
    }
}

/// The one segment a demonstration clip holds at a tick.
pub open spec fn demo_segment(s: Seq<EventSegment>, start: u64, end: u64, key: u8) -> bool {
    &&& s.len() == 1
    &&& is_random_id(s[0].id.0)
    &&& s[0].start.0 == start
    &&& s[0].end.0 == end
    &&& s[0].event_type == EventType::Midi(MidiMessage::NoteOn { key, velocity: 64 })
    &&& s[0].is_active
}

impl Clip {
    /// Creates a clip with a new random identifier, holding three
    /// demonstration notes (keys 46, 47 and 50) at ticks 0, 480 and 960.
    pub fn new(start: Tick, name: &str, duration: Tick) -> (c: Clip)
        ensures
            c.start == start,
            c.duration == duration,
            c.name@ == name@,
            is_random_id(c.id.0.0),
            c.events@.dom() =~= set![0u64, 480u64, 960u64],
            demo_segment(c.events@[0]@, 0, 480, 46),
            demo_segment(c.events@[480]@, 240, 700, 47),
            demo_segment(c.events@[960]@, 960, 1440, 50),
    {
        let mut test_events = EventCollection::new();
        let event1 = EventSegment::new(
            DataId::new(),
            Tick(0),
            Tick(480),
            EventType::Midi(MidiMessage::NoteOn { key: 46, velocity: 64 }),
            true,
        );
        let event2 = EventSegment::new(
            DataId::new(),
            Tick(240),
            Tick(700),
            EventType::Midi(MidiMessage::NoteOn { key: 47, velocity: 64 }),
            true,
        );
        let event3 = EventSegment::new(
            DataId::new(),
            Tick(960),
            Tick(1440),
            EventType::Midi(MidiMessage::NoteOn { key: 50, velocity: 64 }),
            true,
        );
        test_events.add_event(Tick(0), event1);
        test_events.add_event(Tick(480), event2);
        test_events.add_event(Tick(960), event3);
        Clip {
            start,
            id: ClipId::new(),
            name: Box::new(String::from_str(name)),
            events: test_events,
            duration,
        }
    }

    /// This clip's identifier as text.
    pub fn id_as_string(&self) -> (s: String)
        ensures
            s@ == id_text(self.id.0.0),
    {
        self.id.to_string()
    }

    /// This clip's identifier.
    pub fn id(&self) -> (id: ClipId)
        ensures
            id == self.id,
    {
        self.id
    }

    /// The tick where this clip ends.
    pub fn end(&self) -> (t: Tick)
        requires
            self.start.0 + self.duration.0 <= u64::MAX,
        ensures
            t.0 == self.start.0 + self.duration.0,
    {
        Tick(self.start.0 + self.duration.0)
    }

    /// A copy of this clip under another identifier, start and length.
    pub fn copy_with(&self, id: ClipId, start: Tick, duration: Tick) -> (c: Clip)
        ensures
            c@ == (ClipView { id: id.0.0, start: start.0, duration: duration.0, ..self@ }),
    {
        let name: String = (*self.name).clone();
        Clip { start, id, name: Box::new(name), events: self.events.duplicate(), duration }
    }

    /// A copy of this clip.
    pub fn duplicate(&self) -> (c: Clip)
        ensures
            c@ == self@,
    {
        self.copy_with(self.id, self.start, self.duration)
    }
}

// ---------------------------------------------------------------------------
// The model of a clip collection: a sequence of clips in strictly increasing
// key order, as a map ordered by key walks them.
// ---------------------------------------------------------------------------

/// The key of a clip: its start, then its identifier.
pub open spec fn key_of(c: ClipView) -> (u64, u128) {
    (c.start, c.id)
}

/// Strict order of keys: by start, then by identifier.
pub open spec fn key_lt(a: (u64, u128), b: (u64, u128)) -> bool {
    a.0 < b.0 || (a.0 == b.0 && a.1 < b.1)
}

/// The tick where a clip ends.
pub open spec fn end_of(c: ClipView) -> int {
    c.start + c.duration
}

/// Keys strictly increase along the sequence.
pub open spec fn sorted_clips(s: Seq<ClipView>) -> bool {
    forall|i: int, j: int| 0 <= i < j < s.len() ==> key_lt(key_of(s[i]), key_of(s[j]))
}

/// Every clip ends at a tick that fits in 64 bits.
pub open spec fn ends_fit(s: Seq<ClipView>) -> bool {
    forall|i: int| 0 <= i < s.len() ==> end_of(#[trigger] s[i]) <= u64::MAX
}

/// The views of a sequence of clips.
pub open spec fn clip_views(v: Seq<Clip>) -> Seq<ClipView> {
    v.map_values(|c: Clip| c@)
}

/// How many clips have a key below `k`.
pub open spec fn below(s: Seq<ClipView>, k: (u64, u128)) -> int
    decreases s.len(),
{
    if s.len() == 0 {
        0
    } else {
        below(s.drop_last(), k) + if key_lt(key_of(s.last()), k) {
            1int
        } else {
            0int
        }
    }
}

/// The sequence after putting `c` under its key: it replaces the clip with
/// that key, or goes where the order puts it.
pub open spec fn seq_insert(s: Seq<ClipView>, c: ClipView) -> Seq<ClipView> {
    let p = below(s, key_of(c));
    if p < s.len() && key_of(s[p]) == key_of(c) {
        s.update(p, c)
    } else {
        s.insert(p, c)
    }
}

/// The sequence without the clip under key `k`, if there is one.
pub open spec fn seq_remove(s: Seq<ClipView>, k: (u64, u128)) -> Seq<ClipView> {
    let p = below(s, k);
    if p < s.len() && key_of(s[p]) == k {
        s.remove(p)
    } else {
        s
    }
}

/// Some clip of the sequence has key `k`.
pub open spec fn has_key(s: Seq<ClipView>, k: (u64, u128)) -> bool {
    exists|i: int| 0 <= i < s.len() && key_of(s[i]) == k
}

/// A clip that starts inside a new clip's span.
pub open spec fn in_inner_range(c: ClipView, n: ClipView) -> bool {
    n.start <= c.start && c.start < end_of(n)
}

/// The clips, in order, that start inside the new clip's span.
pub open spec fn inner_items(s: Seq<ClipView>, n: ClipView) -> Seq<ClipView> {
    s.filter(|c: ClipView| in_inner_range(c, n))
}

/// A clip that starts before a new clip and reaches past its start.
pub open spec fn in_outer_range(c: ClipView, n: ClipView) -> bool {
    c.start < n.start && end_of(c) > n.start
}

/// The clips, in order, that start before a new clip and reach into it.
pub open spec fn outer_items(s: Seq<ClipView>, n: ClipView) -> Seq<ClipView> {
    s.filter(|c: ClipView| in_outer_range(c, n))
}

/// The part of `c` from tick `t` to its end, under identifier `id`.
pub open spec fn right_piece(c: ClipView, id: u128, t: u64) -> ClipView {
    ClipView { start: t, id, duration: (end_of(c) - t) as u64, ..c }
}

/// The part of `c` from its start to tick `t`, under identifier `id`.
pub open spec fn left_piece(c: ClipView, id: u128, t: u64) -> ClipView {
    ClipView { id, duration: (t - c.start) as u64, ..c }
}

/// An inner clip that lies wholly inside the new clip's span, its end
/// included, and is dropped.
pub open spec fn inner_drop(c: ClipView, n: ClipView) -> bool {
    c.start >= n.start && end_of(c) <= end_of(n)
}

/// An inner clip that starts inside the new clip and reaches past its end:
/// only its part after the new clip stays.
pub open spec fn inner_cut(c: ClipView, n: ClipView) -> bool {
    c.start >= n.start && end_of(c) > end_of(n)
}

/// How many new identifiers trimming an inner clip takes.
pub open spec fn inner_ids(c: ClipView, n: ClipView) -> int {
    if inner_cut(c, n) {
        1
    } else {
        0
    }
}

/// Trims one inner clip `c` against the new clip `n`; `ids` holds the new
/// identifiers it takes.
pub open spec fn trim_inner_one(s: Seq<ClipView>, c: ClipView, n: ClipView, ids: Seq<u128>) -> Seq<
    ClipView,
> {
    if inner_drop(c, n) {
        seq_remove(s, key_of(c))
    } else if inner_cut(c, n) {
        seq_insert(seq_remove(s, key_of(c)), right_piece(c, ids[0], end_of(n) as u64))
    } else {
        s
    }
}

/// Trims the inner clips `items` in order; `ids` holds the new identifiers
/// taken, in order.
pub open spec fn trim_inner(s: Seq<ClipView>, items: Seq<ClipView>, n: ClipView, ids: Seq<u128>) -> Seq<
    ClipView,
>
    decreases items.len(),
{
    if items.len() == 0 {
        s
    } else {
        let k = inner_ids(items.last(), n);
        trim_inner_one(
            trim_inner(s, items.drop_last(), n, ids.subrange(0, ids.len() - k)),
            items.last(),
            n,
            ids.subrange(ids.len() - k, ids.len() as int),
        )
    }
}

/// An outer clip that starts before the new clip keeps its part before it.
pub open spec fn outer_left(c: ClipView, n: ClipView) -> bool {
    c.start < n.start
}

/// An outer clip that reaches past the new clip keeps its part after it.
pub open spec fn outer_right(c: ClipView, n: ClipView) -> bool {
    end_of(c) > end_of(n)
}

/// How many new identifiers splitting an outer clip takes.
pub open spec fn outer_ids(c: ClipView, n: ClipView) -> int {
    (if outer_left(c, n) {
        1int
    } else {
        0int
    }) + (if outer_right(c, n) {
        1int
    } else {
        0int
    })
}

/// Splits one outer clip `c` around the new clip `n`: its part before the
/// new clip and its part after it stay, under new identifiers, and the clip
/// itself goes.
pub open spec fn split_outer_one(s: Seq<ClipView>, c: ClipView, n: ClipView, ids: Seq<u128>) -> Seq<
    ClipView,
> {
    let s1 = if outer_left(c, n) {
        seq_insert(s, left_piece(c, ids[0], n.start))
    } else {
        s
    };
    let j = if outer_left(c, n) {
        1int
    } else {
        0int
    };
    let s2 = if outer_right(c, n) {
        seq_insert(s1, right_piece(c, ids[j], end_of(n) as u64))
    } else {
        s1
    };
    seq_remove(s2, key_of(c))
}

/// Splits the outer clips `items` in order; `ids` holds the new identifiers
/// taken, in order.
pub open spec fn split_outer(s: Seq<ClipView>, items: Seq<ClipView>, n: ClipView, ids: Seq<u128>) -> Seq<
    ClipView,
>
    decreases items.len(),
{
    if items.len() == 0 {
        s
    } else {
        let k = outer_ids(items.last(), n);
        split_outer_one(
            split_outer(s, items.drop_last(), n, ids.subrange(0, ids.len() - k)),
            items.last(),
            n,
            ids.subrange(ids.len() - k, ids.len() as int),
        )
    }
}

/// The collection after inserting `n`: the clips that start inside its span
/// are trimmed, then the clips that start before it and reach into it are
/// split around it, then `n` is put under its key. `inner` and `outer` hold
/// the new identifiers that the two passes give to the pieces.
pub open spec fn insert_result(
    s: Seq<ClipView>,
    n: ClipView,
    inner: Seq<u128>,
    outer: Seq<u128>,
) -> Seq<ClipView> {
    let s1 = trim_inner(s, inner_items(s, n), n, inner);
    let s2 = split_outer(s1, outer_items(s1, n), n, outer);
    seq_insert(s2, n)
}

/// How many new identifiers trimming the inner clips `items` takes.
pub open spec fn inner_need(items: Seq<ClipView>, n: ClipView) -> int
    decreases items.len(),
{
    if items.len() == 0 {
        0
    } else {
        inner_need(items.drop_last(), n) + inner_ids(items.last(), n)
    }
}

/// How many new identifiers splitting the outer clips `items` takes.
pub open spec fn outer_need(items: Seq<ClipView>, n: ClipView) -> int
    decreases items.len(),
{
    if items.len() == 0 {
        0
    } else {
        outer_need(items.drop_last(), n) + outer_ids(items.last(), n)
    }
}

/// The identifier sequences hold exactly as many identifiers as inserting
/// `n` takes in each pass.
pub open spec fn ids_match(s: Seq<ClipView>, n: ClipView, inner: Seq<u128>, outer: Seq<u128>) -> bool {
    &&& inner.len() == inner_need(inner_items(s, n), n)
    &&& outer.len() == outer_need(outer_items(trim_inner(s, inner_items(s, n), n, inner), n), n)
}

/// Where a sorted sequence splits at key `k`.
pub(crate) proof fn lemma_below(s: Seq<ClipView>, k: (u64, u128))
    requires
        sorted_clips(s),
    ensures
        0 <= below(s, k) <= s.len(),
        forall|j: int| 0 <= j < below(s, k) ==> key_lt(key_of(#[trigger] s[j]), k),
        forall|j: int| below(s, k) <= j < s.len() ==> !key_lt(key_of(#[trigger] s[j]), k),
    decreases s.len(),
{
    if s.len() > 0 {
        let t = s.drop_last();
        lemma_below(t, k);
        assert(forall|j: int| 0 <= j < t.len() ==> t[j] == s[j]);
        let b = below(t, k);
        let last = s.len() - 1;
        if key_lt(key_of(s[last]), k) && b < t.len() {
            assert(key_lt(key_of(s[b]), key_of(s[last])));
            assert(!key_lt(key_of(t[b]), k));
        }
        if !key_lt(key_of(s[last]), k) {
            assert forall|j: int| below(s, k) <= j < s.len() implies !key_lt(
                key_of(#[trigger] s[j]),
                k,
            ) by {
                if j < last {
                    assert(t[j] == s[j]);
                }
            }
        }
    }
}

/// Putting a clip under its key keeps the keys strictly increasing.
pub(crate) proof fn lemma_insert_sorted(s: Seq<ClipView>, c: ClipView)
    requires
        sorted_clips(s),
    ensures
        sorted_clips(seq_insert(s, c)),
        seq_insert(s, c).len() == s.len() || seq_insert(s, c).len() == s.len() + 1,
{
    lemma_below(s, key_of(c));
    let p = below(s, key_of(c));
    let r = seq_insert(s, c);
    if p < s.len() && key_of(s[p]) == key_of(c) {
    } else {
        assert forall|i: int, j: int| 0 <= i < j < r.len() implies key_lt(
            key_of(r[i]),
            key_of(r[j]),
        ) by {
            if j < p {
            } else if j == p {
            } else if i < p {
                assert(r[j] == s[j - 1]);
            } else if i == p {
                assert(r[j] == s[j - 1]);
                assert(!key_lt(key_of(s[p]), key_of(c)));
            } else {
                assert(r[i] == s[i - 1]);
                assert(r[j] == s[j - 1]);
            }
        }
    }
}

/// Taking a clip out keeps the keys strictly increasing.
pub(crate) proof fn lemma_remove_sorted(s: Seq<ClipView>, k: (u64, u128))
    requires
        sorted_clips(s),
    ensures
        sorted_clips(seq_remove(s, k)),
{
    lemma_below(s, k);
    let p = below(s, k);
    let r = seq_remove(s, k);
    if p < s.len() && key_of(s[p]) == k {
        assert forall|i: int, j: int| 0 <= i < j < r.len() implies key_lt(
            key_of(r[i]),
            key_of(r[j]),
        ) by {
            if j < p {
            } else if i < p {
                assert(r[j] == s[j + 1]);
            } else {
                assert(r[i] == s[i + 1]);
                assert(r[j] == s[j + 1]);
            }
        }
    }
}

/// Putting a clip that ends in range keeps every end in range.
pub(crate) proof fn lemma_insert_fits(s: Seq<ClipView>, c: ClipView)
    requires
        ends_fit(s),
        sorted_clips(s),
        end_of(c) <= u64::MAX,
    ensures
        ends_fit(seq_insert(s, c)),
{
    lemma_below(s, key_of(c));
    let p = below(s, key_of(c));
    let r = seq_insert(s, c);
    if p < s.len() && key_of(s[p]) == key_of(c) {
        assert forall|i: int| 0 <= i < r.len() implies end_of(#[trigger] r[i]) <= u64::MAX by {
            if i != p {
                assert(r[i] == s[i]);
            }
        }
    } else if 0 <= p <= s.len() {
        assert forall|i: int| 0 <= i < r.len() implies end_of(#[trigger] r[i]) <= u64::MAX by {
            if i < p {
                assert(r[i] == s[i]);
            } else if i > p {
                assert(r[i] == s[i - 1]);
            }
        }
    }
}

/// Taking a clip out keeps every end in range.
pub(crate) proof fn lemma_remove_fits(s: Seq<ClipView>, k: (u64, u128))
    requires
        ends_fit(s),
        sorted_clips(s),
    ensures
        ends_fit(seq_remove(s, k)),
{
    lemma_below(s, k);
    let p = below(s, k);
    let r = seq_remove(s, k);
    if p < s.len() && key_of(s[p]) == k {
        assert forall|i: int| 0 <= i < r.len() implies end_of(#[trigger] r[i]) <= u64::MAX by {
            if i < p {
                assert(r[i] == s[i]);
            } else {
                assert(r[i] == s[i + 1]);
            }
        }
    }
}

/// The clips of a list of keyed clips.
pub open spec fn pair_views(v: Seq<(ClipKey, Clip)>) -> Seq<ClipView> {
    v.map_values(|p: (ClipKey, Clip)| p.1@)
}

/// Each clip of the list stands with its own key.
pub open spec fn keyed_pairs(v: Seq<(ClipKey, Clip)>) -> bool {
    forall|i: int|
        0 <= i < v.len() ==> (#[trigger] v[i]).0.start == v[i].1.start && v[i].0.id == v[i].1.id
}

/// Every identifier of the sequence was randomly generated.
pub open spec fn all_random(ids: Seq<u128>) -> bool {
    forall|i: int| 0 <= i < ids.len() ==> is_random_id(#[trigger] ids[i])
}

/// The map holds exactly the clips of the sequence, each under its key.
spec fn map_holds(m: Map<(u64, u128), Clip>, s: Seq<ClipView>) -> bool {
    &&& forall|k: (u64, u128)| #[trigger] m.contains_key(k) <==> has_key(s, k)
    &&& forall|i: int| 0 <= i < s.len() ==> (#[trigger] m[key_of(s[i])])@ == s[i]
}

/// A map that holds the clips of a sorted sequence has one entry per clip.
proof fn lemma_map_size(m: Map<(u64, u128), Clip>, s: Seq<ClipView>)
    requires
        sorted_clips(s),
        map_holds(m, s),
    ensures
        m.dom() == s.map_values(|c: ClipView| key_of(c)).to_set(),
        m.dom().len() == s.len(),
{
    let ks = s.map_values(|c: ClipView| key_of(c));
    assert forall|k: (u64, u128)| #[trigger] m.dom().contains(k) == ks.to_set().contains(k) by {
        if m.dom().contains(k) {
            let i = choose|i: int| 0 <= i < s.len() && key_of(s[i]) == k;
            assert(ks[i] == k);
        }
        if ks.to_set().contains(k) {
            let i = choose|i: int| 0 <= i < ks.len() && ks[i] == k;
            assert(key_of(s[i]) == k);
        }
    }
    assert(m.dom() =~= ks.to_set());
    assert forall|i: int, j: int| 0 <= i < ks.len() && 0 <= j < ks.len() && i != j implies ks[i]
        != ks[j] by {
        if i < j {
            assert(key_lt(key_of(s[i]), key_of(s[j])));
        } else {
            assert(key_lt(key_of(s[j]), key_of(s[i])));
        }
    }
    ks.unique_seq_to_set();
}

/// Two strictly increasing sequences of keys, each holding the keys of the
/// other, agree at every position.
proof fn lemma_same_keys_at(a: Seq<(u64, u128)>, b: Seq<(u64, u128)>, i: int)
    requires
        a.len() == b.len(),
        0 <= i < a.len(),
        forall|x: int, y: int| 0 <= x < y < a.len() ==> key_lt(a[x], a[y]),
        forall|x: int, y: int| 0 <= x < y < b.len() ==> key_lt(b[x], b[y]),
        forall|x: int| 0 <= x < a.len() ==> b.contains(#[trigger] a[x]),
        forall|y: int| 0 <= y < b.len() ==> a.contains(#[trigger] b[y]),
    ensures
        a[i] == b[i],
    decreases i,
{
    if a[i] != b[i] {
        if key_lt(a[i], b[i]) {
            let y = choose|y: int| 0 <= y < b.len() && b[y] == a[i];
            if y > i {
                assert(key_lt(b[i], b[y]));
            } else {
                lemma_same_keys_at(a, b, y);
                assert(key_lt(a[y], a[i]));
            }
        } else {
            let x = choose|x: int| 0 <= x < a.len() && a[x] == b[i];
            if x > i {
                assert(key_lt(a[i], a[x]));
            } else {
                lemma_same_keys_at(a, b, x);
                assert(key_lt(b[x], b[i]));
            }
        }
    }
}

/// Walking, in increasing key order, a map that holds the clips of a sorted
/// sequence meets the clips of the sequence in order.
proof fn lemma_walk(
    m: Map<(u64, u128), Clip>,
    s: Seq<ClipView>,
    items: Seq<(&(u64, u128), &Clip)>,
)
    requires
        sorted_clips(s),
        map_holds(m, s),
        items.len() == m.dom().len(),
        forall|i: int|
            0 <= i < items.len() ==> m.contains_key(*(#[trigger] items[i]).0) && m[*items[i].0]
                == *items[i].1,
        forall|k: (u64, u128)| #[trigger] m.contains_key(k) ==> items.contains((&k, &m[k])),
        forall|i: int, j: int| 0 <= i < j < items.len() ==> key_lt(*items[i].0, *items[j].0),
    ensures
        items.len() == s.len(),
        forall|i: int|
            0 <= i < s.len() ==> *(#[trigger] items[i]).0 == key_of(s[i]) && (*items[i].1)@
                == s[i],
{
    lemma_map_size(m, s);
    let a = s.map_values(|c: ClipView| key_of(c));
    let b = items.map_values(|kv: (&(u64, u128), &Clip)| *kv.0);
    assert forall|x: int| 0 <= x < a.len() implies b.contains(#[trigger] a[x]) by {
        assert(has_key(s, a[x]));
        assert(m.contains_key(a[x]));
        let y = choose|y: int| 0 <= y < items.len() && items[y] == (&a[x], &m[a[x]]);
        assert(b[y] == a[x]);
    }
    assert forall|y: int| 0 <= y < b.len() implies a.contains(#[trigger] b[y]) by {
        assert(items[y] == items[y]);
        assert(m.contains_key(b[y]));
        let x = choose|x: int| 0 <= x < s.len() && key_of(s[x]) == b[y];
        assert(a[x] == b[y]);
    }
    assert forall|i: int| 0 <= i < s.len() implies *(#[trigger] items[i]).0 == key_of(s[i])
        && (*items[i].1)@ == s[i] by {
        lemma_same_keys_at(a, b, i);
        assert(b[i] == *items[i].0);
    }
}

/// Putting `c` under its key in the map and in the sequence keeps the map
/// holding the sequence.
proof fn lemma_put_holds(m: Map<(u64, u128), Clip>, s: Seq<ClipView>, c: Clip)
    requires
        sorted_clips(s),
        map_holds(m, s),
    ensures
        map_holds(m.insert(key_of(c@), c), seq_insert(s, c@)),
{
    let r = seq_insert(s, c@);
    let m2 = m.insert(key_of(c@), c);
    crate::clip_laws::lemma_insert_members(s, c@);
    lemma_insert_sorted(s, c@);
    assert forall|k: (u64, u128)| #[trigger] m2.contains_key(k) <==> has_key(r, k) by {
        if k == key_of(c@) {
            let i = choose|i: int| 0 <= i < r.len() && r[i] == c@;
        } else if m.contains_key(k) {
            let i = choose|i: int| 0 <= i < s.len() && key_of(s[i]) == k;
            crate::clip_laws::lemma_insert_keeps(s, c@, s[i]);
            let j = choose|j: int| 0 <= j < r.len() && r[j] == s[i];
        }
        if has_key(r, k) && k != key_of(c@) {
            let j = choose|j: int| 0 <= j < r.len() && key_of(r[j]) == k;
            assert(r.contains(r[j]));
            let i = choose|i: int| 0 <= i < s.len() && s[i] == r[j];
        }
    }
    assert forall|j: int| 0 <= j < r.len() implies (#[trigger] m2[key_of(r[j])])@ == r[j] by {
        assert(r.contains(r[j]));
        if r[j] == c@ {
        } else if key_of(r[j]) == key_of(c@) {
            crate::clip_laws::lemma_unique_keys(r, r[j], c@);
        } else {
            let i = choose|i: int| 0 <= i < s.len() && s[i] == r[j];
        }
    }
}

/// Taking key `k` out of the map and the sequence keeps the map holding the
/// sequence.
proof fn lemma_take_holds(m: Map<(u64, u128), Clip>, s: Seq<ClipView>, k: (u64, u128))
    requires
        sorted_clips(s),
        map_holds(m, s),
    ensures
        map_holds(m.remove(k), seq_remove(s, k)),
{
    let r = seq_remove(s, k);
    let m2 = m.remove(k);
    crate::clip_laws::lemma_remove_members(s, k);
    assert forall|q: (u64, u128)| #[trigger] m2.contains_key(q) <==> has_key(r, q) by {
        if m2.contains_key(q) {
            let i = choose|i: int| 0 <= i < s.len() && key_of(s[i]) == q;
            crate::clip_laws::lemma_remove_keeps(s, k, s[i]);
            let j = choose|j: int| 0 <= j < r.len() && r[j] == s[i];
        }
        if has_key(r, q) {
            let j = choose|j: int| 0 <= j < r.len() && key_of(r[j]) == q;
            assert(r.contains(r[j]));
            let i = choose|i: int| 0 <= i < s.len() && s[i] == r[j];
        }
    }
    assert forall|j: int| 0 <= j < r.len() implies (#[trigger] m2[key_of(r[j])])@ == r[j] by {
        assert(r.contains(r[j]));
        let i = choose|i: int| 0 <= i < s.len() && s[i] == r[j];
    }
}

/// Where a clip of a sorted sequence stands, the sequence splits at its key.
proof fn lemma_below_at(s: Seq<ClipView>, i: int)
    requires
        sorted_clips(s),
        0 <= i < s.len(),
    ensures
        below(s, key_of(s[i])) == i,
{
    lemma_below(s, key_of(s[i]));
    let p = below(s, key_of(s[i]));
    if p < i {
        assert(key_lt(key_of(s[p]), key_of(s[i])));
    } else if p > i {
        assert(key_lt(key_of(s[i]), key_of(s[i])));
    }
}

/// `s` lists the clips of the map in strictly increasing key order, each
/// ending at a tick that fits in 64 bits.
spec fn orders(m: Map<(u64, u128), Clip>, s: Seq<ClipView>) -> bool {
    sorted_clips(s) && ends_fit(s) && map_holds(m, s)
}

/// A map lists its clips in key order in one way only.
proof fn lemma_unique_order(m: Map<(u64, u128), Clip>, s1: Seq<ClipView>, s2: Seq<ClipView>)
    requires
        orders(m, s1),
        orders(m, s2),
    ensures
        s1 == s2,
{
    lemma_map_size(m, s1);
    lemma_map_size(m, s2);
    let a = s1.map_values(|c: ClipView| key_of(c));
    let b = s2.map_values(|c: ClipView| key_of(c));
    assert forall|x: int| 0 <= x < a.len() implies b.contains(#[trigger] a[x]) by {
        assert(has_key(s1, a[x]));
        assert(m.contains_key(a[x]));
        let y = choose|y: int| 0 <= y < s2.len() && key_of(s2[y]) == a[x];
        assert(b[y] == a[x]);
    }
    assert forall|y: int| 0 <= y < b.len() implies a.contains(#[trigger] b[y]) by {
        assert(has_key(s2, b[y]));
        assert(m.contains_key(b[y]));
        let x = choose|x: int| 0 <= x < s1.len() && key_of(s1[x]) == b[y];
        assert(a[x] == b[y]);
    }
    assert forall|i: int| 0 <= i < s1.len() implies s1[i] == s2[i] by {
        lemma_same_keys_at(a, b, i);
        assert(m[key_of(s1[i])]@ == s1[i]);
        assert(m[key_of(s2[i])]@ == s2[i]);
    }
    assert(s1 =~= s2);
}

/// A collection of clips, kept in key order (start, then identifier); a
/// track holds one.
#[derive(Debug)]
pub struct ClipCollection {
    /// The clips, each under its key.
    inner: BTreeMap<(u64, u128), Clip>,
}

impl View for ClipCollection {
    type V = Seq<ClipView>;

    /// The clips in key order.
    closed spec fn view(&self) -> Seq<ClipView> {
        choose|s: Seq<ClipView>| orders(self.inner@, s)
    }
}

impl ClipCollection {
    /// The clips can be listed in strictly increasing key order, each
    /// ending at a tick that fits in 64 bits.
    #[verifier::type_invariant]
    spec fn well_formed(self) -> bool {
        orders(self.inner@, self@)
    }

    /// What the type invariant gives: the view lists the clips in key order.
    proof fn lemma_view(&self)
        requires
            self.well_formed(),
        ensures
            orders(self.inner@, self@),
    {
    }

    /// Creates an empty collection.
    pub fn new() -> (c: ClipCollection)
        ensures
            c@ == Seq::<ClipView>::empty(),
    {
        let m = BTreeMap::new();
        proof {
            assert(orders(m@, Seq::empty()));
        }
        let c = ClipCollection { inner: m };
        proof {
            lemma_unique_order(c.inner@, c@, Seq::empty());
        }
        c
    }

    /// The number of clips.
    pub fn len(&self) -> (n: usize)
        ensures
            n == self@.len(),
    {
        proof {
            use_type_invariant(self);
            self.lemma_view();
            lemma_map_size(self.inner@, self@);
        }
        self.inner.len()
    }

    /// Puts `c` under its key, replacing a clip with the same key.
    fn put(&mut self, c: Clip)
        requires
            end_of(c@) <= u64::MAX,
        ensures
            final(self)@ == seq_insert(old(self)@, c@),
    {
        let mut tmp = ClipCollection::new();
        std::mem::swap(&mut tmp, self);
        proof {
            use_type_invariant(&tmp);
            tmp.lemma_view();
            lemma_clip_keys_ordered();
        }
        let ghost s = tmp@;
        let ghost m0 = tmp.inner@;
        let ghost cv = c@;
        let ClipCollection { inner: mut m } = tmp;
        m.insert((c.start.0, c.id.0.0), c);
        proof {
            lemma_insert_sorted(s, cv);
            lemma_insert_fits(s, cv);
            lemma_put_holds(m0, s, c);
            assert(orders(m@, seq_insert(s, cv)));
        }
        let next = ClipCollection { inner: m };
        proof {
            lemma_unique_order(next.inner@, next@, seq_insert(s, cv));
        }
        *self = next;
    }

    /// Removes the clip under `key`, returning it if there was one.
    pub fn remove(&mut self, key: &ClipKey) -> (r: Option<Clip>)
        ensures
            final(self)@ == seq_remove(old(self)@, (key.start.0, key.id.0.0)),
            match r {
                Some(c) => old(self)@.contains(c@) && key_of(c@) == (key.start.0, key.id.0.0),
                None => !has_key(old(self)@, (key.start.0, key.id.0.0)),
            },
    {
        let mut tmp = ClipCollection::new();
        std::mem::swap(&mut tmp, self);
        proof {
            use_type_invariant(&tmp);
            tmp.lemma_view();
            lemma_clip_keys_ordered();
        }
        let ghost s = tmp@;
        let ghost m0 = tmp.inner@;
        let ghost k = (key.start.0, key.id.0.0);
        let ClipCollection { inner: mut m } = tmp;
        let r = m.remove(&(key.start.0, key.id.0.0));
        proof {
            lemma_remove_sorted(s, k);
            lemma_remove_fits(s, k);
            lemma_take_holds(m0, s, k);
            assert(orders(m@, seq_remove(s, k)));
            if m0.contains_key(k) {
                let i = choose|i: int| 0 <= i < s.len() && key_of(s[i]) == k;
                assert(s.contains(s[i]));
            }
        }
        let next = ClipCollection { inner: m };
        proof {
            lemma_unique_order(next.inner@, next@, seq_remove(s, k));
        }
        *self = next;
        r
    }

    /// The clip under `key`, if any.
    pub fn get(&self, key: &ClipKey) -> (r: Option<&Clip>)
        ensures
            match r {
                Some(c) => self@.contains(c@) && key_of(c@) == (key.start.0, key.id.0.0),
                None => !has_key(self@, (key.start.0, key.id.0.0)),
            },
    {
        proof {
            use_type_invariant(self);
            self.lemma_view();
            lemma_clip_keys_ordered();
        }
        let ghost k = (key.start.0, key.id.0.0);
        let r = self.inner.get(&(key.start.0, key.id.0.0));
        proof {
            if self.inner@.contains_key(k) {
                let i = choose|i: int| 0 <= i < self@.len() && key_of(self@[i]) == k;
                assert(self@.contains(self@[i]));
            }
        }
        r
    }

    /// Copies of the clips, in key order.
    pub fn clips(&self) -> (v: Vec<Clip>)
        ensures
            clip_views(v@) == self@,
            sorted_clips(self@),
            ends_fit(self@),
    {
        proof {
            use_type_invariant(self);
            self.lemma_view();
            lemma_clip_keys_ordered();
        }
        let iter = self.inner.iter();
        let ghost items = iter.remaining();
        proof {
            lemma_increasing_clip_keys(items);
            lemma_walk(self.inner@, self@, items);
        }
        let mut out: Vec<Clip> = Vec::new();
        for kv in it: iter
            invariant
                it.seq() == items,
                items.len() == self@.len(),
                forall|i: int| 0 <= i < self@.len() ==> (*(#[trigger] items[i]).1)@ == self@[i],
                out@.len() == it.index(),
                forall|i: int| 0 <= i < out@.len() ==> (#[trigger] out@[i])@ == self@[i],
        {
            let (_, c) = kv;
            out.push(c.duplicate());
        }
        assert(clip_views(out@) =~= self@);
        out
    }

    /// Takes out the first clip, in key order, with identifier `clip_id`.
    pub fn find_take(&mut self, clip_id: ClipId) -> (r: Option<Clip>)
        ensures
            match r {
                Some(c) => exists|p: int|
                    0 <= p < old(self)@.len() && old(self)@[p].id == clip_id.0.0 && (forall|j: int|
                        0 <= j < p ==> (#[trigger] old(self)@[j]).id != clip_id.0.0) && c@ == old(
                        self,
                    )@[p] && final(self)@ == old(self)@.remove(p),
                None => (forall|j: int|
                    0 <= j < old(self)@.len() ==> (#[trigger] old(self)@[j]).id != clip_id.0.0)
                    && final(self)@ == old(self)@,
            },
    {
        let v = self.clips();
        let ghost s = self@;
        let mut i: usize = 0;
        while i < v.len()
            invariant
                s == clip_views(v@),
                s == old(self)@,
                s == self@,
                sorted_clips(s),
                0 <= i <= v.len(),
                forall|j: int| 0 <= j < i ==> (#[trigger] s[j]).id != clip_id.0.0,
            decreases v.len() - i,
        {
            if v[i].id.0.0 == clip_id.0.0 {
                let key = ClipKey { start: v[i].start, id: v[i].id };
                proof {
                    assert(s[i as int] == v@[i as int]@);
                    lemma_below_at(s, i as int);
                }
                let c = self.remove(&key);
                proof {
                    assert(has_key(s, key_of(s[i as int])));
                }
                match c {
                    Some(c) => {
                        proof {
                            crate::clip_laws::lemma_unique_keys(s, c@, s[i as int]);
                        }
                        return Some(c);
                    },
                    None => {
                        return None;
                    },
                }
            }
            i = i + 1;
        }
        None
    }

    /// The clips, in key order, that start inside the sample's span (at its
    /// start or later, before its end), each with its key.
    pub fn get_overlapped_inner(&self, sample: &Clip) -> (r: Vec<(ClipKey, Clip)>)
        requires
            end_of(sample@) <= u64::MAX,
        ensures
            pair_views(r@) == inner_items(self@, sample@),
            keyed_pairs(r@),
            forall|i: int| 0 <= i < r@.len() ==> in_inner_range(#[trigger] r@[i].1@, sample@),
            forall|i: int| 0 <= i < r@.len() ==> end_of(#[trigger] r@[i].1@) <= u64::MAX,
    {
        let v = self.clips();
        let ghost s = self@;
        let ghost n = sample@;
        let end = sample.start.0 + sample.duration.0;
        let mut r: Vec<(ClipKey, Clip)> = Vec::new();
        let mut i: usize = 0;
        while i < v.len()
            invariant
                s == clip_views(v@),
                n == sample@,
                end == end_of(n),
                ends_fit(s),
                0 <= i <= v.len(),
                pair_views(r@) == inner_items(s.take(i as int), n),
                keyed_pairs(r@),
                forall|j: int| 0 <= j < r@.len() ==> in_inner_range(#[trigger] r@[j].1@, n),
                forall|j: int| 0 <= j < r@.len() ==> end_of(#[trigger] r@[j].1@) <= u64::MAX,
            decreases v.len() - i,
        {
            let c = &v[i];
            let ghost cv = s[i as int];
            proof {
                reveal_with_fuel(Seq::filter, 1);
                assert(s.take(i + 1).drop_last() =~= s.take(i as int));
                assert(s.take(i + 1).last() == cv);
            }
            if sample.start.0 <= c.start.0 && c.start.0 < end {
                let k = ClipKey { start: c.start, id: c.id };
                let d = c.duplicate();
                r.push((k, d));
                assert(pair_views(r@) =~= inner_items(s.take(i + 1), n));
            } else {
                assert(pair_views(r@) =~= inner_items(s.take(i + 1), n));
            }
            i = i + 1;
        }
        assert(s.take(s.len() as int) =~= s);
        r
    }

    /// The clips, in key order, that start before the sample and reach past
    /// its start, each with its key.
    pub fn get_surrounded_overlapped_clips(&self, sample: &Clip) -> (r: Vec<(ClipKey, Clip)>)
        ensures
            pair_views(r@) == outer_items(self@, sample@),
            keyed_pairs(r@),
            forall|i: int| 0 <= i < r@.len() ==> in_outer_range(#[trigger] r@[i].1@, sample@),
            forall|i: int| 0 <= i < r@.len() ==> end_of(#[trigger] r@[i].1@) <= u64::MAX,
    {
        let v = self.clips();
        let ghost s = self@;
        let ghost n = sample@;
        let mut r: Vec<(ClipKey, Clip)> = Vec::new();
        let mut i: usize = 0;
        while i < v.len()
            invariant
                s == clip_views(v@),
                n == sample@,
                ends_fit(s),
                0 <= i <= v.len(),
                pair_views(r@) == outer_items(s.take(i as int), n),
                keyed_pairs(r@),
                forall|j: int| 0 <= j < r@.len() ==> in_outer_range(#[trigger] r@[j].1@, n),
                forall|j: int| 0 <= j < r@.len() ==> end_of(#[trigger] r@[j].1@) <= u64::MAX,
            decreases v.len() - i,
        {
            let c = &v[i];
            let ghost cv = s[i as int];
            proof {
                reveal_with_fuel(Seq::filter, 1);
                assert(s.take(i + 1).drop_last() =~= s.take(i as int));
                assert(s.take(i + 1).last() == cv);
            }
            if c.start.0 < sample.start.0 && c.start.0 + c.duration.0 > sample.start.0 {
                let k = ClipKey { start: c.start, id: c.id };
                let d = c.duplicate();
                r.push((k, d));
                assert(pair_views(r@) =~= outer_items(s.take(i + 1), n));
            } else {
                assert(pair_views(r@) =~= outer_items(s.take(i + 1), n));
            }
            i = i + 1;
        }
        assert(s.take(s.len() as int) =~= s);
        r
    }

    /// Puts the part of `overlapped_clip` from `tick` to its end back under
    /// a new identifier, if the clip reaches past `tick`; returns the
    /// identifiers it took.
    fn insert_right_of_tick(&mut self, overlapped_clip: Clip, tick: &Tick) -> (used: Ghost<
        Seq<u128>,
    >)
        requires
            end_of(overlapped_clip@) <= u64::MAX,
            end_of(overlapped_clip@) > tick.0 ==> tick.0 >= overlapped_clip.start.0,
        ensures
            all_random(used@),
            if end_of(overlapped_clip@) > tick.0 {
                used@.len() == 1 && final(self)@ == seq_insert(
                    old(self)@,
                    right_piece(overlapped_clip@, used@[0], tick.0),
                )
            } else {
                used@.len() == 0 && final(self)@ == old(self)@
            },
    {
        if overlapped_clip.start.0 + overlapped_clip.duration.0 > tick.0 {
            let right_duration = overlapped_clip.start.0 + overlapped_clip.duration.0 - tick.0;
            let id = ClipId::new();
            let right_clip = overlapped_clip.copy_with(id, *tick, Tick(right_duration));
            self.put(right_clip);
            Ghost(Seq::empty().push(id.0.0))
        } else {
            Ghost(Seq::empty())
        }
    }

    /// Puts the part of `overlapped_clip` before `tick` back under a new
    /// identifier, if the clip starts before `tick`, and shortens
    /// `overlapped_clip` to start at `tick`; returns the identifiers it took.
    fn insert_left_of_tick(&mut self, overlapped_clip: &mut Clip, tick: &Tick) -> (used: Ghost<
        Seq<u128>,
    >)
        requires
            end_of(old(overlapped_clip)@) <= u64::MAX,
            old(overlapped_clip).start.0 < tick.0 ==> tick.0 - old(overlapped_clip).start.0
                <= old(overlapped_clip).duration.0,
        ensures
            all_random(used@),
            if old(overlapped_clip).start.0 < tick.0 {
                &&& used@.len() == 1
                &&& final(self)@ == seq_insert(
                    old(self)@,
                    left_piece(old(overlapped_clip)@, used@[0], tick.0),
                )
                &&& final(overlapped_clip)@ == (ClipView {
                    start: tick.0,
                    duration: (old(overlapped_clip).duration.0 - (tick.0 - old(
                        overlapped_clip,
                    ).start.0)) as u64,
                    ..old(overlapped_clip)@
                })
            } else {
                &&& used@.len() == 0
                &&& final(self)@ == old(self)@
                &&& final(overlapped_clip)@ == old(overlapped_clip)@
            },
    {
        if overlapped_clip.start.0 < tick.0 {
            let left_duration = tick.0 - overlapped_clip.start.0;
            let id = ClipId::new();
            let left_clip = overlapped_clip.copy_with(
                id,
                overlapped_clip.start,
                Tick(left_duration),
            );
            self.put(left_clip);
            overlapped_clip.start = *tick;
            overlapped_clip.duration = Tick(overlapped_clip.duration.0 - left_duration);
            Ghost(Seq::empty().push(id.0.0))
        } else {
            Ghost(Seq::empty())
        }
    }

    /// Drops `clip`, found under `key`, if it lies inside `new_clip`'s span.
    fn remove_overlapped(&mut self, clip: &Clip, new_clip: &Clip, key: ClipKey)
        requires
            key.start == clip.start,
            key.id == clip.id,
            end_of(clip@) <= u64::MAX,
            end_of(new_clip@) <= u64::MAX,
        ensures
            if inner_drop(clip@, new_clip@) {
                final(self)@ == seq_remove(old(self)@, key_of(clip@))
            } else {
                final(self)@ == old(self)@
            },
    {
        if clip.start.0 >= new_clip.start.0 && clip.start.0 + clip.duration.0 <= new_clip.start.0
            + new_clip.duration.0 {
            self.remove(&key);
        }
    }

    /// Keeps only the part of `clip`, found under `key`, after `new_clip`'s
    /// end, if it starts inside `new_clip` and reaches past it; returns the
    /// identifiers it took.
    fn split_right_clip(&mut self, clip: Clip, new_clip: &Clip, key: ClipKey) -> (used: Ghost<
        Seq<u128>,
    >)
        requires
            key.start == clip.start,
            key.id == clip.id,
            end_of(clip@) <= u64::MAX,
            end_of(new_clip@) <= u64::MAX,
            clip.start.0 <= end_of(new_clip@),
        ensures
            all_random(used@),
            used@.len() == inner_ids(clip@, new_clip@),
            if inner_cut(clip@, new_clip@) {
                final(self)@ == seq_insert(
                    seq_remove(old(self)@, key_of(clip@)),
                    right_piece(clip@, used@[0], end_of(new_clip@) as u64),
                )
            } else {
                final(self)@ == old(self)@
            },
    {
        let new_end = new_clip.start.0 + new_clip.duration.0;
        if clip.start.0 >= new_clip.start.0 && clip.start.0 + clip.duration.0 > new_end {
            self.remove(&key);
            self.insert_right_of_tick(clip, &Tick(new_end))
        } else {
            Ghost(Seq::empty())
        }
    }

    /// Trims the clips that start inside `new_clip`'s span: those ending
    /// within it go, those reaching past its end keep their part after it; returns the
    /// identifiers it took, in order.
    fn clip_partial_overlapped_clips_to_the_right(&mut self, new_clip: &Clip) -> (used: Ghost<
        Seq<u128>,
    >)
        requires
            end_of(new_clip@) <= u64::MAX,
        ensures
            all_random(used@),
            used@.len() == inner_need(inner_items(old(self)@, new_clip@), new_clip@),
            final(self)@ == trim_inner(old(self)@, inner_items(old(self)@, new_clip@), new_clip@, used@),
    {
        let inner_clip = self.get_overlapped_inner(new_clip);
        let ghost s0 = self@;
        let ghost n = new_clip@;
        let ghost items = inner_items(s0, n);
        let ghost all = inner_clip@;
        let ghost mut acc: Seq<u128> = Seq::empty();
        for item in it: inner_clip
            invariant
                it.seq() == all,
                pair_views(all) == items,
                keyed_pairs(all),
                forall|j: int| 0 <= j < all.len() ==> in_inner_range(#[trigger] all[j].1@, n),
                forall|j: int| 0 <= j < all.len() ==> end_of(#[trigger] all[j].1@) <= u64::MAX,
                n == new_clip@,
                end_of(n) <= u64::MAX,
                all_random(acc),
                acc.len() == inner_need(items.take(it.index() as int), n),
                self@ == trim_inner(s0, items.take(it.index() as int), n, acc),
        {
            let ghost idx = it.index() as int;
            let ghost before = self@;
            let (key, clip) = item;
            assert(all[idx] == (key, clip));
            assert(items[idx] == clip@);
            self.remove_overlapped(&clip, new_clip, key);
            let used = self.split_right_clip(clip, new_clip, key);
            proof {
                let k = inner_ids(items[idx], n);
                let acc2 = acc + used@;
                assert(items.take(idx + 1).drop_last() =~= items.take(idx));
                assert(items.take(idx + 1).last() == items[idx]);
                assert(acc2.subrange(0, acc2.len() - k) =~= acc);
                assert(acc2.subrange(acc2.len() - k, acc2.len() as int) =~= used@);
                assert(self@ == trim_inner_one(before, items[idx], n, used@));
                acc = acc2;
            }
        }
        proof {
            assert(items.take(items.len() as int) =~= items);
        }
        Ghost(acc)
    }

    /// Splits the clips of `overlapped_outer`, which start before `new_clip`
    /// and reach into it, around it; returns the identifiers it
    /// took, in order.
    fn split_overlapped_clip(&mut self, overlapped_outer: Vec<(ClipKey, Clip)>, new_clip: &Clip) -> (used: Ghost<
        Seq<u128>,
    >)
        requires
            end_of(new_clip@) <= u64::MAX,
            keyed_pairs(overlapped_outer@),
            forall|j: int|
                0 <= j < overlapped_outer@.len() ==> in_outer_range(
                    #[trigger] overlapped_outer@[j].1@,
                    new_clip@,
                ),
            forall|j: int|
                0 <= j < overlapped_outer@.len() ==> end_of(#[trigger] overlapped_outer@[j].1@)
                    <= u64::MAX,
        ensures
            all_random(used@),
            used@.len() == outer_need(pair_views(overlapped_outer@), new_clip@),
            final(self)@ == split_outer(old(self)@, pair_views(overlapped_outer@), new_clip@, used@),
    {
        let ghost s0 = self@;
        let ghost n = new_clip@;
        let ghost all = overlapped_outer@;
        let ghost items = pair_views(all);
        let ghost mut acc: Seq<u128> = Seq::empty();
        let new_start = new_clip.start;
        let new_end = Tick(new_clip.start.0 + new_clip.duration.0);
        for item in it: overlapped_outer
            invariant
                it.seq() == all,
                items == pair_views(all),
                keyed_pairs(all),
                forall|j: int| 0 <= j < all.len() ==> in_outer_range(#[trigger] all[j].1@, n),
                forall|j: int| 0 <= j < all.len() ==> end_of(#[trigger] all[j].1@) <= u64::MAX,
                n == new_clip@,
                end_of(n) <= u64::MAX,
                new_start.0 == n.start,
                new_end.0 == end_of(n),
                all_random(acc),
                acc.len() == outer_need(items.take(it.index() as int), n),
                self@ == split_outer(s0, items.take(it.index() as int), n, acc),
        {
            let ghost idx = it.index() as int;
            let ghost before = self@;
            let (overlap_clip_key, overlap_clip) = item;
            let mut overlap_clip = overlap_clip;
            assert(all[idx] == (overlap_clip_key, overlap_clip));
            let ghost cv = overlap_clip@;
            assert(items[idx] == cv);
            let used1 = self.insert_left_of_tick(&mut overlap_clip, &new_start);
            let ghost mid = self@;
            let used2 = self.insert_right_of_tick(overlap_clip, &new_end);
            let ghost mid2 = self@;
            self.remove(&overlap_clip_key);
            proof {
                let k = outer_ids(cv, n);
                let u = used1@ + used2@;
                let acc2 = acc + u;
                assert(u.len() == k);
                if outer_left(cv, n) {
                    assert(u[0] == used1@[0]);
                    if outer_right(cv, n) {
                        assert(u[1] == used2@[0]);
                    }
                } else if outer_right(cv, n) {
                    assert(u[0] == used2@[0]);
                }
                if outer_right(cv, n) {
                    let j = if outer_left(cv, n) { 1int } else { 0int };
                    assert(right_piece(overlap_clip@, used2@[0], new_end.0) == right_piece(
                        cv,
                        u[j],
                        end_of(n) as u64,
                    ));
                }
                assert(self@ == split_outer_one(before, cv, n, u));
                assert(items.take(idx + 1).drop_last() =~= items.take(idx));
                assert(items.take(idx + 1).last() == cv);
                assert(acc2.subrange(0, acc2.len() - k) =~= acc);
                assert(acc2.subrange(acc2.len() - k, acc2.len() as int) =~= u);
                acc = acc2;
            }
        }
        proof {
            assert(items.take(items.len() as int) =~= items);
        }
        Ghost(acc)
    }

    /// Inserts a clip. The clips that start inside the new clip's span are
    /// trimmed (dropped if they end within it, cut to their part after it if
    /// they reach past it); the clips that start before it and reach into it
    /// are split around it; then the clip is put under its key.
    /// Pieces of split clips get new random identifiers.
    pub fn insert(&mut self, new_clip: Clip)
        requires
            new_clip.start.0 + new_clip.duration.0 <= u64::MAX,
        ensures
            exists|inner: Seq<u128>, outer: Seq<u128>|
                all_random(inner) && all_random(outer) && ids_match(
                    old(self)@,
                    new_clip@,
                    inner,
                    outer,
                ) && final(self)@ == insert_result(old(self)@, new_clip@, inner, outer),
            final(self)@.contains(new_clip@),
            sorted_clips(final(self)@),
            ends_fit(final(self)@),
    {
        let ghost s0 = self@;
        let used1 = self.clip_partial_overlapped_clips_to_the_right(&new_clip);
        let ghost s1 = self@;
        let overlapped_outer = self.get_surrounded_overlapped_clips(&new_clip);
        let used2 = self.split_overlapped_clip(overlapped_outer, &new_clip);
        let ghost n = new_clip@;
        self.put(new_clip);
        assert(self@ == insert_result(s0, n, used1@, used2@));
        proof {
            crate::clip_laws::lemma_insert_result_holds_clip(s0, n, used1@, used2@);
            use_type_invariant(&*self);
        }
    }
}

} // verus!
