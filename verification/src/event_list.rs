//! Event segments and the per-tick event collection of a clip.

use vstd::prelude::*;

use std::collections::BTreeMap;

use crate::common::{is_random_id, DataId};
use crate::event::EventType;
use crate::midi_message::MidiMessage;
use crate::tick::Tick;
use crate::tick_order::{lemma_increasing_ticks, lemma_tick_keys_ordered};
use vstd::std_specs::iter::IteratorSpec;

verus! {

broadcast use vstd::std_specs::btree::group_btree_axioms;

/// A block from a start to an end, such as a note from its note-on to its
/// note-off.
#[derive(Clone, Copy, Debug, PartialEq, Eq, Structural)]
pub struct EventSegment {
    /// The identifier used by the data layer.
    pub id: DataId,
    /// Where the segment starts: the note on.
    pub start: Tick,
    /// Where the segment ends: the note off.
    pub end: Tick,
    /// The kind of event of this segment.
    pub event_type: EventType,
    /// True if the segment is active.
    pub is_active: bool,
}

/// The key of a segment: that of its note-on message, or 0 otherwise.
pub open spec fn segment_key(e: EventType) -> u8 {
    match e {
        EventType::Midi(MidiMessage::NoteOn { key, .. }) => key,
        _ => 0,
    }
}

impl EventSegment {
    /// Creates a note segment from `start_tick` to `end_tick` with a new
    /// random identifier.
    pub fn new2(start_tick: Tick, end_tick: Tick, key: u8, velocity: u8, is_active: bool) -> (s:
        EventSegment)
        ensures
            is_random_id(s.id.0),
            s.start == start_tick,
            s.end == end_tick,
            s.event_type == EventType::Midi(MidiMessage::NoteOn { key, velocity }),
            s.is_active == is_active,
    {
        let event = EventType::Midi(MidiMessage::NoteOn { key, velocity });
        EventSegment { id: DataId::new(), start: start_tick, end: end_tick, event_type: event, is_active }
    }

    /// Creates a segment from its parts.
    pub fn new(id: DataId, start: Tick, end: Tick, event_type: EventType, is_active: bool) -> (s:
        EventSegment)
        ensures
            s == (EventSegment { id, start, end, event_type, is_active }),
    {
        EventSegment { id, start, end, event_type, is_active }
    }

    /// The key of this segment: that of its note-on message, or 0.
    pub fn get_key(&self) -> (key: u8)
        ensures
            key == segment_key(self.event_type),
    {
        match self.event_type {
            EventType::Midi(MidiMessage::NoteOn { key, .. }) => key,
            _ => 0,
        }
    }

    /// The tick where this segment ends.
    pub fn get_end(&self) -> (t: Tick)
        ensures
            t == self.end,
    {
        self.end
    }
}

/// The events of a clip, grouped by the tick at which they start; the ticks
/// are kept in order.
#[derive(Debug, Clone)]
pub struct EventCollection(BTreeMap<u64, Vec<EventSegment>>);

impl View for EventCollection {
    type V = Map<u64, Vec<EventSegment>>;

    closed spec fn view(&self) -> Map<u64, Vec<EventSegment>> {
        self.0@
    }
}

impl EventCollection {
    /// Creates an empty collection.
    pub fn new() -> (c: EventCollection)
        ensures
            c@ == Map::<u64, Vec<EventSegment>>::empty(),
    {
        EventCollection(BTreeMap::new())
    }

    /// Adds `event_entry` after the events already at `tick`.
    pub fn add_event(&mut self, tick: Tick, event_entry: EventSegment)
        ensures
            final(self)@.dom() == old(self)@.dom().insert(tick.0),
            final(self)@[tick.0]@ == (if old(self)@.contains_key(tick.0) {
                old(self)@[tick.0]@.push(event_entry)
            } else {
                seq![event_entry]
            }),
            forall|t: u64| t != tick.0 && old(self)@.contains_key(t) ==> final(self)@[t] == old(
                self,
            )@[t],
    {
        match self.0.remove(&tick.0) {
            Some(mut events) => {
                events.push(event_entry);
                self.0.insert(tick.0, events);
            },
            None => {
                let mut events = Vec::new();
                events.push(event_entry);
                self.0.insert(tick.0, events);
            },
        }
    }

    /// The events at `tick`, if any.
    pub fn get(&self, tick: &Tick) -> (events: Option<&Vec<EventSegment>>)
        ensures
            match events {
                Some(v) => self@.contains_key(tick.0) && *v == self@[tick.0],
                None => !self@.contains_key(tick.0),
            },
    {
        self.0.get(&tick.0)
    }

    /// A copy of this collection.
    pub fn duplicate(&self) -> (c: EventCollection)
        ensures
            c@ == self@,
    {
        EventCollection(self.0.clone())
    }

    /// The ticks of the collection in increasing order, each with its
    /// events.
    pub fn entries(&self) -> (r: Vec<(Tick, Vec<EventSegment>)>)
        ensures
            r@.len() == self@.dom().len(),
            forall|i: int, j: int| 0 <= i < j < r@.len() ==> r@[i].0.0 < r@[j].0.0,
            forall|i: int|
                0 <= i < r@.len() ==> self@.contains_key((#[trigger] r@[i]).0.0) && r@[i].1@
                    == self@[r@[i].0.0]@,
            forall|t: u64| #[trigger]
                self@.contains_key(t) ==> exists|i: int| 0 <= i < r@.len() && r@[i].0.0 == t,
    {
        proof {
            lemma_tick_keys_ordered();
        }
        let mut out: Vec<(Tick, Vec<EventSegment>)> = Vec::new();
        let iter = self.0.iter();
        let ghost items = iter.remaining();
        proof {
            lemma_increasing_ticks(items);
        }
        for kv in it: iter
            invariant
                it.seq() == items,
                out@.len() == it.index(),
                forall|i: int|
                    0 <= i < out@.len() ==> (#[trigger] out@[i]).0.0 == *items[i].0 && out@[i].1@
                        == (*items[i].1)@,
        {
            let (k, v) = kv;
            let mut copy: Vec<EventSegment> = Vec::new();
            let mut n: usize = 0;
            while n < v.len()
                invariant
                    copy@ == v@.take(n as int),
                    n <= v.len(),
                decreases v.len() - n,
            {
                copy.push(v[n]);
                assert(v@.take(n + 1) =~= v@.take(n as int).push(v@[n as int]));
                n = n + 1;
            }
            assert(v@.take(v.len() as int) =~= v@);
            out.push((Tick(*k), copy));
        }
        proof {
            assert forall|i: int, j: int| 0 <= i < j < out@.len() implies out@[i].0.0
                < out@[j].0.0 by {
                assert(*items[i].0 < *items[j].0);
            }
            assert forall|t: u64| #[trigger] self@.contains_key(t) implies exists|i: int|
                0 <= i < out@.len() && out@[i].0.0 == t by {
                assert(items.contains((&t, &self@[t])));
                let i = choose|i: int| 0 <= i < items.len() && items[i] == (&t, &self@[t]);
                assert(out@[i].0.0 == t);
            }
        }
        out
    }

    /// Builds a collection from `(tick, events)` entries; a later entry for
    /// a tick replaces an earlier one.
    pub fn from_entries(entries: Vec<(Tick, Vec<EventSegment>)>) -> (c: EventCollection)
        ensures
            c@ == entries_map(entries@),
    {
        let mut map: BTreeMap<u64, Vec<EventSegment>> = BTreeMap::new();
        let ghost all = entries@;
        for entry in it: entries
            invariant
                it.seq() == all,
                map@ == entries_map(all.take(it.index() as int)),
        {
            proof {
                assert(all.take(it.index() + 1).drop_last() =~= all.take(it.index() as int));
            }
            map.insert(entry.0.0, entry.1);
        }
        proof {
            assert(all.take(all.len() as int) =~= all);
        }
        EventCollection(map)
    }
}

/// The map that `(tick, events)` entries build, later entries winning.
pub open spec fn entries_map(entries: Seq<(Tick, Vec<EventSegment>)>) -> Map<u64, Vec<EventSegment>>
    decreases entries.len(),
{
    if entries.len() == 0 {
        Map::empty()
    } else {
        entries_map(entries.drop_last()).insert(entries.last().0.0, entries.last().1)
    }
}

} // verus!
