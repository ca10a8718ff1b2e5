//! The order in which maps keyed by ticks, or by clip keys, hand out their
//! entries.

use vstd::prelude::*;
use vstd::laws_cmp::obeys_cmp;
use vstd::std_specs::cmp::OrdSpec;
use vstd::std_specs::btree::{increasing_seq, key_obeys_cmp_spec};

use crate::clip::{key_lt, Clip};
use crate::event_list::EventSegment;

verus! {

/// Ticks are ordered as numbers, so a map keyed by them walks its keys in
/// increasing order.
pub proof fn lemma_tick_keys_ordered()
    ensures
        key_obeys_cmp_spec::<u64>(),
{
    broadcast use vstd::std_specs::btree::axiom_key_obeys_cmp_spec_meaning;
    broadcast use vstd::laws_cmp::group_laws_cmp;

    assert(obeys_cmp::<u64>());
}

/// Entries whose ticks come in increasing order have strictly increasing
/// ticks.
pub proof fn lemma_increasing_ticks(items: Seq<(&u64, &Vec<EventSegment>)>)
    requires
        increasing_seq(items.map_values(|kv: (&u64, &Vec<EventSegment>)| *kv.0)),
    ensures
        forall|i: int, j: int| 0 <= i < j < items.len() ==> *items[i].0 < *items[j].0,
{
    broadcast use vstd::std_specs::btree::axiom_increasing_seq_meaning;
    broadcast use vstd::laws_cmp::group_laws_cmp;

    let keys = items.map_values(|kv: (&u64, &Vec<EventSegment>)| *kv.0);
    assert(obeys_cmp::<u64>());
    assert forall|i: int, j: int| 0 <= i < j < items.len() implies *items[i].0 < *items[j].0 by {
        assert(keys[i] == *items[i].0);
        assert(keys[j] == *items[j].0);
        assert(keys[i].cmp_spec(&keys[j]) is Less);
    }
}

/// Clip keys (a start, then an identifier) are ordered as pairs of
/// numbers, so a map keyed by them walks its keys in increasing order.
pub proof fn lemma_clip_keys_ordered()
    ensures
        key_obeys_cmp_spec::<(u64, u128)>(),
        obeys_cmp::<(u64, u128)>(),
{
    broadcast use vstd::std_specs::btree::axiom_key_obeys_cmp_spec_meaning;
    broadcast use vstd::laws_cmp::group_laws_cmp;

    assert(obeys_cmp::<u64>());
    assert(obeys_cmp::<u128>());
    assert(obeys_cmp::<(u64, u128)>());
}

/// Entries whose clip keys come in increasing order have strictly
/// increasing keys.
pub proof fn lemma_increasing_clip_keys(items: Seq<(&(u64, u128), &Clip)>)
    requires
        increasing_seq(items.map_values(|kv: (&(u64, u128), &Clip)| *kv.0)),
    ensures
        forall|i: int, j: int| 0 <= i < j < items.len() ==> key_lt(*items[i].0, *items[j].0),
{
    broadcast use vstd::std_specs::btree::axiom_increasing_seq_meaning;
    broadcast use vstd::laws_cmp::group_laws_cmp;

    let keys = items.map_values(|kv: (&(u64, u128), &Clip)| *kv.0);
    assert(obeys_cmp::<u64>());
    assert(obeys_cmp::<u128>());
    assert(obeys_cmp::<(u64, u128)>());
    assert forall|i: int, j: int| 0 <= i < j < items.len() implies key_lt(
        *items[i].0,
        *items[j].0,
    ) by {
        assert(keys[i] == *items[i].0);
        assert(keys[j] == *items[j].0);
        assert(keys[i].cmp_spec(&keys[j]) is Less);
        assert(keys[i].0.cmp_spec(&keys[j].0) is Less || (keys[i].0 == keys[j].0
            && keys[i].1.cmp_spec(&keys[j].1) is Less));
    }
}

} // verus!
