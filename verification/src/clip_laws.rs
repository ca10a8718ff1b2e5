//! What inserting a clip guarantees about the whole collection: the clip is
//! there afterwards, no other clip overlaps it, clips away from it stay, and
//! clips that shared no tick still share none.

use vstd::prelude::*;

use crate::clip::{
    below, end_of, ends_fit, in_inner_range, in_outer_range, inner_cut, inner_drop, inner_ids,
    ids_match, inner_items, inner_need, insert_result, key_lt, key_of, outer_need,
    lemma_below, lemma_insert_fits,
    lemma_insert_sorted, lemma_remove_fits, lemma_remove_sorted, left_piece, outer_ids,
    outer_items, outer_left, outer_right, right_piece, seq_insert, seq_remove, sorted_clips,
    split_outer, split_outer_one, trim_inner, trim_inner_one, ClipView,
};

verus! {

broadcast use vstd::seq_lib::group_filter_ensures;

/// Clip `c` shares some tick with clip `n`'s span.
pub open spec fn overlaps(c: ClipView, n: ClipView) -> bool {
    c.start < end_of(n) && end_of(c) > n.start
}

/// Where a key splits any sequence.
proof fn lemma_below_bounds(s: Seq<ClipView>, k: (u64, u128))
    ensures
        0 <= below(s, k) <= s.len(),
    decreases s.len(),
{
    if s.len() > 0 {
        lemma_below_bounds(s.drop_last(), k);
    }
}

/// Two clips of a sorted sequence with the same key are the same clip.
pub(crate) proof fn lemma_unique_keys(s: Seq<ClipView>, a: ClipView, b: ClipView)
    requires
        sorted_clips(s),
        s.contains(a),
        s.contains(b),
        key_of(a) == key_of(b),
    ensures
        a == b,
{
    let i = choose|i: int| 0 <= i < s.len() && s[i] == a;
    let j = choose|j: int| 0 <= j < s.len() && s[j] == b;
    if i < j {
        assert(key_lt(key_of(s[i]), key_of(s[j])));
    } else if j < i {
        assert(key_lt(key_of(s[j]), key_of(s[i])));
    }
}

/// Putting `c` under its key yields `c` and clips that were there before.
pub(crate) proof fn lemma_insert_members(s: Seq<ClipView>, c: ClipView)
    requires
        sorted_clips(s),
    ensures
        seq_insert(s, c).contains(c),
        forall|e: ClipView| #[trigger] seq_insert(s, c).contains(e) ==> e == c || s.contains(e),
{
    lemma_below(s, key_of(c));
    let p = below(s, key_of(c));
    let r = seq_insert(s, c);
    if p < s.len() && key_of(s[p]) == key_of(c) {
        assert(r[p] == c);
        assert forall|e: ClipView| #[trigger] r.contains(e) implies e == c || s.contains(e) by {
            let i = choose|i: int| 0 <= i < r.len() && r[i] == e;
            if i != p {
                assert(s[i] == e);
            }
        }
    } else {
        assert(r[p] == c);
        assert forall|e: ClipView| #[trigger] r.contains(e) implies e == c || s.contains(e) by {
            let i = choose|i: int| 0 <= i < r.len() && r[i] == e;
            if i < p {
                assert(s[i] == e);
            } else if i > p {
                assert(s[i - 1] == e);
            }
        }
    }
}

/// Taking out key `k` leaves clips that were there, none under key `k`.
pub(crate) proof fn lemma_remove_members(s: Seq<ClipView>, k: (u64, u128))
    requires
        sorted_clips(s),
    ensures
        forall|e: ClipView| #[trigger]
            seq_remove(s, k).contains(e) ==> s.contains(e) && key_of(e) != k,
{
    lemma_below(s, k);
    let p = below(s, k);
    let r = seq_remove(s, k);
    assert forall|e: ClipView| #[trigger] r.contains(e) implies s.contains(e) && key_of(e) != k by {
        let i = choose|i: int| 0 <= i < r.len() && r[i] == e;
        if p < s.len() && key_of(s[p]) == k {
            if i < p {
                assert(s[i] == e);
                assert(key_lt(key_of(s[i]), k));
            } else {
                assert(s[i + 1] == e);
                assert(key_lt(key_of(s[p]), key_of(s[i + 1])));
            }
        } else {
            assert(s[i] == e);
            if i < p {
                assert(key_lt(key_of(s[i]), k));
            } else if key_of(e) == k {
                if i > p {
                    assert(key_lt(key_of(s[p]), key_of(s[i])));
                    assert(!key_lt(key_of(s[p]), k));
                }
            }
        }
    }
}

/// Trimming the first `m` inner clips keeps the sequence sorted and in
/// range, adds only clips that do not overlap `n`, and leaves every clip
/// keyed after `n` that overlaps it under the key of one of the inner clips
/// not trimmed yet.
#[verifier::spinoff_prover]
#[verifier::rlimit(50)]
proof fn lemma_trim(s0: Seq<ClipView>, items: Seq<ClipView>, n: ClipView, ids: Seq<u128>, m: int)
    requires
        sorted_clips(s0),
        ends_fit(s0),
        end_of(n) <= u64::MAX,
        0 <= m <= items.len(),
        forall|j: int|
            0 <= j < items.len() ==> s0.contains(#[trigger] items[j]) && in_inner_range(
                items[j],
                n,
            ),
        forall|e: ClipView|
            #![trigger s0.contains(e)]
            s0.contains(e) && n.start <= e.start && overlaps(e, n) ==> exists|j: int|
                0 <= j < items.len() && key_of(#[trigger] items[j]) == key_of(e),
    ensures
        sorted_clips(trim_inner(s0, items.take(m), n, ids)),
        ends_fit(trim_inner(s0, items.take(m), n, ids)),
        forall|e: ClipView| #[trigger]
            trim_inner(s0, items.take(m), n, ids).contains(e) ==> s0.contains(e) || !overlaps(
                e,
                n,
            ),
        forall|e: ClipView|
            #![trigger trim_inner(s0, items.take(m), n, ids).contains(e)]
            trim_inner(s0, items.take(m), n, ids).contains(e) && n.start <= e.start
                && overlaps(e, n) ==> exists|j: int|
                m <= j < items.len() && key_of(#[trigger] items[j]) == key_of(e),
    decreases m,
{
    if m == 0 {
        assert(items.take(0) =~= Seq::<ClipView>::empty());
    } else {
        let t = items.take(m);
        assert(t.drop_last() =~= items.take(m - 1));
        assert(t.last() == items[m - 1]);
        let c = items[m - 1];
        let k = inner_ids(c, n);
        let ids1 = ids.subrange(0, ids.len() - k);
        let ids2 = ids.subrange(ids.len() - k, ids.len() as int);
        lemma_trim(s0, items, n, ids1, m - 1);
        let r1 = trim_inner(s0, items.take(m - 1), n, ids1);
        let r = trim_inner(s0, t, n, ids);
        assert(r == trim_inner_one(r1, c, n, ids2));
        if inner_drop(c, n) {
            lemma_remove_sorted(r1, key_of(c));
            lemma_remove_fits(r1, key_of(c));
            lemma_remove_members(r1, key_of(c));
        } else if inner_cut(c, n) {
            let r2 = seq_remove(r1, key_of(c));
            let piece = right_piece(c, ids2[0], end_of(n) as u64);
            lemma_remove_sorted(r1, key_of(c));
            lemma_remove_fits(r1, key_of(c));
            lemma_remove_members(r1, key_of(c));
            assert(s0.contains(c));
            assert(end_of(c) <= u64::MAX);
            lemma_insert_sorted(r2, piece);
            lemma_insert_fits(r2, piece);
            lemma_insert_members(r2, piece);
        } else {
            assert forall|e: ClipView|
                #![trigger r.contains(e)]
                r.contains(e) && n.start <= e.start && overlaps(e, n) implies exists|
                j: int,
            | m <= j < items.len() && key_of(#[trigger] items[j]) == key_of(e) by {
                let j = choose|j: int|
                    m - 1 <= j < items.len() && key_of(#[trigger] items[j]) == key_of(e);
                if j == m - 1 {
                    assert(s0.contains(e));
                    assert(s0.contains(c));
                    lemma_unique_keys(s0, e, c);
                }
            }
        }
    }
}

/// Splitting the first `m` outer clips keeps the sequence sorted and in
/// range, and leaves every clip keyed other than `n` that overlaps it under
/// the key of one of the outer clips not split yet.
#[verifier::spinoff_prover]
#[verifier::rlimit(50)]
proof fn lemma_split(s0: Seq<ClipView>, items: Seq<ClipView>, n: ClipView, ids: Seq<u128>, m: int)
    requires
        sorted_clips(s0),
        ends_fit(s0),
        end_of(n) <= u64::MAX,
        0 <= m <= items.len(),
        forall|j: int|
            0 <= j < items.len() ==> in_outer_range(#[trigger] items[j], n) && end_of(items[j])
                <= u64::MAX,
        forall|e: ClipView|
            #![trigger s0.contains(e)]
            s0.contains(e) && key_of(e) != key_of(n) && overlaps(e, n) ==> exists|j: int|
                0 <= j < items.len() && key_of(#[trigger] items[j]) == key_of(e),
    ensures
        sorted_clips(split_outer(s0, items.take(m), n, ids)),
        ends_fit(split_outer(s0, items.take(m), n, ids)),
        forall|e: ClipView|
            #![trigger split_outer(s0, items.take(m), n, ids).contains(e)]
            split_outer(s0, items.take(m), n, ids).contains(e) && key_of(e) != key_of(n)
                && overlaps(e, n) ==> exists|j: int|
                m <= j < items.len() && key_of(#[trigger] items[j]) == key_of(e),
    decreases m,
{
    if m == 0 {
        assert(items.take(0) =~= Seq::<ClipView>::empty());
    } else {
        let t = items.take(m);
        assert(t.drop_last() =~= items.take(m - 1));
        assert(t.last() == items[m - 1]);
        let c = items[m - 1];
        let k = outer_ids(c, n);
        let ids1 = ids.subrange(0, ids.len() - k);
        let ids2 = ids.subrange(ids.len() - k, ids.len() as int);
        lemma_split(s0, items, n, ids1, m - 1);
        let r1 = split_outer(s0, items.take(m - 1), n, ids1);
        let r = split_outer(s0, t, n, ids);
        assert(r == split_outer_one(r1, c, n, ids2));
        let s1 = if outer_left(c, n) {
            seq_insert(r1, left_piece(c, ids2[0], n.start))
        } else {
            r1
        };
        let j0 = if outer_left(c, n) {
            1int
        } else {
            0int
        };
        let s2 = if outer_right(c, n) {
            seq_insert(s1, right_piece(c, ids2[j0], end_of(n) as u64))
        } else {
            s1
        };
        if outer_left(c, n) {
            let lp = left_piece(c, ids2[0], n.start);
            lemma_insert_sorted(r1, lp);
            lemma_insert_fits(r1, lp);
            lemma_insert_members(r1, lp);
        }
        if outer_right(c, n) {
            let rp = right_piece(c, ids2[j0], end_of(n) as u64);
            lemma_insert_sorted(s1, rp);
            lemma_insert_fits(s1, rp);
            lemma_insert_members(s1, rp);
        }
        lemma_remove_sorted(s2, key_of(c));
        lemma_remove_fits(s2, key_of(c));
        lemma_remove_members(s2, key_of(c));
        assert(r == seq_remove(s2, key_of(c)));
        assert forall|e: ClipView|
            #![trigger r.contains(e)]
            r.contains(e) && key_of(e) != key_of(n) && overlaps(e, n) implies exists|j: int|
            m <= j < items.len() && key_of(#[trigger] items[j]) == key_of(e) by {
            assert(s2.contains(e));
            assert(r1.contains(e));
            let j = choose|j: int|
                m - 1 <= j < items.len() && key_of(#[trigger] items[j]) == key_of(e);
            assert(j != m - 1);
        }
    }
}

/// A clip that is inserted is in the collection afterwards.
pub proof fn lemma_insert_result_holds_clip(
    s: Seq<ClipView>,
    n: ClipView,
    inner: Seq<u128>,
    outer: Seq<u128>,
)
    ensures
        insert_result(s, n, inner, outer).contains(n),
{
    let s1 = trim_inner(s, inner_items(s, n), n, inner);
    let s2 = split_outer(s1, outer_items(s1, n), n, outer);
    lemma_below_bounds(s2, key_of(n));
    let p = below(s2, key_of(n));
    assert(seq_insert(s2, n)[p] == n);
}

/// After a clip is inserted, no other clip of the collection overlaps it:
/// the clips that started inside its span are gone or keep only their part
/// after it, and the clips that reached into it from before keep only their
/// parts before and after it.
pub proof fn lemma_insert_clears_span(
    s: Seq<ClipView>,
    n: ClipView,
    inner: Seq<u128>,
    outer: Seq<u128>,
)
    requires
        sorted_clips(s),
        ends_fit(s),
        end_of(n) <= u64::MAX,
    ensures
        forall|i: int|
            0 <= i < insert_result(s, n, inner, outer).len() && key_of(
                #[trigger] insert_result(s, n, inner, outer)[i],
            ) != key_of(n) ==> !overlaps(insert_result(s, n, inner, outer)[i], n),
{
    let items = inner_items(s, n);
    assert forall|j: int| 0 <= j < items.len() implies s.contains(#[trigger] items[j])
        && in_inner_range(items[j], n) by {
        assert(items.contains(items[j]));
        s.lemma_filter_contains_rev(|c: ClipView| in_inner_range(c, n), items[j]);
        s.lemma_filter_pred(|c: ClipView| in_inner_range(c, n), j);
    }
    assert forall|e: ClipView|
        #![trigger s.contains(e)]
        s.contains(e) && n.start <= e.start && overlaps(e, n) implies exists|j: int|
        0 <= j < items.len() && key_of(#[trigger] items[j]) == key_of(e) by {
        let i = choose|i: int| 0 <= i < s.len() && s[i] == e;
        s.lemma_filter_contains(|c: ClipView| in_inner_range(c, n), i);
        let j = choose|j: int| 0 <= j < items.len() && items[j] == e;
        assert(key_of(items[j]) == key_of(e));
    }
    assert(items.take(items.len() as int) =~= items);
    lemma_trim(s, items, n, inner, items.len() as int);
    let s1 = trim_inner(s, items, n, inner);
    let outs = outer_items(s1, n);
    assert forall|j: int| 0 <= j < outs.len() implies in_outer_range(#[trigger] outs[j], n)
        && end_of(outs[j]) <= u64::MAX by {
        assert(outs.contains(outs[j]));
        s1.lemma_filter_contains_rev(|c: ClipView| in_outer_range(c, n), outs[j]);
        s1.lemma_filter_pred(|c: ClipView| in_outer_range(c, n), j);
    }
    assert forall|e: ClipView|
        #![trigger s1.contains(e)]
        s1.contains(e) && key_of(e) != key_of(n) && overlaps(e, n) implies exists|j: int|
        0 <= j < outs.len() && key_of(#[trigger] outs[j]) == key_of(e) by {
        if n.start <= e.start {
            let j = choose|j: int|
                items.len() <= j < items.len() && key_of(#[trigger] items[j]) == key_of(e);
        }
        let i = choose|i: int| 0 <= i < s1.len() && s1[i] == e;
        s1.lemma_filter_contains(|c: ClipView| in_outer_range(c, n), i);
        let j = choose|j: int| 0 <= j < outs.len() && outs[j] == e;
        assert(key_of(outs[j]) == key_of(e));
    }
    assert(outs.take(outs.len() as int) =~= outs);
    lemma_split(s1, outs, n, outer, outs.len() as int);
    let s2 = split_outer(s1, outs, n, outer);
    lemma_insert_members(s2, n);
    let r = seq_insert(s2, n);
    assert(r == insert_result(s, n, inner, outer));
    assert forall|i: int| 0 <= i < r.len() && key_of(#[trigger] r[i]) != key_of(n) implies !overlaps(
        r[i],
        n,
    ) by {
        assert(r.contains(r[i]));
        assert(s2.contains(r[i]));
        if overlaps(r[i], n) {
            let j = choose|j: int|
                outs.len() <= j < outs.len() && key_of(#[trigger] outs[j]) == key_of(r[i]);
        }
    }
}

/// A clip far from `n`: starting at or after the end of `n`'s span (under
/// another key than `n`'s), or starting before `n` and ending at or before
/// its start.
pub open spec fn far_from(c: ClipView, n: ClipView) -> bool {
    (c.start >= end_of(n) && key_of(c) != key_of(n)) || (c.start < n.start && end_of(c) <= n.start)
}

/// Trimming takes no fewer than zero identifiers.
proof fn lemma_inner_need_nonneg(items: Seq<ClipView>, n: ClipView)
    ensures
        inner_need(items, n) >= 0,
    decreases items.len(),
{
    if items.len() > 0 {
        lemma_inner_need_nonneg(items.drop_last(), n);
    }
}

/// Splitting takes no fewer than zero identifiers.
proof fn lemma_outer_need_nonneg(items: Seq<ClipView>, n: ClipView)
    ensures
        outer_need(items, n) >= 0,
    decreases items.len(),
{
    if items.len() > 0 {
        lemma_outer_need_nonneg(items.drop_last(), n);
    }
}

/// A clip stays when another is put under a different key.
pub(crate) proof fn lemma_insert_keeps(s: Seq<ClipView>, x: ClipView, e: ClipView)
    requires
        sorted_clips(s),
        s.contains(e),
        key_of(e) != key_of(x),
    ensures
        seq_insert(s, x).contains(e),
{
    lemma_below(s, key_of(x));
    let p = below(s, key_of(x));
    let r = seq_insert(s, x);
    let i = choose|i: int| 0 <= i < s.len() && s[i] == e;
    if p < s.len() && key_of(s[p]) == key_of(x) {
        assert(r[i] == e);
    } else if i < p {
        assert(r[i] == e);
    } else {
        assert(r[i + 1] == e);
    }
}

/// A clip stays when another key is taken out.
pub(crate) proof fn lemma_remove_keeps(s: Seq<ClipView>, k: (u64, u128), e: ClipView)
    requires
        sorted_clips(s),
        s.contains(e),
        key_of(e) != k,
    ensures
        seq_remove(s, k).contains(e),
{
    lemma_below(s, k);
    let p = below(s, k);
    let r = seq_remove(s, k);
    let i = choose|i: int| 0 <= i < s.len() && s[i] == e;
    if p < s.len() && key_of(s[p]) == k {
        if i < p {
            assert(r[i] == e);
        } else {
            assert(i != p);
            assert(r[i - 1] == e);
        }
    }
}

/// Trimming inner clips keeps every clip outside the span whose identifier
/// none of the new identifiers repeats.
proof fn lemma_trim_keeps(
    s0: Seq<ClipView>,
    items: Seq<ClipView>,
    n: ClipView,
    ids: Seq<u128>,
    m: int,
    e: ClipView,
)
    requires
        sorted_clips(s0),
        ends_fit(s0),
        0 <= m <= items.len(),
        forall|j: int|
            0 <= j < items.len() ==> in_inner_range(#[trigger] items[j], n) && end_of(items[j])
                <= u64::MAX,
        s0.contains(e),
        !in_inner_range(e, n),
        ids.len() >= inner_need(items.take(m), n),
        forall|i: int| 0 <= i < ids.len() ==> #[trigger] ids[i] != e.id,
    ensures
        sorted_clips(trim_inner(s0, items.take(m), n, ids)),
        ends_fit(trim_inner(s0, items.take(m), n, ids)),
        trim_inner(s0, items.take(m), n, ids).contains(e),
    decreases m,
{
    if m == 0 {
        assert(items.take(0) =~= Seq::<ClipView>::empty());
    } else {
        let t = items.take(m);
        assert(t.drop_last() =~= items.take(m - 1));
        assert(t.last() == items[m - 1]);
        let c = items[m - 1];
        let k = inner_ids(c, n);
        let ids1 = ids.subrange(0, ids.len() - k);
        let ids2 = ids.subrange(ids.len() - k, ids.len() as int);
        assert(inner_need(t, n) == inner_need(items.take(m - 1), n) + k);
        lemma_inner_need_nonneg(items.take(m - 1), n);
        assert(forall|i: int| 0 <= i < ids1.len() ==> ids1[i] == ids[i]);
        lemma_trim_keeps(s0, items, n, ids1, m - 1, e);
        let r1 = trim_inner(s0, items.take(m - 1), n, ids1);
        assert(trim_inner(s0, t, n, ids) == trim_inner_one(r1, c, n, ids2));
        assert(key_of(e) != key_of(c));
        if inner_drop(c, n) {
            lemma_remove_sorted(r1, key_of(c));
            lemma_remove_fits(r1, key_of(c));
            lemma_remove_keeps(r1, key_of(c), e);
        } else if inner_cut(c, n) {
            let r2 = seq_remove(r1, key_of(c));
            lemma_remove_sorted(r1, key_of(c));
            lemma_remove_fits(r1, key_of(c));
            lemma_remove_keeps(r1, key_of(c), e);
            assert(ids2[0] == ids[ids.len() - 1]);
            let piece = right_piece(c, ids2[0], crate::clip::end_of(n) as u64);
            lemma_insert_sorted(r2, piece);
            lemma_insert_fits(r2, piece);
            lemma_insert_keeps(r2, piece, e);
        }
    }
}

/// Splitting outer clips keeps every clip outside their range whose
/// identifier none of the new identifiers repeats.
#[verifier::spinoff_prover]
proof fn lemma_split_keeps(
    s0: Seq<ClipView>,
    items: Seq<ClipView>,
    n: ClipView,
    ids: Seq<u128>,
    m: int,
    e: ClipView,
)
    requires
        sorted_clips(s0),
        ends_fit(s0),
        end_of(n) <= u64::MAX,
        0 <= m <= items.len(),
        forall|j: int|
            0 <= j < items.len() ==> in_outer_range(#[trigger] items[j], n) && end_of(items[j])
                <= u64::MAX && s0.contains(items[j]),
        s0.contains(e),
        !in_outer_range(e, n),
        ids.len() >= outer_need(items.take(m), n),
        forall|i: int| 0 <= i < ids.len() ==> #[trigger] ids[i] != e.id,
    ensures
        sorted_clips(split_outer(s0, items.take(m), n, ids)),
        ends_fit(split_outer(s0, items.take(m), n, ids)),
        split_outer(s0, items.take(m), n, ids).contains(e),
    decreases m,
{
    if m == 0 {
        assert(items.take(0) =~= Seq::<ClipView>::empty());
    } else {
        let t = items.take(m);
        assert(t.drop_last() =~= items.take(m - 1));
        assert(t.last() == items[m - 1]);
        let c = items[m - 1];
        let k = outer_ids(c, n);
        let ids1 = ids.subrange(0, ids.len() - k);
        let ids2 = ids.subrange(ids.len() - k, ids.len() as int);
        assert(outer_need(t, n) == outer_need(items.take(m - 1), n) + k);
        lemma_outer_need_nonneg(items.take(m - 1), n);
        assert(forall|i: int| 0 <= i < ids1.len() ==> ids1[i] == ids[i]);
        lemma_split_keeps(s0, items, n, ids1, m - 1, e);
        let r1 = split_outer(s0, items.take(m - 1), n, ids1);
        assert(split_outer(s0, t, n, ids) == split_outer_one(r1, c, n, ids2));
        if key_of(e) == key_of(c) {
            lemma_unique_keys(s0, e, c);
        }
        let s1 = if outer_left(c, n) {
            seq_insert(r1, left_piece(c, ids2[0], n.start))
        } else {
            r1
        };
        let j0 = if outer_left(c, n) {
            1int
        } else {
            0int
        };
        let s2 = if outer_right(c, n) {
            seq_insert(s1, right_piece(c, ids2[j0], end_of(n) as u64))
        } else {
            s1
        };
        if outer_left(c, n) {
            let lp = left_piece(c, ids2[0], n.start);
            assert(ids2[0] == ids[ids.len() - k]);
            lemma_insert_sorted(r1, lp);
            lemma_insert_fits(r1, lp);
            lemma_insert_keeps(r1, lp, e);
        }
        if outer_right(c, n) {
            let rp = right_piece(c, ids2[j0], end_of(n) as u64);
            assert(ids2[j0] == ids[ids.len() - k + j0]);
            lemma_insert_sorted(s1, rp);
            lemma_insert_fits(s1, rp);
            lemma_insert_keeps(s1, rp, e);
        }
        lemma_remove_sorted(s2, key_of(c));
        lemma_remove_fits(s2, key_of(c));
        lemma_remove_keeps(s2, key_of(c), e);
    }
}

/// Inserting a clip leaves alone every clip far from it (starting at or
/// after the end of its span, or ending at or before its start), provided that none
/// of the new identifiers given to pieces repeats that clip's identifier.
pub proof fn lemma_insert_keeps_far_clips(
    s: Seq<ClipView>,
    n: ClipView,
    inner: Seq<u128>,
    outer: Seq<u128>,
    e: ClipView,
)
    requires
        sorted_clips(s),
        ends_fit(s),
        end_of(n) <= u64::MAX,
        ids_match(s, n, inner, outer),
        s.contains(e),
        far_from(e, n),
        forall|i: int| 0 <= i < inner.len() ==> #[trigger] inner[i] != e.id,
        forall|i: int| 0 <= i < outer.len() ==> #[trigger] outer[i] != e.id,
    ensures
        insert_result(s, n, inner, outer).contains(e),
{
    let items = inner_items(s, n);
    assert forall|j: int| 0 <= j < items.len() implies in_inner_range(#[trigger] items[j], n)
        && end_of(items[j]) <= u64::MAX by {
        assert(items.contains(items[j]));
        s.lemma_filter_contains_rev(|c: ClipView| in_inner_range(c, n), items[j]);
        s.lemma_filter_pred(|c: ClipView| in_inner_range(c, n), j);
    }
    assert(items.take(items.len() as int) =~= items);
    lemma_trim_keeps(s, items, n, inner, items.len() as int, e);
    let s1 = trim_inner(s, items, n, inner);
    let outs = outer_items(s1, n);
    assert forall|j: int| 0 <= j < outs.len() implies in_outer_range(#[trigger] outs[j], n)
        && end_of(outs[j]) <= u64::MAX && s1.contains(outs[j]) by {
        assert(outs.contains(outs[j]));
        s1.lemma_filter_contains_rev(|c: ClipView| in_outer_range(c, n), outs[j]);
        s1.lemma_filter_pred(|c: ClipView| in_outer_range(c, n), j);
    }
    assert(outs.take(outs.len() as int) =~= outs);
    lemma_split_keeps(s1, outs, n, outer, outs.len() as int, e);
    let s2 = split_outer(s1, outs, n, outer);
    lemma_insert_keeps(s2, n, e);
}

/// How many clips have a key below `k`, when all of them do.
proof fn lemma_below_all(s: Seq<ClipView>, k: (u64, u128))
    requires
        forall|i: int| 0 <= i < s.len() ==> key_lt(key_of(#[trigger] s[i]), k),
    ensures
        below(s, k) == s.len(),
    decreases s.len(),
{
    if s.len() > 0 {
        let t = s.drop_last();
        assert forall|i: int| 0 <= i < t.len() implies key_lt(key_of(#[trigger] t[i]), k) by {
            assert(t[i] == s[i]);
        }
        lemma_below_all(t, k);
        assert(key_lt(key_of(s[s.len() - 1]), k));
    }
}

/// Inserting a clip that starts after every clip of the collection has
/// ended puts it at the end and leaves the other clips as they were.
pub proof fn lemma_insert_after_all(
    s: Seq<ClipView>,
    n: ClipView,
    inner: Seq<u128>,
    outer: Seq<u128>,
)
    requires
        forall|i: int| 0 <= i < s.len() ==> (#[trigger] s[i]).start < n.start && end_of(s[i]) <= n.start,
    ensures
        insert_result(s, n, inner, outer) == s.push(n),
{
    let items = inner_items(s, n);
    if items.len() > 0 {
        assert(items.contains(items[0]));
        s.lemma_filter_contains_rev(|c: ClipView| in_inner_range(c, n), items[0]);
        s.lemma_filter_pred(|c: ClipView| in_inner_range(c, n), 0);
        let j = choose|j: int| 0 <= j < s.len() && s[j] == items[0];
        assert(s[j].start < n.start);
    }
    assert(trim_inner(s, items, n, inner) == s);
    let outs = outer_items(s, n);
    if outs.len() > 0 {
        assert(outs.contains(outs[0]));
        s.lemma_filter_contains_rev(|c: ClipView| in_outer_range(c, n), outs[0]);
        s.lemma_filter_pred(|c: ClipView| in_outer_range(c, n), 0);
        let j = choose|j: int| 0 <= j < s.len() && s[j] == outs[0];
        assert(end_of(s[j]) <= n.start);
    }
    assert(split_outer(s, outs, n, outer) == s);
    assert forall|i: int| 0 <= i < s.len() implies key_lt(key_of(#[trigger] s[i]), key_of(n)) by {
        assert(s[i].start < n.start);
    }
    lemma_below_all(s, key_of(n));
    assert(s.insert(s.len() as int, n) =~= s.push(n));
}

/// Some clip of the sequence covers tick `t`.
pub open spec fn covers(s: Seq<ClipView>, t: int) -> bool {
    exists|i: int| 0 <= i < s.len() && s[i].start <= t && t < end_of(s[i])
}

/// The ticks of `e` lie within those of some clip of `s`.
pub open spec fn within(e: ClipView, s: Seq<ClipView>) -> bool {
    exists|c: ClipView| #[trigger] s.contains(c) && c.start <= e.start && end_of(e) <= end_of(c)
}

/// `v` is one of the identifiers.
pub open spec fn has_id(ids: Seq<u128>, v: u128) -> bool {
    exists|i: int| 0 <= i < ids.len() && ids[i] == v
}

/// The identifiers differ from each other and from those of the clips of
/// `s`.
pub open spec fn fresh_ids(ids: Seq<u128>, s: Seq<ClipView>) -> bool {
    &&& forall|i: int, j: int|
        0 <= i < ids.len() && 0 <= j < ids.len() && i != j ==> #[trigger] ids[i] != #[trigger] ids[j]
    &&& forall|i: int, c: ClipView|
        0 <= i < ids.len() && #[trigger] s.contains(c) ==> #[trigger] ids[i] != c.id
}

/// A clip of `s` covering `t` shows that `s` covers `t`.
proof fn lemma_covers_by(s: Seq<ClipView>, e: ClipView, t: int)
    requires
        s.contains(e),
        e.start <= t < end_of(e),
    ensures
        covers(s, t),
{
    let i = choose|i: int| 0 <= i < s.len() && s[i] == e;
    assert(s[i].start <= t && t < end_of(s[i]));
}

/// Trimming the first `m` inner clips yields clips of `s0` or clips under
/// one of the new identifiers, each lying within a clip of `s0`; and it
/// keeps every tick outside `n`'s span that `s0` covers covered.
#[verifier::spinoff_prover]
#[verifier::rlimit(60)]
proof fn lemma_trim_cover(
    s0: Seq<ClipView>,
    items: Seq<ClipView>,
    n: ClipView,
    ids: Seq<u128>,
    m: int,
    t: int,
)
    requires
        sorted_clips(s0),
        ends_fit(s0),
        end_of(n) <= u64::MAX,
        0 <= m <= items.len(),
        forall|j: int|
            0 <= j < items.len() ==> s0.contains(#[trigger] items[j]) && in_inner_range(
                items[j],
                n,
            ),
        forall|e: ClipView|
            #![trigger s0.contains(e)]
            s0.contains(e) && n.start <= e.start && overlaps(e, n) ==> exists|j: int|
                0 <= j < items.len() && key_of(#[trigger] items[j]) == key_of(e),
        ids.len() == inner_need(items.take(m), n),
        fresh_ids(ids, s0),
        t < n.start || t >= end_of(n),
    ensures
        forall|e: ClipView| #[trigger]
            trim_inner(s0, items.take(m), n, ids).contains(e) ==> (s0.contains(e) || has_id(
                ids,
                e.id,
            )) && within(e, s0),
        covers(s0, t) ==> covers(trim_inner(s0, items.take(m), n, ids), t),
    decreases m,
{
    if m == 0 {
        assert(items.take(0) =~= Seq::<ClipView>::empty());
        assert forall|e: ClipView| #[trigger] s0.contains(e) implies within(e, s0) by {}
    } else {
        let tk = items.take(m);
        assert(tk.drop_last() =~= items.take(m - 1));
        assert(tk.last() == items[m - 1]);
        let c = items[m - 1];
        let k = inner_ids(c, n);
        let ids1 = ids.subrange(0, ids.len() - k);
        let ids2 = ids.subrange(ids.len() - k, ids.len() as int);
        assert(inner_need(tk, n) == inner_need(items.take(m - 1), n) + k);
        lemma_inner_need_nonneg(items.take(m - 1), n);
        assert(forall|i: int| 0 <= i < ids1.len() ==> ids1[i] == ids[i]);
        assert(fresh_ids(ids1, s0));
        lemma_trim_cover(s0, items, n, ids1, m - 1, t);
        lemma_trim(s0, items, n, ids1, m - 1);
        let r1 = trim_inner(s0, items.take(m - 1), n, ids1);
        let r = trim_inner(s0, tk, n, ids);
        assert(r == trim_inner_one(r1, c, n, ids2));
        assert(s0.contains(c));
        assert(in_inner_range(c, n));
        assert forall|e: ClipView| r1.contains(e) && key_of(e) == key_of(c) implies e == c by {
            if !s0.contains(e) {
                let i = choose|i: int| 0 <= i < ids1.len() && ids1[i] == e.id;
                assert(ids[i] != c.id);
            } else {
                lemma_unique_keys(s0, e, c);
            }
        }
        assert forall|e: ClipView| r1.contains(e) implies (s0.contains(e) || has_id(ids, e.id))
            && within(e, s0) by {
            if !s0.contains(e) {
                let i = choose|i: int| 0 <= i < ids1.len() && ids1[i] == e.id;
                assert(ids[i] == e.id);
            }
        }
        lemma_remove_sorted(r1, key_of(c));
        lemma_remove_members(r1, key_of(c));
        let r2 = seq_remove(r1, key_of(c));
        if inner_drop(c, n) {
            assert(r == r2);
            if covers(s0, t) {
                let i = choose|i: int| 0 <= i < r1.len() && r1[i].start <= t && t < end_of(r1[i]);
                let e = r1[i];
                assert(r1.contains(e));
                if key_of(e) == key_of(c) {
                    assert(e == c);
                } else {
                    lemma_remove_keeps(r1, key_of(c), e);
                    lemma_covers_by(r, e, t);
                }
            }
        } else {
            let piece = right_piece(c, ids2[0], end_of(n) as u64);
            assert(ids2[0] == ids[ids.len() - 1]);
            assert(r == seq_insert(r2, piece));
            lemma_insert_members(r2, piece);
            assert(within(piece, s0));
            assert(has_id(ids, piece.id));
            if covers(s0, t) {
                let i = choose|i: int| 0 <= i < r1.len() && r1[i].start <= t && t < end_of(r1[i]);
                let e = r1[i];
                assert(r1.contains(e));
                if key_of(e) == key_of(c) {
                    assert(e == c);
                    lemma_covers_by(r, piece, t);
                } else {
                    lemma_remove_keeps(r1, key_of(c), e);
                    if !s0.contains(e) {
                        let j = choose|j: int| 0 <= j < ids1.len() && ids1[j] == e.id;
                        assert(ids[j] == e.id);
                        assert(ids[j] != ids[ids.len() - 1]);
                    } else {
                        assert(ids[ids.len() - 1] != e.id);
                    }
                    lemma_insert_keeps(r2, piece, e);
                    lemma_covers_by(r, e, t);
                }
            }
        }
    }
}

/// Splitting the first `m` outer clips yields clips of `s0` or clips under
/// one of the new identifiers, each lying within a clip of `s0`; and it
/// keeps every tick outside `n`'s span that `s0` covers covered.
#[verifier::spinoff_prover]
#[verifier::rlimit(80)]
proof fn lemma_split_cover(
    s0: Seq<ClipView>,
    items: Seq<ClipView>,
    n: ClipView,
    ids: Seq<u128>,
    m: int,
    t: int,
)
    requires
        sorted_clips(s0),
        ends_fit(s0),
        end_of(n) <= u64::MAX,
        0 <= m <= items.len(),
        forall|j: int|
            0 <= j < items.len() ==> in_outer_range(#[trigger] items[j], n) && end_of(items[j])
                <= u64::MAX && s0.contains(items[j]),
        forall|e: ClipView|
            #![trigger s0.contains(e)]
            s0.contains(e) && key_of(e) != key_of(n) && overlaps(e, n) ==> exists|j: int|
                0 <= j < items.len() && key_of(#[trigger] items[j]) == key_of(e),
        ids.len() == outer_need(items.take(m), n),
        fresh_ids(ids, s0),
        t < n.start || t >= end_of(n),
    ensures
        forall|e: ClipView| #[trigger]
            split_outer(s0, items.take(m), n, ids).contains(e) ==> (s0.contains(e) || has_id(
                ids,
                e.id,
            )) && within(e, s0),
        covers(s0, t) ==> covers(split_outer(s0, items.take(m), n, ids), t),
    decreases m,
{
    if m == 0 {
        assert(items.take(0) =~= Seq::<ClipView>::empty());
        assert forall|e: ClipView| #[trigger] s0.contains(e) implies within(e, s0) by {}
    } else {
        let tk = items.take(m);
        assert(tk.drop_last() =~= items.take(m - 1));
        assert(tk.last() == items[m - 1]);
        let c = items[m - 1];
        let k = outer_ids(c, n);
        let ids1 = ids.subrange(0, ids.len() - k);
        let ids2 = ids.subrange(ids.len() - k, ids.len() as int);
        assert(outer_need(tk, n) == outer_need(items.take(m - 1), n) + k);
        lemma_outer_need_nonneg(items.take(m - 1), n);
        assert(forall|i: int| 0 <= i < ids1.len() ==> ids1[i] == ids[i]);
        assert(fresh_ids(ids1, s0));
        lemma_split_cover(s0, items, n, ids1, m - 1, t);
        lemma_split(s0, items, n, ids1, m - 1);
        let r1 = split_outer(s0, items.take(m - 1), n, ids1);
        let r = split_outer(s0, tk, n, ids);
        assert(r == split_outer_one(r1, c, n, ids2));
        assert(s0.contains(c));
        assert(in_outer_range(c, n));
        assert(outer_left(c, n));
        let lp = left_piece(c, ids2[0], n.start);
        assert(ids2[0] == ids[ids.len() - k]);
        let s1 = seq_insert(r1, lp);
        let s2 = if outer_right(c, n) {
            seq_insert(s1, right_piece(c, ids2[1], end_of(n) as u64))
        } else {
            s1
        };
        assert(r == seq_remove(s2, key_of(c)));
        assert forall|e: ClipView| r1.contains(e) && key_of(e) == key_of(c) implies e == c by {
            if !s0.contains(e) {
                let i = choose|i: int| 0 <= i < ids1.len() && ids1[i] == e.id;
                assert(ids[i] != c.id);
            } else {
                lemma_unique_keys(s0, e, c);
            }
        }
        assert forall|e: ClipView| r1.contains(e) implies (s0.contains(e) || has_id(ids, e.id))
            && within(e, s0) by {
            if !s0.contains(e) {
                let i = choose|i: int| 0 <= i < ids1.len() && ids1[i] == e.id;
                assert(ids[i] == e.id);
            }
        }
        lemma_insert_sorted(r1, lp);
        lemma_insert_members(r1, lp);
        assert(within(lp, s0));
        assert(has_id(ids, lp.id));
        assert(lp.id != c.id);
        if outer_right(c, n) {
            let rp = right_piece(c, ids2[1], end_of(n) as u64);
            assert(ids2[1] == ids[ids.len() - k + 1]);
            lemma_insert_sorted(s1, rp);
            lemma_insert_members(s1, rp);
            assert(within(rp, s0));
            assert(has_id(ids, rp.id));
            assert(rp.id != c.id);
            assert(rp.id != lp.id);
        }
        lemma_remove_members(s2, key_of(c));
        assert forall|e: ClipView| r.contains(e) implies (s0.contains(e) || has_id(ids, e.id))
            && within(e, s0) by {
            assert(s2.contains(e));
            if outer_right(c, n) {
                assert(s1.contains(e) || e == right_piece(c, ids2[1], end_of(n) as u64));
            }
            assert(s1.contains(e) || e == right_piece(c, ids2[1], end_of(n) as u64));
        }
        if covers(s0, t) {
            let i = choose|i: int| 0 <= i < r1.len() && r1[i].start <= t && t < end_of(r1[i]);
            let e = r1[i];
            assert(r1.contains(e));
            if key_of(e) == key_of(c) {
                assert(e == c);
                if t < n.start {
                    if outer_right(c, n) {
                        let rp = right_piece(c, ids2[1], end_of(n) as u64);
                        lemma_insert_keeps(s1, rp, lp);
                    }
                    lemma_remove_keeps(s2, key_of(c), lp);
                    lemma_covers_by(r, lp, t);
                } else {
                    let rp = right_piece(c, ids2[1], end_of(n) as u64);
                    assert(outer_right(c, n));
                    lemma_remove_keeps(s2, key_of(c), rp);
                    lemma_covers_by(r, rp, t);
                }
            } else {
                if !s0.contains(e) {
                    let j = choose|j: int| 0 <= j < ids1.len() && ids1[j] == e.id;
                    assert(ids[j] == e.id);
                    assert(ids[j] != ids[ids.len() - k]);
                    if outer_right(c, n) {
                        assert(ids[j] != ids[ids.len() - k + 1]);
                    }
                } else {
                    assert(ids[ids.len() - k] != e.id);
                    if outer_right(c, n) {
                        assert(ids[ids.len() - k + 1] != e.id);
                    }
                }
                lemma_insert_keeps(r1, lp, e);
                if outer_right(c, n) {
                    let rp = right_piece(c, ids2[1], end_of(n) as u64);
                    lemma_insert_keeps(s1, rp, e);
                }
                lemma_remove_keeps(s2, key_of(c), e);
                lemma_covers_by(r, e, t);
            }
        }
    }
}

/// Inserting a clip changes nothing outside its span: a tick before its
/// start or at or after its end is covered by some clip afterwards exactly
/// when it was before; the clips it overlapped are trimmed, split or
/// removed only where it covers them. This holds where the new identifiers
/// given to pieces differ from each other, from the new clip's and from
/// those already in the collection, and the new clip's identifier is not
/// yet in the collection.
pub proof fn lemma_insert_keeps_coverage(
    s: Seq<ClipView>,
    n: ClipView,
    inner: Seq<u128>,
    outer: Seq<u128>,
    t: int,
)
    requires
        sorted_clips(s),
        ends_fit(s),
        end_of(n) <= u64::MAX,
        ids_match(s, n, inner, outer),
        fresh_ids(inner + outer, s),
        forall|i: int| 0 <= i < (inner + outer).len() ==> #[trigger] (inner + outer)[i] != n.id,
        forall|c: ClipView| #[trigger] s.contains(c) ==> c.id != n.id,
        t < n.start || t >= end_of(n),
    ensures
        covers(insert_result(s, n, inner, outer), t) == covers(s, t),
{
    let ids = inner + outer;
    let items = inner_items(s, n);
    assert forall|j: int| 0 <= j < items.len() implies s.contains(#[trigger] items[j])
        && in_inner_range(items[j], n) by {
        assert(items.contains(items[j]));
        s.lemma_filter_contains_rev(|c: ClipView| in_inner_range(c, n), items[j]);
        s.lemma_filter_pred(|c: ClipView| in_inner_range(c, n), j);
    }
    assert forall|e: ClipView|
        #![trigger s.contains(e)]
        s.contains(e) && n.start <= e.start && overlaps(e, n) implies exists|j: int|
        0 <= j < items.len() && key_of(#[trigger] items[j]) == key_of(e) by {
        let i = choose|i: int| 0 <= i < s.len() && s[i] == e;
        s.lemma_filter_contains(|c: ClipView| in_inner_range(c, n), i);
        let j = choose|j: int| 0 <= j < items.len() && items[j] == e;
        assert(key_of(items[j]) == key_of(e));
    }
    assert(items.take(items.len() as int) =~= items);
    assert(forall|i: int| 0 <= i < inner.len() ==> inner[i] == ids[i]);
    assert(forall|i: int| 0 <= i < outer.len() ==> outer[i] == ids[inner.len() + i]);
    assert(fresh_ids(inner, s));
    lemma_trim(s, items, n, inner, items.len() as int);
    lemma_trim_cover(s, items, n, inner, items.len() as int, t);
    let s1 = trim_inner(s, items, n, inner);
    let outs = outer_items(s1, n);
    assert forall|j: int| 0 <= j < outs.len() implies in_outer_range(#[trigger] outs[j], n)
        && end_of(outs[j]) <= u64::MAX && s1.contains(outs[j]) by {
        assert(outs.contains(outs[j]));
        s1.lemma_filter_contains_rev(|c: ClipView| in_outer_range(c, n), outs[j]);
        s1.lemma_filter_pred(|c: ClipView| in_outer_range(c, n), j);
    }
    assert forall|e: ClipView|
        #![trigger s1.contains(e)]
        s1.contains(e) && key_of(e) != key_of(n) && overlaps(e, n) implies exists|j: int|
        0 <= j < outs.len() && key_of(#[trigger] outs[j]) == key_of(e) by {
        if n.start <= e.start {
            let j = choose|j: int|
                items.len() <= j < items.len() && key_of(#[trigger] items[j]) == key_of(e);
        }
        let i = choose|i: int| 0 <= i < s1.len() && s1[i] == e;
        s1.lemma_filter_contains(|c: ClipView| in_outer_range(c, n), i);
        let j = choose|j: int| 0 <= j < outs.len() && outs[j] == e;
        assert(key_of(outs[j]) == key_of(e));
    }
    assert(outs.take(outs.len() as int) =~= outs);
    assert forall|i: int, c: ClipView| 0 <= i < outer.len() && #[trigger] s1.contains(c) implies #[trigger] outer[i] != c.id by {
        if !s.contains(c) {
            let j = choose|j: int| 0 <= j < inner.len() && inner[j] == c.id;
            assert(ids[j] != ids[inner.len() + i]);
        } else {
            assert(ids[inner.len() + i] != c.id);
        }
    }
    assert forall|i: int, j: int| 0 <= i < outer.len() && 0 <= j < outer.len() && i != j implies #[trigger] outer[i] != #[trigger] outer[j] by {
        assert(ids[inner.len() + i] != ids[inner.len() + j]);
    }
    assert(fresh_ids(outer, s1));
    lemma_split(s1, outs, n, outer, outs.len() as int);
    lemma_split_cover(s1, outs, n, outer, outs.len() as int, t);
    let s2 = split_outer(s1, outs, n, outer);
    let r = seq_insert(s2, n);
    assert(r == insert_result(s, n, inner, outer));
    lemma_insert_members(s2, n);
    assert forall|e: ClipView| s2.contains(e) implies e.id != n.id && within(e, s) by {
        if s1.contains(e) {
            if !s.contains(e) {
                let j = choose|j: int| 0 <= j < inner.len() && inner[j] == e.id;
                assert(ids[j] == e.id);
            }
            let c = choose|c: ClipView| s.contains(c) && c.start <= e.start && end_of(e) <= end_of(c);
        } else {
            let j = choose|j: int| 0 <= j < outer.len() && outer[j] == e.id;
            assert(ids[inner.len() + j] == e.id);
            let c1 = choose|c: ClipView| s1.contains(c) && c.start <= e.start && end_of(e) <= end_of(c);
            let c = choose|c: ClipView| s.contains(c) && c.start <= c1.start && end_of(c1) <= end_of(c);
        }
    }
    if covers(s, t) {
        let i = choose|i: int| 0 <= i < s2.len() && s2[i].start <= t && t < end_of(s2[i]);
        let e = s2[i];
        assert(s2.contains(e));
        lemma_insert_keeps(s2, n, e);
        lemma_covers_by(r, e, t);
    }
    if covers(r, t) {
        let i = choose|i: int| 0 <= i < r.len() && r[i].start <= t && t < end_of(r[i]);
        let e = r[i];
        assert(r.contains(e));
        assert(e != n);
        assert(s2.contains(e));
        let c = choose|c: ClipView| s.contains(c) && c.start <= e.start && end_of(e) <= end_of(c);
        lemma_covers_by(s, c, t);
    }
}

/// The only clip of a sorted sequence that meets `pred` is `c`: filtering
/// by `pred` leaves `c` alone.
proof fn lemma_filter_single(s: Seq<ClipView>, c: ClipView, pred: spec_fn(ClipView) -> bool)
    requires
        sorted_clips(s),
        s.contains(c),
        pred(c),
        forall|e: ClipView| #[trigger] s.contains(e) && e != c ==> !pred(e),
    ensures
        s.filter(pred) == seq![c],
{
    let i = choose|i: int| 0 <= i < s.len() && s[i] == c;
    let a = s.take(i);
    let b = s.skip(i + 1);
    assert(s =~= a + seq![c] + b);
    assert forall|j: int| 0 <= j < a.len() implies !pred(#[trigger] a[j]) by {
        assert(a[j] == s[j]);
        assert(key_lt(key_of(s[j]), key_of(s[i])));
        assert(s.contains(s[j]));
    }
    assert forall|j: int| 0 <= j < b.len() implies !pred(#[trigger] b[j]) by {
        assert(b[j] == s[i + 1 + j]);
        assert(key_lt(key_of(s[i]), key_of(s[i + 1 + j])));
        assert(s.contains(s[i + 1 + j]));
    }
    a.lemma_all_neg_filter_empty(pred);
    b.lemma_all_neg_filter_empty(pred);
    Seq::filter_distributes_over_add(a + seq![c], b, pred);
    Seq::filter_distributes_over_add(a, seq![c], pred);
    let e = Seq::<ClipView>::empty();
    assert(seq![c] =~= e.push(c));
    e.lemma_filter_push(c, pred);
    e.lemma_filter_len(pred);
    assert(e.filter(pred) =~= e);
    assert(a.filter(pred) =~= e);
    assert(b.filter(pred) =~= e);
    assert(s.filter(pred) =~= seq![c]);
}

/// Inserting a clip into the middle of a clip that reaches past it on both
/// sides, where every other clip keeps clear of the new clip's span, splits
/// that clip in three: its part before the new clip and its part after it
/// stay, under the two new identifiers given to pieces, with the new clip
/// between them. The split clip is gone, every other clip stays, and the
/// collection holds nothing else. This holds where the new identifiers
/// differ from each other, from those already in the collection and from
/// the new clip's.
pub proof fn lemma_insert_splits_surrounding_clip(
    s: Seq<ClipView>,
    n: ClipView,
    inner: Seq<u128>,
    outer: Seq<u128>,
    c: ClipView,
)
    requires
        sorted_clips(s),
        ends_fit(s),
        end_of(n) <= u64::MAX,
        ids_match(s, n, inner, outer),
        s.contains(c),
        c.start < n.start,
        end_of(n) < end_of(c),
        forall|e: ClipView| #[trigger] s.contains(e) && e != c ==> far_from(e, n),
        fresh_ids(outer, s),
        forall|i: int| 0 <= i < outer.len() ==> #[trigger] outer[i] != n.id,
    ensures
        inner.len() == 0,
        outer.len() == 2,
        insert_result(s, n, inner, outer).contains(left_piece(c, outer[0], n.start)),
        insert_result(s, n, inner, outer).contains(n),
        insert_result(s, n, inner, outer).contains(right_piece(c, outer[1], end_of(n) as u64)),
        !insert_result(s, n, inner, outer).contains(c),
        exists|e: ClipView|
            #[trigger] insert_result(s, n, inner, outer).contains(e) && e.start == c.start
                && end_of(e) == n.start && e.name == c.name && e.events == c.events,
        exists|e: ClipView|
            #[trigger] insert_result(s, n, inner, outer).contains(e) && e.start == end_of(n)
                && end_of(e) == end_of(c) && e.name == c.name && e.events == c.events,
        forall|e: ClipView| #[trigger] s.contains(e) && e != c ==> insert_result(s, n, inner, outer).contains(e),
        forall|e: ClipView| #[trigger] insert_result(s, n, inner, outer).contains(e) ==> e == n
            || e == left_piece(c, outer[0], n.start)
            || e == right_piece(c, outer[1], end_of(n) as u64)
            || (s.contains(e) && e != c),
{
    let fi = |x: ClipView| in_inner_range(x, n);
    let fo = |x: ClipView| in_outer_range(x, n);
    let items = inner_items(s, n);
    assert(items.len() == 0) by {
        if items.len() > 0 {
            assert(items.contains(items[0]));
            s.lemma_filter_contains_rev(fi, items[0]);
            s.lemma_filter_pred(fi, 0);
            assert(items[0] != c);
        }
    }
    assert(inner_need(items, n) == 0);
    assert(trim_inner(s, items, n, inner) == s);
    lemma_filter_single(s, c, fo);
    let outs = outer_items(s, n);
    assert(outs == seq![c]);
    assert(outs.drop_last() =~= Seq::<ClipView>::empty());
    assert(outs.last() == c);
    assert(outer_ids(c, n) == 2);
    assert(outer_need(outs.drop_last(), n) == 0);
    assert(outer.len() == 2);
    assert(outer.subrange(0, 2) =~= outer);
    assert(split_outer(s, outs.drop_last(), n, outer.subrange(0, 0)) == s);
    let left = left_piece(c, outer[0], n.start);
    let right = right_piece(c, outer[1], end_of(n) as u64);
    let sa = seq_insert(s, left);
    let sb = seq_insert(sa, right);
    let s2 = seq_remove(sb, key_of(c));
    assert(split_outer(s, outs, n, outer) == split_outer_one(s, c, n, outer));
    assert(split_outer_one(s, c, n, outer) == s2);
    let r = seq_insert(s2, n);
    assert(r == insert_result(s, n, inner, outer));
    assert(outer[0] != c.id);
    lemma_insert_sorted(s, left);
    lemma_insert_members(s, left);
    lemma_insert_sorted(sa, right);
    lemma_insert_members(sa, right);
    lemma_insert_keeps(sa, right, left);
    lemma_remove_sorted(sb, key_of(c));
    lemma_remove_members(sb, key_of(c));
    lemma_remove_keeps(sb, key_of(c), left);
    lemma_remove_keeps(sb, key_of(c), right);
    lemma_insert_members(s2, n);
    lemma_insert_keeps(s2, n, left);
    lemma_insert_keeps(s2, n, right);
    assert forall|e: ClipView| #[trigger] s.contains(e) && e != c implies r.contains(e) by {
        assert forall|i: int| 0 <= i < inner.len() implies #[trigger] inner[i] != e.id by {}
        assert forall|i: int| 0 <= i < outer.len() implies #[trigger] outer[i] != e.id by {}
        lemma_insert_keeps_far_clips(s, n, inner, outer, e);
    }
    assert forall|e: ClipView| #[trigger] r.contains(e) implies e == n || e == left || e == right
        || (s.contains(e) && e != c) by {
        if e != n {
            assert(s2.contains(e));
            assert(sb.contains(e) && key_of(e) != key_of(c));
        }
    }
}

/// Clips `a` and `b` share no tick: one of them is empty, or one ends at or
/// before the other starts.
pub open spec fn apart(a: ClipView, b: ClipView) -> bool {
    a.duration == 0 || b.duration == 0 || end_of(a) <= b.start || end_of(b) <= a.start
}

/// No two clips of the sequence share a tick.
pub open spec fn disjoint(s: Seq<ClipView>) -> bool {
    forall|a: ClipView, b: ClipView|
        #[trigger] s.contains(a) && #[trigger] s.contains(b) && a != b ==> apart(a, b)
}

/// The ticks of `e` lie within those of `c`.
pub open spec fn lies_in(e: ClipView, c: ClipView) -> bool {
    c.start <= e.start && end_of(e) <= end_of(c)
}

/// A clip that lies within `a` keeps clear of whatever `a` keeps clear of.
proof fn lemma_apart_within(a: ClipView, b: ClipView, e: ClipView)
    requires
        apart(a, b),
        lies_in(e, a),
    ensures
        apart(e, b),
        apart(b, e),
{
}

/// Filtering a sequence in strictly increasing key order keeps that order.
proof fn lemma_filter_sorted(s: Seq<ClipView>, pred: spec_fn(ClipView) -> bool)
    requires
        sorted_clips(s),
    ensures
        sorted_clips(s.filter(pred)),
    decreases s.len(),
{
    if s.len() > 0 {
        let t = s.drop_last();
        let x = s.last();
        assert(sorted_clips(t)) by {
            assert forall|i: int, j: int| 0 <= i < j < t.len() implies key_lt(
                key_of(t[i]),
                key_of(t[j]),
            ) by {
                assert(t[i] == s[i] && t[j] == s[j]);
            }
        }
        lemma_filter_sorted(t, pred);
        assert(s =~= t.push(x));
        t.lemma_filter_push(x, pred);
        if pred(x) {
            let f = t.filter(pred);
            assert forall|i: int| 0 <= i < f.len() implies key_lt(key_of(#[trigger] f[i]), key_of(x)) by {
                assert(f.contains(f[i]));
                t.lemma_filter_contains_rev(pred, f[i]);
                let k = choose|k: int| 0 <= k < t.len() && t[k] == f[i];
                assert(t[k] == s[k]);
                assert(key_lt(key_of(s[k]), key_of(s[s.len() - 1])));
            }
            let g = f.push(x);
            assert forall|i: int, j: int| 0 <= i < j < g.len() implies key_lt(
                key_of(g[i]),
                key_of(g[j]),
            ) by {
                assert(g[i] == f[i]);
                if j < f.len() {
                    assert(g[j] == f[j]);
                }
            }
        }
    }
}

/// Trimming the first `m` inner clips of a collection whose clips share no
/// tick leaves clips that share no tick, each of them a clip that was there
/// before or a part of one of the trimmed clips.
#[verifier::spinoff_prover]
#[verifier::rlimit(50)]
proof fn lemma_trim_apart(s0: Seq<ClipView>, items: Seq<ClipView>, n: ClipView, ids: Seq<u128>, m: int)
    requires
        sorted_clips(s0),
        ends_fit(s0),
        end_of(n) <= u64::MAX,
        disjoint(s0),
        sorted_clips(items),
        0 <= m <= items.len(),
        forall|j: int|
            0 <= j < items.len() ==> s0.contains(#[trigger] items[j]) && in_inner_range(
                items[j],
                n,
            ),
        forall|e: ClipView|
            #![trigger s0.contains(e)]
            s0.contains(e) && n.start <= e.start && overlaps(e, n) ==> exists|j: int|
                0 <= j < items.len() && key_of(#[trigger] items[j]) == key_of(e),
    ensures
        disjoint(trim_inner(s0, items.take(m), n, ids)),
        forall|e: ClipView| #[trigger]
            trim_inner(s0, items.take(m), n, ids).contains(e) ==> s0.contains(e) || exists|j: int|
                0 <= j < m && lies_in(e, #[trigger] items[j]),
    decreases m,
{
    if m == 0 {
        assert(items.take(0) =~= Seq::<ClipView>::empty());
    } else {
        let t = items.take(m);
        assert(t.drop_last() =~= items.take(m - 1));
        assert(t.last() == items[m - 1]);
        let c = items[m - 1];
        let k = inner_ids(c, n);
        let ids1 = ids.subrange(0, ids.len() - k);
        let ids2 = ids.subrange(ids.len() - k, ids.len() as int);
        lemma_trim(s0, items, n, ids1, m - 1);
        lemma_trim_apart(s0, items, n, ids1, m - 1);
        let r1 = trim_inner(s0, items.take(m - 1), n, ids1);
        let r = trim_inner(s0, t, n, ids);
        assert(r == trim_inner_one(r1, c, n, ids2));
        assert(s0.contains(c));
        assert forall|b: ClipView| r1.contains(b) && key_of(b) != key_of(c) implies apart(c, b) by {
            if !s0.contains(b) {
                let j = choose|j: int| 0 <= j < m - 1 && lies_in(b, #[trigger] items[j]);
                assert(key_lt(key_of(items[j]), key_of(items[m - 1])));
                assert(s0.contains(items[j]));
                lemma_apart_within(items[j], c, b);
            }
        }
        lemma_remove_sorted(r1, key_of(c));
        lemma_remove_members(r1, key_of(c));
        let r2 = seq_remove(r1, key_of(c));
        assert forall|e: ClipView| #[trigger] r2.contains(e) implies s0.contains(e) || exists|j: int|
            0 <= j < m && lies_in(e, #[trigger] items[j]) by {
            if !s0.contains(e) {
                let j = choose|j: int| 0 <= j < m - 1 && lies_in(e, #[trigger] items[j]);
                assert(lies_in(e, items[j]));
            }
        }
        if inner_drop(c, n) {
            assert(r == r2);
        } else if inner_cut(c, n) {
            let piece = right_piece(c, ids2[0], end_of(n) as u64);
            assert(end_of(c) <= u64::MAX);
            assert(lies_in(piece, c));
            lemma_insert_members(r2, piece);
            assert(r == seq_insert(r2, piece));
            assert forall|a: ClipView, b: ClipView|
                #[trigger] r.contains(a) && #[trigger] r.contains(b) && a != b implies apart(a, b) by {
                if a == piece {
                    lemma_apart_within(c, b, piece);
                } else if b == piece {
                    lemma_apart_within(c, a, piece);
                } else {
                    assert(r1.contains(a) && r1.contains(b));
                }
            }
            assert forall|e: ClipView| #[trigger] r.contains(e) implies s0.contains(e) || exists|j: int|
                0 <= j < m && lies_in(e, #[trigger] items[j]) by {
                if e == piece {
                    assert(lies_in(e, items[m - 1]));
                } else {
                    assert(r2.contains(e));
                }
            }
        } else {
            assert(r == r1);
            assert forall|e: ClipView| #[trigger] r.contains(e) implies s0.contains(e) || exists|j: int|
                0 <= j < m && lies_in(e, #[trigger] items[j]) by {
                if !s0.contains(e) {
                    let j = choose|j: int| 0 <= j < m - 1 && lies_in(e, #[trigger] items[j]);
                    assert(lies_in(e, items[j]));
                }
            }
        }
    }
}

/// Splitting the first `m` outer clips of a collection whose clips share no
/// tick leaves clips that share no tick, each of them a clip that was there
/// before or a part of one of the split clips.
#[verifier::spinoff_prover]
#[verifier::rlimit(50)]
proof fn lemma_split_apart(s0: Seq<ClipView>, items: Seq<ClipView>, n: ClipView, ids: Seq<u128>, m: int)
    requires
        sorted_clips(s0),
        ends_fit(s0),
        end_of(n) <= u64::MAX,
        disjoint(s0),
        sorted_clips(items),
        0 <= m <= items.len(),
        forall|j: int|
            0 <= j < items.len() ==> in_outer_range(#[trigger] items[j], n) && end_of(items[j])
                <= u64::MAX && s0.contains(items[j]),
        forall|e: ClipView|
            #![trigger s0.contains(e)]
            s0.contains(e) && key_of(e) != key_of(n) && overlaps(e, n) ==> exists|j: int|
                0 <= j < items.len() && key_of(#[trigger] items[j]) == key_of(e),
    ensures
        disjoint(split_outer(s0, items.take(m), n, ids)),
        forall|e: ClipView| #[trigger]
            split_outer(s0, items.take(m), n, ids).contains(e) ==> s0.contains(e) || exists|j: int|
                0 <= j < m && lies_in(e, #[trigger] items[j]),
    decreases m,
{
    if m == 0 {
        assert(items.take(0) =~= Seq::<ClipView>::empty());
    } else {
        let t = items.take(m);
        assert(t.drop_last() =~= items.take(m - 1));
        assert(t.last() == items[m - 1]);
        let c = items[m - 1];
        let k = outer_ids(c, n);
        let ids1 = ids.subrange(0, ids.len() - k);
        let ids2 = ids.subrange(ids.len() - k, ids.len() as int);
        lemma_split(s0, items, n, ids1, m - 1);
        lemma_split_apart(s0, items, n, ids1, m - 1);
        let r1 = split_outer(s0, items.take(m - 1), n, ids1);
        let r = split_outer(s0, t, n, ids);
        assert(r == split_outer_one(r1, c, n, ids2));
        assert(s0.contains(c));
        assert forall|b: ClipView| r1.contains(b) && key_of(b) != key_of(c) implies apart(c, b) by {
            if !s0.contains(b) {
                let j = choose|j: int| 0 <= j < m - 1 && lies_in(b, #[trigger] items[j]);
                assert(key_lt(key_of(items[j]), key_of(items[m - 1])));
                assert(s0.contains(items[j]));
                lemma_apart_within(items[j], c, b);
            }
        }
        let lp = left_piece(c, ids2[0], n.start);
        let j0 = if outer_left(c, n) {
            1int
        } else {
            0int
        };
        let rp = right_piece(c, ids2[j0], end_of(n) as u64);
        let s1 = if outer_left(c, n) {
            seq_insert(r1, lp)
        } else {
            r1
        };
        let s2 = if outer_right(c, n) {
            seq_insert(s1, rp)
        } else {
            s1
        };
        if outer_left(c, n) {
            lemma_insert_sorted(r1, lp);
            lemma_insert_members(r1, lp);
            assert(lies_in(lp, c));
        }
        if outer_right(c, n) {
            lemma_insert_sorted(s1, rp);
            lemma_insert_members(s1, rp);
            assert(lies_in(rp, c));
        }
        lemma_remove_members(s2, key_of(c));
        assert(r == seq_remove(s2, key_of(c)));
        assert forall|e: ClipView| #[trigger] r.contains(e) implies (r1.contains(e) && key_of(e)
            != key_of(c)) || (outer_left(c, n) && e == lp) || (outer_right(c, n) && e == rp) by {
            assert(s2.contains(e));
        }
        assert forall|a: ClipView, b: ClipView|
            #[trigger] r.contains(a) && #[trigger] r.contains(b) && a != b implies apart(a, b) by {
            if (outer_left(c, n) && a == lp) || (outer_right(c, n) && a == rp) {
                if (outer_left(c, n) && b == lp) || (outer_right(c, n) && b == rp) {
                } else {
                    lemma_apart_within(c, b, a);
                }
            } else if (outer_left(c, n) && b == lp) || (outer_right(c, n) && b == rp) {
                lemma_apart_within(c, a, b);
            } else {
                assert(r1.contains(a) && r1.contains(b));
            }
        }
        assert forall|e: ClipView| #[trigger] r.contains(e) implies s0.contains(e) || exists|j: int|
            0 <= j < m && lies_in(e, #[trigger] items[j]) by {
            if (outer_left(c, n) && e == lp) || (outer_right(c, n) && e == rp) {
                assert(lies_in(e, items[m - 1]));
            } else if !s0.contains(e) {
                assert(r1.contains(e));
                let j = choose|j: int| 0 <= j < m - 1 && lies_in(e, #[trigger] items[j]);
                assert(lies_in(e, items[j]));
            }
        }
    }
}

/// Inserting a clip into a collection whose clips share no tick leaves a
/// collection whose clips share no tick: the clips it overlapped are
/// trimmed, split or removed so that none of what is left of them meets the
/// new clip or each other.
pub proof fn lemma_insert_keeps_disjoint(
    s: Seq<ClipView>,
    n: ClipView,
    inner: Seq<u128>,
    outer: Seq<u128>,
)
    requires
        sorted_clips(s),
        ends_fit(s),
        end_of(n) <= u64::MAX,
        disjoint(s),
    ensures
        disjoint(insert_result(s, n, inner, outer)),
{
    let items = inner_items(s, n);
    assert forall|j: int| 0 <= j < items.len() implies s.contains(#[trigger] items[j])
        && in_inner_range(items[j], n) by {
        assert(items.contains(items[j]));
        s.lemma_filter_contains_rev(|c: ClipView| in_inner_range(c, n), items[j]);
        s.lemma_filter_pred(|c: ClipView| in_inner_range(c, n), j);
    }
    assert forall|e: ClipView|
        #![trigger s.contains(e)]
        s.contains(e) && n.start <= e.start && overlaps(e, n) implies exists|j: int|
        0 <= j < items.len() && key_of(#[trigger] items[j]) == key_of(e) by {
        let i = choose|i: int| 0 <= i < s.len() && s[i] == e;
        s.lemma_filter_contains(|c: ClipView| in_inner_range(c, n), i);
        let j = choose|j: int| 0 <= j < items.len() && items[j] == e;
        assert(key_of(items[j]) == key_of(e));
    }
    assert(items.take(items.len() as int) =~= items);
    lemma_filter_sorted(s, |c: ClipView| in_inner_range(c, n));
    lemma_trim(s, items, n, inner, items.len() as int);
    lemma_trim_apart(s, items, n, inner, items.len() as int);
    let s1 = trim_inner(s, items, n, inner);
    let outs = outer_items(s1, n);
    assert forall|j: int| 0 <= j < outs.len() implies in_outer_range(#[trigger] outs[j], n)
        && end_of(outs[j]) <= u64::MAX && s1.contains(outs[j]) by {
        assert(outs.contains(outs[j]));
        s1.lemma_filter_contains_rev(|c: ClipView| in_outer_range(c, n), outs[j]);
        s1.lemma_filter_pred(|c: ClipView| in_outer_range(c, n), j);
    }
    assert forall|e: ClipView|
        #![trigger s1.contains(e)]
        s1.contains(e) && key_of(e) != key_of(n) && overlaps(e, n) implies exists|j: int|
        0 <= j < outs.len() && key_of(#[trigger] outs[j]) == key_of(e) by {
        if n.start <= e.start {
            let j = choose|j: int|
                items.len() <= j < items.len() && key_of(#[trigger] items[j]) == key_of(e);
        }
        let i = choose|i: int| 0 <= i < s1.len() && s1[i] == e;
        s1.lemma_filter_contains(|c: ClipView| in_outer_range(c, n), i);
        let j = choose|j: int| 0 <= j < outs.len() && outs[j] == e;
        assert(key_of(outs[j]) == key_of(e));
    }
    assert(outs.take(outs.len() as int) =~= outs);
    lemma_filter_sorted(s1, |c: ClipView| in_outer_range(c, n));
    lemma_split(s1, outs, n, outer, outs.len() as int);
    lemma_split_apart(s1, outs, n, outer, outs.len() as int);
    let s2 = split_outer(s1, outs, n, outer);
    let r = seq_insert(s2, n);
    assert(r == insert_result(s, n, inner, outer));
    lemma_insert_sorted(s2, n);
    lemma_insert_members(s2, n);
    lemma_insert_clears_span(s, n, inner, outer);
    assert forall|a: ClipView, b: ClipView|
        #[trigger] r.contains(a) && #[trigger] r.contains(b) && a != b implies apart(a, b) by {
        if a == n || b == n {
            let o = if a == n { b } else { a };
            if key_of(o) == key_of(n) {
                lemma_unique_keys(r, o, n);
            }
            let i = choose|i: int| 0 <= i < r.len() && r[i] == o;
            assert(!overlaps(r[i], n));
        } else {
            assert(s2.contains(a) && s2.contains(b));
        }
    }
}

/// Inserting a clip whose identifier no clip of the collection has yet
/// leaves it the only clip with that identifier, where the new identifiers
/// given to pieces differ from each other, from those already in the
/// collection and from the new clip's.
pub proof fn lemma_insert_only_clip_with_id(
    s: Seq<ClipView>,
    n: ClipView,
    inner: Seq<u128>,
    outer: Seq<u128>,
)
    requires
        sorted_clips(s),
        ends_fit(s),
        end_of(n) <= u64::MAX,
        ids_match(s, n, inner, outer),
        fresh_ids(inner + outer, s),
        forall|i: int| 0 <= i < (inner + outer).len() ==> #[trigger] (inner + outer)[i] != n.id,
        forall|c: ClipView| #[trigger] s.contains(c) ==> c.id != n.id,
    ensures
        insert_result(s, n, inner, outer).contains(n),
        forall|e: ClipView| #[trigger]
            insert_result(s, n, inner, outer).contains(e) && e.id == n.id ==> e == n,
{
    let ids = inner + outer;
    let t = end_of(n);
    let items = inner_items(s, n);
    assert forall|j: int| 0 <= j < items.len() implies s.contains(#[trigger] items[j])
        && in_inner_range(items[j], n) by {
        assert(items.contains(items[j]));
        s.lemma_filter_contains_rev(|c: ClipView| in_inner_range(c, n), items[j]);
        s.lemma_filter_pred(|c: ClipView| in_inner_range(c, n), j);
    }
    assert forall|e: ClipView|
        #![trigger s.contains(e)]
        s.contains(e) && n.start <= e.start && overlaps(e, n) implies exists|j: int|
        0 <= j < items.len() && key_of(#[trigger] items[j]) == key_of(e) by {
        let i = choose|i: int| 0 <= i < s.len() && s[i] == e;
        s.lemma_filter_contains(|c: ClipView| in_inner_range(c, n), i);
        let j = choose|j: int| 0 <= j < items.len() && items[j] == e;
        assert(key_of(items[j]) == key_of(e));
    }
    assert(items.take(items.len() as int) =~= items);
    assert(forall|i: int| 0 <= i < inner.len() ==> inner[i] == ids[i]);
    assert(forall|i: int| 0 <= i < outer.len() ==> outer[i] == ids[inner.len() + i]);
    assert(fresh_ids(inner, s));
    lemma_trim(s, items, n, inner, items.len() as int);
    lemma_trim_cover(s, items, n, inner, items.len() as int, t);
    let s1 = trim_inner(s, items, n, inner);
    let outs = outer_items(s1, n);
    assert forall|j: int| 0 <= j < outs.len() implies in_outer_range(#[trigger] outs[j], n)
        && end_of(outs[j]) <= u64::MAX && s1.contains(outs[j]) by {
        assert(outs.contains(outs[j]));
        s1.lemma_filter_contains_rev(|c: ClipView| in_outer_range(c, n), outs[j]);
        s1.lemma_filter_pred(|c: ClipView| in_outer_range(c, n), j);
    }
    assert forall|e: ClipView|
        #![trigger s1.contains(e)]
        s1.contains(e) && key_of(e) != key_of(n) && overlaps(e, n) implies exists|j: int|
        0 <= j < outs.len() && key_of(#[trigger] outs[j]) == key_of(e) by {
        if n.start <= e.start {
            let j = choose|j: int|
                items.len() <= j < items.len() && key_of(#[trigger] items[j]) == key_of(e);
        }
        let i = choose|i: int| 0 <= i < s1.len() && s1[i] == e;
        s1.lemma_filter_contains(|c: ClipView| in_outer_range(c, n), i);
        let j = choose|j: int| 0 <= j < outs.len() && outs[j] == e;
        assert(key_of(outs[j]) == key_of(e));
    }
    assert(outs.take(outs.len() as int) =~= outs);
    assert forall|i: int, c: ClipView| 0 <= i < outer.len() && #[trigger] s1.contains(c) implies #[trigger] outer[i] != c.id by {
        if !s.contains(c) {
            let j = choose|j: int| 0 <= j < inner.len() && inner[j] == c.id;
            assert(ids[j] != ids[inner.len() + i]);
        } else {
            assert(ids[inner.len() + i] != c.id);
        }
    }
    assert forall|i: int, j: int| 0 <= i < outer.len() && 0 <= j < outer.len() && i != j implies #[trigger] outer[i] != #[trigger] outer[j] by {
        assert(ids[inner.len() + i] != ids[inner.len() + j]);
    }
    assert(fresh_ids(outer, s1));
    lemma_split(s1, outs, n, outer, outs.len() as int);
    lemma_split_cover(s1, outs, n, outer, outs.len() as int, t);
    let s2 = split_outer(s1, outs, n, outer);
    let r = seq_insert(s2, n);
    assert(r == insert_result(s, n, inner, outer));
    lemma_insert_members(s2, n);
    assert forall|e: ClipView| #[trigger] r.contains(e) && e.id == n.id implies e == n by {
        if e != n {
            assert(s2.contains(e));
            if s1.contains(e) {
                if !s.contains(e) {
                    let j = choose|j: int| 0 <= j < inner.len() && inner[j] == e.id;
                    assert(ids[j] == e.id);
                }
            } else {
                let j = choose|j: int| 0 <= j < outer.len() && outer[j] == e.id;
                assert(ids[inner.len() + j] == e.id);
            }
        }
    }
}

/// Clip `e` is a piece of clip `c`: its ticks lie within `c`'s, and it
/// carries `c`'s name and events.
pub open spec fn piece_of(e: ClipView, c: ClipView) -> bool {
    lies_in(e, c) && e.name == c.name && e.events == c.events
}

/// Trimming the first `m` inner clips leaves clips that were there before
/// or pieces of them.
#[verifier::spinoff_prover]
#[verifier::rlimit(50)]
proof fn lemma_trim_pieces(s0: Seq<ClipView>, items: Seq<ClipView>, n: ClipView, ids: Seq<u128>, m: int)
    requires
        sorted_clips(s0),
        ends_fit(s0),
        end_of(n) <= u64::MAX,
        0 <= m <= items.len(),
        forall|j: int|
            0 <= j < items.len() ==> s0.contains(#[trigger] items[j]) && in_inner_range(
                items[j],
                n,
            ),
        forall|e: ClipView|
            #![trigger s0.contains(e)]
            s0.contains(e) && n.start <= e.start && overlaps(e, n) ==> exists|j: int|
                0 <= j < items.len() && key_of(#[trigger] items[j]) == key_of(e),
    ensures
        forall|e: ClipView| #[trigger]
            trim_inner(s0, items.take(m), n, ids).contains(e) ==> s0.contains(e) || exists|
                c: ClipView,
            | s0.contains(c) && #[trigger] piece_of(e, c),
    decreases m,
{
    if m == 0 {
        assert(items.take(0) =~= Seq::<ClipView>::empty());
    } else {
        let t = items.take(m);
        assert(t.drop_last() =~= items.take(m - 1));
        assert(t.last() == items[m - 1]);
        let c = items[m - 1];
        let k = inner_ids(c, n);
        let ids1 = ids.subrange(0, ids.len() - k);
        let ids2 = ids.subrange(ids.len() - k, ids.len() as int);
        lemma_trim(s0, items, n, ids1, m - 1);
        lemma_trim_pieces(s0, items, n, ids1, m - 1);
        let r1 = trim_inner(s0, items.take(m - 1), n, ids1);
        let r = trim_inner(s0, t, n, ids);
        assert(r == trim_inner_one(r1, c, n, ids2));
        assert(s0.contains(c));
        lemma_remove_sorted(r1, key_of(c));
        lemma_remove_members(r1, key_of(c));
        let r2 = seq_remove(r1, key_of(c));
        if inner_cut(c, n) && !inner_drop(c, n) {
            let piece = right_piece(c, ids2[0], end_of(n) as u64);
            assert(end_of(c) <= u64::MAX);
            assert(piece_of(piece, c));
            lemma_insert_members(r2, piece);
        }
    }
}

/// Splitting the first `m` outer clips leaves clips that were there before
/// or pieces of them.
#[verifier::spinoff_prover]
#[verifier::rlimit(50)]
proof fn lemma_split_pieces(s0: Seq<ClipView>, items: Seq<ClipView>, n: ClipView, ids: Seq<u128>, m: int)
    requires
        sorted_clips(s0),
        ends_fit(s0),
        end_of(n) <= u64::MAX,
        0 <= m <= items.len(),
        forall|j: int|
            0 <= j < items.len() ==> in_outer_range(#[trigger] items[j], n) && end_of(items[j])
                <= u64::MAX && s0.contains(items[j]),
        forall|e: ClipView|
            #![trigger s0.contains(e)]
            s0.contains(e) && key_of(e) != key_of(n) && overlaps(e, n) ==> exists|j: int|
                0 <= j < items.len() && key_of(#[trigger] items[j]) == key_of(e),
    ensures
        forall|e: ClipView| #[trigger]
            split_outer(s0, items.take(m), n, ids).contains(e) ==> s0.contains(e) || exists|
                c: ClipView,
            | s0.contains(c) && #[trigger] piece_of(e, c),
    decreases m,
{
    if m == 0 {
        assert(items.take(0) =~= Seq::<ClipView>::empty());
    } else {
        let t = items.take(m);
        assert(t.drop_last() =~= items.take(m - 1));
        assert(t.last() == items[m - 1]);
        let c = items[m - 1];
        let k = outer_ids(c, n);
        let ids1 = ids.subrange(0, ids.len() - k);
        let ids2 = ids.subrange(ids.len() - k, ids.len() as int);
        lemma_split(s0, items, n, ids1, m - 1);
        lemma_split_pieces(s0, items, n, ids1, m - 1);
        let r1 = split_outer(s0, items.take(m - 1), n, ids1);
        let r = split_outer(s0, t, n, ids);
        assert(r == split_outer_one(r1, c, n, ids2));
        assert(s0.contains(c));
        let lp = left_piece(c, ids2[0], n.start);
        let j0 = if outer_left(c, n) {
            1int
        } else {
            0int
        };
        let rp = right_piece(c, ids2[j0], end_of(n) as u64);
        let s1 = if outer_left(c, n) {
            seq_insert(r1, lp)
        } else {
            r1
        };
        let s2 = if outer_right(c, n) {
            seq_insert(s1, rp)
        } else {
            s1
        };
        if outer_left(c, n) {
            lemma_insert_sorted(r1, lp);
            lemma_insert_members(r1, lp);
            assert(piece_of(lp, c));
        }
        if outer_right(c, n) {
            lemma_insert_sorted(s1, rp);
            lemma_insert_members(s1, rp);
            assert(piece_of(rp, c));
        }
        lemma_remove_members(s2, key_of(c));
        assert(r == seq_remove(s2, key_of(c)));
        assert forall|e: ClipView| #[trigger] r.contains(e) implies s0.contains(e) || exists|
            c0: ClipView,
        | s0.contains(c0) && #[trigger] piece_of(e, c0) by {
            assert(s2.contains(e));
            if (outer_left(c, n) && e == lp) || (outer_right(c, n) && e == rp) {
                assert(piece_of(e, c));
            } else {
                assert(r1.contains(e));
            }
        }
    }
}

/// Inserting a clip keeps what the clips it overlaps hold: every clip of the
/// collection afterwards is the new clip, a clip that was there before, or
/// a piece cut from one that was (lying within it, with its name and its
/// events).
pub proof fn lemma_insert_pieces_keep_contents(
    s: Seq<ClipView>,
    n: ClipView,
    inner: Seq<u128>,
    outer: Seq<u128>,
)
    requires
        sorted_clips(s),
        ends_fit(s),
        end_of(n) <= u64::MAX,
    ensures
        forall|e: ClipView| #[trigger]
            insert_result(s, n, inner, outer).contains(e) ==> e == n || s.contains(e) || exists|
                c: ClipView,
            | s.contains(c) && #[trigger] piece_of(e, c),
{
    let items = inner_items(s, n);
    assert forall|j: int| 0 <= j < items.len() implies s.contains(#[trigger] items[j])
        && in_inner_range(items[j], n) by {
        assert(items.contains(items[j]));
        s.lemma_filter_contains_rev(|c: ClipView| in_inner_range(c, n), items[j]);
        s.lemma_filter_pred(|c: ClipView| in_inner_range(c, n), j);
    }
    assert forall|e: ClipView|
        #![trigger s.contains(e)]
        s.contains(e) && n.start <= e.start && overlaps(e, n) implies exists|j: int|
        0 <= j < items.len() && key_of(#[trigger] items[j]) == key_of(e) by {
        let i = choose|i: int| 0 <= i < s.len() && s[i] == e;
        s.lemma_filter_contains(|c: ClipView| in_inner_range(c, n), i);
        let j = choose|j: int| 0 <= j < items.len() && items[j] == e;
        assert(key_of(items[j]) == key_of(e));
    }
    assert(items.take(items.len() as int) =~= items);
    lemma_trim(s, items, n, inner, items.len() as int);
    lemma_trim_pieces(s, items, n, inner, items.len() as int);
    let s1 = trim_inner(s, items, n, inner);
    let outs = outer_items(s1, n);
    assert forall|j: int| 0 <= j < outs.len() implies in_outer_range(#[trigger] outs[j], n)
        && end_of(outs[j]) <= u64::MAX && s1.contains(outs[j]) by {
        assert(outs.contains(outs[j]));
        s1.lemma_filter_contains_rev(|c: ClipView| in_outer_range(c, n), outs[j]);
        s1.lemma_filter_pred(|c: ClipView| in_outer_range(c, n), j);
    }
    assert forall|e: ClipView|
        #![trigger s1.contains(e)]
        s1.contains(e) && key_of(e) != key_of(n) && overlaps(e, n) implies exists|j: int|
        0 <= j < outs.len() && key_of(#[trigger] outs[j]) == key_of(e) by {
        if n.start <= e.start {
            let j = choose|j: int|
                items.len() <= j < items.len() && key_of(#[trigger] items[j]) == key_of(e);
        }
        let i = choose|i: int| 0 <= i < s1.len() && s1[i] == e;
        s1.lemma_filter_contains(|c: ClipView| in_outer_range(c, n), i);
        let j = choose|j: int| 0 <= j < outs.len() && outs[j] == e;
        assert(key_of(outs[j]) == key_of(e));
    }
    assert(outs.take(outs.len() as int) =~= outs);
    lemma_split(s1, outs, n, outer, outs.len() as int);
    lemma_split_pieces(s1, outs, n, outer, outs.len() as int);
    let s2 = split_outer(s1, outs, n, outer);
    let r = seq_insert(s2, n);
    assert(r == insert_result(s, n, inner, outer));
    lemma_insert_members(s2, n);
    assert forall|e: ClipView| #[trigger] r.contains(e) implies e == n || s.contains(e) || exists|
        c: ClipView,
    | s.contains(c) && #[trigger] piece_of(e, c) by {
        if e != n {
            assert(s2.contains(e));
            if !s1.contains(e) {
                let c1 = choose|c1: ClipView| s1.contains(c1) && #[trigger] piece_of(e, c1);
                if !s.contains(c1) {
                    let c = choose|c: ClipView| s.contains(c) && #[trigger] piece_of(c1, c);
                    assert(piece_of(e, c));
                }
            }
        }
    }
}

} // verus!
