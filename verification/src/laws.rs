//! Laws of the flattening engine, stated over its mathematical model and
//! proved once and for all: coverage of the text span, absence of empty
//! segments, distinctness of consecutive segment tags on every input,
//! independence of the input record order, and — for proper interval forests
//! with unique groups and pairwise distinct boundary coordinates — that
//! flattening always completes, tags every covered offset with the innermost
//! covering record, leaves uncovered offsets untagged, and aligns segment
//! boundaries with record boundaries, reconstructing each record's range.

use vstd::prelude::*;

verus! {

use crate::caps::{
    CaptureInfo, EndPoint, InputCaptureInfo, ep_le, ep_leq, events_of, events_of_one,
    flatten_spec, lemma_ep_le_total_ordering, stack_top, sweep,
};

/// Every record's range is well-formed and lies within the text span.
pub open spec fn records_bounded(records: Seq<InputCaptureInfo>, text_len: usize) -> bool {
    forall|i: int|
        0 <= i < records.len() ==> (#[trigger] records[i]).range.0 <= records[i].range.1
            && records[i].range.1 <= text_len
}

/// Occurrences are ordered left to right and do not overlap: every range of
/// an earlier occurrence ends at or before every range of a later one starts.
pub open spec fn records_separated(records: Seq<InputCaptureInfo>) -> bool {
    forall|i: int, j: int|
        0 <= i < records.len() && 0 <= j < records.len() && (#[trigger] records[i]).mgroup < (
        #[trigger] records[j]).mgroup ==> records[i].range.1 <= records[j].range.0
}

/// Event positions never decrease along the sequence.
pub open spec fn positions_nondecreasing(events: Seq<EndPoint>) -> bool {
    forall|i: int, j: int|
        0 <= i < j < events.len() ==> (#[trigger] events[i]).pos <= (#[trigger] events[j]).pos
}

/// Every event position lies in `[lo, hi]`.
pub open spec fn positions_bounded(events: Seq<EndPoint>, lo: usize, hi: usize) -> bool {
    forall|i: int|
        0 <= i < events.len() ==> lo <= (#[trigger] events[i]).pos && events[i].pos <= hi
}

/// The accumulated segment, if any, starts strictly before the current
/// boundary: it is never empty.
pub open spec fn pending_wf(pending: Option<(usize, Option<usize>)>, pos: usize) -> bool {
    match pending {
        None => true,
        Some((start, tag)) => start < pos,
    }
}

/// Where the output of a sweep state begins: at the accumulated segment's
/// start, or at the current boundary when nothing is accumulated.
pub open spec fn sweep_origin(pending: Option<(usize, Option<usize>)>, pos: usize) -> usize {
    match pending {
        None => pos,
        Some((start, tag)) => start,
    }
}

/// The segments partition `[lo, hi)` exactly: non-empty, contiguous, starting
/// at `lo` and ending at `hi` (and no segments at all when `lo == hi`).
pub open spec fn segs_cover(segs: Seq<CaptureInfo>, lo: usize, hi: usize) -> bool {
    &&& forall|i: int| 0 <= i < segs.len() ==> (#[trigger] segs[i]).range.0 < segs[i].range.1
    &&& forall|i: int|
        0 <= i && i + 1 < segs.len() ==> (#[trigger] segs[i]).range.1 == segs[i + 1].range.0
    &&& (lo == hi ==> segs.len() == 0)
    &&& (lo != hi ==> segs.len() > 0 && segs[0].range.0 == lo && segs[segs.len() - 1].range.1
        == hi)
}

/// A sweep that completes over position-ordered events within the span emits
/// a partition of that span: non-empty, contiguous segments from the output's
/// origin up to `text_len`. This gives both coverage (no gaps, no overlaps)
/// and the absence of empty segments.
#[verifier::rlimit(100)]
pub proof fn lemma_sweep_covers(
    events: Seq<EndPoint>,
    stack: Seq<usize>,
    pos: usize,
    pending: Option<(usize, Option<usize>)>,
    text_len: usize,
)
    requires
        positions_nondecreasing(events),
        positions_bounded(events, pos, text_len),
        pos <= text_len,
        pending_wf(pending, pos),
        sweep(events, stack, pos, pending, text_len).1,
    ensures
        segs_cover(
            sweep(events, stack, pos, pending, text_len).0,
            sweep_origin(pending, pos),
            text_len,
        ),
    decreases events.len(),
{
    let lo = sweep_origin(pending, pos);
    if events.len() == 0 {
    } else {
        let ep = events[0];
        let top = stack_top(stack);
        assert(!(ep.etype is End && top != Some(ep.group)));
        let stack2 = if ep.etype is Start {
            stack.push(ep.group)
        } else {
            stack.drop_last()
        };
        let rest_events = events.drop_first();
        assert forall|i: int| 0 <= i < rest_events.len() implies ep.pos <= (
        #[trigger] rest_events[i]).pos && rest_events[i].pos <= text_len by {
            assert(rest_events[i] == events[i + 1]);
        }
        if pos == ep.pos {
            lemma_sweep_covers(rest_events, stack2, ep.pos, pending, text_len);
        } else {
            assert(pos < ep.pos);
            match pending {
                None => {
                    lemma_sweep_covers(rest_events, stack2, ep.pos, Some((pos, top)), text_len);
                },
                Some((start, tag)) => {
                    if tag == top {
                        lemma_sweep_covers(
                            rest_events,
                            stack2,
                            ep.pos,
                            Some((start, tag)),
                            text_len,
                        );
                    } else {
                        let rest = sweep(rest_events, stack2, ep.pos, Some((pos, top)), text_len);
                        lemma_sweep_covers(rest_events, stack2, ep.pos, Some((pos, top)), text_len);
                        assert(segs_cover(rest.0, pos, text_len));
                        let seg = CaptureInfo { group: tag, range: (start, pos) };
                        let segs = sweep(events, stack, pos, pending, text_len).0;
                        assert(segs == seq![seg] + rest.0);
                        assert(segs.len() == 1 + rest.0.len());
                        assert(segs[0] == seg);
                        assert forall|i: int| 1 <= i < segs.len() implies #[trigger] segs[i]
                            == rest.0[i - 1] by {
                            assert(segs[i] == (seq![seg] + rest.0)[i]);
                        }
                        assert forall|i: int| 0 <= i && i + 1 < segs.len() implies (
                        #[trigger] segs[i]).range.1 == segs[i + 1].range.0 by {
                            if i > 0 {
                                assert(segs[i] == rest.0[i - 1]);
                                assert(segs[i + 1] == rest.0[i]);
                            } else {
                                assert(pos != text_len);
                                assert(segs[1] == rest.0[0]);
                                assert(rest.0[0].range.0 == pos);
                            }
                        }
                        assert forall|i: int| 0 <= i < segs.len() implies (
                        #[trigger] segs[i]).range.0 < segs[i].range.1 by {
                            if i > 0 {
                                assert(segs[i] == rest.0[i - 1]);
                            }
                        }
                        assert(pos != text_len);
                        assert(segs[segs.len() - 1] == rest.0[rest.0.len() - 1]);
                    }
                },
            }
        }
    }
}

/// The event `ev` is one of the two boundary events of the record `r`
/// (which is then never empty: empty records yield no events).
pub open spec fn record_yields_event(r: InputCaptureInfo, ev: EndPoint) -> bool {
    &&& r.group is Some
    &&& r.range.0 != r.range.1
    &&& ev.mgroup == r.mgroup
    &&& ev.group == r.group->Some_0
    &&& (ev.etype is Start ==> ev.pos == r.range.0)
    &&& (ev.etype is End ==> ev.pos == r.range.1)
}

/// Every event of a record list is a boundary event of one of its records.
pub open spec fn event_from_records(records: Seq<InputCaptureInfo>, ev: EndPoint) -> bool {
    exists|j: int| 0 <= j < records.len() && record_yields_event(#[trigger] records[j], ev)
}

/// Each event in the raw event list comes from one of the records.
pub proof fn lemma_events_of_provenance(records: Seq<InputCaptureInfo>)
    ensures
        forall|i: int|
            0 <= i < events_of(records).len() ==> event_from_records(
                records,
                #[trigger] events_of(records)[i],
            ),
    decreases records.len(),
{
    if records.len() == 0 {
    } else {
        let head = records.drop_last();
        let r = records.last();
        lemma_events_of_provenance(head);
        assert forall|i: int| 0 <= i < events_of(records).len() implies event_from_records(
            records,
            #[trigger] events_of(records)[i],
        ) by {
            assert(events_of(records) == events_of(head) + events_of_one(r));
            if i < events_of(head).len() {
                assert(event_from_records(head, events_of(head)[i]));
                let j = choose|j: int|
                    0 <= j < head.len() && record_yields_event(
                        #[trigger] head[j],
                        events_of(head)[i],
                    );
                assert(records[j] == head[j]);
            } else {
                assert(records[records.len() - 1] == r);
            }
        }
    }
}

/// The sorted event list of bounded, separated records has nondecreasing
/// positions, all within `[0, text_len]`.
pub proof fn lemma_sorted_events_monotone(records: Seq<InputCaptureInfo>, text_len: usize)
    requires
        records_bounded(records, text_len),
        records_separated(records),
    ensures
        positions_nondecreasing(events_of(records).sort_by(ep_leq())),
        positions_bounded(events_of(records).sort_by(ep_leq()), 0, text_len),
{
    let evs = events_of(records);
    let sorted = evs.sort_by(ep_leq());
    lemma_ep_le_total_ordering();
    evs.lemma_sort_by_ensures(ep_leq());
    lemma_events_of_provenance(records);
    assert forall|i: int| 0 <= i < sorted.len() implies event_from_records(
        records,
        #[trigger] sorted[i],
    ) by {
        assert(sorted.contains(sorted[i]));
        assert(evs.contains(sorted[i]));
        let k = choose|k: int| 0 <= k < evs.len() && evs[k] == sorted[i];
        assert(event_from_records(records, evs[k]));
    }
    assert forall|i: int| 0 <= i < sorted.len() implies 0 <= (#[trigger] sorted[i]).pos
        && sorted[i].pos <= text_len by {
        let j = choose|j: int|
            0 <= j < records.len() && record_yields_event(#[trigger] records[j], sorted[i]);
        assert(records[j].range.1 <= text_len);
        assert(sorted[i].etype is Start || sorted[i].etype is End);
    }
    assert forall|i: int, j: int| 0 <= i < j < sorted.len() implies (#[trigger] sorted[i]).pos
        <= (#[trigger] sorted[j]).pos by {
        assert(vstd::relations::sorted_by(sorted, ep_leq()));
        assert(ep_leq()(sorted[i], sorted[j]));
        assert(ep_le(sorted[i], sorted[j]));
        if sorted[i].mgroup < sorted[j].mgroup {
            let a = choose|a: int|
                0 <= a < records.len() && record_yields_event(#[trigger] records[a], sorted[i]);
            let b = choose|b: int|
                0 <= b < records.len() && record_yields_event(#[trigger] records[b], sorted[j]);
            assert(records[a].mgroup < records[b].mgroup);
            assert(records[a].range.1 <= records[b].range.0);
            assert(sorted[i].etype is Start || sorted[i].etype is End);
            assert(sorted[j].etype is Start || sorted[j].etype is End);
        }
    }
}

/// Coverage: a flattening call that completes on bounded, separated records
/// partitions `[0, text_len)` exactly — the output segments are non-empty,
/// contiguous, start at 0 and end at `text_len`, with no gaps and no
/// overlaps.
pub proof fn lemma_coverage(records: Seq<InputCaptureInfo>, text_len: usize)
    requires
        records_bounded(records, text_len),
        records_separated(records),
        flatten_spec(records, text_len).1,
    ensures
        segs_cover(flatten_spec(records, text_len).0, 0, text_len),
{
    lemma_sorted_events_monotone(records, text_len);
    lemma_sweep_covers(
        events_of(records).sort_by(ep_leq()),
        Seq::<usize>::empty(),
        0,
        Option::<(usize, Option<usize>)>::None,
        text_len,
    );
}

/// No output segment of a flattening call on bounded, separated records is
/// empty: its two boundaries always differ.
pub proof fn lemma_no_empty_segments(records: Seq<InputCaptureInfo>, text_len: usize)
    requires
        records_bounded(records, text_len),
        records_separated(records),
        flatten_spec(records, text_len).1,
    ensures
        forall|i: int|
            0 <= i < flatten_spec(records, text_len).0.len() ==> (#[trigger] flatten_spec(
                records,
                text_len,
            ).0[i]).range.0 != flatten_spec(records, text_len).0[i].range.1,
{
    lemma_coverage(records, text_len);
}

/// The sweep never emits two consecutive segments with the same tag,
/// whatever the input: a span that carries the accumulated segment's tag
/// extends it instead of starting a new one. Moreover the first emitted
/// segment carries the accumulated segment's tag.
#[verifier::rlimit(100)]
pub proof fn lemma_sweep_distinct_tags(
    events: Seq<EndPoint>,
    stack: Seq<usize>,
    pos: usize,
    pending: Option<(usize, Option<usize>)>,
    text_len: usize,
)
    ensures
        ({
            let segs = sweep(events, stack, pos, pending, text_len).0;
            &&& forall|i: int|
                0 <= i && i + 1 < segs.len() ==> (#[trigger] segs[i]).group != segs[i + 1].group
            &&& match pending {
                None => true,
                Some((start, tag)) => segs.len() > 0 ==> segs[0].group == tag,
            }
        }),
    decreases events.len(),
{
    let segs = sweep(events, stack, pos, pending, text_len).0;
    if events.len() == 0 {
    } else {
        let ep = events[0];
        let top = stack_top(stack);
        if ep.etype is End && top != Some(ep.group) {
        } else {
            let stack2 = if ep.etype is Start {
                stack.push(ep.group)
            } else {
                stack.drop_last()
            };
            let rest_events = events.drop_first();
            if pos == ep.pos {
                lemma_sweep_distinct_tags(rest_events, stack2, ep.pos, pending, text_len);
            } else {
                match pending {
                    None => {
                        lemma_sweep_distinct_tags(
                            rest_events,
                            stack2,
                            ep.pos,
                            Some((pos, top)),
                            text_len,
                        );
                    },
                    Some((start, tag)) => {
                        if tag == top {
                            lemma_sweep_distinct_tags(
                                rest_events,
                                stack2,
                                ep.pos,
                                Some((start, tag)),
                                text_len,
                            );
                        } else {
                            let rest = sweep(
                                rest_events,
                                stack2,
                                ep.pos,
                                Some((pos, top)),
                                text_len,
                            );
                            lemma_sweep_distinct_tags(
                                rest_events,
                                stack2,
                                ep.pos,
                                Some((pos, top)),
                                text_len,
                            );
                            let seg = CaptureInfo { group: tag, range: (start, pos) };
                            assert(segs == seq![seg] + rest.0);
                            assert(segs[0] == seg);
                            assert forall|i: int| 1 <= i < segs.len() implies #[trigger] segs[i]
                                == rest.0[i - 1] by {
                                assert(segs[i] == (seq![seg] + rest.0)[i]);
                            }
                            assert forall|i: int|
                                0 <= i && i + 1 < segs.len() implies (#[trigger] segs[i]).group
                                != segs[i + 1].group by {
                                if i == 0 {
                                    assert(segs[1] == rest.0[0]);
                                    assert(rest.0[0].group == top);
                                } else {
                                    assert(segs[i] == rest.0[i - 1]);
                                    assert(segs[i + 1] == rest.0[i]);
                                }
                            }
                        }
                    },
                }
            }
        }
    }
}

/// No two consecutive output segments of a flattening call share a tag,
/// whatever the input records: equal-tag neighbors are merged as they are
/// produced.
pub proof fn lemma_no_adjacent_equal_tags(records: Seq<InputCaptureInfo>, text_len: usize)
    ensures
        forall|i: int|
            0 <= i && i + 1 < flatten_spec(records, text_len).0.len() ==> (
            #[trigger] flatten_spec(records, text_len).0[i]).group != flatten_spec(
                records,
                text_len,
            ).0[i + 1].group,
{
    lemma_sweep_distinct_tags(
        events_of(records).sort_by(ep_leq()),
        Seq::<usize>::empty(),
        0,
        Option::<(usize, Option<usize>)>::None,
        text_len,
    );
}

/// The event list of a concatenation is the concatenation of the event
/// lists.
pub proof fn lemma_events_of_concat(a: Seq<InputCaptureInfo>, b: Seq<InputCaptureInfo>)
    ensures
        events_of(a + b) == events_of(a) + events_of(b),
    decreases b.len(),
{
    if b.len() == 0 {
        assert(a + b =~= a);
        assert(events_of(a) + events_of(b) =~= events_of(a));
    } else {
        assert((a + b).drop_last() =~= a + b.drop_last());
        lemma_events_of_concat(a, b.drop_last());
        assert((a + b).last() == b.last());
        assert(events_of(a + b) == events_of((a + b).drop_last()) + events_of_one((a + b).last()));
        assert(events_of(a) + events_of(b.drop_last()) + events_of_one(b.last()) =~= events_of(a)
            + events_of(b));
    }
}

/// Record lists with the same multiset of records have event lists with the
/// same multiset of events.
pub proof fn lemma_events_of_multiset(r1: Seq<InputCaptureInfo>, r2: Seq<InputCaptureInfo>)
    requires
        r1.to_multiset() == r2.to_multiset(),
    ensures
        events_of(r1).to_multiset() == events_of(r2).to_multiset(),
    decreases r1.len(),
{
    vstd::seq_lib::to_multiset_len(r1);
    vstd::seq_lib::to_multiset_len(r2);
    if r1.len() == 0 {
        assert(r2.len() == 0);
        assert(events_of(r1) == events_of(r2));
    } else {
        let x = r1.last();
        assert(r1.contains(x));
        vstd::seq_lib::to_multiset_contains(r1, x);
        vstd::seq_lib::to_multiset_contains(r2, x);
        assert(r2.contains(x));
        let i = choose|i: int| 0 <= i < r2.len() && r2[i] == x;
        let r1h = r1.drop_last();
        let r2h = r2.remove(i);
        vstd::seq_lib::to_multiset_remove(r1, r1.len() - 1);
        assert(r1.remove(r1.len() - 1) =~= r1h);
        vstd::seq_lib::to_multiset_remove(r2, i);
        assert(r1h.to_multiset() == r2h.to_multiset());
        lemma_events_of_multiset(r1h, r2h);
        // Split r2 around position i and regroup its event list.
        let p = r2.take(i);
        let q = r2.skip(i + 1);
        assert(r2 =~= p + (seq![x] + q));
        lemma_events_of_concat(p, seq![x] + q);
        lemma_events_of_concat(seq![x], q);
        assert(events_of(seq![x]) == events_of_one(x)) by {
            assert(seq![x].drop_last() =~= Seq::<InputCaptureInfo>::empty());
            assert(events_of(Seq::<InputCaptureInfo>::empty()) + events_of_one(x)
                =~= events_of_one(x));
        }
        assert(r2h =~= p + q);
        lemma_events_of_concat(p, q);
        assert(events_of(r1) == events_of(r1h) + events_of_one(x));
        assert(events_of(r2) == events_of(p) + (events_of_one(x) + events_of(q)));
        assert(events_of(r2h) == events_of(p) + events_of(q));
        vstd::seq_lib::lemma_multiset_commutative(events_of(r1h), events_of_one(x));
        vstd::seq_lib::lemma_multiset_commutative(events_of(p), events_of_one(x) + events_of(q));
        vstd::seq_lib::lemma_multiset_commutative(events_of_one(x), events_of(q));
        vstd::seq_lib::lemma_multiset_commutative(events_of(p), events_of(q));
        assert(events_of(r1).to_multiset() =~= events_of(r2).to_multiset());
    }
}

/// Order independence: flattening does not depend on the order in which the
/// records are listed. Any two record lists that hold the same records (as a
/// multiset) produce the identical output sequence, and the same success or
/// failure.
pub proof fn lemma_order_independence(
    r1: Seq<InputCaptureInfo>,
    r2: Seq<InputCaptureInfo>,
    text_len: usize,
)
    requires
        r1.to_multiset() == r2.to_multiset(),
    ensures
        flatten_spec(r1, text_len) == flatten_spec(r2, text_len),
{
    lemma_events_of_multiset(r1, r2);
    lemma_ep_le_total_ordering();
    let s1 = events_of(r1).sort_by(ep_leq());
    let s2 = events_of(r2).sort_by(ep_leq());
    events_of(r1).lemma_sort_by_ensures(ep_leq());
    events_of(r2).lemma_sort_by_ensures(ep_leq());
    vstd::seq_lib::lemma_sorted_unique(s1, s2, ep_leq());
    assert(s1 == s2);
}


/// No two records carry the same group index (group indices are unique
/// across the whole record list).
pub open spec fn records_distinct_groups(records: Seq<InputCaptureInfo>) -> bool {
    forall|i: int, j: int|
        0 <= i < j < records.len() && (#[trigger] records[i]).group is Some && (
        #[trigger] records[j]).group is Some ==> records[i].group->Some_0
            != records[j].group->Some_0
}

/// All record boundary coordinates are pairwise distinct: no record is
/// empty, and no two records share a start or end offset.
pub open spec fn records_distinct_coords(records: Seq<InputCaptureInfo>) -> bool {
    &&& forall|i: int|
        0 <= i < records.len() && (#[trigger] records[i]).group is Some ==> records[i].range.0
            != records[i].range.1
    &&& forall|i: int, j: int|
        0 <= i < records.len() && 0 <= j < records.len() && i != j && (
        #[trigger] records[i]).group is Some && (#[trigger] records[j]).group is Some
            ==> records[i].range.0 != records[j].range.0 && records[i].range.0
            != records[j].range.1 && records[i].range.1 != records[j].range.0
            && records[i].range.1 != records[j].range.1
}

/// The start boundary event of a record.
pub open spec fn start_ev(r: InputCaptureInfo) -> EndPoint {
    EndPoint {
        mgroup: r.mgroup,
        group: r.group->Some_0,
        pos: r.range.0,
        etype: crate::caps::EndPointType::Start,
    }
}

/// The end boundary event of a record.
pub open spec fn end_ev(r: InputCaptureInfo) -> EndPoint {
    EndPoint {
        mgroup: r.mgroup,
        group: r.group->Some_0,
        pos: r.range.1,
        etype: crate::caps::EndPointType::End,
    }
}

/// The start and end events of each non-empty record occur in the raw event
/// list.
pub proof fn lemma_events_of_contains(records: Seq<InputCaptureInfo>, j: int)
    requires
        0 <= j < records.len(),
        records[j].group is Some,
        records[j].range.0 != records[j].range.1,
    ensures
        events_of(records).contains(start_ev(records[j])),
        events_of(records).contains(end_ev(records[j])),
    decreases records.len(),
{
    let head = records.drop_last();
    let r = records.last();
    let evs = events_of(records);
    assert(evs == events_of(head) + events_of_one(r));
    if j == records.len() - 1 {
        let n = events_of(head).len() as int;
        assert(evs[n] == events_of_one(r)[0]);
        assert(evs[n + 1] == events_of_one(r)[1]);
    } else {
        lemma_events_of_contains(head, j);
        assert(head[j] == records[j]);
        let a = choose|a: int|
            0 <= a < events_of(head).len() && events_of(head)[a] == start_ev(records[j]);
        assert(evs[a] == start_ev(records[j]));
        let b = choose|b: int|
            0 <= b < events_of(head).len() && events_of(head)[b] == end_ev(records[j]);
        assert(evs[b] == end_ev(records[j]));
    }
}

/// With pairwise distinct boundary coordinates, the raw event list holds no
/// event twice.
pub proof fn lemma_events_of_no_duplicates(records: Seq<InputCaptureInfo>)
    requires
        records_distinct_coords(records),
    ensures
        events_of(records).no_duplicates(),
    decreases records.len(),
{
    if records.len() == 0 {
    } else {
        let head = records.drop_last();
        let r = records.last();
        assert(records_distinct_coords(head)) by {
            assert(forall|i: int| 0 <= i < head.len() ==> head[i] == records[i]);
        }
        lemma_events_of_no_duplicates(head);
        lemma_events_of_provenance(head);
        let evs = events_of(records);
        assert(evs == events_of(head) + events_of_one(r));
        let n = events_of(head).len() as int;
        assert forall|i: int, j: int| 0 <= i < evs.len() && 0 <= j < evs.len() && i != j implies
            evs[i] != evs[j] by {
            if i < n && j < n {
                assert(evs[i] == events_of(head)[i]);
                assert(evs[j] == events_of(head)[j]);
            } else if i >= n && j >= n {
                if r.group is Some && r.range.0 != r.range.1 {
                    assert(evs[i] == events_of_one(r)[i - n]);
                    assert(evs[j] == events_of_one(r)[j - n]);
                }
            } else {
                let a = if i < n {
                    i
                } else {
                    j
                };
                let b = if i < n {
                    j
                } else {
                    i
                };
                assert(evs[a] == events_of(head)[a]);
                assert(evs[b] == events_of_one(r)[b - n]);
                assert(event_from_records(head, events_of(head)[a]));
                let c = choose|c: int|
                    0 <= c < head.len() && record_yields_event(#[trigger] head[c], evs[a]);
                assert(records[c] == head[c]);
                assert(evs[a].etype is Start || evs[a].etype is End);
                assert(evs[a].pos == records[c].range.0 || evs[a].pos == records[c].range.1);
                assert(evs[b].pos == r.range.0 || evs[b].pos == r.range.1);
                assert(records[records.len() - 1] == r);
                assert(evs[a].pos != evs[b].pos);
            }
        }
    }
}

/// With pairwise distinct boundary coordinates, the sorted event list holds
/// no event twice.
pub proof fn lemma_sorted_no_duplicates(records: Seq<InputCaptureInfo>)
    requires
        records_distinct_coords(records),
    ensures
        events_of(records).sort_by(ep_leq()).no_duplicates(),
{
    let evs = events_of(records);
    let sorted = evs.sort_by(ep_leq());
    lemma_ep_le_total_ordering();
    evs.lemma_sort_by_ensures(ep_leq());
    lemma_events_of_no_duplicates(records);
    evs.lemma_multiset_has_no_duplicates();
    assert forall|x: EndPoint| sorted.to_multiset().contains(x) implies
        sorted.to_multiset().count(x) == 1 by {
        assert(evs.to_multiset().contains(x));
    }
    sorted.lemma_multiset_has_no_duplicates_conv();
}

/// Every event of the sorted list is a boundary event of one of the records.
pub proof fn lemma_sorted_provenance(records: Seq<InputCaptureInfo>)
    ensures
        forall|i: int|
            0 <= i < events_of(records).sort_by(ep_leq()).len() ==> event_from_records(
                records,
                #[trigger] events_of(records).sort_by(ep_leq())[i],
            ),
{
    let evs = events_of(records);
    let sorted = evs.sort_by(ep_leq());
    lemma_ep_le_total_ordering();
    evs.lemma_sort_by_ensures(ep_leq());
    lemma_events_of_provenance(records);
    assert forall|i: int| 0 <= i < sorted.len() implies event_from_records(
        records,
        #[trigger] sorted[i],
    ) by {
        assert(sorted.contains(sorted[i]));
        assert(evs.contains(sorted[i]));
        let k = choose|k: int| 0 <= k < evs.len() && evs[k] == sorted[i];
        assert(event_from_records(records, evs[k]));
    }
}

/// For bounded, separated records with pairwise distinct boundary
/// coordinates, the sorted event positions strictly increase.
pub proof fn lemma_sorted_positions_increasing(records: Seq<InputCaptureInfo>, text_len: usize)
    requires
        records_bounded(records, text_len),
        records_separated(records),
        records_distinct_coords(records),
    ensures
        forall|i: int, j: int|
            0 <= i < j < events_of(records).sort_by(ep_leq()).len() ==> (#[trigger] events_of(
                records,
            ).sort_by(ep_leq())[i]).pos < (#[trigger] events_of(records).sort_by(ep_leq())[j]).pos,
{
    let sorted = events_of(records).sort_by(ep_leq());
    lemma_sorted_events_monotone(records, text_len);
    lemma_sorted_no_duplicates(records);
    lemma_sorted_provenance(records);
    assert forall|i: int, j: int| 0 <= i < j < sorted.len() implies (#[trigger] sorted[i]).pos
        < (#[trigger] sorted[j]).pos by {
        assert(sorted[i].pos <= sorted[j].pos);
        if sorted[i].pos == sorted[j].pos {
            let a = choose|a: int|
                0 <= a < records.len() && record_yields_event(#[trigger] records[a], sorted[i]);
            let b = choose|b: int|
                0 <= b < records.len() && record_yields_event(#[trigger] records[b], sorted[j]);
            assert(sorted[i].etype is Start || sorted[i].etype is End);
            assert(sorted[j].etype is Start || sorted[j].etype is End);
            if a != b {
                assert(false);
            } else {
                assert(sorted[i] != sorted[j]);
                assert(records[a].range.0 != records[a].range.1);
                assert(false);
            }
        }
    }
}

/// For records with distinct groups and distinct boundary coordinates, no
/// two start events of the sorted list share a group.
pub proof fn lemma_sorted_starts_distinct(records: Seq<InputCaptureInfo>)
    requires
        records_distinct_groups(records),
        records_distinct_coords(records),
    ensures
        forall|i: int, j: int|
            0 <= i < j < events_of(records).sort_by(ep_leq()).len() && (#[trigger] events_of(
                records,
            ).sort_by(ep_leq())[i]).etype is Start && (#[trigger] events_of(records).sort_by(
                ep_leq(),
            )[j]).etype is Start ==> events_of(records).sort_by(ep_leq())[i].group != events_of(
                records,
            ).sort_by(ep_leq())[j].group,
{
    let sorted = events_of(records).sort_by(ep_leq());
    lemma_sorted_no_duplicates(records);
    lemma_sorted_provenance(records);
    assert forall|i: int, j: int|
        0 <= i < j < sorted.len() && (#[trigger] sorted[i]).etype is Start && (
        #[trigger] sorted[j]).etype is Start implies sorted[i].group != sorted[j].group by {
        if sorted[i].group == sorted[j].group {
            let a = choose|a: int|
                0 <= a < records.len() && record_yields_event(#[trigger] records[a], sorted[i]);
            let b = choose|b: int|
                0 <= b < records.len() && record_yields_event(#[trigger] records[b], sorted[j]);
            if a == b {
                assert(sorted[i] == sorted[j]);
                assert(false);
            } else {
                assert(records[a].group->Some_0 != records[b].group->Some_0);
                assert(false);
            }
        }
    }
}

/// The sorted event list of bounded records with distinct coordinates ends,
/// when non-empty, with an end event: no start is left unclosed at the end.
pub proof fn lemma_sorted_ends_last(records: Seq<InputCaptureInfo>, text_len: usize)
    requires
        records_bounded(records, text_len),
        records_distinct_coords(records),
    ensures
        ends_last(events_of(records).sort_by(ep_leq())),
{
    let evs = events_of(records);
    let sorted = evs.sort_by(ep_leq());
    lemma_ep_le_total_ordering();
    evs.lemma_sort_by_ensures(ep_leq());
    lemma_sorted_provenance(records);
    if sorted.len() > 0 {
        let i = sorted.len() - 1;
        if sorted[i].etype is Start {
            let a = choose|a: int|
                0 <= a < records.len() && record_yields_event(#[trigger] records[a], sorted[i]);
            lemma_events_of_contains(records, a);
            vstd::seq_lib::to_multiset_contains(evs, end_ev(records[a]));
            vstd::seq_lib::to_multiset_contains(sorted, end_ev(records[a]));
            assert(sorted.contains(end_ev(records[a])));
            let j = choose|j: int| 0 <= j < sorted.len() && sorted[j] == end_ev(records[a]);
            assert(j != i);
            assert(vstd::relations::sorted_by(sorted, ep_leq()));
            assert(ep_leq()(sorted[j], sorted[i]));
            assert(ep_le(end_ev(records[a]), sorted[i]));
            assert(records[a].range.0 < records[a].range.1);
            assert(false);
        }
    }
}

/// Event positions strictly increase along the sequence.
pub open spec fn positions_increasing(events: Seq<EndPoint>) -> bool {
    forall|i: int, j: int|
        0 <= i < j < events.len() ==> (#[trigger] events[i]).pos < (#[trigger] events[j]).pos
}

/// No two start events share a group.
pub open spec fn starts_distinct(events: Seq<EndPoint>) -> bool {
    forall|i: int, j: int|
        0 <= i < j < events.len() && (#[trigger] events[i]).etype is Start && (
        #[trigger] events[j]).etype is Start ==> events[i].group != events[j].group
}

/// No group already on the stack is opened again by a later start event.
pub open spec fn stack_fresh(events: Seq<EndPoint>, stack: Seq<usize>) -> bool {
    forall|a: int, i: int|
        0 <= a < stack.len() && 0 <= i < events.len() && (#[trigger] events[i]).etype is Start
            ==> (#[trigger] stack[a]) != events[i].group
}

/// A non-empty event list closes at its end: the last event is an end event.
pub open spec fn ends_last(events: Seq<EndPoint>) -> bool {
    events.len() > 0 ==> events[events.len() - 1].etype is End
}

/// The stack after one event's stack effect.
pub open spec fn step_stack(ep: EndPoint, stack: Seq<usize>) -> Seq<usize> {
    if ep.etype is Start {
        stack.push(ep.group)
    } else {
        stack.drop_last()
    }
}

/// Consuming the first event preserves the event and stack hypotheses of the
/// completion proof.
#[verifier::rlimit(100)]
proof fn lemma_sweep_step_hyps(events: Seq<EndPoint>, stack: Seq<usize>)
    requires
        events.len() > 0,
        events[0].etype is End ==> stack.len() > 0,
        positions_increasing(events),
        starts_distinct(events),
        ends_last(events),
        stack_fresh(events, stack),
        stack.no_duplicates(),
    ensures
        positions_increasing(events.drop_first()),
        starts_distinct(events.drop_first()),
        ends_last(events.drop_first()),
        stack_fresh(events.drop_first(), step_stack(events[0], stack)),
        step_stack(events[0], stack).no_duplicates(),
{
    let ep = events[0];
    let stack2 = step_stack(ep, stack);
    let rest_events = events.drop_first();
    assert forall|i: int, j: int| 0 <= i < j < rest_events.len() implies (
    #[trigger] rest_events[i]).pos < (#[trigger] rest_events[j]).pos by {
        assert(rest_events[i] == events[i + 1]);
        assert(rest_events[j] == events[j + 1]);
    }
    assert forall|i: int, j: int|
        0 <= i < j < rest_events.len() && (#[trigger] rest_events[i]).etype is Start && (
        #[trigger] rest_events[j]).etype is Start implies rest_events[i].group
        != rest_events[j].group by {
        assert(rest_events[i] == events[i + 1]);
        assert(rest_events[j] == events[j + 1]);
    }
    assert(ends_last(rest_events)) by {
        if rest_events.len() > 0 {
            assert(rest_events[rest_events.len() - 1] == events[events.len() - 1]);
        }
    }
    assert(stack2.no_duplicates()) by {
        if ep.etype is Start {
            assert forall|a: int, b: int| 0 <= a < b < stack2.len() implies #[trigger] stack2[a]
                != #[trigger] stack2[b] by {
                if b < stack.len() {
                    assert(stack2[a] == stack[a] && stack2[b] == stack[b]);
                } else {
                    assert(stack2[a] == stack[a] && stack2[b] == ep.group);
                }
            }
        } else {
            assert forall|a: int, b: int| 0 <= a < b < stack2.len() implies #[trigger] stack2[a]
                != #[trigger] stack2[b] by {
                assert(stack2[a] == stack[a] && stack2[b] == stack[b]);
            }
        }
    }
    assert(stack_fresh(rest_events, stack2)) by {
        assert forall|a: int, i: int|
            0 <= a < stack2.len() && 0 <= i < rest_events.len() && (
            #[trigger] rest_events[i]).etype is Start implies (#[trigger] stack2[a])
            != rest_events[i].group by {
            assert(rest_events[i] == events[i + 1]);
            if ep.etype is Start && a == stack.len() {
                assert(stack2[a] == ep.group);
            } else {
                assert(stack2[a] == stack[a]);
            }
        }
    }
}

/// Each index shifted down by one: the witness indices after one event is
/// consumed.
pub open spec fn shift_down(s: Seq<int>) -> Seq<int> {
    s.map_values(|x: int| x - 1)
}

/// The sweep state is consistent with the records: `open_idx` lists, outer to
/// inner, the records whose group is on the stack, each already opened at or
/// before `pos` and closed by an event still ahead (at the index `end_idx`
/// gives); every other non-empty record is already closed — with no close
/// event remaining — or has both its boundary events still ahead.
pub open spec fn sweep_open_invariant(
    records: Seq<InputCaptureInfo>,
    events: Seq<EndPoint>,
    stack: Seq<usize>,
    pos: usize,
    open_idx: Seq<int>,
    end_idx: Seq<int>,
) -> bool {
    &&& open_idx.len() == stack.len()
    &&& end_idx.len() == stack.len()
    &&& forall|a: int|
        0 <= a < open_idx.len() ==> 0 <= #[trigger] open_idx[a] < records.len()
            && records[open_idx[a]].group is Some && stack[a] == records[open_idx[a]].group->Some_0
            && records[open_idx[a]].range.0 <= pos
    &&& forall|a: int|
        0 <= a < end_idx.len() ==> 0 <= #[trigger] end_idx[a] < events.len()
            && events[end_idx[a]] == end_ev(records[open_idx[a]])
    &&& forall|a: int, b: int|
        0 <= a < b < open_idx.len() ==> records[#[trigger] open_idx[a]].range.0 <= records[
            #[trigger] open_idx[b]
        ].range.0 && records[open_idx[b]].range.1 <= records[open_idx[a]].range.1
    &&& forall|jj: int|
        0 <= jj < records.len() && (#[trigger] records[jj]).group is Some && records[jj].range.0
            != records[jj].range.1 ==> (records[jj].range.1 <= pos && (forall|i: int|
            0 <= i < events.len() ==> #[trigger] events[i] != end_ev(records[jj]))) || ((
        exists|i: int|
            0 <= i < events.len() && events[i] == start_ev(records[jj])) && (exists|i: int|
            0 <= i < events.len() && events[i] == end_ev(records[jj]))) || (exists|a: int|
            0 <= a < open_idx.len() && open_idx[a] == jj)
}


/// Consuming a start event preserves consistency of the sweep state with the
/// records: the opened record joins the open chain as its new innermost
/// element.
#[verifier::spinoff_prover]
#[verifier::rlimit(100)]
proof fn lemma_open_invariant_step_start(
    records: Seq<InputCaptureInfo>,
    events: Seq<EndPoint>,
    stack: Seq<usize>,
    pos: usize,
    open_idx: Seq<int>,
    end_idx: Seq<int>,
    jep: int,
    i2: int,
)
    requires
        records_distinct_coords(records),
        records_forest(records),
        records[jep].range.0 <= records[jep].range.1,
        positions_increasing(events),
        events.no_duplicates(),
        stack_fresh(events, stack),
        events.len() > 0,
        pos <= events[0].pos,
        events[0].etype is Start,
        0 <= jep < records.len(),
        record_yields_event(records[jep], events[0]),
        0 <= i2 < events.len(),
        events[i2] == end_ev(records[jep]),
        sweep_open_invariant(records, events, stack, pos, open_idx, end_idx),
    ensures
        sweep_open_invariant(
            records,
            events.drop_first(),
            stack.push(events[0].group),
            events[0].pos,
            open_idx.push(jep),
            shift_down(end_idx).push(i2 - 1),
        ),
{
    let ep = events[0];
    let rest_events = events.drop_first();
    let stack2 = stack.push(ep.group);
    let open2 = open_idx.push(jep);
    let end2 = shift_down(end_idx).push(i2 - 1);
    assert(ep == start_ev(records[jep]));
    assert forall|a: int| 0 <= a < open_idx.len() implies #[trigger] open_idx[a] != jep by {
        if open_idx[a] == jep {
            assert(stack[a] == ep.group);
        }
    }
    assert(i2 != 0);
    assert(end2.len() == stack2.len());
    assert forall|a: int| 0 <= a < end2.len() implies 0 <= #[trigger] end2[a]
        < rest_events.len() && rest_events[end2[a]] == end_ev(records[open2[a]]) by {
        if a < end_idx.len() {
            assert(end2[a] == end_idx[a] - 1);
            assert(events[end_idx[a]] == end_ev(records[open_idx[a]]));
            assert(end_idx[a] != 0);
            assert(rest_events[end_idx[a] - 1] == events[end_idx[a]]);
            assert(open2[a] == open_idx[a]);
        } else {
            assert(end2[a] == i2 - 1);
            assert(rest_events[i2 - 1] == events[i2]);
            assert(open2[a] == jep);
        }
    }
    // The newly opened record nests strictly inside every open record.
    assert forall|a: int| 0 <= a < open_idx.len() implies records[
        #[trigger] open_idx[a]
    ].range.0 <= records[jep].range.0 && records[jep].range.1 <= records[open_idx[a]].range.1 by {
        let ra = open_idx[a];
        assert(records[ra].range.0 <= pos);
        assert(records[ra].range.0 != records[jep].range.0);
        assert(events[end_idx[a]] == end_ev(records[ra]));
        assert(end_idx[a] != 0);
        assert(events[end_idx[a]].pos > events[0].pos);
        assert(records[ra].range.1 > records[jep].range.0);
        assert(records[jep].range.0 < records[jep].range.1);
        assert(records[ra].range.1 != records[jep].range.1);
        assert(records[ra].range.0 != records[jep].range.1);
    }
    assert forall|jj: int|
        0 <= jj < records.len() && (#[trigger] records[jj]).group is Some && records[jj].range.0
            != records[jj].range.1 implies (records[jj].range.1 <= ep.pos && (forall|i: int|
        0 <= i < rest_events.len() ==> #[trigger] rest_events[i] != end_ev(records[jj]))) || ((
    exists|i: int|
        0 <= i < rest_events.len() && rest_events[i] == start_ev(records[jj])) && (exists|i: int|
        0 <= i < rest_events.len() && rest_events[i] == end_ev(records[jj]))) || (exists|a: int|
        0 <= a < open2.len() && open2[a] == jj) by {
        if records[jj].range.1 <= pos && (forall|i: int|
            0 <= i < events.len() ==> #[trigger] events[i] != end_ev(records[jj])) {
            assert forall|i: int| 0 <= i < rest_events.len() implies #[trigger] rest_events[i]
                != end_ev(records[jj]) by {
                assert(rest_events[i] == events[i + 1]);
            }
        } else if exists|a: int| 0 <= a < open_idx.len() && open_idx[a] == jj {
            let a = choose|a: int| 0 <= a < open_idx.len() && open_idx[a] == jj;
            assert(open2[a] == jj);
        } else if jj == jep {
            assert(open2[open_idx.len() as int] == jep);
        } else {
            let is0 = choose|i: int| 0 <= i < events.len() && events[i] == start_ev(records[jj]);
            let ie0 = choose|i: int| 0 <= i < events.len() && events[i] == end_ev(records[jj]);
            assert(is0 != 0) by {
                if is0 == 0 {
                    assert(records[jj].range.0 == records[jep].range.0);
                }
            }
            assert(ie0 != 0);
            assert(rest_events[is0 - 1] == events[is0]);
            assert(rest_events[ie0 - 1] == events[ie0]);
        }
    }
}

/// Consuming a matching end event preserves consistency of the sweep state
/// with the records: the innermost open record closes and leaves the chain.
#[verifier::spinoff_prover]
#[verifier::rlimit(100)]
proof fn lemma_open_invariant_step_end(
    records: Seq<InputCaptureInfo>,
    events: Seq<EndPoint>,
    stack: Seq<usize>,
    pos: usize,
    open_idx: Seq<int>,
    end_idx: Seq<int>,
    jep: int,
)
    requires
        records_distinct_groups(records),
        records_distinct_coords(records),
        positions_increasing(events),
        events.no_duplicates(),
        stack.no_duplicates(),
        events.len() > 0,
        pos <= events[0].pos,
        events[0].etype is End,
        0 <= jep < records.len(),
        record_yields_event(records[jep], events[0]),
        stack.len() > 0,
        stack.last() == events[0].group,
        sweep_open_invariant(records, events, stack, pos, open_idx, end_idx),
    ensures
        sweep_open_invariant(
            records,
            events.drop_first(),
            stack.drop_last(),
            events[0].pos,
            open_idx.drop_last(),
            shift_down(end_idx.drop_last()),
        ),
{
    let ep = events[0];
    let rest_events = events.drop_first();
    let open2 = open_idx.drop_last();
    let end2 = shift_down(end_idx.drop_last());
    assert(ep == end_ev(records[jep]));
    let last = open_idx.len() - 1;
    assert(open_idx[last] == jep) by {
        assert(stack[last] == records[open_idx[last]].group->Some_0);
        assert(records[jep].group->Some_0 == ep.group);
        if open_idx[last] != jep {
            assert(records[open_idx[last]].group->Some_0 != records[jep].group->Some_0);
        }
    }
    assert forall|a: int| 0 <= a < end2.len() implies 0 <= #[trigger] end2[a]
        < rest_events.len() && rest_events[end2[a]] == end_ev(records[open2[a]]) by {
        assert(end2[a] == end_idx[a] - 1);
        assert(open2[a] == open_idx[a]);
        assert(events[end_idx[a]] == end_ev(records[open_idx[a]]));
        assert(end_idx[a] != 0) by {
            if end_idx[a] == 0 {
                assert(records[open_idx[a]].range.1 == records[jep].range.1);
                assert(open_idx[a] == jep);
                assert(stack[a] == stack[last]);
            }
        }
        assert(rest_events[end_idx[a] - 1] == events[end_idx[a]]);
    }
    assert forall|i: int| 0 <= i < rest_events.len() implies #[trigger] rest_events[i]
        != end_ev(records[jep]) by {
        assert(rest_events[i] == events[i + 1]);
        assert(events[i + 1] != events[0]);
    }
    assert forall|jj: int|
        0 <= jj < records.len() && (#[trigger] records[jj]).group is Some && records[jj].range.0
            != records[jj].range.1 implies (records[jj].range.1 <= ep.pos && (forall|i: int|
        0 <= i < rest_events.len() ==> #[trigger] rest_events[i] != end_ev(records[jj]))) || ((
    exists|i: int|
        0 <= i < rest_events.len() && rest_events[i] == start_ev(records[jj])) && (exists|i: int|
        0 <= i < rest_events.len() && rest_events[i] == end_ev(records[jj]))) || (exists|a: int|
        0 <= a < open2.len() && open2[a] == jj) by {
        if records[jj].range.1 <= pos && (forall|i: int|
            0 <= i < events.len() ==> #[trigger] events[i] != end_ev(records[jj])) {
            assert forall|i: int| 0 <= i < rest_events.len() implies #[trigger] rest_events[i]
                != end_ev(records[jj]) by {
                assert(rest_events[i] == events[i + 1]);
            }
        } else if exists|a: int| 0 <= a < open_idx.len() && open_idx[a] == jj {
            let a = choose|a: int| 0 <= a < open_idx.len() && open_idx[a] == jj;
            if a < last {
                assert(open2[a] == jj);
            } else {
                assert(jj == jep);
                assert(records[jep].range.1 == ep.pos);
            }
        } else if jj == jep {
            assert(records[jep].range.1 == ep.pos);
        } else {
            let is0 = choose|i: int| 0 <= i < events.len() && events[i] == start_ev(records[jj]);
            let ie0 = choose|i: int| 0 <= i < events.len() && events[i] == end_ev(records[jj]);
            assert(is0 != 0);
            assert(ie0 != 0) by {
                if ie0 == 0 {
                    assert(records[jj].range.1 == records[jep].range.1);
                }
            }
            assert(rest_events[is0 - 1] == events[is0]);
            assert(rest_events[ie0 - 1] == events[ie0]);
        }
    }
}

/// The record ranges form a proper interval forest: any two are disjoint or
/// one contains the other.
pub open spec fn records_forest(records: Seq<InputCaptureInfo>) -> bool {
    forall|i: int, j: int|
        0 <= i < records.len() && 0 <= j < records.len() && (#[trigger] records[i]).group is Some
            && (#[trigger] records[j]).group is Some ==> records[i].range.1 <= records[j].range.0
            || records[j].range.1 <= records[i].range.0 || (records[i].range.0
            <= records[j].range.0 && records[j].range.1 <= records[i].range.1) || (
        records[j].range.0 <= records[i].range.0 && records[i].range.1 <= records[j].range.1)
}

/// A sweep whose state is consistent with a proper interval forest never
/// stops at a malformed close event: each end event finds its own group on
/// top of the stack, so the sweep completes.
#[verifier::spinoff_prover]
#[verifier::rlimit(100)]
pub proof fn lemma_sweep_completes(
    records: Seq<InputCaptureInfo>,
    events: Seq<EndPoint>,
    stack: Seq<usize>,
    pos: usize,
    pending: Option<(usize, Option<usize>)>,
    text_len: usize,
    open_idx: Seq<int>,
    end_idx: Seq<int>,
)
    requires
        records_bounded(records, text_len),
        records_distinct_groups(records),
        records_distinct_coords(records),
        records_forest(records),
        forall|i: int|
            0 <= i < events.len() ==> event_from_records(records, #[trigger] events[i]),
        positions_increasing(events),
        starts_distinct(events),
        ends_last(events),
        stack_fresh(events, stack),
        stack.no_duplicates(),
        events.len() > 0 ==> pos <= events[0].pos,
        sweep_open_invariant(records, events, stack, pos, open_idx, end_idx),
    ensures
        sweep(events, stack, pos, pending, text_len).1,
    decreases events.len(),
{
    if events.len() == 0 {
    } else {
        let ep = events[0];
        let top = stack_top(stack);
        assert(event_from_records(records, ep));
        let jep = choose|x: int|
            0 <= x < records.len() && record_yields_event(#[trigger] records[x], ep);
        assert(record_yields_event(records[jep], ep));
        let rest_events = events.drop_first();
        assert forall|i: int| 0 <= i < rest_events.len() implies event_from_records(
            records,
            #[trigger] rest_events[i],
        ) by {
            assert(rest_events[i] == events[i + 1]);
        }
        assert(rest_events.len() > 0 ==> ep.pos <= rest_events[0].pos) by {
            if rest_events.len() > 0 {
                assert(rest_events[0] == events[1]);
            }
        }
        let pending2 = if pos == ep.pos {
            pending
        } else {
            match pending {
                None => Some((pos, top)),
                Some((start, tag)) => if tag == top {
                    Some((start, tag))
                } else {
                    Some((pos, top))
                },
            }
        };
        if ep.etype is Start {
            lemma_sweep_step_hyps(events, stack);
            assert forall|a: int| 0 <= a < open_idx.len() implies #[trigger] open_idx[a]
                != jep by {
                if open_idx[a] == jep {
                    assert(stack[a] == ep.group);
                }
            }
            assert(records[jep].range.0 <= records[jep].range.1);
            assert(records[jep].range.0 != records[jep].range.1);
            assert(!(records[jep].range.1 <= pos));
            assert(exists|i: int| 0 <= i < events.len() && events[i] == end_ev(records[jep])) by {
                assert(events[0] == start_ev(records[jep]));
            }
            let i2 = choose|i2: int| 0 <= i2 < events.len() && events[i2] == end_ev(records[jep]);
            lemma_open_invariant_step_start(
                records, events, stack, pos, open_idx, end_idx, jep, i2,
            );
            lemma_sweep_completes(
                records,
                rest_events,
                stack.push(ep.group),
                ep.pos,
                pending2,
                text_len,
                open_idx.push(jep),
                shift_down(end_idx).push(i2 - 1),
            );
        } else {
            assert(ep == end_ev(records[jep]));
            // The closing record is open: it is not recorded as closed (its
            // end event is here), and its start event cannot still be ahead.
            assert(exists|a: int| 0 <= a < open_idx.len() && open_idx[a] == jep) by {
                assert(records[jep].group is Some);
                if records[jep].range.1 <= pos && (forall|i: int|
                    0 <= i < events.len() ==> #[trigger] events[i] != end_ev(records[jep])) {
                    assert(events[0] == end_ev(records[jep]));
                    assert(false);
                } else if !(exists|a: int| 0 <= a < open_idx.len() && open_idx[a] == jep) {
                    let is0 = choose|i: int|
                        0 <= i < events.len() && events[i] == start_ev(records[jep]);
                    assert(is0 != 0);
                    assert(events[is0].pos > events[0].pos);
                    assert(records[jep].range.0 > records[jep].range.1);
                    assert(records[jep].range.0 <= records[jep].range.1);
                    assert(false);
                }
            }
            let a = choose|a: int| 0 <= a < open_idx.len() && open_idx[a] == jep;
            let last = open_idx.len() - 1;
            // The closing record is the innermost open one.
            assert(a == last) by {
                if a < last {
                    let rb = open_idx[last];
                    assert(rb != jep) by {
                        if rb == jep {
                            assert(stack[a] == stack[last]);
                        }
                    }
                    assert(records[rb].range.1 <= records[jep].range.1);
                    assert(events[end_idx[last]] == end_ev(records[rb]));
                    assert(end_idx[last] != 0) by {
                        if end_idx[last] == 0 {
                            assert(records[rb].range.1 == records[jep].range.1);
                        }
                    }
                    assert(events[end_idx[last]].pos > events[0].pos);
                    assert(records[rb].range.1 > records[jep].range.1);
                    assert(false);
                }
            }
            assert(top == Some(stack[last]));
            assert(stack[last] == records[jep].group->Some_0);
            assert(top == Some(ep.group));
            lemma_sweep_step_hyps(events, stack);
            lemma_open_invariant_step_end(records, events, stack, pos, open_idx, end_idx, jep);
            lemma_sweep_completes(
                records,
                rest_events,
                stack.drop_last(),
                ep.pos,
                pending2,
                text_len,
                open_idx.drop_last(),
                shift_down(end_idx.drop_last()),
            );
        }
    }
}

/// A flattening call on bounded, separated records that form a proper
/// interval forest, with unique groups and pairwise distinct boundary
/// coordinates, always completes: the malformed-nesting failure cannot
/// occur.
#[verifier::rlimit(100)]
pub proof fn lemma_flatten_completes(records: Seq<InputCaptureInfo>, text_len: usize)
    requires
        records_bounded(records, text_len),
        records_separated(records),
        records_distinct_groups(records),
        records_distinct_coords(records),
        records_forest(records),
    ensures
        flatten_spec(records, text_len).1,
{
    let evs = events_of(records);
    let sorted = evs.sort_by(ep_leq());
    lemma_ep_le_total_ordering();
    evs.lemma_sort_by_ensures(ep_leq());
    lemma_sorted_provenance(records);
    lemma_sorted_positions_increasing(records, text_len);
    lemma_sorted_starts_distinct(records);
    lemma_sorted_ends_last(records, text_len);
    let no_open = Seq::<int>::empty();
    assert forall|jj: int|
        0 <= jj < records.len() && (#[trigger] records[jj]).group is Some && records[jj].range.0
            != records[jj].range.1 implies ((exists|i: int|
        0 <= i < sorted.len() && sorted[i] == start_ev(records[jj])) && (exists|i: int|
        0 <= i < sorted.len() && sorted[i] == end_ev(records[jj]))) by {
        lemma_events_of_contains(records, jj);
        vstd::seq_lib::to_multiset_contains(evs, start_ev(records[jj]));
        vstd::seq_lib::to_multiset_contains(sorted, start_ev(records[jj]));
        vstd::seq_lib::to_multiset_contains(evs, end_ev(records[jj]));
        vstd::seq_lib::to_multiset_contains(sorted, end_ev(records[jj]));
        assert(sorted.contains(start_ev(records[jj])));
        assert(sorted.contains(end_ev(records[jj])));
    }
    assert(sweep_open_invariant(records, sorted, Seq::<usize>::empty(), 0, no_open, no_open));
    lemma_sweep_completes(
        records,
        sorted,
        Seq::<usize>::empty(),
        0,
        Option::<(usize, Option<usize>)>::None,
        text_len,
        no_open,
        no_open,
    );
}


/// The record covers the offset.
pub open spec fn record_covers(r: InputCaptureInfo, o: usize) -> bool {
    r.group is Some && r.range.0 <= o && o < r.range.1
}

/// The tag names a record that covers the offset and is contained in every
/// record covering it: the innermost one.
pub open spec fn innermost_tagged(
    records: Seq<InputCaptureInfo>,
    tag: Option<usize>,
    o: usize,
) -> bool {
    exists|jt: int|
        0 <= jt < records.len() && (#[trigger] records[jt]).group == tag && record_covers(
            records[jt],
            o,
        ) && (forall|j2: int|
            0 <= j2 < records.len() && record_covers(#[trigger] records[j2], o)
                ==> records[j2].range.0 <= records[jt].range.0 && records[jt].range.1
                <= records[j2].range.1)
}

/// Every offset of the accumulated segment that some record covers is
/// rightly tagged: the accumulated tag names the innermost record covering
/// it.
pub open spec fn pending_history(
    records: Seq<InputCaptureInfo>,
    pending: Option<(usize, Option<usize>)>,
    pos: usize,
) -> bool {
    match pending {
        None => true,
        Some((start, tag)) => forall|o: usize, j: int|
            start <= o < pos && 0 <= j < records.len() && #[trigger] record_covers(records[j], o)
                ==> tag is Some && innermost_tagged(records, tag, o),
    }
}

/// A sweep whose state is consistent with a proper interval forest tags each
/// emitted segment, at every offset covered by any record, with the
/// innermost record covering that offset; offsets of untagged segments are
/// covered by no record.
#[verifier::spinoff_prover]
#[verifier::rlimit(100)]
pub proof fn lemma_sweep_innermost(
    records: Seq<InputCaptureInfo>,
    events: Seq<EndPoint>,
    stack: Seq<usize>,
    pos: usize,
    pending: Option<(usize, Option<usize>)>,
    text_len: usize,
    open_idx: Seq<int>,
    end_idx: Seq<int>,
    k: int,
    o: usize,
    j: int,
)
    requires
        records_bounded(records, text_len),
        records_distinct_groups(records),
        records_distinct_coords(records),
        records_forest(records),
        forall|i: int|
            0 <= i < events.len() ==> event_from_records(records, #[trigger] events[i]),
        positions_increasing(events),
        starts_distinct(events),
        ends_last(events),
        stack_fresh(events, stack),
        stack.no_duplicates(),
        events.len() > 0 ==> pos <= events[0].pos,
        sweep_open_invariant(records, events, stack, pos, open_idx, end_idx),
        pending_history(records, pending, pos),
        0 <= k < sweep(events, stack, pos, pending, text_len).0.len(),
        sweep(events, stack, pos, pending, text_len).0[k].range.0 <= o,
        o < sweep(events, stack, pos, pending, text_len).0[k].range.1,
        0 <= j < records.len(),
        record_covers(records[j], o),
    ensures
        sweep(events, stack, pos, pending, text_len).0[k].group is Some,
        innermost_tagged(records, sweep(events, stack, pos, pending, text_len).0[k].group, o),
    decreases events.len(),
{
    let segs = sweep(events, stack, pos, pending, text_len).0;
    if events.len() == 0 {
        // Offsets at or past the final boundary are uncovered: the covering
        // record would have to be already closed, or opened or closed by a
        // remaining event.
        if pos <= o {
            assert(records[j].group is Some);
            assert(records[j].range.0 != records[j].range.1);
            assert(!(records[j].range.1 <= pos));
            assert(!(exists|a: int| 0 <= a < open_idx.len() && open_idx[a] == j)) by {
                if exists|a: int| 0 <= a < open_idx.len() && open_idx[a] == j {
                    let a = choose|a: int| 0 <= a < open_idx.len() && open_idx[a] == j;
                    assert(0 <= end_idx[a] < events.len());
                }
            }
            assert(false);
        } else {
            // The offset lies in the accumulated segment.
            match pending {
                None => {
                    assert(false);
                },
                Some((start, tag)) => {
                    assert(start <= o < pos);
                    assert(tag is Some && innermost_tagged(records, tag, o));
                    assert(segs[k].group == tag);
                },
            }
        }
    } else {
        let ep = events[0];
        let top = stack_top(stack);
        if ep.etype is End && top != Some(ep.group) {
            assert(segs.len() == 0);
            assert(false);
        } else {
            let jep = choose|x: int|
                0 <= x < records.len() && record_yields_event(#[trigger] records[x], ep);
            assert(event_from_records(records, ep));
            assert(record_yields_event(records[jep], ep));
            let stack2 = step_stack(ep, stack);
            let rest_events = events.drop_first();
            lemma_sweep_step_hyps(events, stack);
            assert forall|i: int| 0 <= i < rest_events.len() implies event_from_records(
                records,
                #[trigger] rest_events[i],
            ) by {
                assert(rest_events[i] == events[i + 1]);
            }
            assert(rest_events.len() > 0 ==> ep.pos <= rest_events[0].pos) by {
                if rest_events.len() > 0 {
                    assert(rest_events[0] == events[1]);
                }
            }
            let open2: Seq<int>;
            let end2: Seq<int>;
            if ep.etype is Start {
                assert forall|a: int| 0 <= a < open_idx.len() implies #[trigger] open_idx[a]
                    != jep by {
                    if open_idx[a] == jep {
                        assert(stack[a] == ep.group);
                    }
                }
                assert(records[jep].range.0 <= records[jep].range.1);
                assert(!(records[jep].range.1 <= pos));
                assert(exists|i: int|
                    0 <= i < events.len() && events[i] == end_ev(records[jep]));
                let i2 = choose|i2: int|
                    0 <= i2 < events.len() && events[i2] == end_ev(records[jep]);
                open2 = open_idx.push(jep);
                end2 = shift_down(end_idx).push(i2 - 1);
                lemma_open_invariant_step_start(
                    records, events, stack, pos, open_idx, end_idx, jep, i2,
                );
            } else {
                assert(exists|a: int| 0 <= a < open_idx.len() && open_idx[a] == jep) by {
                    assert(records[jep].group is Some);
                    if records[jep].range.1 <= pos && (forall|i: int|
                        0 <= i < events.len() ==> #[trigger] events[i] != end_ev(records[jep])) {
                        assert(events[0] == end_ev(records[jep]));
                        assert(false);
                    } else if !(exists|a: int| 0 <= a < open_idx.len() && open_idx[a] == jep) {
                        let is0 = choose|i: int|
                            0 <= i < events.len() && events[i] == start_ev(records[jep]);
                        assert(is0 != 0);
                        assert(events[is0].pos > events[0].pos);
                        assert(false);
                    }
                }
                open2 = open_idx.drop_last();
                end2 = shift_down(end_idx.drop_last());
                lemma_open_invariant_step_end(
                    records, events, stack, pos, open_idx, end_idx, jep,
                );
            }
            if pos == ep.pos {
                lemma_sweep_innermost(
                    records, rest_events, stack2, ep.pos, pending, text_len, open2, end2, k, o, j,
                );
            } else {
                // Every record covering an offset of the span `[pos, ep.pos)`
                // is open, so the span's tag is the innermost open record's.
                assert forall|o2: usize, j2: int|
                    pos <= o2 < ep.pos && 0 <= j2 < records.len() && #[trigger] record_covers(
                        records[j2],
                        o2,
                    ) implies exists|a: int| 0 <= a < open_idx.len() && open_idx[a] == j2 by {
                    assert(records[j2].group is Some);
                    assert(records[j2].range.0 != records[j2].range.1);
                    assert(!(records[j2].range.1 <= pos));
                    if !(exists|a: int| 0 <= a < open_idx.len() && open_idx[a] == j2) {
                        let is0 = choose|i: int|
                            0 <= i < events.len() && events[i] == start_ev(records[j2]);
                        assert(events[is0].pos == records[j2].range.0);
                        assert(events[is0].pos >= ep.pos) by {
                            if is0 > 0 {
                                assert(events[is0].pos > events[0].pos);
                            }
                        }
                        assert(false);
                    }
                }
                assert forall|o2: usize, j2: int|
                    pos <= o2 < ep.pos && 0 <= j2 < records.len() && #[trigger] record_covers(
                        records[j2],
                        o2,
                    ) implies top is Some && innermost_tagged(records, top, o2) by {
                    let lastq = open_idx.len() - 1;
                    assert(exists|a: int| 0 <= a < open_idx.len() && open_idx[a] == j2);
                    assert(open_idx.len() > 0);
                    let jt = open_idx[lastq];
                    assert(top == Some(stack[lastq]));
                    assert(records[jt].group == top);
                    assert(record_covers(records[jt], o2)) by {
                        assert(records[jt].range.0 <= pos);
                        assert(events[end_idx[lastq]] == end_ev(records[jt]));
                        assert(events[end_idx[lastq]].pos >= events[0].pos) by {
                            if end_idx[lastq] > 0 {
                                assert(events[end_idx[lastq]].pos > events[0].pos);
                            }
                        }
                        assert(records[jt].range.1 >= ep.pos);
                    }
                    assert forall|j3: int|
                        0 <= j3 < records.len() && record_covers(#[trigger] records[j3], o2)
                        implies records[j3].range.0 <= records[jt].range.0
                            && records[jt].range.1 <= records[j3].range.1 by {
                        let a3 = choose|a: int| 0 <= a < open_idx.len() && open_idx[a] == j3;
                        if a3 < lastq {
                            assert(records[open_idx[a3]].range.0 <= records[open_idx[lastq]].range.0
                                && records[open_idx[lastq]].range.1
                                <= records[open_idx[a3]].range.1);
                        }
                    }
                    assert(innermost_tagged(records, top, o2)) by {
                        assert(0 <= jt < records.len() && records[jt].group == top
                            && record_covers(records[jt], o2));
                    }
                }
                match pending {
                    None => {
                        assert(pending_history(records, Some((pos, top)), ep.pos));
                        lemma_sweep_innermost(
                            records,
                            rest_events,
                            stack2,
                            ep.pos,
                            Some((pos, top)),
                            text_len,
                            open2,
                            end2,
                            k,
                            o,
                            j,
                        );
                    },
                    Some((start, tag)) => {
                        if tag == top {
                            assert(pending_history(records, Some((start, tag)), ep.pos));
                            lemma_sweep_innermost(
                                records,
                                rest_events,
                                stack2,
                                ep.pos,
                                Some((start, tag)),
                                text_len,
                                open2,
                                end2,
                                k,
                                o,
                                j,
                            );
                        } else {
                            let rest = sweep(
                                rest_events,
                                stack2,
                                ep.pos,
                                Some((pos, top)),
                                text_len,
                            );
                            let seg = CaptureInfo { group: tag, range: (start, pos) };
                            assert(segs == seq![seg] + rest.0);
                            if k == 0 {
                                assert(segs[0] == seg);
                                assert(start <= o < pos);
                                assert(tag is Some && innermost_tagged(records, tag, o));
                            } else {
                                assert(segs[k] == rest.0[k - 1]) by {
                                    assert(segs[k] == (seq![seg] + rest.0)[k]);
                                }
                                assert(pending_history(records, Some((pos, top)), ep.pos));
                                lemma_sweep_innermost(
                                    records,
                                    rest_events,
                                    stack2,
                                    ep.pos,
                                    Some((pos, top)),
                                    text_len,
                                    open2,
                                    end2,
                                    k - 1,
                                    o,
                                    j,
                                );
                            }
                        }
                    },
                }
            }
        }
    }
}

/// Innermost wins: for bounded, separated records forming a proper interval
/// forest, with unique groups and pairwise distinct boundary coordinates,
/// every output segment is tagged, at each offset covered by at least one
/// record, with the innermost record covering that offset.
#[verifier::rlimit(100)]
pub proof fn lemma_innermost_wins(
    records: Seq<InputCaptureInfo>,
    text_len: usize,
    k: int,
    o: usize,
    j: int,
)
    requires
        records_bounded(records, text_len),
        records_separated(records),
        records_distinct_groups(records),
        records_distinct_coords(records),
        records_forest(records),
        0 <= k < flatten_spec(records, text_len).0.len(),
        flatten_spec(records, text_len).0[k].range.0 <= o,
        o < flatten_spec(records, text_len).0[k].range.1,
        0 <= j < records.len(),
        record_covers(records[j], o),
    ensures
        flatten_spec(records, text_len).0[k].group is Some,
        innermost_tagged(records, flatten_spec(records, text_len).0[k].group, o),
{
    let evs = events_of(records);
    let sorted = evs.sort_by(ep_leq());
    lemma_ep_le_total_ordering();
    evs.lemma_sort_by_ensures(ep_leq());
    lemma_sorted_provenance(records);
    lemma_sorted_positions_increasing(records, text_len);
    lemma_sorted_starts_distinct(records);
    lemma_sorted_ends_last(records, text_len);
    let no_open = Seq::<int>::empty();
    assert forall|jj: int|
        0 <= jj < records.len() && (#[trigger] records[jj]).group is Some && records[jj].range.0
            != records[jj].range.1 implies ((exists|i: int|
        0 <= i < sorted.len() && sorted[i] == start_ev(records[jj])) && (exists|i: int|
        0 <= i < sorted.len() && sorted[i] == end_ev(records[jj]))) by {
        lemma_events_of_contains(records, jj);
        vstd::seq_lib::to_multiset_contains(evs, start_ev(records[jj]));
        vstd::seq_lib::to_multiset_contains(sorted, start_ev(records[jj]));
        vstd::seq_lib::to_multiset_contains(evs, end_ev(records[jj]));
        vstd::seq_lib::to_multiset_contains(sorted, end_ev(records[jj]));
        assert(sorted.contains(start_ev(records[jj])));
        assert(sorted.contains(end_ev(records[jj])));
    }
    assert(sweep_open_invariant(records, sorted, Seq::<usize>::empty(), 0, no_open, no_open));
    lemma_sweep_innermost(
        records,
        sorted,
        Seq::<usize>::empty(),
        0,
        Option::<(usize, Option<usize>)>::None,
        text_len,
        no_open,
        no_open,
        k,
        o,
        j,
    );
}

/// The untagged half of innermost-wins: under the same hypotheses, no record
/// covers any offset of an untagged output segment.
pub proof fn lemma_untagged_segments_uncovered(
    records: Seq<InputCaptureInfo>,
    text_len: usize,
    k: int,
    o: usize,
)
    requires
        records_bounded(records, text_len),
        records_separated(records),
        records_distinct_groups(records),
        records_distinct_coords(records),
        records_forest(records),
        0 <= k < flatten_spec(records, text_len).0.len(),
        flatten_spec(records, text_len).0[k].range.0 <= o,
        o < flatten_spec(records, text_len).0[k].range.1,
        flatten_spec(records, text_len).0[k].group is None,
    ensures
        forall|j: int|
            0 <= j < records.len() ==> !record_covers(#[trigger] records[j], o),
{
    assert forall|j: int| 0 <= j < records.len() implies !record_covers(
        #[trigger] records[j],
        o,
    ) by {
        if record_covers(records[j], o) {
            lemma_innermost_wins(records, text_len, k, o, j);
        }
    }
}


/// The accumulated segment never extends: its tag differs from the current
/// stack top, the next event lies strictly ahead, and an untagged
/// accumulation is never final.
pub open spec fn pending_fresh(
    events: Seq<EndPoint>,
    stack: Seq<usize>,
    pending: Option<(usize, Option<usize>)>,
    pos: usize,
) -> bool {
    match pending {
        None => true,
        Some((start, tag)) => start < pos && tag != stack_top(stack) && (events.len() > 0
            ==> pos < events[0].pos) && (tag is None ==> events.len() > 0),
    }
}

/// In a partition, every later segment lies entirely at or after the end of
/// the first one.
pub proof fn lemma_cover_chain(segs: Seq<CaptureInfo>, lo: usize, hi: usize, b: int)
    requires
        segs_cover(segs, lo, hi),
        1 <= b < segs.len(),
    ensures
        segs[0].range.1 <= segs[b].range.0,
    decreases b,
{
    if b > 1 {
        lemma_cover_chain(segs, lo, hi, b - 1);
        assert(segs[b - 1].range.1 == segs[b].range.0);
    }
}

/// Segments of a completing sweep never straddle an event position: no event
/// position falls strictly inside an emitted segment; every segment starts at
/// or after the output's origin; and the accumulated segment, when anything
/// is emitted, comes out first with its exact extent.
#[verifier::spinoff_prover]
#[verifier::rlimit(100)]
pub proof fn lemma_sweep_no_straddle(
    events: Seq<EndPoint>,
    stack: Seq<usize>,
    pos: usize,
    pending: Option<(usize, Option<usize>)>,
    text_len: usize,
)
    requires
        positions_increasing(events),
        positions_bounded(events, pos, text_len),
        pos <= text_len,
        starts_distinct(events),
        ends_last(events),
        stack_fresh(events, stack),
        stack.no_duplicates(),
        pending_fresh(events, stack, pending, pos),
        sweep(events, stack, pos, pending, text_len).1,
    ensures
        ({
            let segs = sweep(events, stack, pos, pending, text_len).0;
            &&& forall|k: int|
                0 <= k < segs.len() ==> sweep_origin(pending, pos) <= (
                #[trigger] segs[k]).range.0
            &&& forall|k: int, i: int|
                0 <= k < segs.len() && 0 <= i < events.len() ==> !((
                #[trigger] segs[k]).range.0 < (#[trigger] events[i]).pos && events[i].pos
                    < segs[k].range.1)
            &&& match pending {
                None => true,
                Some((start, tag)) => segs.len() > 0 ==> segs[0].range.0 == start
                    && segs[0].range.1 == pos,
            }
        }),
    decreases events.len(),
{
    let segs = sweep(events, stack, pos, pending, text_len).0;
    if events.len() == 0 {
        match pending {
            None => {},
            Some((start, tag)) => {
                assert(tag is Some);
            },
        }
    } else {
        let ep = events[0];
        let top = stack_top(stack);
        assert(!(ep.etype is End && top != Some(ep.group)));
        let stack2 = step_stack(ep, stack);
        let rest_events = events.drop_first();
        lemma_sweep_step_hyps(events, stack);
        assert forall|i: int| 0 <= i < rest_events.len() implies ep.pos <= (
        #[trigger] rest_events[i]).pos && rest_events[i].pos <= text_len by {
            assert(rest_events[i] == events[i + 1]);
        }
        assert(rest_events.len() > 0 ==> ep.pos < rest_events[0].pos) by {
            if rest_events.len() > 0 {
                assert(rest_events[0] == events[1]);
            }
        }
        if pos == ep.pos {
            // Only possible before anything accumulates.
            assert(pending is None);
            lemma_sweep_no_straddle(rest_events, stack2, ep.pos, pending, text_len);
            assert forall|k: int, i: int|
                0 <= k < segs.len() && 0 <= i < events.len() implies !((
            #[trigger] segs[k]).range.0 < (#[trigger] events[i]).pos && events[i].pos
                < segs[k].range.1) by {
                if i > 0 {
                    assert(events[i] == rest_events[i - 1]);
                } else {
                    assert(ep.pos <= segs[k].range.0);
                }
            }
        } else {
            // The tag of the span `[pos, ep.pos)` never extends the
            // accumulated segment: a start pushes a group absent from the
            // stack, a close uncovers a different one.
            let fresh2: bool = match pending {
                None => true,
                Some((start, tag)) => tag != top,
            };
            assert(fresh2);
            assert(top != stack_top(stack2)) by {
                if ep.etype is Start {
                    if stack.len() > 0 {
                        assert(stack[stack.len() - 1] != ep.group);
                    }
                } else {
                    assert(top == Some(ep.group));
                    assert(stack[stack.len() - 1] == ep.group);
                    if stack.len() > 1 {
                        assert(stack_top(stack2) == Some(stack[stack.len() - 2]));
                        assert(stack[stack.len() - 2] != stack[stack.len() - 1]);
                    }
                }
            }
            assert(top is None ==> rest_events.len() > 0) by {
                if top is None {
                    assert(ep.etype is Start);
                    assert(events[events.len() - 1].etype is End);
                    assert(events.len() >= 2);
                }
            }
            assert(pending_fresh(rest_events, stack2, Some((pos, top)), ep.pos));
            lemma_sweep_no_straddle(rest_events, stack2, ep.pos, Some((pos, top)), text_len);
            let rest = sweep(rest_events, stack2, ep.pos, Some((pos, top)), text_len);
            assert(segs_cover(rest.0, pos, text_len)) by {
                lemma_sweep_covers(rest_events, stack2, ep.pos, Some((pos, top)), text_len);
            }
            assert forall|k: int, i: int|
                0 <= k < rest.0.len() && 0 <= i < events.len() implies !((
            #[trigger] rest.0[k]).range.0 < (#[trigger] events[i]).pos && events[i].pos
                < rest.0[k].range.1) by {
                if i > 0 {
                    assert(events[i] == rest_events[i - 1]);
                } else {
                    if rest.0.len() > 0 {
                        assert(rest.0[0].range.0 == pos && rest.0[0].range.1 == ep.pos);
                        if k > 0 {
                            lemma_cover_chain(rest.0, pos, text_len, k);
                            assert(rest.0[0].range.1 <= rest.0[k].range.0);
                        }
                    }
                }
            }
            match pending {
                None => {
                    assert(segs == rest.0);
                },
                Some((start, tag)) => {
                    let seg = CaptureInfo { group: tag, range: (start, pos) };
                    assert(segs == seq![seg] + rest.0);
                    assert(segs[0] == seg);
                    assert forall|k: int| 1 <= k < segs.len() implies #[trigger] segs[k]
                        == rest.0[k - 1] by {
                        assert(segs[k] == (seq![seg] + rest.0)[k]);
                    }
                    assert forall|k: int, i: int|
                        0 <= k < segs.len() && 0 <= i < events.len() implies !((
                    #[trigger] segs[k]).range.0 < (#[trigger] events[i]).pos && events[i].pos
                        < segs[k].range.1) by {
                        assert(pos < events[i].pos) by {
                            if i > 0 {
                                assert(events[i] == rest_events[i - 1]);
                            }
                        }
                        if k > 0 {
                            assert(segs[k] == rest.0[k - 1]);
                        }
                    }
                },
            }
        }
    }
}

/// No output segment straddles a boundary of any non-empty input record: a
/// record's start and end offsets never fall strictly inside a segment. The
/// hypotheses are those of the completion law, so the call is also known to
/// complete.
#[verifier::rlimit(100)]
pub proof fn lemma_record_boundaries_respected(
    records: Seq<InputCaptureInfo>,
    text_len: usize,
    j: int,
)
    requires
        records_bounded(records, text_len),
        records_separated(records),
        records_distinct_groups(records),
        records_distinct_coords(records),
        records_forest(records),
        0 <= j < records.len(),
        records[j].group is Some,
        records[j].range.0 != records[j].range.1,
    ensures
        forall|k: int|
            0 <= k < flatten_spec(records, text_len).0.len() ==> !((#[trigger] flatten_spec(
                records,
                text_len,
            ).0[k]).range.0 < records[j].range.0 && records[j].range.0 < flatten_spec(
                records,
                text_len,
            ).0[k].range.1) && !(flatten_spec(records, text_len).0[k].range.0
                < records[j].range.1 && records[j].range.1 < flatten_spec(
                records,
                text_len,
            ).0[k].range.1),
{
    let evs = events_of(records);
    let sorted = evs.sort_by(ep_leq());
    lemma_ep_le_total_ordering();
    evs.lemma_sort_by_ensures(ep_leq());
    lemma_flatten_completes(records, text_len);
    lemma_sorted_events_monotone(records, text_len);
    lemma_sorted_positions_increasing(records, text_len);
    lemma_sorted_starts_distinct(records);
    lemma_sorted_ends_last(records, text_len);
    lemma_sweep_no_straddle(
        sorted,
        Seq::<usize>::empty(),
        0,
        Option::<(usize, Option<usize>)>::None,
        text_len,
    );
    lemma_events_of_contains(records, j);
    vstd::seq_lib::to_multiset_contains(evs, start_ev(records[j]));
    vstd::seq_lib::to_multiset_contains(sorted, start_ev(records[j]));
    vstd::seq_lib::to_multiset_contains(evs, end_ev(records[j]));
    vstd::seq_lib::to_multiset_contains(sorted, end_ev(records[j]));
    assert(sorted.contains(start_ev(records[j])));
    assert(sorted.contains(end_ev(records[j])));
    let a = choose|a: int| 0 <= a < sorted.len() && sorted[a] == start_ev(records[j]);
    let b = choose|b: int| 0 <= b < sorted.len() && sorted[b] == end_ev(records[j]);
    assert forall|k: int| 0 <= k < flatten_spec(records, text_len).0.len() implies !((
    #[trigger] flatten_spec(records, text_len).0[k]).range.0 < records[j].range.0
        && records[j].range.0 < flatten_spec(records, text_len).0[k].range.1) && !(flatten_spec(
        records,
        text_len,
    ).0[k].range.0 < records[j].range.1 && records[j].range.1 < flatten_spec(
        records,
        text_len,
    ).0[k].range.1) by {
        assert(sorted[a].pos == records[j].range.0);
        assert(sorted[b].pos == records[j].range.1);
    }
}

/// Within a covered span, every offset lies inside some segment.
pub proof fn lemma_cover_offset(segs: Seq<CaptureInfo>, lo: usize, hi: usize, off: usize)
    requires
        segs_cover(segs, lo, hi),
        lo <= off < hi,
    ensures
        exists|k: int|
            0 <= k < segs.len() && (#[trigger] segs[k]).range.0 <= off && off < segs[k].range.1,
    decreases segs.len(),
{
    assert(segs.len() > 0);
    if off < segs[0].range.1 {
        assert(segs[0].range.0 <= off && off < segs[0].range.1);
    } else {
        let rest = segs.drop_first();
        let lo2 = segs[0].range.1;
        assert(rest.len() > 0) by {
            assert(segs[segs.len() - 1].range.1 == hi);
        }
        assert(segs_cover(rest, lo2, hi)) by {
            assert forall|i: int| 0 <= i < rest.len() implies (#[trigger] rest[i]).range.0
                < rest[i].range.1 by {
                assert(rest[i] == segs[i + 1]);
            }
            assert forall|i: int| 0 <= i && i + 1 < rest.len() implies (
            #[trigger] rest[i]).range.1 == rest[i + 1].range.0 by {
                assert(rest[i] == segs[i + 1]);
                assert(rest[i + 1] == segs[i + 2]);
            }
            assert(rest[0] == segs[1]);
            assert(rest[rest.len() - 1] == segs[segs.len() - 1]);
        }
        lemma_cover_offset(rest, lo2, hi, off);
        let k = choose|k: int|
            0 <= k < rest.len() && (#[trigger] rest[k]).range.0 <= off && off < rest[k].range.1;
        assert(segs[k + 1] == rest[k]);
    }
}

/// Round trip: each offset inside a record's range lies in an output segment
/// that is itself contained in that range. Together with coverage this says
/// the union of the output segments lying within a record's range is exactly
/// the record's range.
pub proof fn lemma_record_reconstruction(
    records: Seq<InputCaptureInfo>,
    text_len: usize,
    j: int,
    off: usize,
)
    requires
        records_bounded(records, text_len),
        records_separated(records),
        records_distinct_groups(records),
        records_distinct_coords(records),
        records_forest(records),
        0 <= j < records.len(),
        records[j].group is Some,
        records[j].range.0 <= off < records[j].range.1,
    ensures
        exists|k: int|
            0 <= k < flatten_spec(records, text_len).0.len() && (#[trigger] flatten_spec(
                records,
                text_len,
            ).0[k]).range.0 <= off && off < flatten_spec(records, text_len).0[k].range.1
                && records[j].range.0 <= flatten_spec(records, text_len).0[k].range.0
                && flatten_spec(records, text_len).0[k].range.1 <= records[j].range.1,
{
    let segs = flatten_spec(records, text_len).0;
    lemma_flatten_completes(records, text_len);
    lemma_coverage(records, text_len);
    lemma_cover_offset(segs, 0, text_len, off);
    lemma_record_boundaries_respected(records, text_len, j);
    let k = choose|k: int|
        0 <= k < segs.len() && (#[trigger] segs[k]).range.0 <= off && off < segs[k].range.1;
    assert(records[j].range.0 <= segs[k].range.0) by {
        assert(!(segs[k].range.0 < records[j].range.0 && records[j].range.0 < segs[k].range.1));
    }
    assert(segs[k].range.1 <= records[j].range.1) by {
        assert(!(segs[k].range.0 < records[j].range.1 && records[j].range.1 < segs[k].range.1));
    }
}

} // verus!
