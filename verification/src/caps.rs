//! The interval flattening engine: records, the sweep-event model, the event
//! ordering, and the sweep itself.

use vstd::prelude::*;

verus! {

use vstd::multiset::Multiset;

/// One output segment: a half-open byte range `[range.0, range.1)` tagged
/// with the local group index of the innermost record covering it, or `None`
/// where no record covers it.
#[derive(Debug, Clone, Copy)]
pub struct CaptureInfo {
    pub group: Option<usize>,
    pub range: (usize, usize),
}

impl PartialEq for CaptureInfo {
    fn eq(&self, o: &CaptureInfo) -> (r: bool) {
        self.group == o.group && self.range.0 == o.range.0 && self.range.1 == o.range.1
    }
}

impl vstd::std_specs::cmp::PartialEqSpecImpl for CaptureInfo {
    open spec fn obeys_eq_spec() -> bool {
        true
    }

    open spec fn eq_spec(&self, o: &CaptureInfo) -> bool {
        self.group == o.group && self.range == o.range
    }
}

/// One input capture record: `mgroup` is the index of the match occurrence
/// that produced it, `group` the capture-group index local to that occurrence
/// (`None` for an absent group, which contributes nothing), and `range` the
/// half-open byte range `[range.0, range.1)` that the group matched.
#[derive(Debug, Clone, Copy)]
pub struct InputCaptureInfo {
    pub mgroup: usize,
    pub group: Option<usize>,
    pub range: (usize, usize),
}

impl PartialEq for InputCaptureInfo {
    fn eq(&self, o: &InputCaptureInfo) -> (r: bool) {
        self.mgroup == o.mgroup && self.group == o.group && self.range.0 == o.range.0
            && self.range.1 == o.range.1
    }
}

impl vstd::std_specs::cmp::PartialEqSpecImpl for InputCaptureInfo {
    open spec fn obeys_eq_spec() -> bool {
        true
    }

    open spec fn eq_spec(&self, o: &InputCaptureInfo) -> bool {
        self.mgroup == o.mgroup && self.group == o.group && self.range == o.range
    }
}

impl From<(usize, usize, usize, usize)> for InputCaptureInfo {
    fn from(v: (usize, usize, usize, usize)) -> (r: Self) {
        InputCaptureInfo { mgroup: v.0, group: Some(v.1), range: (v.2, v.3) }
    }
}

impl vstd::std_specs::convert::FromSpecImpl<(usize, usize, usize, usize)> for InputCaptureInfo {
    open spec fn obeys_from_spec() -> bool {
        true
    }

    open spec fn from_spec(v: (usize, usize, usize, usize)) -> Self {
        InputCaptureInfo { mgroup: v.0, group: Some(v.1), range: (v.2, v.3) }
    }
}

/// Whether a sweep event marks the start or the end of a record's range.
#[derive(Debug, Clone, Copy, PartialEq, Eq, Structural)]
pub enum EndPointType {
    Start,
    End,
}

/// One sweep event: the start or end boundary of one record's range.
#[derive(Debug, Clone, Copy, PartialEq, Eq, Structural)]
pub struct EndPoint {
    pub mgroup: usize,
    pub group: usize,
    pub pos: usize,
    pub etype: EndPointType,
}

/// The total event order: by occurrence, then by position; at equal
/// occurrence and position all ends come before all starts (a record that
/// ends exactly where another begins is closed before the other opens), ends
/// ordered by descending group (the innermost group, which carries the
/// highest index, closes first, matching stack discipline), starts by
/// ascending group (an outer group opens before its children).
pub open spec fn ep_le(a: EndPoint, b: EndPoint) -> bool {
    if a.mgroup != b.mgroup {
        a.mgroup < b.mgroup
    } else if a.pos != b.pos {
        a.pos < b.pos
    } else {
        match (a.etype, b.etype) {
            (EndPointType::End, EndPointType::End) => a.group >= b.group,
            (EndPointType::End, EndPointType::Start) => true,
            (EndPointType::Start, EndPointType::End) => false,
            (EndPointType::Start, EndPointType::Start) => a.group <= b.group,
        }
    }
}

/// `ep_le` as a closure value, for use with `Seq::sort_by` and `sorted_by`.
pub open spec fn ep_leq() -> spec_fn(EndPoint, EndPoint) -> bool {
    |a: EndPoint, b: EndPoint| ep_le(a, b)
}

/// `ep_le` is a total order on events.
pub proof fn lemma_ep_le_total_ordering()
    ensures
        vstd::relations::total_ordering(ep_leq()),
{
    let leq = ep_leq();
    assert forall|x: EndPoint| #[trigger] leq(x, x) by {
        assert(ep_le(x, x));
    }
    assert forall|x: EndPoint, y: EndPoint| #[trigger] leq(x, y) && #[trigger] leq(y, x)
        implies x == y by {
        assert(ep_le(x, y) && ep_le(y, x) ==> x == y);
    }
    assert forall|x: EndPoint, y: EndPoint, z: EndPoint|
        #[trigger] leq(x, y) && #[trigger] leq(y, z) implies leq(x, z) by {
        assert(ep_le(x, y) && ep_le(y, z) ==> ep_le(x, z));
    }
    assert forall|x: EndPoint, y: EndPoint| #[trigger] leq(x, y) || #[trigger] leq(y, x) by {
        assert(ep_le(x, y) || ep_le(y, x));
    }
}

/// The events one record contributes: one start and one end event carrying
/// the record's occurrence and group. An absent group contributes nothing,
/// and neither does a zero-length record: its coincident boundaries cancel.
pub open spec fn events_of_one(r: InputCaptureInfo) -> Seq<EndPoint> {
    match r.group {
        Some(g) => if r.range.0 == r.range.1 {
            Seq::empty()
        } else {
            seq![
                EndPoint { mgroup: r.mgroup, group: g, pos: r.range.0, etype: EndPointType::Start },
                EndPoint { mgroup: r.mgroup, group: g, pos: r.range.1, etype: EndPointType::End },
            ]
        },
        None => Seq::empty(),
    }
}

/// The events of a record list, in record order.
pub open spec fn events_of(records: Seq<InputCaptureInfo>) -> Seq<EndPoint>
    decreases records.len(),
{
    if records.len() == 0 {
        Seq::empty()
    } else {
        events_of(records.drop_last()) + events_of_one(records.last())
    }
}

impl CaptureInfoFillIter {
    /// Builds the raw (unsorted) event list of the given records.
    pub fn endpoint_list(citems: &Vec<InputCaptureInfo>) -> (items: Vec<EndPoint>)
        ensures
            items@ == events_of(citems@),
    {
        let mut items: Vec<EndPoint> = Vec::new();
        let mut i: usize = 0;
        while i < citems.len()
            invariant
                i <= citems.len(),
                items@ == events_of(citems@.take(i as int)),
            decreases citems.len() - i,
        {
            let item = citems[i];
            if let Some(group) = item.group {
                if item.range.0 != item.range.1 {
                    items.push(EndPoint {
                        mgroup: item.mgroup,
                        group,
                        pos: item.range.0,
                        etype: EndPointType::Start,
                    });
                    items.push(EndPoint {
                        mgroup: item.mgroup,
                        group,
                        pos: item.range.1,
                        etype: EndPointType::End,
                    });
                }
            }
            i = i + 1;
            proof {
                assert(citems@.take(i as int).drop_last() =~= citems@.take(i - 1));
                assert(citems@.take(i as int).last() == citems@[i - 1]);
                assert(items@ =~= events_of(citems@.take(i - 1)) + events_of_one(citems@[i - 1]));
            }
        }
        proof {
            assert(citems@.take(citems@.len() as int) =~= citems@);
        }
        items
    }
}

/// The flattening engine: construct with [`CaptureInfoFillIter::new`], then
/// draw segments with [`CaptureInfoFillIter::next`] or all at once with
/// [`CaptureInfoFillIter::collect_all`].
pub struct CaptureInfoFillIter {
    text_len: usize,
    items: Vec<EndPoint>,
    idx: usize,
    pos: usize,
    groups: Vec<usize>,
    pending: Option<(usize, Option<usize>)>,
}

/// The error of a flattening call: a close event's group did not match the
/// group on top of the stack of currently open groups, so the input records
/// did not form a proper interval forest. The whole call fails; no partial
/// output is to be used.
#[derive(Debug, Clone, Copy, PartialEq, Eq, Structural)]
pub struct MalformedNesting;

/// The innermost currently open group: the top of the group stack.
pub open spec fn stack_top(stack: Seq<usize>) -> Option<usize> {
    if stack.len() == 0 {
        None
    } else {
        Some(stack.last())
    }
}

/// One pass of the sweep over the remaining `events`, starting with the open
/// groups `stack`, the last boundary `pos`, and `pending` the segment being
/// accumulated, as its start offset and tag (its end is always the current
/// boundary). Returns the segments emitted and whether the sweep ran to
/// completion (`false` means it stopped at a malformed close event; segments
/// already emitted come first).
///
/// Each event is handled thus: a close event whose group is not the current
/// stack top stops the sweep with a failure. Otherwise, if the event's
/// position differs from the current boundary, the span between them — whose
/// tag is the group on top of the stack before the event — extends the
/// accumulated segment when the tags agree, and otherwise the accumulated
/// segment is emitted and the span starts a new one: consecutive emitted
/// segments never share a tag. Then the event's stack effect applies: a
/// start pushes its group, a close pops. After the last event the remainder
/// up to `text_len`, if any, is untagged, merging with an untagged
/// accumulated segment; whatever is accumulated is emitted last.
pub open spec fn sweep(
    events: Seq<EndPoint>,
    stack: Seq<usize>,
    pos: usize,
    pending: Option<(usize, Option<usize>)>,
    text_len: usize,
) -> (Seq<CaptureInfo>, bool)
    decreases events.len(),
{
    if events.len() == 0 {
        if pos != text_len {
            match pending {
                None => (seq![CaptureInfo { group: None, range: (pos, text_len) }], true),
                Some((start, tag)) => if tag is None {
                    (seq![CaptureInfo { group: None, range: (start, text_len) }], true)
                } else {
                    (
                        seq![
                            CaptureInfo { group: tag, range: (start, pos) },
                            CaptureInfo { group: None, range: (pos, text_len) },
                        ],
                        true,
                    )
                },
            }
        } else {
            match pending {
                None => (Seq::<CaptureInfo>::empty(), true),
                Some((start, tag)) => (
                    seq![CaptureInfo { group: tag, range: (start, pos) }],
                    true,
                ),
            }
        }
    } else {
        let ep = events[0];
        let top = stack_top(stack);
        if ep.etype is End && top != Some(ep.group) {
            (Seq::<CaptureInfo>::empty(), false)
        } else {
            let stack2 = if ep.etype is Start {
                stack.push(ep.group)
            } else {
                stack.drop_last()
            };
            if pos == ep.pos {
                sweep(events.drop_first(), stack2, ep.pos, pending, text_len)
            } else {
                match pending {
                    None => sweep(events.drop_first(), stack2, ep.pos, Some((pos, top)), text_len),
                    Some((start, tag)) => if tag == top {
                        sweep(events.drop_first(), stack2, ep.pos, Some((start, tag)), text_len)
                    } else {
                        let rest = sweep(
                            events.drop_first(),
                            stack2,
                            ep.pos,
                            Some((pos, top)),
                            text_len,
                        );
                        (seq![CaptureInfo { group: tag, range: (start, pos) }] + rest.0, rest.1)
                    },
                }
            }
        }
    }
}

/// What flattening a record list over `[0, text_len)` produces: the sweep
/// over the sorted event list, from an empty stack and boundary 0, with
/// nothing accumulated.
pub open spec fn flatten_spec(records: Seq<InputCaptureInfo>, text_len: usize) -> (
    Seq<CaptureInfo>,
    bool,
) {
    sweep(
        events_of(records).sort_by(ep_leq()),
        Seq::<usize>::empty(),
        0,
        Option::<(usize, Option<usize>)>::None,
        text_len,
    )
}

/// The executable event order test.
pub fn ep_le_exec(a: &EndPoint, b: &EndPoint) -> (r: bool)
    ensures
        r == ep_le(*a, *b),
{
    if a.mgroup != b.mgroup {
        a.mgroup < b.mgroup
    } else if a.pos != b.pos {
        a.pos < b.pos
    } else {
        match (a.etype, b.etype) {
            (EndPointType::End, EndPointType::End) => a.group >= b.group,
            (EndPointType::End, EndPointType::Start) => true,
            (EndPointType::Start, EndPointType::End) => false,
            (EndPointType::Start, EndPointType::Start) => a.group <= b.group,
        }
    }
}

/// Sorts an event list into the total event order (selection sort).
pub fn sort_endpoints(items: &mut Vec<EndPoint>)
    ensures
        final(items)@ == old(items)@.sort_by(ep_leq()),
{
    broadcast use vstd::seq_lib::group_to_multiset_ensures;
    broadcast use vstd::multiset::group_multiset_axioms;

    let ghost orig = items@;
    proof {
        lemma_ep_le_total_ordering();
    }
    let mut out: Vec<EndPoint> = Vec::new();
    while items.len() > 0
        invariant
            out@.to_multiset().add(items@.to_multiset()) =~= orig.to_multiset(),
            vstd::relations::sorted_by(out@, ep_leq()),
            forall|a: int, b: int|
                0 <= a < out@.len() && 0 <= b < items@.len() ==> ep_le(out@[a], items@[b]),
        decreases items.len(),
    {
        let mut min_i: usize = 0;
        let mut k: usize = 1;
        while k < items.len()
            invariant
                (min_i as int) < items@.len(),
                k <= items@.len(),
                items@.len() > 0,
                forall|j: int| 0 <= j < k ==> ep_le(items@[min_i as int], items@[j]),
            decreases items.len() - k,
        {
            if ep_le_exec(&items[k], &items[min_i]) {
                min_i = k;
            }
            k = k + 1;
        }
        let ghost items_before = items@;
        let ghost out_before = out@;
        let x = items.remove(min_i);
        out.push(x);
        proof {
            assert(x == items_before[min_i as int]);
            assert(items_before.contains(x));
            vstd::seq_lib::to_multiset_contains(items_before, x);
            assert(items_before.to_multiset().count(x) > 0);
            assert(items@ == items_before.remove(min_i as int));
            vstd::seq_lib::to_multiset_remove(items_before, min_i as int);
            assert(items@.to_multiset() =~= items_before.to_multiset().remove(x));
            assert(out@ == out_before.push(x));
            vstd::seq_lib::to_multiset_build(out_before, x);
            assert(out@.to_multiset() =~= out_before.to_multiset().insert(x));
            assert(out@.to_multiset().add(items@.to_multiset()) =~= orig.to_multiset());
            assert forall|a: int, b: int|
                0 <= a < out@.len() && 0 <= b < items@.len() implies ep_le(
                out@[a],
                items@[b],
            ) by {
                assert(items@[b] == items_before.remove(min_i as int)[b]);
                if b < min_i {
                    assert(items@[b] == items_before[b]);
                } else {
                    assert(items@[b] == items_before[b + 1]);
                }
            }
        }
    }
    proof {
        assert(items@.to_multiset() =~= Multiset::<EndPoint>::empty());
        assert(out@.to_multiset() =~= orig.to_multiset());
        orig.lemma_sort_by_ensures(ep_leq());
        vstd::seq_lib::lemma_sorted_unique(out@, orig.sort_by(ep_leq()), ep_leq());
        assert(out@ =~= orig.sort_by(ep_leq()));
    }
    *items = out;
}

impl CaptureInfoFillIter {
    /// Well-formedness: the read index stays within the event list.
    pub closed spec fn wf(self) -> bool {
        self.idx <= self.items@.len()
    }

    /// The events not yet consumed.
    pub closed spec fn remaining(self) -> Seq<EndPoint> {
        self.items@.skip(self.idx as int)
    }

    /// What the rest of this sweep will produce: the segments still to be
    /// emitted, and whether it completes without a malformed close event.
    pub closed spec fn sweep_state(self) -> (Seq<CaptureInfo>, bool) {
        sweep(self.remaining(), self.groups@, self.pos, self.pending, self.text_len)
    }

    /// The text length this engine was constructed with.
    pub closed spec fn text_len_spec(self) -> usize {
        self.text_len
    }

    /// Sets up a sweep of the given records over `[0, text_len)`: builds the
    /// event list, sorts it, and starts with an empty stack at boundary 0.
    pub fn new(citems: Vec<InputCaptureInfo>, text_len: usize) -> (s: Self)
        ensures
            s.wf(),
            s.sweep_state() == flatten_spec(citems@, text_len),
            s.text_len_spec() == text_len,
    {
        let mut items = CaptureInfoFillIter::endpoint_list(&citems);
        sort_endpoints(&mut items);
        let s = Self { text_len, items, idx: 0, pos: 0, groups: Vec::new(), pending: None };
        proof {
            assert(s.remaining() =~= events_of(citems@).sort_by(ep_leq()));
        }
        s
    }

    /// Emits the next segment: `Ok(Some(_))` with the segment, `Ok(None)`
    /// when the text span is exhausted, or `Err` on a malformed close event.
    /// Coincident boundaries are resolved and equal-tag neighbors merged
    /// before emitting, so no returned segment is empty and no two
    /// consecutive returned segments share a tag.
    pub fn next(&mut self) -> (r: Result<Option<CaptureInfo>, MalformedNesting>)
        requires
            old(self).wf(),
        ensures
            final(self).wf(),
            final(self).text_len_spec() == old(self).text_len_spec(),
            ({
                let (segs, ok) = old(self).sweep_state();
                match r {
                    Ok(seg_opt) => match seg_opt {
                        Some(seg) => segs.len() > 0 && seg == segs[0]
                            && final(self).sweep_state().0 == segs.drop_first()
                            && final(self).sweep_state().1 == ok,
                        None => segs.len() == 0 && ok
                            && final(self).sweep_state() == old(self).sweep_state(),
                    },
                    Err(_) => segs.len() == 0 && !ok,
                }
            }),
    {
        loop
            invariant
                self.wf(),
                self.text_len == old(self).text_len,
                self.sweep_state() == old(self).sweep_state(),
            decreases self.items@.len() - self.idx,
        {
            let ghost pre = *self;
            if self.idx < self.items.len() {
                let ep = self.items[self.idx];
                self.idx = self.idx + 1;
                let top: Option<usize> = if self.groups.len() == 0 {
                    None
                } else {
                    Some(self.groups[self.groups.len() - 1])
                };
                proof {
                    assert(pre.remaining()[0] == ep);
                    assert(top == stack_top(pre.groups@));
                }
                match ep.etype {
                    EndPointType::Start => {
                        self.groups.push(ep.group);
                    },
                    EndPointType::End => {
                        let top_matches: bool = match top {
                            Some(g) => g == ep.group,
                            None => false,
                        };
                        if !top_matches {
                            proof {
                                assert(pre.sweep_state() == (Seq::<CaptureInfo>::empty(), false));
                            }
                            return Err(MalformedNesting);
                        }
                        self.groups.pop();
                    },
                }
                proof {
                    assert(self.remaining() =~= pre.remaining().drop_first());
                    assert(self.groups@ == if ep.etype is Start {
                        pre.groups@.push(ep.group)
                    } else {
                        pre.groups@.drop_last()
                    });
                }
                if self.pos != ep.pos {
                    let prev = self.pos;
                    self.pos = ep.pos;
                    match self.pending {
                        None => {
                            self.pending = Some((prev, top));
                            proof {
                                assert(self.sweep_state() == pre.sweep_state());
                            }
                        },
                        Some((start, tag)) => {
                            let same_tag: bool = match (tag, top) {
                                (Some(x), Some(y)) => x == y,
                                (None, None) => true,
                                _ => false,
                            };
                            if same_tag {
                                proof {
                                    assert(tag == top);
                                    assert(self.sweep_state() == pre.sweep_state());
                                }
                                // The new span extends the accumulated segment.
                            } else {
                                let seg = CaptureInfo { group: tag, range: (start, prev) };
                                self.pending = Some((prev, top));
                                proof {
                                    assert(tag != top);
                                    let rest = self.sweep_state();
                                    assert(pre.sweep_state() == (seq![seg] + rest.0, rest.1));
                                    assert((seq![seg] + rest.0)[0] == seg);
                                    assert((seq![seg] + rest.0).drop_first() =~= rest.0);
                                }
                                return Ok(Some(seg));
                            }
                        },
                    }
                }
                // Coincident boundary: no span for this event.
            } else {
                if self.pos != self.text_len {
                    match self.pending {
                        None => {
                            let seg = CaptureInfo { group: None, range: (self.pos, self.text_len) };
                            self.pos = self.text_len;
                            proof {
                                assert(pre.remaining().len() == 0);
                                assert(pre.sweep_state() == (seq![seg], true));
                                assert(self.sweep_state() == (Seq::<CaptureInfo>::empty(), true));
                                assert(seq![seg][0] == seg);
                                assert(seq![seg].drop_first() =~= Seq::<CaptureInfo>::empty());
                            }
                            return Ok(Some(seg));
                        },
                        Some((start, tag)) => {
                            let tag_is_none: bool = match tag {
                                None => true,
                                Some(_) => false,
                            };
                            if tag_is_none {
                                // The untagged remainder merges with the
                                // untagged accumulated segment.
                                let seg = CaptureInfo { group: None, range: (start, self.text_len) };
                                self.pos = self.text_len;
                                self.pending = None;
                                proof {
                                    assert(pre.remaining().len() == 0);
                                    assert(pre.sweep_state() == (seq![seg], true));
                                    assert(self.sweep_state() == (Seq::<CaptureInfo>::empty(), true));
                                    assert(seq![seg][0] == seg);
                                    assert(seq![seg].drop_first() =~= Seq::<CaptureInfo>::empty());
                                }
                                return Ok(Some(seg));
                            } else {
                                let seg = CaptureInfo { group: tag, range: (start, self.pos) };
                                self.pending = None;
                                proof {
                                    assert(pre.remaining().len() == 0);
                                    let tail = CaptureInfo {
                                        group: None,
                                        range: (self.pos, self.text_len),
                                    };
                                    assert(pre.sweep_state() == (seq![seg, tail], true));
                                    assert(self.sweep_state() == (seq![tail], true));
                                    assert(seq![seg, tail][0] == seg);
                                    assert(seq![seg, tail].drop_first() =~= seq![tail]);
                                }
                                return Ok(Some(seg));
                            }
                        },
                    }
                } else {
                    match self.pending {
                        None => {
                            proof {
                                assert(pre.remaining().len() == 0);
                                assert(pre.sweep_state() == (Seq::<CaptureInfo>::empty(), true));
                            }
                            return Ok(None);
                        },
                        Some((start, tag)) => {
                            let seg = CaptureInfo { group: tag, range: (start, self.pos) };
                            self.pending = None;
                            proof {
                                assert(pre.remaining().len() == 0);
                                assert(pre.sweep_state() == (seq![seg], true));
                                assert(self.sweep_state() == (Seq::<CaptureInfo>::empty(), true));
                                assert(seq![seg][0] == seg);
                                assert(seq![seg].drop_first() =~= Seq::<CaptureInfo>::empty());
                            }
                            return Ok(Some(seg));
                        },
                    }
                }
            }
        }
    }

    /// Emits all remaining segments in order, or the error if the sweep
    /// stops at a malformed close event (no partial output is returned).
    pub fn collect_all(&mut self) -> (r: Result<Vec<CaptureInfo>, MalformedNesting>)
        requires
            old(self).wf(),
        ensures
            ({
                let (segs, ok) = old(self).sweep_state();
                match r {
                    Ok(v) => ok && v@ == segs,
                    Err(_) => !ok,
                }
            }),
    {
        let mut out: Vec<CaptureInfo> = Vec::new();
        loop
            invariant
                self.wf(),
                self.sweep_state().1 == old(self).sweep_state().1,
                out@ + self.sweep_state().0 == old(self).sweep_state().0,
            decreases self.sweep_state().0.len(),
        {
            let ghost pre_out = out@;
            let ghost pre_segs = self.sweep_state().0;
            match self.next() {
                Ok(Some(seg)) => {
                    out.push(seg);
                    proof {
                        assert(out@ + self.sweep_state().0 =~= pre_out + pre_segs);
                    }
                },
                Ok(None) => {
                    proof {
                        assert(out@ + self.sweep_state().0 =~= out@);
                    }
                    return Ok(out);
                },
                Err(e) => {
                    return Err(e);
                },
            }
        }
    }
}

/// Flattens the given records over `[0, text_len)` in one call: the ordered
/// segment partition, or the malformed-nesting error.
pub fn flatten_captures(citems: Vec<InputCaptureInfo>, text_len: usize) -> (r: Result<
    Vec<CaptureInfo>,
    MalformedNesting,
>)
    ensures
        ({
            let (segs, ok) = flatten_spec(citems@, text_len);
            match r {
                Ok(v) => ok && v@ == segs,
                Err(_) => !ok,
            }
        }),
{
    let mut filler = CaptureInfoFillIter::new(citems, text_len);
    filler.collect_all()
}

} // verus!
