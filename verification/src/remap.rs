//! Edits of a text and where an offset of the old text lands in the edited one.

use vstd::prelude::*;
use vstd::multiset::Multiset;
use crate::error::NavigationError;
use crate::text::{text_bytes, text_len};

verus! {

/// A byte range `start..end` of a text.
#[derive(Clone, Copy, Debug, PartialEq, Eq, Structural)]
pub struct TextRange {
    pub start: u32,
    pub end: u32,
}

/// The replacement of the bytes in `range` by `new_text`.
#[derive(Debug)]
pub struct EditorEdit {
    pub range: TextRange,
    pub new_text: String,
}

/// What remapping reads of an edit: where its range starts and ends, and how many bytes
/// replace it.
#[derive(Clone, Copy, Debug, PartialEq, Eq, Structural)]
pub struct EditSpan {
    pub start: u64,
    pub end: u64,
    pub new_len: usize,
}

/// The span of an edit.
pub open spec fn span_of(edit: EditorEdit) -> EditSpan {
    EditSpan {
        start: edit.range.start as u64,
        end: edit.range.end as u64,
        new_len: text_bytes(edit.new_text@).len() as usize,
    }
}

/// The spans of a sequence of edits, in order.
pub open spec fn spans_of(edits: Seq<EditorEdit>) -> Seq<EditSpan> {
    edits.map_values(|edit: EditorEdit| span_of(edit))
}

/// `sorted` with `span` placed after every span that starts no later than it.
pub open spec fn insert_by_start(sorted: Seq<EditSpan>, span: EditSpan) -> Seq<EditSpan>
    decreases sorted.len(),
{
    if sorted.len() == 0 {
        seq![span]
    } else if sorted.last().start <= span.start {
        sorted.push(span)
    } else {
        insert_by_start(sorted.drop_last(), span).push(sorted.last())
    }
}

/// The spans ordered by start; spans with equal starts keep their order (a stable sort).
pub open spec fn sort_by_start(spans: Seq<EditSpan>) -> Seq<EditSpan>
    decreases spans.len(),
{
    if spans.len() == 0 {
        seq![]
    } else {
        insert_by_start(sort_by_start(spans.drop_last()), spans.last())
    }
}

/// `offset` moved by `delta`, or why it cannot be.
pub open spec fn apply_delta_of(offset: u64, delta: i64) -> Result<u64, NavigationError> {
    let moved = offset + delta;
    if delta >= 0 {
        if moved <= u64::MAX {
            Ok(moved as u64)
        } else {
            Err(NavigationError::OffsetOverflow)
        }
    } else {
        if moved >= 0 {
            Ok(moved as u64)
        } else {
            Err(NavigationError::OffsetUnderflow)
        }
    }
}

/// Where `offset` lands once the edits of `spans` (ordered by start) are applied, with
/// `delta` the change in length made by the edits before them. The walk stops at the
/// first edit that starts after `offset`. An offset at an edit's start stays at its start;
/// one inside an edit's range goes to the end of its replacement.
pub open spec fn remap_through(offset: u64, spans: Seq<EditSpan>, delta: i64) -> Result<
    u64,
    NavigationError,
>
    decreases spans.len(),
{
    if spans.len() == 0 {
        apply_delta_of(offset, delta)
    } else {
        let span = spans[0];
        if offset < span.start {
            apply_delta_of(offset, delta)
        } else if span.end < span.start {
            Err(NavigationError::EditRangeReversed)
        } else if offset == span.start {
            apply_delta_of(span.start, delta)
        } else if offset < span.end {
            if span.start + span.new_len > u64::MAX {
                Err(NavigationError::OffsetOverflow)
            } else {
                apply_delta_of((span.start + span.new_len) as u64, delta)
            }
        } else if span.new_len > i64::MAX {
            Err(NavigationError::ReplacementTooLongForI64)
        } else if span.end - span.start > i64::MAX {
            Err(NavigationError::RangeTooLongForI64)
        } else {
            let next_delta = delta + (span.new_len - (span.end - span.start));
            if next_delta < i64::MIN || next_delta > i64::MAX {
                Err(NavigationError::DeltaOverflow)
            } else {
                remap_through(offset, spans.drop_first(), next_delta as i64)
            }
        }
    }
}

/// Where `offset` lands once `edits` are applied.
pub open spec fn remap_offset_of(offset: u64, edits: Seq<EditorEdit>) -> Result<u64, NavigationError> {
    remap_through(offset, sort_by_start(spans_of(edits)), 0)
}

/// Inserting keeps every span and adds the inserted one.
proof fn lemma_insert_contents(sorted: Seq<EditSpan>, span: EditSpan)
    ensures
        insert_by_start(sorted, span).to_multiset() =~= sorted.to_multiset().insert(span),
        insert_by_start(sorted, span).len() == sorted.len() + 1,
    decreases sorted.len(),
{
    broadcast use vstd::seq_lib::group_to_multiset_ensures;

    if sorted.len() == 0 {
        assert(seq![span] =~= Seq::<EditSpan>::empty().push(span));
    } else if sorted.last().start <= span.start {
    } else {
        lemma_insert_contents(sorted.drop_last(), span);
        assert(sorted =~= sorted.drop_last().push(sorted.last()));
    }
}

/// Inserting into spans ordered by start keeps them ordered.
proof fn lemma_insert_ordered(sorted: Seq<EditSpan>, span: EditSpan)
    requires
        forall|i: int, j: int| 0 <= i < j < sorted.len() ==> sorted[i].start <= sorted[j].start,
    ensures
        ({
            let inserted = insert_by_start(sorted, span);
            forall|i: int, j: int|
                0 <= i < j < inserted.len() ==> inserted[i].start <= inserted[j].start
        }),
        forall|i: int|
            0 <= i < insert_by_start(sorted, span).len() ==> {
                let x = #[trigger] insert_by_start(sorted, span)[i];
                x == span || sorted.contains(x)
            },
    decreases sorted.len(),
{
    lemma_insert_contents(sorted, span);
    if sorted.len() == 0 {
    } else if sorted.last().start <= span.start {
    } else {
        let rest = sorted.drop_last();
        lemma_insert_ordered(rest, span);
        let inner = insert_by_start(rest, span);
        assert forall|i: int| 0 <= i < inner.len() implies inner[i].start <= sorted.last().start by {
            let x = inner[i];
            if x != span {
                assert(rest.contains(x));
                let k = choose|k: int| 0 <= k < rest.len() && rest[k] == x;
                assert(sorted[k] == x);
            }
        }
        assert forall|i: int|
            0 <= i < insert_by_start(sorted, span).len() implies {
                let x = #[trigger] insert_by_start(sorted, span)[i];
                x == span || sorted.contains(x)
            } by {
            let x = insert_by_start(sorted, span)[i];
            if i < inner.len() {
                if x != span {
                    let k = choose|k: int| 0 <= k < rest.len() && rest[k] == x;
                    assert(sorted[k] == x);
                }
            } else {
                assert(sorted[sorted.len() - 1] == x);
            }
        }
    }
}

/// Sorting by start orders the spans by start and keeps exactly the spans it was given.
pub proof fn law_sort_orders_by_start(spans: Seq<EditSpan>)
    ensures
        sort_by_start(spans).to_multiset() =~= spans.to_multiset(),
        sort_by_start(spans).len() == spans.len(),
        forall|i: int, j: int|
            0 <= i < j < sort_by_start(spans).len() ==> sort_by_start(spans)[i].start
                <= sort_by_start(spans)[j].start,
    decreases spans.len(),
{
    broadcast use vstd::seq_lib::group_to_multiset_ensures;

    if spans.len() > 0 {
        law_sort_orders_by_start(spans.drop_last());
        lemma_insert_contents(sort_by_start(spans.drop_last()), spans.last());
        lemma_insert_ordered(sort_by_start(spans.drop_last()), spans.last());
        assert(spans =~= spans.drop_last().push(spans.last()));
    }
}

/// Spans already ordered by start are left as they are.
pub proof fn lemma_sort_keeps_ordered(spans: Seq<EditSpan>)
    requires
        forall|i: int, j: int| 0 <= i < j < spans.len() ==> spans[i].start <= spans[j].start,
    ensures
        sort_by_start(spans) == spans,
    decreases spans.len(),
{
    if spans.len() > 0 {
        let rest = spans.drop_last();
        lemma_sort_keeps_ordered(rest);
        if rest.len() == 0 {
            assert(seq![spans.last()] =~= spans);
        } else {
            assert(rest.last().start <= spans.last().start);
            assert(rest.push(spans.last()) =~= spans);
        }
    }
}

/// With no edits an offset stays where it is.
pub proof fn law_remap_without_edits(offset: u64)
    ensures
        remap_offset_of(offset, Seq::<EditorEdit>::empty()) == Ok::<u64, NavigationError>(offset),
{
    assert(spans_of(Seq::<EditorEdit>::empty()) =~= Seq::<EditSpan>::empty());
}

/// An offset before the start of every edit stays where it is.
pub proof fn law_remap_before_edits(offset: u64, edits: Seq<EditorEdit>)
    requires
        forall|i: int| 0 <= i < edits.len() ==> offset < (#[trigger] edits[i]).range.start,
    ensures
        remap_offset_of(offset, edits) == Ok::<u64, NavigationError>(offset),
{
    broadcast use vstd::seq_lib::group_to_multiset_ensures;

    let spans = spans_of(edits);
    let sorted = sort_by_start(spans);
    law_sort_orders_by_start(spans);
    if sorted.len() > 0 {
        assert(sorted.to_multiset().count(sorted[0]) > 0);
        assert(spans.contains(sorted[0]));
        let k = choose|k: int| 0 <= k < spans.len() && spans[k] == sorted[0];
        assert(spans[k] == span_of(edits[k]));
    }
}

/// Edits that hold the same edits, counted with multiplicity, have the same spans.
proof fn lemma_spans_same_multiset(a: Seq<EditorEdit>, b: Seq<EditorEdit>)
    requires
        a.to_multiset() =~= b.to_multiset(),
    ensures
        spans_of(a).to_multiset() =~= spans_of(b).to_multiset(),
    decreases a.len(),
{
    broadcast use vstd::seq_lib::group_to_multiset_ensures;

    assert(a.to_multiset().len() == a.len());
    assert(b.to_multiset().len() == b.len());
    if a.len() == 0 {
        assert(b.len() == 0);
        assert(spans_of(a) =~= Seq::<EditSpan>::empty());
        assert(spans_of(b) =~= Seq::<EditSpan>::empty());
    } else {
        let x = a.last();
        let rest = a.drop_last();
        assert(a =~= rest.push(x));
        assert(b.to_multiset().count(x) > 0);
        assert(b.contains(x));
        let j = choose|j: int| 0 <= j < b.len() && b[j] == x;
        let others = b.remove(j);
        assert(others.to_multiset() =~= b.to_multiset().remove(x));
        assert(rest.to_multiset() =~= a.to_multiset().remove(x));
        lemma_spans_same_multiset(rest, others);
        assert(spans_of(a) =~= spans_of(rest).push(span_of(x)));
        assert(spans_of(others) =~= spans_of(b).remove(j));
        assert(spans_of(b)[j] == span_of(x));
        assert(spans_of(b).to_multiset().count(span_of(x)) > 0);
        assert(spans_of(b).to_multiset() =~= spans_of(others).to_multiset().insert(span_of(x)));
    }
}

/// Within a multiset of spans, spans that start at the same offset are the same span.
pub open spec fn starts_identify(spans: Multiset<EditSpan>) -> bool {
    forall|x: EditSpan, y: EditSpan|
        #[trigger] spans.count(x) > 0 && #[trigger] spans.count(y) > 0 && x.start == y.start
            ==> x == y
}

/// Two orderings by start of the same spans, where spans that start together are the same,
/// are the same sequence.
proof fn lemma_ordered_by_start_unique(a: Seq<EditSpan>, b: Seq<EditSpan>)
    requires
        a.to_multiset() =~= b.to_multiset(),
        starts_identify(a.to_multiset()),
        forall|i: int, j: int| 0 <= i < j < a.len() ==> a[i].start <= a[j].start,
        forall|i: int, j: int| 0 <= i < j < b.len() ==> b[i].start <= b[j].start,
    ensures
        a == b,
    decreases a.len(),
{
    broadcast use vstd::seq_lib::group_to_multiset_ensures;

    assert(a.to_multiset().len() == a.len());
    assert(b.to_multiset().len() == b.len());
    if a.len() == 0 {
        assert(b.len() == 0);
        assert(a =~= b);
    } else {
        assert(b.len() == a.len());
        assert(a.to_multiset().count(a[0]) > 0);
        assert(b.contains(a[0]));
        let j = choose|j: int| 0 <= j < b.len() && b[j] == a[0];
        assert(a.to_multiset().count(b[0]) > 0);
        assert(a.contains(b[0]));
        let i = choose|i: int| 0 <= i < a.len() && a[i] == b[0];
        if i > 0 {
            assert(a[0].start <= a[i].start);
        }
        if j > 0 {
            assert(b[0].start <= b[j].start);
        }
        assert(a[0] == b[0]);
        assert(a.drop_first() =~= a.remove(0));
        assert(b.drop_first() =~= b.remove(0));
        let ms = a.to_multiset().remove(a[0]);
        assert(a.drop_first().to_multiset() =~= ms);
        assert(b.drop_first().to_multiset() =~= ms);
        assert(starts_identify(ms)) by {
            assert forall|x: EditSpan, y: EditSpan|
                #[trigger] ms.count(x) > 0 && #[trigger] ms.count(y) > 0 && x.start == y.start
                    implies x == y by {
                assert(a.to_multiset().count(x) > 0);
                assert(a.to_multiset().count(y) > 0);
            }
        }
        lemma_ordered_by_start_unique(a.drop_first(), b.drop_first());
        assert(a =~= b) by {
            assert forall|k: int| 0 <= k < a.len() implies a[k] == b[k] by {
                if k > 0 {
                    assert(a[k] == a.drop_first()[k - 1]);
                    assert(b[k] == b.drop_first()[k - 1]);
                }
            }
        }
    }
}

/// Where an offset lands does not depend on the order in which the edits are given, when
/// no two edits start at the same offset.
pub proof fn law_remap_ignores_edit_order(
    offset: u64,
    edits: Seq<EditorEdit>,
    reordered: Seq<EditorEdit>,
)
    requires
        reordered.to_multiset() =~= edits.to_multiset(),
        forall|i: int, j: int|
            0 <= i < edits.len() && 0 <= j < edits.len() && i != j ==> (#[trigger] edits[i]).range.start
                != (#[trigger] edits[j]).range.start,
    ensures
        remap_offset_of(offset, reordered) == remap_offset_of(offset, edits),
{
    broadcast use vstd::seq_lib::group_to_multiset_ensures;

    let spans = spans_of(edits);
    lemma_spans_same_multiset(reordered, edits);
    law_sort_orders_by_start(spans);
    law_sort_orders_by_start(spans_of(reordered));
    let ms = spans.to_multiset();
    assert(starts_identify(ms)) by {
        assert forall|x: EditSpan, y: EditSpan|
            #[trigger] ms.count(x) > 0 && #[trigger] ms.count(y) > 0 && x.start == y.start
                implies x == y by {
            assert(spans.contains(x));
            assert(spans.contains(y));
            let p = choose|p: int| 0 <= p < spans.len() && spans[p] == x;
            let q = choose|q: int| 0 <= q < spans.len() && spans[q] == y;
            assert(spans[p] == span_of(edits[p]));
            assert(spans[q] == span_of(edits[q]));
        }
    }
    lemma_ordered_by_start_unique(sort_by_start(spans), sort_by_start(spans_of(reordered)));
}

/// Edits given in order: each range starts no later than it ends, and ends no later than
/// the ranges after it start.
pub open spec fn spans_in_order(spans: Seq<EditSpan>) -> bool {
    &&& forall|i: int| 0 <= i < spans.len() ==> (#[trigger] spans[i]).start <= spans[i].end
    &&& forall|i: int, j: int|
        0 <= i < j < spans.len() ==> (#[trigger] spans[i]).end <= (#[trigger] spans[j]).start
}

/// The change in length made by the first `k` edits.
pub open spec fn length_change(spans: Seq<EditSpan>, k: int) -> int
    decreases k,
{
    if k <= 0 {
        0
    } else {
        length_change(spans, k - 1) + (spans[k - 1].new_len - (spans[k - 1].end - spans[k - 1].start))
    }
}

/// Where `offset` lands among edits given in order, of which the first `k` start before
/// it: inside the `k`-th edit's range, at the end of its replacement moved by the change
/// of the edits before it; otherwise moved by the change of all `k` edits.
pub open spec fn remap_in_order_of(offset: u64, spans: Seq<EditSpan>, k: int) -> Result<
    u64,
    NavigationError,
> {
    if k > 0 && offset < spans[k - 1].end {
        let span = spans[k - 1];
        if span.start + span.new_len > u64::MAX {
            Err(NavigationError::OffsetOverflow)
        } else {
            apply_delta_of((span.start + span.new_len) as u64, length_change(spans, k - 1) as i64)
        }
    } else {
        apply_delta_of(offset, length_change(spans, k) as i64)
    }
}

/// The walk over ordered edits from the `j`-th one on, with the change so far, gives the
/// closed form.
proof fn lemma_walk_in_order(offset: u64, spans: Seq<EditSpan>, k: int, j: int)
    requires
        spans_in_order(spans),
        0 <= k <= spans.len(),
        forall|i: int| 0 <= i < k ==> (#[trigger] spans[i]).start < offset,
        forall|i: int| k <= i < spans.len() ==> offset <= (#[trigger] spans[i]).start,
        forall|i: int|
            0 <= i < k && (#[trigger] spans[i]).end <= offset ==> spans[i].new_len <= i64::MAX
                && i64::MIN <= length_change(spans, i + 1) <= i64::MAX,
        forall|i: int| 0 <= i < k ==> (#[trigger] spans[i]).end - spans[i].start <= i64::MAX,
        0 <= j <= k,
        j < k ==> spans[j].end <= offset || j == k - 1,
        j == k && k > 0 ==> spans[k - 1].end <= offset,
        i64::MIN <= length_change(spans, j) <= i64::MAX,
    ensures
        remap_through(offset, spans.skip(j), length_change(spans, j) as i64) == remap_in_order_of(
            offset,
            spans,
            k,
        ),
    decreases k - j,
{
    let rest = spans.skip(j);
    if j == k {
        if k < spans.len() {
            assert(rest[0] == spans[k]);
        }
    } else {
        assert(rest[0] == spans[j]);
        if j < k - 1 {
            assert(spans[j].end <= spans[k - 1].start);
        }
        if offset >= spans[j].end {
            assert(rest.drop_first() =~= spans.skip(j + 1));
            if j + 1 < k {
                if j + 1 < k - 1 {
                    assert(spans[j + 1].end <= spans[k - 1].start);
                }
            }
            lemma_walk_in_order(offset, spans, k, j + 1);
        }
    }
}

/// Among edits given in order, an offset strictly inside an edit's range lands at the end
/// of its replacement, and any other offset keeps its place; either is then moved by the
/// change in length of the edits wholly before it. `k` counts the edits that start before
/// the offset.
pub proof fn law_remap_in_order(offset: u64, edits: Seq<EditorEdit>, k: int)
    requires
        spans_in_order(spans_of(edits)),
        0 <= k <= edits.len(),
        forall|i: int| 0 <= i < k ==> (#[trigger] edits[i]).range.start < offset,
        forall|i: int| k <= i < edits.len() ==> offset <= (#[trigger] edits[i]).range.start,
        forall|i: int|
            0 <= i < k && (#[trigger] edits[i]).range.end <= offset ==> span_of(edits[i]).new_len
                <= i64::MAX && i64::MIN <= length_change(spans_of(edits), i + 1) <= i64::MAX,
    ensures
        remap_offset_of(offset, edits) == remap_in_order_of(offset, spans_of(edits), k),
{
    let spans = spans_of(edits);
    assert forall|i: int, j: int| 0 <= i < j < spans.len() implies spans[i].start
        <= spans[j].start by {
        assert(spans[i].start <= spans[i].end);
        assert(spans[i].end <= spans[j].start);
    }
    lemma_sort_keeps_ordered(spans);
    assert(spans.skip(0) =~= spans);
    assert forall|i: int| 0 <= i < k implies (#[trigger] spans[i]).start < offset by {
        assert(spans[i] == span_of(edits[i]));
    }
    assert forall|i: int| k <= i < spans.len() implies offset <= (#[trigger] spans[i]).start by {
        assert(spans[i] == span_of(edits[i]));
    }
    assert forall|i: int|
        0 <= i < k && (#[trigger] spans[i]).end <= offset implies spans[i].new_len <= i64::MAX
            && i64::MIN <= length_change(spans, i + 1) <= i64::MAX by {
        assert(spans[i] == span_of(edits[i]));
    }
    assert forall|i: int| 0 <= i < k implies (#[trigger] spans[i]).end - spans[i].start
        <= i64::MAX by {
        assert(spans[i] == span_of(edits[i]));
    }
    if 0 < k {
        if k > 1 {
            assert(spans[0].end <= spans[k - 1].start);
        }
    }
    lemma_walk_in_order(offset, spans, k, 0);
}

/// `offset` moved by `delta`, or why it cannot be.
pub fn apply_delta(offset: u64, delta: i64) -> (r: Result<u64, NavigationError>)
    ensures
        r == apply_delta_of(offset, delta),
{
    if delta >= 0 {
        match offset.checked_add(delta as u64) {
            Some(moved) => Ok(moved),
            None => Err(NavigationError::OffsetOverflow),
        }
    } else {
        let magnitude: u64 = (-(delta + 1)) as u64 + 1;
        match offset.checked_sub(magnitude) {
            Some(moved) => Ok(moved),
            None => Err(NavigationError::OffsetUnderflow),
        }
    }
}

/// A length as an `i64`, when it fits.
fn signed_length(len: u64) -> (r: Option<i64>)
    ensures
        len <= i64::MAX ==> r == Some(len as i64),
        len > i64::MAX ==> r is None,
{
    if len <= 0x7fff_ffff_ffff_ffff {
        Some(len as i64)
    } else {
        None
    }
}

/// The span of an edit.
fn edit_span(edit: &EditorEdit) -> (span: EditSpan)
    ensures
        span == span_of(*edit),
{
    EditSpan {
        start: edit.range.start as u64,
        end: edit.range.end as u64,
        new_len: text_len(edit.new_text.as_str()),
    }
}

/// The spans ordered by start, keeping the order of equal starts.
fn sort_spans_by_start(spans: &Vec<EditSpan>) -> (sorted: Vec<EditSpan>)
    ensures
        sorted@ == sort_by_start(spans@),
{
    let mut sorted: Vec<EditSpan> = Vec::new();
    let mut i: usize = 0;
    while i < spans.len()
        invariant
            i <= spans.len(),
            sorted@ == sort_by_start(spans@.take(i as int)),
        decreases spans.len() - i,
    {
        let span = spans[i];
        let mut position = sorted.len();
        proof {
            assert(sorted@.take(position as int) =~= sorted@);
            assert(sorted@.skip(position as int) =~= Seq::<EditSpan>::empty());
        }
        while position > 0 && sorted[position - 1].start > span.start
            invariant
                position <= sorted.len(),
                insert_by_start(sorted@, span) == insert_by_start(
                    sorted@.take(position as int),
                    span,
                ) + sorted@.skip(position as int),
            decreases position,
        {
            proof {
                let before = sorted@.take(position as int);
                assert(before.drop_last() =~= sorted@.take(position - 1));
                assert(sorted@.skip(position - 1) =~= seq![before.last()] + sorted@.skip(
                    position as int,
                ));
                assert(insert_by_start(before, span) == insert_by_start(
                    before.drop_last(),
                    span,
                ).push(before.last()));
                assert(insert_by_start(sorted@.take(position - 1), span).push(before.last())
                    + sorted@.skip(position as int) =~= insert_by_start(
                    sorted@.take(position - 1),
                    span,
                ) + sorted@.skip(position - 1));
            }
            position = position - 1;
        }
        proof {
            assert(spans@.take(i + 1).drop_last() =~= spans@.take(i as int));
            assert(spans@.take(i + 1).last() == span);
            let before = sorted@.take(position as int);
            if position == 0 {
                assert(insert_by_start(before, span) =~= seq![span]);
            } else {
                assert(insert_by_start(before, span) == before.push(span));
            }
            assert(insert_by_start(before, span) + sorted@.skip(position as int) =~= sorted@.insert(
                position as int,
                span,
            ));
        }
        sorted.insert(position, span);
        i = i + 1;
    }
    proof {
        assert(spans@.take(spans.len() as int) =~= spans@);
    }
    sorted
}

/// Where `offset` lands once `edits` are applied (see `remap_through`).
pub fn remap_offset(offset: u64, edits: &[EditorEdit]) -> (r: Result<u64, NavigationError>)
    ensures
        r == remap_offset_of(offset, edits@),
{
    let mut spans: Vec<EditSpan> = Vec::new();
    let mut k: usize = 0;
    while k < edits.len()
        invariant
            k <= edits.len(),
            spans@ =~= spans_of(edits@.take(k as int)),
        decreases edits.len() - k,
    {
        spans.push(edit_span(&edits[k]));
        k = k + 1;
        proof {
            assert(edits@.take(k as int) =~= edits@.take(k - 1).push(edits@[k - 1]));
        }
    }
    proof {
        assert(edits@.take(edits.len() as int) =~= edits@);
    }
    let sorted = sort_spans_by_start(&spans);

    let mut delta: i64 = 0;
    let mut i: usize = 0;
    proof {
        assert(sorted@.skip(0) =~= sorted@);
    }
    while i < sorted.len()
        invariant
            i <= sorted.len(),
            sorted@ == sort_by_start(spans_of(edits@)),
            remap_offset_of(offset, edits@) == remap_through(offset, sorted@.skip(i as int), delta),
        ensures
            remap_offset_of(offset, edits@) == apply_delta_of(offset, delta),
        decreases sorted.len() - i,
    {
        let span = sorted[i];
        proof {
            assert(sorted@.skip(i as int)[0] == span);
            assert(sorted@.skip(i as int).drop_first() =~= sorted@.skip(i + 1));
        }
        if offset < span.start {
            break;
        }
        let old_len = match span.end.checked_sub(span.start) {
            Some(len) => len,
            None => {
                return Err(NavigationError::EditRangeReversed);
            },
        };
        let new_len = match u64::try_from(span.new_len) {
            Ok(len) => len,
            Err(_) => {
                return Err(NavigationError::ReplacementTooLongForU64);
            },
        };
        if offset == span.start {
            return apply_delta(span.start, delta);
        }
        if offset < span.end {
            let mapped = match span.start.checked_add(new_len) {
                Some(mapped) => mapped,
                None => {
                    return Err(NavigationError::OffsetOverflow);
                },
            };
            return apply_delta(mapped, delta);
        }
        let new_len_signed = match signed_length(new_len) {
            Some(len) => len,
            None => {
                return Err(NavigationError::ReplacementTooLongForI64);
            },
        };
        let old_len_signed = match signed_length(old_len) {
            Some(len) => len,
            None => {
                return Err(NavigationError::RangeTooLongForI64);
            },
        };
        delta = match delta.checked_add(new_len_signed - old_len_signed) {
            Some(next) => next,
            None => {
                return Err(NavigationError::DeltaOverflow);
            },
        };
        i = i + 1;
    }
    apply_delta(offset, delta)
}

} // verus!
