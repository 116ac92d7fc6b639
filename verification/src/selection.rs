//! Selections: a range of byte offsets with the end the cursor sits at.

use vstd::prelude::*;

verus! {

/// A selection of the byte range `start..end`; `reversed` puts the cursor (the head) at
/// `start` and the anchor (the tail) at `end`, otherwise the other way round.
#[derive(Clone, Copy, Debug, PartialEq, Eq, Structural)]
pub struct EditorSelection {
    pub start: u64,
    pub end: u64,
    pub reversed: bool,
}

/// The offset the cursor of `selection` sits at, cut to `usize`.
pub open spec fn head_of(selection: EditorSelection) -> usize {
    if selection.reversed {
        selection.start as usize
    } else {
        selection.end as usize
    }
}

/// The offset the anchor of `selection` sits at, cut to `usize`.
pub open spec fn tail_of(selection: EditorSelection) -> usize {
    if selection.reversed {
        selection.end as usize
    } else {
        selection.start as usize
    }
}

/// The selection from anchor `tail` to cursor `head`.
pub open spec fn selection_between(tail: usize, head: usize) -> EditorSelection {
    if head < tail {
        EditorSelection { start: head as u64, end: tail as u64, reversed: true }
    } else {
        EditorSelection { start: tail as u64, end: head as u64, reversed: false }
    }
}

/// An empty selection, a bare cursor, at `offset`.
pub open spec fn cursor_at(offset: u64) -> EditorSelection {
    EditorSelection { start: offset, end: offset, reversed: false }
}

/// The offset the cursor of `selection` sits at.
pub fn selection_head(selection: EditorSelection) -> (head: usize)
    ensures
        head == head_of(selection),
{
    if selection.reversed {
        selection.start as usize
    } else {
        selection.end as usize
    }
}

/// The offset the anchor of `selection` sits at.
pub fn selection_tail(selection: EditorSelection) -> (tail: usize)
    ensures
        tail == tail_of(selection),
{
    if selection.reversed {
        selection.end as usize
    } else {
        selection.start as usize
    }
}

/// The selection from anchor `tail` to cursor `head`.
pub fn selection_from_tail_and_head(tail: usize, head: usize) -> (selection: EditorSelection)
    ensures
        selection == selection_between(tail, head),
{
    if head < tail {
        EditorSelection { start: head as u64, end: tail as u64, reversed: true }
    } else {
        EditorSelection { start: tail as u64, end: head as u64, reversed: false }
    }
}

/// The range between two offsets, the smaller one first.
pub fn cmp_range(start: usize, end: usize) -> (range: core::ops::Range<usize>)
    ensures
        start <= end ==> range.start == start && range.end == end,
        end < start ==> range.start == end && range.end == start,
{
    if start <= end {
        core::ops::Range { start: start, end: end }
    } else {
        core::ops::Range { start: end, end: start }
    }
}

/// A reversed selection has its cursor at its start and its anchor at its end; any other
/// has its cursor at its end and its anchor at its start.
pub proof fn law_cursor_and_anchor_ends(selection: EditorSelection)
    requires
        selection.start <= usize::MAX,
        selection.end <= usize::MAX,
    ensures
        selection.reversed ==> head_of(selection) == selection.start && tail_of(selection)
            == selection.end,
        !selection.reversed ==> head_of(selection) == selection.end && tail_of(selection)
            == selection.start,
{
}

/// The anchor and the cursor of a selection made from them are those it was made from.
pub proof fn law_tail_and_head_round_trip(tail: usize, head: usize)
    ensures
        head_of(selection_between(tail, head)) == head,
        tail_of(selection_between(tail, head)) == tail,
{
}

} // verus!
