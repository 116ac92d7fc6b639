//! The editor commands: moving, extending and deleting by subwords.

use vstd::prelude::*;
use crate::boundary::{Direction, next_boundary, next_boundary_of, validate_offset};
use crate::error::NavigationError;
use crate::remap::{
    EditSpan, EditorEdit, TextRange, insert_by_start, lemma_sort_keeps_ordered, remap_offset,
    remap_through, sort_by_start, span_of, spans_of,
};
use crate::selection::{
    EditorSelection, cmp_range, cursor_at, head_of, selection_between, selection_from_tail_and_head,
    selection_head, selection_tail, tail_of,
};
use crate::text::{is_char_boundary_at, text_bytes, text_eq};

verus! {

/// Whether a move drops the selection or extends it from its anchor.
#[derive(Clone, Copy, Debug, PartialEq, Eq, Structural)]
pub enum SelectionMode {
    Move,
    Select,
}

/// The text of the editor and its selections.
#[derive(Debug)]
pub struct EditorCommandContext {
    pub text: String,
    pub selections: Vec<EditorSelection>,
    pub language: Option<String>,
    pub path: Option<String>,
}

/// What a command asks the editor to do: edits to apply, then selections to set.
#[derive(Debug)]
pub struct EditorCommandResult {
    pub edits: Vec<EditorEdit>,
    pub selections: Option<Vec<EditorSelection>>,
}

/// Where `selection` goes when its cursor moves by a subword in `direction`.
pub open spec fn moved_selection(
    text: Seq<char>,
    selection: EditorSelection,
    direction: Direction,
    mode: SelectionMode,
) -> EditorSelection {
    let boundary = next_boundary_of(text, head_of(selection) as int, direction) as usize;
    match mode {
        SelectionMode::Move => cursor_at(boundary as u64),
        SelectionMode::Select => selection_between(tail_of(selection), boundary),
    }
}

/// `result` is what moving `selections` by a subword in `direction` gives: it fails when
/// a cursor is not at a char boundary, and otherwise moves every selection and edits
/// nothing.
pub open spec fn is_move_outcome(
    text: Seq<char>,
    selections: Seq<EditorSelection>,
    direction: Direction,
    mode: SelectionMode,
    result: Result<EditorCommandResult, NavigationError>,
) -> bool {
    let valid = forall|i: int|
        0 <= i < selections.len() ==> is_char_boundary_at(text, #[trigger] head_of(selections[i]) as int);
    match result {
        Ok(r) => {
            &&& valid
            &&& r.edits@.len() == 0
            &&& r.selections matches Some(moved) && moved@.len() == selections.len() && forall|i: int|
                0 <= i < selections.len() ==> #[trigger] moved@[i] == moved_selection(
                    text,
                    selections[i],
                    direction,
                    mode,
                )
        },
        Err(e) => !valid && e == NavigationError::InvalidOffset,
    }
}

/// A move drops the selection: it leaves a bare cursor at the boundary it moved to.
pub proof fn law_move_leaves_cursor(text: Seq<char>, selection: EditorSelection, direction: Direction)
    ensures
        ({
            let moved = moved_selection(text, selection, direction, SelectionMode::Move);
            &&& moved.start == moved.end
            &&& !moved.reversed
            &&& head_of(moved) == next_boundary_of(text, head_of(selection) as int, direction) as usize
        }),
{
}

/// Extending a selection moves its cursor and keeps its anchor.
pub proof fn law_select_keeps_anchor(
    text: Seq<char>,
    selection: EditorSelection,
    direction: Direction,
)
    ensures
        ({
            let moved = moved_selection(text, selection, direction, SelectionMode::Select);
            &&& tail_of(moved) == tail_of(selection)
            &&& head_of(moved) == next_boundary_of(text, head_of(selection) as int, direction) as usize
        }),
{
    crate::selection::law_tail_and_head_round_trip(
        tail_of(selection),
        next_boundary_of(text, head_of(selection) as int, direction) as usize,
    );
}

/// Moves the cursor of every selection to the next subword boundary in `direction`; in
/// `Select` mode the anchor stays where it was.
pub fn move_subword(
    context: &EditorCommandContext,
    direction: Direction,
    mode: SelectionMode,
) -> (r: Result<EditorCommandResult, NavigationError>)
    ensures
        is_move_outcome(context.text@, context.selections@, direction, mode, r),
        r matches Ok(result) ==> result.selections matches Some(moved) && forall|i: int|
            0 <= i < moved@.len() ==> is_char_boundary_at(
                context.text@,
                #[trigger] head_of(moved@[i]) as int,
            ),
{
    let text = context.text.as_str();
    let mut selections: Vec<EditorSelection> = Vec::new();
    let mut i: usize = 0;
    while i < context.selections.len()
        invariant
            i <= context.selections.len(),
            text@ == context.text@,
            selections@.len() == i,
            forall|k: int|
                0 <= k < i ==> is_char_boundary_at(
                    text@,
                    #[trigger] head_of(context.selections@[k]) as int,
                ),
            forall|k: int|
                0 <= k < i ==> #[trigger] selections@[k] == moved_selection(
                    text@,
                    context.selections@[k],
                    direction,
                    mode,
                ),
            forall|k: int|
                0 <= k < i ==> is_char_boundary_at(text@, #[trigger] head_of(selections@[k]) as int),
        decreases context.selections.len() - i,
    {
        let selection = context.selections[i];
        let head = selection_head(selection);
        let boundary = match next_boundary(text, head, direction) {
            Ok(boundary) => boundary,
            Err(e) => {
                return Err(e);
            },
        };
        let moved = match mode {
            SelectionMode::Move => EditorSelection {
                start: boundary as u64,
                end: boundary as u64,
                reversed: false,
            },
            SelectionMode::Select => selection_from_tail_and_head(
                selection_tail(selection),
                boundary,
            ),
        };
        selections.push(moved);
        i = i + 1;
    }
    Ok(EditorCommandResult { edits: Vec::new(), selections: Some(selections) })
}

/// The values of `results` in order, or the first error among them.
pub open spec fn collect_results<T>(results: Seq<Result<T, NavigationError>>) -> Result<
    Seq<T>,
    NavigationError,
>
    decreases results.len(),
{
    if results.len() == 0 {
        Ok(seq![])
    } else {
        match collect_results(results.drop_last()) {
            Err(e) => Err(e),
            Ok(values) => match results.last() {
                Err(e) => Err(e),
                Ok(value) => Ok(values.push(value)),
            },
        }
    }
}

/// Collecting one more result after a prefix.
pub proof fn lemma_collect_step<T>(results: Seq<Result<T, NavigationError>>, i: int)
    requires
        0 <= i < results.len(),
    ensures
        collect_results(results.take(i + 1)) == match collect_results(results.take(i)) {
            Err(e) => Err(e),
            Ok(values) => match results[i] {
                Err(e) => Err(e),
                Ok(value) => Ok(values.push(value)),
            },
        },
{
    assert(results.take(i + 1).drop_last() =~= results.take(i));
}

/// An error among the first results is the error of them all.
pub proof fn lemma_collect_prefix_error<T>(results: Seq<Result<T, NavigationError>>, i: int)
    requires
        0 <= i <= results.len(),
        collect_results(results.take(i)) is Err,
    ensures
        collect_results(results) == collect_results(results.take(i)),
    decreases results.len() - i,
{
    if i == results.len() {
        assert(results.take(i) =~= results);
    } else {
        lemma_collect_step(results, i);
        lemma_collect_prefix_error(results, i + 1);
    }
}

/// The byte range that deleting from `selection` in `direction` removes: the selected
/// range, or for a bare cursor the range to the next subword boundary; or why there is
/// none.
pub open spec fn deletion_range_of(
    text: Seq<char>,
    selection: EditorSelection,
    direction: Direction,
) -> Result<(u32, u32), NavigationError> {
    if selection.start > usize::MAX {
        Err(NavigationError::SelectionStartTooLarge)
    } else if selection.end > usize::MAX {
        Err(NavigationError::SelectionEndTooLarge)
    } else if !is_char_boundary_at(text, selection.start as int) {
        Err(NavigationError::InvalidOffset)
    } else if !is_char_boundary_at(text, selection.end as int) {
        Err(NavigationError::InvalidOffset)
    } else {
        let range: (int, int) = if selection.start == selection.end {
            let head = head_of(selection) as int;
            let boundary = next_boundary_of(text, head, direction);
            if head <= boundary {
                (head, boundary)
            } else {
                (boundary, head)
            }
        } else {
            (selection.start as int, selection.end as int)
        };
        if range.0 > u32::MAX {
            Err(NavigationError::EditStartTooLarge)
        } else if range.1 > u32::MAX {
            Err(NavigationError::EditEndTooLarge)
        } else {
            Ok((range.0 as u32, range.1 as u32))
        }
    }
}

/// The deletion ranges of all selections, or the first reason one has none.
pub open spec fn deletion_ranges_of(
    text: Seq<char>,
    selections: Seq<EditorSelection>,
    direction: Direction,
) -> Result<Seq<(u32, u32)>, NavigationError> {
    collect_results(
        selections.map_values(
            |selection: EditorSelection| deletion_range_of(text, selection, direction),
        ),
    )
}

/// The spans of edits that delete `ranges`.
pub open spec fn deletion_spans(ranges: Seq<(u32, u32)>) -> Seq<EditSpan> {
    ranges.map_values(|range: (u32, u32)| EditSpan { start: range.0 as u64, end: range.1 as u64, new_len: 0 })
}

/// Where the starts of `ranges` land once all of `ranges` are deleted, or the first reason
/// one cannot be placed.
pub open spec fn cursors_after_deletion(ranges: Seq<(u32, u32)>) -> Result<Seq<u64>, NavigationError> {
    collect_results(
        ranges.map_values(
            |range: (u32, u32)| remap_through(range.0 as u64, sort_by_start(deletion_spans(ranges)), 0),
        ),
    )
}

/// Deleting a single range leaves the cursor at the range's start.
pub proof fn law_single_deletion_cursor(range: (u32, u32))
    requires
        range.0 <= range.1,
    ensures
        cursors_after_deletion(seq![range]) == Ok::<Seq<u64>, NavigationError>(
            seq![range.0 as u64],
        ),
{
    let spans = deletion_spans(seq![range]);
    assert(spans =~= seq![EditSpan { start: range.0 as u64, end: range.1 as u64, new_len: 0 }]);
    assert(spans.drop_last() =~= Seq::<EditSpan>::empty());
    assert(sort_by_start(spans) =~= spans) by {
        reveal_with_fuel(sort_by_start, 2);
        reveal_with_fuel(insert_by_start, 2);
    }
    let results = seq![range].map_values(
        |r: (u32, u32)| remap_through(r.0 as u64, sort_by_start(deletion_spans(seq![range])), 0),
    );
    assert(results.drop_last() =~= Seq::<Result<u64, NavigationError>>::empty());
    assert(seq![range.0 as u64] =~= Seq::<u64>::empty().push(range.0 as u64));
    assert(results[0] == Ok::<u64, NavigationError>(range.0 as u64));
    reveal_with_fuel(collect_results, 2);
}

/// Deleting from a bare cursor removes the text between the cursor and the place a move in
/// the same direction would take it.
pub proof fn law_cursor_deletion_spans_the_move(
    text: Seq<char>,
    offset: u32,
    direction: Direction,
)
    requires
        is_char_boundary_at(text, offset as int),
        next_boundary_of(text, offset as int, direction) <= u32::MAX,
    ensures
        ({
            let bare = cursor_at(offset as u64);
            let landing = head_of(moved_selection(text, bare, direction, SelectionMode::Move));
            deletion_range_of(text, bare, direction) == Ok::<(u32, u32), NavigationError>(
                if offset <= landing {
                    (offset, landing as u32)
                } else {
                    (landing as u32, offset)
                },
            )
        }),
{
    crate::boundary::law_moves_land_on_char_boundaries(text, offset as int);
    crate::text::lemma_boundary_in_range(text, next_boundary_of(text, offset as int, direction));
}

/// All results are values: collecting gives the values in order.
proof fn lemma_collect_values<T>(results: Seq<Result<T, NavigationError>>, values: Seq<T>)
    requires
        results.len() == values.len(),
        forall|i: int| 0 <= i < results.len() ==> #[trigger] results[i] == Ok::<T, NavigationError>(values[i]),
    ensures
        collect_results(results) == Ok::<Seq<T>, NavigationError>(values),
    decreases results.len(),
{
    if results.len() > 0 {
        lemma_collect_values(results.drop_last(), values.drop_last());
        assert(results[results.len() - 1] == Ok::<T, NavigationError>(values[values.len() - 1]));
        assert(values.drop_last().push(values.last()) =~= values);
    } else {
        assert(values =~= Seq::<T>::empty());
    }
}

/// The number of bytes that the ranges before the `k`-th one delete.
pub open spec fn deleted_before(ranges: Seq<(u32, u32)>, k: int) -> int
    decreases k,
{
    if k <= 0 {
        0
    } else {
        deleted_before(ranges, k - 1) + (ranges[k - 1].1 - ranges[k - 1].0)
    }
}

/// Ranges given in order, each ending no later than the next ones start.
pub open spec fn ranges_in_order(ranges: Seq<(u32, u32)>) -> bool {
    &&& forall|i: int| 0 <= i < ranges.len() ==> (#[trigger] ranges[i]).0 <= ranges[i].1
    &&& forall|i: int, j: int| 0 <= i < j < ranges.len() ==> (#[trigger] ranges[i]).1 <= (#[trigger] ranges[j]).0
}

/// Ordered ranges delete no more bytes between two of their starts than lie between them.
proof fn lemma_deleted_between(ranges: Seq<(u32, u32)>, j: int, k: int)
    requires
        ranges_in_order(ranges),
        0 <= j <= k < ranges.len(),
    ensures
        0 <= deleted_before(ranges, k) - deleted_before(ranges, j) <= ranges[k].0 - ranges[j].0,
    decreases k - j,
{
    if j < k {
        lemma_deleted_between(ranges, j, k - 1);
        assert(ranges[k - 1].1 <= ranges[k].0);
        assert(ranges[k - 1].0 <= ranges[k - 1].1);
        if j < k - 1 {
            assert(ranges[j].1 <= ranges[k - 1].0);
        }
    }
}

/// Walking the ordered deletions from the `j`-th one on, with the bytes deleted before it
/// as the change so far, takes the start of the `k`-th range to that start less the bytes
/// deleted before it.
proof fn lemma_walk_ordered_deletions(ranges: Seq<(u32, u32)>, j: int, k: int)
    requires
        ranges_in_order(ranges),
        0 <= j <= k < ranges.len(),
    ensures
        remap_through(
            ranges[k].0 as u64,
            deletion_spans(ranges).skip(j),
            (0 - deleted_before(ranges, j)) as i64,
        ) == Ok::<u64, NavigationError>((ranges[k].0 - deleted_before(ranges, k)) as u64),
    decreases k - j,
{
    let spans = deletion_spans(ranges);
    let rest = spans.skip(j);
    lemma_deleted_between(ranges, 0, k);
    lemma_deleted_between(ranges, 0, j);
    lemma_deleted_between(ranges, j, k);
    assert(deleted_before(ranges, 0) == 0);
    assert(rest[0] == spans[j]);
    if j < k {
        assert(ranges[j].1 <= ranges[k].0);
        lemma_deleted_between(ranges, 0, j + 1);
        lemma_deleted_between(ranges, j + 1, k);
        assert(rest.drop_first() =~= spans.skip(j + 1));
        lemma_walk_ordered_deletions(ranges, j + 1, k);
    }
}

/// Deleting ranges given in order, none overlapping the next, leaves the cursor of each
/// range at its start less the bytes deleted before it.
pub proof fn law_ordered_deletions_shift_cursors(ranges: Seq<(u32, u32)>)
    requires
        ranges_in_order(ranges),
    ensures
        cursors_after_deletion(ranges) == Ok::<Seq<u64>, NavigationError>(
            Seq::new(
                ranges.len(),
                |k: int| (ranges[k].0 - deleted_before(ranges, k)) as u64,
            ),
        ),
{
    let spans = deletion_spans(ranges);
    assert forall|i: int, j: int| 0 <= i < j < spans.len() implies spans[i].start
        <= spans[j].start by {
        assert(ranges[i].0 <= ranges[i].1);
        assert(ranges[i].1 <= ranges[j].0);
    }
    lemma_sort_keeps_ordered(spans);
    assert(spans.skip(0) =~= spans);
    let results = ranges.map_values(
        |range: (u32, u32)| remap_through(range.0 as u64, sort_by_start(deletion_spans(ranges)), 0),
    );
    let values = Seq::new(ranges.len(), |k: int| (ranges[k].0 - deleted_before(ranges, k)) as u64);
    assert forall|k: int| 0 <= k < results.len() implies #[trigger] results[k] == Ok::<
        u64,
        NavigationError,
    >(values[k]) by {
        lemma_walk_ordered_deletions(ranges, 0, k);
    }
    lemma_collect_values(results, values);
}

/// `result` is what deleting by subwords from `selections` in `direction` gives: one edit
/// per selection that deletes its range with nothing, and a cursor per selection where
/// the start of its range lands; or the first error.
pub open spec fn is_delete_outcome(
    text: Seq<char>,
    selections: Seq<EditorSelection>,
    direction: Direction,
    result: Result<EditorCommandResult, NavigationError>,
) -> bool {
    match deletion_ranges_of(text, selections, direction) {
        Err(e) => result is Err && result->Err_0 == e,
        Ok(ranges) => match cursors_after_deletion(ranges) {
            Err(e) => result is Err && result->Err_0 == e,
            Ok(cursors) => match result {
                Err(_) => false,
                Ok(r) => {
                    &&& r.edits@.len() == ranges.len()
                    &&& forall|i: int|
                        0 <= i < ranges.len() ==> (#[trigger] r.edits@[i]).range == (TextRange {
                            start: ranges[i].0,
                            end: ranges[i].1,
                        }) && r.edits@[i].new_text@ == Seq::<char>::empty()
                    &&& r.selections matches Some(placed) && placed@.len() == cursors.len()
                        && forall|i: int|
                        0 <= i < cursors.len() ==> #[trigger] placed@[i] == cursor_at(cursors[i])
                },
            },
        },
    }
}

/// Deleting a selection that is not empty removes exactly the selected bytes, in either
/// direction and whichever end holds the cursor, and leaves a cursor where the selection
/// starts; a selection that starts after it ends is refused, as its edit would be reversed.
pub proof fn law_deleting_a_selection(
    text: Seq<char>,
    selection: EditorSelection,
    direction: Direction,
    result: Result<EditorCommandResult, NavigationError>,
)
    requires
        selection.start != selection.end,
        selection.start <= u32::MAX,
        selection.end <= u32::MAX,
        is_char_boundary_at(text, selection.start as int),
        is_char_boundary_at(text, selection.end as int),
        is_delete_outcome(text, seq![selection], direction, result),
    ensures
        deletion_range_of(text, selection, direction) == Ok::<(u32, u32), NavigationError>(
            (selection.start as u32, selection.end as u32),
        ),
        selection.start < selection.end ==> ({
            &&& result is Ok
            &&& result->Ok_0.edits@.len() == 1
            &&& result->Ok_0.edits@[0].range == (TextRange {
                start: selection.start as u32,
                end: selection.end as u32,
            })
            &&& result->Ok_0.edits@[0].new_text@ == Seq::<char>::empty()
            &&& result->Ok_0.selections is Some
            &&& result->Ok_0.selections->Some_0@ == seq![cursor_at(selection.start)]
        }),
        selection.start > selection.end ==> result == Err::<EditorCommandResult, NavigationError>(
            NavigationError::EditRangeReversed,
        ),
{
    let range = (selection.start as u32, selection.end as u32);
    let results = seq![selection].map_values(
        |s: EditorSelection| deletion_range_of(text, s, direction),
    );
    assert(results =~= seq![Ok::<(u32, u32), NavigationError>(range)]);
    assert(results.drop_last() =~= Seq::<Result<(u32, u32), NavigationError>>::empty());
    reveal_with_fuel(collect_results, 2);
    assert(deletion_ranges_of(text, seq![selection], direction) == Ok::<
        Seq<(u32, u32)>,
        NavigationError,
    >(seq![range])) by {
        assert(Seq::<(u32, u32)>::empty().push(range) =~= seq![range]);
    }
    if selection.start < selection.end {
        law_single_deletion_cursor(range);
        let placed = result->Ok_0.selections->Some_0;
        assert(placed@ =~= seq![cursor_at(selection.start)]);
    } else {
        let spans = deletion_spans(seq![range]);
        assert(spans =~= seq![EditSpan { start: range.0 as u64, end: range.1 as u64, new_len: 0 }]);
        assert(spans.drop_last() =~= Seq::<EditSpan>::empty());
        assert(sort_by_start(spans) =~= spans) by {
            reveal_with_fuel(sort_by_start, 2);
            reveal_with_fuel(insert_by_start, 2);
        }
        let placed = seq![range].map_values(
            |r: (u32, u32)| remap_through(r.0 as u64, sort_by_start(deletion_spans(seq![range])), 0),
        );
        assert(placed[0] == Err::<u64, NavigationError>(NavigationError::EditRangeReversed));
        assert(placed.drop_last() =~= Seq::<Result<u64, NavigationError>>::empty());
    }
}

/// The byte range that deleting from `selection` in `direction` removes.
fn deletion_range(text: &str, selection: EditorSelection, direction: Direction) -> (r: Result<
    (u32, u32),
    NavigationError,
>)
    ensures
        r == deletion_range_of(text@, selection, direction),
{
    let start = match usize::try_from(selection.start) {
        Ok(start) => start,
        Err(_) => {
            return Err(NavigationError::SelectionStartTooLarge);
        },
    };
    let end = match usize::try_from(selection.end) {
        Ok(end) => end,
        Err(_) => {
            return Err(NavigationError::SelectionEndTooLarge);
        },
    };
    validate_offset(text, start)?;
    validate_offset(text, end)?;
    let range = if start == end {
        let head = selection_head(selection);
        let boundary = next_boundary(text, head, direction)?;
        cmp_range(head, boundary)
    } else {
        core::ops::Range { start: start, end: end }
    };
    let edit_start = match u32::try_from(range.start) {
        Ok(edit_start) => edit_start,
        Err(_) => {
            return Err(NavigationError::EditStartTooLarge);
        },
    };
    let edit_end = match u32::try_from(range.end) {
        Ok(edit_end) => edit_end,
        Err(_) => {
            return Err(NavigationError::EditEndTooLarge);
        },
    };
    Ok((edit_start, edit_end))
}

/// Deletes every selection, or for a bare cursor the text up to the next subword
/// boundary in `direction`, and leaves a cursor where each deleted range started.
pub fn delete_subword(context: &EditorCommandContext, direction: Direction) -> (r: Result<
    EditorCommandResult,
    NavigationError,
>)
    ensures
        is_delete_outcome(context.text@, context.selections@, direction, r),
{
    let text = context.text.as_str();
    let ghost results = context.selections@.map_values(
        |selection: EditorSelection| deletion_range_of(text@, selection, direction),
    );
    let ghost ranges: Seq<(u32, u32)> = seq![];
    let mut edits: Vec<EditorEdit> = Vec::new();
    let mut cursor_offsets: Vec<usize> = Vec::new();
    let mut i: usize = 0;
    proof {
        assert(results.take(0) =~= Seq::<Result<(u32, u32), NavigationError>>::empty());
    }
    while i < context.selections.len()
        invariant
            i <= context.selections.len(),
            text@ == context.text@,
            results == context.selections@.map_values(
                |selection: EditorSelection| deletion_range_of(text@, selection, direction),
            ),
            collect_results(results.take(i as int)) == Ok::<Seq<(u32, u32)>, NavigationError>(
                ranges,
            ),
            ranges.len() == i,
            edits@.len() == i,
            cursor_offsets@.len() == i,
            forall|k: int|
                0 <= k < i ==> (#[trigger] edits@[k]).range == (TextRange {
                    start: ranges[k].0,
                    end: ranges[k].1,
                }) && edits@[k].new_text@ == Seq::<char>::empty(),
            forall|k: int| 0 <= k < i ==> #[trigger] cursor_offsets@[k] == ranges[k].0,
        decreases context.selections.len() - i,
    {
        let selection = context.selections[i];
        proof {
            lemma_collect_step(results, i as int);
            assert(results[i as int] == deletion_range_of(text@, selection, direction));
        }
        let (edit_start, edit_end) = match deletion_range(text, selection, direction) {
            Ok(range) => range,
            Err(e) => {
                proof {
                    lemma_collect_prefix_error(results, i + 1);
                }
                return Err(e);
            },
        };
        let range_start = edit_start as usize;
        edits.push(
            EditorEdit {
                range: TextRange { start: edit_start, end: edit_end },
                new_text: String::new(),
            },
        );
        cursor_offsets.push(range_start);
        proof {
            ranges = ranges.push((edit_start, edit_end));
        }
        i = i + 1;
    }
    proof {
        assert(results.take(i as int) =~= results);
        assert(spans_of(edits@) =~= deletion_spans(ranges)) by {
            assert forall|k: int| 0 <= k < edits@.len() implies span_of(edits@[k]) == deletion_spans(
                ranges,
            )[k] by {
                assert(text_bytes(edits@[k].new_text@) =~= Seq::<u8>::empty());
            }
        }
    }
    let ghost remapped = ranges.map_values(
        |range: (u32, u32)| remap_through(range.0 as u64, sort_by_start(deletion_spans(ranges)), 0),
    );
    let ghost cursors: Seq<u64> = seq![];
    let mut selections: Vec<EditorSelection> = Vec::new();
    let mut j: usize = 0;
    proof {
        assert(remapped.take(0) =~= Seq::<Result<u64, NavigationError>>::empty());
    }
    while j < cursor_offsets.len()
        invariant
            j <= cursor_offsets.len(),
            cursor_offsets@.len() == ranges.len(),
            deletion_ranges_of(context.text@, context.selections@, direction) == Ok::<
                Seq<(u32, u32)>,
                NavigationError,
            >(ranges),
            edits@.len() == ranges.len(),
            forall|k: int|
                0 <= k < ranges.len() ==> (#[trigger] edits@[k]).range == (TextRange {
                    start: ranges[k].0,
                    end: ranges[k].1,
                }) && edits@[k].new_text@ == Seq::<char>::empty(),
            forall|k: int| 0 <= k < ranges.len() ==> #[trigger] cursor_offsets@[k] == ranges[k].0,
            spans_of(edits@) == deletion_spans(ranges),
            remapped == ranges.map_values(
                |range: (u32, u32)|
                    remap_through(range.0 as u64, sort_by_start(deletion_spans(ranges)), 0),
            ),
            collect_results(remapped.take(j as int)) == Ok::<Seq<u64>, NavigationError>(cursors),
            cursors.len() == j,
            selections@.len() == j,
            forall|k: int| 0 <= k < j ==> #[trigger] selections@[k] == cursor_at(cursors[k]),
        decreases cursor_offsets.len() - j,
    {
        proof {
            lemma_collect_step(remapped, j as int);
            assert(remapped[j as int] == remap_through(
                ranges[j as int].0 as u64,
                sort_by_start(deletion_spans(ranges)),
                0,
            ));
            assert(cursor_offsets@[j as int] as u64 == ranges[j as int].0 as u64);
        }
        let offset = match remap_offset(cursor_offsets[j] as u64, edits.as_slice()) {
            Ok(offset) => offset,
            Err(e) => {
                proof {
                    lemma_collect_prefix_error(remapped, j + 1);
                }
                return Err(e);
            },
        };
        selections.push(EditorSelection { start: offset, end: offset, reversed: false });
        proof {
            cursors = cursors.push(offset);
        }
        j = j + 1;
    }
    proof {
        assert(remapped.take(j as int) =~= remapped);
    }
    Ok(EditorCommandResult { edits, selections: Some(selections) })
}

/// A command of the extension.
#[derive(Clone, Copy, Debug, PartialEq, Eq, Structural)]
pub enum EditorCommand {
    /// Move the cursors by a subword, dropping or extending the selections.
    MoveSubword(Direction, SelectionMode),
    /// Delete the selections, or a subword next to each bare cursor.
    DeleteSubword(Direction),
}

/// The command that `id` names, if any.
pub open spec fn command_of(id: Seq<char>) -> Option<EditorCommand> {
    if id == "subwordNavigation.cursorSubwordLeft"@ {
        Some(EditorCommand::MoveSubword(Direction::Left, SelectionMode::Move))
    } else if id == "subwordNavigation.cursorSubwordRight"@ {
        Some(EditorCommand::MoveSubword(Direction::Right, SelectionMode::Move))
    } else if id == "subwordNavigation.cursorSubwordLeftSelect"@ {
        Some(EditorCommand::MoveSubword(Direction::Left, SelectionMode::Select))
    } else if id == "subwordNavigation.cursorSubwordRightSelect"@ {
        Some(EditorCommand::MoveSubword(Direction::Right, SelectionMode::Select))
    } else if id == "subwordNavigation.deleteSubwordLeft"@ {
        Some(EditorCommand::DeleteSubword(Direction::Left))
    } else if id == "subwordNavigation.deleteSubwordRight"@ {
        Some(EditorCommand::DeleteSubword(Direction::Right))
    } else {
        None
    }
}

/// The command that `command_id` names, if any.
pub fn parse_command(command_id: &str) -> (command: Option<EditorCommand>)
    ensures
        command == command_of(command_id@),
{
    if text_eq(command_id, "subwordNavigation.cursorSubwordLeft") {
        Some(EditorCommand::MoveSubword(Direction::Left, SelectionMode::Move))
    } else if text_eq(command_id, "subwordNavigation.cursorSubwordRight") {
        Some(EditorCommand::MoveSubword(Direction::Right, SelectionMode::Move))
    } else if text_eq(command_id, "subwordNavigation.cursorSubwordLeftSelect") {
        Some(EditorCommand::MoveSubword(Direction::Left, SelectionMode::Select))
    } else if text_eq(command_id, "subwordNavigation.cursorSubwordRightSelect") {
        Some(EditorCommand::MoveSubword(Direction::Right, SelectionMode::Select))
    } else if text_eq(command_id, "subwordNavigation.deleteSubwordLeft") {
        Some(EditorCommand::DeleteSubword(Direction::Left))
    } else if text_eq(command_id, "subwordNavigation.deleteSubwordRight") {
        Some(EditorCommand::DeleteSubword(Direction::Right))
    } else {
        None
    }
}

/// `result` is what running `command` gives in `context`.
pub open spec fn is_command_outcome(
    command: EditorCommand,
    context: EditorCommandContext,
    result: Result<Option<EditorCommandResult>, NavigationError>,
) -> bool {
    let outcome = |r: Result<EditorCommandResult, NavigationError>| match command {
        EditorCommand::MoveSubword(direction, mode) => is_move_outcome(
            context.text@,
            context.selections@,
            direction,
            mode,
            r,
        ),
        EditorCommand::DeleteSubword(direction) => is_delete_outcome(
            context.text@,
            context.selections@,
            direction,
            r,
        ),
    };
    match result {
        Ok(Some(r)) => outcome(Ok(r)),
        Ok(None) => false,
        Err(e) => outcome(Err(e)),
    }
}

/// The subword navigation extension.
pub struct SubwordNavigation;

impl SubwordNavigation {
    /// The extension, which holds no state.
    pub fn new() -> (extension: SubwordNavigation)
        ensures
            extension == SubwordNavigation,
    {
        SubwordNavigation
    }

    /// Runs the command named `command_id` in `context`: `None` for a name that is not one
    /// of this extension's commands.
    pub fn run_editor_command(
        &mut self,
        command_id: String,
        context: EditorCommandContext,
    ) -> (r: Result<Option<EditorCommandResult>, NavigationError>)
        ensures
            *final(self) == *old(self),
            command_of(command_id@) is None ==> r is Ok && r->Ok_0 is None,
            command_of(command_id@) matches Some(command) ==> is_command_outcome(
                command,
                context,
                r,
            ),
    {
        let result = match parse_command(command_id.as_str()) {
            Some(EditorCommand::MoveSubword(direction, mode)) => move_subword(
                &context,
                direction,
                mode,
            )?,
            Some(EditorCommand::DeleteSubword(direction)) => delete_subword(&context, direction)?,
            None => {
                return Ok(None);
            },
        };
        Ok(Some(result))
    }
}

} // verus!
