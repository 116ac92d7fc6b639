use subword_navigation::boundary::Direction;
use subword_navigation::commands::{
    delete_subword, move_subword, EditorCommandContext, EditorCommandResult, SelectionMode,
    SubwordNavigation,
};
use subword_navigation::error::NavigationError;
use subword_navigation::selection::EditorSelection;

fn context(text: &str, selections: Vec<EditorSelection>) -> EditorCommandContext {
    EditorCommandContext {
        text: text.to_string(),
        selections,
        language: Some("Rust".to_string()),
        path: None,
    }
}

fn cursor(offset: usize) -> EditorSelection {
    EditorSelection {
        start: offset as u64,
        end: offset as u64,
        reversed: false,
    }
}

fn selection(start: usize, end: usize, reversed: bool) -> EditorSelection {
    EditorSelection {
        start: start as u64,
        end: end as u64,
        reversed,
    }
}

fn assert_selection(actual: EditorSelection, expected: EditorSelection) {
    assert_eq!(actual.start, expected.start);
    assert_eq!(actual.end, expected.end);
    assert_eq!(actual.reversed, expected.reversed);
}

fn apply(text: &str, result: &EditorCommandResult) -> String {
    let mut output = text.to_string();
    let mut edits: Vec<_> = result.edits.iter().collect();
    edits.sort_by_key(|edit| edit.range.start);
    for edit in edits.into_iter().rev() {
        output.replace_range(
            edit.range.start as usize..edit.range.end as usize,
            &edit.new_text,
        );
    }
    output
}

fn moved(text: &str, offset: usize, direction: Direction) -> u64 {
    let ctx = context(text, vec![cursor(offset)]);
    let result = move_subword(&ctx, direction, SelectionMode::Move).unwrap();
    let selection = result.selections.unwrap()[0];
    assert_eq!(selection.start, selection.end);
    selection.start
}

#[test]
fn moves_through_camel_case() {
    let ctx = context("someHTTPServer42", vec![cursor(0)]);

    let result = move_subword(&ctx, Direction::Right, SelectionMode::Move).unwrap();
    assert_selection(result.selections.unwrap()[0], cursor(4));

    let ctx = context("someHTTPServer42", vec![cursor(8)]);
    let result = move_subword(&ctx, Direction::Right, SelectionMode::Move).unwrap();
    assert_selection(result.selections.unwrap()[0], cursor(14));

    let ctx = context("someHTTPServer42", vec![cursor(16)]);
    let result = move_subword(&ctx, Direction::Left, SelectionMode::Move).unwrap();
    assert_selection(result.selections.unwrap()[0], cursor(14));
}

#[test]
fn moves_through_snake_case() {
    let ctx = context("some_http_server", vec![cursor(0)]);
    let result = move_subword(&ctx, Direction::Right, SelectionMode::Move).unwrap();
    assert_selection(result.selections.unwrap()[0], cursor(4));

    let ctx = context("some_http_server", vec![cursor(5)]);
    let result = move_subword(&ctx, Direction::Left, SelectionMode::Move).unwrap();
    assert_selection(result.selections.unwrap()[0], cursor(4));
}

#[test]
fn extends_selection_from_anchor() {
    let ctx = context("someValue", vec![cursor(0)]);
    let result = move_subword(&ctx, Direction::Right, SelectionMode::Select).unwrap();
    assert_selection(result.selections.unwrap()[0], selection(0, 4, false));

    let ctx = context("someValue", vec![selection(0, 4, false)]);
    let result = move_subword(&ctx, Direction::Left, SelectionMode::Select).unwrap();
    assert_selection(result.selections.unwrap()[0], cursor(0));
}

#[test]
fn deletes_empty_selection_to_boundary() {
    let ctx = context("someValue", vec![cursor(4)]);
    let result = delete_subword(&ctx, Direction::Left).unwrap();

    assert_eq!(apply(&ctx.text, &result), "Value");
    assert_selection(result.selections.unwrap()[0], cursor(0));
}

#[test]
fn deletes_non_empty_selection() {
    let ctx = context("someValue", vec![selection(0, 4, false)]);
    let result = delete_subword(&ctx, Direction::Right).unwrap();

    assert_eq!(apply(&ctx.text, &result), "Value");
    assert_selection(result.selections.unwrap()[0], cursor(0));
}

#[test]
fn jumps_between_lines() {
    let ctx = context("first\n    second", vec![cursor(5)]);
    let result = move_subword(&ctx, Direction::Right, SelectionMode::Move).unwrap();
    assert_selection(result.selections.unwrap()[0], cursor(10));

    let ctx = context("first\n    second", vec![cursor(10)]);
    let result = move_subword(&ctx, Direction::Left, SelectionMode::Move).unwrap();
    assert_selection(result.selections.unwrap()[0], cursor(6));
}

#[test]
fn walks_every_subword_of_camel_case_to_the_right() {
    let text = "someHTTPServer42";
    let mut stops = Vec::new();
    let mut offset = 0;
    loop {
        let next = moved(text, offset, Direction::Right) as usize;
        if next == offset {
            break;
        }
        stops.push(next);
        offset = next;
    }
    assert_eq!(stops, vec![4, 8, 14, 16]);
}

#[test]
fn walks_every_subword_of_camel_case_to_the_left() {
    let text = "someHTTPServer42";
    let mut stops = Vec::new();
    let mut offset = text.len();
    loop {
        let next = moved(text, offset, Direction::Left) as usize;
        if next == offset {
            break;
        }
        stops.push(next);
        offset = next;
    }
    assert_eq!(stops, vec![14, 8, 4, 0]);
}

#[test]
fn stops_around_separators_and_digits() {
    assert_eq!(moved("foo.bar", 0, Direction::Right), 3);
    assert_eq!(moved("foo.bar", 3, Direction::Right), 4);
    assert_eq!(moved("foo.bar", 7, Direction::Left), 4);
    assert_eq!(moved("abc123def", 0, Direction::Right), 3);
    assert_eq!(moved("abc123def", 3, Direction::Right), 6);
    assert_eq!(moved("a__b", 0, Direction::Right), 1);
    assert_eq!(moved("a__b", 1, Direction::Right), 3);
    assert_eq!(moved("foo  bar", 3, Direction::Right), 5);
}

#[test]
fn moves_over_multibyte_characters() {
    // 'é' and 'ö' take two bytes each.
    let text = "héllo wörld";
    assert_eq!(moved(text, 0, Direction::Right), 6);
    assert_eq!(moved(text, 6, Direction::Right), 7);
    assert_eq!(moved(text, 7, Direction::Right), 13);
    assert_eq!(moved(text, 13, Direction::Left), 7);
    assert_eq!(moved(text, 7, Direction::Left), 6);
    assert_eq!(moved(text, 6, Direction::Left), 0);
}

#[test]
fn splits_unicode_case_changes() {
    // 'É' is uppercase and not lowercase; 'ß' is lowercase and not uppercase.
    let text = "ßÉté";
    assert_eq!(moved(text, 0, Direction::Right), 2);
}

#[test]
fn stays_at_the_ends_of_the_text() {
    assert_eq!(moved("word", 4, Direction::Right), 4);
    assert_eq!(moved("word", 0, Direction::Left), 0);
    assert_eq!(moved("", 0, Direction::Right), 0);
    assert_eq!(moved("", 0, Direction::Left), 0);
}

#[test]
fn moves_left_to_the_end_of_the_previous_lines_content() {
    let text = "first  \nsecond";
    assert_eq!(moved(text, 8, Direction::Left), 5);
    let text = "   \nsecond";
    assert_eq!(moved(text, 4, Direction::Left), 0);
}

#[test]
fn moves_right_from_the_last_line_end() {
    let text = "one\n";
    assert_eq!(moved(text, 3, Direction::Right), 4);
    assert_eq!(moved(text, 4, Direction::Right), 4);
    let text = "one\n   ";
    assert_eq!(moved(text, 3, Direction::Right), 7);
}

#[test]
fn rejects_an_offset_inside_a_character() {
    let ctx = context("héllo", vec![cursor(2)]);
    let result = move_subword(&ctx, Direction::Right, SelectionMode::Move);
    assert!(matches!(result, Err(NavigationError::InvalidOffset)));
}

#[test]
fn rejects_an_offset_past_the_text() {
    let ctx = context("abc", vec![cursor(0), cursor(4)]);
    let result = move_subword(&ctx, Direction::Left, SelectionMode::Move);
    assert!(matches!(result, Err(NavigationError::InvalidOffset)));
    let result = delete_subword(&ctx, Direction::Left);
    assert!(matches!(result, Err(NavigationError::InvalidOffset)));
}

#[test]
fn move_leaves_a_cursor_and_select_keeps_the_anchor() {
    let ctx = context("someValue other", vec![selection(2, 9, true)]);
    let result = move_subword(&ctx, Direction::Right, SelectionMode::Move).unwrap();
    assert_selection(result.selections.unwrap()[0], cursor(4));

    let result = move_subword(&ctx, Direction::Right, SelectionMode::Select).unwrap();
    // The anchor stays at 9, the cursor moves from 2 to 4.
    assert_selection(result.selections.unwrap()[0], selection(4, 9, true));

    let ctx = context("someValue other", vec![selection(0, 9, false)]);
    let result = move_subword(&ctx, Direction::Right, SelectionMode::Select).unwrap();
    assert_selection(result.selections.unwrap()[0], selection(0, 10, false));
    let result = move_subword(&ctx, Direction::Left, SelectionMode::Select).unwrap();
    assert_selection(result.selections.unwrap()[0], selection(0, 4, false));
}

#[test]
fn moves_every_selection() {
    let ctx = context("alpha beta", vec![cursor(0), cursor(6)]);
    let result = move_subword(&ctx, Direction::Right, SelectionMode::Move).unwrap();
    assert!(result.edits.is_empty());
    let selections = result.selections.unwrap();
    assert_eq!(selections.len(), 2);
    assert_selection(selections[0], cursor(5));
    assert_selection(selections[1], cursor(10));
}

#[test]
fn deletes_several_selections_and_remaps_the_cursors() {
    let ctx = context("oneTwo threeFour", vec![cursor(3), cursor(12)]);
    let result = delete_subword(&ctx, Direction::Right).unwrap();
    assert_eq!(apply(&ctx.text, &result), "one three");
    let selections = result.selections.unwrap();
    assert_selection(selections[0], cursor(3));
    assert_selection(selections[1], cursor(9));
    assert_eq!(result.edits.len(), 2);
    assert_eq!(result.edits[0].range.start, 3);
    assert_eq!(result.edits[0].range.end, 6);
    assert_eq!(result.edits[1].range.start, 12);
    assert_eq!(result.edits[1].range.end, 16);
    assert!(result.edits[0].new_text.is_empty());
}

#[test]
fn deletes_a_reversed_selection_by_its_range() {
    let ctx = context("someValue", vec![selection(4, 9, true)]);
    let result = delete_subword(&ctx, Direction::Left).unwrap();
    assert_eq!(apply(&ctx.text, &result), "some");
    assert_selection(result.selections.unwrap()[0], cursor(4));
}

#[test]
fn refuses_a_selection_that_ends_before_it_starts() {
    let ctx = context("someValue", vec![selection(4, 2, false)]);
    let result = delete_subword(&ctx, Direction::Left);
    assert!(matches!(result, Err(NavigationError::EditRangeReversed)));
}

#[test]
fn runs_commands_by_name() {
    let mut extension = SubwordNavigation::new();
    let ctx = context("someValue", vec![cursor(0)]);
    let result = extension
        .run_editor_command("subwordNavigation.cursorSubwordRight".to_string(), ctx)
        .unwrap()
        .unwrap();
    assert_selection(result.selections.unwrap()[0], cursor(4));

    let ctx = context("someValue", vec![cursor(4)]);
    let result = extension
        .run_editor_command("subwordNavigation.deleteSubwordRight".to_string(), ctx)
        .unwrap()
        .unwrap();
    assert_eq!(apply("someValue", &result), "some");

    let ctx = context("someValue", vec![cursor(9)]);
    let result = extension
        .run_editor_command("subwordNavigation.cursorSubwordLeftSelect".to_string(), ctx)
        .unwrap()
        .unwrap();
    assert_selection(result.selections.unwrap()[0], selection(4, 9, true));

    let ctx = context("someValue", vec![cursor(0)]);
    let result = extension.run_editor_command("editor::Unknown".to_string(), ctx);
    assert!(matches!(result, Ok(None)));

    let ctx = context("someValue", vec![cursor(20)]);
    let result = extension
        .run_editor_command("subwordNavigation.deleteSubwordLeft".to_string(), ctx);
    assert!(matches!(result, Err(NavigationError::InvalidOffset)));
}

#[test]
fn deleting_from_a_cursor_removes_what_a_move_would_cross() {
    let text = "someHTTPServer_42 next";
    for offset in 0..=text.len() {
        for direction in [Direction::Left, Direction::Right] {
            let landing = moved(text, offset, direction) as u32;
            let ctx = context(text, vec![cursor(offset)]);
            let result = delete_subword(&ctx, direction).unwrap();
            let range = result.edits[0].range;
            let offset = offset as u32;
            assert_eq!((range.start, range.end), (offset.min(landing), offset.max(landing)));
            assert_selection(result.selections.unwrap()[0], cursor(offset.min(landing) as usize));
        }
    }
}
