use subword_navigation::boundary::{
    is_boundary, next_boundary, next_boundary_left, next_boundary_right, validate_offset,
    Direction,
};
use subword_navigation::char_class::{character_class, is_separator};
use subword_navigation::commands::{parse_command, EditorCommand, SelectionMode};
use subword_navigation::error::NavigationError;
use subword_navigation::lines::{first_non_whitespace_offset, line_end, line_start};
use subword_navigation::remap::{apply_delta, remap_offset, EditorEdit, TextRange};
use subword_navigation::selection::{
    cmp_range, selection_from_tail_and_head, selection_head, selection_tail, EditorSelection,
};
use subword_navigation::text::{
    char_len_utf8, current_character, next_char_boundary, next_character,
    previous_char_boundaries, previous_char_boundary, previous_character, text_eq, text_len,
};

fn edit(start: u32, end: u32, new_text: &str) -> EditorEdit {
    EditorEdit {
        range: TextRange { start, end },
        new_text: new_text.to_string(),
    }
}

#[test]
fn reads_characters_around_an_offset() {
    let text = "aé€😀b";
    // a: 0, é: 1..3, €: 3..6, 😀: 6..10, b: 10
    assert_eq!(current_character(text, 0), Some('a'));
    assert_eq!(current_character(text, 1), Some('é'));
    assert_eq!(current_character(text, 10), Some('b'));
    assert_eq!(current_character(text, 11), None);
    assert_eq!(previous_character(text, 0), None);
    assert_eq!(previous_character(text, 3), Some('é'));
    assert_eq!(previous_character(text, 10), Some('😀'));
    assert_eq!(previous_character(text, 11), Some('b'));
    assert_eq!(next_character(text, 1), Some('€'));
    assert_eq!(next_character(text, 10), None);
    assert_eq!(next_character(text, 11), None);
}

#[test]
fn steps_between_char_boundaries() {
    let text = "aé€😀b";
    assert_eq!(next_char_boundary(text, 0), 1);
    assert_eq!(next_char_boundary(text, 1), 3);
    assert_eq!(next_char_boundary(text, 3), 6);
    assert_eq!(next_char_boundary(text, 6), 10);
    assert_eq!(next_char_boundary(text, 11), 11);
    assert_eq!(previous_char_boundary(text, 10), 6);
    assert_eq!(previous_char_boundary(text, 6), 3);
    assert_eq!(previous_char_boundary(text, 3), 1);
    assert_eq!(previous_char_boundary(text, 1), 0);
    assert_eq!(previous_char_boundaries(text, 1, 10), vec![6, 3, 1]);
    assert_eq!(previous_char_boundaries(text, 0, 11), vec![10, 6, 3, 1, 0]);
    assert_eq!(previous_char_boundaries(text, 3, 3), Vec::<usize>::new());
}

#[test]
fn measures_utf8_lengths() {
    assert_eq!(char_len_utf8('a'), 1);
    assert_eq!(char_len_utf8('é'), 2);
    assert_eq!(char_len_utf8('€'), 3);
    assert_eq!(char_len_utf8('😀'), 4);
    assert_eq!(text_len("aé€😀b"), 11);
}

#[test]
fn compares_texts() {
    assert!(text_eq("abc", "abc"));
    assert!(!text_eq("abc", "abd"));
    assert!(!text_eq("abc", "ab"));
    assert!(text_eq("", ""));
}

#[test]
fn classifies_characters() {
    assert!(is_separator(' '));
    assert!(is_separator('\t'));
    assert!(is_separator('\n'));
    assert!(is_separator('.'));
    assert!(is_separator('-'));
    assert!(is_separator('\u{A0}'));
    assert!(!is_separator('_'));
    assert!(!is_separator('a'));
    assert!(!is_separator('9'));

    let class = character_class(Some('A'));
    assert!(class.upper && !class.lower && !class.numeric && !class.underscore);
    assert_eq!(class.separator, None);
    let class = character_class(Some('z'));
    assert!(class.lower && !class.upper);
    let class = character_class(Some('É'));
    assert!(class.upper && !class.lower);
    let class = character_class(Some('ß'));
    assert!(class.lower && !class.upper);
    let class = character_class(Some('7'));
    assert!(class.numeric && !class.upper && !class.lower);
    let class = character_class(Some('_'));
    assert!(class.underscore && class.separator.is_none());
    let class = character_class(Some('.'));
    assert_eq!(class.separator, Some('.'));
    let class = character_class(Some('中'));
    assert!(!class.upper && !class.lower && !class.numeric && !class.underscore);
    assert_eq!(class.separator, None);
    let class = character_class(None);
    assert!(!class.upper && !class.lower && !class.numeric && !class.underscore);
    assert_eq!(class.separator, None);
}

#[test]
fn finds_subword_boundaries() {
    let text = "someHTTPServer_42.x";
    assert!(is_boundary(text, 4));
    assert!(!is_boundary(text, 5));
    assert!(is_boundary(text, 8));
    assert!(is_boundary(text, 14));
    assert!(is_boundary(text, 15));
    assert!(!is_boundary(text, 16));
    assert!(is_boundary(text, 17));
    assert!(is_boundary(text, 18));
    assert!(!is_boundary(text, 2));
}

#[test]
fn finds_line_edges() {
    let text = "ab\ncd\n\nef";
    assert_eq!(line_start(text, 0), 0);
    assert_eq!(line_start(text, 2), 0);
    assert_eq!(line_start(text, 3), 3);
    assert_eq!(line_start(text, 5), 3);
    assert_eq!(line_start(text, 6), 6);
    assert_eq!(line_start(text, 9), 7);
    assert_eq!(line_end(text, 0), 2);
    assert_eq!(line_end(text, 2), 2);
    assert_eq!(line_end(text, 3), 5);
    assert_eq!(line_end(text, 6), 6);
    assert_eq!(line_end(text, 7), 9);
    assert_eq!(first_non_whitespace_offset("  \t x"), 4);
    assert_eq!(first_non_whitespace_offset("   "), 3);
    assert_eq!(first_non_whitespace_offset(""), 0);
    assert_eq!(first_non_whitespace_offset("\u{A0}é"), 2);
}

#[test]
fn moves_within_and_across_lines() {
    let text = "first\n    second";
    assert_eq!(next_boundary_right(text, 5), 10);
    assert_eq!(next_boundary_left(text, 10), 6);
    assert_eq!(next_boundary_left(text, 6), 5);
    assert_eq!(next_boundary_right(text, 0), 5);
    assert_eq!(next_boundary_right(text, 16), 16);
    assert_eq!(next_boundary_left(text, 0), 0);
}

#[test]
fn moves_never_backwards() {
    let text = "a_b-C9d\n e";
    let mut offset = 0;
    while offset <= text.len() {
        if text.is_char_boundary(offset) {
            let right = next_boundary_right(text, offset);
            let left = next_boundary_left(text, offset);
            assert!(right >= offset && left <= offset);
            assert_eq!(right > offset, offset < text.len());
            assert_eq!(left < offset, offset > 0);
            assert!(text.is_char_boundary(right) && text.is_char_boundary(left));
        }
        offset += 1;
    }
}

#[test]
fn checks_offsets() {
    assert!(validate_offset("aé", 0).is_ok());
    assert!(validate_offset("aé", 1).is_ok());
    assert!(matches!(validate_offset("aé", 2), Err(NavigationError::InvalidOffset)));
    assert!(validate_offset("aé", 3).is_ok());
    assert!(matches!(validate_offset("aé", 4), Err(NavigationError::InvalidOffset)));
    assert!(matches!(next_boundary("aé", 2, Direction::Left), Err(NavigationError::InvalidOffset)));
    assert!(matches!(next_boundary("ab cd", 0, Direction::Right), Ok(2)));
    assert!(matches!(next_boundary("ab cd", 5, Direction::Left), Ok(3)));
}

#[test]
fn reads_selections() {
    let forward = EditorSelection { start: 2, end: 7, reversed: false };
    let backward = EditorSelection { start: 2, end: 7, reversed: true };
    assert_eq!(selection_head(forward), 7);
    assert_eq!(selection_tail(forward), 2);
    assert_eq!(selection_head(backward), 2);
    assert_eq!(selection_tail(backward), 7);
    assert_eq!(selection_from_tail_and_head(2, 7), forward);
    assert_eq!(selection_from_tail_and_head(7, 2), backward);
    assert_eq!(
        selection_from_tail_and_head(3, 3),
        EditorSelection { start: 3, end: 3, reversed: false }
    );
}

#[test]
fn selection_head_and_tail_round_trip() {
    for (tail, head) in [(0usize, 0usize), (1, 5), (5, 1), (9, 9)] {
        let selection = selection_from_tail_and_head(tail, head);
        assert_eq!(selection_head(selection), head);
        assert_eq!(selection_tail(selection), tail);
    }
}

#[test]
fn orders_ranges() {
    assert_eq!(cmp_range(2, 5), 2..5);
    assert_eq!(cmp_range(5, 2), 2..5);
    assert_eq!(cmp_range(4, 4), 4..4);
}

#[test]
fn applies_deltas() {
    assert_eq!(apply_delta(5, 3), Ok(8));
    assert_eq!(apply_delta(5, -5), Ok(0));
    assert_eq!(apply_delta(5, -6), Err(NavigationError::OffsetUnderflow));
    assert_eq!(apply_delta(u64::MAX, 1), Err(NavigationError::OffsetOverflow));
    assert_eq!(apply_delta(u64::MAX, i64::MIN), Ok(u64::MAX - (1u64 << 63)));
    assert_eq!(apply_delta(0, i64::MIN), Err(NavigationError::OffsetUnderflow));
}

#[test]
fn remaps_offsets_through_edits() {
    assert_eq!(remap_offset(7, &[]), Ok(7));
    let edits = [edit(2, 4, "xyz"), edit(6, 9, "")];
    assert_eq!(remap_offset(1, &edits), Ok(1));
    assert_eq!(remap_offset(2, &edits), Ok(2));
    assert_eq!(remap_offset(3, &edits), Ok(5));
    assert_eq!(remap_offset(4, &edits), Ok(5));
    assert_eq!(remap_offset(6, &edits), Ok(7));
    assert_eq!(remap_offset(8, &edits), Ok(7));
    assert_eq!(remap_offset(10, &edits), Ok(8));
}

#[test]
fn remaps_through_edits_in_start_order() {
    let sorted = [edit(2, 4, "xyz"), edit(6, 9, "")];
    let unsorted = [edit(6, 9, ""), edit(2, 4, "xyz")];
    for offset in 0..12u64 {
        assert_eq!(remap_offset(offset, &sorted), remap_offset(offset, &unsorted));
    }
}

#[test]
fn keeps_the_order_of_edits_with_equal_starts() {
    let edits = [edit(5, 10, ""), edit(5, 7, "")];
    assert_eq!(remap_offset(8, &edits), Ok(5));
    let edits = [edit(5, 7, ""), edit(5, 10, "")];
    assert_eq!(remap_offset(8, &edits), Ok(3));
}

#[test]
fn reports_remapping_errors() {
    assert_eq!(remap_offset(5, &[edit(5, 3, "")]), Err(NavigationError::EditRangeReversed));
    assert_eq!(remap_offset(4, &[edit(5, 3, "")]), Ok(4));
    assert_eq!(remap_offset(12, &[edit(0, 10, ""), edit(2, 11, "")]), Err(NavigationError::OffsetUnderflow));
}

#[test]
fn names_the_commands() {
    assert_eq!(
        parse_command("subwordNavigation.cursorSubwordLeft"),
        Some(EditorCommand::MoveSubword(Direction::Left, SelectionMode::Move))
    );
    assert_eq!(
        parse_command("subwordNavigation.cursorSubwordRight"),
        Some(EditorCommand::MoveSubword(Direction::Right, SelectionMode::Move))
    );
    assert_eq!(
        parse_command("subwordNavigation.cursorSubwordLeftSelect"),
        Some(EditorCommand::MoveSubword(Direction::Left, SelectionMode::Select))
    );
    assert_eq!(
        parse_command("subwordNavigation.cursorSubwordRightSelect"),
        Some(EditorCommand::MoveSubword(Direction::Right, SelectionMode::Select))
    );
    assert_eq!(
        parse_command("subwordNavigation.deleteSubwordLeft"),
        Some(EditorCommand::DeleteSubword(Direction::Left))
    );
    assert_eq!(
        parse_command("subwordNavigation.deleteSubwordRight"),
        Some(EditorCommand::DeleteSubword(Direction::Right))
    );
    assert_eq!(parse_command("subwordNavigation.deleteSubword"), None);
    assert_eq!(parse_command(""), None);
}

#[test]
fn words_the_errors() {
    assert_eq!(
        NavigationError::InvalidOffset.message(),
        "Selection offset was not on a valid text boundary"
    );
    assert_eq!(NavigationError::SelectionStartTooLarge.message(), "Selection start exceeded usize");
    assert_eq!(NavigationError::SelectionEndTooLarge.message(), "Selection end exceeded usize");
    assert_eq!(NavigationError::EditStartTooLarge.message(), "Edit range start exceeded u32");
    assert_eq!(NavigationError::EditEndTooLarge.message(), "Edit range end exceeded u32");
    assert_eq!(NavigationError::EditRangeReversed.message(), "Edit range end preceded start");
    assert_eq!(
        NavigationError::ReplacementTooLongForU64.message(),
        "Edit replacement length exceeded u64"
    );
    assert_eq!(NavigationError::OffsetOverflow.message(), "Mapped selection offset overflowed");
    assert_eq!(NavigationError::OffsetUnderflow.message(), "Mapped selection offset underflowed");
    assert_eq!(
        NavigationError::ReplacementTooLongForI64.message(),
        "Edit replacement length exceeded i64"
    );
    assert_eq!(NavigationError::RangeTooLongForI64.message(), "Edit range length exceeded i64");
    assert_eq!(NavigationError::DeltaOverflow.message(), "Selection offset delta overflowed");
}

#[test]
fn remaps_ordered_edits_by_their_length_changes() {
    // Replace 1..3 by "abcd" (+2), delete 5..8 (-3), insert "zz" at 10 (+2).
    let edits = [edit(1, 3, "abcd"), edit(5, 8, ""), edit(10, 10, "zz")];
    assert_eq!(remap_offset(0, &edits), Ok(0));
    assert_eq!(remap_offset(2, &edits), Ok(5));
    assert_eq!(remap_offset(4, &edits), Ok(6));
    assert_eq!(remap_offset(6, &edits), Ok(7));
    assert_eq!(remap_offset(9, &edits), Ok(8));
    assert_eq!(remap_offset(10, &edits), Ok(9));
    assert_eq!(remap_offset(12, &edits), Ok(13));
}

#[test]
fn remaps_the_same_whatever_the_order_of_edits() {
    let a = edit(1, 3, "abcd");
    let b = edit(5, 8, "");
    let c = edit(10, 10, "zz");
    let orders = [
        [a.clone_edit(), b.clone_edit(), c.clone_edit()],
        [c.clone_edit(), a.clone_edit(), b.clone_edit()],
        [b.clone_edit(), c.clone_edit(), a.clone_edit()],
    ];
    for offset in 0..14u64 {
        let first = remap_offset(offset, &orders[0]);
        for order in &orders[1..] {
            assert_eq!(remap_offset(offset, order), first);
        }
    }
}

trait CloneEdit {
    fn clone_edit(&self) -> EditorEdit;
}

impl CloneEdit for EditorEdit {
    fn clone_edit(&self) -> EditorEdit {
        edit(self.range.start, self.range.end, &self.new_text)
    }
}
