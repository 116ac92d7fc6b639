//! Subword boundaries and the nearest one to the left or right of an offset.

use vstd::prelude::*;
use vstd::utf8::is_continuation_byte;
use crate::char_class::{
    CharacterClass, character_class, char_is_whitespace, class_of, is_separator_char,
    is_whitespace_char,
    law_ascii_digits_are_numeric,
};
use crate::error::NavigationError;
use crate::lines::{
    NEWLINE_BYTE, first_non_whitespace_offset, leading_whitespace_len, lemma_leading_whitespace_end,
    lemma_leading_whitespace_skipped, lemma_line_start_across, lemma_trailing_whitespace_skipped,
    lemma_line_end_of, lemma_line_start_of, lemma_trailing_whitespace_start, line_end,
    line_end_of, line_start, line_start_of, trailing_whitespace_len,
};
use crate::text::{
    char_len, chars_after, chars_before, chars_in, current_character, first_char,
    is_char_boundary_at, last_char, lemma_boundary_in_range, lemma_boundary_iff_not_continuation,
    lemma_chars_empty, lemma_chars_nonempty, lemma_chars_split, lemma_ends_are_boundaries, lemma_step,
    lemma_suffix_boundary, next_char_boundary, next_character, previous_char_boundaries,
    previous_char_boundary, previous_character, second_char, text_after, text_bytes, text_len,
};

verus! {

/// The direction of a movement.
#[derive(Clone, Copy, Debug, PartialEq, Eq, Structural)]
pub enum Direction {
    Left,
    Right,
}

/// Whether a subword starts or ends between a character of class `previous` and one of
/// class `current`, which is followed by one of class `next`.
pub open spec fn classes_form_boundary(
    previous: CharacterClass,
    current: CharacterClass,
    next: CharacterClass,
) -> bool {
    ||| previous.separator != current.separator
    ||| current.underscore && !previous.underscore
    ||| previous.underscore && !current.underscore
    ||| current.numeric && !previous.numeric
    ||| previous.numeric && !current.numeric
    ||| current.upper && previous.lower
    ||| current.upper && next.lower
}

/// Whether a subword starts or ends at char boundary `offset`, judged by the character
/// before it, the one at it and the one after that.
pub open spec fn is_subword_boundary(text: Seq<char>, offset: int) -> bool {
    classes_form_boundary(
        class_of(last_char(chars_before(text, offset))),
        class_of(first_char(chars_after(text, offset))),
        class_of(second_char(chars_after(text, offset))),
    )
}

/// `stop` is the first char boundary after `offset`, up to `limit`, that is `limit` or a
/// subword boundary.
pub open spec fn is_stop_right(text: Seq<char>, offset: int, limit: int, stop: int) -> bool {
    &&& offset < stop <= limit
    &&& is_char_boundary_at(text, stop)
    &&& stop == limit || is_subword_boundary(text, stop)
    &&& forall|m: int|
        offset < m < stop && is_char_boundary_at(text, m) ==> !is_subword_boundary(text, m)
}

/// `stop` is the last char boundary before `offset`, down to `limit`, that is `limit` or a
/// subword boundary.
pub open spec fn is_stop_left(text: Seq<char>, limit: int, offset: int, stop: int) -> bool {
    &&& limit <= stop < offset
    &&& is_char_boundary_at(text, stop)
    &&& stop == limit || is_subword_boundary(text, stop)
    &&& forall|m: int|
        stop < m < offset && is_char_boundary_at(text, m) ==> !is_subword_boundary(text, m)
}

/// The first stop after `offset` up to `limit` (see `is_stop_right`).
pub open spec fn stop_right(text: Seq<char>, offset: int, limit: int) -> int {
    choose|stop: int| is_stop_right(text, offset, limit, stop)
}

/// The last stop before `offset` down to `limit` (see `is_stop_left`).
pub open spec fn stop_left(text: Seq<char>, limit: int, offset: int) -> int {
    choose|stop: int| is_stop_left(text, limit, offset, stop)
}

/// Where a move to the right from `offset` lands: the next subword boundary on the line,
/// or the line's end; at the end of a line, the first non-whitespace character of the next
/// line; at the end of the text, the end of the text.
pub open spec fn next_boundary_right_of(text: Seq<char>, offset: int) -> int {
    let end = line_end_of(text_bytes(text), offset);
    if offset < end {
        stop_right(text, offset, end)
    } else if end >= text_bytes(text).len() {
        end
    } else {
        end + 1 + leading_whitespace_len(chars_after(text, end + 1))
    }
}

/// Where a move to the left from `offset` lands: the previous subword boundary on the
/// line, or the line's start; at the start of a line, the end of the last non-whitespace
/// character of the previous line (or that line's start); at the start of the text, the
/// start of the text.
pub open spec fn next_boundary_left_of(text: Seq<char>, offset: int) -> int {
    let start = line_start_of(text_bytes(text), offset);
    if offset > start {
        stop_left(text, start, offset)
    } else if start == 0 {
        offset
    } else {
        let previous_end = start - 1;
        let previous_start = line_start_of(text_bytes(text), previous_end);
        previous_end - trailing_whitespace_len(chars_in(text, previous_start, previous_end))
    }
}

/// Where a move in `direction` from `offset` lands.
pub open spec fn next_boundary_of(text: Seq<char>, offset: int, direction: Direction) -> int {
    match direction {
        Direction::Left => next_boundary_left_of(text, offset),
        Direction::Right => next_boundary_right_of(text, offset),
    }
}

/// There is only one first stop to the right.
pub proof fn lemma_stop_right_unique(text: Seq<char>, offset: int, limit: int, stop: int)
    requires
        is_stop_right(text, offset, limit, stop),
    ensures
        stop_right(text, offset, limit) == stop,
{
    let other = stop_right(text, offset, limit);
    assert(is_stop_right(text, offset, limit, other));
}

/// There is only one last stop to the left.
pub proof fn lemma_stop_left_unique(text: Seq<char>, limit: int, offset: int, stop: int)
    requires
        is_stop_left(text, limit, offset, stop),
    ensures
        stop_left(text, limit, offset) == stop,
{
    let other = stop_left(text, limit, offset);
    assert(is_stop_left(text, limit, offset, other));
}

/// Searching right from boundary `current`, with no subword boundary passed since
/// `offset`, finds the first stop up to `limit`.
proof fn lemma_stop_right_exists(text: Seq<char>, offset: int, current: int, limit: int)
    requires
        is_char_boundary_at(text, current),
        is_char_boundary_at(text, limit),
        offset < current <= limit,
        forall|m: int|
            offset < m < current && is_char_boundary_at(text, m) ==> !is_subword_boundary(text, m),
    ensures
        is_stop_right(text, offset, limit, stop_right(text, offset, limit)),
    decreases limit - current,
{
    if current == limit || is_subword_boundary(text, current) {
        assert(is_stop_right(text, offset, limit, current));
    } else {
        lemma_boundary_in_range(text, limit);
        lemma_step(text, current);
        let next = current + char_len(chars_after(text, current)[0]);
        if next > limit {
            assert(!is_char_boundary_at(text, limit));
        }
        lemma_stop_right_exists(text, offset, next, limit);
    }
}

/// Searching right from boundary `current` up to `offset`, with `best` the last stop found
/// so far, finds the last stop before `offset` down to `limit`.
proof fn lemma_stop_left_exists(text: Seq<char>, limit: int, offset: int, current: int, best: int)
    requires
        is_char_boundary_at(text, current),
        is_char_boundary_at(text, offset),
        limit <= best < current <= offset,
        is_char_boundary_at(text, best),
        best == limit || is_subword_boundary(text, best),
        forall|m: int|
            best < m < current && is_char_boundary_at(text, m) ==> !is_subword_boundary(text, m),
    ensures
        is_stop_left(text, limit, offset, stop_left(text, limit, offset)),
    decreases offset - current,
{
    if current == offset {
        assert(is_stop_left(text, limit, offset, best));
    } else {
        lemma_boundary_in_range(text, offset);
        lemma_step(text, current);
        let next = current + char_len(chars_after(text, current)[0]);
        if next > offset {
            assert(!is_char_boundary_at(text, offset));
        }
        if is_subword_boundary(text, current) {
            lemma_stop_left_exists(text, limit, offset, next, current);
        } else {
            lemma_stop_left_exists(text, limit, offset, next, best);
        }
    }
}

/// A move from a char boundary lands on a char boundary of the text: to the right, after
/// the offset unless the offset is the end of the text; to the left, before it unless it
/// is the start. Within a line it lands on the nearest subword boundary, or the line's edge.
pub proof fn law_moves_land_on_char_boundaries(text: Seq<char>, offset: int)
    requires
        is_char_boundary_at(text, offset),
    ensures
        is_char_boundary_at(text, next_boundary_right_of(text, offset)),
        is_char_boundary_at(text, next_boundary_left_of(text, offset)),
        offset <= next_boundary_right_of(text, offset),
        next_boundary_left_of(text, offset) <= offset,
        offset < text_bytes(text).len() <==> offset < next_boundary_right_of(text, offset),
        0 < offset <==> next_boundary_left_of(text, offset) < offset,
        offset < line_end_of(text_bytes(text), offset) ==> is_stop_right(
            text,
            offset,
            line_end_of(text_bytes(text), offset),
            next_boundary_right_of(text, offset),
        ),
        offset > line_start_of(text_bytes(text), offset) ==> is_stop_left(
            text,
            line_start_of(text_bytes(text), offset),
            offset,
            next_boundary_left_of(text, offset),
        ),
{
    let bytes = text_bytes(text);
    lemma_boundary_in_range(text, offset);
    lemma_line_end_of(text, offset);
    let end = line_end_of(bytes, offset);
    if offset < end {
        lemma_step(text, offset);
        let next = offset + char_len(chars_after(text, offset)[0]);
        if next > end {
            assert(!is_char_boundary_at(text, end));
        }
        lemma_stop_right_exists(text, offset, next, end);
    } else if end < bytes.len() {
        lemma_boundary_iff_not_continuation(text, end);
        lemma_step(text, end);
        lemma_leading_whitespace_end(text, end + 1);
    }
    lemma_line_start_of(text, offset);
    let start = line_start_of(bytes, offset);
    if offset > start {
        lemma_step(text, start);
        let next = start + char_len(chars_after(text, start)[0]);
        if next > offset {
            assert(!is_char_boundary_at(text, offset));
        }
        lemma_stop_left_exists(text, start, offset, next, start);
    } else if start > 0 {
        let previous_end = start - 1;
        lemma_boundary_iff_not_continuation(text, previous_end);
        lemma_line_start_of(text, previous_end);
        let previous_start = line_start_of(bytes, previous_end);
        lemma_trailing_whitespace_start(text, previous_start, previous_end);
    }
}

/// Between two different characters of which at least one separates words, a subword
/// starts or ends: in particular between two different separators, and between a
/// separator and anything else.
pub proof fn law_boundary_at_separator_change(text: Seq<char>, offset: int, a: char, b: char)
    requires
        is_char_boundary_at(text, offset),
        last_char(chars_before(text, offset)) == Some(a),
        first_char(chars_after(text, offset)) == Some(b),
        a != b,
        is_separator_char(a) || is_separator_char(b),
    ensures
        is_subword_boundary(text, offset),
{
}

/// A hump of camelCase starts a subword: between an ASCII lowercase letter and an ASCII
/// uppercase one there is a subword boundary.
pub proof fn law_boundary_at_hump(text: Seq<char>, offset: int, a: char, b: char)
    requires
        last_char(chars_before(text, offset)) == Some(a),
        first_char(chars_after(text, offset)) == Some(b),
        'a' <= a <= 'z',
        'A' <= b <= 'Z',
    ensures
        is_subword_boundary(text, offset),
{
}

/// In a run of capitals, the last one starts a subword when a lowercase letter follows it
/// (`HTTPServer` splits before `S`).
pub proof fn law_boundary_before_capitalized_word(
    text: Seq<char>,
    offset: int,
    a: char,
    b: char,
    c: char,
)
    requires
        last_char(chars_before(text, offset)) == Some(a),
        first_char(chars_after(text, offset)) == Some(b),
        second_char(chars_after(text, offset)) == Some(c),
        'A' <= a <= 'Z',
        'A' <= b <= 'Z',
        'a' <= c <= 'z',
    ensures
        is_subword_boundary(text, offset),
{
}

/// No subword boundary lies inside a lowercase word, nor after the capital that starts a
/// capitalized word, nor inside a run of capitals that no lowercase letter follows.
pub proof fn law_no_boundary_inside_word(text: Seq<char>, offset: int, a: char, b: char)
    requires
        last_char(chars_before(text, offset)) == Some(a),
        first_char(chars_after(text, offset)) == Some(b),
        ({
            ||| 'a' <= a <= 'z' && 'a' <= b <= 'z'
            ||| 'A' <= a <= 'Z' && 'a' <= b <= 'z'
            ||| 'A' <= a <= 'Z' && 'A' <= b <= 'Z' && match second_char(chars_after(text, offset)) {
                Some(c) => c <= '\u{7f}' && !('a' <= c <= 'z'),
                None => true,
            }
        }),
    ensures
        !is_subword_boundary(text, offset),
{
}

/// A subword starts and ends at the edges of every run of underscores, and never inside one.
pub proof fn law_underscore_runs(text: Seq<char>, offset: int, a: char, b: char)
    requires
        last_char(chars_before(text, offset)) == Some(a),
        first_char(chars_after(text, offset)) == Some(b),
    ensures
        (a == '_') != (b == '_') ==> is_subword_boundary(text, offset),
        a == '_' && b == '_' ==> !is_subword_boundary(text, offset),
{
}

/// A subword starts and ends where ASCII letters meet ASCII digits.
pub proof fn law_boundary_between_letter_and_digit(text: Seq<char>, offset: int, a: char, b: char)
    requires
        last_char(chars_before(text, offset)) == Some(a),
        first_char(chars_after(text, offset)) == Some(b),
        ({
            ||| ('a' <= a <= 'z' || 'A' <= a <= 'Z') && '0' <= b <= '9'
            ||| '0' <= a <= '9' && ('a' <= b <= 'z' || 'A' <= b <= 'Z')
        }),
    ensures
        is_subword_boundary(text, offset),
{
}

/// No subword starts or ends between two ASCII digits.
pub proof fn law_no_boundary_between_digits(text: Seq<char>, offset: int, a: char, b: char)
    requires
        last_char(chars_before(text, offset)) == Some(a),
        first_char(chars_after(text, offset)) == Some(b),
        '0' <= a <= '9',
        '0' <= b <= '9',
    ensures
        !is_subword_boundary(text, offset),
{
    law_ascii_digits_are_numeric(a);
    law_ascii_digits_are_numeric(b);
}

/// A run of ASCII digits holds no line feed byte.
proof fn lemma_digits_hold_no_line_feed(text: Seq<char>, m: int, end: int)
    requires
        is_char_boundary_at(text, m),
        is_char_boundary_at(text, end),
        m <= end,
        forall|i: int|
            0 <= i < chars_in(text, m, end).len() ==> '0' <= #[trigger] chars_in(text, m, end)[i]
                <= '9',
    ensures
        forall|j: int| m <= j < end ==> text_bytes(text)[j] != NEWLINE_BYTE,
    decreases end - m,
{
    if m < end {
        lemma_boundary_in_range(text, end);
        lemma_step(text, m);
        let c = chars_after(text, m)[0];
        let next = m + char_len(c);
        if next > end {
            assert(!is_char_boundary_at(text, end));
        }
        lemma_chars_split(text, m, next, end);
        assert(chars_in(text, m, end)[0] == c);
        assert forall|i: int| 0 <= i < chars_in(text, next, end).len() implies '0'
            <= #[trigger] chars_in(text, next, end)[i] <= '9' by {
            assert(chars_in(text, next, end)[i] == chars_in(text, m, end)[i + 1]);
        }
        lemma_digits_hold_no_line_feed(text, next, end);
        assert forall|j: int| m <= j < end implies text_bytes(text)[j] != NEWLINE_BYTE by {
            if j < next && j > m {
                assert(is_continuation_byte(text_bytes(text)[j]));
            }
        }
    }
}

/// From the end of a run of ASCII digits that starts the text, or that follows a
/// character other than a digit, a move to the left lands at the start of the run: no
/// subword starts or ends inside a number.
pub proof fn law_left_move_to_digit_run_start(text: Seq<char>, start: int, end: int)
    requires
        is_char_boundary_at(text, start),
        is_char_boundary_at(text, end),
        start < end,
        forall|i: int|
            0 <= i < chars_in(text, start, end).len() ==> '0' <= #[trigger] chars_in(
                text,
                start,
                end,
            )[i] <= '9',
        match last_char(chars_before(text, start)) {
            Some(c) => !('0' <= c <= '9'),
            None => true,
        },
    ensures
        next_boundary_left_of(text, end) == start,
{
    let bytes = text_bytes(text);
    let n = bytes.len() as int;
    lemma_boundary_in_range(text, start);
    lemma_boundary_in_range(text, end);
    lemma_ends_are_boundaries(text);
    lemma_digits_hold_no_line_feed(text, start, end);
    lemma_line_start_across(bytes, start, end);
    lemma_line_start_of(text, start);
    let line_start = line_start_of(bytes, end);
    let run = chars_in(text, start, end);
    lemma_chars_nonempty(text, start, end);
    lemma_chars_split(text, start, end, n);
    assert(first_char(chars_after(text, start)) == Some(run[0]));
    law_ascii_digits_are_numeric(run[0]);
    if start > 0 {
        lemma_chars_nonempty(text, 0, start);
        assert(is_subword_boundary(text, start));
    }
    assert forall|m: int| start < m < end && is_char_boundary_at(text, m) implies !is_subword_boundary(
        text,
        m,
    ) by {
        lemma_chars_split(text, start, m, end);
        lemma_chars_split(text, 0, start, m);
        lemma_chars_split(text, m, end, n);
        lemma_chars_nonempty(text, start, m);
        lemma_chars_nonempty(text, m, end);
        let k = chars_in(text, start, m).len() as int;
        assert(last_char(chars_before(text, m)) == Some(run[k - 1]));
        assert(first_char(chars_after(text, m)) == Some(run[k]));
        law_no_boundary_between_digits(text, m, run[k - 1], run[k]);
    }
    assert(is_stop_left(text, line_start, end, start));
    lemma_stop_left_unique(text, line_start, end, start);
}

/// A move to the right from the end of a line that is not the last one passes the line
/// feed and the whitespace that follows it, tabs included, and lands before the first
/// character that is not whitespace, or at the end of the text.
pub proof fn law_right_move_from_line_end(text: Seq<char>, offset: int)
    requires
        is_char_boundary_at(text, offset),
        offset < text_bytes(text).len(),
        text_bytes(text)[offset] == NEWLINE_BYTE,
    ensures
        ({
            let landing = next_boundary_right_of(text, offset);
            &&& offset < landing
            &&& is_char_boundary_at(text, landing)
            &&& chars_in(text, offset, offset + 1) == seq!['\n']
            &&& forall|i: int|
                0 <= i < chars_in(text, offset + 1, landing).len() ==> is_whitespace_char(
                    #[trigger] chars_in(text, offset + 1, landing)[i],
                )
            &&& chars_after(text, landing).len() > 0 ==> !is_whitespace_char(
                chars_after(text, landing)[0],
            )
        }),
{
    lemma_step(text, offset);
    lemma_leading_whitespace_end(text, offset + 1);
    lemma_leading_whitespace_skipped(text, offset + 1);
}

/// A move to the left from the start of a line that is not the first one passes the line
/// feed and the whitespace that ends the previous line, tabs included, and lands after
/// the last character of that line that is not whitespace, or at that line's start.
pub proof fn law_left_move_from_line_start(text: Seq<char>, offset: int)
    requires
        is_char_boundary_at(text, offset),
        0 < offset,
        text_bytes(text)[offset - 1] == NEWLINE_BYTE,
    ensures
        ({
            let landing = next_boundary_left_of(text, offset);
            let previous_start = line_start_of(text_bytes(text), offset - 1);
            &&& previous_start <= landing < offset
            &&& is_char_boundary_at(text, landing)
            &&& chars_in(text, offset - 1, offset) == seq!['\n']
            &&& forall|i: int|
                0 <= i < chars_in(text, landing, offset - 1).len() ==> is_whitespace_char(
                    #[trigger] chars_in(text, landing, offset - 1)[i],
                )
            &&& landing > previous_start ==> !is_whitespace_char(
                chars_in(text, previous_start, landing).last(),
            )
        }),
{
    let bytes = text_bytes(text);
    lemma_boundary_in_range(text, offset);
    lemma_boundary_iff_not_continuation(text, offset - 1);
    lemma_step(text, offset - 1);
    lemma_line_start_of(text, offset - 1);
    let previous_start = line_start_of(bytes, offset - 1);
    lemma_trailing_whitespace_start(text, previous_start, offset - 1);
    lemma_trailing_whitespace_skipped(text, previous_start, offset - 1);
}

/// Whether a subword starts or ends at char boundary `offset`.
pub fn is_boundary(text: &str, offset: usize) -> (r: bool)
    requires
        is_char_boundary_at(text@, offset as int),
    ensures
        r == is_subword_boundary(text@, offset as int),
{
    let previous = character_class(previous_character(text, offset));
    let current = character_class(current_character(text, offset));
    let next = character_class(next_character(text, offset));

    if previous.separator != current.separator {
        return true;
    }
    if current.underscore && !previous.underscore {
        return true;
    }
    if previous.underscore && !current.underscore {
        return true;
    }
    if current.numeric && !previous.numeric {
        return true;
    }
    if previous.numeric && !current.numeric {
        return true;
    }
    if current.upper && previous.lower {
        return true;
    }
    if current.upper && next.lower {
        return true;
    }
    false
}

/// Where a move to the right from `offset` lands (see `next_boundary_right_of`).
pub fn next_boundary_right(text: &str, offset: usize) -> (boundary: usize)
    requires
        is_char_boundary_at(text@, offset as int),
    ensures
        boundary == next_boundary_right_of(text@, offset as int),
        offset < line_end_of(text_bytes(text@), offset as int) ==> is_stop_right(
            text@,
            offset as int,
            line_end_of(text_bytes(text@), offset as int),
            boundary as int,
        ),
        is_char_boundary_at(text@, boundary as int),
        offset <= boundary,
        offset < text_bytes(text@).len() <==> offset < boundary,
{
    let len = text_len(text);
    proof {
        lemma_boundary_in_range(text@, offset as int);
    }
    let current_line_end = line_end(text, offset);
    proof {
        lemma_boundary_in_range(text@, current_line_end as int);
    }

    if offset < current_line_end {
        let mut boundary = next_char_boundary(text, offset);
        proof {
            lemma_step(text@, offset as int);
            if boundary > current_line_end {
                assert(!is_char_boundary_at(text@, current_line_end as int));
            }
        }
        while boundary <= current_line_end
            invariant
                offset < boundary <= current_line_end,
                current_line_end <= len,
                len == text_bytes(text@).len(),
                current_line_end == line_end_of(text_bytes(text@), offset as int),
                is_char_boundary_at(text@, boundary as int),
                is_char_boundary_at(text@, current_line_end as int),
                forall|m: int|
                    offset < m < boundary && is_char_boundary_at(text@, m)
                        ==> !is_subword_boundary(text@, m),
            decreases current_line_end - boundary,
        {
            if boundary == current_line_end || is_boundary(text, boundary) {
                proof {
                    lemma_stop_right_unique(
                        text@,
                        offset as int,
                        current_line_end as int,
                        boundary as int,
                    );
                }
                return boundary;
            }
            proof {
                lemma_step(text@, boundary as int);
            }
            let next = next_char_boundary(text, boundary);
            proof {
                if next > current_line_end {
                    assert(!is_char_boundary_at(text@, current_line_end as int));
                }
            }
            boundary = next;
        }
    }
    if current_line_end >= len {
        return current_line_end;
    }
    proof {
        lemma_step(text@, current_line_end as int);
    }
    let next_line_start = current_line_end + 1;
    let rest = text_after(text, next_line_start);
    let skipped = first_non_whitespace_offset(rest);
    proof {
        lemma_suffix_boundary(text@, next_line_start as int, skipped as int);
        lemma_boundary_in_range(text@, next_line_start + skipped);
    }
    next_line_start + skipped
}

/// Where a move to the left from `offset` lands (see `next_boundary_left_of`).
pub fn next_boundary_left(text: &str, offset: usize) -> (boundary: usize)
    requires
        is_char_boundary_at(text@, offset as int),
    ensures
        boundary == next_boundary_left_of(text@, offset as int),
        offset > line_start_of(text_bytes(text@), offset as int) ==> is_stop_left(
            text@,
            line_start_of(text_bytes(text@), offset as int),
            offset as int,
            boundary as int,
        ),
        is_char_boundary_at(text@, boundary as int),
        boundary <= offset,
        0 < offset <==> boundary < offset,
{
    proof {
        lemma_boundary_in_range(text@, offset as int);
    }
    let current_line_start = line_start(text, offset);

    if offset > current_line_start {
        let boundaries = previous_char_boundaries(text, current_line_start, offset);
        let mut i: usize = 0;
        while i < boundaries.len()
            invariant
                i <= boundaries.len(),
                current_line_start < offset,
                current_line_start == line_start_of(text_bytes(text@), offset as int),
                is_char_boundary_at(text@, current_line_start as int),
                forall|k: int|
                    0 <= k < boundaries.len() ==> current_line_start <= #[trigger] boundaries[k]
                        < offset && is_char_boundary_at(text@, boundaries[k] as int),
                forall|k: int, j: int|
                    0 <= k < j < boundaries.len() ==> boundaries[k] > boundaries[j],
                forall|b: int|
                    current_line_start <= b < offset && is_char_boundary_at(text@, b)
                        ==> boundaries@.contains(b as usize),
                forall|k: int|
                    0 <= k < i ==> #[trigger] boundaries[k] != current_line_start
                        && !is_subword_boundary(text@, boundaries[k] as int),
            decreases boundaries.len() - i,
        {
            let boundary = boundaries[i];
            if boundary == current_line_start || is_boundary(text, boundary) {
                proof {
                    assert forall|m: int|
                        boundary < m < offset && is_char_boundary_at(
                            text@,
                            m,
                        ) implies !is_subword_boundary(text@, m) by {
                        assert(boundaries@.contains(m as usize));
                        let k = choose|k: int|
                            0 <= k < boundaries.len() && boundaries@[k] == m as usize;
                        assert(boundaries[k] > boundaries[i as int]);
                        if k > i {
                            assert(boundaries[i as int] > boundaries[k]);
                        }
                    }
                    lemma_stop_left_unique(
                        text@,
                        current_line_start as int,
                        offset as int,
                        boundary as int,
                    );
                }
                return boundary;
            }
            i = i + 1;
        }
        proof {
            assert(boundaries@.contains(current_line_start));
            let k = choose|k: int|
                0 <= k < boundaries.len() && boundaries@[k] == current_line_start;
            assert(boundaries[k] != current_line_start);
        }
    }
    if current_line_start == 0 {
        return offset;
    }
    let previous_line_end = current_line_start - 1;
    proof {
        lemma_boundary_iff_not_continuation(text@, previous_line_end as int);
    }
    let previous_line_start = line_start(text, previous_line_end);
    let mut end = previous_line_end;
    proof {
        lemma_chars_empty(text@, previous_line_end as int);
        lemma_chars_empty(text@, previous_line_start as int);
    }
    while end > previous_line_start
        invariant
            chars_in(text@, previous_line_start as int, previous_line_start as int)
                =~= Seq::<char>::empty(),
            previous_line_start <= end <= previous_line_end,
            previous_line_end < offset,
            is_char_boundary_at(text@, end as int),
            is_char_boundary_at(text@, previous_line_start as int),
            is_char_boundary_at(text@, previous_line_end as int),
            trailing_whitespace_len(
                chars_in(text@, previous_line_start as int, previous_line_end as int),
            ) == (previous_line_end - end) + trailing_whitespace_len(
                chars_in(text@, previous_line_start as int, end as int),
            ),
        ensures
            previous_line_start <= end <= previous_line_end,
            is_char_boundary_at(text@, end as int),
            trailing_whitespace_len(
                chars_in(text@, previous_line_start as int, previous_line_end as int),
            ) == previous_line_end - end,
        decreases end,
    {
        let previous = previous_char_boundary(text, end);
        proof {
            lemma_boundary_in_range(text@, end as int);
            if previous < previous_line_start {
                assert(!is_char_boundary_at(text@, previous_line_start as int));
            }
            lemma_step(text@, previous as int);
            lemma_chars_split(
                text@,
                previous_line_start as int,
                previous as int,
                end as int,
            );
            let c = chars_after(text@, previous as int)[0];
            assert(chars_in(text@, previous_line_start as int, end as int) =~= chars_in(
                text@,
                previous_line_start as int,
                previous as int,
            ).push(c));
            assert(chars_in(text@, previous_line_start as int, end as int).drop_last() =~= chars_in(
                text@,
                previous_line_start as int,
                previous as int,
            ));
        }
        let c = current_character(text, previous).unwrap();
        if !char_is_whitespace(c) {
            break;
        }
        end = previous;
    }
    end
}

/// The outcome of checking that `offset` is at a char boundary of `text`.
pub fn validate_offset(text: &str, offset: usize) -> (r: Result<(), NavigationError>)
    ensures
        r is Ok <==> is_char_boundary_at(text@, offset as int),
        r is Err ==> r == Err::<(), NavigationError>(NavigationError::InvalidOffset),
{
    proof {
        if is_char_boundary_at(text@, offset as int) {
            lemma_boundary_in_range(text@, offset as int);
        }
    }
    if offset <= text_len(text) && text.is_char_boundary(offset) {
        Ok(())
    } else {
        Err(NavigationError::InvalidOffset)
    }
}

/// Where a move in `direction` from `offset` lands, once `offset` is checked.
pub fn next_boundary(text: &str, offset: usize, direction: Direction) -> (r: Result<usize, NavigationError>)
    ensures
        r is Ok <==> is_char_boundary_at(text@, offset as int),
        r matches Ok(boundary) ==> boundary == next_boundary_of(text@, offset as int, direction)
            && is_char_boundary_at(text@, boundary as int),
        r matches Err(e) ==> e == NavigationError::InvalidOffset,
{
    validate_offset(text, offset)?;
    match direction {
        Direction::Left => Ok(next_boundary_left(text, offset)),
        Direction::Right => Ok(next_boundary_right(text, offset)),
    }
}

} // verus!
