//! Lines of a text and the whitespace at their edges.

use vstd::prelude::*;
use crate::char_class::{char_is_whitespace, is_whitespace_char};
use crate::text::{
    char_len, char_len_utf8, chars_after, chars_in, current_character, is_char_boundary_at,
    lemma_chars_split,
    lemma_boundary_iff_not_continuation, lemma_boundary_in_range, lemma_chars_empty,
    lemma_ends_are_boundaries, lemma_step, lemma_text_split, text_bytes, text_len,
};

verus! {

/// The byte of a line feed, `'\n'`.
pub const NEWLINE_BYTE: u8 = 10;

/// The offset just past the last line feed before `offset`, or 0 when there is none.
pub open spec fn line_start_of(bytes: Seq<u8>, offset: int) -> int
    decreases offset,
{
    if offset <= 0 {
        0
    } else if bytes[offset - 1] == NEWLINE_BYTE {
        offset
    } else {
        line_start_of(bytes, offset - 1)
    }
}

/// The offset of the first line feed at or after `offset`, or the length of the bytes
/// when there is none.
pub open spec fn line_end_of(bytes: Seq<u8>, offset: int) -> int
    decreases bytes.len() - offset,
{
    if offset >= bytes.len() {
        bytes.len() as int
    } else if bytes[offset] == NEWLINE_BYTE {
        offset
    } else {
        line_end_of(bytes, offset + 1)
    }
}

/// The number of bytes taken by the whitespace characters that begin `s`.
pub open spec fn leading_whitespace_len(s: Seq<char>) -> nat
    decreases s.len(),
{
    if s.len() == 0 {
        0
    } else if !is_whitespace_char(s[0]) {
        0
    } else {
        char_len(s[0]) + leading_whitespace_len(s.drop_first())
    }
}

/// The number of bytes taken by the whitespace characters that end `s`.
pub open spec fn trailing_whitespace_len(s: Seq<char>) -> nat
    decreases s.len(),
{
    if s.len() == 0 {
        0
    } else if !is_whitespace_char(s.last()) {
        0
    } else {
        char_len(s.last()) + trailing_whitespace_len(s.drop_last())
    }
}

/// Over bytes without a line feed, the start of the line stays where it was.
pub proof fn lemma_line_start_across(bytes: Seq<u8>, s: int, o: int)
    requires
        0 <= s <= o <= bytes.len(),
        forall|j: int| s <= j < o ==> bytes[j] != NEWLINE_BYTE,
    ensures
        line_start_of(bytes, o) == line_start_of(bytes, s),
    decreases o,
{
    if s < o {
        lemma_line_start_across(bytes, s, o - 1);
    }
}

/// The start of a line lies at or before the offset it is taken from, on a char boundary
/// after a line feed or at the start of the text.
pub proof fn lemma_line_start_of(text: Seq<char>, offset: int)
    requires
        0 <= offset <= text_bytes(text).len(),
    ensures
        0 <= line_start_of(text_bytes(text), offset) <= offset,
        is_char_boundary_at(text, line_start_of(text_bytes(text), offset)),
        line_start_of(text_bytes(text), offset) > 0 ==> text_bytes(text)[line_start_of(
            text_bytes(text),
            offset,
        ) - 1] == NEWLINE_BYTE,
    decreases offset,
{
    let bytes = text_bytes(text);
    if offset <= 0 {
        lemma_ends_are_boundaries(text);
    } else if bytes[offset - 1] == NEWLINE_BYTE {
        lemma_boundary_iff_not_continuation(text, offset - 1);
        lemma_step(text, offset - 1);
    } else {
        lemma_line_start_of(text, offset - 1);
    }
}

/// The end of a line lies at or after the offset it is taken from, on a line feed or at
/// the end of the text.
pub proof fn lemma_line_end_of(text: Seq<char>, offset: int)
    requires
        0 <= offset <= text_bytes(text).len(),
    ensures
        offset <= line_end_of(text_bytes(text), offset) <= text_bytes(text).len(),
        is_char_boundary_at(text, line_end_of(text_bytes(text), offset)),
        line_end_of(text_bytes(text), offset) < text_bytes(text).len() ==> text_bytes(
            text,
        )[line_end_of(text_bytes(text), offset)] == NEWLINE_BYTE,
    decreases text_bytes(text).len() - offset,
{
    let bytes = text_bytes(text);
    if offset >= bytes.len() {
        lemma_ends_are_boundaries(text);
    } else if bytes[offset] == NEWLINE_BYTE {
        lemma_boundary_iff_not_continuation(text, offset);
    } else {
        lemma_line_end_of(text, offset + 1);
    }
}

/// Skipping the whitespace that starts at a boundary ends on a boundary within the text.
pub proof fn lemma_leading_whitespace_end(text: Seq<char>, offset: int)
    requires
        is_char_boundary_at(text, offset),
    ensures
        offset + leading_whitespace_len(chars_after(text, offset)) <= text_bytes(text).len(),
        is_char_boundary_at(text, offset + leading_whitespace_len(chars_after(text, offset))),
    decreases text_bytes(text).len() - offset,
{
    lemma_boundary_in_range(text, offset);
    if offset == text_bytes(text).len() {
        lemma_chars_empty(text, offset);
    } else {
        lemma_step(text, offset);
        let c = chars_after(text, offset)[0];
        if is_whitespace_char(c) {
            lemma_leading_whitespace_end(text, offset + char_len(c));
        }
    }
}

/// Dropping the whitespace that ends the characters in `start..end`, for any boundary
/// `end` from `offset` on, ends on a boundary in `start..=end`, when it does so for
/// `offset`.
proof fn lemma_trailing_whitespace_start_from(text: Seq<char>, start: int, offset: int, end: int)
    requires
        is_char_boundary_at(text, start),
        is_char_boundary_at(text, offset),
        is_char_boundary_at(text, end),
        start <= offset <= end,
        start <= offset - trailing_whitespace_len(chars_in(text, start, offset)),
        is_char_boundary_at(text, offset - trailing_whitespace_len(chars_in(text, start, offset))),
    ensures
        start <= end - trailing_whitespace_len(chars_in(text, start, end)),
        is_char_boundary_at(text, end - trailing_whitespace_len(chars_in(text, start, end))),
    decreases end - offset,
{
    if offset < end {
        lemma_boundary_in_range(text, end);
        lemma_step(text, offset);
        let c = chars_after(text, offset)[0];
        let next = offset + char_len(c);
        if next > end {
            assert(!is_char_boundary_at(text, end));
        }
        lemma_chars_split(text, start, offset, next);
        let before = chars_in(text, start, offset);
        assert(chars_in(text, start, next) =~= before.push(c));
        assert(before.push(c).drop_last() =~= before);
        lemma_trailing_whitespace_start_from(text, start, next, end);
    }
}

/// Dropping the whitespace that ends the characters between two boundaries ends on a
/// boundary between them.
pub proof fn lemma_trailing_whitespace_start(text: Seq<char>, start: int, end: int)
    requires
        is_char_boundary_at(text, start),
        is_char_boundary_at(text, end),
        start <= end,
    ensures
        start <= end - trailing_whitespace_len(chars_in(text, start, end)) <= end,
        is_char_boundary_at(text, end - trailing_whitespace_len(chars_in(text, start, end))),
{
    lemma_boundary_in_range(text, start);
    lemma_chars_empty(text, start);
    lemma_trailing_whitespace_start_from(text, start, start, end);
}

/// Skipping the whitespace that starts at a boundary passes only whitespace characters
/// and stops before a character that is not whitespace, or at the end of the text.
pub proof fn lemma_leading_whitespace_skipped(text: Seq<char>, offset: int)
    requires
        is_char_boundary_at(text, offset),
    ensures
        ({
            let skipped = offset + leading_whitespace_len(chars_after(text, offset));
            &&& forall|i: int|
                0 <= i < chars_in(text, offset, skipped).len() ==> is_whitespace_char(
                    #[trigger] chars_in(text, offset, skipped)[i],
                )
            &&& chars_after(text, skipped).len() > 0 ==> !is_whitespace_char(
                chars_after(text, skipped)[0],
            )
        }),
    decreases text_bytes(text).len() - offset,
{
    lemma_boundary_in_range(text, offset);
    lemma_leading_whitespace_end(text, offset);
    if offset == text_bytes(text).len() {
        lemma_chars_empty(text, offset);
    } else {
        lemma_step(text, offset);
        let c = chars_after(text, offset)[0];
        let next = offset + char_len(c);
        if is_whitespace_char(c) {
            lemma_leading_whitespace_skipped(text, next);
            lemma_leading_whitespace_end(text, next);
            let skipped = next + leading_whitespace_len(chars_after(text, next));
            lemma_chars_split(text, offset, next, skipped);
            assert forall|i: int|
                0 <= i < chars_in(text, offset, skipped).len() implies is_whitespace_char(
                #[trigger] chars_in(text, offset, skipped)[i],
            ) by {
                if i > 0 {
                    assert(chars_in(text, offset, skipped)[i] == chars_in(text, next, skipped)[i
                        - 1]);
                }
            }
        } else {
            lemma_chars_empty(text, offset);
        }
    }
}

/// Dropping the whitespace that ends the characters in `start..end`, for any boundary
/// `end` from `offset` on, drops only whitespace and stops after a character that is not
/// whitespace, or at `start`, when it does so for `offset`.
proof fn lemma_trailing_whitespace_skipped_from(text: Seq<char>, start: int, offset: int, end: int)
    requires
        is_char_boundary_at(text, start),
        is_char_boundary_at(text, offset),
        is_char_boundary_at(text, end),
        start <= offset <= end,
        start <= offset - trailing_whitespace_len(chars_in(text, start, offset)),
        is_char_boundary_at(text, offset - trailing_whitespace_len(chars_in(text, start, offset))),
        ({
            let kept = offset - trailing_whitespace_len(chars_in(text, start, offset));
            &&& forall|i: int|
                0 <= i < chars_in(text, kept, offset).len() ==> is_whitespace_char(
                    #[trigger] chars_in(text, kept, offset)[i],
                )
            &&& kept > start ==> !is_whitespace_char(chars_in(text, start, kept).last())
        }),
    ensures
        ({
            let kept = end - trailing_whitespace_len(chars_in(text, start, end));
            &&& forall|i: int|
                0 <= i < chars_in(text, kept, end).len() ==> is_whitespace_char(
                    #[trigger] chars_in(text, kept, end)[i],
                )
            &&& kept > start ==> !is_whitespace_char(chars_in(text, start, kept).last())
        }),
    decreases end - offset,
{
    if offset < end {
        lemma_boundary_in_range(text, end);
        lemma_step(text, offset);
        let c = chars_after(text, offset)[0];
        let next = offset + char_len(c);
        if next > end {
            assert(!is_char_boundary_at(text, end));
        }
        lemma_chars_split(text, start, offset, next);
        let before = chars_in(text, start, offset);
        assert(chars_in(text, start, next) =~= before.push(c));
        assert(before.push(c).drop_last() =~= before);
        lemma_trailing_whitespace_start_from(text, start, offset, next);
        let kept = offset - trailing_whitespace_len(before);
        if is_whitespace_char(c) {
            lemma_chars_split(text, kept, offset, next);
            assert forall|i: int|
                0 <= i < chars_in(text, kept, next).len() implies is_whitespace_char(
                #[trigger] chars_in(text, kept, next)[i],
            ) by {
                if i < chars_in(text, kept, offset).len() {
                    assert(chars_in(text, kept, next)[i] == chars_in(text, kept, offset)[i]);
                }
            }
        } else {
            lemma_boundary_in_range(text, offset);
            lemma_chars_empty(text, next);
        }
        lemma_trailing_whitespace_skipped_from(text, start, next, end);
    }
}

/// Dropping the whitespace that ends the characters between two boundaries drops only
/// whitespace, and stops after a character that is not whitespace or at the first boundary.
pub proof fn lemma_trailing_whitespace_skipped(text: Seq<char>, start: int, end: int)
    requires
        is_char_boundary_at(text, start),
        is_char_boundary_at(text, end),
        start <= end,
    ensures
        ({
            let kept = end - trailing_whitespace_len(chars_in(text, start, end));
            &&& forall|i: int|
                0 <= i < chars_in(text, kept, end).len() ==> is_whitespace_char(
                    #[trigger] chars_in(text, kept, end)[i],
                )
            &&& kept > start ==> !is_whitespace_char(chars_in(text, start, kept).last())
        }),
{
    lemma_boundary_in_range(text, start);
    lemma_chars_empty(text, start);
    lemma_trailing_whitespace_skipped_from(text, start, start, end);
}

/// Appending a character adds its encoding's length to the encoding's length.
proof fn lemma_encoded_len_push(s: Seq<char>, c: char)
    ensures
        text_bytes(s.push(c)).len() == text_bytes(s).len() + char_len(c),
    decreases s.len(),
{
    if s.len() == 0 {
        assert(s.push(c).drop_first() =~= Seq::<char>::empty());
        assert(text_bytes(Seq::<char>::empty()) =~= Seq::<u8>::empty());
    } else {
        assert(s.push(c).drop_first() =~= s.drop_first().push(c));
        lemma_encoded_len_push(s.drop_first(), c);
    }
}

/// The leading whitespace of `s` is a run of `count` whitespace characters that the next
/// character, if any, does not continue; `leading_whitespace_len` is the number of bytes
/// of that run.
pub proof fn law_leading_whitespace_run(s: Seq<char>) -> (count: int)
    ensures
        0 <= count <= s.len(),
        forall|i: int| 0 <= i < count ==> is_whitespace_char(#[trigger] s[i]),
        count < s.len() ==> !is_whitespace_char(s[count]),
        leading_whitespace_len(s) == text_bytes(s.take(count)).len(),
    decreases s.len(),
{
    if s.len() == 0 || !is_whitespace_char(s[0]) {
        assert(s.take(0) =~= Seq::<char>::empty());
        assert(text_bytes(Seq::<char>::empty()) =~= Seq::<u8>::empty());
        0
    } else {
        let rest = s.drop_first();
        let inner = law_leading_whitespace_run(rest);
        let count = inner + 1;
        assert forall|i: int| 0 <= i < count implies is_whitespace_char(#[trigger] s[i]) by {
            if i > 0 {
                assert(s[i] == rest[i - 1]);
            }
        }
        if count < s.len() {
            assert(s[count] == rest[inner]);
        }
        assert(s.take(count).drop_first() =~= rest.take(inner));
        count
    }
}

/// The trailing whitespace of `s` is a run of `count` whitespace characters that the
/// character before it, if any, does not continue; `trailing_whitespace_len` is the number
/// of bytes of that run.
pub proof fn law_trailing_whitespace_run(s: Seq<char>) -> (count: int)
    ensures
        0 <= count <= s.len(),
        forall|i: int| s.len() - count <= i < s.len() ==> is_whitespace_char(#[trigger] s[i]),
        count < s.len() ==> !is_whitespace_char(s[s.len() - count - 1]),
        trailing_whitespace_len(s) == text_bytes(s.skip(s.len() - count)).len(),
    decreases s.len(),
{
    if s.len() == 0 || !is_whitespace_char(s.last()) {
        assert(s.skip(s.len() as int) =~= Seq::<char>::empty());
        assert(text_bytes(Seq::<char>::empty()) =~= Seq::<u8>::empty());
        0
    } else {
        let rest = s.drop_last();
        let inner = law_trailing_whitespace_run(rest);
        let count = inner + 1;
        assert forall|i: int| s.len() - count <= i < s.len() implies is_whitespace_char(
            #[trigger] s[i],
        ) by {
            if i < s.len() - 1 {
                assert(s[i] == rest[i]);
            }
        }
        if count < s.len() {
            assert(s[s.len() - count - 1] == rest[rest.len() - inner - 1]);
        }
        let tail = rest.skip(rest.len() - inner);
        assert(s.skip(s.len() - count) =~= tail.push(s.last()));
        lemma_encoded_len_push(tail, s.last());
        count
    }
}

/// The start of the line that holds `offset`.
pub fn line_start(text: &str, offset: usize) -> (start: usize)
    requires
        is_char_boundary_at(text@, offset as int),
    ensures
        start == line_start_of(text_bytes(text@), offset as int),
        start <= offset,
        is_char_boundary_at(text@, start as int),
        start > 0 ==> text_bytes(text@)[start - 1] == NEWLINE_BYTE,
        forall|p: int| start <= p < offset ==> text_bytes(text@)[p] != NEWLINE_BYTE,
{
    let bytes = text.as_bytes();
    proof {
        lemma_boundary_in_range(text@, offset as int);
    }
    let mut start = offset;
    while start > 0 && bytes[start - 1] != NEWLINE_BYTE
        invariant
            start <= offset <= bytes@.len(),
            bytes@ == text_bytes(text@),
            line_start_of(bytes@, offset as int) == line_start_of(bytes@, start as int),
            forall|p: int| start <= p < offset ==> bytes@[p] != NEWLINE_BYTE,
        decreases start,
    {
        start = start - 1;
    }
    proof {
        if start == 0 {
            lemma_ends_are_boundaries(text@);
        } else {
            lemma_boundary_iff_not_continuation(text@, start - 1);
            lemma_step(text@, start - 1);
        }
    }
    start
}

/// The end of the line that holds `offset`: its line feed, or the end of the text.
pub fn line_end(text: &str, offset: usize) -> (end: usize)
    requires
        is_char_boundary_at(text@, offset as int),
    ensures
        end == line_end_of(text_bytes(text@), offset as int),
        offset <= end,
        is_char_boundary_at(text@, end as int),
        end < text_bytes(text@).len() ==> text_bytes(text@)[end as int] == NEWLINE_BYTE,
        forall|p: int| offset <= p < end ==> text_bytes(text@)[p] != NEWLINE_BYTE,
{
    let bytes = text.as_bytes();
    let len = bytes.len();
    proof {
        lemma_boundary_in_range(text@, offset as int);
    }
    let mut end = offset;
    while end < len && bytes[end] != NEWLINE_BYTE
        invariant
            offset <= end <= len,
            len == bytes@.len(),
            bytes@ == text_bytes(text@),
            line_end_of(bytes@, offset as int) == line_end_of(bytes@, end as int),
            forall|p: int| offset <= p < end ==> bytes@[p] != NEWLINE_BYTE,
        decreases len - end,
    {
        end = end + 1;
    }
    proof {
        if end == len {
            lemma_ends_are_boundaries(text@);
        } else {
            lemma_boundary_iff_not_continuation(text@, end as int);
        }
    }
    end
}

/// The offset of the first character of `text` that is not whitespace, or the length of
/// the text when all of it is whitespace.
pub fn first_non_whitespace_offset(text: &str) -> (offset: usize)
    ensures
        offset == leading_whitespace_len(text@),
        is_char_boundary_at(text@, offset as int),
{
    let len = text_len(text);
    let mut offset: usize = 0;
    proof {
        lemma_ends_are_boundaries(text@);
        lemma_text_split(text@, 0);
        lemma_chars_empty(text@, 0);
        assert(chars_after(text@, 0) =~= text@);
    }
    while offset < len
        invariant
            offset <= len,
            len == text_bytes(text@).len(),
            is_char_boundary_at(text@, offset as int),
            leading_whitespace_len(text@) == offset + leading_whitespace_len(
                chars_after(text@, offset as int),
            ),
        decreases len - offset,
    {
        proof {
            lemma_step(text@, offset as int);
        }
        let c = current_character(text, offset).unwrap();
        if !char_is_whitespace(c) {
            return offset;
        }
        offset = offset + char_len_utf8(c);
    }
    proof {
        lemma_chars_empty(text@, offset as int);
    }
    offset
}

} // verus!
