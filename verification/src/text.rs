//! The model of a text: its characters, their UTF-8 bytes, and byte offsets
//! that fall between characters.

use vstd::prelude::*;
use vstd::utf8::*;
use vstd::string::*;

verus! {

broadcast use {encode_utf8_valid_utf8, encode_utf8_decode_utf8};

/// The UTF-8 encoding of a character sequence.
pub open spec fn text_bytes(text: Seq<char>) -> Seq<u8> {
    encode_utf8(text)
}

/// `offset` is a byte offset at the start of a character of `text`, or at its end.
pub open spec fn is_char_boundary_at(text: Seq<char>, offset: int) -> bool {
    is_char_boundary(text_bytes(text), offset)
}

/// The characters whose encodings lie in the byte range `start..end` of `text`.
pub open spec fn chars_in(text: Seq<char>, start: int, end: int) -> Seq<char> {
    decode_utf8(text_bytes(text).subrange(start, end))
}

/// The characters before byte offset `offset`.
pub open spec fn chars_before(text: Seq<char>, offset: int) -> Seq<char> {
    chars_in(text, 0, offset)
}

/// The characters from byte offset `offset` on.
pub open spec fn chars_after(text: Seq<char>, offset: int) -> Seq<char> {
    chars_in(text, offset, text_bytes(text).len() as int)
}

/// The number of bytes in the UTF-8 encoding of `c`.
pub open spec fn char_len(c: char) -> nat {
    encode_scalar(c as u32).len()
}

/// The first character of a sequence, if any.
pub open spec fn first_char(s: Seq<char>) -> Option<char> {
    if s.len() > 0 {
        Some(s[0])
    } else {
        None
    }
}

/// The second character of a sequence, if any.
pub open spec fn second_char(s: Seq<char>) -> Option<char> {
    if s.len() > 1 {
        Some(s[1])
    } else {
        None
    }
}

/// The last character of a sequence, if any.
pub open spec fn last_char(s: Seq<char>) -> Option<char> {
    if s.len() > 0 {
        Some(s.last())
    } else {
        None
    }
}

/// A char boundary lies within the text's bytes.
pub proof fn lemma_boundary_in_range(text: Seq<char>, offset: int)
    requires
        is_char_boundary_at(text, offset),
    ensures
        0 <= offset <= text_bytes(text).len(),
{
}

/// The start and the end of a text are char boundaries.
pub proof fn lemma_ends_are_boundaries(text: Seq<char>)
    ensures
        is_char_boundary_at(text, 0),
        is_char_boundary_at(text, text_bytes(text).len() as int),
{
    is_char_boundary_start_end_of_seq(text_bytes(text));
}

/// Inside the bytes, the char boundaries are exactly the bytes that do not continue a character.
pub proof fn lemma_boundary_iff_not_continuation(text: Seq<char>, offset: int)
    requires
        0 <= offset < text_bytes(text).len(),
    ensures
        is_char_boundary_at(text, offset) <==> !is_continuation_byte(text_bytes(text)[offset]),
{
    is_char_boundary_iff_not_is_continuation_byte(text_bytes(text), offset);
}

/// Cutting a valid encoding at two char boundaries gives a valid encoding whose
/// char boundaries are those of the whole, shifted.
proof fn lemma_sub_boundaries(bytes: Seq<u8>, a: int, b: int)
    requires
        valid_utf8(bytes),
        is_char_boundary(bytes, a),
        is_char_boundary(bytes, b),
        a <= b,
    ensures
        valid_utf8(bytes.subrange(a, b)),
        forall|j: int|
            0 <= j <= b - a ==> (is_char_boundary(bytes.subrange(a, b), j) <==> is_char_boundary(
                bytes,
                a + j,
            )),
{
    let n = bytes.len() as int;
    assert(0 <= a <= n) by {
        reveal_with_fuel(is_char_boundary, 1);
    }
    assert(0 <= b <= n) by {
        reveal_with_fuel(is_char_boundary, 1);
    }
    valid_utf8_split(bytes, a);
    let tail = bytes.subrange(a, n);
    assert(is_char_boundary(tail, b - a)) by {
        if b == n {
            is_char_boundary_start_end_of_seq(tail);
        } else {
            is_char_boundary_iff_not_is_continuation_byte(bytes, b);
            is_char_boundary_iff_not_is_continuation_byte(tail, b - a);
        }
    }
    valid_utf8_split(tail, b - a);
    let x = bytes.subrange(a, b);
    assert(tail.subrange(0, b - a) =~= x);
    assert forall|j: int| 0 <= j <= b - a implies (is_char_boundary(x, j) <==> is_char_boundary(
        bytes,
        a + j,
    )) by {
        if j == b - a {
            is_char_boundary_start_end_of_seq(x);
        } else {
            is_char_boundary_iff_not_is_continuation_byte(x, j);
            is_char_boundary_iff_not_is_continuation_byte(bytes, a + j);
        }
    }
}

/// The characters between two boundaries split at any boundary in between.
pub proof fn lemma_chars_split(text: Seq<char>, a: int, m: int, b: int)
    requires
        is_char_boundary_at(text, a),
        is_char_boundary_at(text, m),
        is_char_boundary_at(text, b),
        a <= m <= b,
    ensures
        chars_in(text, a, b) == chars_in(text, a, m) + chars_in(text, m, b),
{
    let bytes = text_bytes(text);
    lemma_sub_boundaries(bytes, a, b);
    let x = bytes.subrange(a, b);
    assert(is_char_boundary(x, m - a));
    decode_utf8_split(x, m - a);
    assert(x.subrange(0, m - a) =~= bytes.subrange(a, m));
    assert(x.subrange(m - a, x.len() as int) =~= bytes.subrange(m, b));
}

/// The whole text is what lies before a boundary followed by what lies after it.
pub proof fn lemma_text_split(text: Seq<char>, offset: int)
    requires
        is_char_boundary_at(text, offset),
    ensures
        text == chars_before(text, offset) + chars_after(text, offset),
        chars_in(text, 0, text_bytes(text).len() as int) == text,
{
    let n = text_bytes(text).len() as int;
    lemma_ends_are_boundaries(text);
    lemma_chars_split(text, 0, offset, n);
    assert(text_bytes(text).subrange(0, n) =~= text_bytes(text));
}

/// No characters lie in an empty range.
pub proof fn lemma_chars_empty(text: Seq<char>, a: int)
    requires
        0 <= a <= text_bytes(text).len(),
    ensures
        chars_in(text, a, a) =~= Seq::<char>::empty(),
{
    assert(text_bytes(text).subrange(a, a) =~= Seq::<u8>::empty());
}

/// One character step forward from a boundary inside the text: the character there,
/// the boundary after it, and the bytes in between.
pub proof fn lemma_step(text: Seq<char>, offset: int)
    requires
        is_char_boundary_at(text, offset),
        offset < text_bytes(text).len(),
    ensures
        chars_after(text, offset).len() > 0,
        ({
            let c = chars_after(text, offset)[0];
            let next = offset + char_len(c);
            &&& 1 <= char_len(c) <= 4
            &&& next <= text_bytes(text).len()
            &&& is_char_boundary_at(text, next)
            &&& chars_in(text, offset, next) == seq![c]
            &&& chars_after(text, next) == chars_after(text, offset).drop_first()
            &&& chars_before(text, next) == chars_before(text, offset).push(c)
            &&& forall|j: int|
                offset < j < next ==> is_continuation_byte(#[trigger] text_bytes(text)[j])
            &&& forall|j: int| offset < j < next ==> !is_char_boundary_at(text, j)
            &&& text_bytes(text)[offset] < 0x80 ==> char_len(c) == 1
            &&& text_bytes(text)[offset] == 10 ==> c == '\n'
        }),
{
    let bytes = text_bytes(text);
    let n = bytes.len() as int;
    lemma_ends_are_boundaries(text);
    lemma_sub_boundaries(bytes, offset, n);
    let x = bytes.subrange(offset, n);
    assert(valid_first_scalar(x));
    let len = length_of_first_scalar(x);
    let c = decode_first_scalar(x) as char;
    assert(decode_utf8(x) == seq![c] + decode_utf8(pop_first_scalar(x)));
    assert(chars_after(text, offset)[0] == c);
    decode_utf8_first_scalar(x);
    char_is_scalar(c);
    assert(take_first_scalar(x).len() == len);
    if bytes[offset] < 0x80 {
        let b = x[0];
        assert(b < 0x80 ==> (b & 0x7F) as u32 == b as u32) by (bit_vector);
        assert(decode_first_scalar(x) == b as u32);
        if b == 10 {
            assert(c == '\n');
        }
    }
    assert(char_len(c) == len);
    assert(1 <= len <= 4);
    let next = offset + len;
    assert(is_char_boundary(x, len)) by {
        reveal_with_fuel(is_char_boundary, 2);
        is_char_boundary_start_end_of_seq(pop_first_scalar(x));
    }
    assert(is_char_boundary_at(text, next));
    assert(bytes.subrange(offset, next) =~= take_first_scalar(x));
    assert(encode_utf8(seq![c]) =~= encode_scalar(c as u32)) by {
        assert(seq![c].drop_first() =~= Seq::<char>::empty());
        assert(encode_utf8(Seq::<char>::empty()) =~= Seq::<u8>::empty());
        assert(encode_utf8(seq![c]) == encode_scalar(c as u32) + encode_utf8(seq![c].drop_first()));
    }
    assert(chars_in(text, offset, next) == seq![c]) by {
        encode_utf8_decode_utf8(seq![c]);
    }
    lemma_chars_split(text, offset, next, n);
    lemma_chars_split(text, 0, offset, next);
    assert(chars_after(text, next) =~= chars_after(text, offset).drop_first());
    assert(chars_before(text, next) =~= chars_before(text, offset).push(c));
    assert forall|j: int| offset < j < next implies is_continuation_byte(
        #[trigger] text_bytes(text)[j],
    ) by {
        assert(x[j - offset] == bytes[j]);
    }
    assert forall|j: int| offset < j < next implies !is_char_boundary_at(text, j) by {
        assert(x[j - offset] == bytes[j]);
        is_char_boundary_iff_not_is_continuation_byte(bytes, j);
    }
}

/// Between two different char boundaries lies at least one character.
pub proof fn lemma_chars_nonempty(text: Seq<char>, a: int, b: int)
    requires
        is_char_boundary_at(text, a),
        is_char_boundary_at(text, b),
        a < b,
    ensures
        chars_in(text, a, b).len() > 0,
{
    lemma_boundary_in_range(text, b);
    lemma_step(text, a);
    let next = a + char_len(chars_after(text, a)[0]);
    if next > b {
        assert(!is_char_boundary_at(text, b));
    }
    lemma_chars_split(text, a, next, b);
}

/// Between two boundaries with nothing but continuation bytes strictly between them,
/// there is exactly one character.
pub proof fn lemma_step_back(text: Seq<char>, prev: int, offset: int)
    requires
        is_char_boundary_at(text, offset),
        0 <= prev < offset,
        !is_continuation_byte(text_bytes(text)[prev]),
        forall|j: int| prev < j < offset ==> is_continuation_byte(#[trigger] text_bytes(text)[j]),
    ensures
        is_char_boundary_at(text, prev),
        chars_after(text, prev).len() > 0,
        prev + char_len(chars_after(text, prev)[0]) == offset,
        chars_before(text, offset) == chars_before(text, prev).push(chars_after(text, prev)[0]),
{
    lemma_boundary_in_range(text, offset);
    lemma_boundary_iff_not_continuation(text, prev);
    lemma_step(text, prev);
    let c = chars_after(text, prev)[0];
    let next = prev + char_len(c);
    if next < offset {
        lemma_boundary_iff_not_continuation(text, next);
    } else if next > offset {
        assert(!is_char_boundary_at(text, offset));
    }
}

/// A boundary of the text that follows a boundary `start` is, shifted by `start`, a boundary
/// of the whole text.
pub proof fn lemma_suffix_boundary(text: Seq<char>, start: int, offset: int)
    requires
        is_char_boundary_at(text, start),
        is_char_boundary_at(chars_after(text, start), offset),
    ensures
        is_char_boundary_at(text, start + offset),
        chars_after(chars_after(text, start), offset) == chars_after(text, start + offset),
{
    let bytes = text_bytes(text);
    let n = bytes.len() as int;
    lemma_ends_are_boundaries(text);
    lemma_sub_boundaries(bytes, start, n);
    let x = bytes.subrange(start, n);
    decode_utf8_encode_utf8(x);
    assert(text_bytes(chars_after(text, start)) == x);
    assert(0 <= offset <= x.len()) by {
        lemma_boundary_in_range(chars_after(text, start), offset);
    }
    assert(x.subrange(offset, x.len() as int) =~= bytes.subrange(start + offset, n));
}

/// The part of the text from char boundary `offset` on.
pub fn text_after<'a>(text: &'a str, offset: usize) -> (rest: &'a str)
    requires
        is_char_boundary_at(text@, offset as int),
    ensures
        rest@ == chars_after(text@, offset as int),
{
    proof {
        lemma_boundary_in_range(text@, offset as int);
    }
    let (_, rest) = text.split_at(offset);
    proof {
        assert(rest@ == decode_utf8(encode_utf8(rest@)));
    }
    rest
}

/// The character that starts at byte offset `offset`, if any.
pub fn current_character(text: &str, offset: usize) -> (c: Option<char>)
    requires
        is_char_boundary_at(text@, offset as int),
    ensures
        c == first_char(chars_after(text@, offset as int)),
{
    let rest = text_after(text, offset);
    if rest.is_empty() {
        None
    } else {
        Some(rest.get_char(0))
    }
}

/// The length of the text in bytes.
pub fn text_len(text: &str) -> (n: usize)
    ensures
        n == text_bytes(text@).len(),
{
    text.as_bytes().len()
}

/// Whether two texts hold the same characters.
pub fn text_eq(a: &str, b: &str) -> (r: bool)
    ensures
        r == (a@ == b@),
{
    let x = a.as_bytes();
    let y = b.as_bytes();
    if x.len() != y.len() {
        return false;
    }
    let mut i: usize = 0;
    while i < x.len()
        invariant
            i <= x.len(),
            x.len() == y.len(),
            x@ == text_bytes(a@),
            y@ == text_bytes(b@),
            forall|k: int| 0 <= k < i ==> x@[k] == y@[k],
        decreases x.len() - i,
    {
        if x[i] != y[i] {
            return false;
        }
        i = i + 1;
    }
    proof {
        assert(x@ =~= y@);
        assert(a@ == decode_utf8(encode_utf8(a@)));
        assert(b@ == decode_utf8(encode_utf8(b@)));
    }
    true
}

/// The number of bytes in the UTF-8 encoding of `c`.
pub fn char_len_utf8(c: char) -> (n: usize)
    ensures
        n == char_len(c),
        1 <= n <= 4,
{
    proof {
        char_is_scalar(c);
    }
    let u = c as u32;
    if u < 0x80 {
        1
    } else if u < 0x800 {
        2
    } else if u < 0x10000 {
        3
    } else {
        4
    }
}

/// The boundary after the character that starts at `offset`, or `offset` itself at
/// the end of the text.
pub fn next_char_boundary(text: &str, offset: usize) -> (next: usize)
    requires
        is_char_boundary_at(text@, offset as int),
    ensures
        next == match first_char(chars_after(text@, offset as int)) {
            Some(c) => offset + char_len(c),
            None => offset as int,
        },
        is_char_boundary_at(text@, next as int),
        offset < text_bytes(text@).len() ==> offset < next,
{
    let len = text_len(text);
    proof {
        lemma_boundary_in_range(text@, offset as int);
        lemma_ends_are_boundaries(text@);
        if offset < text_bytes(text@).len() {
            lemma_step(text@, offset as int);
        } else {
            lemma_chars_empty(text@, offset as int);
        }
    }
    if offset < len {
        let c = current_character(text, offset).unwrap();
        offset + char_len_utf8(c)
    } else {
        offset
    }
}

/// The boundary at the start of the character that ends at `offset`.
pub fn previous_char_boundary(text: &str, offset: usize) -> (prev: usize)
    requires
        is_char_boundary_at(text@, offset as int),
        offset > 0,
    ensures
        prev < offset,
        is_char_boundary_at(text@, prev as int),
        forall|j: int| prev < j < offset ==> !is_char_boundary_at(text@, j),
        chars_after(text@, prev as int).len() > 0,
        prev + char_len(chars_after(text@, prev as int)[0]) == offset,
        chars_before(text@, offset as int) == chars_before(text@, prev as int).push(
            chars_after(text@, prev as int)[0],
        ),
{
    let bytes = text.as_bytes();
    proof {
        lemma_boundary_in_range(text@, offset as int);
    }
    let mut prev = offset - 1;
    while prev > 0 && (0x80 <= bytes[prev] && bytes[prev] <= 0xbf)
        invariant
            prev < offset,
            bytes@ == text_bytes(text@),
            offset <= bytes@.len(),
            forall|j: int| prev < j < offset ==> is_continuation_byte(#[trigger] bytes@[j]),
        decreases prev,
    {
        prev = prev - 1;
    }
    proof {
        if prev == 0 {
            lemma_ends_are_boundaries(text@);
            lemma_boundary_iff_not_continuation(text@, 0);
        }
        lemma_step_back(text@, prev as int, offset as int);
        lemma_step(text@, prev as int);
    }
    prev
}

/// The character that ends at byte offset `offset`, if any.
pub fn previous_character(text: &str, offset: usize) -> (c: Option<char>)
    requires
        is_char_boundary_at(text@, offset as int),
    ensures
        c == last_char(chars_before(text@, offset as int)),
{
    if offset == 0 {
        proof {
            lemma_chars_empty(text@, 0);
        }
        None
    } else {
        let prev = previous_char_boundary(text, offset);
        current_character(text, prev)
    }
}

/// The character after the one that starts at byte offset `offset`, if any.
pub fn next_character(text: &str, offset: usize) -> (c: Option<char>)
    requires
        is_char_boundary_at(text@, offset as int),
    ensures
        c == second_char(chars_after(text@, offset as int)),
{
    let len = text_len(text);
    proof {
        lemma_boundary_in_range(text@, offset as int);
    }
    if offset < len {
        proof {
            lemma_step(text@, offset as int);
        }
        let character = current_character(text, offset).unwrap();
        let next_offset = offset + char_len_utf8(character);
        current_character(text, next_offset)
    } else {
        proof {
            lemma_chars_empty(text@, offset as int);
        }
        None
    }
}

/// The char boundaries in `start..end`, from the last to the first.
pub fn previous_char_boundaries(text: &str, start: usize, end: usize) -> (boundaries: Vec<usize>)
    requires
        is_char_boundary_at(text@, start as int),
        is_char_boundary_at(text@, end as int),
        start <= end,
    ensures
        forall|i: int|
            0 <= i < boundaries.len() ==> start <= #[trigger] boundaries[i] < end
                && is_char_boundary_at(text@, boundaries[i] as int),
        forall|i: int, j: int|
            0 <= i < j < boundaries.len() ==> boundaries[i] > boundaries[j],
        forall|b: int|
            start <= b < end && is_char_boundary_at(text@, b) ==> boundaries@.contains(
                b as usize,
            ),
{
    let mut ascending: Vec<usize> = Vec::new();
    let mut offset = start;
    proof {
        lemma_boundary_in_range(text@, end as int);
    }
    while offset < end
        invariant
            start <= offset <= end,
            end <= text_bytes(text@).len(),
            is_char_boundary_at(text@, offset as int),
            is_char_boundary_at(text@, end as int),
            forall|i: int|
                0 <= i < ascending.len() ==> start <= #[trigger] ascending[i] < offset
                    && is_char_boundary_at(text@, ascending[i] as int),
            forall|i: int, j: int| 0 <= i < j < ascending.len() ==> ascending[i] < ascending[j],
            forall|b: int|
                start <= b < offset && is_char_boundary_at(text@, b) ==> ascending@.contains(
                    b as usize,
                ),
        decreases end - offset,
    {
        proof {
            lemma_step(text@, offset as int);
        }
        let next = next_char_boundary(text, offset);
        proof {
            if next > end {
                assert(!is_char_boundary_at(text@, end as int));
            }
        }
        let ghost before_push = ascending@;
        ascending.push(offset);
        proof {
            assert forall|b: int|
                start <= b < next && is_char_boundary_at(text@, b) implies ascending@.contains(
                b as usize,
            ) by {
                if b < offset {
                    assert(before_push.contains(b as usize));
                    let k = choose|k: int| 0 <= k < before_push.len() && before_push[k] == b as usize;
                    assert(ascending@[k] == b as usize);
                } else {
                    assert(b == offset);
                    assert(ascending@[ascending.len() - 1] == b as usize);
                }
            }
        }
        offset = next;
    }
    let mut boundaries: Vec<usize> = Vec::new();
    let mut k = ascending.len();
    while k > 0
        invariant
            k <= ascending.len(),
            boundaries.len() + k == ascending.len(),
            forall|i: int|
                0 <= i < boundaries.len() ==> #[trigger] boundaries[i] == ascending[ascending.len()
                    - 1 - i],
        decreases k,
    {
        k = k - 1;
        boundaries.push(ascending[k]);
    }
    proof {
        assert forall|b: int|
            start <= b < end && is_char_boundary_at(text@, b) implies boundaries@.contains(
            b as usize,
        ) by {
            let k = choose|k: int| 0 <= k < ascending.len() && ascending@[k] == b as usize;
            assert(boundaries[ascending.len() - 1 - k] == b as usize);
        }
    }
    boundaries
}

} // verus!
