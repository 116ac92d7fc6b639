//! Classification of characters into the kinds that subword boundaries separate.

use vstd::prelude::*;

verus! {

/// Whether `c` has Unicode's White_Space property, the property that `char::is_whitespace`
/// reports: the controls U+0009 to U+000D, the space U+0020, U+0085, U+00A0, U+1680, the
/// spaces U+2000 to U+200A, U+2028, U+2029, U+202F, U+205F and U+3000.
pub open spec fn is_whitespace_char(c: char) -> bool {
    ||| '\u{9}' <= c <= '\u{d}'
    ||| c == ' '
    ||| c == '\u{85}'
    ||| c == '\u{a0}'
    ||| c == '\u{1680}'
    ||| '\u{2000}' <= c <= '\u{200a}'
    ||| c == '\u{2028}'
    ||| c == '\u{2029}'
    ||| c == '\u{202f}'
    ||| c == '\u{205f}'
    ||| c == '\u{3000}'
}

/// Whether a character outside ASCII has Unicode's Uppercase property, as
/// `char::is_uppercase` reports it.
pub uninterp spec fn has_uppercase_property(c: char) -> bool;

/// Whether a character outside ASCII has Unicode's Lowercase property, as
/// `char::is_lowercase` reports it.
pub uninterp spec fn has_lowercase_property(c: char) -> bool;

/// Whether `c` has Unicode's Uppercase property: within ASCII exactly `'A'..='Z'`.
pub open spec fn is_uppercase_char(c: char) -> bool {
    if c <= '\u{7f}' {
        'A' <= c <= 'Z'
    } else {
        has_uppercase_property(c)
    }
}

/// Whether `c` has Unicode's Lowercase property: within ASCII exactly `'a'..='z'`.
pub open spec fn is_lowercase_char(c: char) -> bool {
    if c <= '\u{7f}' {
        'a' <= c <= 'z'
    } else {
        has_lowercase_property(c)
    }
}

/// Calls `char::is_whitespace`, which is true exactly of the characters with Unicode's
/// White_Space property, listed in `is_whitespace_char`.
#[verifier::external_body]
pub(crate) fn char_is_whitespace(c: char) -> (r: bool)
    ensures
        r == is_whitespace_char(c),
{
    c.is_whitespace()
}

/// Calls `char::is_uppercase`, which is true exactly of the characters with Unicode's
/// Uppercase property. The contract states that this is `'A'..='Z'` within ASCII; outside
/// ASCII the property is a table of the Unicode database, left named
/// (`has_uppercase_property`), as a function of `c` alone.
#[verifier::external_body]
pub(crate) fn char_is_uppercase(c: char) -> (r: bool)
    ensures
        c <= '\u{7f}' ==> r == ('A' <= c <= 'Z'),
        c > '\u{7f}' ==> r == has_uppercase_property(c),
{
    c.is_uppercase()
}

/// Calls `char::is_lowercase`, which is true exactly of the characters with Unicode's
/// Lowercase property. The contract states that this is `'a'..='z'` within ASCII; outside
/// ASCII the property is a table of the Unicode database, left named
/// (`has_lowercase_property`), as a function of `c` alone.
#[verifier::external_body]
pub(crate) fn char_is_lowercase(c: char) -> (r: bool)
    ensures
        c <= '\u{7f}' ==> r == ('a' <= c <= 'z'),
        c > '\u{7f}' ==> r == has_lowercase_property(c),
{
    c.is_lowercase()
}

/// An ASCII decimal digit, `'0'..='9'`.
pub open spec fn is_ascii_digit_char(c: char) -> bool {
    '0' <= c <= '9'
}

/// The ASCII punctuation that separates words.
pub open spec fn is_punctuation_separator(c: char) -> bool {
    c == '`' || c == '~' || c == '!' || c == '@' || c == '#' || c == '$' || c == '%' || c == '^'
        || c == '&' || c == '*' || c == '(' || c == ')' || c == '-' || c == '=' || c == '+' || c
        == '[' || c == '{' || c == ']' || c == '}' || c == '\\' || c == '|' || c == ';' || c
        == ':' || c == '\'' || c == '"' || c == ',' || c == '.' || c == '<' || c == '>' || c
        == '/' || c == '?'
}

/// A character that separates words: listed punctuation or whitespace.
pub open spec fn is_separator_char(c: char) -> bool {
    is_punctuation_separator(c) || is_whitespace_char(c)
}

/// Whether `character` separates words.
pub fn is_separator(character: char) -> (r: bool)
    ensures
        r == is_separator_char(character),
{
    let c = character;
    let punctuation = c == '`' || c == '~' || c == '!' || c == '@' || c == '#' || c == '$' || c
        == '%' || c == '^' || c == '&' || c == '*' || c == '(' || c == ')' || c == '-' || c == '='
        || c == '+' || c == '[' || c == '{' || c == ']' || c == '}' || c == '\\' || c == '|' || c
        == ';' || c == ':' || c == '\'' || c == '"' || c == ',' || c == '.' || c == '<' || c
        == '>' || c == '/' || c == '?';
    punctuation || char_is_whitespace(c)
}

/// The kind of a character, as far as subword boundaries are concerned. At most one of
/// the fields is set; none is for a missing character and for characters of no kind.
#[derive(Clone, Copy, Debug)]
pub struct CharacterClass {
    pub upper: bool,
    pub lower: bool,
    pub numeric: bool,
    pub underscore: bool,
    /// The separator character itself, so that different separators differ.
    pub separator: Option<char>,
}

/// The class with no field set.
pub open spec fn no_class() -> CharacterClass {
    CharacterClass { upper: false, lower: false, numeric: false, underscore: false, separator: None }
}

impl Default for CharacterClass {
    fn default() -> (r: CharacterClass)
        ensures
            r == no_class(),
    {
        CharacterClass {
            upper: false,
            lower: false,
            numeric: false,
            underscore: false,
            separator: None,
        }
    }
}

/// The class of a character, tried in order: underscore, separator, ASCII digit, a
/// letter that is uppercase and not lowercase, one that is lowercase and not uppercase.
pub open spec fn class_of(character: Option<char>) -> CharacterClass {
    match character {
        None => no_class(),
        Some(c) => if c == '_' {
            CharacterClass { underscore: true, ..no_class() }
        } else if is_separator_char(c) {
            CharacterClass { separator: Some(c), ..no_class() }
        } else if is_ascii_digit_char(c) {
            CharacterClass { numeric: true, ..no_class() }
        } else if is_uppercase_char(c) && !is_lowercase_char(c) {
            CharacterClass { upper: true, ..no_class() }
        } else if is_lowercase_char(c) && !is_uppercase_char(c) {
            CharacterClass { lower: true, ..no_class() }
        } else {
            no_class()
        },
    }
}

/// Every ASCII digit `'0'..='9'` is of the numeric class and of no other.
pub proof fn law_ascii_digits_are_numeric(c: char)
    requires
        '0' <= c <= '9',
    ensures
        class_of(Some(c)) == (CharacterClass { numeric: true, ..no_class() }),
        !is_separator_char(c),
{
}

/// Every character of the separator punctuation `` ` ~ ! @ # $ % ^ & * ( ) - = + [ { ] } \ |
/// ; : ' " , . < > / ? `` and every whitespace character separates words, and is of the
/// separator class carrying the character itself.
pub proof fn law_separator_chars(c: char)
    requires
        c == '`' || c == '~' || c == '!' || c == '@' || c == '#' || c == '$' || c == '%' || c
            == '^' || c == '&' || c == '*' || c == '(' || c == ')' || c == '-' || c == '=' || c
            == '+' || c == '[' || c == '{' || c == ']' || c == '}' || c == '\\' || c == '|' || c
            == ';' || c == ':' || c == '\'' || c == '"' || c == ',' || c == '.' || c == '<' || c
            == '>' || c == '/' || c == '?' || c == ' ' || c == '\t' || c == '\n' || c == '\r'
            || is_whitespace_char(c),
    ensures
        is_separator_char(c),
        class_of(Some(c)) == (CharacterClass { separator: Some(c), ..no_class() }),
{
}

/// The class of `character` (see `class_of`).
pub fn character_class(character: Option<char>) -> (class: CharacterClass)
    ensures
        class == class_of(character),
{
    let c = match character {
        None => {
            return CharacterClass::default();
        },
        Some(c) => c,
    };
    let mut class = CharacterClass::default();
    if c == '_' {
        class.underscore = true;
    } else if is_separator(c) {
        class.separator = Some(c);
    } else if '0' <= c && c <= '9' {
        class.numeric = true;
    } else if char_is_uppercase(c) && !char_is_lowercase(c) {
        class.upper = true;
    } else if char_is_lowercase(c) && !char_is_uppercase(c) {
        class.lower = true;
    }
    class
}

} // verus!
