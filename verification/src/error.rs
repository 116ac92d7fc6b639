//! The ways a command can fail.

use vstd::prelude::*;
use vstd::string::*;

verus! {

/// Why a command could not be carried out.
#[derive(Debug, Clone, Copy, PartialEq, Eq, Structural)]
pub enum NavigationError {
    /// A selection offset lies past the text or inside a character.
    InvalidOffset,
    /// A selection start does not fit in `usize`.
    SelectionStartTooLarge,
    /// A selection end does not fit in `usize`.
    SelectionEndTooLarge,
    /// The start of a range to delete does not fit in `u32`.
    EditStartTooLarge,
    /// The end of a range to delete does not fit in `u32`.
    EditEndTooLarge,
    /// An edit's range ends before it starts.
    EditRangeReversed,
    /// An edit's replacement is longer than `u64` can count.
    ReplacementTooLongForU64,
    /// A remapped offset is past `u64::MAX`.
    OffsetOverflow,
    /// A remapped offset is below zero.
    OffsetUnderflow,
    /// An edit's replacement is longer than `i64` can count.
    ReplacementTooLongForI64,
    /// An edit's range is longer than `i64` can count.
    RangeTooLongForI64,
    /// The accumulated length change of the edits is out of `i64`'s range.
    DeltaOverflow,
}

/// The message that reports an error to the editor.
pub open spec fn error_message(error: NavigationError) -> Seq<char> {
    match error {
        NavigationError::InvalidOffset => "Selection offset was not on a valid text boundary"@,
        NavigationError::SelectionStartTooLarge => "Selection start exceeded usize"@,
        NavigationError::SelectionEndTooLarge => "Selection end exceeded usize"@,
        NavigationError::EditStartTooLarge => "Edit range start exceeded u32"@,
        NavigationError::EditEndTooLarge => "Edit range end exceeded u32"@,
        NavigationError::EditRangeReversed => "Edit range end preceded start"@,
        NavigationError::ReplacementTooLongForU64 => "Edit replacement length exceeded u64"@,
        NavigationError::OffsetOverflow => "Mapped selection offset overflowed"@,
        NavigationError::OffsetUnderflow => "Mapped selection offset underflowed"@,
        NavigationError::ReplacementTooLongForI64 => "Edit replacement length exceeded i64"@,
        NavigationError::RangeTooLongForI64 => "Edit range length exceeded i64"@,
        NavigationError::DeltaOverflow => "Selection offset delta overflowed"@,
    }
}

impl NavigationError {
    /// The message that reports this error to the editor.
    pub fn message(&self) -> (message: String)
        ensures
            message@ == error_message(*self),
    {
        match self {
            NavigationError::InvalidOffset => String::from_str(
                "Selection offset was not on a valid text boundary",
            ),
            NavigationError::SelectionStartTooLarge => String::from_str(
                "Selection start exceeded usize",
            ),
            NavigationError::SelectionEndTooLarge => String::from_str(
                "Selection end exceeded usize",
            ),
            NavigationError::EditStartTooLarge => String::from_str("Edit range start exceeded u32"),
            NavigationError::EditEndTooLarge => String::from_str("Edit range end exceeded u32"),
            NavigationError::EditRangeReversed => String::from_str("Edit range end preceded start"),
            NavigationError::ReplacementTooLongForU64 => String::from_str(
                "Edit replacement length exceeded u64",
            ),
            NavigationError::OffsetOverflow => String::from_str(
                "Mapped selection offset overflowed",
            ),
            NavigationError::OffsetUnderflow => String::from_str(
                "Mapped selection offset underflowed",
            ),
            NavigationError::ReplacementTooLongForI64 => String::from_str(
                "Edit replacement length exceeded i64",
            ),
            NavigationError::RangeTooLongForI64 => String::from_str(
                "Edit range length exceeded i64",
            ),
            NavigationError::DeltaOverflow => String::from_str("Selection offset delta overflowed"),
        }
    }
}

} // verus!
