use vstd::prelude::*;

verus! {

/// Errors raised while resolving data types or building a field-definition
/// tree from the flat token sequence. The copybook is structurally invalid;
/// no partial tree is returned.
#[derive(Clone, Copy, Debug, PartialEq, Eq, Structural)]
pub enum DefinitionError {
    /// The usage clause maps to no known storage format.
    UnsupportedUsage,
    /// The character count is zero or absent for a format that requires it.
    InvalidCharCount,
    /// No supported storage size can hold the declared digit count.
    DigitCountTooLarge,
    /// Two condition-name entries under the same field share a label.
    DuplicateConditionName,
    /// More than one top-level field is declared.
    MultipleRoots,
    /// The token sequence is empty.
    EmptyCopybook,
    /// The first token's level does not establish a valid root.
    LevelOutOfOrder,
}

/// Errors raised while assigning byte spans to a structurally valid tree.
/// No partial layout is returned.
#[derive(Clone, Copy, Debug, PartialEq, Eq, Structural)]
pub enum LayoutError {
    /// A field redefines a sibling that does not exist or is declared later.
    UnknownRedefinesTarget,
    /// The resolved record length exceeds the configured maximum.
    RecordTooLarge,
}

/// Errors raised while decoding one raw record. They are scoped to that
/// record; the caller may continue with the next one.
#[derive(Clone, Copy, Debug, PartialEq, Eq, Structural)]
pub enum DecodeError {
    /// The raw buffer length differs from the resolved record length.
    RecordLengthMismatch,
    /// A byte outside the recognized digit or sign set in a display field.
    InvalidDigit,
    /// A nibble outside the recognized digit or sign set in a packed field.
    InvalidNibble,
}

} // verus!
