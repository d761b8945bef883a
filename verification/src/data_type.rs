use vstd::prelude::*;

use crate::errors::DefinitionError;

verus! {

/// Semantic storage format of an elementary field. Each variant carries the
/// rule that converts a declared character count into a byte length; the one
/// exception is `GroupMarker`, which has no storage of its own and defers to
/// its children.
#[derive(Clone, Copy, Debug, PartialEq, Eq, Structural)]
pub enum DataType {
    /// One byte per character; decodes to trailing-space-trimmed text.
    Alphanumeric,
    /// Digits stored as text, one byte per character; decodes to an unsigned
    /// integer.
    NumericDisplay,
    /// Digits stored as text with the sign overpunched in the high nibble of
    /// the last byte.
    ZonedDecimal,
    /// Two digits per byte plus one sign nibble.
    PackedDecimal,
    /// Fixed-width big-endian two's-complement integer.
    BinaryInteger,
    /// A container field whose storage is the concatenation of its children.
    GroupMarker,
}

/// Category of the picture clause of a field declaration.
#[derive(Clone, Copy, Debug, PartialEq, Eq, Structural)]
pub enum PictureCategory {
    /// A `PIC X`-style character pattern.
    Alphanumeric,
    /// A `PIC 9`-style unsigned digit pattern.
    NumericUnsigned,
    /// A `PIC S9`-style signed digit pattern.
    NumericSigned,
}

/// Usage clause of a field declaration, naming its physical storage format.
#[derive(Clone, Copy, Debug, PartialEq, Eq, Structural)]
pub enum UsageClause {
    /// Character storage, one byte per declared character.
    Display,
    /// Packed decimal storage.
    PackedDecimal,
    /// Pure binary storage.
    Binary,
    /// An index data item; no supported storage format.
    Index,
}

/// Largest digit count accepted for digit-bearing storage formats. Eighteen
/// decimal digits is the largest count that both an eight-byte binary
/// integer and a signed 64-bit decoded value can hold.
pub const MAX_DIGIT_COUNT: u32 = 18;

/// Byte length of an elementary field, as a function of its storage format
/// and declared character count. An absent character count counts as zero;
/// a `GroupMarker` owns no storage of its own.
pub open spec fn spec_byte_length(data_type: DataType, char_count: Option<u32>) -> int {
    let d = match char_count {
        Some(c) => c as int,
        None => 0,
    };
    match data_type {
        DataType::Alphanumeric => d,
        DataType::NumericDisplay => d,
        DataType::ZonedDecimal => d,
        DataType::PackedDecimal => (d + 2) / 2,
        DataType::BinaryInteger => if d <= 2 {
            1int
        } else if d <= 4 {
            2int
        } else if d <= 9 {
            4int
        } else {
            8int
        },
        DataType::GroupMarker => 0,
    }
}

/// Byte length of an elementary field with the given storage format and
/// declared character count. For digit-bearing formats the character count is
/// the digit count. A `GroupMarker` owns no storage and yields zero, deferring
/// to its children.
pub fn byte_length(data_type: DataType, char_count: Option<u32>) -> (r: u64)
    ensures
        r == spec_byte_length(data_type, char_count),
{
    let d: u64 = match char_count {
        Some(c) => c as u64,
        None => 0,
    };
    match data_type {
        DataType::Alphanumeric => d,
        DataType::NumericDisplay => d,
        DataType::ZonedDecimal => d,
        DataType::PackedDecimal => (d + 2) / 2,
        DataType::BinaryInteger => if d <= 2 {
            1
        } else if d <= 4 {
            2
        } else if d <= 9 {
            4
        } else {
            8
        },
        DataType::GroupMarker => 0,
    }
}

/// The definition error a field's declared shape raises, if any: every
/// non-group storage format needs a positive character count, and every
/// digit-bearing format one of at most `MAX_DIGIT_COUNT` digits.
pub open spec fn shape_error(data_type: DataType, char_count: Option<u32>) -> Option<
    DefinitionError,
> {
    if data_type == DataType::GroupMarker {
        None
    } else if char_count is None || char_count->0 == 0 {
        Some(DefinitionError::InvalidCharCount)
    } else if data_type != DataType::Alphanumeric && char_count->0 > MAX_DIGIT_COUNT {
        Some(DefinitionError::DigitCountTooLarge)
    } else {
        None
    }
}

/// What `resolve_data_type` returns for every input, stated case by case.
pub open spec fn spec_resolve_data_type(
    category: PictureCategory,
    usage: UsageClause,
    char_count: Option<u32>,
) -> Result<DataType, DefinitionError> {
    if usage == UsageClause::Index {
        Err(DefinitionError::UnsupportedUsage)
    } else if category == PictureCategory::Alphanumeric && usage != UsageClause::Display {
        Err(DefinitionError::UnsupportedUsage)
    } else if char_count is None || char_count->0 == 0 {
        Err(DefinitionError::InvalidCharCount)
    } else if category != PictureCategory::Alphanumeric && char_count->0 > MAX_DIGIT_COUNT {
        Err(DefinitionError::DigitCountTooLarge)
    } else {
        match (category, usage) {
            (PictureCategory::Alphanumeric, _) => Ok(DataType::Alphanumeric),
            (PictureCategory::NumericUnsigned, UsageClause::Display) => Ok(
                DataType::NumericDisplay,
            ),
            (PictureCategory::NumericSigned, UsageClause::Display) => Ok(DataType::ZonedDecimal),
            (_, UsageClause::PackedDecimal) => Ok(DataType::PackedDecimal),
            (_, UsageClause::Binary) => Ok(DataType::BinaryInteger),
            (_, _) => Err(DefinitionError::UnsupportedUsage),
        }
    }
}

/// Maps a storage-format descriptor (picture category plus usage clause) to
/// the semantic `DataType` of an elementary field.
///
/// Fails with `UnsupportedUsage` when the usage clause maps to no known
/// storage format for the category, with `InvalidCharCount` when the
/// character count is absent or zero, and with `DigitCountTooLarge` when a
/// digit-bearing format declares more than `MAX_DIGIT_COUNT` digits.
pub fn resolve_data_type(
    category: PictureCategory,
    usage: UsageClause,
    char_count: Option<u32>,
) -> (r: Result<DataType, DefinitionError>)
    ensures
        r == spec_resolve_data_type(category, usage, char_count),
{
    match usage {
        UsageClause::Index => Err(DefinitionError::UnsupportedUsage),
        _ => {
            if matches!(category, PictureCategory::Alphanumeric) && !matches!(
                usage,
                UsageClause::Display,
            ) {
                Err(DefinitionError::UnsupportedUsage)
            } else {
                match char_count {
                    None => Err(DefinitionError::InvalidCharCount),
                    Some(d) => {
                        if d == 0 {
                            Err(DefinitionError::InvalidCharCount)
                        } else if !matches!(category, PictureCategory::Alphanumeric) && d
                            > MAX_DIGIT_COUNT {
                            Err(DefinitionError::DigitCountTooLarge)
                        } else {
                            match (category, usage) {
                                (PictureCategory::Alphanumeric, _) => Ok(DataType::Alphanumeric),
                                (PictureCategory::NumericUnsigned, UsageClause::Display) => Ok(
                                    DataType::NumericDisplay,
                                ),
                                (PictureCategory::NumericSigned, UsageClause::Display) => Ok(
                                    DataType::ZonedDecimal,
                                ),
                                (_, UsageClause::PackedDecimal) => Ok(DataType::PackedDecimal),
                                (_, UsageClause::Binary) => Ok(DataType::BinaryInteger),
                                (_, _) => Err(DefinitionError::UnsupportedUsage),
                            }
                        }
                    },
                }
            }
        },
    }
}

/// Law: a packed-decimal field with digit count `d` occupies exactly
/// `ceil((d + 1) / 2)` bytes — the extra digit position holds the sign
/// nibble. The two bounds state the ceiling exactly.
pub proof fn lemma_packed_byte_length(d: u32)
    requires
        1 <= d <= MAX_DIGIT_COUNT,
    ensures
        spec_byte_length(DataType::PackedDecimal, Some(d)) == (d + 1 + 1) / 2,
        2 * spec_byte_length(DataType::PackedDecimal, Some(d)) >= d + 1,
        2 * spec_byte_length(DataType::PackedDecimal, Some(d)) <= d + 2,
{
}

} // verus!
