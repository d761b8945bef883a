use copybook_reader::data_type::DataType;
use copybook_reader::data_type::PictureCategory;
use copybook_reader::data_type::UsageClause;
use copybook_reader::data_type::byte_length;
use copybook_reader::data_type::resolve_data_type;
use copybook_reader::errors::DefinitionError;

#[test]
fn packed_byte_length_is_ceil_of_digits_plus_sign() {
    for d in 1u32..=18 {
        let b = byte_length(DataType::PackedDecimal, Some(d));
        assert_eq!(b, ((d as u64) + 2) / 2);
        // exactly ceil((d + 1) / 2)
        assert!(2 * b >= (d as u64) + 1);
        assert!(2 * b <= (d as u64) + 2);
    }
}

#[test]
fn packed_five_digits_occupies_three_bytes() {
    let dt = resolve_data_type(
        PictureCategory::NumericSigned,
        UsageClause::PackedDecimal,
        Some(5),
    )
    .unwrap();
    assert_eq!(dt, DataType::PackedDecimal);
    assert_eq!(byte_length(dt, Some(5)), 3);
}

#[test]
fn display_formats_use_one_byte_per_character() {
    assert_eq!(byte_length(DataType::Alphanumeric, Some(10)), 10);
    assert_eq!(byte_length(DataType::NumericDisplay, Some(7)), 7);
    assert_eq!(byte_length(DataType::ZonedDecimal, Some(3)), 3);
    assert_eq!(byte_length(DataType::GroupMarker, Some(9)), 0);
}

#[test]
fn binary_uses_smallest_enclosing_size() {
    assert_eq!(byte_length(DataType::BinaryInteger, Some(1)), 1);
    assert_eq!(byte_length(DataType::BinaryInteger, Some(2)), 1);
    assert_eq!(byte_length(DataType::BinaryInteger, Some(3)), 2);
    assert_eq!(byte_length(DataType::BinaryInteger, Some(4)), 2);
    assert_eq!(byte_length(DataType::BinaryInteger, Some(5)), 4);
    assert_eq!(byte_length(DataType::BinaryInteger, Some(9)), 4);
    assert_eq!(byte_length(DataType::BinaryInteger, Some(10)), 8);
    assert_eq!(byte_length(DataType::BinaryInteger, Some(18)), 8);
}

#[test]
fn resolve_maps_categories_and_usages() {
    assert_eq!(
        resolve_data_type(PictureCategory::Alphanumeric, UsageClause::Display, Some(4)),
        Ok(DataType::Alphanumeric)
    );
    assert_eq!(
        resolve_data_type(PictureCategory::NumericUnsigned, UsageClause::Display, Some(3)),
        Ok(DataType::NumericDisplay)
    );
    assert_eq!(
        resolve_data_type(PictureCategory::NumericSigned, UsageClause::Display, Some(3)),
        Ok(DataType::ZonedDecimal)
    );
    assert_eq!(
        resolve_data_type(PictureCategory::NumericUnsigned, UsageClause::Binary, Some(9)),
        Ok(DataType::BinaryInteger)
    );
}

#[test]
fn resolve_rejects_unsupported_usage() {
    assert_eq!(
        resolve_data_type(PictureCategory::NumericSigned, UsageClause::Index, Some(5)),
        Err(DefinitionError::UnsupportedUsage)
    );
    assert_eq!(
        resolve_data_type(PictureCategory::Alphanumeric, UsageClause::Binary, Some(5)),
        Err(DefinitionError::UnsupportedUsage)
    );
}

#[test]
fn resolve_rejects_missing_or_zero_char_count() {
    assert_eq!(
        resolve_data_type(PictureCategory::Alphanumeric, UsageClause::Display, None),
        Err(DefinitionError::InvalidCharCount)
    );
    assert_eq!(
        resolve_data_type(PictureCategory::NumericUnsigned, UsageClause::Display, Some(0)),
        Err(DefinitionError::InvalidCharCount)
    );
}

#[test]
fn resolve_rejects_too_many_digits() {
    assert_eq!(
        resolve_data_type(PictureCategory::NumericUnsigned, UsageClause::Binary, Some(19)),
        Err(DefinitionError::DigitCountTooLarge)
    );
    assert_eq!(
        resolve_data_type(PictureCategory::NumericSigned, UsageClause::PackedDecimal, Some(40)),
        Err(DefinitionError::DigitCountTooLarge)
    );
}
