use copybook_reader::data_type::DataType;
use copybook_reader::decode::DecodedValue;
use copybook_reader::decode::decode_record;
use copybook_reader::errors::DecodeError;
use copybook_reader::layout::ResolvedLayout;
use copybook_reader::layout::resolve_layout;
use copybook_reader::tree::FieldToken;
use copybook_reader::tree::build_tree;

fn token(level: u32, label: &str, char_count: Option<u32>, data_type: DataType) -> FieldToken {
    FieldToken::new(level, label.to_string(), char_count, data_type)
}

fn condition(label: &str, value: &str) -> FieldToken {
    FieldToken {
        level: 88,
        label: label.to_string(),
        char_count_option: None,
        data_type: DataType::Alphanumeric,
        value_option: Some(value.to_string()),
        redefines_option: None,
        occurs_option: None,
    }
}

fn layout_of(tokens: Vec<FieldToken>) -> ResolvedLayout {
    resolve_layout(&build_tree(&tokens).unwrap()).unwrap()
}

fn name_age_layout() -> ResolvedLayout {
    layout_of(vec![
        token(1, "REC", None, DataType::GroupMarker),
        token(5, "NAME", Some(4), DataType::Alphanumeric),
        token(5, "AGE", Some(3), DataType::NumericDisplay),
    ])
}

#[test]
fn decodes_text_and_numeric_display_fields() {
    let layout = name_age_layout();
    let record = decode_record(&layout, b"JOHN025").unwrap();
    assert_eq!(record.entries.len(), 2);
    assert_eq!(record.entries[0].path, "REC.NAME");
    assert_eq!(record.entries[0].value, DecodedValue::Text(b"JOHN".to_vec()));
    assert_eq!(record.entries[1].path, "REC.AGE");
    assert_eq!(record.entries[1].value, DecodedValue::Int(25));
}

#[test]
fn alphanumeric_trims_trailing_spaces() {
    let layout = layout_of(vec![token(1, "NAME", Some(6), DataType::Alphanumeric)]);
    let record = decode_record(&layout, b"JO    ").unwrap();
    assert_eq!(record.entries[0].value, DecodedValue::Text(b"JO".to_vec()));
}

#[test]
fn short_raw_record_is_a_length_mismatch() {
    let layout = name_age_layout();
    let r = decode_record(&layout, b"JOHN02");
    assert_eq!(r.unwrap_err(), DecodeError::RecordLengthMismatch);
    let r2 = decode_record(&layout, b"JOHN0255");
    assert_eq!(r2.unwrap_err(), DecodeError::RecordLengthMismatch);
}

#[test]
fn decoding_is_deterministic() {
    let layout = name_age_layout();
    let a = decode_record(&layout, b"JOHN025").unwrap();
    let b = decode_record(&layout, b"JOHN025").unwrap();
    assert_eq!(a, b);
}

#[test]
fn matching_condition_name_is_reported() {
    let layout = layout_of(vec![
        token(1, "STATE", Some(2), DataType::Alphanumeric),
        condition("IL", "'IL'"),
        condition("IN", "'IN'"),
    ]);
    let record = decode_record(&layout, b"IL").unwrap();
    assert_eq!(record.entries[0].value, DecodedValue::Text(b"IL".to_vec()));
    assert_eq!(record.entries[0].matched_conditions, vec!["IL".to_string()]);
}

#[test]
fn no_matching_condition_is_not_an_error() {
    let layout = layout_of(vec![
        token(1, "STATE", Some(2), DataType::Alphanumeric),
        condition("IL", "'IL'"),
        condition("IN", "'IN'"),
    ]);
    let record = decode_record(&layout, b"CA").unwrap();
    assert_eq!(record.entries[0].value, DecodedValue::Text(b"CA".to_vec()));
    assert!(record.entries[0].matched_conditions.is_empty());
}

#[test]
fn invalid_display_digit_is_rejected() {
    let layout = layout_of(vec![token(1, "AGE", Some(3), DataType::NumericDisplay)]);
    let r = decode_record(&layout, b"0A5");
    assert_eq!(r.unwrap_err(), DecodeError::InvalidDigit);
}

#[test]
fn zoned_decimal_reads_the_overpunched_sign() {
    let layout = layout_of(vec![token(1, "BAL", Some(3), DataType::ZonedDecimal)]);
    let positive = decode_record(&layout, b"123").unwrap();
    assert_eq!(positive.entries[0].value, DecodedValue::Int(123));
    let negative = decode_record(&layout, &[0x31, 0x32, 0xD3]).unwrap();
    assert_eq!(negative.entries[0].value, DecodedValue::Int(-123));
    let ebcdic = decode_record(&layout, &[0xF1, 0xF2, 0xC3]).unwrap();
    assert_eq!(ebcdic.entries[0].value, DecodedValue::Int(123));
}

#[test]
fn packed_decimal_decodes_digit_pairs_and_sign() {
    let layout = layout_of(vec![token(1, "AMT", Some(5), DataType::PackedDecimal)]);
    let positive = decode_record(&layout, &[0x12, 0x34, 0x5C]).unwrap();
    assert_eq!(positive.entries[0].value, DecodedValue::Int(12345));
    let negative = decode_record(&layout, &[0x12, 0x34, 0x5D]).unwrap();
    assert_eq!(negative.entries[0].value, DecodedValue::Int(-12345));
    let unsigned = decode_record(&layout, &[0x00, 0x04, 0x2F]).unwrap();
    assert_eq!(unsigned.entries[0].value, DecodedValue::Int(42));
}

#[test]
fn invalid_packed_nibble_is_rejected() {
    let layout = layout_of(vec![token(1, "AMT", Some(5), DataType::PackedDecimal)]);
    let bad_digit = decode_record(&layout, &[0xA2, 0x34, 0x5C]);
    assert_eq!(bad_digit.unwrap_err(), DecodeError::InvalidNibble);
    let bad_sign = decode_record(&layout, &[0x12, 0x34, 0x5A]);
    assert_eq!(bad_sign.unwrap_err(), DecodeError::InvalidNibble);
}

#[test]
fn binary_integer_is_big_endian_twos_complement() {
    let layout = layout_of(vec![token(1, "N", Some(4), DataType::BinaryInteger)]);
    let positive = decode_record(&layout, &[0x01, 0x00]).unwrap();
    assert_eq!(positive.entries[0].value, DecodedValue::Int(256));
    let negative = decode_record(&layout, &[0xFF, 0xFE]).unwrap();
    assert_eq!(negative.entries[0].value, DecodedValue::Int(-2));
}

#[test]
fn repeating_field_decodes_each_occurrence() {
    let layout = layout_of(vec![
        token(1, "REC", None, DataType::GroupMarker),
        FieldToken {
            level: 5,
            label: "CELL".to_string(),
            char_count_option: Some(2),
            data_type: DataType::Alphanumeric,
            value_option: None,
            redefines_option: None,
            occurs_option: Some(2),
        },
    ]);
    let record = decode_record(&layout, b"ABCD").unwrap();
    assert_eq!(record.entries.len(), 2);
    assert_eq!(record.entries[0].path, "REC.CELL");
    assert_eq!(record.entries[0].occurrence, 0);
    assert_eq!(record.entries[0].value, DecodedValue::Text(b"AB".to_vec()));
    assert_eq!(record.entries[1].occurrence, 1);
    assert_eq!(record.entries[1].value, DecodedValue::Text(b"CD".to_vec()));
}

#[test]
fn redefined_storage_decodes_under_both_views() {
    let layout = layout_of(vec![
        token(1, "REC", None, DataType::GroupMarker),
        token(5, "A", Some(4), DataType::Alphanumeric),
        FieldToken {
            level: 5,
            label: "B".to_string(),
            char_count_option: Some(4),
            data_type: DataType::NumericDisplay,
            value_option: None,
            redefines_option: Some("A".to_string()),
            occurs_option: None,
        },
    ]);
    let record = decode_record(&layout, b"1234").unwrap();
    assert_eq!(record.entries.len(), 2);
    assert_eq!(record.entries[0].value, DecodedValue::Text(b"1234".to_vec()));
    assert_eq!(record.entries[1].value, DecodedValue::Int(1234));
}
