use copybook_reader::data_type::DataType;
use copybook_reader::errors::LayoutError;
use copybook_reader::layout::ResolvedLayout;
use copybook_reader::layout::resolve_layout;
use copybook_reader::tree::FieldToken;
use copybook_reader::tree::build_tree;

fn token(level: u32, label: &str, char_count: Option<u32>, data_type: DataType) -> FieldToken {
    FieldToken::new(level, label.to_string(), char_count, data_type)
}

fn redefining(
    level: u32,
    label: &str,
    char_count: Option<u32>,
    data_type: DataType,
    target: &str,
) -> FieldToken {
    FieldToken {
        level,
        label: label.to_string(),
        char_count_option: char_count,
        data_type,
        value_option: None,
        redefines_option: Some(target.to_string()),
        occurs_option: None,
    }
}

fn repeating(
    level: u32,
    label: &str,
    char_count: Option<u32>,
    data_type: DataType,
    occurs: u32,
) -> FieldToken {
    FieldToken {
        level,
        label: label.to_string(),
        char_count_option: char_count,
        data_type,
        value_option: None,
        redefines_option: None,
        occurs_option: Some(occurs),
    }
}

fn resolve(tokens: Vec<FieldToken>) -> Result<ResolvedLayout, LayoutError> {
    resolve_layout(&build_tree(&tokens).unwrap())
}

#[test]
fn group_of_two_fields_resolves_to_contiguous_spans() {
    let layout = resolve(vec![
        token(1, "REC", None, DataType::GroupMarker),
        token(5, "NAME", Some(4), DataType::Alphanumeric),
        token(5, "AGE", Some(3), DataType::NumericDisplay),
    ])
    .unwrap();
    assert_eq!(layout.total_length, 7);
    assert_eq!(layout.fields.len(), 3);
    assert_eq!(layout.fields[0].path, "REC");
    assert!(layout.fields[0].is_group);
    assert_eq!(layout.fields[0].byte_offset, 0);
    assert_eq!(layout.fields[0].byte_length, 7);
    assert_eq!(layout.fields[1].path, "REC.NAME");
    assert_eq!(layout.fields[1].byte_offset, 0);
    assert_eq!(layout.fields[1].byte_length, 4);
    assert_eq!(layout.fields[2].path, "REC.AGE");
    assert_eq!(layout.fields[2].byte_offset, 4);
    assert_eq!(layout.fields[2].byte_length, 3);
}

#[test]
fn sibling_spans_are_contiguous_and_cover_the_group() {
    let layout = resolve(vec![
        token(1, "R", None, DataType::GroupMarker),
        token(5, "A", Some(2), DataType::Alphanumeric),
        token(5, "B", Some(3), DataType::PackedDecimal),
        token(5, "C", Some(4), DataType::BinaryInteger),
    ])
    .unwrap();
    // A: 2 bytes, B: ceil((3+1)/2) = 2 bytes, C: 2 bytes (4 digits)
    let mut cursor = 0u64;
    for f in layout.fields.iter().skip(1) {
        assert_eq!(f.byte_offset, cursor);
        cursor += f.byte_length;
    }
    assert_eq!(cursor, layout.total_length);
    assert_eq!(layout.fields[0].byte_length, layout.total_length);
}

#[test]
fn packed_field_with_five_digits_spans_three_bytes() {
    let layout = resolve(vec![token(1, "AMT", Some(5), DataType::PackedDecimal)]).unwrap();
    assert_eq!(layout.total_length, 3);
    assert_eq!(layout.fields[0].byte_length, 3);
}

#[test]
fn redefining_field_shares_its_target_offset() {
    let layout = resolve(vec![
        token(1, "REC", None, DataType::GroupMarker),
        token(5, "A", Some(4), DataType::Alphanumeric),
        redefining(5, "B", Some(4), DataType::NumericDisplay, "A"),
    ])
    .unwrap();
    assert_eq!(layout.total_length, 4);
    assert_eq!(layout.fields[1].path, "REC.A");
    assert_eq!(layout.fields[1].byte_offset, 0);
    assert_eq!(layout.fields[1].byte_length, 4);
    assert_eq!(layout.fields[2].path, "REC.B");
    assert_eq!(layout.fields[2].byte_offset, 0);
    assert_eq!(layout.fields[2].byte_length, 4);
}

#[test]
fn unknown_redefines_target_is_rejected() {
    let r = resolve(vec![
        token(1, "REC", None, DataType::GroupMarker),
        token(5, "A", Some(4), DataType::Alphanumeric),
        redefining(5, "B", Some(4), DataType::Alphanumeric, "MISSING"),
    ]);
    assert_eq!(r.unwrap_err(), LayoutError::UnknownRedefinesTarget);
}

#[test]
fn forward_redefines_target_is_rejected() {
    let r = resolve(vec![
        token(1, "REC", None, DataType::GroupMarker),
        redefining(5, "B", Some(4), DataType::Alphanumeric, "A"),
        token(5, "A", Some(4), DataType::Alphanumeric),
    ]);
    assert_eq!(r.unwrap_err(), LayoutError::UnknownRedefinesTarget);
}

#[test]
fn repeating_field_advances_by_all_repetitions() {
    let layout = resolve(vec![
        token(1, "REC", None, DataType::GroupMarker),
        repeating(5, "CELL", Some(2), DataType::Alphanumeric, 3),
        token(5, "TAIL", Some(1), DataType::Alphanumeric),
    ])
    .unwrap();
    assert_eq!(layout.total_length, 7);
    assert_eq!(layout.fields[1].byte_offset, 0);
    assert_eq!(layout.fields[1].byte_length, 2);
    assert_eq!(layout.fields[1].occurs_count, 3);
    assert_eq!(layout.fields[2].byte_offset, 6);
}

#[test]
fn oversized_repeat_count_is_rejected() {
    let r = resolve(vec![
        token(1, "REC", None, DataType::GroupMarker),
        repeating(5, "HUGE", Some(4000), DataType::Alphanumeric, 2_000_000),
    ]);
    assert_eq!(r.unwrap_err(), LayoutError::RecordTooLarge);
}

#[test]
fn group_repeat_multiplies_the_group_span() {
    let layout = resolve(vec![
        token(1, "REC", None, DataType::GroupMarker),
        repeating(5, "PAIR", None, DataType::GroupMarker, 2),
        token(10, "X", Some(1), DataType::Alphanumeric),
        token(10, "Y", Some(2), DataType::Alphanumeric),
    ])
    .unwrap();
    assert_eq!(layout.fields[1].byte_length, 3);
    assert_eq!(layout.fields[1].occurs_count, 2);
    assert_eq!(layout.total_length, 6);
}
