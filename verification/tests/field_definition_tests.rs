use copybook_reader::data_type::DataType;
use copybook_reader::field_definition::FieldDefinition;
use copybook_reader::field_value::FieldValue;
use copybook_reader::field_value::FieldValueEnum;

#[test]
fn new_builds_a_childless_field_without_value() {
    let field = FieldDefinition::new(5, "NAME".to_string(), Some(4), DataType::Alphanumeric);
    assert_eq!(field.level, 5);
    assert_eq!(field.label, "NAME");
    assert_eq!(field.char_count_option, Some(4));
    assert_eq!(field.data_type, DataType::Alphanumeric);
    assert!(field.value_option.is_none());
    assert!(field.children.is_empty());
    assert!(field.redefines_option.is_none());
    assert!(field.occurs_option.is_none());
}

#[test]
fn new_with_value_keeps_the_value_metadata() {
    let value = FieldValueEnum::FieldValue(FieldValue::new("'AA'".to_string()));
    let field = FieldDefinition::new_with_value(
        1,
        "FIELDNAME".to_string(),
        Some(2),
        DataType::Alphanumeric,
        Some(value),
    );
    match field.value_option {
        Some(FieldValueEnum::FieldValue(ref v)) => assert_eq!(v.value_span, "'AA'"),
        _ => panic!("expected the single value to be kept"),
    }
    assert!(field.children.is_empty());
}

#[test]
fn group_marker_fields_own_no_storage() {
    let group = FieldDefinition::new(1, "REC".to_string(), None, DataType::GroupMarker);
    assert_eq!(group.char_count_option, None);
    assert_eq!(group.data_type, DataType::GroupMarker);
}
