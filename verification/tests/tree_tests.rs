use copybook_reader::data_type::DataType;
use copybook_reader::errors::DefinitionError;
use copybook_reader::field_value::FieldValueEnum;
use copybook_reader::tree::FieldToken;
use copybook_reader::tree::build_tree;
use copybook_reader::tree::flatten_tree;

fn token(level: u32, label: &str, char_count: Option<u32>, data_type: DataType) -> FieldToken {
    FieldToken::new(level, label.to_string(), char_count, data_type)
}

fn condition(label: &str, value: &str) -> FieldToken {
    FieldToken {
        level: 88,
        label: label.to_string(),
        char_count_option: None,
        data_type: DataType::Alphanumeric,
        value_option: Some(value.to_string()),
        redefines_option: None,
        occurs_option: None,
    }
}

#[test]
fn builds_group_with_two_elementary_children() {
    let tokens = vec![
        token(1, "REC", None, DataType::GroupMarker),
        token(5, "NAME", Some(4), DataType::Alphanumeric),
        token(5, "AGE", Some(3), DataType::NumericDisplay),
    ];
    let root = build_tree(&tokens).unwrap();
    assert_eq!(root.label, "REC");
    assert_eq!(root.level, 1);
    assert_eq!(root.children.len(), 2);
    assert_eq!(root.children[0].label, "NAME");
    assert_eq!(root.children[0].char_count_option, Some(4));
    assert_eq!(root.children[0].data_type, DataType::Alphanumeric);
    assert!(root.children[0].children.is_empty());
    assert_eq!(root.children[1].label, "AGE");
    assert_eq!(root.children[1].data_type, DataType::NumericDisplay);
}

#[test]
fn nesting_follows_level_numbers_not_positions() {
    let tokens = vec![
        token(1, "REC", None, DataType::GroupMarker),
        token(5, "HEAD", None, DataType::GroupMarker),
        token(10, "A", Some(1), DataType::Alphanumeric),
        token(5, "TAIL", Some(2), DataType::Alphanumeric),
    ];
    let root = build_tree(&tokens).unwrap();
    assert_eq!(root.children.len(), 2);
    assert_eq!(root.children[0].label, "HEAD");
    assert_eq!(root.children[0].children.len(), 1);
    assert_eq!(root.children[0].children[0].label, "A");
    assert_eq!(root.children[1].label, "TAIL");
}

#[test]
fn flatten_reproduces_declaration_sequence() {
    let tokens = vec![
        token(1, "REC", None, DataType::GroupMarker),
        token(5, "NAME", Some(4), DataType::Alphanumeric),
        token(5, "AGE", Some(3), DataType::NumericDisplay),
    ];
    let root = build_tree(&tokens).unwrap();
    let flat = flatten_tree(&root);
    assert_eq!(flat.len(), tokens.len());
    for (f, t) in flat.iter().zip(tokens.iter()) {
        assert_eq!(f.level, t.level);
        assert_eq!(f.label, t.label);
        assert_eq!(f.char_count_option, t.char_count_option);
        assert_eq!(f.data_type, t.data_type);
    }
}

#[test]
fn flatten_drops_merged_condition_entries() {
    let tokens = vec![
        token(1, "STATE", Some(2), DataType::Alphanumeric),
        condition("IL", "'IL'"),
        condition("IN", "'IN'"),
    ];
    let root = build_tree(&tokens).unwrap();
    let flat = flatten_tree(&root);
    assert_eq!(flat.len(), 1);
    assert_eq!(flat[0].label, "STATE");
}

#[test]
fn condition_entries_merge_into_preceding_field() {
    let tokens = vec![
        token(1, "STATE", Some(2), DataType::Alphanumeric),
        condition("IL", "'IL'"),
        condition("IN", "'IN'"),
    ];
    let root = build_tree(&tokens).unwrap();
    match root.value_option {
        Some(FieldValueEnum::FieldValueMap(ref m)) => {
            assert_eq!(m.entries.len(), 2);
            assert_eq!(m.entries[0].label, "IL");
            assert_eq!(m.entries[0].value.value_span, "'IL'");
            assert_eq!(m.entries[1].label, "IN");
        },
        _ => panic!("expected a merged condition map"),
    }
}

#[test]
fn duplicate_condition_labels_are_rejected() {
    let tokens = vec![
        token(1, "STATE", Some(2), DataType::Alphanumeric),
        condition("IL", "'IL'"),
        condition("IL", "'XX'"),
    ];
    assert_eq!(build_tree(&tokens).unwrap_err(), DefinitionError::DuplicateConditionName);
}

#[test]
fn empty_copybook_is_rejected() {
    assert_eq!(build_tree(&vec![]).unwrap_err(), DefinitionError::EmptyCopybook);
}

#[test]
fn condition_entry_cannot_open_the_root() {
    let tokens = vec![condition("IL", "'IL'")];
    assert_eq!(build_tree(&tokens).unwrap_err(), DefinitionError::LevelOutOfOrder);
}

#[test]
fn second_top_level_field_is_rejected() {
    let tokens = vec![
        token(1, "A", Some(2), DataType::Alphanumeric),
        token(1, "B", Some(2), DataType::Alphanumeric),
    ];
    assert_eq!(build_tree(&tokens).unwrap_err(), DefinitionError::MultipleRoots);
}

#[test]
fn elementary_field_needs_a_positive_char_count() {
    let tokens = vec![
        token(1, "REC", None, DataType::GroupMarker),
        token(5, "NAME", None, DataType::Alphanumeric),
    ];
    assert_eq!(build_tree(&tokens).unwrap_err(), DefinitionError::InvalidCharCount);
    let zero = vec![token(1, "A", Some(0), DataType::NumericDisplay)];
    assert_eq!(build_tree(&zero).unwrap_err(), DefinitionError::InvalidCharCount);
}

#[test]
fn digit_bearing_field_is_capped_at_eighteen_digits() {
    let tokens = vec![token(1, "N", Some(19), DataType::PackedDecimal)];
    assert_eq!(build_tree(&tokens).unwrap_err(), DefinitionError::DigitCountTooLarge);
}
