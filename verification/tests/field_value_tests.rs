use copybook_reader::errors::DefinitionError;
use copybook_reader::field_value::FieldValue;
use copybook_reader::field_value::FieldValueMap;
use copybook_reader::field_value::ValueEntry;
use copybook_reader::field_value::merge_condition_names;

fn entry(label: &str, value: &str) -> ValueEntry {
    ValueEntry::new(label.to_string(), FieldValue::new(value.to_string()))
}

#[test]
fn merge_collects_entries_in_order() {
    let map = merge_condition_names(vec![entry("IL", "'IL'"), entry("IN", "'IN'")]).unwrap();
    assert_eq!(map.entries.len(), 2);
    assert_eq!(map.entries[0].label, "IL");
    assert_eq!(map.entries[0].value.value_span, "'IL'");
    assert_eq!(map.entries[1].label, "IN");
    assert_eq!(map.get_value(&"IN".to_string()).unwrap().value_span, "'IN'");
    assert!(map.get_value(&"OH".to_string()).is_none());
}

#[test]
fn merge_rejects_duplicate_condition_names() {
    let r = merge_condition_names(vec![entry("IL", "'IL'"), entry("IL", "'XX'")]);
    assert_eq!(r.unwrap_err(), DefinitionError::DuplicateConditionName);
}

#[test]
fn map_equality_ignores_entry_order() {
    let a = merge_condition_names(vec![entry("IL", "'IL'"), entry("IN", "'IN'")]).unwrap();
    let b = merge_condition_names(vec![entry("IN", "'IN'"), entry("IL", "'IL'")]).unwrap();
    assert!(a.equals(&b));
    assert!(b.equals(&a));
}

#[test]
fn map_equality_compares_labels_and_values() {
    let a = merge_condition_names(vec![entry("IL", "'IL'"), entry("IN", "'IN'")]).unwrap();
    let differing_value = merge_condition_names(vec![entry("IL", "'IL'"), entry("IN", "'XX'")])
        .unwrap();
    let missing_label = merge_condition_names(vec![entry("IL", "'IL'")]).unwrap();
    assert!(!a.equals(&differing_value));
    assert!(!a.equals(&missing_label));
    assert!(!missing_label.equals(&a));
}

#[test]
fn insert_entry_rejects_present_label() {
    let mut map = FieldValueMap::new();
    assert!(map.insert_entry(entry("OK", "'K'")).is_ok());
    let r = map.insert_entry(entry("OK", "'X'"));
    assert_eq!(r.unwrap_err(), DefinitionError::DuplicateConditionName);
    assert_eq!(map.entries.len(), 1);
}
