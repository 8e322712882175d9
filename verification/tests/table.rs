use std::cmp::Ordering;
use std::sync::Arc;

use folder_acl_viewer::model::Record;
use folder_acl_viewer::sorting::order_rows;
use folder_acl_viewer::table::{records_matching, RecordTable};

fn rec(folder: &str, other: &str, identity: &str, rights: &str) -> Record {
    Record {
        folder: Arc::new(folder.to_string()),
        other: Arc::new(other.to_string()),
        identity: Arc::new(identity.to_string()),
        rights: Arc::new(rights.to_string()),
        access_control: Arc::new("Allow".to_string()),
        inherited: Arc::new("False".to_string()),
    }
}

fn sample() -> Vec<Record> {
    vec![
        rec("\\\\srv\\share\\", "HR", "DOM\\Carol", "Read"),
        rec("\\\\srv\\share\\", "IT", "DOM\\alice", "Modify"),
        rec("\\\\srv\\other\\", "HR", "DOM\\bob", "Read"),
        rec("\\\\srv\\share\\", "Finance", "DOM\\alice", "FullControl"),
    ]
}

#[test]
fn new_table_is_empty_and_sorted_by_folder() {
    let t = RecordTable::new();
    assert_eq!(t.query, "");
    assert_eq!(t.sort_col, 0);
    assert!(!t.sort_desc);
    assert!(t.filtered.is_empty());
}

#[test]
fn empty_query_keeps_every_record_sorted_stably() {
    let records = sample();
    let mut t = RecordTable::new();
    t.apply_filter_and_sort(&records);
    assert_eq!(t.filtered, vec![2, 0, 1, 3]);
}

#[test]
fn query_matches_any_field_ignoring_case() {
    let records = sample();
    let mut t = RecordTable::new();
    t.query = "ALICE".to_string();
    t.apply_filter_and_sort(&records);
    assert_eq!(t.filtered, vec![1, 3]);
    t.query = "hr".to_string();
    t.apply_filter_and_sort(&records);
    assert_eq!(t.filtered, vec![2, 0]);
    t.query = "fullcontrol".to_string();
    t.apply_filter_and_sort(&records);
    assert_eq!(t.filtered, vec![3]);
    t.query = "allow".to_string();
    t.apply_filter_and_sort(&records);
    assert_eq!(t.filtered.len(), 4);
    t.query = "nothing".to_string();
    t.apply_filter_and_sort(&records);
    assert!(t.filtered.is_empty());
}

#[test]
fn set_sort_toggles_direction_on_the_same_column() {
    let records = sample();
    let mut t = RecordTable::new();
    t.set_sort(&records, 3);
    assert_eq!(t.sort_col, 3);
    assert!(!t.sort_desc);
    assert_eq!(t.filtered, vec![3, 1, 0, 2]);
    t.set_sort(&records, 3);
    assert!(t.sort_desc);
    assert_eq!(t.filtered, vec![0, 2, 1, 3]);
    t.set_sort(&records, 3);
    assert!(!t.sort_desc);
    t.set_sort(&records, 0);
    assert!(!t.sort_desc);
    assert_eq!(t.sort_col, 0);
}

#[test]
fn set_sort_on_the_initial_column_reverses_it() {
    let records = sample();
    let mut t = RecordTable::new();
    t.set_sort(&records, 0);
    assert!(t.sort_desc);
    assert_eq!(t.filtered, vec![0, 1, 3, 2]);
}

#[test]
fn order_rows_compares_one_column() {
    let records = sample();
    assert_eq!(order_rows(&records, 2, false, 0, 1), Ordering::Less);
    assert_eq!(order_rows(&records, 2, true, 0, 1), Ordering::Greater);
    assert_eq!(order_rows(&records, 0, false, 0, 1), Ordering::Equal);
    assert_eq!(order_rows(&records, 0, true, 0, 1), Ordering::Equal);
    assert_eq!(order_rows(&records, 1, false, 3, 0), Ordering::Less);
}

#[test]
fn equal_rows_keep_file_order_in_both_directions() {
    let records = vec![
        rec("b", "1", "u", "r"),
        rec("a", "2", "u", "r"),
        rec("b", "3", "u", "r"),
        rec("a", "4", "u", "r"),
        rec("b", "5", "u", "r"),
    ];
    let mut t = RecordTable::new();
    t.apply_filter_and_sort(&records);
    assert_eq!(t.filtered, vec![1, 3, 0, 2, 4]);
    t.set_sort(&records, 0);
    assert_eq!(t.filtered, vec![0, 2, 4, 1, 3]);
    t.set_sort(&records, 2);
    assert_eq!(t.filtered, vec![0, 1, 2, 3, 4]);
}

#[test]
fn records_matching_takes_the_lowercase_query() {
    let records = sample();
    assert_eq!(records_matching(&records, "alice"), vec![1, 3]);
    assert!(records_matching(&records, "ALICE").is_empty());
    assert_eq!(records_matching(&records, "hr"), vec![0, 2]);
    assert_eq!(records_matching(&records, ""), vec![0, 1, 2, 3]);
}
