use std::sync::Arc;

use folder_acl_viewer::model::Record;
use folder_acl_viewer::tree::{
    build_other_tree, build_path_tree, flatten_tree, folder_path, path_of_folder_id, piece_prefix,
    ExpansionState, FlatRow, TreeNode,
};

fn rec(folder: &str, other: &str, identity: &str) -> Record {
    Record {
        folder: Arc::new(folder.to_string()),
        other: Arc::new(other.to_string()),
        identity: Arc::new(identity.to_string()),
        rights: Arc::new("Read".to_string()),
        access_control: Arc::new("Allow".to_string()),
        inherited: Arc::new("False".to_string()),
    }
}

fn sample() -> Vec<Record> {
    vec![
        rec("\\\\srv\\share\\", "HR\\Payroll", "DOM\\alice"),
        rec("\\\\srv\\share\\", "HR\\Payroll\\2024", "DOM\\bob"),
        rec("\\\\srv\\share\\", "IT", "DOM\\alice"),
        rec("\\\\srv\\share\\", "", "DOM\\carol"),
        rec("\\\\srv\\other\\", "HR", "DOM\\alice"),
    ]
}

fn child<'a>(node: &'a TreeNode, name: &str) -> &'a TreeNode {
    &node.children.iter().find(|(n, _)| n == name).expect("child exists").1
}

fn names(node: &TreeNode) -> Vec<&str> {
    node.children.iter().map(|(n, _)| n.as_str()).collect()
}

fn folder(id: &str, name: &str, depth: usize, expanded: bool, has_children: bool) -> FlatRow {
    FlatRow::Folder { id: id.to_string(), name: name.to_string(), depth, expanded, has_children }
}

fn entry(record_idx: usize, depth: usize) -> FlatRow {
    FlatRow::Entry { record_idx, depth }
}

fn entry_ids(rows: &[FlatRow]) -> Vec<usize> {
    rows.iter()
        .filter_map(|r| match r {
            FlatRow::Entry { record_idx, .. } => Some(*record_idx),
            _ => None,
        })
        .collect()
}

#[test]
fn other_tree_files_records_under_their_sub_path() {
    let records = sample();
    let t = build_other_tree(&records, &[0, 1, 2, 3]);
    assert_eq!(t.entries, vec![3]);
    assert_eq!(names(&t), vec!["HR", "IT"]);
    let hr = child(&t, "HR");
    assert!(hr.entries.is_empty());
    let payroll = child(hr, "Payroll");
    assert_eq!(payroll.entries, vec![0]);
    assert_eq!(child(payroll, "2024").entries, vec![1]);
    assert_eq!(child(&t, "IT").entries, vec![2]);
}

#[test]
fn path_tree_files_records_under_their_full_path() {
    let records = sample();
    let t = build_path_tree(&records, &[4, 0, 2]);
    assert!(t.entries.is_empty());
    assert_eq!(names(&t), vec!["srv"]);
    let srv = child(&t, "srv");
    assert_eq!(names(srv), vec!["other", "share"]);
    assert_eq!(child(child(srv, "other"), "HR").entries, vec![4]);
    let share = child(srv, "share");
    assert_eq!(names(share), vec!["HR", "IT"]);
    assert_eq!(child(child(share, "HR"), "Payroll").entries, vec![0]);
    assert_eq!(child(share, "IT").entries, vec![2]);
}

#[test]
fn tree_keeps_the_order_of_the_given_indices() {
    let records = vec![rec("\\\\s\\x\\", "A", "u1"), rec("\\\\s\\x\\", "A", "u2"), rec("\\\\s\\x\\", "A", "u3")];
    let t = build_other_tree(&records, &[2, 0, 1, 0]);
    assert_eq!(child(&t, "A").entries, vec![2, 0, 1, 0]);
}

#[test]
fn expansion_state_reports_default_and_exceptions() {
    let mut e = ExpansionState::new(true);
    assert!(e.default_open());
    assert!(e.is_open("HR"));
    e.toggle("HR".to_string());
    assert!(!e.is_open("HR"));
    assert!(e.is_open("IT"));
    let mut closed = ExpansionState::new(false);
    assert!(!closed.is_open("HR"));
    closed.toggle("HR".to_string());
    assert!(closed.is_open("HR"));
}

#[test]
fn toggling_twice_restores_the_state() {
    let mut e = ExpansionState::new(true);
    e.toggle("srv/share".to_string());
    e.toggle("b".to_string());
    e.toggle("a".to_string());
    e.toggle("b".to_string());
    assert!(!e.is_open("srv/share"));
    assert!(!e.is_open("a"));
    assert!(e.is_open("b"));
    e.toggle("srv/share".to_string());
    e.toggle("a".to_string());
    for id in ["srv/share", "a", "b", "c"] {
        assert!(e.is_open(id));
    }
}

#[test]
fn flatten_lists_entries_then_folders_depth_first() {
    let records = sample();
    let t = build_other_tree(&records, &[0, 1, 2, 3]);
    let rows = flatten_tree(&t, &ExpansionState::new(true));
    assert_eq!(
        rows,
        vec![
            entry(3, 0),
            folder("HR", "HR", 0, true, true),
            folder("HR/Payroll", "Payroll", 1, true, true),
            entry(0, 2),
            folder("HR/Payroll/2024", "2024", 2, true, true),
            entry(1, 3),
            folder("IT", "IT", 0, true, true),
            entry(2, 1),
        ]
    );
}

#[test]
fn flatten_skips_collapsed_folders() {
    let records = sample();
    let t = build_other_tree(&records, &[0, 1, 2, 3]);
    let mut e = ExpansionState::new(true);
    e.toggle("HR/Payroll".to_string());
    let rows = flatten_tree(&t, &e);
    assert_eq!(
        rows,
        vec![
            entry(3, 0),
            folder("HR", "HR", 0, true, true),
            folder("HR/Payroll", "Payroll", 1, false, true),
            folder("IT", "IT", 0, true, true),
            entry(2, 1),
        ]
    );
    let rows = flatten_tree(&t, &ExpansionState::new(false));
    assert_eq!(rows, vec![entry(3, 0), folder("HR", "HR", 0, false, true), folder("IT", "IT", 0, false, true)]);
}

#[test]
fn flatten_of_an_empty_tree_has_no_rows() {
    let records = sample();
    let t = build_path_tree(&records, &[]);
    assert!(flatten_tree(&t, &ExpansionState::new(true)).is_empty());
}

#[test]
fn fully_open_rows_list_every_selected_record_once() {
    let records = sample();
    let selected = vec![4, 0, 3, 2, 1];
    let t = build_path_tree(&records, &selected);
    let mut listed = entry_ids(&flatten_tree(&t, &ExpansionState::new(true)));
    listed.sort();
    let mut expected = selected.clone();
    expected.sort();
    assert_eq!(listed, expected);
}

#[test]
fn rows_only_name_selected_records_whatever_is_open() {
    let records = sample();
    let selected = vec![0, 1, 4];
    let t = build_path_tree(&records, &selected);
    let mut e = ExpansionState::new(true);
    for id in ["srv/share", "srv", "srv/other/HR", "srv/share/HR/Payroll"] {
        e.toggle(id.to_string());
        for i in entry_ids(&flatten_tree(&t, &e)) {
            assert!(selected.contains(&i));
        }
    }
}

#[test]
fn switching_the_default_flips_every_folder() {
    let mut e = ExpansionState::new(true);
    e.toggle("HR".to_string());
    e.set_default_open(false);
    assert!(!e.default_open());
    assert!(e.is_open("HR"));
    assert!(!e.is_open("IT"));
    e.set_default_open(true);
    assert!(!e.is_open("HR"));
    assert!(e.is_open("IT"));
}

#[test]
fn folder_path_joins_names_with_backslashes() {
    assert_eq!(folder_path("\\\\srv\\share\\", "HR/Payroll/2024"), "\\\\srv\\share\\HR\\Payroll\\2024");
    assert_eq!(folder_path("\\\\", "srv/share"), "\\\\srv\\share");
    assert_eq!(folder_path("\\\\srv\\share\\", "IT"), "\\\\srv\\share\\IT");
    assert_eq!(folder_path("", ""), "");
}

#[test]
fn path_tree_depends_only_on_the_full_path() {
    let a = vec![rec("\\\\srv\\share\\", "HR\\Payroll", "u"), rec("\\\\srv\\", "share\\IT", "v")];
    let b = vec![rec("\\\\srv\\share\\HR\\", "Payroll", "u"), rec("\\\\srv\\share\\IT", "", "v")];
    let ea = ExpansionState::new(true);
    assert_eq!(flatten_tree(&build_path_tree(&a, &[0, 1]), &ea), flatten_tree(&build_path_tree(&b, &[0, 1]), &ea));
}

#[test]
fn other_tree_is_the_path_tree_below_the_folder() {
    let records = sample();
    let other = build_other_tree(&records, &[0, 1, 2]);
    let full = build_path_tree(&records, &[0, 1, 2]);
    let below = child(child(&full, "srv"), "share");
    let e = ExpansionState::new(true);
    assert_eq!(flatten_tree(&other, &e), flatten_tree(below, &e));
}

#[test]
fn piece_prefix_cuts_after_the_first_names() {
    assert_eq!(piece_prefix("\\\\srv\\share\\HR", 1), "\\\\srv");
    assert_eq!(piece_prefix("\\\\srv\\share\\HR", 2), "\\\\srv\\share");
    assert_eq!(piece_prefix("\\\\srv\\\\share\\HR\\", 3), "\\\\srv\\\\share\\HR");
    assert_eq!(piece_prefix("\\\\srv\\share", 5), "\\\\srv\\share");
    assert_eq!(piece_prefix("\\\\srv", 0), "");
    assert_eq!(piece_prefix("C:\\data", 1), "C:");
}

#[test]
fn path_of_folder_id_searches_the_selected_records() {
    let records = sample();
    assert_eq!(path_of_folder_id(&records, &vec![4, 0], "srv/share/HR"), Some("\\\\srv\\share\\HR".to_string()));
    assert_eq!(path_of_folder_id(&records, &vec![4, 0], "srv/other"), Some("\\\\srv\\other".to_string()));
    assert_eq!(path_of_folder_id(&records, &vec![4], "srv/share"), None);
    assert_eq!(path_of_folder_id(&records, &vec![], "srv"), None);
}
