use std::sync::Arc;

use folder_acl_viewer::model::{split_folder, Record};

fn rec(folder: &str, other: &str, identity: &str, rights: &str, ac: &str, inherited: &str) -> Record {
    Record {
        folder: Arc::new(folder.to_string()),
        other: Arc::new(other.to_string()),
        identity: Arc::new(identity.to_string()),
        rights: Arc::new(rights.to_string()),
        access_control: Arc::new(ac.to_string()),
        inherited: Arc::new(inherited.to_string()),
    }
}

#[test]
fn split_folder_cuts_after_the_fourth_backslash_of_a_unc_path() {
    let (folder, other) = split_folder("\\\\server\\share\\dept\\team\\x", 4);
    assert_eq!(folder, "\\\\server\\share\\");
    assert_eq!(other, "dept\\team\\x");
}

#[test]
fn split_folder_cuts_after_the_sixth_backslash() {
    let (folder, other) = split_folder("\\\\a\\b\\c\\d\\e\\f", 6);
    assert_eq!(folder, "\\\\a\\b\\c\\d\\");
    assert_eq!(other, "e\\f");
}

#[test]
fn split_folder_keeps_short_paths_whole() {
    assert_eq!(split_folder("\\\\server\\share", 4), ("\\\\server\\share", ""));
    assert_eq!(split_folder("plain", 1), ("plain", ""));
    assert_eq!(split_folder("", 4), ("", ""));
}

#[test]
fn split_folder_with_depth_zero_puts_nothing_in_the_folder() {
    assert_eq!(split_folder("\\\\server\\share\\x", 0), ("", "\\\\server\\share\\x"));
    assert_eq!(split_folder("plain", 0), ("", "plain"));
    assert_eq!(split_folder("", 0), ("", ""));
}

#[test]
fn split_folder_on_trailing_backslash_leaves_other_empty() {
    assert_eq!(split_folder("\\\\srv\\share\\", 4), ("\\\\srv\\share\\", ""));
    assert_eq!(split_folder("a\\b", 1), ("a\\", "b"));
}

#[test]
fn split_folder_pieces_rebuild_the_path() {
    let paths = ["\\\\srv\\share\\HR\\Payroll", "C:\\data\\x", "no-slash", "\\\\\\\\", "é\\ü\\ß"];
    for p in paths.iter() {
        for depth in 0..8 {
            let (folder, other) = split_folder(p, depth);
            assert_eq!(format!("{folder}{other}"), *p);
            let cut = folder.matches('\\').count();
            if depth <= p.matches('\\').count() {
                assert_eq!(cut, depth);
                assert!(folder.is_empty() || folder.ends_with('\\'));
            } else {
                assert_eq!(other, "");
            }
        }
    }
}

#[test]
fn field_returns_each_column() {
    let r = rec("\\\\srv\\share\\", "HR", "DOM\\alice", "Read", "Allow", "False");
    assert_eq!(r.field(0), "\\\\srv\\share\\");
    assert_eq!(r.field(1), "HR");
    assert_eq!(r.field(2), "DOM\\alice");
    assert_eq!(r.field(3), "Read");
    assert_eq!(r.field(4), "Allow");
    assert_eq!(r.field(5), "False");
    assert_eq!(r.field(6), "False");
    assert_eq!(r.field(100), "False");
}

#[test]
fn full_path_joins_folder_and_other() {
    let r = rec("\\\\srv\\share\\", "HR\\Payroll", "DOM\\alice", "Read", "Allow", "False");
    assert_eq!(r.full_path(), "\\\\srv\\share\\HR\\Payroll");
    let r = rec("\\\\srv\\share", "", "x", "", "", "");
    assert_eq!(r.full_path(), "\\\\srv\\share");
}
