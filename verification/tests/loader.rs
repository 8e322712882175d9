use std::collections::BTreeMap;
use std::sync::Arc;

use folder_acl_viewer::loader::{
    build_index, build_split_trie, contains_string, index_keys, parse_and_index, parse_rows,
    row_cell, split_trie_of_rows, LoadedData, DELIMITER,
};
use folder_acl_viewer::model::Record;
use folder_acl_viewer::strmap::StrMap;
use folder_acl_viewer::model::split_folder;
use folder_acl_viewer::trie::{auto_split_folder, SplitTrieNode};

const EXPORT: &str = "Folder|Identity|Rights|AccessControl|Inherited\n\
\\\\srv\\share\\HR\\Payroll|DOM\\alice|FullControl|Allow|False\n\
\\\\srv\\share\\HR\\Payroll\\2024| DOM\\bob |Read|Allow|True\n\
\\\\srv\\share\\IT|DOM\\alice|Modify|Allow|False\n\
\\\\srv\\share\\IT|BUILTIN\\Administrators|FullControl|Allow|False\n";

fn strings(xs: &[&str]) -> Vec<String> {
    xs.iter().map(|s| s.to_string()).collect()
}

fn index_entries(idx: &StrMap<Vec<usize>>) -> Vec<(String, Vec<usize>)> {
    idx.entries.iter().map(|(k, v)| (k.clone(), v.clone())).collect()
}

fn load(content: &str, excluded: &[&str], depth: usize, auto: bool) -> LoadedData {
    match parse_and_index(content.as_bytes(), &strings(excluded), depth, auto) {
        Ok(d) => d,
        Err(m) => panic!("load failed: {m}"),
    }
}

fn split_of(r: &Record) -> (String, String) {
    (r.folder.to_string(), r.other.to_string())
}

#[test]
fn delimiter_is_the_pipe() {
    assert_eq!(DELIMITER, b'|');
}

#[test]
fn parse_rows_skips_the_header_and_keeps_raw_fields() {
    let rows = parse_rows(EXPORT.as_bytes()).unwrap();
    assert_eq!(rows.len(), 4);
    assert_eq!(rows[1], strings(&["\\\\srv\\share\\HR\\Payroll\\2024", " DOM\\bob ", "Read", "Allow", "True"]));
}

#[test]
fn parse_rows_accepts_rows_of_any_length() {
    let rows = parse_rows(b"A|B\nx\ny|z|w\n").unwrap();
    assert_eq!(rows, vec![strings(&["x"]), strings(&["y", "z", "w"])]);
}

#[test]
fn parse_rows_reports_invalid_utf8() {
    match parse_rows(b"Folder|Identity\n\xff\xfe|x\n") {
        Ok(_) => panic!("expected an error"),
        Err(m) => assert!(m.starts_with("CSV parse error: "), "{m}"),
    }
}

#[test]
fn load_trims_fields_and_splits_at_the_depth() {
    let d = load(EXPORT, &[], 4, false);
    assert_eq!(d.records.len(), 4);
    let r = &d.records[1];
    assert_eq!(split_of(r), ("\\\\srv\\share\\".to_string(), "HR\\Payroll\\2024".to_string()));
    assert_eq!(r.identity.as_str(), "DOM\\bob");
    assert_eq!(r.rights.as_str(), "Read");
    assert_eq!(r.access_control.as_str(), "Allow");
    assert_eq!(r.inherited.as_str(), "True");
    assert_eq!(split_of(&d.records[2]), ("\\\\srv\\share\\".to_string(), "IT".to_string()));
}

#[test]
fn load_drops_excluded_identities() {
    let d = load(EXPORT, &["BUILTIN\\Administrators", "CREATOR OWNER"], 4, false);
    assert_eq!(d.records.len(), 3);
    assert!(d.records.iter().all(|r| r.identity.as_str() != "BUILTIN\\Administrators"));
    assert_eq!(d.unique_identities, strings(&["DOM\\alice", "DOM\\bob"]));
}

#[test]
fn excluded_identity_must_match_exactly() {
    let d = load(EXPORT, &["builtin\\administrators", "BUILTIN"], 4, false);
    assert_eq!(d.records.len(), 4);
}

#[test]
fn load_builds_the_three_indexes() {
    let d = load(EXPORT, &["BUILTIN\\Administrators"], 4, false);
    assert_eq!(index_entries(&d.folder_index), vec![("\\\\srv\\share\\".to_string(), vec![0, 1, 2])]);
    assert_eq!(
        index_entries(&d.identity_index),
        vec![("DOM\\alice".to_string(), vec![0, 2]), ("DOM\\bob".to_string(), vec![1])]
    );
    assert_eq!(
        index_entries(&d.other_index),
        vec![
            ("HR\\Payroll".to_string(), vec![0]),
            ("HR\\Payroll\\2024".to_string(), vec![1]),
            ("IT".to_string(), vec![2]),
        ]
    );
    assert_eq!(d.unique_folders, strings(&["\\\\srv\\share\\"]));
    assert_eq!(d.unique_others, strings(&["HR\\Payroll", "HR\\Payroll\\2024", "IT"]));
    assert_eq!(d.folder_index.get("\\\\srv\\share\\"), Some(&vec![0, 1, 2]));
    assert_eq!(d.other_index.get("missing"), None);
}

#[test]
fn empty_values_are_not_indexed() {
    let d = load("Folder|Identity\n\\\\srv\\share|\n|DOM\\x\n", &[], 4, false);
    assert_eq!(d.records.len(), 2);
    assert_eq!(d.unique_folders, strings(&["\\\\srv\\share"]));
    assert_eq!(d.unique_identities, strings(&["DOM\\x"]));
    assert!(d.unique_others.is_empty());
    assert_eq!(d.records[1].rights.as_str(), "");
}

#[test]
fn equal_values_share_one_allocation() {
    let d = load(EXPORT, &[], 4, false);
    assert!(Arc::ptr_eq(&d.records[0].folder, &d.records[1].folder));
    assert!(Arc::ptr_eq(&d.records[0].identity, &d.records[2].identity));
    assert!(Arc::ptr_eq(&d.records[0].access_control, &d.records[3].access_control));
    assert!(!Arc::ptr_eq(&d.records[0].rights, &d.records[1].rights));
}

#[test]
fn empty_export_loads_no_records() {
    let d = load("", &[], 4, false);
    assert!(d.records.is_empty());
    let d = load("Folder|Identity|Rights\n", &[], 4, true);
    assert!(d.records.is_empty());
}

#[test]
fn load_reports_csv_errors() {
    for auto in [false, true] {
        match parse_and_index(b"Folder|Identity\n\xff|x\n", &Vec::new(), 4, auto) {
            Ok(_) => panic!("expected an error"),
            Err(m) => assert!(m.starts_with("CSV parse error: "), "{m}"),
        }
    }
}

#[test]
fn automatic_split_extends_past_folders_everyone_can_see() {
    let d = load(EXPORT, &["BUILTIN\\Administrators"], 4, true);
    assert_eq!(split_of(&d.records[0]), ("\\\\srv\\share\\HR\\".to_string(), "Payroll".to_string()));
    assert_eq!(split_of(&d.records[1]), ("\\\\srv\\share\\HR\\Payroll\\".to_string(), "2024".to_string()));
    assert_eq!(split_of(&d.records[2]), ("\\\\srv\\share\\".to_string(), "IT".to_string()));
}

#[test]
fn automatic_split_never_cuts_before_the_floor() {
    let d = load(EXPORT, &[], 4, true);
    for r in d.records.iter() {
        assert!(r.folder.starts_with("\\\\srv\\share\\"));
    }
    let fixed = load(EXPORT, &[], 4, false);
    for (a, f) in d.records.iter().zip(fixed.records.iter()) {
        assert!(a.folder.starts_with(f.folder.as_str()));
        assert_eq!(format!("{}{}", a.folder, a.other), format!("{}{}", f.folder, f.other));
    }
}

#[test]
fn split_trie_counts_identities_below_each_folder() {
    let rows = parse_rows(EXPORT.as_bytes()).unwrap();
    let (trie, total) = split_trie_of_rows(&rows, &strings(&["BUILTIN\\Administrators"]));
    assert_eq!(total, 2);
    assert_eq!(trie.identities.len(), 2);
    let srv = &trie.children[0];
    assert_eq!(srv.0, "srv");
    let share = &srv.1.children[0].1;
    assert!(share.is_universal(total));
    let names: Vec<&str> = share.children.iter().map(|(n, _)| n.as_str()).collect();
    assert_eq!(names, vec!["HR", "IT"]);
    let hr = &share.children[0].1;
    let it = &share.children[1].1;
    assert!(hr.is_universal(total));
    assert!(!it.is_universal(total));
    assert_eq!(it.identities.len(), 1);
}

#[test]
fn build_split_trie_reads_the_export() {
    let (trie, total) = match build_split_trie(EXPORT.as_bytes(), &Vec::new()) {
        Ok(t) => t,
        Err(m) => panic!("{m}"),
    };
    assert_eq!(total, 3);
    assert_eq!(trie.children.len(), 1);
    assert!(build_split_trie(b"A|B\n\xff|x\n", &Vec::new()).is_err());
}

#[test]
fn auto_split_folder_stops_where_access_differs() {
    let rows = parse_rows(EXPORT.as_bytes()).unwrap();
    let (trie, total) = split_trie_of_rows(&rows, &strings(&["BUILTIN\\Administrators"]));
    assert_eq!(auto_split_folder("\\\\srv\\share\\IT\\sub", 4, &trie, total), ("\\\\srv\\share\\IT\\", "sub"));
    assert_eq!(auto_split_folder("\\\\srv\\share\\IT\\sub\\x", 4, &trie, total), ("\\\\srv\\share\\IT\\", "sub\\x"));
    assert_eq!(auto_split_folder("\\\\srv\\share\\HR\\Payroll", 2, &trie, total), ("\\\\srv\\share\\HR\\", "Payroll"));
    assert_eq!(auto_split_folder("\\\\srv\\share\\HR\\Payroll\\x", 4, &trie, total), ("\\\\srv\\share\\HR\\Payroll\\", "x"));
}

#[test]
fn auto_split_folder_never_cuts_inside_the_floor() {
    let rows = parse_rows(EXPORT.as_bytes()).unwrap();
    let (trie, total) = split_trie_of_rows(&rows, &strings(&["BUILTIN\\Administrators"]));
    // Folders the trie lacks are still taken up to the floor.
    assert_eq!(auto_split_folder("\\\\srv\\unknown\\x", 4, &trie, total), ("\\\\srv\\unknown\\", "x"));
    assert_eq!(auto_split_folder("\\\\srv\\unknown\\x\\y", 4, &trie, total), ("\\\\srv\\unknown\\", "x\\y"));
    // Paths with fewer backslashes than the floor stay whole, as with the fixed split.
    assert_eq!(auto_split_folder("\\\\srv\\share\\HR\\Payroll", 6, &trie, total), ("\\\\srv\\share\\HR\\Payroll", ""));
    assert_eq!(auto_split_folder("\\\\srv\\share", 4, &trie, total), ("\\\\srv\\share", ""));
    assert_eq!(auto_split_folder("plain", 4, &trie, total), ("plain", ""));
}

#[test]
fn auto_split_folder_with_floor_zero_extends_from_the_root() {
    let rows = parse_rows(EXPORT.as_bytes()).unwrap();
    let (trie, total) = split_trie_of_rows(&rows, &strings(&["BUILTIN\\Administrators"]));
    assert_eq!(auto_split_folder("\\\\srv\\share\\IT\\sub", 0, &trie, total), ("\\\\srv\\share\\IT\\", "sub"));
    assert_eq!(auto_split_folder("\\\\srv\\share\\IT\\sub\\x", 0, &trie, total), ("\\\\srv\\share\\IT\\", "sub\\x"));
    assert_eq!(auto_split_folder("\\\\other\\x", 0, &trie, total), ("\\\\", "other\\x"));
    assert_eq!(auto_split_folder("plain", 0, &trie, total), ("", "plain"));
    let empty = SplitTrieNode::new();
    assert_eq!(auto_split_folder("\\\\srv\\share", 0, &empty, 0), ("\\\\", "srv\\share"));
}

#[test]
fn a_higher_floor_never_gives_a_shorter_folder() {
    let rows = parse_rows(EXPORT.as_bytes()).unwrap();
    let (trie, total) = split_trie_of_rows(&rows, &Vec::new());
    for p in ["\\\\srv\\share\\HR\\Payroll\\2024\\q", "\\\\srv\\share\\IT\\z", "a\\b", "\\\\x\\"] {
        let mut last = 0;
        for floor in 0..9 {
            let (folder, other) = auto_split_folder(p, floor, &trie, total);
            assert_eq!(format!("{folder}{other}"), p);
            assert!(folder.len() >= last, "{p:?} at {floor}");
            last = folder.len();
        }
    }
}

#[test]
fn auto_split_folder_with_an_empty_trie_cuts_at_the_floor() {
    let trie = SplitTrieNode::new();
    assert_eq!(auto_split_folder("\\\\srv\\share\\a\\b", 4, &trie, 0), ("\\\\srv\\share\\", "a\\b"));
    assert_eq!(auto_split_folder("\\\\srv\\share\\\\a\\b", 4, &trie, 0), ("\\\\srv\\share\\\\", "a\\b"));
}

#[test]
fn auto_split_folder_extends_the_fixed_folder() {
    let rows = parse_rows(EXPORT.as_bytes()).unwrap();
    let (trie, total) = split_trie_of_rows(&rows, &Vec::new());
    let paths = ["\\\\srv\\share\\HR\\Payroll\\2024\\q", "\\\\srv", "", "a\\b\\c", "\\\\srv\\share\\IT\\z\\w", "\\\\\\\\x"];
    for p in paths.iter() {
        for floor in 0..8 {
            let (fixed, _) = split_folder(p, floor);
            let (folder, other) = auto_split_folder(p, floor, &trie, total);
            assert_eq!(format!("{folder}{other}"), *p);
            assert!(folder.starts_with(fixed), "{p:?} at {floor}: {folder:?} vs {fixed:?}");
        }
    }
}

#[test]
fn build_index_lists_positions_by_key() {
    let mk = |other: &str| Record {
        folder: Arc::new("f".to_string()),
        other: Arc::new(other.to_string()),
        identity: Arc::new("u".to_string()),
        rights: Arc::new(String::new()),
        access_control: Arc::new(String::new()),
        inherited: Arc::new(String::new()),
    };
    let records = vec![mk("b"), mk("a"), mk(""), mk("b"), mk("c"), mk("a")];
    let idx = build_index(&records, 1);
    assert_eq!(
        index_entries(&idx),
        vec![("a".to_string(), vec![1, 5]), ("b".to_string(), vec![0, 3]), ("c".to_string(), vec![4])]
    );
    assert_eq!(index_keys(&idx), strings(&["a", "b", "c"]));
    assert_eq!(idx.len(), 3);
    assert_eq!(idx.key_at(1), "b");
    assert_eq!(idx.value_at(2), &vec![4]);
}

#[test]
fn row_cell_and_contains_string() {
    let row = strings(&["a", "b"]);
    assert_eq!(row_cell(&row, 1), "b");
    assert_eq!(row_cell(&row, 4), "");
    let list = strings(&["x", "CREATOR OWNER"]);
    assert!(contains_string(&list, "CREATOR OWNER"));
    assert!(!contains_string(&list, "creator owner"));
    assert!(!contains_string(&Vec::new(), ""));
}

#[test]
fn build_index_agrees_with_a_btree_map_on_many_records() {
    let records: Vec<Record> = (0..2000usize)
        .map(|i| Record {
            folder: Arc::new(format!("\\\\srv\\s{}\\", (i * 7919) % 37)),
            other: Arc::new(if i % 5 == 0 { String::new() } else { format!("d{}\\e{}", (i * 31) % 101, i % 3) }),
            identity: Arc::new(format!("DOM\\u{}", (i * 13) % 250)),
            rights: Arc::new(String::new()),
            access_control: Arc::new(String::new()),
            inherited: Arc::new(String::new()),
        })
        .collect();
    for col in [0usize, 1, 2] {
        let mut expected: BTreeMap<String, Vec<usize>> = BTreeMap::new();
        for (i, r) in records.iter().enumerate() {
            let k = r.field(col);
            if !k.is_empty() {
                expected.entry(k.to_string()).or_default().push(i);
            }
        }
        let expected: Vec<(String, Vec<usize>)> = expected.into_iter().collect();
        assert_eq!(index_entries(&build_index(&records, col)), expected);
    }
}
