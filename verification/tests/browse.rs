use folder_acl_viewer::browse::{lowercase_names, matching_names, names_containing, SearchBy, Selection, ViewerState};
use folder_acl_viewer::loader::{parse_and_index, LoadedData};
use folder_acl_viewer::tree::FlatRow;

const EXPORT: &str = "Folder|Identity|Rights|AccessControl|Inherited\n\
\\\\srv\\share\\HR\\Payroll|DOM\\alice|FullControl|Allow|False\n\
\\\\srv\\share\\HR\\Payroll\\2024| DOM\\bob |Read|Allow|True\n\
\\\\srv\\share\\IT|DOM\\alice|Modify|Allow|False\n\
\\\\srv\\share\\IT|BUILTIN\\Administrators|FullControl|Allow|False\n";

fn strings(xs: &[&str]) -> Vec<String> {
    xs.iter().map(|s| s.to_string()).collect()
}

fn load(excluded: &[&str]) -> LoadedData {
    match parse_and_index(EXPORT.as_bytes(), &strings(excluded), 4, false) {
        Ok(d) => d,
        Err(m) => panic!("{m}"),
    }
}

fn loaded() -> ViewerState {
    let mut s = ViewerState::new();
    s.on_loaded("acl.csv".to_string(), load(&["BUILTIN\\Administrators"]));
    s
}

fn folder(id: &str, depth: usize, expanded: bool) -> FlatRow {
    let name = id.rsplit('/').next().unwrap().to_string();
    FlatRow::Folder { id: id.to_string(), name, depth, expanded, has_children: true }
}

fn entry(record_idx: usize, depth: usize) -> FlatRow {
    FlatRow::Entry { record_idx, depth }
}

fn flat(s: &ViewerState) -> &Vec<FlatRow> {
    match &s.selection {
        Selection::Folder { flat, .. } | Selection::User { flat, .. } | Selection::Other { flat, .. } => flat,
        Selection::Nothing => panic!("nothing selected"),
    }
}

#[test]
fn new_viewer_is_empty() {
    let s = ViewerState::new();
    assert!(s.data.records.is_empty());
    assert_eq!(s.search_by, SearchBy::Folder);
    assert!(matches!(s.selection, Selection::Nothing));
    assert!(s.sidebar_cache.is_empty());
    assert!(!s.loading);
    assert_eq!(s.error, None);
    assert_eq!(s.loaded_path, None);
}

#[test]
fn on_loaded_shows_every_record_and_lists_the_folders() {
    let s = loaded();
    assert_eq!(s.filtered_table, vec![0, 1, 2]);
    assert_eq!(s.loaded_path, Some("acl.csv".to_string()));
    assert_eq!(s.sidebar_cache, vec![0]);
    assert_eq!(s.unique_identities_lower, strings(&["dom\\alice", "dom\\bob"]));
    assert_eq!(s.table_sort_col, 0);
    assert!(!s.table_sort_desc);
}

#[test]
fn search_filters_the_current_list_ignoring_case() {
    let mut s = loaded();
    s.set_search_by(SearchBy::User);
    assert_eq!(s.sidebar_cache, vec![0, 1]);
    s.set_query("BOB".to_string());
    assert_eq!(s.sidebar_cache, vec![1]);
    s.set_query("dom\\".to_string());
    assert_eq!(s.sidebar_cache, vec![0, 1]);
    s.set_query("nobody".to_string());
    assert!(s.sidebar_cache.is_empty());
    s.set_query(String::new());
    assert_eq!(s.sidebar_cache, vec![0, 1]);
}

#[test]
fn switching_lists_clears_the_query() {
    let mut s = loaded();
    s.set_query("zzz".to_string());
    assert!(s.sidebar_cache.is_empty());
    s.set_search_by(SearchBy::Folder);
    assert_eq!(s.sidebar_query, "zzz");
    s.set_search_by(SearchBy::Other);
    assert_eq!(s.sidebar_query, "");
    assert_eq!(s.sidebar_cache, vec![0, 1, 2]);
}

#[test]
fn selecting_a_folder_shows_the_tree_below_it_collapsed() {
    let mut s = loaded();
    s.select_index(0);
    match &s.selection {
        Selection::Folder { name, .. } => assert_eq!(name, "\\\\srv\\share\\"),
        _ => panic!("expected a folder"),
    }
    assert_eq!(*flat(&s), vec![folder("HR", 0, false), folder("IT", 0, false)]);
    s.toggle_node("HR".to_string());
    s.toggle_node("HR/Payroll".to_string());
    s.toggle_node("IT".to_string());
    assert_eq!(
        *flat(&s),
        vec![
            folder("HR", 0, true),
            folder("HR/Payroll", 1, true),
            entry(0, 2),
            folder("HR/Payroll/2024", 2, false),
            folder("IT", 0, true),
            entry(2, 1),
        ]
    );
    assert!(s.is_shown("\\\\srv\\share\\"));
    assert!(!s.is_shown("\\\\srv\\other\\"));
}

#[test]
fn selecting_a_user_shows_the_full_paths_of_their_grants() {
    let mut s = loaded();
    s.set_search_by(SearchBy::User);
    s.select_index(0);
    match &s.selection {
        Selection::User { name, .. } => assert_eq!(name, "DOM\\alice"),
        _ => panic!("expected a user"),
    }
    assert_eq!(
        *flat(&s),
        vec![
            folder("srv", 0, true),
            folder("srv/share", 1, true),
            folder("srv/share/HR", 2, true),
            folder("srv/share/HR/Payroll", 3, true),
            entry(0, 4),
            folder("srv/share/IT", 2, true),
            entry(2, 3),
        ]
    );
    assert!(s.is_shown("DOM\\alice"));
    s.set_search_by(SearchBy::Folder);
    assert!(!s.is_shown("DOM\\alice"));
}

#[test]
fn selecting_a_sub_path_shows_it_under_each_folder() {
    let mut s = loaded();
    s.set_search_by(SearchBy::Other);
    assert_eq!(s.data.unique_others, strings(&["HR\\Payroll", "HR\\Payroll\\2024", "IT"]));
    s.select_index(2);
    match &s.selection {
        Selection::Other { name, .. } => assert_eq!(name, "IT"),
        _ => panic!("expected a sub-path"),
    }
    assert_eq!(*flat(&s), vec![folder("srv", 0, false)]);
}

#[test]
fn toggling_a_node_collapses_and_reopens_it() {
    let mut s = loaded();
    s.set_search_by(SearchBy::User);
    s.select_index(0);
    let before = flat(&s).len();
    s.toggle_node("srv/share/HR".to_string());
    assert_eq!(
        *flat(&s),
        vec![
            folder("srv", 0, true),
            folder("srv/share", 1, true),
            folder("srv/share/HR", 2, false),
            folder("srv/share/IT", 2, true),
            entry(2, 3),
        ]
    );
    s.toggle_node("srv/share/HR".to_string());
    assert_eq!(flat(&s).len(), before);
}

#[test]
fn toggling_without_a_selection_changes_nothing() {
    let mut s = loaded();
    s.toggle_node("srv".to_string());
    assert!(matches!(s.selection, Selection::Nothing));
}

#[test]
fn clearing_the_selection_returns_to_the_table() {
    let mut s = loaded();
    s.select_index(0);
    s.clear_selection();
    assert!(matches!(s.selection, Selection::Nothing));
    assert!(!s.is_shown("\\\\srv\\share\\"));
}

#[test]
fn clicking_a_column_sorts_and_clicking_again_reverses() {
    let mut s = loaded();
    s.click_sort(2);
    assert_eq!(s.table_sort_col, 2);
    assert!(!s.table_sort_desc);
    let ids: Vec<&str> = s.filtered_table.iter().map(|&i| s.data.records[i].field(2)).collect();
    assert_eq!(ids, vec!["DOM\\alice", "DOM\\alice", "DOM\\bob"]);
    s.click_sort(2);
    assert!(s.table_sort_desc);
    assert_eq!(s.filtered_table[0], 1);
    s.click_sort(3);
    assert_eq!(s.table_sort_col, 3);
    assert!(!s.table_sort_desc);
    assert_eq!(s.filtered_table, vec![0, 2, 1]);
    let mut all = s.filtered_table.clone();
    all.sort();
    assert_eq!(all, vec![0, 1, 2]);
}

#[test]
fn first_click_on_the_sorted_column_reverses_it() {
    let mut s = loaded();
    s.click_sort(0);
    assert_eq!(s.table_sort_col, 0);
    assert!(s.table_sort_desc);
}

#[test]
fn loading_sets_and_clears_the_flags() {
    let mut s = loaded();
    s.error = Some("old".to_string());
    s.begin_load();
    assert!(s.loading);
    assert_eq!(s.error, None);
    s.finish_load(Err("Failed to read x.csv: not found".to_string()));
    assert!(!s.loading);
    assert_eq!(s.error, Some("Failed to read x.csv: not found".to_string()));
    assert_eq!(s.data.records.len(), 3);
    s.begin_load();
    s.finish_load(Ok(("all.csv".to_string(), load(&[]))));
    assert!(!s.loading);
    assert_eq!(s.data.records.len(), 4);
    assert_eq!(s.loaded_path, Some("all.csv".to_string()));
    assert_eq!(s.filtered_table, vec![0, 1, 2, 3]);
}

#[test]
fn a_new_load_clears_the_selection() {
    let mut s = loaded();
    s.select_index(0);
    s.on_loaded("again.csv".to_string(), load(&[]));
    assert!(matches!(s.selection, Selection::Nothing));
}

#[test]
fn matching_names_uses_lowercase_forms() {
    let lower = lowercase_names(&strings(&["HR\\Payroll", "IT", "hr"]));
    assert_eq!(lower, strings(&["hr\\payroll", "it", "hr"]));
    assert_eq!(matching_names(&lower, "HR"), vec![0, 2]);
    assert_eq!(matching_names(&lower, ""), vec![0, 1, 2]);
    assert_eq!(matching_names(&lower, "Payroll"), vec![0]);
    assert!(matching_names(&lower, "x").is_empty());
}

#[test]
fn names_containing_matches_the_given_text_exactly() {
    let names = strings(&["hr\\payroll", "it", "HR"]);
    assert_eq!(names_containing(&names, "hr"), vec![0]);
    assert_eq!(names_containing(&names, "HR"), vec![2]);
    assert_eq!(names_containing(&names, ""), vec![0, 1, 2]);
    assert!(names_containing(&names, "zz").is_empty());
}

#[test]
fn sidebar_entries_stay_selectable() {
    let mut s = loaded();
    for by in [SearchBy::User, SearchBy::Other, SearchBy::Folder] {
        s.set_search_by(by);
        for q in ["", "a", "HR", "zzz"] {
            s.set_query(q.to_string());
            let len = match by {
                SearchBy::Folder => s.data.unique_folders.len(),
                SearchBy::User => s.data.unique_identities.len(),
                SearchBy::Other => s.data.unique_others.len(),
            };
            assert!(s.sidebar_cache.iter().all(|&i| i < len));
        }
    }
}

#[test]
fn folder_row_path_gives_the_full_path_of_a_folder() {
    let mut s = loaded();
    assert_eq!(s.folder_row_path("HR"), None);
    s.select_index(0);
    assert_eq!(s.folder_row_path("HR/Payroll"), Some("\\\\srv\\share\\HR\\Payroll".to_string()));
    s.set_search_by(SearchBy::User);
    s.select_index(0);
    assert_eq!(s.folder_row_path("srv/share/HR"), Some("\\\\srv\\share\\HR".to_string()));
    assert_eq!(s.folder_row_path("srv"), Some("\\\\srv".to_string()));
    assert_eq!(s.folder_row_path("srv/elsewhere"), None);
}

#[test]
fn folder_row_path_keeps_paths_that_are_not_unc() {
    let export = "Folder|Identity\nC:\\data\\hr\\x|DOM\\eve\n";
    let data = match parse_and_index(export.as_bytes(), &Vec::new(), 1, false) {
        Ok(d) => d,
        Err(m) => panic!("{m}"),
    };
    let mut s = ViewerState::new();
    s.on_loaded("c.csv".to_string(), data);
    s.set_search_by(SearchBy::User);
    s.select_index(0);
    assert_eq!(s.folder_row_path("C:/data"), Some("C:\\data".to_string()));
    s.set_search_by(SearchBy::Other);
    s.select_index(0);
    assert_eq!(s.folder_row_path("C:/data/hr"), Some("C:\\data\\hr".to_string()));
}
