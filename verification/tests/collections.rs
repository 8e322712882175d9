use std::sync::Arc;

use folder_acl_viewer::interner::Interner;
use folder_acl_viewer::strmap::{find_key, insert_entry, remove_entry, StrMap};

fn put(e: &mut Vec<(String, u32)>, k: &str, v: u32) {
    match find_key(e, k) {
        Ok(_) => panic!("{k} already present"),
        Err(i) => insert_entry(e, i, k.to_string(), v),
    }
}

#[test]
fn find_key_locates_keys_or_their_insertion_point() {
    let mut e: Vec<(String, u32)> = Vec::new();
    assert_eq!(find_key(&e, "m"), Err(0));
    put(&mut e, "m", 1);
    put(&mut e, "c", 2);
    put(&mut e, "x", 3);
    put(&mut e, "d", 4);
    let keys: Vec<&str> = e.iter().map(|(k, _)| k.as_str()).collect();
    assert_eq!(keys, vec!["c", "d", "m", "x"]);
    assert_eq!(find_key(&e, "d"), Ok(1));
    assert_eq!(find_key(&e, "a"), Err(0));
    assert_eq!(find_key(&e, "e"), Err(2));
    assert_eq!(find_key(&e, "z"), Err(4));
}

#[test]
fn remove_entry_takes_out_one_entry() {
    let mut e: Vec<(String, u32)> = Vec::new();
    put(&mut e, "b", 1);
    put(&mut e, "a", 2);
    put(&mut e, "c", 3);
    let removed = remove_entry(&mut e, 1);
    assert_eq!(removed, ("b".to_string(), 1));
    assert_eq!(find_key(&e, "b"), Err(1));
    assert_eq!(find_key(&e, "c"), Ok(1));
}

#[test]
fn str_map_gets_stored_values() {
    let mut entries: Vec<(String, u32)> = Vec::new();
    put(&mut entries, "HR", 7);
    put(&mut entries, "IT", 9);
    let m = StrMap { entries };
    assert_eq!(m.len(), 2);
    assert_eq!(m.get("IT"), Some(&9));
    assert_eq!(m.get("it"), None);
    assert_eq!(m.key_at(0), "HR");
    assert_eq!(*m.value_at(0), 7);
    assert_eq!(StrMap::<u32>::new().len(), 0);
}

#[test]
fn interner_hands_out_one_shared_value_per_text() {
    let mut pool = Interner::new(4);
    let a = pool.intern("DOM\\alice");
    let b = pool.intern("Read");
    let c = pool.intern("DOM\\alice");
    assert_eq!(a.as_str(), "DOM\\alice");
    assert_eq!(b.as_str(), "Read");
    assert!(Arc::ptr_eq(&a, &c));
    assert!(!Arc::ptr_eq(&a, &b));
    let empty = pool.intern("");
    assert_eq!(empty.as_str(), "");
    assert!(Arc::ptr_eq(&empty, &pool.intern("")));
}
