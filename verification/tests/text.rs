use folder_acl_viewer::text::{
    chars_of, compare_str, contains_str, is_white_space_char, split_segments, str_equal,
    trim, trimmed_lines, Order,
};
use folder_acl_viewer::browse::lowercase_names;

#[test]
fn compare_str_orders_by_code_point() {
    assert_eq!(compare_str("abc", "abd"), Order::Less);
    assert_eq!(compare_str("abd", "abc"), Order::Greater);
    assert_eq!(compare_str("abc", "abc"), Order::Equal);
    assert_eq!(compare_str("ab", "abc"), Order::Less);
    assert_eq!(compare_str("", ""), Order::Equal);
    assert_eq!(compare_str("B", "a"), Order::Less);
    assert_eq!(compare_str("é", "z"), Order::Greater);
}

#[test]
fn compare_str_agrees_with_string_ordering() {
    let words = ["HR", "hr", "IT", "Ä", "a\\b", "a", "", "zz", "\u{1F600}", "\u{FFFF}"];
    for a in words.iter() {
        for b in words.iter() {
            let expected = match a.cmp(b) {
                std::cmp::Ordering::Less => Order::Less,
                std::cmp::Ordering::Equal => Order::Equal,
                std::cmp::Ordering::Greater => Order::Greater,
            };
            assert_eq!(compare_str(a, b), expected, "{a:?} vs {b:?}");
        }
    }
}

#[test]
fn str_equal_compares_contents() {
    assert!(str_equal("DOM\\alice", "DOM\\alice"));
    assert!(!str_equal("DOM\\alice", "DOM\\Alice"));
    assert!(!str_equal("a", "ab"));
}

#[test]
fn chars_of_lists_each_character() {
    assert_eq!(chars_of("a\\é"), vec!['a', '\\', 'é']);
    assert!(chars_of("").is_empty());
}

#[test]
fn trim_matches_std_trim() {
    let samples = [
        "  DOM\\bob ",
        "\tRead\r\n",
        "plain",
        "   ",
        "",
        "\u{3000}wide\u{a0}",
        "\u{85}x y\u{2029}",
        " inner  space ",
    ];
    for s in samples.iter() {
        assert_eq!(trim(s), s.trim(), "{s:?}");
    }
}

#[test]
fn white_space_matches_char_is_whitespace() {
    for c in ['\t', '\n', '\u{0b}', '\u{0c}', '\r', ' ', '\u{85}', '\u{a0}', '\u{1680}', '\u{2000}',
        '\u{200a}', '\u{2028}', '\u{2029}', '\u{202f}', '\u{205f}', '\u{3000}', 'a', '\\', '\u{200b}',
        '\u{feff}', '_']
    {
        assert_eq!(is_white_space_char(c), c.is_whitespace(), "{c:?}");
    }
}

#[test]
fn contains_str_finds_substrings() {
    assert!(contains_str("\\\\srv\\share\\hr", "share"));
    assert!(contains_str("abc", ""));
    assert!(contains_str("abc", "abc"));
    assert!(!contains_str("abc", "abcd"));
    assert!(!contains_str("abc", "cb"));
    assert!(contains_str("aaab", "aab"));
    assert!(!contains_str("", "a"));
}

#[test]
fn split_segments_drops_empty_pieces() {
    assert_eq!(
        split_segments("\\\\srv\\share\\\\HR\\"),
        vec!["srv".to_string(), "share".to_string(), "HR".to_string()]
    );
    assert_eq!(split_segments("IT"), vec!["IT".to_string()]);
    assert!(split_segments("").is_empty());
    assert!(split_segments("\\\\").is_empty());
}

#[test]
fn lowercase_names_lowers_every_character() {
    let names: Vec<String> = ["DOM\\Alice", "ÄÖÜ", "ABC", "already lower"].iter().map(|s| s.to_string()).collect();
    assert_eq!(lowercase_names(&names), vec!["dom\\alice", "äöü", "abc", "already lower"]);
}

#[test]
fn trimmed_lines_keeps_nonblank_lines_trimmed() {
    assert_eq!(
        trimmed_lines("BUILTIN\\Administrators\n  CREATOR OWNER \r\n\n\t\nNT AUTHORITY\\SYSTEM"),
        vec![
            "BUILTIN\\Administrators".to_string(),
            "CREATOR OWNER".to_string(),
            "NT AUTHORITY\\SYSTEM".to_string(),
        ]
    );
    assert!(trimmed_lines("").is_empty());
    assert!(trimmed_lines("\n \n").is_empty());
    assert_eq!(trimmed_lines("one"), vec!["one".to_string()]);
    assert_eq!(trimmed_lines("a b\n"), vec!["a b".to_string()]);
}
