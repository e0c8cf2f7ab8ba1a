//! Text, tables and orders.

use loom::order::{ascending_set, order_of, push_all_distinct, push_distinct, SortKey};
use loom::table::Table;
use loom::text::{
    decimal_text, ends_with, first_word, holds, is_blank, join, lines, precedes,
    signed_decimal_text, split_fields, starts_with, strip_leading, text_before, trim, trim_end,
    words,
};

fn owned(v: &[&str]) -> Vec<String> {
    v.iter().map(|s| s.to_string()).collect()
}

#[test]
fn lines_are_those_of_the_standard_library() {
    for s in ["", "\n", "a", "a\n", "a\r\nb", "a\n\nb\n", "\r", "a\rb\n", "a\r", "x\r\n\r\n"] {
        assert_eq!(lines(s), s.lines().map(String::from).collect::<Vec<_>>(), "{s:?}");
    }
}

#[test]
fn trimming_is_that_of_the_standard_library() {
    for s in ["", "  ", "a", " a ", "\u{a0}a\u{2003}b\t\n", "a b", "\u{feff}x"] {
        assert_eq!(trim(s), s.trim(), "{s:?}");
        assert_eq!(trim_end(s), s.trim_end(), "{s:?}");
        assert_eq!(is_blank(s), s.trim().is_empty(), "{s:?}");
        assert_eq!(words(s), s.split_whitespace().map(String::from).collect::<Vec<_>>());
        assert_eq!(first_word(s), s.split_whitespace().next().map(String::from));
    }
}

#[test]
fn prefixes_and_fields() {
    assert_eq!(strip_leading("ababc", "ab"), "c");
    assert_eq!(strip_leading("abc", ""), "abc");
    assert_eq!(strip_leading("xab", "ab"), "xab");
    assert!(starts_with("abc", "ab") && !starts_with("ab", "abc"));
    assert!(ends_with("abc", "bc") && !ends_with("bc", "abc"));
    assert_eq!(text_before("a/b/c", '/'), "a");
    assert_eq!(text_before("abc", '/'), "abc");
    assert_eq!(split_fields("a\0b\0c\0d"), Some(("a".into(), "b".into(), "c\0d".into())));
    assert_eq!(split_fields("a\0b"), None);
    assert_eq!(split_fields("\0\0"), Some((String::new(), String::new(), String::new())));
}

#[test]
fn joining_and_numbers() {
    assert_eq!(join(&owned(&["a", "", "c"]), ", "), "a, , c");
    assert_eq!(join(&owned(&[]), ", "), "");
    for n in [0u64, 9, 10, 1234567890, u64::MAX] {
        assert_eq!(decimal_text(n), n.to_string());
    }
    for n in [0i64, -1, i64::MIN, i64::MAX, -100] {
        assert_eq!(signed_decimal_text(n), n.to_string());
    }
    assert!(holds(&owned(&["a", "b"]), "b") && !holds(&owned(&["a"]), "A"));
}

#[test]
fn texts_are_ordered_as_strings_are() {
    let all = ["", "a", "ab", "b", "B", "é", "z", "zz", "\u{1F600}", "\u{ffff}"];
    for a in all {
        for b in all {
            assert_eq!(precedes(a, b), a < b, "{a:?} {b:?}");
        }
    }
}

#[test]
fn a_table_is_a_map_in_key_order() {
    let mut t: Table<String> = Table::new();
    for (k, v) in [("m", "1"), ("a", "2"), ("z", "3"), ("m", "4")] {
        t.insert(k.into(), v.into());
    }
    assert_eq!(t.len(), 3);
    let seen: Vec<(&str, &str)> = (0..t.len()).map(|i| (t.key(i), t.value(i).as_str())).collect();
    assert_eq!(seen, vec![("a", "2"), ("m", "4"), ("z", "3")]);
    assert!(t.contains("z") && !t.contains("y"));
    assert_eq!(t.get("m").map(|s| s.as_str()), Some("4"));
    assert!(t.get("").is_none());
}

#[test]
fn sorting_is_stable() {
    let key = |number: i128, text: &str| SortKey { number, text: text.into() };
    let keys = vec![key(2, ""), key(1, "b"), key(1, "a"), key(2, ""), key(1, "a"), key(-5, "z")];
    assert_eq!(order_of(&keys), vec![5, 2, 4, 1, 0, 3]);
    assert!(order_of(&vec![]).is_empty());
}

#[test]
fn sets_and_distinct_lists() {
    assert_eq!(ascending_set(&owned(&["b", "a", "b", ""])), owned(&["", "a", "b"]));
    let mut v = owned(&["x"]);
    push_distinct(&mut v, "y");
    push_distinct(&mut v, "x");
    assert_eq!(v, owned(&["x", "y"]));
    push_all_distinct(&mut v, &owned(&["z", "y", "z"]));
    assert_eq!(v, owned(&["x", "y", "z"]));
}
