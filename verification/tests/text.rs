use sandpack_cdn::json::{parse_json, Json};
use sandpack_cdn::str_map::{find_text, StrMap, StrSet};
use sandpack_cdn::text::{
    byte_len, chars_to_string, contains_text, decimal, find_char, is_text_less, parse_u64,
    replace_char, same_text, sort_and_dedup, starts_with_text, to_chars, trim,
};

#[test]
fn white_space_is_trimmed() {
    assert_eq!(trim(" \t\r\n\u{85}\u{a0}\u{2003}a b\u{3000}\u{2028} "), "a b");
    assert_eq!(trim("\u{200b}a"), "\u{200b}a");
    assert_eq!(trim("   "), "");
}

#[test]
fn numbers_are_written_and_read() {
    for n in [0, 9, 10, 99, 1_000_000, u64::MAX] {
        assert_eq!(decimal(n), n.to_string());
        assert_eq!(parse_u64(&decimal(n)), Some(n));
    }
    for text in ["", "+1", "-1", " 1", "1x", "18446744073709551616", "\u{661}"] {
        assert_eq!(parse_u64(text), None);
    }
    assert_eq!(parse_u64("007"), Some(7));
}

#[test]
fn texts_are_compared_and_searched() {
    assert!(same_text("\u{e9}", "\u{e9}"));
    assert!(!same_text("e\u{301}", "\u{e9}"));
    assert!(starts_with_text("./a", "./"));
    assert!(!starts_with_text("a", "ab"));
    assert!(contains_text("x.node.js", ".node"));
    assert!(contains_text("x", ""));
    assert!(!contains_text("x.nod", ".node"));
    assert_eq!(byte_len("\u{20ac}"), 3);
    assert_eq!(replace_char("a/b/c", '/', "__"), "a__b__c");
    let chars = to_chars("a@b@c");
    assert_eq!(find_char(&chars, '@', 2), 3);
    assert_eq!(find_char(&chars, '#', 0), 5);
    assert_eq!(chars_to_string(&chars, 2, 5), "b@c");
}

#[test]
fn texts_are_sorted_by_code_point() {
    assert!(is_text_less("Z", "a"));
    assert!(is_text_less("a", "ab"));
    assert!(is_text_less("\u{ffff}", "\u{10000}"));
    assert!(!is_text_less("a", "a"));
    let items: Vec<String> = ["b", "a", "b", "B", "\u{e9}", "", "a"].iter().map(|s| s.to_string()).collect();
    assert_eq!(sort_and_dedup(&items), vec!["", "B", "a", "b", "\u{e9}"]);
}

#[test]
fn maps_keep_the_place_of_a_key() {
    let mut map = StrMap::new();
    map.insert("a".to_string(), "1".to_string());
    map.insert("b".to_string(), "2".to_string());
    map.insert("a".to_string(), "3".to_string());
    assert_eq!(map.len(), 2);
    assert_eq!(map.position("a"), Some(0));
    assert_eq!(find_text(&map, "a"), Some("3".to_string()));
    assert_eq!(find_text(&map, "c"), None);
    let copy = map.clone();
    assert_eq!(copy.key_at(1), "b");
    assert_eq!(copy.value_at(1), "2");
    let entries = copy.into_entries();
    assert_eq!(entries[0], ("a".to_string(), "3".to_string()));
    let mut set = StrSet::new();
    set.insert("x".to_string());
    set.insert("x".to_string());
    assert_eq!(set.len(), 1);
    assert!(set.contains("x"));
    assert_eq!(set.item_at(0), "x");
}

#[test]
fn documents_are_read() {
    match parse_json(r#"{"a":[null,true,-1.50,"s"],"b":{}}"#).unwrap() {
        Json::Object(members) => {
            assert_eq!(members.len(), 2);
            assert_eq!(members[0].0, "a");
            match &members[0].1 {
                Json::Array(items) => {
                    assert!(matches!(items[0], Json::Null));
                    assert!(matches!(items[1], Json::Bool(true)));
                    assert!(matches!(&items[2], Json::Number(n) if n == "-1.5"));
                    assert!(matches!(&items[3], Json::Text(s) if s == "s"));
                }
                other => panic!("{:?}", other),
            }
            assert!(matches!(&members[1].1, Json::Object(inner) if inner.is_empty()));
        }
        other => panic!("{:?}", other),
    }
    assert!(parse_json("{} x").is_err());
}
