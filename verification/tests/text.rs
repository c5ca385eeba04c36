use tsumugi::lines::{blank, lines_of, text_of_lines};
use tsumugi::stable_hash::fnv1a64;
use tsumugi::string_map::StringMap;
use tsumugi::text::{
    chars_of, join, join3, contains_char, contains_text, decimal_string, hex_string,
    replace_char, same_text, split_at_char, starts_with, string_of,
};

#[test]
fn lines_end_in_line_feeds() {
    assert_eq!(lines_of("a\r\nb\n\nc\r"), vec!["a", "b", "", "c\r"]);
    assert_eq!(lines_of(""), Vec::<String>::new());
    assert_eq!(lines_of("\n"), vec![""]);
    assert_eq!(lines_of("x"), vec!["x"]);
}

#[test]
fn lines_agree_with_std() {
    for s in ["", "a", "a\n", "a\r\n", "\r\n\r\n", "a\nb", "a\r\r\nb\r", "日本\nご"] {
        let expected: Vec<&str> = s.lines().collect();
        assert_eq!(lines_of(s), expected);
    }
}

#[test]
fn written_lines_are_read_back() {
    let lines = vec!["one".to_string(), "".to_string(), "two words".to_string()];
    let text = text_of_lines(&lines);
    assert_eq!(text, "one\n\ntwo words\n");
    assert_eq!(lines_of(&text), lines);
}

#[test]
fn blank_lines_hold_white_space() {
    assert!(blank(""));
    assert!(blank(" \t\u{3000}\u{85}"));
    assert!(!blank(" x "));
    assert!(!blank("\u{200b}"));
    for code in 0u32..0x3100 {
        if let Some(c) = char::from_u32(code) {
            assert_eq!(blank(&c.to_string()), c.is_whitespace(), "{:x}", code);
        }
    }
}

#[test]
fn pieces_lie_between_separators() {
    assert_eq!(split_at_char("", '\n'), vec![""]);
    assert_eq!(split_at_char("a\n", '\n'), vec!["a", ""]);
    assert_eq!(split_at_char("a,b,,c", ','), vec!["a", "b", "", "c"]);
    assert_ne!(split_at_char("a,b", ','), split_at_char("a,b,", ','));
}

#[test]
fn texts_are_searched() {
    assert!(same_text("äb", "äb"));
    assert!(!same_text("a", "b"));
    assert!(!same_text("a", "ab"));
    assert!(starts_with("doc-1", "doc-"));
    assert!(starts_with("doc", ""));
    assert!(!starts_with("do", "doc"));
    assert!(contains_text("xxnet::yy", "net::"));
    assert!(contains_text("", ""));
    assert!(!contains_text("net:", "net::"));
    assert!(contains_char("a\0", '\0'));
    assert!(!contains_char("", 'a'));
}

#[test]
fn texts_are_put_together() {
    assert_eq!(join("a", "b"), "ab");
    assert_eq!(join3("a", "", "c"), "ac");
    assert_eq!(replace_char("a.b.c", '.', '-'), "a-b-c");
    assert_eq!(string_of(&chars_of("hello"), 1, 3), "el");
}

#[test]
fn numbers_are_printed() {
    assert_eq!(decimal_string(0), "0");
    assert_eq!(decimal_string(10), "10");
    assert_eq!(decimal_string(u64::MAX), u64::MAX.to_string());
    assert_eq!(hex_string(0xbeef, 4), "beef");
    assert_eq!(hex_string(0xa, 4), "000a");
    assert_eq!(hex_string(u64::MAX, 16), "ffffffffffffffff");
    assert_eq!(hex_string(0x12345, 4), "2345");
    assert_ne!(hex_string(1, 16), hex_string(16, 16));
    assert_ne!(decimal_string(1), decimal_string(11));
}

#[test]
fn hash_has_known_values() {
    assert_eq!(fnv1a64(b""), 0xcbf29ce484222325);
    assert_eq!(fnv1a64(b"a"), 0xaf63dc4c8601ec8c);
    assert_eq!(fnv1a64(b"foobar"), 0x85944171f73967e8);
}

#[test]
fn map_holds_each_key_once() {
    let mut m: StringMap<u32> = StringMap::new();
    m.insert("a", 1);
    m.insert("b", 2);
    m.insert("a", 3);
    assert_eq!(m.len(), 2);
    assert_eq!(m.get("a"), Some(&3));
    assert_eq!(m.get("c"), None);
    assert_eq!(m.key_at(0), "a");
    assert_eq!(m.value_at(1), &2);
    assert_eq!(m.remove("a"), Some(3));
    assert_eq!(m.remove("a"), None);
    assert_eq!(m.key_at(0), "b");
}
