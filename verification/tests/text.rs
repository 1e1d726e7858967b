use hintkit::sorting::{sort_positions, sort_texts, text_is_le, SortKey};
use hintkit::text::{begins_with_dash, decode, parse_i32, same_text, slice, starts_with};

#[test]
fn only_utf8_is_decoded() {
    assert_eq!(decode("aé\u{10ffff}".as_bytes()), Some("aé\u{10ffff}"));
    assert_eq!(decode(b""), Some(""));
    assert_eq!(decode(b"a\xc3"), None);
    assert_eq!(decode(b"\xed\xa0\x80"), None);
}

#[test]
fn texts_are_compared_whole_and_by_prefix() {
    assert!(same_text("é", "é"));
    assert!(!same_text("a", "ab"));
    assert!(!same_text("ab", "ac"));
    assert!(starts_with("éa", "é"));
    assert!(starts_with("a", ""));
    assert!(!starts_with("a", "ab"));
    assert!(!starts_with("ba", "a"));
    assert!(begins_with_dash("--all"));
    assert!(!begins_with_dash("a-"));
    assert!(!begins_with_dash(""));
    assert_eq!(slice("héllo", 1, 3), "é");
}

#[test]
fn numbers_are_read_like_std_reads_them() {
    let cases = ["0", "-0", "007", "+1", "-2147483648", "-2147483649", "2147483647", "", "-", "+", "1 ", "1e3", "é"];
    for text in cases {
        assert_eq!(parse_i32(text.as_bytes()), text.parse::<i32>().ok(), "{text:?}");
    }
}

#[test]
fn texts_are_sorted_like_std_sorts_them() {
    let list: Vec<String> =
        ["b", "", "ab", "é", "a", "\u{ffff}", "\u{10000}", "B", "a"].iter().map(|s| s.to_string()).collect();
    let mut expected = list.clone();
    expected.sort();
    assert_eq!(sort_texts(&list), expected);
    assert!(text_is_le("a", "a"));
    assert!(text_is_le("a", "ab"));
    assert!(!text_is_le("b", "ab"));
    assert!(text_is_le("\u{ffff}", "\u{10000}"));
}

#[test]
fn equal_keys_keep_their_positions() {
    let keys = vec![
        SortKey { late: true, text: "a" },
        SortKey { late: false, text: "b" },
        SortKey { late: false, text: "a" },
        SortKey { late: false, text: "b" },
    ];
    assert_eq!(sort_positions(&keys), vec![2, 1, 3, 0]);
    assert!(sort_positions(&vec![]).is_empty());
}
