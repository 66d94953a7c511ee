use card_parser::text::{
    contains, from_chars, matches_here, replace_all, same_text, split_chars, text_less, to_chars,
    trim,
};

#[test]
fn chars_round_trip() {
    let v = to_chars("a\u{e9}b");
    assert_eq!(v, vec!['a', '\u{e9}', 'b']);
    assert_eq!(from_chars(&v), "a\u{e9}b");
    assert_eq!(to_chars(""), Vec::<char>::new());
}

#[test]
fn contains_finds_a_text_anywhere() {
    assert!(contains("[On Play] Draw", "[On Play]"));
    assert!(contains("Draw [On Play]", "[On Play]"));
    assert!(contains("abc", ""));
    assert!(contains("", ""));
    assert!(!contains("[On Pla", "[On Play]"));
    assert!(!contains("", "a"));
    assert!(!contains("abcabd", "abe"));
}

#[test]
fn replace_takes_occurrences_from_the_left() {
    assert_eq!(replace_all("aaa", "aa", "b"), "ba");
    assert_eq!(replace_all("[OP01] x [OP02]", "[OP", "[OP-"), "[OP-01] x [OP-02]");
    assert_eq!(replace_all("<h3>Cost</h3>4", "<h3>Cost</h3>", ""), "4");
    assert_eq!(replace_all("abc", "x", "y"), "abc");
    assert_eq!(replace_all("", "x", "y"), "");
    assert_eq!(replace_all("abab", "ab", "abab"), "abababab");
}

#[test]
fn replace_with_empty_pattern_changes_nothing() {
    assert_eq!(replace_all("abc", "", "-"), "abc");
}

#[test]
fn trim_removes_unicode_white_space() {
    assert_eq!(trim("  L \n"), "L");
    assert_eq!(trim("\u{3000}SP CARD\u{a0}\t"), "SP CARD");
    assert_eq!(trim(" \r\n "), "");
    assert_eq!(trim(""), "");
    assert_eq!(trim("a b"), "a b");
    assert_eq!(trim("\u{200b}x"), "\u{200b}x");
}

#[test]
fn trim_agrees_with_std_on_every_white_space_character() {
    let mut c = 0u32;
    while c <= 0x3100 {
        if let Some(ch) = char::from_u32(c) {
            let s = format!("{}x{}", ch, ch);
            assert_eq!(trim(&s), s.trim(), "U+{:04X}", c);
        }
        c += 1;
    }
}

#[test]
fn text_equality() {
    assert!(same_text("Red", "Red"));
    assert!(!same_text("Red", "Red "));
    assert!(!same_text("Red", "red"));
    assert!(same_text("", ""));
}

#[test]
fn lexicographic_order_of_texts() {
    assert!(text_less("", "a"));
    assert!(!text_less("a", ""));
    assert!(!text_less("a", "a"));
    assert!(text_less("ST01-", "ST02-"));
    assert!(text_less("ST01", "ST01-"));
    assert!(text_less("Z", "a"));
    assert!(text_less("[EB-01]", "[OP-01]"));
    assert!(!text_less("b", "abc"));
}

#[test]
fn lexicographic_order_agrees_with_std() {
    let samples = ["", "a", "ab", "b", "A", "\u{e9}", "z\u{1F600}", "\u{1F600}", "[OP-01]", "-"];
    for a in samples.iter() {
        for b in samples.iter() {
            assert_eq!(text_less(a, b), a < b, "{:?} {:?}", a, b);
        }
    }
}

#[test]
fn match_at_a_position() {
    let s = to_chars("abcab");
    let ab = to_chars("ab");
    assert!(matches_here(&s, &ab, 0));
    assert!(!matches_here(&s, &ab, 1));
    assert!(matches_here(&s, &ab, 3));
    assert!(!matches_here(&s, &ab, 4));
    assert!(matches_here(&s, &to_chars(""), 5));
    assert!(!matches_here(&s, &to_chars(""), 6));
    assert!(!matches_here(&s, &ab, usize::MAX));
}

#[test]
fn split_keeps_empty_pieces() {
    let pieces = split_chars(&to_chars("a//b/"), '/');
    let texts: Vec<String> = pieces.iter().map(from_chars).collect();
    assert_eq!(texts, vec!["a", "", "b", ""]);
    let pieces = split_chars(&to_chars(""), '/');
    assert_eq!(pieces, vec![Vec::<char>::new()]);
    let joined: Vec<String> =
        split_chars(&to_chars("Red/Green"), '/').iter().map(from_chars).collect();
    assert_eq!(joined.join("/"), "Red/Green");
}
