use nt::text::{
    char_is_space, contains, decimal_string, same, split_words, strip_prefix, to_chars, trim,
};

#[test]
fn white_space_is_the_unicode_property() {
    for c in ['\u{0}', 'a', '\u{8}', '\u{e}', '\u{1f}', '\u{84}', '\u{86}', '\u{180e}',
        '\u{200b}', '\u{feff}', '\u{2027}', '\u{3001}']
    {
        assert!(!char_is_space(c), "{:?}", c);
    }
    for c in [' ', '\t', '\n', '\u{b}', '\u{c}', '\r', '\u{85}', '\u{a0}', '\u{1680}',
        '\u{2000}', '\u{200a}', '\u{2028}', '\u{2029}', '\u{202f}', '\u{205f}', '\u{3000}']
    {
        assert!(char_is_space(c), "{:?}", c);
    }
}

#[test]
fn white_space_agrees_with_the_standard_library() {
    let mut u: u32 = 0;
    while u <= 0x10ffff {
        if let Some(c) = char::from_u32(u) {
            assert_eq!(char_is_space(c), c.is_whitespace(), "{:x}", u);
        }
        u += 1;
    }
}

#[test]
fn trim_drops_both_ends_only() {
    assert_eq!(trim("  a b  "), "a b");
    assert_eq!(trim("a"), "a");
    assert_eq!(trim(""), "");
    assert_eq!(trim(" \t\n"), "");
    assert_eq!(trim("\u{3000}é ü\u{2003}"), "é ü");
}

#[test]
fn trim_agrees_with_the_standard_library() {
    for s in ["", " ", "x", " x", "x ", "  x  y  ", "\t\r\nz", "ß\u{a0}", "\u{85}日本 語\u{2029}"] {
        assert_eq!(trim(s), s.trim(), "{:?}", s);
    }
}

#[test]
fn same_compares_characters() {
    assert!(same("", ""));
    assert!(same("abc", "abc"));
    assert!(!same("abc", "abd"));
    assert!(!same("abc", "ab"));
    assert!(same("héllo", "héllo"));
    assert!(!same("héllo", "hello"));
}

#[test]
fn to_chars_lists_characters() {
    assert_eq!(to_chars("aé日"), vec!['a', 'é', '日']);
    assert_eq!(to_chars(""), Vec::<char>::new());
}

#[test]
fn words_are_runs_between_white_space() {
    assert_eq!(split_words(""), Vec::<&str>::new());
    assert_eq!(split_words("   "), Vec::<&str>::new());
    assert_eq!(split_words("a"), vec!["a"]);
    assert_eq!(split_words("a b"), vec!["a", "b"]);
    assert_eq!(split_words("  work   urgent "), vec!["work", "urgent"]);
    assert_eq!(split_words("a\tb c"), vec!["a", "b", "c"]);
    assert_eq!(split_words("\n x\u{3000}y\r\n"), vec!["x", "y"]);
    assert_eq!(split_words("né é"), vec!["né", "é"]);
}

#[test]
fn words_agree_with_the_standard_library() {
    for s in ["", " ", "a", " a  b ", "a\tb\nc", "\u{a0}x\u{2003}yz\u{85}", "日本 語\u{3000}の"] {
        assert_eq!(split_words(s), s.split_whitespace().collect::<Vec<&str>>(), "{:?}", s);
    }
}

#[test]
fn strip_prefix_takes_the_prefix_off() {
    assert_eq!(strip_prefix("is:work", "is:"), Some("work"));
    assert_eq!(strip_prefix("is:", "is:"), Some(""));
    assert_eq!(strip_prefix("is", "is:"), None);
    assert_eq!(strip_prefix("not:work", "is:"), None);
    assert_eq!(strip_prefix("éa", "é"), Some("a"));
    assert_eq!(strip_prefix("x", ""), Some("x"));
}

#[test]
fn contains_is_literal_and_case_sensitive() {
    assert!(contains("foobar", "foo"));
    assert!(contains("a foo", "foo"));
    assert!(contains("xfoox", "foo"));
    assert!(!contains("fo o", "foo"));
    assert!(!contains("Foo", "foo"));
    assert!(!contains("fo", "foo"));
    assert!(contains("anything", ""));
    assert!(contains("", ""));
    assert!(!contains("", "a"));
    assert!(contains("aab", "ab"));
    assert!(contains("日本語のノート", "語の"));
}

#[test]
fn decimal_string_renders_numbers() {
    assert_eq!(decimal_string(0), "0");
    assert_eq!(decimal_string(7), "7");
    assert_eq!(decimal_string(10), "10");
    assert_eq!(decimal_string(1203), "1203");
    assert_eq!(decimal_string(usize::MAX), usize::MAX.to_string());
}
