use lss_collector::text::{
    behind_last, contains, dec_i64, dec_u64, ends_with, is_white_space, join, lines, lower,
    parse_i64, parse_u64, split, starts_with, take, trim, trim_end_slashes, words,
};

#[test]
fn white_space_is_what_the_language_says_it_is() {
    for c in (0..=0x10ffffu32).filter_map(char::from_u32) {
        assert_eq!(is_white_space(c), c.is_whitespace(), "{c:?}");
    }
    assert_eq!(trim(" \u{a0}\u{3000}a b\t\n"), "a b");
    assert_eq!(words("  a\u{2003}bc \n d"), vec!["a", "bc", "d"]);
}

#[test]
fn numbers_are_written_and_read() {
    for n in [0u64, 9, 10, 12345, u64::MAX] {
        assert_eq!(dec_u64(n), n.to_string());
        assert_eq!(parse_u64(&n.to_string()), Some(n));
    }
    for n in [i64::MIN, -10, 0, 7, i64::MAX] {
        assert_eq!(dec_i64(n), n.to_string());
        assert_eq!(parse_i64(&n.to_string()), Some(n));
    }
    for s in ["", "+", "-", "+5", "-5", "5 ", "1_0", "99999999999999999999", "-9223372036854775809", "\u{661}"] {
        assert_eq!(parse_u64(s), s.parse::<u64>().ok(), "{s}");
        assert_eq!(parse_i64(s), s.parse::<i64>().ok(), "{s}");
    }
}

#[test]
fn texts_are_cut_and_joined() {
    for s in ["", "a", "a\nb", "a\r\nb\n", "\n\n", "a\rb\r\n"] {
        assert_eq!(lines(s), s.lines().collect::<Vec<_>>(), "{s:?}");
        assert_eq!(split(s, 'a'), s.split('a').collect::<Vec<_>>());
    }
    assert_eq!(join(&vec!["a".into(), "b".into()], ", "), "a, b");
    assert_eq!(take("h\u{e9}llo", 2), "h\u{e9}");
    assert_eq!(trim_end_slashes("http://x//"), "http://x");
    assert!(contains("abcabd", "abd") && !contains("abc", "abd") && contains("abc", ""));
    assert!(starts_with("abc", "ab") && ends_with("abc", "bc") && !starts_with("a", "ab"));
    assert_eq!((behind_last("xx: y: z", ": ").as_str(), behind_last("xx", ": ").as_str()), ("z", "xx"));
    assert_eq!(lower("AbC\u{c9}"), "abc\u{c9}");
}
