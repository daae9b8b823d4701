use pico_runtime::string::{
    parse_i32, pico_int_to_string, pico_string_char_at, pico_string_concat,
    pico_string_contains, pico_string_ends_with, pico_string_equals, pico_string_format,
    pico_string_index_of, pico_string_length, pico_string_replace, pico_string_split,
    pico_string_starts_with, pico_string_substring, pico_string_to_int, pico_string_to_lower,
    pico_string_to_upper, pico_string_trim,
};

fn text(b: Vec<u8>) -> String {
    String::from_utf8(b).unwrap()
}

#[test]
fn length_and_char_at() {
    assert_eq!(pico_string_length(Some(b"hello")), 5);
    assert_eq!(pico_string_length(Some("é".as_bytes())), 2);
    assert_eq!(pico_string_length(None), 0);
    assert_eq!(pico_string_char_at(b"hello", 0), 104);
    assert_eq!(pico_string_char_at(b"hello", 4), 111);
    assert_eq!(pico_string_char_at(b"hello", 5), -1);
    assert_eq!(pico_string_char_at(b"hello", -1), -1);
}

#[test]
fn substring_cases() {
    assert_eq!(text(pico_string_substring("hello world", 6, -1)), "world");
    assert_eq!(text(pico_string_substring("hello world", 0, 5)), "hello");
    assert_eq!(text(pico_string_substring("hello", -3, 2)), "he");
    assert_eq!(text(pico_string_substring("hello", 2, 100)), "llo");
    assert_eq!(text(pico_string_substring("hello", 5, 1)), "");
    assert_eq!(text(pico_string_substring("hello", 9, -1)), "");
    assert_eq!(text(pico_string_substring("héllo", 1, 2)), "é");
}

#[test]
fn index_of_cases() {
    assert_eq!(pico_string_index_of("hello world", "o", 0), 4);
    assert_eq!(pico_string_index_of("hello world", "o", 5), 7);
    assert_eq!(pico_string_index_of("hello world", "xyz", 0), -1);
    assert_eq!(pico_string_index_of("hello", "", 2), 2);
    assert_eq!(pico_string_index_of("hello", "", 5), -1);
    assert_eq!(pico_string_index_of("hello", "l", -7), 2);
    assert_eq!(pico_string_index_of("", "", 0), -1);
    for (h, n, o) in [("abcabc", "bc", 2usize), ("aaaa", "aa", 1), ("xéy", "y", 0)] {
        let expect = h[o..].find(n).map(|p| (p + o) as i32).unwrap_or(-1);
        assert_eq!(pico_string_index_of(h, n, o as i32), expect);
    }
}

#[test]
fn prefix_suffix_contains() {
    assert!(pico_string_starts_with("hello", "he"));
    assert!(pico_string_starts_with("hello", ""));
    assert!(!pico_string_starts_with("he", "hello"));
    assert!(pico_string_ends_with("hello", "llo"));
    assert!(!pico_string_ends_with("hello", "hel"));
    assert!(pico_string_ends_with("", ""));
    assert!(pico_string_contains("hello", "ell"));
    assert!(pico_string_contains("hello", ""));
    assert!(pico_string_contains("", ""));
    assert!(!pico_string_contains("hello", "olé"));
}

#[test]
fn concat_and_equals() {
    assert_eq!(text(pico_string_concat("foo", "bar")), "foobar");
    assert_eq!(text(pico_string_concat("", "")), "");
    assert!(pico_string_equals(None, None));
    assert!(!pico_string_equals(Some(b"a"), None));
    assert!(!pico_string_equals(None, Some(b"a")));
    assert!(pico_string_equals(Some(b"abc"), Some(b"abc")));
    assert!(!pico_string_equals(Some(b"abc"), Some(b"abd")));
    assert!(!pico_string_equals(Some(b"ab"), Some(b"abc")));
}

#[test]
fn trim_and_case() {
    assert_eq!(text(pico_string_trim("  hi there \n\t")), "hi there");
    assert_eq!(text(pico_string_trim("\u{3000}x\u{a0}")), "x");
    assert_eq!(text(pico_string_trim("\u{85}\u{2028} a b \u{200a}")), "a b");
    assert_eq!(text(pico_string_trim("\u{200b}x\u{feff}")), "\u{200b}x\u{feff}");
    assert_eq!(text(pico_string_trim(" \t ")), "");
    assert_eq!(text(pico_string_to_lower("HeLLo ÄÖ")), "hello äö");
    assert_eq!(text(pico_string_to_upper("straße")), "STRASSE");
}

#[test]
fn replace_matches_std() {
    let cases = [
        ("hello world", "o", "0"),
        ("aaaa", "aa", "b"),
        ("abc", "", "-"),
        ("aé", "", "-"),
        ("", "", "x"),
        ("", "a", "x"),
        ("abcabc", "abc", ""),
        ("xyz", "q", "r"),
        ("ababa", "aba", "X"),
    ];
    for (s, a, b) in cases {
        assert_eq!(text(pico_string_replace(s, a, b)), s.replace(a, b));
    }
    assert_eq!(text(pico_string_replace("aé", "", "-")), "-a-é-");
}

#[test]
fn split_matches_std() {
    let cases = [
        ("a,b,,c", ","),
        ("", ","),
        ("abc", ""),
        ("", ""),
        ("héllo", ""),
        ("aaa", "aa"),
        (",a,", ","),
        ("one::two", "::"),
    ];
    for (s, d) in cases {
        let got: Vec<String> = pico_string_split(s, d).into_iter().map(text).collect();
        let want: Vec<String> = s.split(d).map(|p| p.to_string()).collect();
        assert_eq!(got, want);
    }
}

#[test]
fn split_then_join_gives_back_the_string() {
    for (s, d) in [("a,b,,c", ","), ("héllo", ""), ("x::y::", "::"), ("", "-")] {
        let pieces = pico_string_split(s, d);
        let mut joined = Vec::new();
        for (i, p) in pieces.iter().enumerate() {
            if i > 0 {
                joined.extend_from_slice(d.as_bytes());
            }
            joined.extend_from_slice(p);
        }
        assert_eq!(text(joined), s);
    }
}

#[test]
fn replace_with_itself_changes_nothing() {
    for (s, x) in [("banana", "an"), ("héllo", ""), ("", "a")] {
        assert_eq!(text(pico_string_replace(s, x, x)), s);
    }
}

#[test]
fn to_int_cases() {
    assert_eq!(pico_string_to_int("42"), 42);
    assert_eq!(pico_string_to_int("  -17 \n"), -17);
    assert_eq!(pico_string_to_int("+8"), 8);
    assert_eq!(pico_string_to_int("12abc"), 0);
    assert_eq!(pico_string_to_int(""), 0);
    assert_eq!(pico_string_to_int("-"), 0);
    assert_eq!(pico_string_to_int("+"), 0);
    assert_eq!(pico_string_to_int("2147483647"), 2147483647);
    assert_eq!(pico_string_to_int("-2147483648"), -2147483648);
    assert_eq!(pico_string_to_int("2147483648"), 0);
    assert_eq!(pico_string_to_int("-2147483649"), 0);
    assert_eq!(pico_string_to_int("99999999999999999999"), 0);
    assert_eq!(pico_string_to_int("000123"), 123);
}

#[test]
fn parse_matches_std() {
    for s in ["0", "-0", "+0", "1 2", " 1", "-+1", "+-1", "007", "2147483647", "2147483648", "-2147483648", "-2147483649", "abc", ""] {
        assert_eq!(parse_i32(s.as_bytes()), s.parse::<i32>().ok());
    }
}

#[test]
fn int_to_string_cases() {
    for v in [0, 7, 10, -1, 123456, i32::MAX, i32::MIN] {
        assert_eq!(text(pico_int_to_string(v)), v.to_string());
        assert_eq!(pico_string_to_int(&text(pico_int_to_string(v))), v);
    }
}

#[test]
fn format_cases() {
    let args = vec![Some(b"x".to_vec()), None];
    assert_eq!(text(pico_string_format("a{}b{}c{}", &args)), "axbnullc{}");
    assert_eq!(text(pico_string_format("{{}", &args)), "{x");
    assert_eq!(text(pico_string_format("{ } {", &args)), "{ } {");
    assert_eq!(text(pico_string_format("é{}", &Vec::new())), "é{}");
    assert_eq!(text(pico_string_format("", &args)), "");
}

#[test]
fn white_space_is_the_unicode_list() {
    let listed = |u: u32| {
        (0x9..=0xd).contains(&u)
            || u == 0x20
            || u == 0x85
            || u == 0xa0
            || u == 0x1680
            || (0x2000..=0x200a).contains(&u)
            || u == 0x2028
            || u == 0x2029
            || u == 0x202f
            || u == 0x205f
            || u == 0x3000
    };
    for u in 0..=0x10ffffu32 {
        if let Some(c) = char::from_u32(u) {
            assert_eq!(c.is_whitespace(), listed(u));
        }
    }
}
