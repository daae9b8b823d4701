use pico_runtime::regex::{
    anchored_groups, anchored_match_len, anchored_match_text, pico_regex_compile,
    pico_regex_exec, pico_regex_exec_groups, pico_regex_exec_str, pico_regex_match,
    pico_regex_match_groups, pico_regex_match_str,
};

#[test]
fn compile_accepts_and_refuses() {
    assert!(pico_regex_compile("[a-z]+").is_some());
    assert!(pico_regex_compile("foo(bar").is_none());
}

#[test]
fn exec_is_anchored_at_offset() {
    let re = pico_regex_compile("[0-9]+").unwrap();
    assert_eq!(pico_regex_exec(&re, "abc123def", 3), 3);
    assert_eq!(pico_regex_exec(&re, "abc123def", 0), -1);
    assert_eq!(pico_regex_exec(&re, "abc123def", 4), 2);
    assert_eq!(pico_regex_exec(&re, "abc123def", 9), -1);
    assert_eq!(pico_regex_exec(&re, "abc123def", 100), -1);
    assert_eq!(pico_regex_exec(&re, "42", -5), 2);
}

#[test]
fn exec_str_returns_match_text() {
    let re = pico_regex_compile("[a-z]+").unwrap();
    assert_eq!(pico_regex_exec_str(&re, "hello world", 6), Some(b"world".to_vec()));
    assert_eq!(pico_regex_exec_str(&re, "hello world", 5), None);
    assert_eq!(pico_regex_exec_str(&re, "", 0), None);
}

#[test]
fn exec_groups_returns_group_texts() {
    let re = pico_regex_compile("([a-z]+)(?:([0-9]+)|([A-Z]+))").unwrap();
    let g = pico_regex_exec_groups(&re, "abc123", 0).unwrap();
    assert_eq!(g, vec![Some(b"abc123".to_vec()), Some(b"abc".to_vec()), Some(b"123".to_vec()), None]);
    assert_eq!(pico_regex_exec_groups(&re, "  abc123", 0), None);
    assert_eq!(pico_regex_exec_groups(&re, "!!!", 0), None);
}

#[test]
fn one_shot_matching() {
    assert_eq!(pico_regex_match("ab+", "xabbb", 1), 4);
    assert_eq!(pico_regex_match("ab(", "xabbb", 1), -1);
    assert_eq!(pico_regex_match_str("é+", "aééb", 1), Some("éé".as_bytes().to_vec()));
    assert_eq!(pico_regex_match_str("(", "x", 0), None);
    assert_eq!(pico_regex_match_groups("(a)(b)?", "ac", 0), Some(vec![Some(b"a".to_vec()), Some(b"a".to_vec()), None]));
    assert_eq!(pico_regex_match_groups("(", "x", 0), None);
}

#[test]
fn anchored_helpers() {
    assert_eq!(anchored_match_len(Some((0, 4))), 4);
    assert_eq!(anchored_match_len(Some((1, 4))), -1);
    assert_eq!(anchored_match_len(None), -1);
    assert_eq!(anchored_match_text(b"abcd", Some((0, 2))), Some(b"ab".to_vec()));
    assert_eq!(anchored_match_text(b"abcd", Some((1, 2))), None);
    assert_eq!(anchored_groups(b"abcd", Some(vec![Some((0, 3)), None, Some((1, 2))])), Some(vec![Some(b"abc".to_vec()), None, Some(b"b".to_vec())]));
    assert_eq!(anchored_groups(b"abcd", Some(vec![Some((2, 3))])), None);
    assert_eq!(anchored_groups(b"abcd", None), None);
}

#[test]
fn empty_match_at_end_of_subject() {
    let re = pico_regex_compile("x*").unwrap();
    assert_eq!(pico_regex_exec(&re, "", 0), 0);
    assert_eq!(pico_regex_exec(&re, "ab", 2), 0);
    assert_eq!(pico_regex_exec(&re, "ab", 3), -1);
    assert_eq!(pico_regex_exec_str(&re, "ab", 2), Some(Vec::new()));
    assert_eq!(pico_regex_exec_str(&re, "ab", 3), None);
    assert_eq!(pico_regex_exec_groups(&re, "", 0), Some(vec![Some(Vec::new())]));
    assert_eq!(pico_regex_match("(x)*", "", 0), 0);
    assert_eq!(pico_regex_match_groups("(x)*", "", 0), Some(vec![Some(Vec::new()), None]));
}

#[test]
fn groups_agree_with_text_and_length() {
    let re = pico_regex_compile("([a-z]+)([0-9]*)").unwrap();
    for (s, o) in [("abc12!", 0i64), ("x9", 1), ("12ab", 0), ("ab", 2)] {
        let n = pico_regex_exec(&re, s, o);
        let t = pico_regex_exec_str(&re, s, o);
        let g = pico_regex_exec_groups(&re, s, o);
        assert_eq!(t.is_some(), n != -1);
        assert_eq!(g.is_some(), t.is_some());
        if let (Some(t), Some(g)) = (t, g) {
            assert_eq!(t.len() as i64, n);
            assert_eq!(g[0], Some(t));
        }
    }
}
