use mega_dl::text::{
    cut, decimal_of, find_char, find_text, has_prefix, is_space, joined3, same_text, split_on,
    stripped_back, trimmed,
};

#[test]
fn white_space_is_that_of_unicode() {
    for n in 0..=0x10ffffu32 {
        if let Some(c) = char::from_u32(n) {
            assert_eq!(is_space(c), c.is_whitespace(), "{n:x}");
        }
    }
}

#[test]
fn trimming_is_that_of_std() {
    for s in ["", " ", " a", "a ", "\t\n a b \u{3000}", "\u{a0}x\u{2028}", "ab", " \r\n "] {
        assert_eq!(trimmed(s), s.trim());
    }
}

#[test]
fn a_run_at_the_back_is_stripped() {
    for s in ["", "/", "a/", "a//", "/a/b", "///", "\u{e9}/"] {
        assert_eq!(stripped_back(s, '/'), s.trim_end_matches('/'));
    }
}

#[test]
fn splitting_is_that_of_std() {
    for s in ["", "/", "a", "a/b", "/a//b/", "\u{e9}/\u{1f600}"] {
        assert_eq!(split_on(s, '/'), s.split('/').collect::<Vec<_>>());
        assert_eq!(cut(s, '/'), s.split_once('/'));
    }
}

#[test]
fn searches_give_the_first_place() {
    let chars: Vec<char> = "abcabc".chars().collect();
    assert_eq!(find_char(&chars, 'c'), 2);
    assert_eq!(find_char(&chars, 'x'), 6);
    let pat: Vec<char> = "ca".chars().collect();
    assert_eq!(find_text(&chars, &pat), 2);
    let pat: Vec<char> = "cb".chars().collect();
    assert_eq!(find_text(&chars, &pat), 6);
}

#[test]
fn texts_compare_by_their_characters() {
    assert!(same_text("a\u{e9}", "a\u{e9}"));
    assert!(!same_text("a", "ab"));
    assert!(!same_text("ab", "ac"));
    assert!(has_prefix("socks5://x", "socks5://"));
    assert!(!has_prefix("socks5:/", "socks5://"));
    assert_eq!(joined3("a", "", "c"), "ac");
}

#[test]
fn numbers_are_written_in_decimal() {
    for n in [0u64, 1, 9, 10, 99, 100, 1048576, u64::MAX - 1, u64::MAX] {
        assert_eq!(decimal_of(n), n.to_string());
    }
}
