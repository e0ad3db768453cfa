use ava::text::{decimal, replace, same_text};

#[test]
fn numbers_read_in_decimal() {
    assert_eq!(decimal(0), "0");
    assert_eq!(decimal(7), "7");
    assert_eq!(decimal(1200), "1200");
    assert_eq!(decimal(u64::MAX), u64::MAX.to_string());
}

#[test]
fn replace_does_what_str_replace_does() {
    for (text, from, to) in [
        ("aaa", "aa", "b"),
        ("abcabc", "bc", "X"),
        ("abc", "", "-"),
        ("", "", "-"),
        ("héllo wörld", "ö", "o"),
        ("abc", "abcd", "x"),
    ] {
        assert_eq!(replace(text, from, to), text.replace(from, to));
    }
}

#[test]
fn texts_compare_by_their_characters() {
    assert!(same_text("codex", "codex"));
    assert!(!same_text("codex", "code"));
    assert!(!same_text("pi", "po"));
}
