use zeroclaw::text::{
    decimal_text, eq_ignore_ascii_case, is_white_space, join, same_text, trim, trim_end,
};

#[test]
fn white_space_is_that_of_unicode() {
    for c in '\0'..=char::MAX {
        assert_eq!(is_white_space(c), c.is_whitespace(), "{c:?}");
    }
}

#[test]
fn trimming_takes_white_space_off_the_ends() {
    for s in ["", " ", "a", " a b ", "\t\n\u{a0}é \u{3000}", "no"] {
        assert_eq!(trim(s), s.trim());
        assert_eq!(trim_end(s), s.trim_end());
    }
}

#[test]
fn case_is_ignored_for_ascii_alone() {
    assert!(eq_ignore_ascii_case("Image/PNG", "image/png"));
    assert!(!eq_ignore_ascii_case("É", "é"));
    assert!(!eq_ignore_ascii_case("a", "ab"));
    assert!(same_text("abc", "abc"));
    assert!(!same_text("abc", "abC"));
}

#[test]
fn numbers_are_written_in_decimal() {
    for n in [0u128, 9, 10, 4096, u64::MAX as u128, u128::MAX] {
        assert_eq!(decimal_text(n), format!("{n}"));
    }
}

#[test]
fn parts_are_joined_with_separators_between() {
    assert_eq!(join(&[], ", "), "");
    assert_eq!(join(&["a".to_string()], ", "), "a");
    assert_eq!(join(&["a".to_string(), "b".to_string(), "c".to_string()], ", "), "a, b, c");
}
