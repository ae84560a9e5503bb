//! Word-level checks: punctuation stripping and the candidate validity rule.

use scrambler::scrambler::strip_punctuation;
use scrambler::scrambler::generator::{is_valid_word, new_translation};
use scrambler::scrambler::{Glyph, ScramblerError};

#[test]
fn strip_dot() {
    let result = strip_punctuation("a.b");
    assert_eq!(result, "ab")
}

#[test]
fn strip_leading_dot() {
    let result = strip_punctuation(".ab");
    assert_eq!(result, "ab")
}

#[test]
fn strip_trailing_dot() {
    let result = strip_punctuation("ab.");
    assert_eq!(result, "ab")
}

#[test]
fn strip_multiple_dots() {
    let result = strip_punctuation("a.b.c");
    assert_eq!(result, "abc")
}

#[test]
fn strip_multiple_consecutive_dots() {
    let result = strip_punctuation("a..b");
    assert_eq!(result, "ab")
}

#[test]
fn strip_all_dots() {
    let result = strip_punctuation(".a..b.c.");
    assert_eq!(result, "abc")
}

#[test]
fn strip_question_marks() {
    let result = strip_punctuation("a?b");
    assert_eq!(result, "ab")
}

#[test]
fn strip_no_spaces() {
    let result = strip_punctuation("a b.");
    assert_eq!(result, "a b")
}

#[test]
fn triple_char_is_not_valid_word() {
    assert!(!is_valid_word("aaa"))
}

#[test]
fn double_char_is_valid_word() {
    assert!(is_valid_word("aa"))
}

#[test]
fn triple_char_with_other_char_in_between_is_valid_word() {
    assert!(is_valid_word("aabaa"))
}

#[test]
fn combining_marks_form_single_clusters() {
    // a letter followed by a combining accent is one grapheme cluster
    assert!(!is_valid_word("e\u{301}e\u{301}e\u{301}"));
    assert!(is_valid_word("ee\u{301}e"));
}

#[test]
fn generator_respects_the_length_bounds() {
    let alphabet = vec![Glyph::new("a".to_owned()), Glyph::new("b".to_owned())];
    let t = new_translation("four", &alphabet).unwrap();
    let n = t.translation.chars().count();
    assert!(2 <= n && n <= 8);
    assert!(t.translation.chars().all(|c| c == 'a' || c == 'b'));
}

#[test]
fn generator_rejects_an_empty_alphabet() {
    let result = new_translation("word", &Vec::new());
    assert!(matches!(result, Err(ScramblerError::EmptyAlphabet)));
}
