//! The public translation entry point, seen from outside.

use scrambler::scrambler::storage::Vault;
use scrambler::scrambler::translate_word;

#[test]
fn integration_test_translate_empty() {
    let mut vault = Vault::new();
    let result = translate_word("", &mut vault);
    assert!(result.is_ok());
    assert_eq!(result.ok().unwrap().translation, "");
}

#[test]
fn integration_test_cant_translate_two_words() {
    let mut vault = Vault::new();
    let result = translate_word("word another one", &mut vault);
    assert!(result.is_err());
}

#[test]
fn textual_translate_echoes_single_words() {
    let result = scrambler::translate::translate_word("hello");
    assert_eq!(result.unwrap(), "Translation of \"hello\".");
}

#[test]
fn textual_translate_empty_is_empty() {
    let result = scrambler::translate::translate_word("");
    assert_eq!(result.unwrap(), "");
}

#[test]
fn textual_translate_rejects_two_words() {
    let result = scrambler::translate::translate_word("two words");
    assert_eq!(
        result.unwrap_err(),
        "Error! I can only translate single words. The input \"two words\" is not a single word."
    );
}
