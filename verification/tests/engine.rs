//! The engine's behaviour over an in-memory vault: translation, rejection,
//! acceptance, blocking and the alphabet.

use scrambler::scrambler::storage::{
    load_alphabet, load_blocked_translations, load_translated_words, save_alphabet,
    save_blocked_translations, Vault,
};
use scrambler::scrambler::{
    add_to_alphabet, add_to_block_list, is_word_known, save_translation, translate_word,
    translation_is_rejected, try_add_to_alphabet, ScramblerError, Translation, TranslationMap,
};

fn vault_with_alphabet(symbols: &[&str]) -> Vault {
    let mut vault = Vault::new();
    let mut glyphs = Vec::new();
    for s in symbols {
        glyphs.push(scrambler::scrambler::Glyph::new((*s).to_owned()));
    }
    save_alphabet(&glyphs, &mut vault).unwrap();
    save_blocked_translations(&Vec::new(), &mut vault).unwrap();
    vault
}

#[test]
fn scrambler_translate_empty() {
    let mut vault = Vault::new();
    let result = translate_word("", &mut vault);
    assert!(result.is_ok());
    assert_eq!(result.ok().unwrap().translation, "");
}

#[test]
fn scrambler_cant_translate_two_words() {
    let mut vault = Vault::new();
    let result = translate_word("word another one", &mut vault);
    assert!(result.is_err());
}

#[test]
fn reject_blocked_translation() {
    let new = Translation::new("foo".to_owned());
    let blocked = vec![Translation::new("foo".to_owned())];
    let mut known = TranslationMap::new();
    known.insert("bar".to_owned(), Translation::new("drink".to_owned()));
    assert!(translation_is_rejected(&new, &blocked, &known));
}

#[test]
fn reject_known_translation() {
    let new = Translation::new("foo".to_owned());
    let blocked = vec![Translation::new("bar".to_owned())];
    let mut known = TranslationMap::new();
    known.insert("hello".to_owned(), Translation::new("foo".to_owned()));
    assert!(translation_is_rejected(&new, &blocked, &known));
}

#[test]
fn accept_new_translation() {
    let new = Translation::new("foo".to_owned());
    let blocked = vec![Translation::new("bar".to_owned())];
    let mut known = TranslationMap::new();
    known.insert("hello".to_owned(), Translation::new("world".to_owned()));
    assert!(!translation_is_rejected(&new, &blocked, &known));
}

#[test]
fn empty_input_touches_no_storage() {
    let mut vault = Vault::new();
    let result = translate_word("", &mut vault);
    assert_eq!(result.unwrap().translation, "");
    assert!(vault.translated_words.primary.is_none());
    assert!(vault.alphabet.primary.is_none());
    assert!(vault.blocked_translations.primary.is_none());
}

#[test]
fn whitespace_input_is_an_empty_word_error() {
    let mut vault = Vault::new();
    let result = translate_word("  ", &mut vault);
    assert!(matches!(result, Err(ScramblerError::EmptyWord)));
}

#[test]
fn punctuation_only_input_is_an_empty_word_error() {
    let mut vault = Vault::new();
    let result = translate_word("...", &mut vault);
    assert!(matches!(result, Err(ScramblerError::EmptyWord)));
}

#[test]
fn multi_word_error_names_the_input() {
    let mut vault = Vault::new();
    match translate_word("hello world", &mut vault) {
        Err(ScramblerError::MultiWordInput(input)) => assert_eq!(input, "hello world"),
        other => panic!("expected a multi-word error, got {:?}", other),
    }
}

#[test]
fn generated_translation_is_scaled_and_stable() {
    let mut vault = vault_with_alphabet(&["a", "b", "c"]);
    let first = translate_word("hi", &mut vault).unwrap();
    let text = first.translation.clone();
    assert!(1 <= text.chars().count() && text.chars().count() <= 4);
    assert!(text.chars().all(|c| c == 'a' || c == 'b' || c == 'c'));
    let chars: Vec<char> = text.chars().collect();
    for w in chars.windows(3) {
        assert!(!(w[0] == w[1] && w[1] == w[2]));
    }
    let second = translate_word("hi", &mut vault).unwrap();
    assert_eq!(second.translation, text);
}

#[test]
fn translate_commits_the_translation() {
    let mut vault = vault_with_alphabet(&["x", "y"]);
    let t = translate_word("greeting", &mut vault).unwrap();
    let map = load_translated_words(&vault).unwrap();
    let stored = map.get("greeting").unwrap();
    assert_eq!(stored.translation, t.translation);
    assert!(is_word_known("greeting", &vault).unwrap());
    assert!(!is_word_known("farewell", &vault).unwrap());
}

#[test]
fn empty_alphabet_is_reported() {
    let mut vault = Vault::new();
    save_alphabet(&Vec::new(), &mut vault).unwrap();
    save_blocked_translations(&Vec::new(), &mut vault).unwrap();
    let result = translate_word("hi", &mut vault);
    assert!(matches!(result, Err(ScramblerError::EmptyAlphabet)));
}

#[test]
fn unreadable_blocked_list_is_reported() {
    let mut vault = Vault::new();
    save_alphabet(&vec![scrambler::scrambler::Glyph::new("a".to_owned())], &mut vault).unwrap();
    let result = translate_word("hi", &mut vault);
    assert!(matches!(
        result,
        Err(ScramblerError::LoadFailed(scrambler::scrambler::RecordKind::BlockedTranslations))
    ));
}

#[test]
fn blocked_text_is_never_generated() {
    let mut vault = Vault::new();
    // a one-letter alphabet can only produce texts of the letter itself
    save_alphabet(&vec![scrambler::scrambler::Glyph::new("z".to_owned())], &mut vault).unwrap();
    save_blocked_translations(&Vec::new(), &mut vault).unwrap();
    add_to_block_list("z", &mut vault).unwrap();
    let t = translate_word("a", &mut vault).unwrap();
    assert_ne!(t.translation, "z");
    assert_eq!(t.translation, "zz");
}

#[test]
fn accepted_translation_is_returned_afterwards() {
    let mut vault = Vault::new();
    save_translation("tree", Translation::new("Baum".to_owned()), &mut vault).unwrap();
    let map = load_translated_words(&vault).unwrap();
    assert_eq!(map.get("tree").unwrap().translation, "Baum");
    assert!(is_word_known("tree", &vault).unwrap());
}

#[test]
fn accept_overwrites_the_prior_entry() {
    let mut vault = Vault::new();
    save_translation("tree", Translation::new("Baum".to_owned()), &mut vault).unwrap();
    save_translation("tree", Translation::new("arbre".to_owned()), &mut vault).unwrap();
    let map = load_translated_words(&vault).unwrap();
    assert_eq!(map.len(), 1);
    assert_eq!(map.get("tree").unwrap().translation, "arbre");
}

#[test]
fn alphabet_add_is_idempotent_and_sorted() {
    let mut vault = Vault::new();
    add_to_alphabet("b", &mut vault).unwrap();
    add_to_alphabet("a", &mut vault).unwrap();
    add_to_alphabet("b", &mut vault).unwrap();
    let glyphs = load_alphabet(&vault).unwrap();
    let symbols: Vec<&str> = glyphs.iter().map(|g| g.symbol.as_str()).collect();
    assert_eq!(symbols, vec!["a", "b"]);
}

#[test]
fn invalid_alphabet_symbols_are_rejected() {
    let mut vault = Vault::new();
    assert!(matches!(
        try_add_to_alphabet("ab", &mut vault),
        Err(ScramblerError::InvalidSymbol)
    ));
    assert!(matches!(
        try_add_to_alphabet(" ", &mut vault),
        Err(ScramblerError::InvalidSymbol)
    ));
    assert!(matches!(
        try_add_to_alphabet("", &mut vault),
        Err(ScramblerError::InvalidSymbol)
    ));
    assert!(vault.alphabet.primary.is_none());
    assert!(try_add_to_alphabet("q", &mut vault).is_ok());
    let glyphs = load_alphabet(&vault).unwrap();
    assert_eq!(glyphs.len(), 1);
    assert_eq!(glyphs[0].symbol, "q");
}

#[test]
fn block_list_is_sorted_and_deduplicated() {
    let mut vault = Vault::new();
    add_to_block_list("foo", &mut vault).unwrap();
    add_to_block_list("bar", &mut vault).unwrap();
    add_to_block_list("foo", &mut vault).unwrap();
    let blocked = load_blocked_translations(&vault).unwrap();
    let texts: Vec<&str> = blocked.iter().map(|t| t.translation.as_str()).collect();
    assert_eq!(texts, vec!["bar", "foo"]);
}

#[test]
fn degenerate_inputs_count_as_known() {
    let vault = Vault::new();
    assert!(is_word_known("", &vault).unwrap());
    assert!(is_word_known("  ", &vault).unwrap());
    assert!(is_word_known("...", &vault).unwrap());
    assert!(!is_word_known("a couple", &vault).unwrap());
}

#[test]
fn punctuation_variants_share_a_key() {
    let mut vault = vault_with_alphabet(&["a", "b", "c"]);
    let first = translate_word("don't", &mut vault).unwrap();
    let second = translate_word("dont.", &mut vault).unwrap();
    assert_eq!(first.translation, second.translation);
}

#[test]
fn alphabet_accepts_a_combining_cluster() {
    let mut vault = Vault::new();
    assert!(try_add_to_alphabet("e\u{301}", &mut vault).is_ok());
    let glyphs = load_alphabet(&vault).unwrap();
    assert_eq!(glyphs.len(), 1);
    assert_eq!(glyphs[0].symbol, "e\u{301}");
}

#[test]
fn exhausted_generation_is_reported() {
    let mut vault = Vault::new();
    save_alphabet(&vec![scrambler::scrambler::Glyph::new("z".to_owned())], &mut vault).unwrap();
    save_blocked_translations(&Vec::new(), &mut vault).unwrap();
    add_to_block_list("z", &mut vault).unwrap();
    add_to_block_list("zz", &mut vault).unwrap();
    let result = translate_word("a", &mut vault);
    assert!(matches!(result, Err(ScramblerError::GenerationExhausted)));
}

#[test]
fn distinct_words_get_distinct_translations() {
    let mut vault = vault_with_alphabet(&["a", "b"]);
    let first = translate_word("one", &mut vault).unwrap();
    let second = translate_word("two", &mut vault).unwrap();
    assert_ne!(first.translation, second.translation);
}
