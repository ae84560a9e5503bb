//! The persistent store: round trips, backup rotation, fallback recovery
//! and deterministic serialization.

use scrambler::scrambler::storage::{
    load_alphabet, load_blocked_translations, load_translated_words, save_alphabet,
    save_blocked_translations, save_translated_words, Vault,
};
use scrambler::scrambler::{Glyph, ScramblerError, Translation, TranslationMap};

#[test]
fn alphabet_round_trip() {
    let mut vault = Vault::new();
    let glyphs = vec![Glyph::new("b".to_owned()), Glyph::new("a".to_owned())];
    save_alphabet(&glyphs, &mut vault).unwrap();
    let loaded = load_alphabet(&vault).unwrap();
    let symbols: Vec<&str> = loaded.iter().map(|g| g.symbol.as_str()).collect();
    assert_eq!(symbols, vec!["a", "b"]);
    assert_eq!(loaded.len(), glyphs.len());
}

#[test]
fn blocked_round_trip() {
    let mut vault = Vault::new();
    let blocked = vec![
        Translation::new("zeta".to_owned()),
        Translation::new("alpha".to_owned()),
    ];
    save_blocked_translations(&blocked, &mut vault).unwrap();
    let loaded = load_blocked_translations(&vault).unwrap();
    let texts: Vec<&str> = loaded.iter().map(|t| t.translation.as_str()).collect();
    assert_eq!(texts, vec!["alpha", "zeta"]);
}

#[test]
fn words_round_trip() {
    let mut vault = Vault::new();
    let mut map = TranslationMap::new();
    map.insert("hello".to_owned(), Translation::new("ybbo".to_owned()));
    map.insert("apple".to_owned(), Translation::new("croc".to_owned()));
    save_translated_words(&map, &mut vault).unwrap();
    let loaded = load_translated_words(&vault).unwrap();
    assert_eq!(loaded.len(), 2);
    assert_eq!(loaded.get("hello").unwrap().translation, "ybbo");
    assert_eq!(loaded.get("apple").unwrap().translation, "croc");
    assert!(loaded.get("pear").is_none());
}

#[test]
fn round_trip_of_awkward_texts() {
    let mut vault = Vault::new();
    let mut map = TranslationMap::new();
    let awkward = "li:ne\nwith \"quotes\" and 7:digits";
    map.insert("key with spaces?".to_owned(), Translation::new(awkward.to_owned()));
    save_translated_words(&map, &mut vault).unwrap();
    let loaded = load_translated_words(&vault).unwrap();
    assert_eq!(loaded.get("key with spaces?").unwrap().translation, awkward);
}

#[test]
fn save_rotates_the_backup() {
    let mut vault = Vault::new();
    save_alphabet(&vec![Glyph::new("a".to_owned())], &mut vault).unwrap();
    let first = vault.alphabet.primary.clone().unwrap();
    save_alphabet(&vec![Glyph::new("b".to_owned())], &mut vault).unwrap();
    assert_eq!(vault.alphabet.backup.clone().unwrap(), first);
}

#[test]
fn corrupt_primary_falls_back_to_backup() {
    let mut vault = Vault::new();
    save_alphabet(&vec![Glyph::new("a".to_owned())], &mut vault).unwrap();
    vault.alphabet.backup = vault.alphabet.primary.clone();
    vault.alphabet.primary = Some("not a record".to_owned());
    let loaded = load_alphabet(&vault).unwrap();
    assert_eq!(loaded.len(), 1);
    assert_eq!(loaded[0].symbol, "a");
}

#[test]
fn missing_primary_falls_back_to_backup() {
    let mut vault = Vault::new();
    let mut map = TranslationMap::new();
    map.insert("sun".to_owned(), Translation::new("lume".to_owned()));
    save_translated_words(&map, &mut vault).unwrap();
    vault.translated_words.backup = vault.translated_words.primary.clone();
    vault.translated_words.primary = None;
    let loaded = load_translated_words(&vault).unwrap();
    assert_eq!(loaded.get("sun").unwrap().translation, "lume");
}

#[test]
fn both_slots_unreadable_is_an_error() {
    let mut vault = Vault::new();
    vault.translated_words.primary = Some("garbage".to_owned());
    vault.translated_words.backup = Some("more garbage".to_owned());
    match load_translated_words(&vault) {
        Err(ScramblerError::LoadFailed(kind)) => {
            assert_eq!(kind, scrambler::scrambler::RecordKind::TranslatedWords)
        },
        Err(other) => panic!("expected a load failure, got {:?}", other),
        Ok(_) => panic!("expected a load failure, got a map"),
    }
}

#[test]
fn fresh_vault_has_no_records() {
    let vault = Vault::new();
    assert!(load_alphabet(&vault).is_err());
    assert!(load_blocked_translations(&vault).is_err());
    assert!(load_translated_words(&vault).is_err());
}

#[test]
fn logically_equal_alphabets_serialize_identically() {
    let ga = Glyph {
        symbol: "a".to_owned(),
        time_added: 7,
    };
    let gb = Glyph {
        symbol: "b".to_owned(),
        time_added: 9,
    };
    let mut vault1 = Vault::new();
    save_alphabet(&vec![ga.clone(), gb.clone()], &mut vault1).unwrap();
    let mut vault2 = Vault::new();
    save_alphabet(&vec![gb, ga], &mut vault2).unwrap();
    assert_eq!(vault1.alphabet.primary, vault2.alphabet.primary);
}

#[test]
fn repeated_saves_are_byte_identical() {
    let mut map = TranslationMap::new();
    map.insert("w".to_owned(), Translation {
        translation: "t".to_owned(),
        time_added: 3,
    });
    let mut vault1 = Vault::new();
    save_translated_words(&map, &mut vault1).unwrap();
    let mut vault2 = Vault::new();
    save_translated_words(&map, &mut vault2).unwrap();
    assert_eq!(vault1.translated_words.primary, vault2.translated_words.primary);
}
