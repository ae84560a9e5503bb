//! The persistent store, modelled over explicit record slots.  Each record
//! has a primary and a backup slot; a save rotates the primary into the
//! backup and writes the freshly rendered record, and a load reads the
//! primary, falling back to the backup when the primary is missing or does
//! not parse.
//!
//! The slots hold the exact file contents.  Reading and writing the real
//! files is left to the surrounding program, which copies them in and out of
//! a [`Vault`] unchanged.

use vstd::prelude::*;
use super::codec;
use super::order;
use super::{Glyph, Translation, TranslationMap, RecordKind, ScramblerError};

verus! {

// ---------------------------------------------------------------------------
// The vault and its slots
// ---------------------------------------------------------------------------

/// The two file slots of one record: the current contents and the backup
/// copy, each `None` where no file exists.
pub struct RecordSlots {
    pub primary: Option<String>,
    pub backup: Option<String>,
}

/// The in-memory image of the storage directory: one pair of slots for each
/// of the three records.
pub struct Vault {
    pub translated_words: RecordSlots,
    pub alphabet: RecordSlots,
    pub blocked_translations: RecordSlots,
}

impl RecordSlots {
    pub fn new() -> (r: RecordSlots)
        ensures
            r.primary is None,
            r.backup is None,
    {
        RecordSlots { primary: None, backup: None }
    }
}

impl Vault {
    /// An empty storage directory: no record has been written yet.
    pub fn new() -> (r: Vault)
        ensures
            r.translated_words.primary is None,
            r.translated_words.backup is None,
            r.alphabet.primary is None,
            r.alphabet.backup is None,
            r.blocked_translations.primary is None,
            r.blocked_translations.backup is None,
    {
        Vault {
            translated_words: RecordSlots::new(),
            alphabet: RecordSlots::new(),
            blocked_translations: RecordSlots::new(),
        }
    }
}

// ---------------------------------------------------------------------------
// The spec-level contents of the store
// ---------------------------------------------------------------------------

pub open spec fn slot_text(s: Option<String>) -> Option<Seq<char>> {
    match s {
        Some(t) => Some(t@),
        None => None,
    }
}

/// What an item record slot holds, if it parses.
pub open spec fn items_of_text(t: Option<Seq<char>>) -> Option<Seq<(Seq<char>, u64)>> {
    match t {
        Some(x) => codec::parse_items_at(x, 0),
        None => None,
    }
}

/// What a translated-words slot holds: its rows, accepted only in the
/// canonical strictly sorted order.
pub open spec fn entries_of_text(t: Option<Seq<char>>) -> Option<Seq<(Seq<char>, Seq<char>, u64)>> {
    match t {
        Some(x) => match codec::parse_entries_at(x, 0) {
            Some(rows) => if order::sorted_entries(rows) {
                Some(rows)
            } else {
                None
            },
            None => None,
        },
        None => None,
    }
}

/// The record a pair of slots yields: the primary where it parses, else the
/// backup — the read-fallback contract.
pub open spec fn stored_items(s: RecordSlots) -> Option<Seq<(Seq<char>, u64)>> {
    match items_of_text(slot_text(s.primary)) {
        Some(rows) => Some(rows),
        None => items_of_text(slot_text(s.backup)),
    }
}

pub open spec fn stored_entries(s: RecordSlots) -> Option<Seq<(Seq<char>, Seq<char>, u64)>> {
    match entries_of_text(slot_text(s.primary)) {
        Some(rows) => Some(rows),
        None => entries_of_text(slot_text(s.backup)),
    }
}

/// The alphabet the vault holds.
pub open spec fn stored_alphabet(v: Vault) -> Option<Seq<(Seq<char>, u64)>> {
    stored_items(v.alphabet)
}

/// The blocked list the vault holds.
pub open spec fn stored_blocked(v: Vault) -> Option<Seq<(Seq<char>, u64)>> {
    stored_items(v.blocked_translations)
}

/// The translated-words map the vault holds.
pub open spec fn stored_words(v: Vault) -> Option<Seq<(Seq<char>, Seq<char>, u64)>> {
    stored_entries(v.translated_words)
}

/// How a save changes a record's slots: the old primary rotates into the
/// backup slot where it exists, and the new text becomes the primary.
pub open spec fn slot_rotated(before: RecordSlots, after: RecordSlots, text: Seq<char>) -> bool {
    &&& slot_text(after.primary) == Some(text)
    &&& after.backup == (if before.primary is Some {
        before.primary
    } else {
        before.backup
    })
}

// ---------------------------------------------------------------------------
// Views of the record value types as codec rows
// ---------------------------------------------------------------------------

pub open spec fn glyph_rows(gs: Seq<Glyph>) -> Seq<(Seq<char>, u64)> {
    gs.map_values(|g: Glyph| (g.symbol@, g.time_added))
}

pub open spec fn translation_rows(ts: Seq<Translation>) -> Seq<(Seq<char>, u64)> {
    ts.map_values(|t: Translation| (t.translation@, t.time_added))
}

// ---------------------------------------------------------------------------
// Slot plumbing
// ---------------------------------------------------------------------------

/// Writes `text` as the record's primary, first rotating the old primary
/// into the backup slot.  In-memory both steps always succeed; a failure to
/// rotate the real files is tolerated by the contract, which only fixes the
/// new primary.
fn store_in_slot(slots: &mut RecordSlots, text: String)
    ensures
        slot_rotated(*old(slots), *final(slots), text@),
{
    match &slots.primary {
        Some(p) => {
            slots.backup = Some(p.clone());
        },
        None => {},
    }
    slots.primary = Some(text);
}

/// Parses an item record slot.
fn try_parse_items(slot: &Option<String>) -> (r: Option<Vec<(String, u64)>>)
    ensures
        match r {
            Some(rows) => items_of_text(slot_text(*slot)) == Some(codec::items_view(rows@)),
            None => items_of_text(slot_text(*slot)) is None,
        },
{
    match slot {
        None => None,
        Some(t) => {
            let n = t.as_str().unicode_len();
            codec::parse_items_exec(t.as_str(), n, 0)
        },
    }
}

/// Parses a translated-words slot.
fn try_parse_entries(slot: &Option<String>) -> (r: Option<Vec<(String, String, u64)>>)
    ensures
        match r {
            Some(rows) => slot_text(*slot) is Some
                && codec::parse_entries_at(slot_text(*slot)->0, 0) == Some(codec::entries_view(rows@)),
            None => slot_text(*slot) is None || codec::parse_entries_at(slot_text(*slot)->0, 0) is None,
        },
{
    match slot {
        None => None,
        Some(t) => {
            let n = t.as_str().unicode_len();
            codec::parse_entries_exec(t.as_str(), n, 0)
        },
    }
}

// ---------------------------------------------------------------------------
// Row conversions
// ---------------------------------------------------------------------------

fn items_to_glyphs(rows: &Vec<(String, u64)>) -> (r: Vec<Glyph>)
    ensures
        glyph_rows(r@) == codec::items_view(rows@),
{
    let mut out: Vec<Glyph> = Vec::new();
    let mut i: usize = 0;
    proof {
        assert(glyph_rows(out@) =~= codec::items_view(rows@.take(0)));
    }
    while i < rows.len()
        invariant
            i <= rows.len(),
            glyph_rows(out@) == codec::items_view(rows@.take(i as int)),
        decreases rows.len() - i,
    {
        let ghost prev = out@;
        out.push(Glyph { symbol: rows[i].0.clone(), time_added: rows[i].1 });
        proof {
            assert(glyph_rows(prev).len() == prev.len());
            assert(codec::items_view(rows@.take(i as int)).len() == rows@.take(i as int).len());
            assert(prev.len() == i as int);
            assert(out@.len() == prev.len() + 1);
            assert forall|k: int| 0 <= k < out@.len() implies glyph_rows(out@)[k]
                == codec::items_view(rows@.take(i as int + 1))[k] by {
                assert(rows@.take(i as int + 1)[k] == rows@[k]);
                if k < i {
                    assert(out@[k] == prev[k]);
                    assert(glyph_rows(prev)[k] == codec::items_view(rows@.take(i as int))[k]);
                    assert(rows@.take(i as int)[k] == rows@[k]);
                }
            }
            assert(glyph_rows(out@) =~= codec::items_view(rows@.take(i as int + 1)));
        }
        i = i + 1;
    }
    proof {
        assert(rows@.take(rows@.len() as int) =~= rows@);
    }
    out
}

fn items_to_translations(rows: &Vec<(String, u64)>) -> (r: Vec<Translation>)
    ensures
        translation_rows(r@) == codec::items_view(rows@),
{
    let mut out: Vec<Translation> = Vec::new();
    let mut i: usize = 0;
    proof {
        assert(translation_rows(out@) =~= codec::items_view(rows@.take(0)));
    }
    while i < rows.len()
        invariant
            i <= rows.len(),
            translation_rows(out@) == codec::items_view(rows@.take(i as int)),
        decreases rows.len() - i,
    {
        let ghost prev = out@;
        out.push(Translation { translation: rows[i].0.clone(), time_added: rows[i].1 });
        proof {
            assert(translation_rows(prev).len() == prev.len());
            assert(codec::items_view(rows@.take(i as int)).len() == rows@.take(i as int).len());
            assert(prev.len() == i as int);
            assert(out@.len() == prev.len() + 1);
            assert forall|k: int| 0 <= k < out@.len() implies translation_rows(out@)[k]
                == codec::items_view(rows@.take(i as int + 1))[k] by {
                assert(rows@.take(i as int + 1)[k] == rows@[k]);
                if k < i {
                    assert(out@[k] == prev[k]);
                    assert(translation_rows(prev)[k] == codec::items_view(rows@.take(i as int))[k]);
                    assert(rows@.take(i as int)[k] == rows@[k]);
                }
            }
            assert(translation_rows(out@) =~= codec::items_view(rows@.take(i as int + 1)));
        }
        i = i + 1;
    }
    proof {
        assert(rows@.take(rows@.len() as int) =~= rows@);
    }
    out
}

fn glyphs_to_items(gs: &Vec<Glyph>) -> (r: Vec<(String, u64)>)
    ensures
        codec::items_view(r@) == glyph_rows(gs@),
        codec::wf_items(glyph_rows(gs@)),
{
    let mut out: Vec<(String, u64)> = Vec::new();
    let mut i: usize = 0;
    proof {
        assert(codec::items_view(out@) =~= glyph_rows(gs@.take(0)));
    }
    while i < gs.len()
        invariant
            i <= gs.len(),
            codec::items_view(out@) == glyph_rows(gs@.take(i as int)),
            forall|k: int| 0 <= k < i ==> (#[trigger] glyph_rows(gs@)[k]).0.len() <= u64::MAX,
        decreases gs.len() - i,
    {
        let l = gs[i].symbol.as_str().unicode_len();
        let ghost prev = out@;
        out.push((gs[i].symbol.clone(), gs[i].time_added));
        proof {
            assert(glyph_rows(gs@)[i as int] == (gs@[i as int].symbol@, gs@[i as int].time_added));
            assert(glyph_rows(gs@)[i as int].0.len() == l);
            assert(codec::items_view(prev).len() == prev.len());
            assert(glyph_rows(gs@.take(i as int)).len() == gs@.take(i as int).len());
            assert(prev.len() == i as int);
            assert(out@.len() == prev.len() + 1);
            assert forall|k: int| 0 <= k < out@.len() implies codec::items_view(out@)[k]
                == glyph_rows(gs@.take(i as int + 1))[k] by {
                assert(gs@.take(i as int + 1)[k] == gs@[k]);
                if k < i {
                    assert(out@[k] == prev[k]);
                    assert(codec::items_view(prev)[k] == glyph_rows(gs@.take(i as int))[k]);
                    assert(gs@.take(i as int)[k] == gs@[k]);
                }
            }
            assert(codec::items_view(out@) =~= glyph_rows(gs@.take(i as int + 1)));
        }
        i = i + 1;
    }
    proof {
        assert(gs@.take(gs@.len() as int) =~= gs@);
    }
    out
}

fn translations_to_items(ts: &Vec<Translation>) -> (r: Vec<(String, u64)>)
    ensures
        codec::items_view(r@) == translation_rows(ts@),
        codec::wf_items(translation_rows(ts@)),
{
    let mut out: Vec<(String, u64)> = Vec::new();
    let mut i: usize = 0;
    proof {
        assert(codec::items_view(out@) =~= translation_rows(ts@.take(0)));
    }
    while i < ts.len()
        invariant
            i <= ts.len(),
            codec::items_view(out@) == translation_rows(ts@.take(i as int)),
            forall|k: int| 0 <= k < i ==> (#[trigger] translation_rows(ts@)[k]).0.len() <= u64::MAX,
        decreases ts.len() - i,
    {
        let l = ts[i].translation.as_str().unicode_len();
        let ghost prev = out@;
        out.push((ts[i].translation.clone(), ts[i].time_added));
        proof {
            assert(translation_rows(ts@)[i as int] == (ts@[i as int].translation@, ts@[i as int].time_added));
            assert(translation_rows(ts@)[i as int].0.len() == l);
            assert(codec::items_view(prev).len() == prev.len());
            assert(translation_rows(ts@.take(i as int)).len() == ts@.take(i as int).len());
            assert(prev.len() == i as int);
            assert(out@.len() == prev.len() + 1);
            assert forall|k: int| 0 <= k < out@.len() implies codec::items_view(out@)[k]
                == translation_rows(ts@.take(i as int + 1))[k] by {
                assert(ts@.take(i as int + 1)[k] == ts@[k]);
                if k < i {
                    assert(out@[k] == prev[k]);
                    assert(codec::items_view(prev)[k] == translation_rows(ts@.take(i as int))[k]);
                    assert(ts@.take(i as int)[k] == ts@[k]);
                }
            }
            assert(codec::items_view(out@) =~= translation_rows(ts@.take(i as int + 1)));
        }
        i = i + 1;
    }
    proof {
        assert(ts@.take(ts@.len() as int) =~= ts@);
    }
    out
}

/// Multiset equality keeps every text short enough to persist.
proof fn lemma_wf_items_preserved(a: Seq<(Seq<char>, u64)>, b: Seq<(Seq<char>, u64)>)
    requires
        codec::wf_items(a),
        a.to_multiset() == b.to_multiset(),
    ensures
        codec::wf_items(b),
{
    broadcast use vstd::seq_lib::group_to_multiset_ensures;

    assert forall|k: int| 0 <= k < b.len() implies (#[trigger] b[k]).0.len() <= u64::MAX by {
        assert(b.contains(b[k]));
        assert(b.to_multiset().count(b[k]) > 0);
        assert(a.to_multiset().count(b[k]) > 0);
        assert(a.contains(b[k]));
        let j = choose|j: int| 0 <= j < a.len() && a[j] == b[k];
        assert(a[j].0.len() <= u64::MAX);
    }
}

// ---------------------------------------------------------------------------
// The six record operations
// ---------------------------------------------------------------------------

/// Loads the alphabet record, falling back to its backup slot.
pub fn load_alphabet(vault: &Vault) -> (r: Result<Vec<Glyph>, ScramblerError>)
    ensures
        match r {
            Ok(gs) => stored_alphabet(*vault) == Some(glyph_rows(gs@)),
            Err(e) => stored_alphabet(*vault) is None && e matches ScramblerError::LoadFailed(RecordKind::Alphabet),
        },
{
    match try_parse_items(&vault.alphabet.primary) {
        Some(rows) => Ok(items_to_glyphs(&rows)),
        None => match try_parse_items(&vault.alphabet.backup) {
            Some(rows) => Ok(items_to_glyphs(&rows)),
            None => Err(ScramblerError::LoadFailed(RecordKind::Alphabet)),
        },
    }
}

/// Loads the blocked-translations record, falling back to its backup slot.
pub fn load_blocked_translations(vault: &Vault) -> (r: Result<Vec<Translation>, ScramblerError>)
    ensures
        match r {
            Ok(ts) => stored_blocked(*vault) == Some(translation_rows(ts@)),
            Err(e) => stored_blocked(*vault) is None && e matches ScramblerError::LoadFailed(RecordKind::BlockedTranslations),
        },
{
    match try_parse_items(&vault.blocked_translations.primary) {
        Some(rows) => Ok(items_to_translations(&rows)),
        None => match try_parse_items(&vault.blocked_translations.backup) {
            Some(rows) => Ok(items_to_translations(&rows)),
            None => Err(ScramblerError::LoadFailed(RecordKind::BlockedTranslations)),
        },
    }
}

/// Loads the translated-words record, falling back to its backup slot.  A
/// slot whose rows are not in canonical sorted order counts as unreadable.
pub fn load_translated_words(vault: &Vault) -> (r: Result<TranslationMap, ScramblerError>)
    ensures
        match r {
            Ok(m) => stored_words(*vault) == Some(m.rows()) && m.wf(),
            Err(e) => stored_words(*vault) is None && e matches ScramblerError::LoadFailed(RecordKind::TranslatedWords),
        },
{
    match try_parse_entries(&vault.translated_words.primary) {
        Some(rows) => match TranslationMap::from_entries(rows) {
            Some(m) => {
                return Ok(m);
            },
            None => {},
        },
        None => {},
    }
    proof {
        assert(entries_of_text(slot_text(vault.translated_words.primary)) is None);
    }
    match try_parse_entries(&vault.translated_words.backup) {
        Some(rows) => match TranslationMap::from_entries(rows) {
            Some(m) => {
                return Ok(m);
            },
            None => {
                proof {
                    assert(entries_of_text(slot_text(vault.translated_words.backup)) is None);
                }
                Err(ScramblerError::LoadFailed(RecordKind::TranslatedWords))
            },
        },
        None => Err(ScramblerError::LoadFailed(RecordKind::TranslatedWords)),
    }
}

/// Saves the alphabet record in its canonical sorted order, rotating the old
/// primary into the backup slot.
pub fn save_alphabet(alphabet: &Vec<Glyph>, vault: &mut Vault) -> (r: Result<(), ScramblerError>)
    ensures
        r is Ok,
        final(vault).translated_words == old(vault).translated_words,
        final(vault).blocked_translations == old(vault).blocked_translations,
        slot_rotated(old(vault).alphabet, final(vault).alphabet,
            codec::render_items(order::sort_items(glyph_rows(alphabet@)))),
        stored_alphabet(*final(vault)) == Some(order::sort_items(glyph_rows(alphabet@))),
{
    let items = glyphs_to_items(alphabet);
    let sorted = order::sort_items_exec(&items);
    let text = codec::render_items_exec(&sorted);
    proof {
        order::lemma_sort_items(glyph_rows(alphabet@));
        lemma_wf_items_preserved(glyph_rows(alphabet@), order::sort_items(glyph_rows(alphabet@)));
        assert(text@.subrange(0, text@.len() as int) =~= text@);
        codec::lemma_parse_render_items(text@, 0, order::sort_items(glyph_rows(alphabet@)));
    }
    store_in_slot(&mut vault.alphabet, text);
    Ok(())
}

/// Saves the blocked-translations record in its canonical sorted order,
/// rotating the old primary into the backup slot.
pub fn save_blocked_translations(translations: &Vec<Translation>, vault: &mut Vault) -> (r: Result<(), ScramblerError>)
    ensures
        r is Ok,
        final(vault).translated_words == old(vault).translated_words,
        final(vault).alphabet == old(vault).alphabet,
        slot_rotated(old(vault).blocked_translations, final(vault).blocked_translations,
            codec::render_items(order::sort_items(translation_rows(translations@)))),
        stored_blocked(*final(vault)) == Some(order::sort_items(translation_rows(translations@))),
{
    let items = translations_to_items(translations);
    let sorted = order::sort_items_exec(&items);
    let text = codec::render_items_exec(&sorted);
    proof {
        order::lemma_sort_items(translation_rows(translations@));
        lemma_wf_items_preserved(translation_rows(translations@),
            order::sort_items(translation_rows(translations@)));
        assert(text@.subrange(0, text@.len() as int) =~= text@);
        codec::lemma_parse_render_items(text@, 0, order::sort_items(translation_rows(translations@)));
    }
    store_in_slot(&mut vault.blocked_translations, text);
    Ok(())
}

/// Saves the translated-words record, rotating the old primary into the
/// backup slot.  The map is already in canonical order, so what is stored is
/// exactly its rows.
pub fn save_translated_words(words: &TranslationMap, vault: &mut Vault) -> (r: Result<(), ScramblerError>)
    requires
        words.wf(),
    ensures
        r is Ok,
        final(vault).alphabet == old(vault).alphabet,
        final(vault).blocked_translations == old(vault).blocked_translations,
        slot_rotated(old(vault).translated_words, final(vault).translated_words,
            codec::render_entries(words.rows())),
        stored_words(*final(vault)) == Some(words.rows()),
{
    let text = codec::render_entries_exec(words.raw_entries());
    proof {
        assert(text@.subrange(0, text@.len() as int) =~= text@);
        codec::lemma_parse_render_entries(text@, 0, words.rows());
    }
    store_in_slot(&mut vault.translated_words, text);
    Ok(())
}

} // verus!
