//! The translation consistency and generation engine: stable pseudo-random
//! translations for single words, a grapheme alphabet, a blocked list, and a
//! record store with backup rotation and read fallback.

use vstd::prelude::*;

pub mod codec;
pub mod generator;
pub mod laws;
pub mod order;
pub mod storage;
pub mod text;

verus! {

// ---------------------------------------------------------------------------
// Core data types
// ---------------------------------------------------------------------------

/// An output string together with its creation time. Two translations collide
/// exactly when their string payloads are equal; the timestamp is metadata.
#[derive(Clone, Debug)]
pub struct Translation {
    pub translation: String,
    pub time_added: u64,
}

pub ghost struct TranslationV {
    pub translation: Seq<char>,
    pub time_added: u64,
}

impl View for Translation {
    type V = TranslationV;

    open spec fn view(&self) -> TranslationV {
        TranslationV { translation: self.translation@, time_added: self.time_added }
    }
}

/// A single grapheme-cluster alphabet symbol together with its creation time.
#[derive(Clone, Debug)]
pub struct Glyph {
    pub symbol: String,
    pub time_added: u64,
}

pub ghost struct GlyphV {
    pub symbol: Seq<char>,
    pub time_added: u64,
}

impl View for Glyph {
    type V = GlyphV;

    open spec fn view(&self) -> GlyphV {
        GlyphV { symbol: self.symbol@, time_added: self.time_added }
    }
}

/// Relies on std::time::SystemTime::now and duration_since: the number of
/// whole seconds since the Unix epoch, or zero for a clock before the epoch.
#[verifier::external_body]
fn now_secs() -> u64 {
    match std::time::SystemTime::now().duration_since(std::time::UNIX_EPOCH) {
        Ok(d) => d.as_secs(),
        Err(_) => 0,
    }
}

impl Translation {
    /// A translation with the given text, stamped with the current time.
    pub fn new(translation: String) -> (r: Translation)
        ensures
            r@.translation == translation@,
    {
        Translation { translation, time_added: now_secs() }
    }
}

impl Glyph {
    /// A glyph with the given symbol, stamped with the current time.
    pub fn new(symbol: String) -> (r: Glyph)
        ensures
            r@.symbol == symbol@,
    {
        Glyph { symbol, time_added: now_secs() }
    }
}

// ---------------------------------------------------------------------------
// Errors
// ---------------------------------------------------------------------------

/// The three durably stored records.
#[derive(Clone, Copy, Debug, PartialEq, Eq, Structural)]
pub enum RecordKind {
    TranslatedWords,
    Alphabet,
    BlockedTranslations,
}

/// Every failure the engine reports to its callers.
#[derive(Clone, Debug)]
pub enum ScramblerError {
    /// The raw input holds more than one whitespace-separated word; the
    /// payload is the offending input.
    MultiWordInput(String),
    /// The normalized word is empty: the input was all whitespace, or all
    /// punctuation.
    EmptyWord,
    /// The alphabet holds no glyph, so no candidate can be generated.
    EmptyAlphabet,
    /// The bounded retry budget ran out before a candidate satisfied every
    /// constraint.
    GenerationExhausted,
    /// The symbol handed to the checked alphabet append is not a single
    /// non-whitespace grapheme cluster.
    InvalidSymbol,
    /// Both the primary and the backup slot of a record failed to load.
    LoadFailed(RecordKind),
}

// ---------------------------------------------------------------------------
// Punctuation stripping
// ---------------------------------------------------------------------------

/// Removes every ASCII punctuation character from the input, keeping all
/// other characters in order.
pub fn strip_punctuation(word: &str) -> (r: String)
    ensures
        r@ == text::strip_punct(word@),
{
    text::strip_punct_exec(word)
}

// ---------------------------------------------------------------------------
// The translation map
// ---------------------------------------------------------------------------

/// The word → translation map, kept strictly sorted by word so that its
/// persisted form is canonical and every word holds at most one entry.
pub struct TranslationMap {
    entries: Vec<(String, String, u64)>,
}

impl TranslationMap {
    /// The rows of the map: word, translation text, creation time.
    pub closed spec fn rows(self) -> Seq<(Seq<char>, Seq<char>, u64)> {
        codec::entries_view(self.entries@)
    }

    /// Words strictly ascending, and every text short enough to persist.
    pub open spec fn wf(self) -> bool {
        order::sorted_entries(self.rows()) && codec::wf_entries(self.rows())
    }

    /// The translation stored for `w`, if any.
    pub open spec fn spec_get(self, w: Seq<char>) -> Option<(Seq<char>, u64)> {
        order::find_entry(self.rows(), w)
    }

    pub fn new() -> (m: TranslationMap)
        ensures
            m.wf(),
            m.rows() == Seq::<(Seq<char>, Seq<char>, u64)>::empty(),
    {
        let m = TranslationMap { entries: Vec::new() };
        proof {
            assert(m.rows() =~= Seq::<(Seq<char>, Seq<char>, u64)>::empty());
        }
        m
    }

    pub fn len(&self) -> (n: usize)
        ensures
            n == self.rows().len(),
    {
        self.entries.len()
    }

    /// Builds a map from already sorted rows; used by the storage layer.
    pub(crate) fn from_entries(entries: Vec<(String, String, u64)>) -> (r: Option<TranslationMap>)
        ensures
            match r {
                Some(m) => m.wf() && m.rows() == codec::entries_view(entries@)
                    && order::sorted_entries(codec::entries_view(entries@)),
                None => !order::sorted_entries(codec::entries_view(entries@)),
            },
    {
        let ghost rows = codec::entries_view(entries@);
        let n = entries.len();
        // measure every text, so the rows are known to fit the format
        let mut i: usize = 0;
        while i < n
            invariant
                n == entries@.len(),
                i <= n,
                forall|k: int| 0 <= k < i
                    ==> (#[trigger] codec::entries_view(entries@)[k]).0.len() <= u64::MAX
                        && codec::entries_view(entries@)[k].1.len() <= u64::MAX,
            decreases n - i,
        {
            let wl = entries[i].0.as_str().unicode_len();
            let tl = entries[i].1.as_str().unicode_len();
            proof {
                assert(codec::entries_view(entries@)[i as int]
                    == (entries@[i as int].0@, entries@[i as int].1@, entries@[i as int].2));
                assert(entries@[i as int].0@.len() == wl);
                assert(entries@[i as int].1@.len() == tl);
            }
            i = i + 1;
        }
        // the words must be strictly ascending
        if n > 0 {
            let mut k: usize = 0;
            while k < n - 1
                invariant
                    n == entries@.len(),
                    n > 0,
                    k <= n - 1,
                    forall|j: int| 0 <= j < k
                        ==> order::lex_lt((#[trigger] codec::entries_view(entries@)[j]).0,
                            codec::entries_view(entries@)[j + 1].0),
                decreases n - k,
            {
                let le = order::str_le(entries[k].0.as_str(), entries[k + 1].0.as_str());
                let eq = entries[k].0 == entries[k + 1].0;
                proof {
                    assert(codec::entries_view(entries@)[k as int].0 == entries@[k as int].0@);
                    assert(codec::entries_view(entries@)[k as int + 1].0 == entries@[k as int + 1].0@);
                }
                if !le || eq {
                    return None;
                }
                k = k + 1;
            }
        }
        let m = TranslationMap { entries };
        Some(m)
    }

    /// The raw rows, for the storage layer to render.
    pub(crate) fn raw_entries(&self) -> (r: &Vec<(String, String, u64)>)
        ensures
            codec::entries_view(r@) == self.rows(),
    {
        &self.entries
    }

    /// Whether `word` already has a stored translation.
    pub fn contains(&self, word: &str) -> (r: bool)
        ensures
            r == (self.spec_get(word@) is Some),
    {
        let w = word.to_owned();
        let n = self.entries.len();
        let mut i: usize = 0;
        while i < n
            invariant
                n == self.entries@.len(),
                i <= n,
                w@ == word@,
                forall|k: int| 0 <= k < i ==> (#[trigger] self.rows()[k]).0 != word@,
            decreases n - i,
        {
            proof {
                assert(self.rows()[i as int] == (self.entries@[i as int].0@, self.entries@[i as int].1@, self.entries@[i as int].2));
            }
            if self.entries[i].0 == w {
                proof {
                    order::lemma_find_entry_at(self.rows(), word@, i as int);
                }
                return true;
            }
            i = i + 1;
        }
        proof {
            order::lemma_find_entry_none(self.rows(), word@);
        }
        false
    }

    /// The stored translation for `word`, if any.
    pub fn get(&self, word: &str) -> (r: Option<Translation>)
        ensures
            match r {
                Some(t) => self.spec_get(word@) == Some((t@.translation, t@.time_added)),
                None => self.spec_get(word@) is None,
            },
    {
        let w = word.to_owned();
        let n = self.entries.len();
        let mut i: usize = 0;
        while i < n
            invariant
                n == self.entries@.len(),
                i <= n,
                w@ == word@,
                forall|k: int| 0 <= k < i ==> (#[trigger] self.rows()[k]).0 != word@,
            decreases n - i,
        {
            proof {
                assert(self.rows()[i as int] == (self.entries@[i as int].0@, self.entries@[i as int].1@, self.entries@[i as int].2));
            }
            if self.entries[i].0 == w {
                proof {
                    order::lemma_find_entry_at(self.rows(), word@, i as int);
                }
                return Some(Translation {
                    translation: self.entries[i].1.clone(),
                    time_added: self.entries[i].2,
                });
            }
            i = i + 1;
        }
        proof {
            order::lemma_find_entry_none(self.rows(), word@);
        }
        None
    }

    /// Whether some entry stores `text` as its translation.
    pub fn has_translation_text(&self, text: &str) -> (r: bool)
        ensures
            r == order::entries_have_text(self.rows(), text@),
    {
        let tx = text.to_owned();
        let n = self.entries.len();
        let mut i: usize = 0;
        while i < n
            invariant
                n == self.entries@.len(),
                i <= n,
                tx@ == text@,
                forall|k: int| 0 <= k < i ==> (#[trigger] self.rows()[k]).1 != text@,
            decreases n - i,
        {
            proof {
                assert(self.rows()[i as int] == (self.entries@[i as int].0@, self.entries@[i as int].1@, self.entries@[i as int].2));
            }
            if self.entries[i].1 == tx {
                proof {
                    assert(self.rows()[i as int].1 == text@);
                    assert(order::entries_have_text(self.rows(), text@));
                }
                return true;
            }
            i = i + 1;
        }
        false
    }

    /// Stores `value` under `word`, replacing any prior entry for that word.
    pub fn insert(&mut self, word: String, value: Translation)
        requires
            old(self).wf(),
        ensures
            final(self).wf(),
            final(self).rows() == order::insert_entry(old(self).rows(), word@, value@.translation, value@.time_added),
    {
        let ghost rows = self.rows();
        let ghost wv = word@;
        let ghost tv = value@.translation;
        let ghost time = value@.time_added;
        let wl = word.as_str().unicode_len();
        let tl = value.translation.as_str().unicode_len();
        let n = self.entries.len();
        let mut p: usize = 0;
        while p < n
            invariant
                n == self.entries@.len(),
                p <= n,
                rows == self.rows(),
                rows == old(self).rows(),
                order::sorted_entries(rows),
                codec::wf_entries(rows),
                wv == word@,
                tv == value@.translation,
                time == value@.time_added,
                wl == wv.len(),
                tl == tv.len(),
                forall|k: int| 0 <= k < p ==> order::lex_lt((#[trigger] rows[k]).0, wv),
            decreases n - p,
        {
            proof {
                assert(rows[p as int] == (self.entries@[p as int].0@, self.entries@[p as int].1@, self.entries@[p as int].2));
            }
            if self.entries[p].0 == word {
                proof {
                    order::lemma_insert_entry_replace(rows, wv, tv, time, p as int);
                }
                self.entries.remove(p);
                self.entries.insert(p, (word, value.translation, value.time_added));
                proof {
                    assert(self.rows() =~= rows.update(p as int, (wv, tv, time)));
                    lemma_wf_after_insert(rows, wv, tv, time, wl as int, tl as int);
                }
                return;
            }
            if !order::str_le(self.entries[p].0.as_str(), word.as_str()) {
                proof {
                    order::lemma_insert_entry_splice(rows, wv, tv, time, p as int);
                }
                self.entries.insert(p, (word, value.translation, value.time_added));
                proof {
                    assert(self.rows() =~= rows.take(p as int) + seq![(wv, tv, time)] + rows.skip(p as int));
                    lemma_wf_after_insert(rows, wv, tv, time, wl as int, tl as int);
                }
                return;
            }
            p = p + 1;
        }
        proof {
            order::lemma_insert_entry_splice(rows, wv, tv, time, n as int);
        }
        self.entries.push((word, value.translation, value.time_added));
        proof {
            assert(rows.take(n as int) =~= rows);
            assert(rows.skip(n as int) =~= Seq::<(Seq<char>, Seq<char>, u64)>::empty());
            assert(self.rows() =~= rows + seq![(wv, tv, time)]);
            assert(self.rows() =~= rows.take(n as int) + seq![(wv, tv, time)] + rows.skip(n as int));
            lemma_wf_after_insert(rows, wv, tv, time, wl as int, tl as int);
        }
    }
}

/// The inserted rows stay well formed: sortedness comes from the sorted
/// insert, and the texts all fit the format.
proof fn lemma_wf_after_insert(rows: Seq<(Seq<char>, Seq<char>, u64)>, w: Seq<char>, t: Seq<char>, time: u64, wl: int, tl: int)
    requires
        order::sorted_entries(rows),
        codec::wf_entries(rows),
        w.len() == wl,
        t.len() == tl,
        wl <= u64::MAX,
        tl <= u64::MAX,
    ensures
        order::sorted_entries(order::insert_entry(rows, w, t, time)),
        codec::wf_entries(order::insert_entry(rows, w, t, time)),
{
    order::lemma_insert_entry(rows, w, t, time);
    let out = order::insert_entry(rows, w, t, time);
    assert forall|k: int| 0 <= k < out.len() implies (#[trigger] out[k]).0.len() <= u64::MAX
        && out[k].1.len() <= u64::MAX by {
        lemma_insert_entry_member(rows, w, t, time, k);
    }
}

/// Every row of the inserted record is the new row or one of the old ones.
proof fn lemma_insert_entry_member(rows: Seq<(Seq<char>, Seq<char>, u64)>, w: Seq<char>, t: Seq<char>, time: u64, k: int)
    requires
        0 <= k < order::insert_entry(rows, w, t, time).len(),
    ensures
        order::insert_entry(rows, w, t, time)[k] == (w, t, time)
            || exists|j: int| 0 <= j < rows.len() && order::insert_entry(rows, w, t, time)[k] == rows[j],
    decreases rows.len(),
{
    let out = order::insert_entry(rows, w, t, time);
    if rows.len() == 0 {
    } else if rows[0].0 == w {
        if k > 0 {
            assert(out[k] == rows[k]);
        }
    } else if order::lex_le(rows[0].0, w) {
        let inner = order::insert_entry(rows.drop_first(), w, t, time);
        if k == 0 {
            assert(out[0] == rows[0]);
        } else {
            assert(out[k] == inner[k - 1]);
            lemma_insert_entry_member(rows.drop_first(), w, t, time, k - 1);
            if inner[k - 1] != (w, t, time) {
                let j = choose|j: int| 0 <= j < rows.drop_first().len() && inner[k - 1] == rows.drop_first()[j];
                assert(rows.drop_first()[j] == rows[j + 1]);
                assert(out[k] == rows[j + 1]);
            }
        }
    } else {
        if k > 0 {
            assert(out[k] == rows[k - 1]);
        }
    }
}

// ---------------------------------------------------------------------------
// The consistency engine
// ---------------------------------------------------------------------------

/// The lookup key of a single-token input: its token with every ASCII
/// punctuation character removed.
pub open spec fn word_key_of(raw: Seq<char>) -> Seq<char> {
    text::strip_punct(text::tokens_of(raw)[0])
}

/// What the vault's translated-words record contributes to a translation
/// call: its rows, or none where both slots are unreadable (the engine then
/// starts from an empty map, as a fresh store has no record yet).
pub open spec fn words_or_empty(v: storage::Vault) -> Seq<(Seq<char>, Seq<char>, u64)> {
    match storage::stored_words(v) {
        Some(rows) => rows,
        None => Seq::empty(),
    }
}

/// The alphabet rows, or none where both slots are unreadable.
pub open spec fn alphabet_or_empty(v: storage::Vault) -> Seq<(Seq<char>, u64)> {
    match storage::stored_alphabet(v) {
        Some(rows) => rows,
        None => Seq::empty(),
    }
}

/// The blocked rows, or none where both slots are unreadable.
pub open spec fn blocked_or_empty(v: storage::Vault) -> Seq<(Seq<char>, u64)> {
    match storage::stored_blocked(v) {
        Some(rows) => rows,
        None => Seq::empty(),
    }
}

/// Some item row carries `t` as its text.
pub open spec fn items_have_text(rows: Seq<(Seq<char>, u64)>, t: Seq<char>) -> bool {
    exists|k: int| 0 <= k < rows.len() && (#[trigger] rows[k]).0 == t
}

/// Whether `word` equals the payload of some blocked translation.
fn translation_is_blocked(word: &str, blocked_translations: &Vec<Translation>) -> (r: bool)
    ensures
        r == items_have_text(storage::translation_rows(blocked_translations@), word@),
{
    let w = word.to_owned();
    let n = blocked_translations.len();
    let mut i: usize = 0;
    while i < n
        invariant
            n == blocked_translations@.len(),
            i <= n,
            w@ == word@,
            forall|k: int| 0 <= k < i
                ==> (#[trigger] storage::translation_rows(blocked_translations@)[k]).0 != word@,
        decreases n - i,
    {
        proof {
            assert(storage::translation_rows(blocked_translations@)[i as int]
                == (blocked_translations@[i as int].translation@, blocked_translations@[i as int].time_added));
        }
        if blocked_translations[i].translation == w {
            proof {
                assert(items_have_text(storage::translation_rows(blocked_translations@), word@));
            }
            return true;
        }
        i = i + 1;
    }
    false
}

/// Whether `word` already has a stored translation in `known_translations`.
fn word_has_translation(word: &str, known_translations: &TranslationMap) -> (r: bool)
    ensures
        r == (known_translations.spec_get(word@) is Some),
{
    known_translations.contains(word)
}

/// Whether some stored translation carries the same payload as the
/// candidate.
fn translation_already_exists(new_translation: &Translation, known_translations: &TranslationMap) -> (r: bool)
    ensures
        r == order::entries_have_text(known_translations.rows(), new_translation@.translation),
{
    known_translations.has_translation_text(new_translation.translation.as_str())
}

/// The global-uniqueness filter: a candidate is rejected when its payload is
/// blocked or already assigned to some word.
pub fn translation_is_rejected(
    new_translation: &Translation,
    blocked_translations: &Vec<Translation>,
    known_translations: &TranslationMap,
) -> (r: bool)
    ensures
        r == (items_have_text(storage::translation_rows(blocked_translations@), new_translation@.translation)
            || order::entries_have_text(known_translations.rows(), new_translation@.translation)),
{
    translation_is_blocked(new_translation.translation.as_str(), blocked_translations)
        || translation_already_exists(new_translation, known_translations)
}

/// Whether the normalized input already has a stored translation.  Degenerate
/// inputs need no storage access: an empty normalized word counts as known
/// (it translates to the empty translation), and input of several words is
/// never known.
pub fn is_word_known(word: &str, vault: &storage::Vault) -> (r: Result<bool, ScramblerError>)
    ensures
        ({
            let toks = text::tokens_of(word@);
            let key = word_key_of(word@);
            match r {
                Ok(b) => {
                    &&& (toks.len() == 0 ==> b == true)
                    &&& (toks.len() > 1 ==> b == false)
                    &&& (toks.len() == 1 && key.len() == 0 ==> b == true)
                    &&& (toks.len() == 1 && key.len() > 0 ==> storage::stored_words(*vault) is Some
                        && b == (order::find_entry(storage::stored_words(*vault)->0, key) is Some))
                },
                Err(e) => toks.len() == 1 && key.len() > 0 && storage::stored_words(*vault) is None
                    && e matches ScramblerError::LoadFailed(RecordKind::TranslatedWords),
            }
        }),
{
    let tokens = text::split_tokens(word);
    if tokens.len() == 0 {
        return Ok(true);
    }
    if tokens.len() > 1 {
        return Ok(false);
    }
    proof {
        assert(text::views_of_strings(tokens@)[0] == tokens@[0]@);
    }
    let key = strip_punctuation(tokens[0].as_str());
    if key.as_str().is_empty() {
        return Ok(true);
    }
    match storage::load_translated_words(vault) {
        Ok(m) => Ok(m.contains(key.as_str())),
        Err(e) => Err(e),
    }
}

/// Translates a single word: a stored translation is returned unchanged, and
/// a missing one is generated under the uniqueness constraints and committed
/// to the store before it is returned.
pub fn translate_word(word: &str, vault: &mut storage::Vault) -> (r: Result<Translation, ScramblerError>)
    ensures
        ({
            let toks = text::tokens_of(word@);
            let key = word_key_of(word@);
            &&& (word@.len() == 0 ==> *final(vault) == *old(vault)
                && (r matches Ok(t) && t@.translation == Seq::<char>::empty()))
            &&& (word@.len() > 0 && toks.len() == 0 ==> *final(vault) == *old(vault)
                && (r matches Err(e) && e matches ScramblerError::EmptyWord))
            &&& (toks.len() > 1 ==> *final(vault) == *old(vault)
                && (r matches Err(e) && e matches ScramblerError::MultiWordInput(m) && m@ == word@))
            &&& (toks.len() == 1 && key.len() == 0 ==> *final(vault) == *old(vault)
                && (r matches Err(e) && e matches ScramblerError::EmptyWord))
            &&& (toks.len() == 1 && key.len() > 0 ==> translated_post(*old(vault), *final(vault), key, r))
        }),
{
    if word.is_empty() {
        return Ok(Translation::new(String::new()));
    }
    let tokens = text::split_tokens(word);
    if tokens.len() == 0 {
        return Err(ScramblerError::EmptyWord);
    }
    if tokens.len() > 1 {
        return Err(ScramblerError::MultiWordInput(word.to_owned()));
    }
    proof {
        assert(text::views_of_strings(tokens@)[0] == tokens@[0]@);
    }
    let key = strip_punctuation(tokens[0].as_str());
    if key.as_str().is_empty() {
        return Err(ScramblerError::EmptyWord);
    }
    translate_word_impl(key, vault)
}

/// What one translation call does to the store, given the non-empty
/// normalized key.  A hit leaves the store untouched and returns the stored
/// translation; a miss generates a fresh candidate that collides with no
/// blocked and no stored text, commits it, and returns it.
pub open spec fn translated_post(
    before: storage::Vault,
    after: storage::Vault,
    key: Seq<char>,
    r: Result<Translation, ScramblerError>,
) -> bool {
    let m0 = words_or_empty(before);
    let n = text::grapheme_clusters(key).len() as int;
    if order::find_entry(m0, key) is Some {
        &&& after == before
        &&& (r matches Ok(t) && order::find_entry(m0, key) == Some((t@.translation, t@.time_added)))
    } else {
        match r {
            Ok(t) => {
                &&& storage::stored_blocked(before) is Some
                &&& !items_have_text(blocked_or_empty(before), t@.translation)
                &&& !order::entries_have_text(m0, t@.translation)
                &&& generator::valid_candidate(t@.translation, n)
                &&& generator::assembled_from(t@.translation, alphabet_or_empty(before),
                    generator::min_target(n), generator::max_target(n))
                &&& storage::stored_words(after)
                    == Some(order::insert_entry(m0, key, t@.translation, t@.time_added))
                &&& after.alphabet == before.alphabet
                &&& after.blocked_translations == before.blocked_translations
            },
            Err(e) => {
                &&& after == before
                &&& ((e matches ScramblerError::LoadFailed(k) && k == RecordKind::BlockedTranslations
                        && storage::stored_blocked(before) is None)
                    || (e matches ScramblerError::EmptyAlphabet && alphabet_or_empty(before).len() == 0
                        && storage::stored_blocked(before) is Some)
                    || (e matches ScramblerError::GenerationExhausted
                        && alphabet_or_empty(before).len() > 0
                        && storage::stored_blocked(before) is Some))
            },
        }
    }
}

fn translate_word_impl(key: String, vault: &mut storage::Vault) -> (r: Result<Translation, ScramblerError>)
    requires
        key@.len() > 0,
    ensures
        translated_post(*old(vault), *final(vault), key@, r),
{
    let ghost m0 = words_or_empty(*old(vault));
    let mut known_translations = match storage::load_translated_words(vault) {
        Ok(m) => m,
        Err(_) => TranslationMap::new(),
    };
    proof {
        assert(known_translations.rows() == m0);
    }
    match known_translations.get(key.as_str()) {
        Some(t) => {
            return Ok(t);
        },
        None => {},
    }
    let blocked_translations = match storage::load_blocked_translations(vault) {
        Ok(b) => b,
        Err(e) => {
            return Err(e);
        },
    };
    let alphabet = match storage::load_alphabet(vault) {
        Ok(a) => a,
        Err(_) => Vec::new(),
    };
    proof {
        assert(storage::glyph_rows(alphabet@) == alphabet_or_empty(*old(vault)));
        assert(storage::translation_rows(blocked_translations@) == blocked_or_empty(*old(vault)));
    }
    let mut candidate = match generator::new_translation(key.as_str(), &alphabet) {
        Ok(c) => c,
        Err(e) => {
            return Err(e);
        },
    };
    let ghost n = text::grapheme_clusters(key@).len() as int;
    let mut attempts: u32 = 0;
    while attempts < generator::MAX_GENERATION_ATTEMPTS
        invariant
            key@.len() > 0,
            *vault == *old(vault),
            m0 == words_or_empty(*old(vault)),
            known_translations.rows() == m0,
            known_translations.wf(),
            order::find_entry(m0, key@) is None,
            storage::stored_blocked(*old(vault)) is Some,
            storage::translation_rows(blocked_translations@) == blocked_or_empty(*old(vault)),
            storage::glyph_rows(alphabet@) == alphabet_or_empty(*old(vault)),
            alphabet@.len() > 0,
            n == text::grapheme_clusters(key@).len() as int,
            generator::valid_candidate(candidate@.translation, n),
            generator::assembled_from(candidate@.translation, alphabet_or_empty(*old(vault)),
                generator::min_target(n), generator::max_target(n)),
        decreases generator::MAX_GENERATION_ATTEMPTS - attempts,
    {
        if !translation_is_rejected(&candidate, &blocked_translations, &known_translations) {
            let accepted = Translation {
                translation: candidate.translation.clone(),
                time_added: candidate.time_added,
            };
            known_translations.insert(key, accepted);
            let _saved = storage::save_translated_words(&known_translations, vault);
            return Ok(candidate);
        }
        candidate = match generator::new_translation(key.as_str(), &alphabet) {
            Ok(c) => c,
            Err(e) => {
                return Err(e);
            },
        };
        attempts = attempts + 1;
    }
    Err(ScramblerError::GenerationExhausted)
}

/// Force-persists a caller-supplied pair, overwriting any prior entry for
/// that word.  An unreadable record is treated as an empty map, as when a
/// fresh store receives its first entry.
pub fn save_translation(word: &str, translation: Translation, vault: &mut storage::Vault) -> (r: Result<(), ScramblerError>)
    ensures
        r is Ok,
        final(vault).alphabet == old(vault).alphabet,
        final(vault).blocked_translations == old(vault).blocked_translations,
        storage::stored_words(*final(vault)) == Some(order::insert_entry(
            words_or_empty(*old(vault)), word@, translation@.translation, translation@.time_added)),
{
    let mut known_translations = match storage::load_translated_words(vault) {
        Ok(m) => m,
        Err(_) => TranslationMap::new(),
    };
    known_translations.insert(word.to_owned(), translation);
    storage::save_translated_words(&known_translations, vault)
}

/// Adds a character to the alphabet used to generate new words.  The symbol
/// must be a single non-whitespace grapheme cluster; the sorted alphabet is
/// re-persisted whether or not the symbol was already present, and an
/// unreadable record is treated as an empty alphabet.
pub fn add_to_alphabet(character: &str, vault: &mut storage::Vault) -> (r: Result<(), ScramblerError>)
    requires
        text::grapheme_clusters(character@).len() == 1,
        !text::all_whitespace(character@),
    ensures
        r is Ok,
        final(vault).translated_words == old(vault).translated_words,
        final(vault).blocked_translations == old(vault).blocked_translations,
        ({
            let a0 = alphabet_or_empty(*old(vault));
            if items_have_text(a0, character@) {
                storage::stored_alphabet(*final(vault)) == Some(order::sort_items(a0))
            } else {
                exists|ts: u64| storage::stored_alphabet(*final(vault))
                    == Some(order::sort_items(a0.push((character@, ts))))
            }
        }),
{
    let ghost a0 = alphabet_or_empty(*old(vault));
    let mut current_alphabet = match storage::load_alphabet(vault) {
        Ok(a) => a,
        Err(_) => Vec::new(),
    };
    proof {
        assert(storage::glyph_rows(current_alphabet@) == a0);
    }
    let glyph = Glyph::new(character.to_owned());
    let n = current_alphabet.len();
    let mut present = false;
    let mut i: usize = 0;
    while i < n
        invariant
            n == current_alphabet@.len(),
            i <= n,
            glyph@.symbol == character@,
            storage::glyph_rows(current_alphabet@) == a0,
            present == exists|k: int| 0 <= k < i && (#[trigger] a0[k]).0 == character@,
        decreases n - i,
    {
        proof {
            assert(a0[i as int] == (current_alphabet@[i as int].symbol@, current_alphabet@[i as int].time_added));
        }
        if current_alphabet[i].symbol == glyph.symbol {
            present = true;
        }
        i = i + 1;
    }
    if !present {
        let ghost prev = current_alphabet@;
        current_alphabet.push(glyph);
        proof {
            assert(storage::glyph_rows(current_alphabet@) =~= a0.push((character@, current_alphabet@.last().time_added)));
        }
    } else {
        proof {
            assert(items_have_text(a0, character@));
        }
    }
    storage::save_alphabet(&current_alphabet, vault)
}

/// The checked form of the alphabet append: a symbol that is not a single
/// non-whitespace grapheme cluster is reported as invalid, and the store is
/// left untouched.
pub fn try_add_to_alphabet(character: &str, vault: &mut storage::Vault) -> (r: Result<(), ScramblerError>)
    ensures
        ({
            if text::grapheme_clusters(character@).len() == 1 && !text::all_whitespace(character@) {
                &&& r is Ok
                &&& final(vault).translated_words == old(vault).translated_words
                &&& final(vault).blocked_translations == old(vault).blocked_translations
                &&& ({
                    let a0 = alphabet_or_empty(*old(vault));
                    if items_have_text(a0, character@) {
                        storage::stored_alphabet(*final(vault)) == Some(order::sort_items(a0))
                    } else {
                        exists|ts: u64| storage::stored_alphabet(*final(vault))
                            == Some(order::sort_items(a0.push((character@, ts))))
                    }
                })
            } else {
                *final(vault) == *old(vault)
                    && (r matches Err(e) && e matches ScramblerError::InvalidSymbol)
            }
        }),
{
    let clusters = text::split_graphemes(character);
    if clusters.len() != 1 {
        return Err(ScramblerError::InvalidSymbol);
    }
    let n = character.unicode_len();
    let mut i: usize = 0;
    while i < n
        invariant
            n == character@.len(),
            i <= n,
            *vault == *old(vault),
            text::grapheme_clusters(character@).len() == 1,
            forall|k: int| 0 <= k < i ==> text::is_unicode_whitespace(character@[k]),
        decreases n - i,
    {
        if !text::char_is_whitespace(character.get_char(i)) {
            proof {
                assert(!text::is_unicode_whitespace(character@[i as int]));
                assert(!text::all_whitespace(character@));
            }
            return add_to_alphabet(character, vault);
        }
        i = i + 1;
    }
    Err(ScramblerError::InvalidSymbol)
}

/// Appends a translation text to the blocked list, so that it is never again
/// offered as a new translation.  The sorted list is re-persisted; a text
/// already blocked is not duplicated, and an unreadable record is treated as
/// an empty list.
pub fn add_to_block_list(word: &str, vault: &mut storage::Vault) -> (r: Result<(), ScramblerError>)
    ensures
        r is Ok,
        final(vault).translated_words == old(vault).translated_words,
        final(vault).alphabet == old(vault).alphabet,
        ({
            let b0 = blocked_or_empty(*old(vault));
            if items_have_text(b0, word@) {
                storage::stored_blocked(*final(vault)) == Some(order::sort_items(b0))
            } else {
                exists|ts: u64| storage::stored_blocked(*final(vault))
                    == Some(order::sort_items(b0.push((word@, ts))))
            }
        }),
{
    let ghost b0 = blocked_or_empty(*old(vault));
    let mut blocked = match storage::load_blocked_translations(vault) {
        Ok(b) => b,
        Err(_) => Vec::new(),
    };
    proof {
        assert(storage::translation_rows(blocked@) == b0);
    }
    let entry = Translation::new(word.to_owned());
    let n = blocked.len();
    let mut present = false;
    let mut i: usize = 0;
    while i < n
        invariant
            n == blocked@.len(),
            i <= n,
            entry@.translation == word@,
            storage::translation_rows(blocked@) == b0,
            present == exists|k: int| 0 <= k < i && (#[trigger] b0[k]).0 == word@,
        decreases n - i,
    {
        proof {
            assert(b0[i as int] == (blocked@[i as int].translation@, blocked@[i as int].time_added));
        }
        if blocked[i].translation == entry.translation {
            present = true;
        }
        i = i + 1;
    }
    if !present {
        blocked.push(entry);
        proof {
            assert(storage::translation_rows(blocked@) =~= b0.push((word@, blocked@.last().time_added)));
        }
    } else {
        proof {
            assert(items_have_text(b0, word@));
        }
    }
    storage::save_blocked_translations(&blocked, vault)
}

} // verus!
