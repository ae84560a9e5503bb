//! The global laws of the engine, stated over the store model and proved
//! from the contracts of the operations.

use vstd::prelude::*;
use super::codec;
use super::order;
use super::storage;
use super::{translated_post, words_or_empty, blocked_or_empty, items_have_text, Translation, ScramblerError};

verus! {

/// Idempotence: a committed translation is returned unchanged by the next
/// call on the same word.  After a call that stored the translation `t`
/// under `key` on top of the map `words_or_empty(before)`, the store maps
/// `key` to `t`; a second call therefore hits, leaves the store untouched,
/// and returns exactly the stored translation.
pub proof fn lemma_translate_idempotent(
    before: storage::Vault,
    after: storage::Vault,
    next: storage::Vault,
    key: Seq<char>,
    text: Seq<char>,
    time: u64,
    r2: Result<Translation, ScramblerError>,
)
    requires
        order::sorted_entries(words_or_empty(before)),
        storage::stored_words(after) == Some(order::insert_entry(words_or_empty(before), key, text, time)),
        translated_post(after, next, key, r2),
    ensures
        next == after,
        r2 matches Ok(t2) && t2@.translation == text && t2@.time_added == time,
{
    order::lemma_insert_entry(words_or_empty(before), key, text, time);
    assert(words_or_empty(after) == order::insert_entry(words_or_empty(before), key, text, time));
    assert(order::find_entry(words_or_empty(after), key) == Some((text, time)));
}

/// Uniqueness: a successful translation of an unknown word stores a text
/// that no other entry holds, so the stored translation texts stay pairwise
/// distinct, and the fresh text equals no blocked text.
pub proof fn lemma_uniqueness_preserved(
    before: storage::Vault,
    after: storage::Vault,
    key: Seq<char>,
    r: Result<Translation, ScramblerError>,
)
    requires
        translated_post(before, after, key, r),
        order::find_entry(words_or_empty(before), key) is None,
        r is Ok,
        order::sorted_entries(words_or_empty(before)),
        order::entries_texts_distinct(words_or_empty(before)),
    ensures
        order::entries_texts_distinct(words_or_empty(after)),
        r matches Ok(t) ==> !items_have_text(blocked_or_empty(before), t@.translation),
{
    let m0 = words_or_empty(before);
    if let Ok(t) = r {
        order::lemma_distinct_preserved(m0, key, t@.translation, t@.time_added);
        assert(words_or_empty(after) == order::insert_entry(m0, key, t@.translation, t@.time_added));
    }
}

/// Round trip for the alphabet and blocked records: a store whose primary
/// slot holds exactly the rendered record yields those rows back on load.
pub proof fn lemma_item_record_round_trip(slots: storage::RecordSlots, rows: Seq<(Seq<char>, u64)>)
    requires
        codec::wf_items(rows),
        storage::slot_text(slots.primary) == Some(codec::render_items(rows)),
    ensures
        storage::stored_items(slots) == Some(rows),
{
    let text = codec::render_items(rows);
    assert(text.subrange(0, text.len() as int) =~= text);
    codec::lemma_parse_render_items(text, 0, rows);
}

/// Round trip for the translated-words record: a store whose primary slot
/// holds exactly the rendered map yields its rows back on load.
pub proof fn lemma_word_record_round_trip(slots: storage::RecordSlots, rows: Seq<(Seq<char>, Seq<char>, u64)>)
    requires
        codec::wf_entries(rows),
        order::sorted_entries(rows),
        storage::slot_text(slots.primary) == Some(codec::render_entries(rows)),
    ensures
        storage::stored_entries(slots) == Some(rows),
{
    let text = codec::render_entries(rows);
    assert(text.subrange(0, text.len() as int) =~= text);
    codec::lemma_parse_render_entries(text, 0, rows);
}

/// Fallback recovery for the alphabet and blocked records: where the primary
/// slot is missing or does not parse, the record read is exactly what the
/// backup slot holds.
pub proof fn lemma_fallback_items(slots: storage::RecordSlots)
    requires
        storage::items_of_text(storage::slot_text(slots.primary)) is None,
    ensures
        storage::stored_items(slots) == storage::items_of_text(storage::slot_text(slots.backup)),
{
}

/// Fallback recovery for the translated-words record: where the primary slot
/// is missing, does not parse, or is out of canonical order, the record read
/// is exactly what the backup slot holds.
pub proof fn lemma_fallback_entries(slots: storage::RecordSlots)
    requires
        storage::entries_of_text(storage::slot_text(slots.primary)) is None,
    ensures
        storage::stored_entries(slots) == storage::entries_of_text(storage::slot_text(slots.backup)),
{
}

} // verus!
