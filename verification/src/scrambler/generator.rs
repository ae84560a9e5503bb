//! The candidate generator: a random translation whose length is scaled to
//! the input word and which avoids three equal consecutive grapheme
//! clusters.

use vstd::prelude::*;
use rand::Rng;
use super::text;
use super::storage::glyph_rows;
use super::{Glyph, Translation, ScramblerError};

verus! {

/// How many candidates a generation call may draw before giving up.  The
/// retry loop is a reject-and-resample scheme; a cap turns a pathological
/// alphabet into a reported error instead of an endless loop.
pub const MAX_GENERATION_ATTEMPTS: u32 = 10000;

/// Relies on rand's Rng::gen_range over `lo..=hi` on a thread-local
/// generator: it panics only on an empty range, which `lo <= hi` rules out,
/// and returns a value of the range; nothing more is promised of a random
/// draw.
#[verifier::external_body]
fn random_in_range(lo: usize, hi: usize) -> (r: usize)
    requires
        lo <= hi,
    ensures
        lo <= r <= hi,
{
    rand::thread_rng().gen_range(lo..=hi)
}

// ---------------------------------------------------------------------------
// Length bounds
// ---------------------------------------------------------------------------

/// The shortest candidate allowed for a word of `n` clusters: half of `n`,
/// but at least one.
pub open spec fn min_target(n: int) -> int {
    if n / 2 == 0 {
        1
    } else {
        n / 2
    }
}

/// The longest candidate allowed for a word of `n` clusters: double `n`,
/// capped at the machine limit.
pub open spec fn max_target(n: int) -> int {
    if 2 * n <= usize::MAX {
        2 * n
    } else {
        usize::MAX as int
    }
}

fn calculate_new_length(original_length: usize) -> (r: (usize, usize))
    requires
        original_length >= 1,
    ensures
        r.0 == min_target(original_length as int),
        r.1 == max_target(original_length as int),
        1 <= r.0 <= r.1,
{
    let mut min_length = original_length / 2;
    if min_length == 0 {
        min_length = 1;
    }
    let max_length = if original_length <= usize::MAX / 2 {
        original_length * 2
    } else {
        usize::MAX
    };
    (min_length, max_length)
}

// ---------------------------------------------------------------------------
// Candidate structure
// ---------------------------------------------------------------------------

/// The concatenation of a sequence of texts.
pub open spec fn concat_texts(parts: Seq<Seq<char>>) -> Seq<char>
    decreases parts.len(),
{
    if parts.len() == 0 {
        Seq::empty()
    } else {
        concat_texts(parts.drop_last()) + parts.last()
    }
}

/// `s` is a concatenation of between `lo` and `hi` symbols of `alphabet`,
/// each drawn independently.
pub open spec fn assembled_from(s: Seq<char>, alphabet: Seq<(Seq<char>, u64)>, lo: int, hi: int) -> bool {
    exists|picks: Seq<Seq<char>>|
        {
            &&& lo <= picks.len() <= hi
            &&& (forall|k: int| 0 <= k < picks.len()
                ==> exists|j: int| 0 <= j < alphabet.len() && #[trigger] picks[k] == (#[trigger] alphabet[j]).0)
            &&& concat_texts(picks) == s
        }
}

/// Three equal consecutive clusters somewhere in `g`.
pub open spec fn has_triple_repeat(g: Seq<Seq<char>>) -> bool {
    exists|k: int| 0 <= k && k + 2 < g.len() && (#[trigger] g[k]) == g[k + 1] && g[k + 1] == g[k + 2]
}

/// A candidate for a word of `n` clusters: its own cluster count lies within
/// the length bounds, and no cluster repeats three times in a row.
pub open spec fn valid_candidate(t: Seq<char>, n: int) -> bool {
    &&& !has_triple_repeat(text::grapheme_clusters(t))
    &&& min_target(n) <= text::grapheme_clusters(t).len() <= max_target(n)
}

// ---------------------------------------------------------------------------
// Executable generation
// ---------------------------------------------------------------------------

/// Whether a candidate passes the readability rule: no grapheme cluster
/// three times in a row.
pub fn is_valid_word(word: &str) -> (r: bool)
    ensures
        r == !has_triple_repeat(text::grapheme_clusters(word@)),
{
    let g = text::split_graphemes(word);
    let n = g.len();
    if n < 3 {
        return true;
    }
    let mut k: usize = 0;
    while k + 2 < n
        invariant
            n == g@.len(),
            text::views_of_strings(g@) == text::grapheme_clusters(word@),
            k + 2 <= n,
            forall|j: int| 0 <= j && j + 2 < k + 2 ==> !((#[trigger] text::grapheme_clusters(word@)[j]) == text::grapheme_clusters(word@)[j + 1]
                && text::grapheme_clusters(word@)[j + 1] == text::grapheme_clusters(word@)[j + 2]),
        decreases n - k,
    {
        proof {
            assert(text::grapheme_clusters(word@)[k as int] == g@[k as int]@);
            assert(text::grapheme_clusters(word@)[k as int + 1] == g@[k as int + 1]@);
            assert(text::grapheme_clusters(word@)[k as int + 2] == g@[k as int + 2]@);
        }
        if g[k] == g[k + 1] && g[k + 1] == g[k + 2] {
            return false;
        }
        k = k + 1;
    }
    true
}

/// One random candidate: a fresh length within the bounds, and one symbol of
/// the alphabet drawn for each position.
fn create_random_word(alphabet: &Vec<Glyph>, original_length: usize) -> (r: String)
    requires
        alphabet.len() > 0,
        original_length >= 1,
    ensures
        assembled_from(r@, glyph_rows(alphabet@), min_target(original_length as int),
            max_target(original_length as int)),
{
    let bounds = calculate_new_length(original_length);
    let length = random_in_range(bounds.0, bounds.1);
    let mut result = String::new();
    let ghost mut picks: Seq<Seq<char>> = Seq::empty();
    proof {
        assert(concat_texts(picks) =~= result@);
    }
    let mut i: usize = 0;
    while i < length
        invariant
            i <= length,
            alphabet.len() > 0,
            picks.len() == i,
            concat_texts(picks) == result@,
            forall|k: int| 0 <= k < picks.len()
                ==> exists|j: int| 0 <= j < glyph_rows(alphabet@).len()
                    && #[trigger] picks[k] == (#[trigger] glyph_rows(alphabet@)[j]).0,
        decreases length - i,
    {
        let idx = random_in_range(0, alphabet.len() - 1);
        result.append(alphabet[idx].symbol.as_str());
        proof {
            let ghost prev = picks;
            picks = picks.push(alphabet@[idx as int].symbol@);
            assert(picks.drop_last() =~= prev);
            assert(concat_texts(picks) == result@);
            assert(glyph_rows(alphabet@)[idx as int] == (alphabet@[idx as int].symbol@, alphabet@[idx as int].time_added));
            assert(picks[i as int] == glyph_rows(alphabet@)[idx as int].0);
        }
        i = i + 1;
    }
    proof {
        assert(min_target(original_length as int) <= picks.len() <= max_target(original_length as int));
    }
    result
}

/// Generates a translation for `word` from the given alphabet: candidates
/// are drawn until one passes the readability rule and keeps its cluster
/// count within the bounds for `word`'s cluster count.  An empty alphabet
/// cannot yield a candidate and is reported instead.
pub fn new_translation(word: &str, alphabet: &Vec<Glyph>) -> (r: Result<Translation, ScramblerError>)
    requires
        word@.len() > 0,
    ensures
        alphabet@.len() == 0 <==> r matches Err(ScramblerError::EmptyAlphabet),
        match r {
            Ok(t) => valid_candidate(t@.translation, text::grapheme_clusters(word@).len() as int)
                && assembled_from(t@.translation, glyph_rows(alphabet@),
                    min_target(text::grapheme_clusters(word@).len() as int),
                    max_target(text::grapheme_clusters(word@).len() as int)),
            Err(e) => e matches ScramblerError::EmptyAlphabet || e matches ScramblerError::GenerationExhausted,
        },
{
    if alphabet.len() == 0 {
        return Err(ScramblerError::EmptyAlphabet);
    }
    let g = text::split_graphemes(word);
    let n = g.len();
    let bounds = calculate_new_length(n);
    let mut attempts: u32 = 0;
    while attempts < MAX_GENERATION_ATTEMPTS
        invariant
            n == text::grapheme_clusters(word@).len(),
            n >= 1,
            alphabet.len() > 0,
            bounds.0 == min_target(n as int),
            bounds.1 == max_target(n as int),
        decreases MAX_GENERATION_ATTEMPTS - attempts,
    {
        let candidate = create_random_word(alphabet, n);
        if is_valid_word(candidate.as_str()) {
            let cg = text::split_graphemes(candidate.as_str());
            let cn = cg.len();
            proof {
                assert(cn == text::grapheme_clusters(candidate@).len());
            }
            if bounds.0 <= cn && cn <= bounds.1 {
                return Ok(Translation::new(candidate));
            }
        }
        attempts = attempts + 1;
    }
    Err(ScramblerError::GenerationExhausted)
}

} // verus!
