//! Character-level text helpers: Unicode whitespace, grapheme clusters,
//! whitespace tokenization and punctuation stripping.

use vstd::prelude::*;
use unicode_segmentation::UnicodeSegmentation;

verus! {

// ---------------------------------------------------------------------------
// Unicode whitespace
// ---------------------------------------------------------------------------

/// Whether a character has the Unicode `White_Space` property.
pub uninterp spec fn is_unicode_whitespace(c: char) -> bool;

/// Relies on char::is_whitespace: whether the character has the Unicode
/// `White_Space` property, a function of the character alone.
#[verifier::external_body]
pub fn char_is_whitespace(c: char) -> (r: bool)
    ensures
        r == is_unicode_whitespace(c),
{
    c.is_whitespace()
}

pub open spec fn all_whitespace(s: Seq<char>) -> bool {
    forall|i: int| 0 <= i < s.len() ==> is_unicode_whitespace(s[i])
}

// ---------------------------------------------------------------------------
// Grapheme clusters
// ---------------------------------------------------------------------------

/// The extended grapheme-cluster segmentation of a character sequence.
pub uninterp spec fn grapheme_clusters(s: Seq<char>) -> Seq<Seq<char>>;

pub open spec fn views_of_strings(v: Seq<String>) -> Seq<Seq<char>> {
    v.map_values(|t: String| t@)
}

/// Relies on unicode_segmentation's UnicodeSegmentation::graphemes (extended
/// grapheme clusters): the segmentation is a function of the characters alone,
/// the clusters partition the string, and each cluster is non-empty, so a
/// non-empty string has at least one and at most `len` clusters.
#[verifier::external_body]
pub fn split_graphemes(s: &str) -> (r: Vec<String>)
    ensures
        views_of_strings(r@) == grapheme_clusters(s@),
        s@.len() == 0 ==> r@.len() == 0,
        s@.len() > 0 ==> 1 <= r@.len() && r@.len() <= s@.len(),
{
    s.graphemes(true).map(|g| g.to_owned()).collect()
}

// ---------------------------------------------------------------------------
// String building
// ---------------------------------------------------------------------------

/// Relies on String::push: appends one character to the string.
#[verifier::external_body]
pub fn push_char(s: &mut String, c: char)
    ensures
        final(s)@ == old(s)@.push(c),
{
    s.push(c)
}

// ---------------------------------------------------------------------------
// Whitespace tokenization
// ---------------------------------------------------------------------------

/// One step of the tokenizing fold: a whitespace character closes the current
/// token; any other character extends the current token or opens a new one.
pub open spec fn tokens_step(acc: Seq<Seq<char>>, in_token: bool, c: char) -> (Seq<Seq<char>>, bool) {
    if is_unicode_whitespace(c) {
        (acc, false)
    } else if in_token && acc.len() > 0 {
        (acc.update(acc.len() - 1, acc.last().push(c)), true)
    } else {
        (acc.push(seq![c]), true)
    }
}

pub open spec fn tokens_from(s: Seq<char>, i: int, acc: Seq<Seq<char>>, in_token: bool) -> Seq<Seq<char>>
    decreases s.len() - i,
{
    if i < 0 || i >= s.len() {
        acc
    } else {
        let next = tokens_step(acc, in_token, s[i]);
        tokens_from(s, i + 1, next.0, next.1)
    }
}

/// The maximal whitespace-free runs of `s`, in order.
pub open spec fn tokens_of(s: Seq<char>) -> Seq<Seq<char>> {
    tokens_from(s, 0, Seq::empty(), false)
}

/// Splits a string into its maximal whitespace-free runs.
pub fn split_tokens(s: &str) -> (r: Vec<String>)
    ensures
        views_of_strings(r@) == tokens_of(s@),
{
    let n = s.unicode_len();
    let mut acc: Vec<String> = Vec::new();
    let mut in_token = false;
    let mut i: usize = 0;
    proof {
        assert(views_of_strings(acc@) =~= Seq::<Seq<char>>::empty());
    }
    while i < n
        invariant
            n == s@.len(),
            i <= n,
            in_token ==> acc.len() > 0,
            tokens_of(s@) == tokens_from(s@, i as int, views_of_strings(acc@), in_token),
        decreases n - i,
    {
        let c = s.get_char(i);
        let ghost prev_views = views_of_strings(acc@);
        let ghost prev_in = in_token;
        if char_is_whitespace(c) {
            in_token = false;
        } else if in_token {
            let mut last = acc.pop().unwrap();
            push_char(&mut last, c);
            acc.push(last);
            proof {
                assert(views_of_strings(acc@) =~= prev_views.update(prev_views.len() - 1, prev_views.last().push(c)));
            }
        } else {
            let mut t = String::new();
            push_char(&mut t, c);
            acc.push(t);
            in_token = true;
            proof {
                assert(t@ =~= seq![c]);
                assert(views_of_strings(acc@) =~= prev_views.push(seq![c]));
            }
        }
        proof {
            assert(tokens_from(s@, i as int, prev_views, prev_in)
                == tokens_from(s@, i as int + 1, views_of_strings(acc@), in_token));
        }
        i = i + 1;
    }
    acc
}

// ---------------------------------------------------------------------------
// Punctuation stripping
// ---------------------------------------------------------------------------

/// The ASCII punctuation characters: `!`..`/`, `:`..`@`, `[`..`` ` `` and `{`..`~`.
pub open spec fn is_ascii_punct(c: char) -> bool {
    (33 <= c as u32 && c as u32 <= 47) || (58 <= c as u32 && c as u32 <= 64)
        || (91 <= c as u32 && c as u32 <= 96) || (123 <= c as u32 && c as u32 <= 126)
}

pub fn is_punct_char(c: char) -> (r: bool)
    ensures
        r == is_ascii_punct(c),
{
    let v = c as u32;
    (33 <= v && v <= 47) || (58 <= v && v <= 64) || (91 <= v && v <= 96) || (123 <= v && v <= 126)
}

/// `s` with every ASCII punctuation character removed.
pub open spec fn strip_punct(s: Seq<char>) -> Seq<char>
    decreases s.len(),
{
    if s.len() == 0 {
        Seq::empty()
    } else {
        let rest = strip_punct(s.drop_last());
        if is_ascii_punct(s.last()) {
            rest
        } else {
            rest.push(s.last())
        }
    }
}

/// Removes every ASCII punctuation character from a string.
pub fn strip_punct_exec(s: &str) -> (r: String)
    ensures
        r@ == strip_punct(s@),
{
    let n = s.unicode_len();
    let mut out = String::new();
    let mut i: usize = 0;
    while i < n
        invariant
            n == s@.len(),
            i <= n,
            out@ == strip_punct(s@.take(i as int)),
        decreases n - i,
    {
        let c = s.get_char(i);
        proof {
            assert(s@.take(i as int + 1).drop_last() =~= s@.take(i as int));
            assert(s@.take(i as int + 1).last() == s@[i as int]);
        }
        if !is_punct_char(c) {
            push_char(&mut out, c);
        }
        i = i + 1;
    }
    proof {
        assert(s@.take(n as int) =~= s@);
    }
    out
}

} // verus!
