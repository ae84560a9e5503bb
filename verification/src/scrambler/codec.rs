//! The stable text format for the persisted records: every field is length-
//! or terminator-delimited, so rendering is deterministic and parsing is the
//! exact inverse of rendering.
//!
//! A stored record is a sequence of rows, one per entry.  A text field is
//! rendered as `<decimal char count>:<chars> `, a number as its canonical
//! decimal digits, and every row ends in a newline.

use vstd::prelude::*;
use super::text::push_char;

verus! {

// ---------------------------------------------------------------------------
// Decimal digits
// ---------------------------------------------------------------------------

pub open spec fn is_digit_char(c: char) -> bool {
    48 <= c as u32 && c as u32 <= 57
}

pub open spec fn digit_val(c: char) -> int {
    c as u32 - 48
}

pub open spec fn digit_char(d: int) -> char {
    if d == 0 {
        '0'
    } else if d == 1 {
        '1'
    } else if d == 2 {
        '2'
    } else if d == 3 {
        '3'
    } else if d == 4 {
        '4'
    } else if d == 5 {
        '5'
    } else if d == 6 {
        '6'
    } else if d == 7 {
        '7'
    } else if d == 8 {
        '8'
    } else {
        '9'
    }
}

proof fn lemma_digit_char_val(d: int)
    requires
        0 <= d <= 9,
    ensures
        is_digit_char(digit_char(d)),
        digit_val(digit_char(d)) == d,
{
}

proof fn lemma_char_of_digit(c: char)
    requires
        is_digit_char(c),
    ensures
        digit_char(digit_val(c)) == c,
        c != '0' ==> digit_val(c) >= 1,
{
    let d = digit_val(c);
    if d == 0 {
        assert(c as u32 == '0' as u32);
        assert(c == '0');
    } else if d == 1 {
        assert(c as u32 == '1' as u32);
        assert(c == '1');
    } else if d == 2 {
        assert(c as u32 == '2' as u32);
        assert(c == '2');
    } else if d == 3 {
        assert(c as u32 == '3' as u32);
        assert(c == '3');
    } else if d == 4 {
        assert(c as u32 == '4' as u32);
        assert(c == '4');
    } else if d == 5 {
        assert(c as u32 == '5' as u32);
        assert(c == '5');
    } else if d == 6 {
        assert(c as u32 == '6' as u32);
        assert(c == '6');
    } else if d == 7 {
        assert(c as u32 == '7' as u32);
        assert(c == '7');
    } else if d == 8 {
        assert(c as u32 == '8' as u32);
        assert(c == '8');
    } else {
        assert(c as u32 == '9' as u32);
        assert(c == '9');
    }
}

/// The canonical decimal rendering of `v`: no leading zero except for zero
/// itself.
pub open spec fn dec(v: u64) -> Seq<char>
    decreases v,
{
    if v < 10 {
        seq![digit_char(v as int)]
    } else {
        dec(v / 10).push(digit_char((v % 10) as int))
    }
}

proof fn lemma_dec_shape(v: u64)
    ensures
        dec(v).len() >= 1,
        forall|k: int| 0 <= k < dec(v).len() ==> is_digit_char(#[trigger] dec(v)[k]),
        v >= 1 ==> dec(v)[0] != '0',
        v == 0 ==> dec(v) =~= seq!['0'],
    decreases v,
{
    if v < 10 {
        lemma_digit_char_val(v as int);
    } else {
        lemma_dec_shape(v / 10);
        lemma_digit_char_val((v % 10) as int);
        assert(dec(v)[0] == dec(v / 10)[0]);
    }
}

proof fn lemma_dec_injective(a: u64, b: u64)
    requires
        dec(a) == dec(b),
    ensures
        a == b,
    decreases a,
{
    lemma_dec_shape(a);
    lemma_dec_shape(b);
    if a < 10 && b < 10 {
        assert(dec(a)[0] == dec(b)[0]);
    } else if a < 10 {
        lemma_dec_shape(b / 10);
        assert(dec(b).len() == dec(b / 10).len() + 1);
        assert(false);
    } else if b < 10 {
        lemma_dec_shape(a / 10);
        assert(dec(a).len() == dec(a / 10).len() + 1);
        assert(false);
    } else {
        assert(dec(a).last() == digit_char((a % 10) as int));
        assert(dec(b).last() == digit_char((b % 10) as int));
        assert(dec(a).last() == dec(b).last());
        assert(a % 10 == b % 10);
        assert(dec(a).drop_last() =~= dec(a / 10));
        assert(dec(b).drop_last() =~= dec(b / 10));
        lemma_dec_injective(a / 10, b / 10);
    }
}

// ---------------------------------------------------------------------------
// The value of a digit run
// ---------------------------------------------------------------------------

/// The value of the digits of `s` in positions `[i, j)`, read as a decimal
/// number.
pub open spec fn fold_digits(s: Seq<char>, i: int, j: int) -> int
    decreases j - i,
{
    if i >= j {
        0
    } else {
        fold_digits(s, i, j - 1) * 10 + digit_val(s[j - 1])
    }
}

proof fn lemma_fold_nonneg(s: Seq<char>, i: int, j: int)
    requires
        forall|k: int| i <= k < j ==> is_digit_char(#[trigger] s[k]),
    ensures
        fold_digits(s, i, j) >= 0,
    decreases j - i,
{
    if i < j {
        lemma_fold_nonneg(s, i, j - 1);
    }
}

/// Appending digits never decreases the value of the run.
proof fn lemma_fold_monotone(s: Seq<char>, i: int, j: int, j2: int)
    requires
        i <= j <= j2,
        forall|k: int| i <= k < j2 ==> is_digit_char(#[trigger] s[k]),
    ensures
        fold_digits(s, i, j) <= fold_digits(s, i, j2),
    decreases j2 - j,
{
    if j < j2 {
        lemma_fold_monotone(s, i, j, j2 - 1);
        lemma_fold_nonneg(s, i, j2 - 1);
        assert(fold_digits(s, i, j2) == fold_digits(s, i, j2 - 1) * 10 + digit_val(s[j2 - 1]));
        assert(fold_digits(s, i, j2 - 1) * 10 >= fold_digits(s, i, j2 - 1)) by (nonlinear_arith)
            requires fold_digits(s, i, j2 - 1) >= 0;
    }
}

/// Reading back the canonical rendering of `v` yields `v`.
proof fn lemma_fold_dec(s: Seq<char>, i: int, v: u64)
    requires
        0 <= i,
        i + dec(v).len() <= s.len(),
        s.subrange(i, i + dec(v).len() as int) == dec(v),
    ensures
        fold_digits(s, i, i + dec(v).len() as int) == v,
    decreases v,
{
    lemma_dec_shape(v);
    let l = dec(v).len() as int;
    if v < 10 {
        assert(s[i] == dec(v)[0]);
        lemma_digit_char_val(v as int);
        assert(fold_digits(s, i, i) == 0);
        assert(fold_digits(s, i, i + 1) == digit_val(s[i]));
    } else {
        assert(s.subrange(i, i + l - 1) =~= dec(v / 10)) by {
            assert(dec(v).drop_last() =~= dec(v / 10));
            assert forall|k: int| 0 <= k < l - 1 implies s.subrange(i, i + l - 1)[k] == #[trigger] dec(v / 10)[k] by {
                assert(s.subrange(i, i + l)[k] == dec(v)[k]);
            }
        }
        lemma_fold_dec(s, i, v / 10);
        assert(s[i + l - 1] == dec(v)[l - 1]);
        lemma_digit_char_val((v % 10) as int);
        assert(fold_digits(s, i, i + l) == fold_digits(s, i, i + l - 1) * 10 + digit_val(s[i + l - 1]));
    }
}

/// A digit run with no leading zero is the canonical rendering of its value.
proof fn lemma_canonical_run(s: Seq<char>, i: int, j: int)
    requires
        0 <= i < j <= s.len(),
        forall|k: int| i <= k < j ==> is_digit_char(#[trigger] s[k]),
        s[i] != '0' || j == i + 1,
        fold_digits(s, i, j) <= u64::MAX,
    ensures
        dec(fold_digits(s, i, j) as u64) =~= s.subrange(i, j),
    decreases j - i,
{
    let v = fold_digits(s, i, j);
    lemma_fold_nonneg(s, i, j);
    if j == i + 1 {
        assert(is_digit_char(s[i]));
        lemma_char_of_digit(s[i]);
        assert(fold_digits(s, i, i) == 0);
        assert(v == digit_val(s[i]));
        assert(digit_char(digit_val(s[i])) == s[i]);
        assert(dec(v as u64) =~= seq![s[i]]);
        assert(s.subrange(i, j) =~= seq![s[i]]);
    } else {
        let p = fold_digits(s, i, j - 1);
        assert(v == p * 10 + digit_val(s[j - 1]));
        // the prefix keeps the non-zero first digit, so it is canonical too
        lemma_fold_monotone(s, i, i + 1, j - 1);
        assert(fold_digits(s, i, i) == 0);
        assert(fold_digits(s, i, i + 1) == digit_val(s[i]));
        assert(s[i] != '0');
        lemma_char_of_digit(s[i]);
        assert(digit_val(s[i]) >= 1);
        assert(p >= 1);
        assert(p <= u64::MAX) by {
            assert(v >= p * 10) by (nonlinear_arith)
                requires v == p * 10 + digit_val(s[j - 1]), digit_val(s[j - 1]) >= 0;
            assert(p * 10 >= p) by (nonlinear_arith)
                requires p >= 0;
        }
        lemma_canonical_run(s, i, j - 1);
        assert(v >= 10) by (nonlinear_arith)
            requires v == p * 10 + digit_val(s[j - 1]), p >= 1, digit_val(s[j - 1]) >= 0;
        let vu = v as u64;
        assert(vu / 10 == p && vu % 10 == digit_val(s[j - 1])) by (nonlinear_arith)
            requires
                v == p * 10 + digit_val(s[j - 1]),
                0 <= digit_val(s[j - 1]) < 10,
                p >= 0,
                vu == v;
        lemma_char_of_digit(s[j - 1]);
        assert(digit_char(digit_val(s[j - 1])) == s[j - 1]);
        assert(dec(vu) =~= dec(p as u64).push(s[j - 1]));
        assert(dec(p as u64) =~= s.subrange(i, j - 1));
        assert(dec(vu) =~= s.subrange(i, j));
    }
}

// ---------------------------------------------------------------------------
// Parsing a number
// ---------------------------------------------------------------------------

/// The first position at or after `i` that does not hold a digit.
pub open spec fn digits_end(s: Seq<char>, i: int) -> int
    decreases s.len() - i,
{
    if 0 <= i < s.len() && is_digit_char(s[i]) {
        digits_end(s, i + 1)
    } else {
        i
    }
}

proof fn lemma_digits_end_bounds(s: Seq<char>, i: int)
    requires
        0 <= i <= s.len(),
    ensures
        i <= digits_end(s, i) <= s.len(),
        forall|k: int| i <= k < digits_end(s, i) ==> is_digit_char(#[trigger] s[k]),
        digits_end(s, i) < s.len() ==> !is_digit_char(s[digits_end(s, i)]),
    decreases s.len() - i,
{
    if i < s.len() && is_digit_char(s[i]) {
        lemma_digits_end_bounds(s, i + 1);
    }
}

proof fn lemma_digits_end_of_run(s: Seq<char>, i: int, e: int)
    requires
        0 <= i <= e <= s.len(),
        forall|k: int| i <= k < e ==> is_digit_char(#[trigger] s[k]),
        e == s.len() || !is_digit_char(s[e]),
    ensures
        digits_end(s, i) == e,
    decreases e - i,
{
    if i < e {
        lemma_digits_end_of_run(s, i + 1, e);
    }
}

/// The number starting at position `i`: the maximal digit run there, read as
/// a decimal value, if that run is non-empty, canonical and fits in `u64`.
pub open spec fn parse_u64_at(s: Seq<char>, i: int) -> Option<(u64, int)> {
    let e = digits_end(s, i);
    if e == i {
        None
    } else if exists|v: u64| dec(v) == s.subrange(i, e) {
        Some(((choose|v: u64| dec(v) == s.subrange(i, e)), e))
    } else {
        None
    }
}

/// Wherever the text holds the canonical rendering of `v` followed by a
/// non-digit (or the end), the number parser returns exactly `v`.
pub proof fn lemma_parse_dec(s: Seq<char>, i: int, v: u64)
    requires
        0 <= i,
        i + dec(v).len() <= s.len(),
        s.subrange(i, i + dec(v).len() as int) == dec(v),
        i + dec(v).len() == s.len() || !is_digit_char(s[i + dec(v).len() as int]),
    ensures
        parse_u64_at(s, i) == Some((v, i + dec(v).len() as int)),
{
    let l = dec(v).len() as int;
    lemma_dec_shape(v);
    assert forall|k: int| i <= k < i + l implies is_digit_char(#[trigger] s[k]) by {
        assert(s.subrange(i, i + l)[k - i] == dec(v)[k - i]);
    }
    lemma_digits_end_of_run(s, i, i + l);
    assert(exists|w: u64| dec(w) == s.subrange(i, i + l)) by {
        assert(dec(v) == s.subrange(i, i + l));
    }
    let w = choose|w: u64| dec(w) == s.subrange(i, i + l);
    lemma_dec_injective(w, v);
}

// ---------------------------------------------------------------------------
// Executable digit helpers
// ---------------------------------------------------------------------------

fn is_digit_exec(c: char) -> (r: bool)
    ensures
        r == is_digit_char(c),
{
    let v = c as u32;
    48 <= v && v <= 57
}

fn digit_val_exec(c: char) -> (r: u64)
    requires
        is_digit_char(c),
    ensures
        r == digit_val(c),
        r <= 9,
{
    ((c as u32) - 48) as u64
}

fn digit_char_exec(d: u64) -> (r: char)
    requires
        d <= 9,
    ensures
        r == digit_char(d as int),
{
    if d == 0 {
        '0'
    } else if d == 1 {
        '1'
    } else if d == 2 {
        '2'
    } else if d == 3 {
        '3'
    } else if d == 4 {
        '4'
    } else if d == 5 {
        '5'
    } else if d == 6 {
        '6'
    } else if d == 7 {
        '7'
    } else if d == 8 {
        '8'
    } else {
        '9'
    }
}

/// Appends the canonical decimal rendering of `v`.
pub fn render_u64(v: u64, out: &mut String)
    ensures
        final(out)@ == old(out)@ + dec(v),
    decreases v,
{
    if v < 10 {
        push_char(out, digit_char_exec(v));
        proof {
            assert(old(out)@ + dec(v) =~= old(out)@.push(digit_char(v as int)));
        }
    } else {
        render_u64(v / 10, out);
        push_char(out, digit_char_exec(v % 10));
        proof {
            assert(old(out)@ + dec(v) =~= (old(out)@ + dec(v / 10)).push(digit_char((v % 10) as int)));
        }
    }
}

/// Reads the number at position `i`, returning its value and the position
/// just past its digits.
pub fn parse_u64_exec(s: &str, n: usize, i: usize) -> (r: Option<(u64, usize)>)
    requires
        n == s@.len(),
        i <= n,
    ensures
        match r {
            Some(p) => parse_u64_at(s@, i as int) == Some((p.0, p.1 as int)) && i < p.1 <= n,
            None => parse_u64_at(s@, i as int) is None,
        },
{
    proof {
        lemma_digits_end_bounds(s@, i as int);
    }
    let ghost end = digits_end(s@, i as int);
    // find the end of the digit run
    let mut e = i;
    while e < n && is_digit_exec(s.get_char(e))
        invariant
            i <= e <= n,
            n == s@.len(),
            end == digits_end(s@, i as int),
            forall|k: int| i <= k < e ==> is_digit_char(#[trigger] s@[k]),
            digits_end(s@, e as int) == end,
        decreases n - e,
    {
        e = e + 1;
    }
    proof {
        assert(digits_end(s@, e as int) == e as int);
        assert(end == e as int);
    }
    if e == i {
        return None;
    }
    // a leading zero is only canonical for the single digit zero
    if s.get_char(i) == '0' && e > i + 1 {
        proof {
            if exists|v: u64| dec(v) == s@.subrange(i as int, e as int) {
                let v = choose|v: u64| dec(v) == s@.subrange(i as int, e as int);
                lemma_dec_shape(v);
                assert(dec(v)[0] == s@.subrange(i as int, e as int)[0]);
                assert(dec(v).len() >= 2);
                assert(false);
            }
        }
        return None;
    }
    // accumulate the value, watching for overflow
    let mut acc: u64 = 0;
    let mut k = i;
    while k < e
        invariant
            i <= k <= e <= n,
            i < e,
            n == s@.len(),
            digits_end(s@, i as int) == e as int,
            forall|j: int| i <= j < e ==> is_digit_char(#[trigger] s@[j]),
            acc == fold_digits(s@, i as int, k as int),
        decreases e - k,
    {
        let d = digit_val_exec(s.get_char(k));
        if acc > (u64::MAX - d) / 10 {
            // the run exceeds u64, so no canonical rendering matches it
            proof {
                assert(fold_digits(s@, i as int, k as int + 1) == acc * 10 + d);
                assert(acc * 10 + d > u64::MAX) by (nonlinear_arith)
                    requires acc > (u64::MAX - d) / 10, 0 <= d <= 9, acc >= 0;
                lemma_fold_monotone(s@, i as int, k as int + 1, e as int);
                if exists|v: u64| dec(v) == s@.subrange(i as int, e as int) {
                    let v = choose|v: u64| dec(v) == s@.subrange(i as int, e as int);
                    lemma_dec_shape(v);
                    assert(s@.subrange(i as int, e as int).len() == dec(v).len());
                    assert forall|j: int| 0 <= j < dec(v).len() implies s@.subrange(i as int, i as int + dec(v).len() as int)[j] == dec(v)[j] by {
                        assert(s@.subrange(i as int, e as int)[j] == dec(v)[j]);
                    }
                    assert(s@.subrange(i as int, i as int + dec(v).len() as int) =~= dec(v));
                    lemma_fold_dec(s@, i as int, v);
                    assert(false);
                }
            }
            return None;
        }
        proof {
            assert(acc * 10 + d <= u64::MAX) by (nonlinear_arith)
                requires acc <= (u64::MAX - d) / 10, 0 <= d <= 9, acc >= 0;
        }
        acc = acc * 10 + d;
        k = k + 1;
    }
    proof {
        lemma_canonical_run(s@, i as int, e as int);
        assert(dec(acc) =~= s@.subrange(i as int, e as int));
        let w = choose|v: u64| dec(v) == s@.subrange(i as int, e as int);
        lemma_dec_injective(w, acc);
    }
    Some((acc, e))
}

// ---------------------------------------------------------------------------
// Text fields
// ---------------------------------------------------------------------------

/// A text field: the character count, a colon, the characters, a space.
pub open spec fn render_text(t: Seq<char>) -> Seq<char> {
    dec(t.len() as u64) + seq![':'] + t + seq![' ']
}

pub open spec fn parse_text_at(s: Seq<char>, i: int) -> Option<(Seq<char>, int)> {
    match parse_u64_at(s, i) {
        Some(p) => {
            let l = p.0 as int;
            let j = p.1;
            if j < s.len() && s[j] == ':' && j + 1 + l + 1 <= s.len() && s[j + 1 + l] == ' ' {
                Some((s.subrange(j + 1, j + 1 + l), j + 2 + l))
            } else {
                None
            }
        },
        None => None,
    }
}

pub proof fn lemma_parse_render_text(s: Seq<char>, i: int, t: Seq<char>)
    requires
        0 <= i,
        t.len() <= u64::MAX,
        i + render_text(t).len() <= s.len(),
        s.subrange(i, i + render_text(t).len() as int) == render_text(t),
    ensures
        parse_text_at(s, i) == Some((t, i + render_text(t).len() as int)),
{
    let lv = t.len() as u64;
    let d = dec(lv);
    let dl = d.len() as int;
    let tl = t.len() as int;
    let r = render_text(t);
    let rl = r.len() as int;
    lemma_dec_shape(lv);
    assert(rl == dl + tl + 2);
    assert forall|k: int| 0 <= k < rl implies s[i + k] == r[k] by {
        assert(s.subrange(i, i + rl)[k] == r[k]);
    }
    assert(s.subrange(i, i + dl) =~= d) by {
        assert forall|k: int| 0 <= k < dl implies s.subrange(i, i + dl)[k] == d[k] by {
            assert(r[k] == d[k]);
            assert(s[i + k] == r[k]);
        }
    }
    assert(s[i + dl] == r[dl]);
    assert(r[dl] == ':');
    assert(!is_digit_char(':'));
    lemma_parse_dec(s, i, lv);
    assert(parse_u64_at(s, i) == Some((lv, i + dl)));
    assert(s.subrange(i + dl + 1, i + dl + 1 + tl) =~= t) by {
        assert forall|k: int| 0 <= k < tl implies s.subrange(i + dl + 1, i + dl + 1 + tl)[k] == t[k] by {
            assert(r[dl + 1 + k] == t[k]);
            assert(s[i + dl + 1 + k] == r[dl + 1 + k]);
        }
    }
    assert(s[i + dl + 1 + tl] == r[dl + 1 + tl]);
    assert(r[dl + 1 + tl] == ' ');
}

/// Appends the text field for `t`.
pub fn render_text_exec(t: &str, out: &mut String)
    ensures
        final(out)@ == old(out)@ + render_text(t@),
{
    let l = t.unicode_len();
    render_u64(l as u64, out);
    push_char(out, ':');
    out.append(t);
    push_char(out, ' ');
    proof {
        assert(final(out)@ =~= old(out)@ + render_text(t@));
    }
}

/// Reads the text field at position `i`, returning its contents and the
/// position just past its trailing space.
pub fn parse_text_exec(s: &str, n: usize, i: usize) -> (r: Option<(String, usize)>)
    requires
        n == s@.len(),
        i <= n,
    ensures
        match r {
            Some(p) => parse_text_at(s@, i as int) == Some((p.0@, p.1 as int)) && i < p.1 <= n,
            None => parse_text_at(s@, i as int) is None,
        },
{
    match parse_u64_exec(s, n, i) {
        None => None,
        Some((len, j)) => {
            if j == n {
                return None;
            }
            if s.get_char(j) != ':' {
                return None;
            }
            let rem = n - (j + 1);
            if len > rem as u64 {
                return None;
            }
            let l = len as usize;
            if l == rem {
                return None;
            }
            if s.get_char(j + 1 + l) != ' ' {
                return None;
            }
            let content = s.substring_char(j + 1, j + 1 + l).to_owned();
            Some((content, j + 2 + l))
        },
    }
}

// ---------------------------------------------------------------------------
// Item rows: one text and one timestamp
// ---------------------------------------------------------------------------

/// One row of the alphabet or of the blocked list.
pub open spec fn render_item(t: Seq<char>, time: u64) -> Seq<char> {
    render_text(t) + dec(time) + seq!['\n']
}

pub open spec fn parse_item_at(s: Seq<char>, i: int) -> Option<((Seq<char>, u64), int)> {
    match parse_text_at(s, i) {
        Some(p) => {
            let t = p.0;
            match parse_u64_at(s, p.1) {
                Some(q) => {
                    if q.1 < s.len() && s[q.1] == '\n' {
                        Some(((t, q.0), q.1 + 1))
                    } else {
                        None
                    }
                },
                None => None,
            }
        },
        None => None,
    }
}

pub proof fn lemma_parse_render_item(s: Seq<char>, i: int, t: Seq<char>, time: u64)
    requires
        0 <= i,
        t.len() <= u64::MAX,
        i + render_item(t, time).len() <= s.len(),
        s.subrange(i, i + render_item(t, time).len() as int) == render_item(t, time),
    ensures
        parse_item_at(s, i) == Some(((t, time), i + render_item(t, time).len() as int)),
        render_item(t, time).len() >= 5,
{
    let rt = render_text(t);
    let d = dec(time);
    let r = render_item(t, time);
    let rl = r.len() as int;
    lemma_dec_shape(time);
    lemma_dec_shape(t.len() as u64);
    assert(rl == rt.len() + d.len() + 1);
    assert forall|k: int| 0 <= k < rl implies s[i + k] == r[k] by {
        assert(s.subrange(i, i + rl)[k] == r[k]);
    }
    assert(s.subrange(i, i + rt.len() as int) =~= rt) by {
        assert forall|k: int| 0 <= k < rt.len() as int implies s.subrange(i, i + rt.len() as int)[k] == rt[k] by {
            assert(r[k] == rt[k]);
            assert(s[i + k] == r[k]);
        }
    }
    lemma_parse_render_text(s, i, t);
    let j = i + rt.len() as int;
    assert(s.subrange(j, j + d.len() as int) =~= d) by {
        assert forall|k: int| 0 <= k < d.len() as int implies s.subrange(j, j + d.len() as int)[k] == d[k] by {
            assert(r[rt.len() + k] == d[k]);
            assert(s[j + k] == r[rt.len() + k]);
        }
    }
    assert(s[j + d.len() as int] == r[rt.len() as int + d.len() as int]);
    assert(r[rt.len() as int + d.len() as int] == '\n');
    assert(!is_digit_char('\n'));
    lemma_parse_dec(s, j, time);
}

/// Appends one item row.
pub fn render_item_exec(t: &str, time: u64, out: &mut String)
    ensures
        final(out)@ == old(out)@ + render_item(t@, time),
{
    render_text_exec(t, out);
    render_u64(time, out);
    push_char(out, '\n');
    proof {
        assert(final(out)@ =~= old(out)@ + render_item(t@, time));
    }
}

/// Reads the item row at position `i`.
pub fn parse_item_exec(s: &str, n: usize, i: usize) -> (r: Option<(String, u64, usize)>)
    requires
        n == s@.len(),
        i <= n,
    ensures
        match r {
            Some(p) => parse_item_at(s@, i as int) == Some(((p.0@, p.1), p.2 as int)) && i < p.2 <= n,
            None => parse_item_at(s@, i as int) is None,
        },
{
    match parse_text_exec(s, n, i) {
        None => None,
        Some((t, j)) => {
            match parse_u64_exec(s, n, j) {
                None => None,
                Some((time, k)) => {
                    if k == n {
                        return None;
                    }
                    if s.get_char(k) != '\n' {
                        return None;
                    }
                    Some((t, time, k + 1))
                },
            }
        },
    }
}

// ---------------------------------------------------------------------------
// Item records: a sequence of item rows
// ---------------------------------------------------------------------------

pub open spec fn items_view(v: Seq<(String, u64)>) -> Seq<(Seq<char>, u64)> {
    v.map_values(|p: (String, u64)| (p.0@, p.1))
}

/// Every text of the record fits in a length field.
pub open spec fn wf_items(rows: Seq<(Seq<char>, u64)>) -> bool {
    forall|k: int| 0 <= k < rows.len() ==> (#[trigger] rows[k]).0.len() <= u64::MAX
}

pub open spec fn render_items(rows: Seq<(Seq<char>, u64)>) -> Seq<char>
    decreases rows.len(),
{
    if rows.len() == 0 {
        Seq::empty()
    } else {
        render_item(rows[0].0, rows[0].1) + render_items(rows.drop_first())
    }
}

pub open spec fn parse_items_at(s: Seq<char>, i: int) -> Option<Seq<(Seq<char>, u64)>>
    decreases s.len() - i,
{
    if i >= s.len() {
        if i == s.len() {
            Some(Seq::empty())
        } else {
            None
        }
    } else {
        match parse_item_at(s, i) {
            Some(p) => {
                if i < p.1 <= s.len() {
                    match parse_items_at(s, p.1) {
                        Some(rest) => Some(seq![p.0] + rest),
                        None => None,
                    }
                } else {
                    None
                }
            },
            None => None,
        }
    }
}

/// Parsing is the exact inverse of rendering for a whole item record.
pub proof fn lemma_parse_render_items(s: Seq<char>, i: int, rows: Seq<(Seq<char>, u64)>)
    requires
        0 <= i,
        wf_items(rows),
        i + render_items(rows).len() == s.len(),
        s.subrange(i, s.len() as int) == render_items(rows),
    ensures
        parse_items_at(s, i) == Some(rows),
    decreases rows.len(),
{
    if rows.len() == 0 {
        assert(i == s.len());
    } else {
        let r0 = render_item(rows[0].0, rows[0].1);
        let rest = render_items(rows.drop_first());
        assert(render_items(rows) == r0 + rest);
        assert forall|k: int| 0 <= k < render_items(rows).len() as int implies s[i + k] == render_items(rows)[k] by {
            assert(s.subrange(i, s.len() as int)[k] == render_items(rows)[k]);
        }
        assert(s.subrange(i, i + r0.len() as int) =~= r0) by {
            assert forall|k: int| 0 <= k < r0.len() as int implies s.subrange(i, i + r0.len() as int)[k] == r0[k] by {
                assert(render_items(rows)[k] == r0[k]);
                assert(s[i + k] == render_items(rows)[k]);
            }
        }
        lemma_parse_render_item(s, i, rows[0].0, rows[0].1);
        let j = i + r0.len() as int;
        assert(s.subrange(j, s.len() as int) =~= rest) by {
            assert forall|k: int| 0 <= k < rest.len() as int implies s.subrange(j, s.len() as int)[k] == rest[k] by {
                assert(render_items(rows)[r0.len() + k] == rest[k]);
                assert(s[j + k] == render_items(rows)[r0.len() + k]);
            }
        }
        assert(wf_items(rows.drop_first())) by {
            assert forall|k: int| 0 <= k < rows.drop_first().len() implies (#[trigger] rows.drop_first()[k]).0.len() <= u64::MAX by {
                assert(rows.drop_first()[k] == rows[k + 1]);
            }
        }
        lemma_parse_render_items(s, j, rows.drop_first());
        assert(seq![rows[0]] + rows.drop_first() =~= rows);
    }
}

proof fn lemma_render_items_push(rows: Seq<(Seq<char>, u64)>, t: Seq<char>, time: u64)
    ensures
        render_items(rows.push((t, time))) == render_items(rows) + render_item(t, time),
    decreases rows.len(),
{
    if rows.len() == 0 {
        assert(rows.push((t, time)).drop_first() =~= Seq::<(Seq<char>, u64)>::empty());
        assert(render_items(Seq::<(Seq<char>, u64)>::empty()) == Seq::<char>::empty());
        assert(rows.push((t, time))[0] == (t, time));
        assert(render_items(rows.push((t, time))) =~= render_item(t, time));
        assert(render_items(rows) + render_item(t, time) =~= render_item(t, time));
    } else {
        assert(rows.push((t, time)).drop_first() =~= rows.drop_first().push((t, time)));
        lemma_render_items_push(rows.drop_first(), t, time);
        assert(rows.push((t, time))[0] == rows[0]);
        assert(render_items(rows.push((t, time))) =~= render_items(rows) + render_item(t, time));
    }
}

/// Renders a whole item record.
pub fn render_items_exec(rows: &Vec<(String, u64)>) -> (r: String)
    ensures
        r@ == render_items(items_view(rows@)),
{
    let mut out = String::new();
    let mut i: usize = 0;
    proof {
        assert(items_view(rows@.take(0)) =~= Seq::<(Seq<char>, u64)>::empty());
    }
    while i < rows.len()
        invariant
            i <= rows.len(),
            out@ == render_items(items_view(rows@.take(i as int))),
        decreases rows.len() - i,
    {
        let ghost prev = items_view(rows@.take(i as int));
        render_item_exec(rows[i].0.as_str(), rows[i].1, &mut out);
        proof {
            assert(items_view(rows@.take(i as int + 1)) =~= prev.push((rows@[i as int].0@, rows@[i as int].1)));
            lemma_render_items_push(prev, rows@[i as int].0@, rows@[i as int].1);
        }
        i = i + 1;
    }
    proof {
        assert(rows@.take(rows@.len() as int) =~= rows@);
    }
    out
}

/// Reads a whole item record beginning at position `i`.
pub fn parse_items_exec(s: &str, n: usize, i: usize) -> (r: Option<Vec<(String, u64)>>)
    requires
        n == s@.len(),
        i <= n,
    ensures
        match r {
            Some(v) => parse_items_at(s@, i as int) == Some(items_view(v@)),
            None => parse_items_at(s@, i as int) is None,
        },
    decreases n - i,
{
    if i == n {
        let out: Vec<(String, u64)> = Vec::new();
        proof {
            assert(items_view(out@) =~= Seq::<(Seq<char>, u64)>::empty());
        }
        return Some(out);
    }
    match parse_item_exec(s, n, i) {
        None => None,
        Some((t, time, j)) => {
            match parse_items_exec(s, n, j) {
                None => None,
                Some(mut rest) => {
                    let ghost rest_rows = items_view(rest@);
                    rest.insert(0, (t, time));
                    proof {
                        assert(items_view(rest@) =~= seq![(t@, time)] + rest_rows);
                    }
                    Some(rest)
                },
            }
        },
    }
}

// ---------------------------------------------------------------------------
// Entry rows: a word, a translation and a timestamp
// ---------------------------------------------------------------------------

pub open spec fn entries_view(v: Seq<(String, String, u64)>) -> Seq<(Seq<char>, Seq<char>, u64)> {
    v.map_values(|p: (String, String, u64)| (p.0@, p.1@, p.2))
}

/// Every word and every translation of the record fits in a length field.
pub open spec fn wf_entries(rows: Seq<(Seq<char>, Seq<char>, u64)>) -> bool {
    forall|k: int| 0 <= k < rows.len()
        ==> (#[trigger] rows[k]).0.len() <= u64::MAX && rows[k].1.len() <= u64::MAX
}

/// One row of the translated-words record: the word field followed by an
/// item row for its translation.
pub open spec fn render_entry(w: Seq<char>, t: Seq<char>, time: u64) -> Seq<char> {
    render_text(w) + render_item(t, time)
}

pub open spec fn parse_entry_at(s: Seq<char>, i: int) -> Option<((Seq<char>, Seq<char>, u64), int)> {
    match parse_text_at(s, i) {
        Some(p) => {
            match parse_item_at(s, p.1) {
                Some(q) => Some(((p.0, q.0.0, q.0.1), q.1)),
                None => None,
            }
        },
        None => None,
    }
}

pub proof fn lemma_parse_render_entry(s: Seq<char>, i: int, w: Seq<char>, t: Seq<char>, time: u64)
    requires
        0 <= i,
        w.len() <= u64::MAX,
        t.len() <= u64::MAX,
        i + render_entry(w, t, time).len() <= s.len(),
        s.subrange(i, i + render_entry(w, t, time).len() as int) == render_entry(w, t, time),
    ensures
        parse_entry_at(s, i) == Some(((w, t, time), i + render_entry(w, t, time).len() as int)),
        render_entry(w, t, time).len() >= 1,
{
    let rw = render_text(w);
    let ri = render_item(t, time);
    let r = render_entry(w, t, time);
    let rl = r.len() as int;
    assert(rl == rw.len() + ri.len());
    assert forall|k: int| 0 <= k < rl implies s[i + k] == r[k] by {
        assert(s.subrange(i, i + rl)[k] == r[k]);
    }
    assert(s.subrange(i, i + rw.len() as int) =~= rw) by {
        assert forall|k: int| 0 <= k < rw.len() as int implies s.subrange(i, i + rw.len() as int)[k] == rw[k] by {
            assert(r[k] == rw[k]);
            assert(s[i + k] == r[k]);
        }
    }
    lemma_parse_render_text(s, i, w);
    let j = i + rw.len() as int;
    assert(s.subrange(j, j + ri.len() as int) =~= ri) by {
        assert forall|k: int| 0 <= k < ri.len() as int implies s.subrange(j, j + ri.len() as int)[k] == ri[k] by {
            assert(r[rw.len() + k] == ri[k]);
            assert(s[j + k] == r[rw.len() + k]);
        }
    }
    lemma_parse_render_item(s, j, t, time);
}

/// Appends one translated-word row.
pub fn render_entry_exec(w: &str, t: &str, time: u64, out: &mut String)
    ensures
        final(out)@ == old(out)@ + render_entry(w@, t@, time),
{
    render_text_exec(w, out);
    render_item_exec(t, time, out);
    proof {
        assert(final(out)@ =~= old(out)@ + render_entry(w@, t@, time));
    }
}

/// Reads the translated-word row at position `i`.
pub fn parse_entry_exec(s: &str, n: usize, i: usize) -> (r: Option<(String, String, u64, usize)>)
    requires
        n == s@.len(),
        i <= n,
    ensures
        match r {
            Some(p) => parse_entry_at(s@, i as int) == Some(((p.0@, p.1@, p.2), p.3 as int)) && i < p.3 <= n,
            None => parse_entry_at(s@, i as int) is None,
        },
{
    match parse_text_exec(s, n, i) {
        None => None,
        Some((w, j)) => {
            match parse_item_exec(s, n, j) {
                None => None,
                Some((t, time, k)) => Some((w, t, time, k)),
            }
        },
    }
}

// ---------------------------------------------------------------------------
// The translated-words record: a sequence of entry rows
// ---------------------------------------------------------------------------

pub open spec fn render_entries(rows: Seq<(Seq<char>, Seq<char>, u64)>) -> Seq<char>
    decreases rows.len(),
{
    if rows.len() == 0 {
        Seq::empty()
    } else {
        render_entry(rows[0].0, rows[0].1, rows[0].2) + render_entries(rows.drop_first())
    }
}

pub open spec fn parse_entries_at(s: Seq<char>, i: int) -> Option<Seq<(Seq<char>, Seq<char>, u64)>>
    decreases s.len() - i,
{
    if i >= s.len() {
        if i == s.len() {
            Some(Seq::empty())
        } else {
            None
        }
    } else {
        match parse_entry_at(s, i) {
            Some(p) => {
                if i < p.1 <= s.len() {
                    match parse_entries_at(s, p.1) {
                        Some(rest) => Some(seq![p.0] + rest),
                        None => None,
                    }
                } else {
                    None
                }
            },
            None => None,
        }
    }
}

/// Parsing is the exact inverse of rendering for the whole record.
pub proof fn lemma_parse_render_entries(s: Seq<char>, i: int, rows: Seq<(Seq<char>, Seq<char>, u64)>)
    requires
        0 <= i,
        wf_entries(rows),
        i + render_entries(rows).len() == s.len(),
        s.subrange(i, s.len() as int) == render_entries(rows),
    ensures
        parse_entries_at(s, i) == Some(rows),
    decreases rows.len(),
{
    if rows.len() == 0 {
        assert(i == s.len());
    } else {
        let r0 = render_entry(rows[0].0, rows[0].1, rows[0].2);
        let rest = render_entries(rows.drop_first());
        assert(render_entries(rows) == r0 + rest);
        assert forall|k: int| 0 <= k < render_entries(rows).len() as int implies s[i + k] == render_entries(rows)[k] by {
            assert(s.subrange(i, s.len() as int)[k] == render_entries(rows)[k]);
        }
        assert(s.subrange(i, i + r0.len() as int) =~= r0) by {
            assert forall|k: int| 0 <= k < r0.len() as int implies s.subrange(i, i + r0.len() as int)[k] == r0[k] by {
                assert(render_entries(rows)[k] == r0[k]);
                assert(s[i + k] == render_entries(rows)[k]);
            }
        }
        lemma_parse_render_entry(s, i, rows[0].0, rows[0].1, rows[0].2);
        let j = i + r0.len() as int;
        assert(s.subrange(j, s.len() as int) =~= rest) by {
            assert forall|k: int| 0 <= k < rest.len() as int implies s.subrange(j, s.len() as int)[k] == rest[k] by {
                assert(render_entries(rows)[r0.len() + k] == rest[k]);
                assert(s[j + k] == render_entries(rows)[r0.len() + k]);
            }
        }
        assert(wf_entries(rows.drop_first())) by {
            assert forall|k: int| 0 <= k < rows.drop_first().len() implies (#[trigger] rows.drop_first()[k]).0.len() <= u64::MAX
                && rows.drop_first()[k].1.len() <= u64::MAX by {
                assert(rows.drop_first()[k] == rows[k + 1]);
            }
        }
        lemma_parse_render_entries(s, j, rows.drop_first());
        assert(seq![rows[0]] + rows.drop_first() =~= rows);
    }
}

proof fn lemma_render_entries_push(rows: Seq<(Seq<char>, Seq<char>, u64)>, w: Seq<char>, t: Seq<char>, time: u64)
    ensures
        render_entries(rows.push((w, t, time))) == render_entries(rows) + render_entry(w, t, time),
    decreases rows.len(),
{
    if rows.len() == 0 {
        assert(rows.push((w, t, time)).drop_first() =~= Seq::<(Seq<char>, Seq<char>, u64)>::empty());
        assert(render_entries(Seq::<(Seq<char>, Seq<char>, u64)>::empty()) == Seq::<char>::empty());
        assert(rows.push((w, t, time))[0] == (w, t, time));
        assert(render_entries(rows.push((w, t, time))) =~= render_entry(w, t, time));
        assert(render_entries(rows) + render_entry(w, t, time) =~= render_entry(w, t, time));
    } else {
        assert(rows.push((w, t, time)).drop_first() =~= rows.drop_first().push((w, t, time)));
        lemma_render_entries_push(rows.drop_first(), w, t, time);
        assert(rows.push((w, t, time))[0] == rows[0]);
        assert(render_entries(rows.push((w, t, time))) =~= render_entries(rows) + render_entry(w, t, time));
    }
}

/// Renders the whole translated-words record.
pub fn render_entries_exec(rows: &Vec<(String, String, u64)>) -> (r: String)
    ensures
        r@ == render_entries(entries_view(rows@)),
{
    let mut out = String::new();
    let mut i: usize = 0;
    proof {
        assert(entries_view(rows@.take(0)) =~= Seq::<(Seq<char>, Seq<char>, u64)>::empty());
    }
    while i < rows.len()
        invariant
            i <= rows.len(),
            out@ == render_entries(entries_view(rows@.take(i as int))),
        decreases rows.len() - i,
    {
        let ghost prev = entries_view(rows@.take(i as int));
        render_entry_exec(rows[i].0.as_str(), rows[i].1.as_str(), rows[i].2, &mut out);
        proof {
            assert(entries_view(rows@.take(i as int + 1)) =~= prev.push((rows@[i as int].0@, rows@[i as int].1@, rows@[i as int].2)));
            lemma_render_entries_push(prev, rows@[i as int].0@, rows@[i as int].1@, rows@[i as int].2);
        }
        i = i + 1;
    }
    proof {
        assert(rows@.take(rows@.len() as int) =~= rows@);
    }
    out
}

/// Reads the whole translated-words record beginning at position `i`.
pub fn parse_entries_exec(s: &str, n: usize, i: usize) -> (r: Option<Vec<(String, String, u64)>>)
    requires
        n == s@.len(),
        i <= n,
    ensures
        match r {
            Some(v) => parse_entries_at(s@, i as int) == Some(entries_view(v@)),
            None => parse_entries_at(s@, i as int) is None,
        },
    decreases n - i,
{
    if i == n {
        let out: Vec<(String, String, u64)> = Vec::new();
        proof {
            assert(entries_view(out@) =~= Seq::<(Seq<char>, Seq<char>, u64)>::empty());
        }
        return Some(out);
    }
    match parse_entry_exec(s, n, i) {
        None => None,
        Some((w, t, time, j)) => {
            match parse_entries_exec(s, n, j) {
                None => None,
                Some(mut rest) => {
                    let ghost rest_rows = entries_view(rest@);
                    rest.insert(0, (w, t, time));
                    proof {
                        assert(entries_view(rest@) =~= seq![(w@, t@, time)] + rest_rows);
                    }
                    Some(rest)
                },
            }
        },
    }
}

} // verus!
