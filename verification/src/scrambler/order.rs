//! Lexicographic order on character sequences, the canonical sorted order of
//! the persisted records, and the sorted-insert used by the translation map.

use vstd::prelude::*;
use vstd::multiset::Multiset;
use vstd::seq_lib::lemma_multiset_commutative;

verus! {

broadcast use vstd::utf8::char_u32_cast;

// ---------------------------------------------------------------------------
// Lexicographic order by code point
// ---------------------------------------------------------------------------

pub open spec fn lex_le_from(a: Seq<char>, b: Seq<char>, i: int) -> bool
    decreases a.len() - i,
{
    if i < 0 || i >= a.len() {
        true
    } else if i >= b.len() {
        false
    } else if (a[i] as u32) < (b[i] as u32) {
        true
    } else if (a[i] as u32) > (b[i] as u32) {
        false
    } else {
        lex_le_from(a, b, i + 1)
    }
}

/// `a` is at or before `b` in lexicographic order by code point.
pub open spec fn lex_le(a: Seq<char>, b: Seq<char>) -> bool {
    lex_le_from(a, b, 0)
}

proof fn lemma_lex_total_from(a: Seq<char>, b: Seq<char>, i: int)
    ensures
        lex_le_from(a, b, i) || lex_le_from(b, a, i),
    decreases a.len() - i,
{
    if 0 <= i && i < a.len() && i < b.len() {
        if (a[i] as u32) == (b[i] as u32) {
            lemma_lex_total_from(a, b, i + 1);
            assert(lex_le_from(a, b, i) == lex_le_from(a, b, i + 1));
            assert(lex_le_from(b, a, i) == lex_le_from(b, a, i + 1));
        } else if (a[i] as u32) < (b[i] as u32) {
            assert(lex_le_from(a, b, i));
        } else {
            assert(lex_le_from(b, a, i));
        }
    } else if i < 0 || i >= a.len() {
        assert(lex_le_from(a, b, i));
    } else {
        assert(lex_le_from(b, a, i));
    }
}

pub proof fn lemma_lex_total(a: Seq<char>, b: Seq<char>)
    ensures
        lex_le(a, b) || lex_le(b, a),
{
    lemma_lex_total_from(a, b, 0);
}

proof fn lemma_lex_trans_from(a: Seq<char>, b: Seq<char>, c: Seq<char>, i: int)
    requires
        lex_le_from(a, b, i),
        lex_le_from(b, c, i),
    ensures
        lex_le_from(a, c, i),
    decreases a.len() - i,
{
    if i < 0 || i >= a.len() {
        assert(lex_le_from(a, c, i));
    } else {
        // `a` still has characters, so `b` and `c` do too
        assert(i < b.len());
        assert(i < c.len());
        if (a[i] as u32) < (b[i] as u32) {
            assert((b[i] as u32) <= (c[i] as u32));
            assert(lex_le_from(a, c, i));
        } else {
            assert((a[i] as u32) == (b[i] as u32));
            if (b[i] as u32) < (c[i] as u32) {
                assert(lex_le_from(a, c, i));
            } else {
                assert((b[i] as u32) == (c[i] as u32));
                lemma_lex_trans_from(a, b, c, i + 1);
                assert(lex_le_from(a, c, i) == lex_le_from(a, c, i + 1));
            }
        }
    }
}

pub proof fn lemma_lex_trans(a: Seq<char>, b: Seq<char>, c: Seq<char>)
    requires
        lex_le(a, b),
        lex_le(b, c),
    ensures
        lex_le(a, c),
{
    lemma_lex_trans_from(a, b, c, 0);
}

proof fn lemma_lex_antisym_from(a: Seq<char>, b: Seq<char>, i: int)
    requires
        0 <= i <= a.len(),
        i <= b.len(),
        lex_le_from(a, b, i),
        lex_le_from(b, a, i),
        forall|k: int| 0 <= k < i ==> a[k] == b[k],
    ensures
        a == b,
    decreases a.len() - i,
{
    if i == a.len() {
        assert(lex_le_from(b, a, i));
        if i < b.len() {
            assert(!lex_le_from(b, a, i));
            assert(false);
        }
        assert(a =~= b);
    } else {
        assert(lex_le_from(a, b, i));
        if i >= b.len() {
            assert(!lex_le_from(a, b, i));
            assert(false);
        }
        assert((a[i] as u32) <= (b[i] as u32));
        assert((b[i] as u32) <= (a[i] as u32));
        vstd::utf8::char_u32_cast(a[i], a[i] as u32);
        vstd::utf8::char_u32_cast(b[i], b[i] as u32);
        assert(a[i] == b[i]);
        lemma_lex_antisym_from(a, b, i + 1);
    }
}

pub proof fn lemma_lex_antisym(a: Seq<char>, b: Seq<char>)
    requires
        lex_le(a, b),
        lex_le(b, a),
    ensures
        a == b,
{
    lemma_lex_antisym_from(a, b, 0);
}

/// Compares two strings lexicographically by code point.
pub fn str_le(a: &str, b: &str) -> (r: bool)
    ensures
        r == lex_le(a@, b@),
{
    let an = a.unicode_len();
    let bn = b.unicode_len();
    let mut i: usize = 0;
    while i < an && i < bn
        invariant
            an == a@.len(),
            bn == b@.len(),
            i <= an,
            i <= bn,
            lex_le(a@, b@) == lex_le_from(a@, b@, i as int),
        decreases an - i,
    {
        let ca = a.get_char(i);
        let cb = b.get_char(i);
        if (ca as u32) < (cb as u32) {
            return true;
        }
        if (ca as u32) > (cb as u32) {
            return false;
        }
        proof {
            assert(a@[i as int] == ca && b@[i as int] == cb);
            assert(ca == cb);
        }
        i = i + 1;
    }
    i == an
}

// ---------------------------------------------------------------------------
// Sorting item rows by their text
// ---------------------------------------------------------------------------

pub open spec fn sorted_items(rows: Seq<(Seq<char>, u64)>) -> bool {
    forall|k: int| 0 <= k < rows.len() - 1 ==> lex_le((#[trigger] rows[k]).0, rows[k + 1].0)
}

/// Places `x` after every row whose text is at or before `x`'s.
pub open spec fn insert_item_sorted(x: (Seq<char>, u64), rows: Seq<(Seq<char>, u64)>) -> Seq<(Seq<char>, u64)>
    decreases rows.len(),
{
    if rows.len() == 0 {
        seq![x]
    } else if lex_le(rows[0].0, x.0) {
        seq![rows[0]] + insert_item_sorted(x, rows.drop_first())
    } else {
        seq![x] + rows
    }
}

/// The canonical sorted order of an item record.
pub open spec fn sort_items(rows: Seq<(Seq<char>, u64)>) -> Seq<(Seq<char>, u64)>
    decreases rows.len(),
{
    if rows.len() == 0 {
        Seq::empty()
    } else {
        insert_item_sorted(rows[0], sort_items(rows.drop_first()))
    }
}

proof fn lemma_insert_item_sorted(x: (Seq<char>, u64), rows: Seq<(Seq<char>, u64)>)
    requires
        sorted_items(rows),
    ensures
        sorted_items(insert_item_sorted(x, rows)),
        insert_item_sorted(x, rows).to_multiset() == rows.to_multiset().insert(x),
        insert_item_sorted(x, rows).len() == rows.len() + 1,
    decreases rows.len(),
{
    broadcast use vstd::seq_lib::group_to_multiset_ensures;

    let out = insert_item_sorted(x, rows);
    if rows.len() == 0 {
        assert(seq![x] =~= Seq::<(Seq<char>, u64)>::empty().push(x));
        assert(out.to_multiset() =~= rows.to_multiset().insert(x));
    } else if lex_le(rows[0].0, x.0) {
        assert(sorted_items(rows.drop_first())) by {
            assert(forall|k: int| 0 <= k < rows.drop_first().len() - 1
                ==> (#[trigger] rows.drop_first()[k]) == rows[k + 1] && rows.drop_first()[k + 1] == rows[k + 2]);
        }
        lemma_insert_item_sorted(x, rows.drop_first());
        let inner = insert_item_sorted(x, rows.drop_first());
        // the head stays at or before everything that follows it
        assert forall|k: int| 0 <= k < out.len() - 1 implies lex_le((#[trigger] out[k]).0, out[k + 1].0) by {
            if k == 0 {
                if rows.len() == 1 {
                    assert(inner =~= seq![x]);
                    assert(out[1] == x);
                } else if lex_le(rows.drop_first()[0].0, x.0) {
                    assert(inner[0] == rows.drop_first()[0]);
                    assert(out[1] == rows[1]);
                } else {
                    assert(inner[0] == x);
                    assert(out[1] == x);
                }
            } else {
                assert(out[k] == inner[k - 1] && out[k + 1] == inner[k]);
            }
        }
        assert(out =~= seq![rows[0]] + inner);
        lemma_multiset_commutative(seq![rows[0]], inner);
        assert(seq![rows[0]].to_multiset() =~= Multiset::<(Seq<char>, u64)>::empty().insert(rows[0])) by {
            assert(seq![rows[0]] =~= Seq::<(Seq<char>, u64)>::empty().push(rows[0]));
        }
        assert(rows =~= seq![rows[0]] + rows.drop_first());
        lemma_multiset_commutative(seq![rows[0]], rows.drop_first());
        assert(out.to_multiset() =~= rows.to_multiset().insert(x));
    } else {
        lemma_lex_total(rows[0].0, x.0);
        assert(lex_le(x.0, rows[0].0));
        assert forall|k: int| 0 <= k < out.len() - 1 implies lex_le((#[trigger] out[k]).0, out[k + 1].0) by {
            if k == 0 {
                assert(out[0] == x && out[1] == rows[0]);
            } else {
                assert(out[k] == rows[k - 1] && out[k + 1] == rows[k]);
            }
        }
        lemma_multiset_commutative(seq![x], rows);
        assert(seq![x].to_multiset() =~= Multiset::<(Seq<char>, u64)>::empty().insert(x)) by {
            assert(seq![x] =~= Seq::<(Seq<char>, u64)>::empty().push(x));
        }
        assert(out.to_multiset() =~= rows.to_multiset().insert(x));
    }
}

/// The canonical order is sorted and keeps exactly the given rows.
pub proof fn lemma_sort_items(rows: Seq<(Seq<char>, u64)>)
    ensures
        sorted_items(sort_items(rows)),
        sort_items(rows).to_multiset() == rows.to_multiset(),
        sort_items(rows).len() == rows.len(),
    decreases rows.len(),
{
    broadcast use vstd::seq_lib::group_to_multiset_ensures;

    if rows.len() > 0 {
        lemma_sort_items(rows.drop_first());
        lemma_insert_item_sorted(rows[0], sort_items(rows.drop_first()));
        assert(rows =~= seq![rows[0]] + rows.drop_first());
        lemma_multiset_commutative(seq![rows[0]], rows.drop_first());
        assert(seq![rows[0]].to_multiset() =~= Multiset::<(Seq<char>, u64)>::empty().insert(rows[0])) by {
            assert(seq![rows[0]] =~= Seq::<(Seq<char>, u64)>::empty().push(rows[0]));
        }
        assert(rows.to_multiset() =~= rows.drop_first().to_multiset().insert(rows[0]));
    }
}

/// Where the sorted insert places `x`: after the first `p` rows.
proof fn lemma_insert_item_at(x: (Seq<char>, u64), rows: Seq<(Seq<char>, u64)>, p: int)
    requires
        0 <= p <= rows.len(),
        forall|k: int| 0 <= k < p ==> lex_le((#[trigger] rows[k]).0, x.0),
        p < rows.len() ==> !lex_le(rows[p].0, x.0),
    ensures
        insert_item_sorted(x, rows) == rows.take(p) + seq![x] + rows.skip(p),
    decreases p,
{
    if rows.len() == 0 {
        assert(rows.take(0) + seq![x] + rows.skip(0) =~= seq![x]);
    } else if p == 0 {
        assert(!lex_le(rows[0].0, x.0));
        assert(rows.take(0) + seq![x] + rows.skip(0) =~= seq![x] + rows);
    } else {
        assert(lex_le(rows[0].0, x.0));
        assert(forall|k: int| 0 <= k < p - 1 ==> (#[trigger] rows.drop_first()[k]) == rows[k + 1]);
        assert(p - 1 < rows.drop_first().len() ==> rows.drop_first()[p - 1] == rows[p]);
        lemma_insert_item_at(x, rows.drop_first(), p - 1);
        assert(insert_item_sorted(x, rows)
            == seq![rows[0]] + (rows.drop_first().take(p - 1) + seq![x] + rows.drop_first().skip(p - 1)));
        assert(seq![rows[0]] + (rows.drop_first().take(p - 1) + seq![x] + rows.drop_first().skip(p - 1))
            =~= rows.take(p) + seq![x] + rows.skip(p));
    }
}

/// Sorts an item record into its canonical order.
pub fn sort_items_exec(rows: &Vec<(String, u64)>) -> (r: Vec<(String, u64)>)
    ensures
        super::codec::items_view(r@) == sort_items(super::codec::items_view(rows@)),
{
    let ghost all = super::codec::items_view(rows@);
    let mut out: Vec<(String, u64)> = Vec::new();
    let mut i: usize = rows.len();
    proof {
        assert(super::codec::items_view(rows@.skip(rows@.len() as int)) =~= Seq::<(Seq<char>, u64)>::empty());
        assert(super::codec::items_view(out@) =~= Seq::<(Seq<char>, u64)>::empty());
        assert(sort_items(super::codec::items_view(rows@.skip(rows@.len() as int)))
            == Seq::<(Seq<char>, u64)>::empty());
    }
    while i > 0
        invariant
            i <= rows.len(),
            super::codec::items_view(out@) == sort_items(super::codec::items_view(rows@.skip(i as int))),
        decreases i,
    {
        i = i - 1;
        let x = (rows[i].0.clone(), rows[i].1);
        let ghost xv = (rows@[i as int].0@, rows@[i as int].1);
        let ghost prev = super::codec::items_view(out@);
        // find the first row whose text is after the new one
        let mut p: usize = 0;
        while p < out.len() && str_le(out[p].0.as_str(), x.0.as_str())
            invariant
                p <= out.len(),
                x.0@ == xv.0,
                forall|k: int| 0 <= k < p ==> lex_le((#[trigger] super::codec::items_view(out@)[k]).0, xv.0),
            decreases out.len() - p,
        {
            proof {
                assert(super::codec::items_view(out@)[p as int].0 == out@[p as int].0@);
            }
            p = p + 1;
        }
        proof {
            if (p as int) < out@.len() {
                assert(super::codec::items_view(out@)[p as int].0 == out@[p as int].0@);
            }
        }
        proof {
            lemma_insert_item_at(xv, prev, p as int);
        }
        out.insert(p, x);
        proof {
            assert(super::codec::items_view(out@) =~= prev.take(p as int) + seq![xv] + prev.skip(p as int));
            assert(super::codec::items_view(rows@.skip(i as int)).drop_first()
                =~= super::codec::items_view(rows@.skip(i as int + 1)));
            assert(super::codec::items_view(rows@.skip(i as int))[0] == xv);
        }
    }
    proof {
        assert(rows@.skip(0) =~= rows@);
    }
    out
}

// ---------------------------------------------------------------------------
// The strictly sorted word entries of the translation map
// ---------------------------------------------------------------------------

pub open spec fn lex_lt(a: Seq<char>, b: Seq<char>) -> bool {
    lex_le(a, b) && a != b
}

/// Strictly ascending words: canonical order, and every word unique.
pub open spec fn sorted_entries(rows: Seq<(Seq<char>, Seq<char>, u64)>) -> bool {
    forall|k: int| 0 <= k < rows.len() - 1 ==> lex_lt((#[trigger] rows[k]).0, rows[k + 1].0)
}

/// The translation and timestamp stored for `w`, if any.
pub open spec fn find_entry(rows: Seq<(Seq<char>, Seq<char>, u64)>, w: Seq<char>) -> Option<(Seq<char>, u64)>
    decreases rows.len(),
{
    if rows.len() == 0 {
        None
    } else if rows[0].0 == w {
        Some((rows[0].1, rows[0].2))
    } else {
        find_entry(rows.drop_first(), w)
    }
}

/// `rows` with `(w, t, time)` put in place: an entry for `w` is replaced,
/// otherwise the new entry is inserted in word order.
pub open spec fn insert_entry(rows: Seq<(Seq<char>, Seq<char>, u64)>, w: Seq<char>, t: Seq<char>, time: u64) -> Seq<(Seq<char>, Seq<char>, u64)>
    decreases rows.len(),
{
    if rows.len() == 0 {
        seq![(w, t, time)]
    } else if rows[0].0 == w {
        seq![(w, t, time)] + rows.drop_first()
    } else if lex_le(rows[0].0, w) {
        seq![rows[0]] + insert_entry(rows.drop_first(), w, t, time)
    } else {
        seq![(w, t, time)] + rows
    }
}

proof fn lemma_sorted_entries_drop_first(rows: Seq<(Seq<char>, Seq<char>, u64)>)
    requires
        sorted_entries(rows),
        rows.len() > 0,
    ensures
        sorted_entries(rows.drop_first()),
{
    assert(forall|k: int| 0 <= k < rows.drop_first().len() - 1
        ==> (#[trigger] rows.drop_first()[k]) == rows[k + 1] && rows.drop_first()[k + 1] == rows[k + 2]);
}

/// Keeping or replacing an entry keeps the words strictly sorted, stores the
/// new translation under `w`, and leaves every other word's entry unchanged.
pub proof fn lemma_insert_entry(rows: Seq<(Seq<char>, Seq<char>, u64)>, w: Seq<char>, t: Seq<char>, time: u64)
    requires
        sorted_entries(rows),
    ensures
        sorted_entries(insert_entry(rows, w, t, time)),
        find_entry(insert_entry(rows, w, t, time), w) == Some((t, time)),
        forall|w2: Seq<char>| w2 != w ==> #[trigger] find_entry(insert_entry(rows, w, t, time), w2) == find_entry(rows, w2),
        insert_entry(rows, w, t, time).len() >= 1,
        insert_entry(rows, w, t, time)[0].0 == w || (rows.len() > 0 && insert_entry(rows, w, t, time)[0] == rows[0]),
        insert_entry(rows, w, t, time).len() <= rows.len() + 1,
    decreases rows.len(),
{
    let out = insert_entry(rows, w, t, time);
    if rows.len() == 0 {
        assert forall|w2: Seq<char>| w2 != w implies #[trigger] find_entry(out, w2) == find_entry(rows, w2) by {
            assert(out.drop_first() =~= Seq::<(Seq<char>, Seq<char>, u64)>::empty());
            assert(find_entry(Seq::<(Seq<char>, Seq<char>, u64)>::empty(), w2) is None);
            assert(find_entry(out, w2) is None);
        }
    } else if rows[0].0 == w {
        lemma_sorted_entries_drop_first(rows);
        assert forall|k: int| 0 <= k < out.len() - 1 implies lex_lt((#[trigger] out[k]).0, out[k + 1].0) by {
            if k == 0 {
                assert(out[1] == rows[1]);
                assert(lex_lt(rows[0].0, rows[1].0));
            } else {
                assert(out[k] == rows[k] && out[k + 1] == rows[k + 1]);
            }
        }
        assert(out.drop_first() =~= rows.drop_first());
        assert forall|w2: Seq<char>| w2 != w implies #[trigger] find_entry(out, w2) == find_entry(rows, w2) by {
            assert(find_entry(out, w2) == find_entry(out.drop_first(), w2));
            assert(find_entry(rows, w2) == find_entry(rows.drop_first(), w2));
        }
    } else if lex_le(rows[0].0, w) {
        lemma_sorted_entries_drop_first(rows);
        lemma_insert_entry(rows.drop_first(), w, t, time);
        let inner = insert_entry(rows.drop_first(), w, t, time);
        assert(out =~= seq![rows[0]] + inner);
        assert(lex_lt(rows[0].0, w));
        assert forall|k: int| 0 <= k < out.len() - 1 implies lex_lt((#[trigger] out[k]).0, out[k + 1].0) by {
            if k == 0 {
                assert(out[1] == inner[0]);
                if inner[0].0 == w {
                    assert(lex_lt(rows[0].0, inner[0].0));
                } else {
                    assert(rows.drop_first().len() > 0 && inner[0] == rows.drop_first()[0]);
                    assert(rows.drop_first()[0] == rows[1]);
                    assert(lex_lt(rows[0].0, rows[1].0));
                }
            } else {
                assert(out[k] == inner[k - 1] && out[k + 1] == inner[k]);
            }
        }
        assert(out.drop_first() =~= inner);
        assert(find_entry(out, w) == find_entry(inner, w));
        assert forall|w2: Seq<char>| w2 != w implies #[trigger] find_entry(out, w2) == find_entry(rows, w2) by {
            if w2 == rows[0].0 {
                assert(find_entry(out, w2) == Some((rows[0].1, rows[0].2)));
                assert(find_entry(rows, w2) == Some((rows[0].1, rows[0].2)));
            } else {
                assert(find_entry(out, w2) == find_entry(inner, w2));
                assert(find_entry(rows, w2) == find_entry(rows.drop_first(), w2));
            }
        }
    } else {
        lemma_lex_total(rows[0].0, w);
        assert(lex_le(w, rows[0].0));
        assert(out =~= seq![(w, t, time)] + rows);
        assert forall|k: int| 0 <= k < out.len() - 1 implies lex_lt((#[trigger] out[k]).0, out[k + 1].0) by {
            if k == 0 {
                assert(out[0].0 == w && out[1] == rows[0]);
                assert(lex_lt(w, rows[0].0));
            } else {
                assert(out[k] == rows[k - 1] && out[k + 1] == rows[k]);
            }
        }
        assert(out.drop_first() =~= rows);
        assert forall|w2: Seq<char>| w2 != w implies #[trigger] find_entry(out, w2) == find_entry(rows, w2) by {
            assert(find_entry(out, w2) == find_entry(out.drop_first(), w2));
        }
    }
}

/// Replacing the entry at `p`, whose word is `w`, is what the sorted insert does.
pub proof fn lemma_insert_entry_replace(rows: Seq<(Seq<char>, Seq<char>, u64)>, w: Seq<char>, t: Seq<char>, time: u64, p: int)
    requires
        0 <= p < rows.len(),
        rows[p].0 == w,
        forall|k: int| 0 <= k < p ==> lex_lt((#[trigger] rows[k]).0, w),
    ensures
        insert_entry(rows, w, t, time) == rows.update(p, (w, t, time)),
    decreases p,
{
    if p == 0 {
        assert(insert_entry(rows, w, t, time) == seq![(w, t, time)] + rows.drop_first());
        assert(seq![(w, t, time)] + rows.drop_first() =~= rows.update(0, (w, t, time)));
    } else {
        assert(lex_lt(rows[0].0, w));
        assert(forall|k: int| 0 <= k < p - 1 ==> (#[trigger] rows.drop_first()[k]) == rows[k + 1]);
        assert(rows.drop_first()[p - 1] == rows[p]);
        lemma_insert_entry_replace(rows.drop_first(), w, t, time, p - 1);
        assert(insert_entry(rows, w, t, time)
            == seq![rows[0]] + rows.drop_first().update(p - 1, (w, t, time)));
        assert(seq![rows[0]] + rows.drop_first().update(p - 1, (w, t, time)) =~= rows.update(p, (w, t, time)));
    }
}

/// Splicing the new entry in before position `p` is what the sorted insert
/// does when no earlier word matches.
pub proof fn lemma_insert_entry_splice(rows: Seq<(Seq<char>, Seq<char>, u64)>, w: Seq<char>, t: Seq<char>, time: u64, p: int)
    requires
        0 <= p <= rows.len(),
        forall|k: int| 0 <= k < p ==> lex_lt((#[trigger] rows[k]).0, w),
        p < rows.len() ==> rows[p].0 != w && !lex_le(rows[p].0, w),
    ensures
        insert_entry(rows, w, t, time) == rows.take(p) + seq![(w, t, time)] + rows.skip(p),
    decreases p,
{
    if rows.len() == 0 {
        assert(rows.take(0) + seq![(w, t, time)] + rows.skip(0) =~= seq![(w, t, time)]);
    } else if p == 0 {
        assert(rows[0].0 != w && !lex_le(rows[0].0, w));
        assert(rows.take(0) + seq![(w, t, time)] + rows.skip(0) =~= seq![(w, t, time)] + rows);
    } else {
        assert(lex_lt(rows[0].0, w));
        assert(rows[0].0 != w);
        assert(forall|k: int| 0 <= k < p - 1 ==> (#[trigger] rows.drop_first()[k]) == rows[k + 1]);
        assert(p - 1 < rows.drop_first().len() ==> rows.drop_first()[p - 1] == rows[p]);
        lemma_insert_entry_splice(rows.drop_first(), w, t, time, p - 1);
        assert(insert_entry(rows, w, t, time)
            == seq![rows[0]] + (rows.drop_first().take(p - 1) + seq![(w, t, time)] + rows.drop_first().skip(p - 1)));
        assert(seq![rows[0]] + (rows.drop_first().take(p - 1) + seq![(w, t, time)] + rows.drop_first().skip(p - 1))
            =~= rows.take(p) + seq![(w, t, time)] + rows.skip(p));
    }
}

/// The first matching entry determines the lookup.
pub proof fn lemma_find_entry_at(rows: Seq<(Seq<char>, Seq<char>, u64)>, w: Seq<char>, p: int)
    requires
        0 <= p < rows.len(),
        rows[p].0 == w,
        forall|k: int| 0 <= k < p ==> (#[trigger] rows[k]).0 != w,
    ensures
        find_entry(rows, w) == Some((rows[p].1, rows[p].2)),
    decreases p,
{
    if p > 0 {
        assert(rows[0].0 != w);
        assert(forall|k: int| 0 <= k < p - 1 ==> (#[trigger] rows.drop_first()[k]) == rows[k + 1]);
        assert(rows.drop_first()[p - 1] == rows[p]);
        lemma_find_entry_at(rows.drop_first(), w, p - 1);
    }
}

/// A word that no entry holds is not found.
pub proof fn lemma_find_entry_none(rows: Seq<(Seq<char>, Seq<char>, u64)>, w: Seq<char>)
    requires
        forall|k: int| 0 <= k < rows.len() ==> (#[trigger] rows[k]).0 != w,
    ensures
        find_entry(rows, w) is None,
    decreases rows.len(),
{
    if rows.len() > 0 {
        assert(forall|k: int| 0 <= k < rows.drop_first().len() ==> (#[trigger] rows.drop_first()[k]) == rows[k + 1]);
        lemma_find_entry_none(rows.drop_first(), w);
    }
}

// ---------------------------------------------------------------------------
// Distinct translations
// ---------------------------------------------------------------------------

/// Some entry stores `t` as its translation text.
pub open spec fn entries_have_text(rows: Seq<(Seq<char>, Seq<char>, u64)>, t: Seq<char>) -> bool {
    exists|k: int| 0 <= k < rows.len() && (#[trigger] rows[k]).1 == t
}

/// No two entries store the same translation text.
pub open spec fn entries_texts_distinct(rows: Seq<(Seq<char>, Seq<char>, u64)>) -> bool {
    forall|k1: int, k2: int| 0 <= k1 < k2 < rows.len() ==> (#[trigger] rows[k1]).1 != (#[trigger] rows[k2]).1
}

/// Adding a translation text that no entry already stores keeps the stored
/// translation texts pairwise distinct.  The entry for `w` itself may be
/// replaced; its old text drops out, so distinctness survives either way.
pub proof fn lemma_distinct_preserved(rows: Seq<(Seq<char>, Seq<char>, u64)>, w: Seq<char>, t: Seq<char>, time: u64)
    requires
        sorted_entries(rows),
        entries_texts_distinct(rows),
        !entries_have_text(rows, t),
    ensures
        entries_texts_distinct(insert_entry(rows, w, t, time)),
        entries_have_text(insert_entry(rows, w, t, time), t),
    decreases rows.len(),
{
    let out = insert_entry(rows, w, t, time);
    if rows.len() == 0 {
        assert(out[0].1 == t);
    } else if rows[0].0 == w {
        assert(out =~= seq![(w, t, time)] + rows.drop_first());
        assert forall|k1: int, k2: int| 0 <= k1 < k2 < out.len() implies (#[trigger] out[k1]).1 != (#[trigger] out[k2]).1 by {
            if k1 == 0 {
                assert(out[k2] == rows[k2]);
                assert(rows[k2].1 != t);
            } else {
                assert(out[k1] == rows[k1] && out[k2] == rows[k2]);
            }
        }
        assert(out[0].1 == t);
    } else if lex_le(rows[0].0, w) {
        lemma_sorted_entries_drop_first(rows);
        assert(!entries_have_text(rows.drop_first(), t)) by {
            if entries_have_text(rows.drop_first(), t) {
                let k = choose|k: int| 0 <= k < rows.drop_first().len() && (#[trigger] rows.drop_first()[k]).1 == t;
                assert(rows[k + 1].1 == t);
            }
        }
        assert(entries_texts_distinct(rows.drop_first())) by {
            assert forall|k1: int, k2: int| 0 <= k1 < k2 < rows.drop_first().len()
                implies (#[trigger] rows.drop_first()[k1]).1 != (#[trigger] rows.drop_first()[k2]).1 by {
                assert(rows.drop_first()[k1] == rows[k1 + 1] && rows.drop_first()[k2] == rows[k2 + 1]);
            }
        }
        lemma_distinct_preserved(rows.drop_first(), w, t, time);
        let inner = insert_entry(rows.drop_first(), w, t, time);
        assert(out =~= seq![rows[0]] + inner);
        // the head's text is not `t` and differs from every text of `inner`
        assert(rows[0].1 != t);
        assert forall|k1: int, k2: int| 0 <= k1 < k2 < out.len() implies (#[trigger] out[k1]).1 != (#[trigger] out[k2]).1 by {
            if k1 == 0 {
                assert(out[k2] == inner[k2 - 1]);
                lemma_insert_texts_origin(rows.drop_first(), w, t, time, k2 - 1);
                if inner[k2 - 1].1 == t {
                    assert(out[0].1 != t);
                } else {
                    assert(entries_have_text(rows.drop_first(), inner[k2 - 1].1));
                    let j = choose|j: int| 0 <= j < rows.drop_first().len() && (#[trigger] rows.drop_first()[j]).1 == inner[k2 - 1].1;
                    assert(rows[j + 1].1 == inner[k2 - 1].1);
                    assert(rows[0].1 != rows[j + 1].1);
                }
            } else {
                assert(out[k1] == inner[k1 - 1] && out[k2] == inner[k2 - 1]);
            }
        }
        assert(entries_have_text(inner, t));
        let j = choose|j: int| 0 <= j < inner.len() && (#[trigger] inner[j]).1 == t;
        assert(out[j + 1].1 == t);
    } else {
        assert(out =~= seq![(w, t, time)] + rows);
        assert forall|k1: int, k2: int| 0 <= k1 < k2 < out.len() implies (#[trigger] out[k1]).1 != (#[trigger] out[k2]).1 by {
            if k1 == 0 {
                assert(out[k2] == rows[k2 - 1]);
                assert(rows[k2 - 1].1 != t);
            } else {
                assert(out[k1] == rows[k1 - 1] && out[k2] == rows[k2 - 1]);
            }
        }
        assert(out[0].1 == t);
    }
}

/// Every text of the inserted record is the new text or one of the old ones.
proof fn lemma_insert_texts_origin(rows: Seq<(Seq<char>, Seq<char>, u64)>, w: Seq<char>, t: Seq<char>, time: u64, k: int)
    requires
        0 <= k < insert_entry(rows, w, t, time).len(),
    ensures
        insert_entry(rows, w, t, time)[k].1 == t || entries_have_text(rows, insert_entry(rows, w, t, time)[k].1),
    decreases rows.len(),
{
    let out = insert_entry(rows, w, t, time);
    if rows.len() == 0 {
    } else if rows[0].0 == w {
        if k > 0 {
            assert(out[k] == rows[k]);
            assert(entries_have_text(rows, rows[k].1));
        }
    } else if lex_le(rows[0].0, w) {
        let inner = insert_entry(rows.drop_first(), w, t, time);
        if k == 0 {
            assert(out[0] == rows[0]);
            assert(entries_have_text(rows, rows[0].1));
        } else {
            assert(out[k] == inner[k - 1]);
            lemma_insert_texts_origin(rows.drop_first(), w, t, time, k - 1);
            if inner[k - 1].1 != t {
                let j = choose|j: int| 0 <= j < rows.drop_first().len() && (#[trigger] rows.drop_first()[j]).1 == inner[k - 1].1;
                assert(rows[j + 1].1 == inner[k - 1].1);
                assert(entries_have_text(rows, rows[j + 1].1));
            }
        }
    } else {
        if k > 0 {
            assert(out[k] == rows[k - 1]);
            assert(entries_have_text(rows, rows[k - 1].1));
        }
    }
}

} // verus!
