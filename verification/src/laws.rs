use vstd::prelude::*;

use crate::delim::Delimiters;
use crate::divert::{write_model, DivView};
use crate::engine::{
    find_comment_end, find_quote_close, is_word_byte, process_model, resolve_model, scan_model,
    subst_model,
};
use crate::table::{lookup_model, BindingModel, ValueModel};

verus! {

/// The first `ce` byte at or after `i` stands at `e`: the comment scan stops
/// just past it.
proof fn lemma_find_comment_end_at(u: Seq<u8>, i: int, e: int, ce: u8)
    requires
        0 <= i <= e < u.len(),
        u[e] == ce,
        forall|j: int| i <= j < e ==> u[j] != ce,
    ensures
        find_comment_end(u, i, ce) == e + 1,
    decreases e - i,
{
    if i == e {
    } else {
        lemma_find_comment_end_at(u, i + 1, e, ce);
    }
}

/// With no quote delimiters between `i` and `e`, and a quote-end byte at
/// `e`, the quote scan at depth 1 closes exactly at `e`.
proof fn lemma_find_quote_close_at(u: Seq<u8>, i: int, e: int, qs: u8, qe: u8)
    requires
        0 <= i <= e < u.len(),
        u[e] == qe,
        forall|j: int| i <= j < e ==> u[j] != qs && u[j] != qe,
    ensures
        find_quote_close(u, i, 1, qs, qe) == e,
    decreases e - i,
{
    if i == e {
    } else {
        lemma_find_quote_close_at(u, i + 1, e, qs, qe);
    }
}

/// Comment transparency: scanning `comment_start + s + comment_end`, for `s`
/// without an embedded `comment_end`, writes exactly those bytes through
/// unchanged — delimiters kept, nothing expanded.
pub proof fn lemma_comment_transparency(
    s: Seq<u8>,
    tbl: Seq<BindingModel>,
    d: Delimiters,
    m: DivView,
    limit: nat,
)
    requires
        forall|j: int| 0 <= j < s.len() ==> s[j] != d.comment_end,
    ensures
        process_model(seq![d.comment_start] + s + seq![d.comment_end], tbl, d, m, limit)
            == Some(write_model(m, seq![d.comment_start] + s + seq![d.comment_end])),
{
    let t = seq![d.comment_start] + s + seq![d.comment_end];
    let n = s.len() as int;
    assert(t.len() == n + 2);
    assert(t[0] == d.comment_start);
    assert(t[n + 1] == d.comment_end);
    assert(forall|j: int| 1 <= j < n + 1 ==> t[j] == s[j - 1] && t[j] != d.comment_end);
    lemma_find_comment_end_at(t, 1, n + 1, d.comment_end);
    assert(find_comment_end(t, 1, d.comment_end) == n + 2);
    assert(t.subrange(0, t.len() as int) =~= t);
    assert(scan_model(t, 0, Seq::<u8>::empty(), tbl, d, m, 0, limit) == scan_model(
        t,
        t.len() as int,
        Seq::<u8>::empty(),
        tbl,
        d,
        write_model(m, t),
        0,
        limit,
    ));
}

/// Quote transparency: scanning `quote_start + s + quote_end`, for `s` that
/// contains neither quote delimiter, writes exactly `s` — one delimiter
/// layer stripped, nothing expanded, whatever macro names `s` may hold.
/// (When `quote_start` equals `comment_start` the comment rule wins instead,
/// so that case is excluded.)
pub proof fn lemma_quote_transparency(
    s: Seq<u8>,
    tbl: Seq<BindingModel>,
    d: Delimiters,
    m: DivView,
    limit: nat,
)
    requires
        d.quote_start != d.comment_start,
        forall|j: int| 0 <= j < s.len() ==> s[j] != d.quote_start && s[j] != d.quote_end,
    ensures
        process_model(seq![d.quote_start] + s + seq![d.quote_end], tbl, d, m, limit) == Some(
            write_model(m, s),
        ),
{
    let t = seq![d.quote_start] + s + seq![d.quote_end];
    let n = s.len() as int;
    assert(t.len() == n + 2);
    assert(t[0] == d.quote_start);
    assert(t[n + 1] == d.quote_end);
    assert(forall|j: int| 1 <= j < n + 1 ==> t[j] == s[j - 1] && t[j] != d.quote_start
        && t[j] != d.quote_end);
    lemma_find_quote_close_at(t, 1, n + 1, d.quote_start, d.quote_end);
    assert(find_quote_close(t, 1, 1, d.quote_start, d.quote_end) == n + 1);
    assert(t.subrange(1, n + 1) =~= s);
    assert(scan_model(t, 0, Seq::<u8>::empty(), tbl, d, m, 0, limit) == scan_model(
        t,
        t.len() as int,
        Seq::<u8>::empty(),
        tbl,
        d,
        write_model(m, s),
        0,
        limit,
    ));
}

/// Scanning a pure word accumulates it byte by byte: from position `i` with
/// the first `i` bytes already gathered, the scan ends as it does from the
/// end of the word.
proof fn lemma_scan_word_accum(
    w: Seq<u8>,
    i: int,
    tbl: Seq<BindingModel>,
    d: Delimiters,
    m: DivView,
    depth: nat,
    limit: nat,
)
    requires
        0 <= i <= w.len(),
        depth <= limit,
        forall|j: int| 0 <= j < w.len() ==> is_word_byte(#[trigger] w[j], d),
    ensures
        scan_model(w, i, w.take(i), tbl, d, m, depth, limit) == scan_model(
            w,
            w.len() as int,
            w,
            tbl,
            d,
            m,
            depth,
            limit,
        ),
    decreases w.len() - i,
{
    if i == w.len() {
        assert(w.take(i) =~= w);
    } else {
        assert(w.take(i).push(w[i]) =~= w.take(i + 1));
        lemma_scan_word_accum(w, i + 1, tbl, d, m, depth, limit);
    }
}

/// Substitution of a replacement text without `$` is the text itself.
proof fn lemma_subst_no_dollar(
    t: Seq<u8>,
    name: Seq<u8>,
    args: Seq<Seq<u8>>,
    i: int,
    acc: Seq<u8>,
)
    requires
        0 <= i <= t.len(),
        forall|j: int| 0 <= j < t.len() ==> t[j] != 36,
    ensures
        subst_model(t, name, args, i, acc) == acc + t.subrange(i, t.len() as int),
    decreases t.len() - i,
{
    if i == t.len() {
        assert(acc + t.subrange(i, t.len() as int) =~= acc);
    } else {
        lemma_subst_no_dollar(t, name, args, i + 1, acc.push(t[i]));
        assert(acc.push(t[i]) + t.subrange(i + 1, t.len() as int) =~= acc + t.subrange(
            i,
            t.len() as int,
        ));
    }
}

/// Nesting guard: a text macro whose most recent binding expands to its own
/// name, scanned as a whole input, fails at every depth within the limit —
/// the guard fires instead of recursing forever. (Termination itself is
/// intrinsic: every scan carries a decreasing measure.)
pub proof fn lemma_nesting_guard(
    name: Seq<u8>,
    tbl: Seq<BindingModel>,
    d: Delimiters,
    m: DivView,
    depth: nat,
    limit: nat,
)
    requires
        name.len() >= 1,
        forall|j: int| 0 <= j < name.len() ==> is_word_byte(#[trigger] name[j], d),
        forall|j: int| 0 <= j < name.len() ==> name[j] != 36,
        lookup_model(tbl, name) == Some(ValueModel::Text(name)),
        depth <= limit,
    ensures
        scan_model(name, 0, Seq::<u8>::empty(), tbl, d, m, depth, limit) is None,
    decreases limit - depth,
{
    assert(name.take(0) =~= Seq::<u8>::empty());
    lemma_scan_word_accum(name, 0, tbl, d, m, depth, limit);
    assert(scan_model(name, 0, Seq::<u8>::empty(), tbl, d, m, depth, limit) == resolve_model(
        name,
        name.len() as int,
        name,
        tbl,
        d,
        m,
        depth,
        limit,
    ));
    if depth >= limit {
    } else {
        lemma_subst_no_dollar(name, name, Seq::<Seq<u8>>::empty(), 0, Seq::<u8>::empty());
        assert(Seq::<u8>::empty() + name.subrange(0, name.len() as int) =~= name);
        lemma_nesting_guard(name, tbl, d, m, (depth + 1) as nat, limit);
    }
}

/// The nesting guard seen from the top of processing: the self-invoking
/// macro makes the whole pass fail with the nesting error for every limit.
pub proof fn lemma_nesting_guard_process(
    name: Seq<u8>,
    tbl: Seq<BindingModel>,
    d: Delimiters,
    m: DivView,
    limit: nat,
)
    requires
        name.len() >= 1,
        forall|j: int| 0 <= j < name.len() ==> is_word_byte(#[trigger] name[j], d),
        forall|j: int| 0 <= j < name.len() ==> name[j] != 36,
        lookup_model(tbl, name) == Some(ValueModel::Text(name)),
    ensures
        process_model(name, tbl, d, m, limit) is None,
{
    lemma_nesting_guard(name, tbl, d, m, 0, limit);
}

} // verus!
