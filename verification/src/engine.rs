use vstd::prelude::*;

use crate::delim::Delimiters;
use crate::divert::{
    append_bytes, flush_model, undivert_model, write_model, DivView, DiversionStore,
};
use crate::errors::M4Error;
use crate::table::{bytes_eq, lookup_model, BindingModel, MacroTable, MacroValue, ValueModel};

verus! {

/// Scanner whitespace: space, tab, carriage return, newline.
pub open spec fn is_space(c: u8) -> bool {
    c == 32 || c == 9 || c == 13 || c == 10
}

/// Call-syntax punctuation: `(`, `)`, `,`.
pub open spec fn is_call_punct(c: u8) -> bool {
    c == 40 || c == 41 || c == 44
}

/// A byte that extends the current word under the given delimiters.
pub open spec fn is_word_byte(c: u8, d: Delimiters) -> bool {
    c != d.comment_start && c != d.quote_start && !is_space(c) && !is_call_punct(c)
}

/// The position just after the byte that closes a comment begun before `i`,
/// or the end of input when the comment is unterminated.
pub open spec fn find_comment_end(s: Seq<u8>, i: int, ce: u8) -> int
    decreases s.len() - i when 0 <= i <= s.len()
{
    if i >= s.len() {
        s.len() as int
    } else if s[i] == ce {
        i + 1
    } else {
        find_comment_end(s, i + 1, ce)
    }
}

/// The index of the quote-end byte that brings the nesting depth back to
/// zero, or the end of input when the quote is unterminated.
pub open spec fn find_quote_close(s: Seq<u8>, i: int, depth: nat, qs: u8, qe: u8) -> int
    decreases s.len() - i when 0 <= i <= s.len() && depth >= 1
{
    if i >= s.len() {
        s.len() as int
    } else if s[i] == qe {
        if depth == 1 {
            i
        } else {
            find_quote_close(s, i + 1, (depth - 1) as nat, qs, qe)
        }
    } else if s[i] == qs {
        find_quote_close(s, i + 1, depth + 1, qs, qe)
    } else {
        find_quote_close(s, i + 1, depth, qs, qe)
    }
}

/// Argument parsing, entered just after the `(` that follows a macro name:
/// arguments are the raw spans between top-level commas, up to the matching
/// top-level `)`; commas and parens nested in a deeper `(` or inside an
/// active quote do not count. Returns the arguments and the position just
/// after the closing `)` (end of input when unterminated).
pub open spec fn parse_args_model(
    s: Seq<u8>,
    i: int,
    pdepth: nat,
    cur: Seq<u8>,
    acc: Seq<Seq<u8>>,
    d: Delimiters,
) -> (Seq<Seq<u8>>, int)
    decreases s.len() - i when 0 <= i <= s.len() && pdepth >= 1
{
    if i >= s.len() {
        (acc.push(cur), s.len() as int)
    } else {
        let c = s[i];
        if c == d.quote_start {
            let q0 = find_quote_close(s, i + 1, 1, d.quote_start, d.quote_end);
            let q1 = if q0 + 1 > s.len() {
                s.len() as int
            } else {
                q0 + 1
            };
            let nxt = if q1 < i + 1 {
                i + 1
            } else {
                q1
            };
            parse_args_model(s, nxt, pdepth, cur + s.subrange(i, nxt), acc, d)
        } else if c == 40 {
            parse_args_model(s, i + 1, pdepth + 1, cur.push(c), acc, d)
        } else if c == 41 {
            if pdepth == 1 {
                (acc.push(cur), i + 1)
            } else {
                parse_args_model(s, i + 1, (pdepth - 1) as nat, cur.push(c), acc, d)
            }
        } else if c == 44 && pdepth == 1 {
            parse_args_model(s, i + 1, 1, Seq::<u8>::empty(), acc.push(cur), d)
        } else {
            parse_args_model(s, i + 1, pdepth, cur.push(c), acc, d)
        }
    }
}

pub proof fn lemma_parse_args_bounds(
    s: Seq<u8>,
    i: int,
    pdepth: nat,
    cur: Seq<u8>,
    acc: Seq<Seq<u8>>,
    d: Delimiters,
)
    requires
        0 <= i <= s.len(),
        pdepth >= 1,
    ensures
        i <= parse_args_model(s, i, pdepth, cur, acc, d).1 <= s.len(),
    decreases s.len() - i,
{
    if i >= s.len() {
    } else {
        let c = s[i];
        if c == d.quote_start {
            let q0 = find_quote_close(s, i + 1, 1, d.quote_start, d.quote_end);
            let q1 = if q0 + 1 > s.len() {
                s.len() as int
            } else {
                q0 + 1
            };
            let nxt = if q1 < i + 1 {
                i + 1
            } else {
                q1
            };
            lemma_parse_args_bounds(s, nxt, pdepth, cur + s.subrange(i, nxt), acc, d);
        } else if c == 40 {
            lemma_parse_args_bounds(s, i + 1, pdepth + 1, cur.push(c), acc, d);
        } else if c == 41 {
            if pdepth == 1 {
            } else {
                lemma_parse_args_bounds(s, i + 1, (pdepth - 1) as nat, cur.push(c), acc, d);
            }
        } else if c == 44 && pdepth == 1 {
            lemma_parse_args_bounds(s, i + 1, 1, Seq::<u8>::empty(), acc.push(cur), d);
        } else {
            lemma_parse_args_bounds(s, i + 1, pdepth, cur.push(c), acc, d);
        }
    }
}

/// The decimal digits of `n`, most significant first.
pub open spec fn nat_digits(n: nat) -> Seq<u8>
    decreases n,
{
    if n < 10 {
        seq![(48 + n) as u8]
    } else {
        nat_digits(n / 10).push((48 + n % 10) as u8)
    }
}

/// The arguments joined by commas.
pub open spec fn join_args(args: Seq<Seq<u8>>) -> Seq<u8>
    decreases args.len(),
{
    if args.len() == 0 {
        Seq::empty()
    } else if args.len() == 1 {
        args[0]
    } else {
        join_args(args.drop_last()) + seq![44u8] + args.last()
    }
}

/// Replacement-text substitution: `$0` is the invocation name, `$1`..`$9`
/// the supplied arguments (empty beyond the supplied count), `$#` the
/// decimal argument count, `$*` and `$@` the arguments joined by commas; a
/// `$` not followed by one of these is literal.
pub open spec fn subst_model(
    t: Seq<u8>,
    name: Seq<u8>,
    args: Seq<Seq<u8>>,
    i: int,
    acc: Seq<u8>,
) -> Seq<u8>
    decreases t.len() - i when 0 <= i <= t.len()
{
    if i >= t.len() {
        acc
    } else if t[i] == 36 && i + 1 < t.len() {
        let c = t[i + 1];
        if 48 <= c <= 57 {
            let k = (c - 48) as int;
            let rep = if k == 0 {
                name
            } else if k <= args.len() {
                args[k - 1]
            } else {
                Seq::<u8>::empty()
            };
            subst_model(t, name, args, i + 2, acc + rep)
        } else if c == 35 {
            subst_model(t, name, args, i + 2, acc + nat_digits(args.len()))
        } else if c == 42 || c == 64 {
            subst_model(t, name, args, i + 2, acc + join_args(args))
        } else {
            subst_model(t, name, args, i + 1, acc.push(36u8))
        }
    } else {
        subst_model(t, name, args, i + 1, acc.push(t[i]))
    }
}

/// A forgiving decimal read used by the diversion builtins: an optional
/// leading `-`, then digits up to the first non-digit, saturating at the
/// machine bounds; junk reads as 0.
pub open spec fn lenient_digits(s: Seq<u8>, i: int, v: int) -> int
    decreases s.len() - i when 0 <= i <= s.len() && 0 <= v <= i64::MAX
{
    if i >= s.len() {
        v
    } else if 48 <= s[i] <= 57 {
        let dg = (s[i] - 48) as int;
        if v > (i64::MAX - dg) / 10 {
            i64::MAX as int
        } else {
            lenient_digits(s, i + 1, v * 10 + dg)
        }
    } else {
        v
    }
}

pub open spec fn lenient_int(s: Seq<u8>) -> int {
    if s.len() > 0 && s[0] == 45 {
        -lenient_digits(s, 1, 0)
    } else {
        lenient_digits(s, 0, 0)
    }
}

/// The identifier of the builtin that selects the current diversion.
pub open spec fn divert_id() -> Seq<u8> {
    seq![100u8, 105u8, 118u8, 101u8, 114u8, 116u8]
}

/// The identifier of the builtin that drains a diversion (or, without an
/// argument, all of them).
pub open spec fn undivert_id() -> Seq<u8> {
    seq![117u8, 110u8, 100u8, 105u8, 118u8, 101u8, 114u8, 116u8]
}

/// Builtin dispatch: `divert` selects the current diversion from its first
/// argument, `undivert` drains the named diversion (or all of them); any
/// other identifier is a no-op on the store.
pub open spec fn builtin_model(id: Seq<u8>, args: Seq<Seq<u8>>, m: DivView) -> DivView {
    if id == divert_id() {
        let a = if args.len() > 0 {
            args[0]
        } else {
            Seq::<u8>::empty()
        };
        DivView { current: lenient_int(a), ..m }
    } else if id == undivert_id() {
        if args.len() > 0 {
            undivert_model(m, lenient_int(args[0]))
        } else {
            flush_model(m)
        }
    } else {
        m
    }
}

/// One top-level scan of `s` from `i`, with `tok` the word accumulated so
/// far: comments pass through verbatim, quoted literals lose exactly their
/// outermost delimiter pair and are never expanded, whitespace and
/// punctuation pass through, and completed words are resolved against the
/// macro table. `None` is the nesting guard firing.
pub open spec fn scan_model(
    s: Seq<u8>,
    i: int,
    tok: Seq<u8>,
    tbl: Seq<BindingModel>,
    d: Delimiters,
    m: DivView,
    depth: nat,
    limit: nat,
) -> Option<DivView>
    decreases limit - depth, s.len() - i, tok.len(), 1int
        when 0 <= i <= s.len() && depth <= limit
{
    if i >= s.len() {
        if tok.len() == 0 {
            Some(m)
        } else {
            resolve_model(s, i, tok, tbl, d, m, depth, limit)
        }
    } else {
        let c = s[i];
        if c == d.comment_start || c == d.quote_start || is_space(c) || is_call_punct(c) {
            if tok.len() > 0 {
                resolve_model(s, i, tok, tbl, d, m, depth, limit)
            } else if c == d.comment_start {
                let e0 = find_comment_end(s, i + 1, d.comment_end);
                let e = if e0 < i + 1 {
                    i + 1
                } else if e0 > s.len() {
                    s.len() as int
                } else {
                    e0
                };
                scan_model(s, e, tok, tbl, d, write_model(m, s.subrange(i, e)), depth, limit)
            } else if c == d.quote_start {
                let q0 = find_quote_close(s, i + 1, 1, d.quote_start, d.quote_end);
                let q = if q0 < i + 1 {
                    i + 1
                } else if q0 > s.len() {
                    s.len() as int
                } else {
                    q0
                };
                let nxt = if q + 1 > s.len() {
                    s.len() as int
                } else {
                    q + 1
                };
                scan_model(s, nxt, tok, tbl, d, write_model(m, s.subrange(i + 1, q)), depth, limit)
            } else {
                scan_model(s, i + 1, tok, tbl, d, write_model(m, seq![c]), depth, limit)
            }
        } else {
            scan_model(s, i + 1, tok.push(c), tbl, d, m, depth, limit)
        }
    }
}

/// Resolution of a completed word at position `i` (the byte after the word):
/// an unbound word passes through verbatim; a bound word is invoked, with
/// arguments when `(` immediately follows. A text macro's substitution is
/// re-scanned at one greater depth — `None` when that would exceed the
/// nesting limit — and a builtin dispatches on the diversion store.
pub open spec fn resolve_model(
    s: Seq<u8>,
    i: int,
    tok: Seq<u8>,
    tbl: Seq<BindingModel>,
    d: Delimiters,
    m: DivView,
    depth: nat,
    limit: nat,
) -> Option<DivView>
    decreases limit - depth, s.len() - i, tok.len(), 0int
        when 0 <= i <= s.len() && depth <= limit && tok.len() >= 1
{
    match lookup_model(tbl, tok) {
        None => scan_model(s, i, Seq::<u8>::empty(), tbl, d, write_model(m, tok), depth, limit),
        Some(v) => {
            let has_args = i < s.len() && s[i] == 40;
            let pr = parse_args_model(s, i + 1, 1, Seq::<u8>::empty(), Seq::<Seq<u8>>::empty(), d);
            let args = if has_args {
                pr.0
            } else {
                Seq::<Seq<u8>>::empty()
            };
            let j0 = if has_args {
                pr.1
            } else {
                i
            };
            let j = if j0 < i {
                i
            } else if j0 > s.len() {
                s.len() as int
            } else {
                j0
            };
            match v {
                ValueModel::Builtin(id) => scan_model(
                    s,
                    j,
                    Seq::<u8>::empty(),
                    tbl,
                    d,
                    builtin_model(id, args, m),
                    depth,
                    limit,
                ),
                ValueModel::Text(t) => {
                    if depth >= limit {
                        None
                    } else {
                        let sub = subst_model(t, tok, args, 0, Seq::<u8>::empty());
                        match scan_model(sub, 0, Seq::<u8>::empty(), tbl, d, m, depth + 1, limit) {
                            None => None,
                            Some(m2) => scan_model(
                                s,
                                j,
                                Seq::<u8>::empty(),
                                tbl,
                                d,
                                m2,
                                depth,
                                limit,
                            ),
                        }
                    }
                },
            }
        },
    }
}

/// One whole processing pass over an input: a top-level scan from the start
/// with an empty word and depth 0.
pub open spec fn process_model(
    s: Seq<u8>,
    tbl: Seq<BindingModel>,
    d: Delimiters,
    m: DivView,
    limit: nat,
) -> Option<DivView> {
    scan_model(s, 0, Seq::<u8>::empty(), tbl, d, m, 0, limit)
}

/// The views of a sequence of byte vectors.
pub open spec fn deep_view(vs: Seq<Vec<u8>>) -> Seq<Seq<u8>> {
    vs.map(|i: int, v: Vec<u8>| v@)
}

/// The bytes of `data` from `a` up to `b`.
pub fn copy_range(data: &Vec<u8>, a: usize, b: usize) -> (r: Vec<u8>)
    requires
        a <= b <= data@.len(),
    ensures
        r@ == data@.subrange(a as int, b as int),
{
    let mut r: Vec<u8> = Vec::new();
    let mut i: usize = a;
    while i < b
        invariant
            a <= i <= b <= data@.len(),
            r@ == data@.subrange(a as int, i as int),
        decreases b - i,
    {
        r.push(data[i]);
        proof {
            assert(data@.subrange(a as int, i + 1) =~= data@.subrange(a as int, i as int).push(
                data@[i as int],
            ));
        }
        i += 1;
    }
    proof {
        assert(r@ =~= data@.subrange(a as int, b as int));
    }
    r
}

/// Consumes a comment begun before `pos`: the index just after the first
/// `end` byte at or beyond `pos`, or the end of input.
pub fn skip_comment(data: &Vec<u8>, pos: usize, end: u8) -> (r: usize)
    requires
        pos <= data@.len(),
    ensures
        r == find_comment_end(data@, pos as int, end),
        pos <= r <= data@.len(),
{
    let n = data.len();
    let mut i: usize = pos;
    while i < n
        invariant
            pos <= i <= n == data@.len(),
            find_comment_end(data@, pos as int, end) == find_comment_end(data@, i as int, end),
        decreases n - i,
    {
        if data[i] == end {
            return i + 1;
        }
        i += 1;
    }
    n
}

/// The index of the quote-end byte closing the quote whose body starts at
/// `pos` at the given depth, or the end of input.
fn find_quote_close_exec(data: &Vec<u8>, pos: usize, qs: u8, qe: u8) -> (r: usize)
    requires
        1 <= pos <= data@.len(),
    ensures
        r == find_quote_close(data@, pos as int, 1, qs, qe),
        pos <= r <= data@.len(),
{
    let n = data.len();
    let mut i: usize = pos;
    let mut depth: u64 = 1;
    while i < n
        invariant
            pos <= i <= n == data@.len(),
            1 <= depth,
            depth + (n - i) <= u64::MAX,
            find_quote_close(data@, pos as int, 1, qs, qe) == find_quote_close(
                data@,
                i as int,
                depth as nat,
                qs,
                qe,
            ),
        decreases n - i,
    {
        let c = data[i];
        if c == qe {
            if depth == 1 {
                return i;
            }
            depth = depth - 1;
        } else if c == qs {
            depth = depth + 1;
        }
        i += 1;
    }
    n
}

/// The argument list following a macro name's `(`, as raw spans, and the
/// position just after the matching `)`.
fn parse_args_exec(data: &Vec<u8>, pos: usize, d: &Delimiters) -> (r: (Vec<Vec<u8>>, usize))
    requires
        1 <= pos <= data@.len(),
    ensures
        deep_view(r.0@) == parse_args_model(
            data@,
            pos as int,
            1,
            Seq::<u8>::empty(),
            Seq::<Seq<u8>>::empty(),
            *d,
        ).0,
        r.1 == parse_args_model(
            data@,
            pos as int,
            1,
            Seq::<u8>::empty(),
            Seq::<Seq<u8>>::empty(),
            *d,
        ).1,
        pos <= r.1 <= data@.len(),
    decreases data@.len() - pos,
{
    let n = data.len();
    let cur0: Vec<u8> = Vec::new();
    let acc0: Vec<Vec<u8>> = Vec::new();
    proof {
        assert(data@.len() == n <= usize::MAX);
        assert(cur0@ =~= Seq::<u8>::empty());
        assert(deep_view(acc0@) =~= Seq::<Seq<u8>>::empty());
    }
    parse_args_rec(data, pos, 1, cur0, acc0, d)
}

fn parse_args_rec(
    data: &Vec<u8>,
    pos: usize,
    pdepth: u64,
    cur: Vec<u8>,
    acc: Vec<Vec<u8>>,
    d: &Delimiters,
) -> (r: (Vec<Vec<u8>>, usize))
    requires
        1 <= pos <= data@.len(),
        pdepth >= 1,
        pdepth + (data@.len() - pos) <= u64::MAX,
    ensures
        deep_view(r.0@) == parse_args_model(
            data@,
            pos as int,
            pdepth as nat,
            cur@,
            deep_view(acc@),
            *d,
        ).0,
        r.1 == parse_args_model(data@, pos as int, pdepth as nat, cur@, deep_view(acc@), *d).1,
        pos <= r.1 <= data@.len(),
    decreases data@.len() - pos,
{
    proof {
        lemma_parse_args_bounds(data@, pos as int, pdepth as nat, cur@, deep_view(acc@), *d);
    }
    if pos >= data.len() {
        let mut acc2 = acc;
        let ghost acc_v = deep_view(acc2@);
        let ghost cur_v = cur@;
        acc2.push(cur);
        proof {
            assert(deep_view(acc2@) =~= acc_v.push(cur_v));
        }
        (acc2, data.len())
    } else {
        let c = data[pos];
        if c == d.quote_start {
            let q0 = find_quote_close_exec(data, pos + 1, d.quote_start, d.quote_end);
            let nxt: usize = if q0 >= data.len() {
                data.len()
            } else {
                q0 + 1
            };
            proof {
                assert(pos + 1 <= nxt <= data@.len());
            }
            let piece = copy_range(data, pos, nxt);
            let mut cur2 = cur;
            let ghost cur_v = cur2@;
            append_bytes(&mut cur2, &piece);
            proof {
                assert(cur2@ == cur_v + data@.subrange(pos as int, nxt as int));
            }
            parse_args_rec(data, nxt, pdepth, cur2, acc, d)
        } else if c == 40 {
            let mut cur2 = cur;
            cur2.push(c);
            parse_args_rec(data, pos + 1, pdepth + 1, cur2, acc, d)
        } else if c == 41 {
            if pdepth == 1 {
                let mut acc2 = acc;
                let ghost acc_v = deep_view(acc2@);
                let ghost cur_v = cur@;
                acc2.push(cur);
                proof {
                    assert(deep_view(acc2@) =~= acc_v.push(cur_v));
                }
                (acc2, pos + 1)
            } else {
                let mut cur2 = cur;
                cur2.push(c);
                parse_args_rec(data, pos + 1, pdepth - 1, cur2, acc, d)
            }
        } else if c == 44 && pdepth == 1 {
            let mut acc2 = acc;
            let ghost acc_v = deep_view(acc2@);
            let ghost cur_v = cur@;
            acc2.push(cur);
            proof {
                assert(deep_view(acc2@) =~= acc_v.push(cur_v));
            }
            parse_args_rec(data, pos + 1, 1, Vec::new(), acc2, d)
        } else {
            let mut cur2 = cur;
            cur2.push(c);
            parse_args_rec(data, pos + 1, pdepth, cur2, acc, d)
        }
    }
}

/// The decimal digits of `n`.
pub fn u64_digits(n: u64) -> (r: Vec<u8>)
    ensures
        r@ == nat_digits(n as nat),
    decreases n,
{
    if n < 10 {
        let mut r: Vec<u8> = Vec::new();
        r.push(48 + (n as u8));
        proof {
            assert(r@ =~= nat_digits(n as nat));
        }
        r
    } else {
        let mut r = u64_digits(n / 10);
        r.push(48 + ((n % 10) as u8));
        r
    }
}

/// The arguments joined by commas.
fn join_args_exec(args: &Vec<Vec<u8>>) -> (r: Vec<u8>)
    ensures
        r@ == join_args(deep_view(args@)),
{
    let mut r: Vec<u8> = Vec::new();
    let n = args.len();
    let mut k: usize = 0;
    while k < n
        invariant
            0 <= k <= n == args@.len(),
            r@ == join_args(deep_view(args@).take(k as int)),
        decreases n - k,
    {
        let ghost dv = deep_view(args@);
        proof {
            assert(dv.take(k + 1).drop_last() =~= dv.take(k as int));
            assert(dv.take(k + 1).last() == dv[k as int]);
            assert(dv[k as int] == args@[k as int]@);
        }
        if k > 0 {
            r.push(44);
        }
        append_bytes(&mut r, &args[k]);
        proof {
            if k == 0 {
                assert(join_args(dv.take(1)) == dv[0]);
                assert(r@ =~= join_args(dv.take(k + 1)));
            } else {
                assert(r@ =~= join_args(dv.take(k as int)) + seq![44u8] + dv[k as int]);
                assert(r@ =~= join_args(dv.take(k + 1)));
            }
        }
        k += 1;
    }
    proof {
        assert(deep_view(args@).take(n as int) =~= deep_view(args@));
    }
    r
}

/// A forgiving decimal read of a whole span, used by the diversion builtins.
pub fn lenient_int_exec(s: &Vec<u8>) -> (r: i64)
    ensures
        r as int == lenient_int(s@),
{
    if s.len() > 0 && s[0] == 45 {
        let v = lenient_digits_exec(s, 1, 0);
        -v
    } else {
        lenient_digits_exec(s, 0, 0)
    }
}

fn lenient_digits_exec(s: &Vec<u8>, i: usize, v: i64) -> (r: i64)
    requires
        i <= s@.len(),
        0 <= v,
    ensures
        r as int == lenient_digits(s@, i as int, v as int),
        0 <= r,
    decreases s@.len() - i,
{
    if i >= s.len() {
        v
    } else {
        let c = s[i];
        if 48 <= c && c <= 57 {
            let dg = (c - 48) as i64;
            if v > (i64::MAX - dg) / 10 {
                i64::MAX
            } else {
                lenient_digits_exec(s, i + 1, v * 10 + dg)
            }
        } else {
            v
        }
    }
}

/// Builtin dispatch against the diversion store: `divert`, `undivert`, and
/// silent acceptance of any other identifier.
fn apply_builtin(id: &Vec<u8>, args: &Vec<Vec<u8>>, div: &mut DiversionStore)
    ensures
        final(div)@ == builtin_model(id@, deep_view(args@), old(div)@),
{
    let mut divert_name: Vec<u8> = Vec::new();
    divert_name.push(100);
    divert_name.push(105);
    divert_name.push(118);
    divert_name.push(101);
    divert_name.push(114);
    divert_name.push(116);
    proof {
        assert(divert_name@ =~= divert_id());
    }
    let mut undivert_name: Vec<u8> = Vec::new();
    undivert_name.push(117);
    undivert_name.push(110);
    undivert_name.push(100);
    undivert_name.push(105);
    undivert_name.push(118);
    undivert_name.push(101);
    undivert_name.push(114);
    undivert_name.push(116);
    proof {
        assert(undivert_name@ =~= undivert_id());
    }
    if bytes_eq(id, &divert_name) {
        let a: i64 = if args.len() > 0 {
            proof {
                assert(deep_view(args@)[0] == args@[0]@);
            }
            lenient_int_exec(&args[0])
        } else {
            0
        };
        div.set_current(a);
    } else if bytes_eq(id, &undivert_name) {
        if args.len() > 0 {
            proof {
                assert(deep_view(args@)[0] == args@[0]@);
            }
            let a = lenient_int_exec(&args[0]);
            div.undivert(a);
        } else {
            div.flush_all();
        }
    }
}

/// The substitution of `name` and `args` into the replacement text `t`.
pub fn substitute(t: &Vec<u8>, name: &Vec<u8>, args: &Vec<Vec<u8>>) -> (r: Vec<u8>)
    ensures
        r@ == subst_model(t@, name@, deep_view(args@), 0, Seq::<u8>::empty()),
{
    subst_rec(t, name, args, 0, Vec::new())
}

fn subst_rec(t: &Vec<u8>, name: &Vec<u8>, args: &Vec<Vec<u8>>, i: usize, acc: Vec<u8>) -> (r:
    Vec<u8>)
    requires
        i <= t@.len(),
    ensures
        r@ == subst_model(t@, name@, deep_view(args@), i as int, acc@),
    decreases t@.len() - i,
{
    if i >= t.len() {
        acc
    } else {
        let c0 = t[i];
        if c0 == 36 && i + 1 < t.len() {
            let c = t[i + 1];
            if 48 <= c && c <= 57 {
                let k = (c - 48) as usize;
                let mut acc2 = acc;
                if k == 0 {
                    append_bytes(&mut acc2, name);
                } else if k <= args.len() {
                    proof {
                        assert(deep_view(args@)[k - 1] == args@[k - 1]@);
                    }
                    append_bytes(&mut acc2, &args[k - 1]);
                } else {
                    proof {
                        assert(acc2@ =~= acc@ + Seq::<u8>::empty());
                    }
                }
                subst_rec(t, name, args, i + 2, acc2)
            } else if c == 35 {
                let digits = u64_digits(args.len() as u64);
                let mut acc2 = acc;
                append_bytes(&mut acc2, &digits);
                subst_rec(t, name, args, i + 2, acc2)
            } else if c == 42 || c == 64 {
                let joined = join_args_exec(args);
                let mut acc2 = acc;
                append_bytes(&mut acc2, &joined);
                subst_rec(t, name, args, i + 2, acc2)
            } else {
                let mut acc2 = acc;
                acc2.push(36);
                subst_rec(t, name, args, i + 1, acc2)
            }
        } else {
            let mut acc2 = acc;
            acc2.push(c0);
            subst_rec(t, name, args, i + 1, acc2)
        }
    }
}

/// One top-level scan step of the expansion engine; mirrors `scan_model`.
fn scan_exec(
    data: &Vec<u8>,
    i: usize,
    tok: Vec<u8>,
    tbl: &MacroTable,
    d: &Delimiters,
    div: &mut DiversionStore,
    depth: u64,
    limit: u64,
) -> (r: Result<(), M4Error>)
    requires
        i <= data@.len(),
        depth <= limit,
    ensures
        match scan_model(
            data@,
            i as int,
            tok@,
            tbl@,
            *d,
            old(div)@,
            depth as nat,
            limit as nat,
        ) {
            Some(mm) => r is Ok && final(div)@ == mm,
            None => r == Err::<(), M4Error>(M4Error::NestingLimitExceeded),
        },
    decreases limit - depth, data@.len() - i, tok@.len(), 1int,
{
    if i >= data.len() {
        if tok.len() == 0 {
            Ok(())
        } else {
            resolve_exec(data, i, tok, tbl, d, div, depth, limit)
        }
    } else {
        let c = data[i];
        if c == d.comment_start || c == d.quote_start || c == 32 || c == 9 || c == 13 || c == 10
            || c == 40 || c == 41 || c == 44 {
            if tok.len() > 0 {
                resolve_exec(data, i, tok, tbl, d, div, depth, limit)
            } else if c == d.comment_start {
                let e = skip_comment(data, i + 1, d.comment_end);
                let piece = copy_range(data, i, e);
                div.write(&piece);
                scan_exec(data, e, tok, tbl, d, div, depth, limit)
            } else if c == d.quote_start {
                let q = find_quote_close_exec(data, i + 1, d.quote_start, d.quote_end);
                let nxt: usize = if q >= data.len() {
                    data.len()
                } else {
                    q + 1
                };
                let piece = copy_range(data, i + 1, q);
                div.write(&piece);
                scan_exec(data, nxt, tok, tbl, d, div, depth, limit)
            } else {
                let mut piece: Vec<u8> = Vec::new();
                piece.push(c);
                proof {
                    assert(piece@ =~= seq![c]);
                }
                div.write(&piece);
                scan_exec(data, i + 1, tok, tbl, d, div, depth, limit)
            }
        } else {
            let mut tok2 = tok;
            tok2.push(c);
            scan_exec(data, i + 1, tok2, tbl, d, div, depth, limit)
        }
    }
}

/// Resolution of a completed word; mirrors `resolve_model`.
fn resolve_exec(
    data: &Vec<u8>,
    i: usize,
    tok: Vec<u8>,
    tbl: &MacroTable,
    d: &Delimiters,
    div: &mut DiversionStore,
    depth: u64,
    limit: u64,
) -> (r: Result<(), M4Error>)
    requires
        i <= data@.len(),
        depth <= limit,
        tok@.len() >= 1,
    ensures
        match resolve_model(
            data@,
            i as int,
            tok@,
            tbl@,
            *d,
            old(div)@,
            depth as nat,
            limit as nat,
        ) {
            Some(mm) => r is Ok && final(div)@ == mm,
            None => r == Err::<(), M4Error>(M4Error::NestingLimitExceeded),
        },
    decreases limit - depth, data@.len() - i, tok@.len(), 0int,
{
    let looked = tbl.lookup(&tok);
    match looked {
        None => {
            div.write(&tok);
            scan_exec(data, i, Vec::new(), tbl, d, div, depth, limit)
        },
        Some(v) => {
            let has_args = i < data.len() && data[i] == 40;
            let (args, j): (Vec<Vec<u8>>, usize) = if has_args {
                parse_args_exec(data, i + 1, d)
            } else {
                (Vec::new(), i)
            };
            proof {
                if !has_args {
                    assert(deep_view(Seq::<Vec<u8>>::empty()) =~= Seq::<Seq<u8>>::empty());
                }
            }
            match v {
                MacroValue::Builtin(id) => {
                    apply_builtin(id, &args, div);
                    scan_exec(data, j, Vec::new(), tbl, d, div, depth, limit)
                },
                MacroValue::Text(t) => {
                    if depth >= limit {
                        Err(M4Error::NestingLimitExceeded)
                    } else {
                        let sub = substitute(t, &tok, &args);
                        let rr = scan_exec(&sub, 0, Vec::new(), tbl, d, div, depth + 1, limit);
                        match rr {
                            Err(e) => Err(e),
                            Ok(()) => scan_exec(data, j, Vec::new(), tbl, d, div, depth, limit),
                        }
                    }
                },
            }
        },
    }
}

/// Processes one whole input against the macro table and diversion store:
/// the executable face of `process_model`, with the nesting guard surfacing
/// as `NestingLimitExceeded`.
pub fn process_text(
    data: &Vec<u8>,
    table: &MacroTable,
    div: &mut DiversionStore,
    delims: &Delimiters,
    nesting_limit: u64,
) -> (r: Result<(), M4Error>)
    ensures
        match process_model(data@, table@, *delims, old(div)@, nesting_limit as nat) {
            Some(mm) => r is Ok && final(div)@ == mm,
            None => r == Err::<(), M4Error>(M4Error::NestingLimitExceeded),
        },
{
    scan_exec(data, 0, Vec::new(), table, delims, div, 0, nesting_limit)
}

} // verus!
