use vstd::prelude::*;

use crate::codec::{
    decode_records, decode_top, encode_binding, encode_divs, encode_state, encode_table,
    int_digits, read_digits, read_int_model, reload_model, SnapModel,
};
use crate::delim::Delimiters;
use crate::divert::{div_content, grown_bufs, write_model, DivView};
use crate::engine::nat_digits;
use crate::table::{BindingModel, ValueModel};

verus! {

/// Ten to the `k`.
pub open spec fn pow10(k: nat) -> int
    decreases k,
{
    if k == 0 {
        1
    } else {
        10 * pow10((k - 1) as nat)
    }
}

proof fn lemma_pow10_pos(k: nat)
    ensures
        pow10(k) >= 1,
    decreases k,
{
    if k > 0 {
        lemma_pow10_pos((k - 1) as nat);
    }
}

/// Every byte of a decimal rendering is a digit, and there is at least one.
proof fn lemma_nat_digits_are_digits(n: nat)
    ensures
        nat_digits(n).len() >= 1,
        forall|j: int| 0 <= j < nat_digits(n).len() ==> 48 <= #[trigger] nat_digits(n)[j] <= 57,
    decreases n,
{
    if n < 10 {
    } else {
        lemma_nat_digits_are_digits(n / 10);
        assert(forall|j: int| 0 <= j < nat_digits(n / 10).len() ==> nat_digits(n)[j]
            == nat_digits(n / 10)[j]);
    }
}

proof fn lemma_block_arith(acc: int, p: int, m: int, d: int)
    by (nonlinear_arith)
    ensures
        (acc * p + m) * 10 + d == acc * (10 * p) + (10 * m + d),
{
}

proof fn lemma_block_bound(acc: int, p: int, m: int, d: int, cap: int)
    by (nonlinear_arith)
    requires
        acc >= 0,
        p >= 1,
        m >= 0,
        0 <= d <= 9,
        acc * (10 * p) + (10 * m + d) <= cap,
    ensures
        acc * p + m <= cap,
        (acc * p + m) * 10 + d <= cap,
{
}

/// Reading a decimal block moves the scan past it and folds its value into
/// the accumulator.
proof fn lemma_read_digit_block(s: Seq<u8>, i: int, n: nat, sep: u8, acc: int)
    requires
        0 <= i,
        i + nat_digits(n).len() <= s.len(),
        forall|j: int| 0 <= j < nat_digits(n).len() ==> s[i + j] == nat_digits(n)[j],
        !(48 <= sep <= 57),
        0 <= acc,
        acc * pow10(nat_digits(n).len()) + n <= i64::MAX,
    ensures
        read_digits(s, i, sep, acc) == read_digits(
            s,
            i + nat_digits(n).len(),
            sep,
            acc * pow10(nat_digits(n).len()) + n,
        ),
    decreases n,
{
    let digits = nat_digits(n);
    let ll = digits.len();
    lemma_nat_digits_are_digits(n);
    lemma_pow10_pos(ll);
    if n < 10 {
        assert(digits == seq![(48 + n) as u8]);
        assert(s[i + 0] == digits[0]);
        assert(s[i] == (48 + n) as u8);
        assert(pow10(0) == 1);
        assert(pow10(1) == 10);
        assert(acc * pow10(1) + n == acc * 10 + n) by (nonlinear_arith)
            requires pow10(1) == 10;
        assert(acc * 10 + n <= i64::MAX);
        assert(acc <= (i64::MAX - n) / 10);
        assert(read_digits(s, i, sep, acc) == read_digits(s, i + 1, sep, acc * 10 + n as int));
    } else {
        let m = n / 10;
        let d = n % 10;
        let sub = nat_digits(m);
        let l1 = sub.len();
        assert(digits == sub.push((48 + d) as u8));
        assert(ll == l1 + 1);
        lemma_nat_digits_are_digits(m);
        lemma_pow10_pos(l1);
        assert(forall|j: int| 0 <= j < l1 ==> digits[j] == sub[j]);
        assert(forall|j: int| 0 <= j < l1 ==> s[i + j] == sub[j]);
        assert(pow10(ll) == 10 * pow10(l1));
        lemma_block_arith(acc, pow10(l1), m as int, d as int);
        lemma_block_bound(acc, pow10(l1), m as int, d as int, i64::MAX as int);
        let acc2 = acc * pow10(l1) + m;
        lemma_read_digit_block(s, i, m, sep, acc);
        assert(s[i + l1] == digits[l1 as int]);
        assert(digits[l1 as int] == (48 + d) as u8);
        assert(s[i + l1] == (48 + d) as u8);
        assert(acc2 * 10 + d <= i64::MAX);
        assert(acc2 <= (i64::MAX - d) / 10);
        assert(read_digits(s, i + l1, sep, acc2) == read_digits(
            s,
            i + l1 + 1,
            sep,
            acc2 * 10 + d,
        ));
        assert(acc2 * 10 + d == acc * pow10(ll) + n);
    }
}

/// A rendered non-negative number followed by its separator reads back as
/// itself.
proof fn lemma_read_number(s: Seq<u8>, i: int, n: nat, sep: u8)
    requires
        0 <= i,
        i + nat_digits(n).len() + 1 <= s.len(),
        forall|j: int| 0 <= j < nat_digits(n).len() ==> s[i + j] == nat_digits(n)[j],
        s[i + nat_digits(n).len()] == sep,
        !(48 <= sep <= 57),
        sep != 45,
        n <= i64::MAX,
    ensures
        read_int_model(s, i, sep) == Some((n as int, i + nat_digits(n).len() + 1)),
{
    let ll = nat_digits(n).len();
    lemma_nat_digits_are_digits(n);
    lemma_pow10_pos(ll);
    assert(s[i + 0] == nat_digits(n)[0]);
    assert(s[i] != 45);
    assert(0 * pow10(ll) + n <= i64::MAX) by (nonlinear_arith)
        requires n <= i64::MAX, pow10(ll) >= 1;
    lemma_read_digit_block(s, i, n, sep, 0);
    assert(0 * pow10(ll) + n == n) by (nonlinear_arith);
    assert(read_digits(s, i + ll, sep, n as int) == Some((n as int, i + ll + 1)));
}

/// A rendered negative-or-positive field followed by its separator reads
/// back as itself.
proof fn lemma_read_int_field(s: Seq<u8>, i: int, v: int, sep: u8)
    requires
        0 <= i,
        -(i64::MAX as int) <= v <= i64::MAX,
        i + int_digits(v).len() + 1 <= s.len(),
        forall|j: int| 0 <= j < int_digits(v).len() ==> #[trigger] s[i + j] == int_digits(v)[j],
        s[i + int_digits(v).len()] == sep,
        !(48 <= sep <= 57),
        sep != 45,
    ensures
        read_int_model(s, i, sep) == Some((v, i + int_digits(v).len() + 1)),
{
    if v >= 0 {
        assert(int_digits(v) == nat_digits(v as nat));
        lemma_read_number(s, i, v as nat, sep);
    } else {
        let mag = (-v) as nat;
        let digits = nat_digits(mag);
        let ll = digits.len();
        assert(int_digits(v) == seq![45u8] + digits);
        assert(int_digits(v).len() == ll + 1);
        assert(s[i + 0] == int_digits(v)[0]);
        assert(s[i] == 45);
        assert forall|j: int| 0 <= j < ll implies #[trigger] s[i + 1 + j] == digits[j] by {
            assert(s[i + (1 + j)] == int_digits(v)[1 + j]);
            assert(int_digits(v)[1 + j] == digits[j]);
        }
        lemma_nat_digits_are_digits(mag);
        lemma_pow10_pos(ll);
        assert(0 * pow10(ll) + mag <= i64::MAX) by (nonlinear_arith)
            requires mag <= i64::MAX, pow10(ll) >= 1;
        lemma_read_digit_block(s, i + 1, mag, sep, 0);
        assert(0 * pow10(ll) + mag == mag) by (nonlinear_arith);
        assert(s[i + 1 + ll] == sep);
        assert(read_digits(s, i + 1 + ll, sep, mag as int) == Some((mag as int, i + 1 + ll + 1)));
    }
}

/// The bytes of `r` stand in `s` at offset `i`.
pub open spec fn bytes_at(s: Seq<u8>, i: int, r: Seq<u8>) -> bool {
    &&& 0 <= i
    &&& i + r.len() <= s.len()
    &&& forall|j: int| 0 <= j < r.len() ==> #[trigger] s[i + j] == r[j]
}

/// Bytes of a concatenation split into bytes of the parts.
proof fn lemma_bytes_at_concat(s: Seq<u8>, i: int, a: Seq<u8>, b: Seq<u8>)
    requires
        bytes_at(s, i, a + b),
    ensures
        bytes_at(s, i, a),
        bytes_at(s, i + a.len(), b),
{
    assert forall|j: int| 0 <= j < a.len() implies #[trigger] s[i + j] == a[j] by {
        assert(s[i + j] == (a + b)[j]);
    }
    assert forall|j: int| 0 <= j < b.len() implies #[trigger] s[i + a.len() + j] == b[j] by {
        assert(s[i + (a.len() + j)] == (a + b)[a.len() + j]);
        assert((a + b)[a.len() + j] == b[j]);
    }
}

/// A comment-start byte that cannot shadow any record tag.
pub open spec fn comment_start_clear(cs: u8) -> bool {
    cs != 67 && cs != 68 && cs != 70 && cs != 81 && cs != 84 && cs != 86
}

/// The encoding of the quote-delimiter record.
pub open spec fn quote_record(qs: u8, qe: u8) -> Seq<u8> {
    seq![81u8, 49u8, 44u8, 49u8, 10u8, qs, qe, 10u8]
}

/// The encoding of the comment-delimiter record.
pub open spec fn comment_record(cs: u8, ce: u8) -> Seq<u8> {
    seq![67u8, 49u8, 44u8, 49u8, 10u8, cs, ce, 10u8]
}

/// Consuming a `Q` record installs the encoded quote delimiters.
proof fn lemma_step_quote(s: Seq<u8>, i: int, st: SnapModel, qs: u8, qe: u8)
    requires
        bytes_at(s, i, quote_record(qs, qe)),
        st.delims.comment_start != 81,
    ensures
        decode_records(s, i, st) == decode_records(
            s,
            i + 8,
            SnapModel {
                delims: Delimiters { quote_start: qs, quote_end: qe, ..st.delims },
                ..st
            },
        ),
{
    assert(s[i + 0] == 81);
    assert(s[i + 1] == 49);
    assert(s[i + 2] == 44);
    assert(s[i + 3] == 49);
    assert(s[i + 4] == 10);
    assert(s[i + 5] == qs);
    assert(s[i + 6] == qe);
    assert(s[i + 7] == 10);
    assert(nat_digits(1) == seq![49u8]);
    assert forall|j: int| 0 <= j < 1 implies #[trigger] s[i + 1 + j] == nat_digits(1nat)[j] by {
        assert(s[i + (1 + j)] == 49);
    }
    lemma_read_number(s, i + 1, 1nat, 44);
    assert(read_int_model(s, i + 1, 44) == Some((1int, i + 3)));
    assert forall|j: int| 0 <= j < 1 implies #[trigger] s[i + 3 + j] == nat_digits(1nat)[j] by {
        assert(s[i + (3 + j)] == 49);
    }
    lemma_read_number(s, i + 3, 1nat, 10);
    assert(read_int_model(s, i + 3, 10) == Some((1int, i + 5)));
}

/// Consuming a `C` record installs the encoded comment delimiters.
proof fn lemma_step_comment(s: Seq<u8>, i: int, st: SnapModel, cs: u8, ce: u8)
    requires
        bytes_at(s, i, comment_record(cs, ce)),
        st.delims.comment_start != 67,
    ensures
        decode_records(s, i, st) == decode_records(
            s,
            i + 8,
            SnapModel {
                delims: Delimiters { comment_start: cs, comment_end: ce, ..st.delims },
                ..st
            },
        ),
{
    assert(s[i + 0] == 67);
    assert(s[i + 1] == 49);
    assert(s[i + 2] == 44);
    assert(s[i + 3] == 49);
    assert(s[i + 4] == 10);
    assert(s[i + 5] == cs);
    assert(s[i + 6] == ce);
    assert(s[i + 7] == 10);
    assert(nat_digits(1) == seq![49u8]);
    assert forall|j: int| 0 <= j < 1 implies #[trigger] s[i + 1 + j] == nat_digits(1nat)[j] by {
        assert(s[i + (1 + j)] == 49);
    }
    lemma_read_number(s, i + 1, 1nat, 44);
    assert forall|j: int| 0 <= j < 1 implies #[trigger] s[i + 3 + j] == nat_digits(1nat)[j] by {
        assert(s[i + (3 + j)] == 49);
    }
    lemma_read_number(s, i + 3, 1nat, 10);
}

/// Consuming a `T` or `F` record appends the encoded binding.
proof fn lemma_step_binding(s: Seq<u8>, i: int, st: SnapModel, b: BindingModel)
    requires
        bytes_at(s, i, encode_binding(b)),
        st.delims.comment_start != 84,
        st.delims.comment_start != 70,
        b.name.len() <= i64::MAX,
        value_of(b).len() <= i64::MAX,
    ensures
        decode_records(s, i, st) == decode_records(
            s,
            i + encode_binding(b).len(),
            SnapModel { tbl: st.tbl.push(b), ..st },
        ),
{
    let tag: u8 = if b.value is Text { 84 } else { 70 };
    let val = value_of(b);
    let nd = nat_digits(b.name.len());
    let vd = nat_digits(val.len());
    let l1 = nd.len();
    let l2 = vd.len();
    let nl = b.name.len() as int;
    let vl = val.len() as int;
    let rec = encode_binding(b);
    let p1 = seq![tag] + nd;
    let p2 = p1 + seq![44u8];
    let p3 = p2 + vd;
    let p4 = p3 + seq![10u8];
    let p5 = p4 + b.name;
    let p6 = p5 + val;
    assert(rec == p6 + seq![10u8]);
    lemma_bytes_at_concat(s, i, p6, seq![10u8]);
    lemma_bytes_at_concat(s, i, p5, val);
    lemma_bytes_at_concat(s, i, p4, b.name);
    lemma_bytes_at_concat(s, i, p3, seq![10u8]);
    lemma_bytes_at_concat(s, i, p2, vd);
    lemma_bytes_at_concat(s, i, p1, seq![44u8]);
    lemma_bytes_at_concat(s, i, seq![tag], nd);
    assert(s[i + 0] == tag);
    assert(s[i + 1 + l1] == 44);
    assert(s[i + (2 + l1) + l2] == 10);
    lemma_nat_digits_are_digits(b.name.len());
    lemma_nat_digits_are_digits(val.len());
    assert(s[(i + 1) + l1] == 44);
    lemma_read_number(s, i + 1, b.name.len(), 44);
    assert(read_int_model(s, i + 1, 44) == Some((nl, i + 2 + l1)));
    assert(s[(i + 2 + l1) + l2] == 10);
    lemma_read_number(s, i + 2 + l1, val.len(), 10);
    assert(read_int_model(s, i + 2 + l1, 10) == Some((vl, i + 3 + l1 + l2)));
    let q = i + 3 + l1 + l2;
    assert(rec.len() == 3 + l1 + l2 + nl + vl + 1);
    assert(q + nl + vl + 1 == i + rec.len());
    assert(s[q + nl + vl] == 10) by {
        assert(s[(i + p6.len()) + 0] == 10);
    }
    assert(s.subrange(q, q + nl) =~= b.name) by {
        assert(forall|j: int| 0 <= j < nl ==> #[trigger] s[q + j] == b.name[j]);
        assert forall|j: int| 0 <= j < nl implies s.subrange(q, q + nl)[j] == b.name[j] by {
            assert(s[q + j] == b.name[j]);
        }
    }
    assert(s.subrange(q + nl, q + nl + vl) =~= val) by {
        assert forall|j: int| 0 <= j < vl implies s.subrange(q + nl, q + nl + vl)[j] == val[j] by {
            assert(s[(q + nl) + j] == val[j]);
        }
    }
    if b.value is Text {
        assert(ValueModel::Text(s.subrange(q + nl, q + nl + vl)) == b.value);
    } else {
        assert(ValueModel::Builtin(s.subrange(q + nl, q + nl + vl)) == b.value);
    }
    assert(BindingModel {
        name: s.subrange(q, q + nl),
        value: if s[i] == 84 {
            ValueModel::Text(s.subrange(q + nl, q + nl + vl))
        } else {
            ValueModel::Builtin(s.subrange(q + nl, q + nl + vl))
        },
    } == b);
}

/// The value bytes of a binding, whichever constructor holds them.
pub open spec fn value_of(b: BindingModel) -> Seq<u8> {
    match b.value {
        ValueModel::Text(t) => t,
        ValueModel::Builtin(bb) => bb,
    }
}

/// The encoding of one non-empty diversion buffer.
pub open spec fn div_record(k: int, content: Seq<u8>) -> Seq<u8> {
    seq![68u8] + nat_digits((k + 1) as nat) + seq![44u8] + nat_digits(content.len()) + seq![10u8]
        + content + seq![10u8]
}

/// Consuming a `D` record selects its diversion and writes its content.
proof fn lemma_step_div(s: Seq<u8>, i: int, st: SnapModel, k: int, content: Seq<u8>)
    requires
        0 <= k,
        k + 1 <= i64::MAX,
        content.len() <= i64::MAX,
        bytes_at(s, i, div_record(k, content)),
        st.delims.comment_start != 68,
    ensures
        decode_records(s, i, st) == decode_records(
            s,
            i + div_record(k, content).len(),
            SnapModel {
                div: write_model(DivView { current: k + 1, ..st.div }, content),
                ..st
            },
        ),
{
    let nd = nat_digits((k + 1) as nat);
    let cd = nat_digits(content.len());
    let l1 = nd.len();
    let l2 = cd.len();
    let cl = content.len() as int;
    let rec = div_record(k, content);
    let p1 = seq![68u8] + nd;
    let p2 = p1 + seq![44u8];
    let p3 = p2 + cd;
    let p4 = p3 + seq![10u8];
    let p5 = p4 + content;
    assert(rec == p5 + seq![10u8]);
    lemma_bytes_at_concat(s, i, p5, seq![10u8]);
    lemma_bytes_at_concat(s, i, p4, content);
    lemma_bytes_at_concat(s, i, p3, seq![10u8]);
    lemma_bytes_at_concat(s, i, p2, cd);
    lemma_bytes_at_concat(s, i, p1, seq![44u8]);
    lemma_bytes_at_concat(s, i, seq![68u8], nd);
    assert(s[i + 0] == 68);
    lemma_nat_digits_are_digits((k + 1) as nat);
    lemma_nat_digits_are_digits(content.len());
    assert(s[(i + 1) + l1] == 44);
    lemma_read_number(s, i + 1, (k + 1) as nat, 44);
    assert(read_int_model(s, i + 1, 44) == Some((k + 1, i + 2 + l1)));
    assert(s[(i + 2 + l1) + l2] == 10);
    lemma_read_number(s, i + 2 + l1, content.len(), 10);
    let q = i + 3 + l1 + l2;
    assert(rec.len() == 3 + l1 + l2 + cl + 1);
    assert(q + cl + 1 == i + rec.len());
    assert(s[q + cl] == 10) by {
        assert(s[(i + p5.len()) + 0] == 10);
    }
    assert(s.subrange(q, q + cl) =~= content) by {
        assert forall|j: int| 0 <= j < cl implies s.subrange(q, q + cl)[j] == content[j] by {
            assert(s[q + j] == content[j]);
        }
    }
}

/// The record that restores the current-diversion selector: an empty `D`
/// record naming it.
pub open spec fn cur_record(cur: int) -> Seq<u8> {
    seq![68u8] + int_digits(cur) + seq![44u8, 48u8, 10u8, 10u8]
}

/// Consuming the selector-restore record sets `current` and writes nothing.
proof fn lemma_step_cur(s: Seq<u8>, i: int, st: SnapModel, cur: int)
    requires
        -(i64::MAX as int) <= cur <= i64::MAX,
        bytes_at(s, i, cur_record(cur)),
        st.delims.comment_start != 68,
    ensures
        decode_records(s, i, st) == decode_records(
            s,
            i + cur_record(cur).len(),
            SnapModel {
                div: write_model(DivView { current: cur, ..st.div }, Seq::<u8>::empty()),
                ..st
            },
        ),
{
    let dd = int_digits(cur);
    let l1 = dd.len();
    let rec = cur_record(cur);
    let p1 = seq![68u8] + dd;
    assert(rec == p1 + seq![44u8, 48u8, 10u8, 10u8]);
    lemma_bytes_at_concat(s, i, p1, seq![44u8, 48u8, 10u8, 10u8]);
    lemma_bytes_at_concat(s, i, seq![68u8], dd);
    assert(s[i + 0] == 68);
    assert(s[(i + 1) + l1] == 44) by {
        assert(s[(i + p1.len()) + 0] == 44);
    }
    assert(s[(i + 1 + l1) + 1] == 48) by {
        assert(s[(i + p1.len()) + 1] == 48);
    }
    assert(s[(i + 1 + l1) + 2] == 10) by {
        assert(s[(i + p1.len()) + 2] == 10);
    }
    assert(s[(i + 1 + l1) + 3] == 10) by {
        assert(s[(i + p1.len()) + 3] == 10);
    }
    lemma_read_int_field(s, i + 1, cur, 44);
    assert(read_int_model(s, i + 1, 44) == Some((cur, i + 2 + l1)));
    let p = i + 2 + l1;
    assert(nat_digits(0) == seq![48u8]);
    assert forall|j: int| 0 <= j < 1 implies #[trigger] s[p + j] == nat_digits(0nat)[j] by {
        assert(s[(i + 1 + l1) + 1] == 48);
        assert(p + j == (i + 1 + l1) + 1);
    }
    assert(s[p + 1] == 10) by {
        assert(p + 1 == (i + 1 + l1) + 2);
    }
    lemma_read_number(s, p, 0nat, 10);
    assert(read_int_model(s, p, 10) == Some((0int, p + 2)));
    assert(rec.len() == l1 + 5);
    assert(s[p + 2 + 0] == 10) by {
        assert(p + 2 == (i + 1 + l1) + 3);
    }
    assert(s.subrange(p + 2, p + 2) =~= Seq::<u8>::empty());
}

/// Replaying the encoded table appends exactly its bindings, in order.
proof fn lemma_decode_table(s: Seq<u8>, i: int, tbl: Seq<BindingModel>, st: SnapModel)
    requires
        bytes_at(s, i, encode_table(tbl)),
        st.delims.comment_start != 84,
        st.delims.comment_start != 70,
        forall|q: int| 0 <= q < tbl.len() ==> (#[trigger] tbl[q]).name.len() <= i64::MAX
            && value_of(tbl[q]).len() <= i64::MAX,
    ensures
        decode_records(s, i, st) == decode_records(
            s,
            i + encode_table(tbl).len(),
            SnapModel { tbl: st.tbl + tbl, ..st },
        ),
    decreases tbl.len(),
{
    if tbl.len() == 0 {
        assert(st.tbl + tbl =~= st.tbl);
        assert(SnapModel { tbl: st.tbl + tbl, ..st } == st);
    } else {
        let b = tbl.first();
        let rest = tbl.drop_first();
        assert(encode_table(tbl) == encode_binding(b) + encode_table(rest));
        lemma_bytes_at_concat(s, i, encode_binding(b), encode_table(rest));
        assert(tbl[0] == b);
        lemma_step_binding(s, i, st, b);
        let st1 = SnapModel { tbl: st.tbl.push(b), ..st };
        assert(forall|q: int| 0 <= q < rest.len() ==> rest[q] == tbl[q + 1]);
        assert forall|q: int| 0 <= q < rest.len() implies (#[trigger] rest[q]).name.len()
            <= i64::MAX && value_of(rest[q]).len() <= i64::MAX by {
            assert(tbl[q + 1].name.len() <= i64::MAX && value_of(tbl[q + 1]).len() <= i64::MAX);
        }
        lemma_decode_table(s, i + encode_binding(b).len(), rest, st1);
        assert(st.tbl.push(b) + rest =~= st.tbl + tbl);
        assert(SnapModel { tbl: st.tbl.push(b) + rest, ..st1 } == SnapModel {
            tbl: st.tbl + tbl,
            ..st
        });
    }
}

/// The diversion store after replaying the `D` records for buffers from `k`
/// on: each non-empty buffer is selected and written in ascending order.
pub open spec fn divs_result(bufs: Seq<Seq<u8>>, k: int, dv: DivView) -> DivView
    decreases bufs.len() - k when 0 <= k <= bufs.len()
{
    if k >= bufs.len() {
        dv
    } else if bufs[k].len() == 0 {
        divs_result(bufs, k + 1, dv)
    } else {
        divs_result(bufs, k + 1, write_model(DivView { current: k + 1, ..dv }, bufs[k]))
    }
}

/// Replaying the encoded diversions yields exactly `divs_result`.
proof fn lemma_decode_divs(s: Seq<u8>, i: int, bufs: Seq<Seq<u8>>, k: int, st: SnapModel)
    requires
        0 <= k <= bufs.len(),
        bufs.len() <= i64::MAX,
        forall|q: int| 0 <= q < bufs.len() ==> (#[trigger] bufs[q]).len() <= i64::MAX,
        bytes_at(s, i, encode_divs(bufs, k)),
        st.delims.comment_start != 68,
    ensures
        decode_records(s, i, st) == decode_records(
            s,
            i + encode_divs(bufs, k).len(),
            SnapModel { div: divs_result(bufs, k, st.div), ..st },
        ),
    decreases bufs.len() - k,
{
    if k >= bufs.len() {
        assert(SnapModel { div: divs_result(bufs, k, st.div), ..st } == st);
    } else if bufs[k].len() == 0 {
        lemma_decode_divs(s, i, bufs, k + 1, st);
    } else {
        assert(encode_divs(bufs, k) == div_record(k, bufs[k]) + encode_divs(bufs, k + 1));
        lemma_bytes_at_concat(s, i, div_record(k, bufs[k]), encode_divs(bufs, k + 1));
        lemma_step_div(s, i, st, k, bufs[k]);
        let st1 = SnapModel {
            div: write_model(DivView { current: k + 1, ..st.div }, bufs[k]),
            ..st
        };
        lemma_decode_divs(s, i + div_record(k, bufs[k]).len(), bufs, k + 1, st1);
    }
}

/// What `divs_result` leaves behind, when it starts from a store with no
/// buffers: the same primary output, every buffer content as in `bufs`, and
/// no buffer beyond them.
proof fn lemma_divs_result_content(bufs: Seq<Seq<u8>>, k: int, dv: DivView)
    requires
        0 <= k <= bufs.len(),
        dv.bufs.len() <= k,
    ensures
        divs_result(bufs, k, dv).out == dv.out,
        divs_result(bufs, k, dv).bufs.len() <= bufs.len() || divs_result(bufs, k, dv).bufs.len()
            <= k,
        forall|n: int| 1 <= n <= k ==> div_content(divs_result(bufs, k, dv), n) == div_content(
            dv,
            n,
        ),
        forall|n: int| k < n ==> div_content(divs_result(bufs, k, dv), n) == (if n
            <= bufs.len() {
            bufs[n - 1]
        } else {
            Seq::<u8>::empty()
        }),
    decreases bufs.len() - k,
{
    if k >= bufs.len() {
    } else if bufs[k].len() == 0 {
        lemma_divs_result_content(bufs, k + 1, dv);
        assert forall|n: int| 1 <= n <= k implies div_content(divs_result(bufs, k, dv), n)
            == div_content(dv, n) by {
            assert(div_content(divs_result(bufs, k + 1, dv), n) == div_content(dv, n));
        }
        assert forall|n: int| k < n implies div_content(divs_result(bufs, k, dv), n) == (if n
            <= bufs.len() {
            bufs[n - 1]
        } else {
            Seq::<u8>::empty()
        }) by {
            if n == k + 1 {
                assert(div_content(divs_result(bufs, k + 1, dv), n) == div_content(dv, n));
                assert(div_content(dv, n) == Seq::<u8>::empty());
            }
        }
    } else {
        let dv1 = write_model(DivView { current: k + 1, ..dv }, bufs[k]);
        let g = grown_bufs(dv.bufs, k + 1);
        assert(g.len() == k + 1);
        assert(g[k] == Seq::<u8>::empty());
        assert(dv1.bufs == g.update(k, g[k] + bufs[k]));
        assert(dv1.bufs[k] =~= bufs[k]);
        assert(dv1.bufs.len() == k + 1);
        assert(dv1.out == dv.out);
        lemma_divs_result_content(bufs, k + 1, dv1);
        assert forall|n: int| 1 <= n <= k implies div_content(divs_result(bufs, k, dv), n)
            == div_content(dv, n) by {
            assert(div_content(divs_result(bufs, k + 1, dv1), n) == div_content(dv1, n));
            assert(dv1.bufs[n - 1] == g[n - 1]);
            if n <= dv.bufs.len() {
                assert(g[n - 1] == dv.bufs[n - 1]);
            } else {
                assert(g[n - 1] == Seq::<u8>::empty());
            }
        }
        assert forall|n: int| k < n implies div_content(divs_result(bufs, k, dv), n) == (if n
            <= bufs.len() {
            bufs[n - 1]
        } else {
            Seq::<u8>::empty()
        }) by {
            if n == k + 1 {
                assert(div_content(divs_result(bufs, k + 1, dv1), n) == div_content(dv1, n));
                assert(div_content(dv1, n) == dv1.bufs[k]);
            }
        }
    }
}

/// Writing an empty span changes no observable diversion state.
proof fn lemma_write_empty_content(dv: DivView, c: int)
    ensures
        write_model(DivView { current: c, ..dv }, Seq::<u8>::empty()).out == dv.out,
        forall|n: int| div_content(
            write_model(DivView { current: c, ..dv }, Seq::<u8>::empty()),
            n,
        ) == div_content(dv, n),
        write_model(DivView { current: c, ..dv }, Seq::<u8>::empty()).current == c,
{
    let dvc = DivView { current: c, ..dv };
    let w = write_model(dvc, Seq::<u8>::empty());
    if c == 0 {
        assert(w.out =~= dv.out);
    } else if c > 0 {
        let g = grown_bufs(dv.bufs, c);
        assert forall|n: int| div_content(w, n) == div_content(dv, n) by {
            assert(w.bufs == g.update(c - 1, g[c - 1] + Seq::<u8>::empty()));
            assert forall|n: int| 1 <= n <= w.bufs.len() implies div_content(w, n)
                == div_content(dv, n) by {
                assert(g[n - 1] + Seq::<u8>::empty() =~= g[n - 1]);
                assert(w.bufs[n - 1] == g[n - 1]);
                if n <= dv.bufs.len() {
                    assert(g[n - 1] == dv.bufs[n - 1]);
                } else {
                    assert(g[n - 1] == Seq::<u8>::empty());
                }
            }
        }
    }
}

/// Reload round-trip: encoding a delimiter configuration, macro table and
/// diversion store, then decoding the bytes into a fresh state, reproduces
/// an observably equivalent state — the same binding sequence (hence the
/// same `Lookup` results), the same delimiters, the same current diversion,
/// the same content in every diversion, and no spurious output. The
/// decode-side state must start with no buffered diversions, an empty
/// table, and a comment-start byte that is not a record tag (else records
/// would be swallowed as comments); the encoded state must fit the machine
/// bounds that the record length fields impose.
pub proof fn lemma_reload_round_trip(st: SnapModel, st0: SnapModel)
    requires
        comment_start_clear(st0.delims.comment_start),
        st0.tbl.len() == 0,
        st0.div.bufs.len() == 0,
        -(i64::MAX as int) <= st.div.current <= i64::MAX,
        st.div.bufs.len() <= i64::MAX,
        forall|q: int| 0 <= q < st.tbl.len() ==> (#[trigger] st.tbl[q]).name.len() <= i64::MAX
            && value_of(st.tbl[q]).len() <= i64::MAX,
        forall|q: int| 0 <= q < st.div.bufs.len() ==> (#[trigger] st.div.bufs[q]).len()
            <= i64::MAX,
    ensures
        match reload_model(encode_state(st), st0) {
            Some(st2) => {
                &&& st2.tbl == st.tbl
                &&& st2.delims == st.delims
                &&& st2.div.current == st.div.current
                &&& st2.div.out == st0.div.out
                &&& forall|n: int| div_content(st2.div, n) == div_content(st.div, n)
            },
            None => false,
        },
{
    let s = encode_state(st);
    let vrec = seq![86u8, 49u8, 10u8];
    let qrec = quote_record(st.delims.quote_start, st.delims.quote_end);
    let trec = encode_table(st.tbl);
    let drec = encode_divs(st.div.bufs, 0);
    let crec = cur_record(st.div.current);
    let mrec = comment_record(st.delims.comment_start, st.delims.comment_end);
    assert(s =~= vrec + (qrec + (trec + (drec + (crec + mrec)))));
    assert(bytes_at(s, 0, vrec + (qrec + (trec + (drec + (crec + mrec)))))) by {
        assert forall|j: int| 0 <= j < s.len() implies #[trigger] s[0 + j] == s[j] by {}
    }
    lemma_bytes_at_concat(s, 0, vrec, qrec + (trec + (drec + (crec + mrec))));
    lemma_bytes_at_concat(s, 3, qrec, trec + (drec + (crec + mrec)));
    let i2 = 3 + qrec.len() as int;
    lemma_bytes_at_concat(s, i2, trec, drec + (crec + mrec));
    let i3 = i2 + trec.len();
    lemma_bytes_at_concat(s, i3, drec, crec + mrec);
    let i4 = i3 + drec.len();
    lemma_bytes_at_concat(s, i4, crec, mrec);
    let i5 = i4 + crec.len();
    assert(i5 + mrec.len() == s.len());

    // the leading version record
    assert(s[0int + 0] == 86 && s[0int + 1] == 49 && s[0int + 2] == 10);
    assert(s[0] == 86 && s[1] == 49 && s[2] == 10);
    assert(decode_top(s, 0, st0) == decode_records(s, 3, st0));

    // the quote record
    lemma_step_quote(s, 3, st0, st.delims.quote_start, st.delims.quote_end);
    let st1 = SnapModel {
        delims: Delimiters {
            quote_start: st.delims.quote_start,
            quote_end: st.delims.quote_end,
            ..st0.delims
        },
        ..st0
    };

    // the macro table
    lemma_decode_table(s, i2, st.tbl, st1);
    let st2 = SnapModel { tbl: st0.tbl + st.tbl, ..st1 };
    assert(st0.tbl + st.tbl =~= st.tbl);

    // the diversion contents
    lemma_decode_divs(s, i3, st.div.bufs, 0, st2);
    let st3 = SnapModel { div: divs_result(st.div.bufs, 0, st2.div), ..st2 };

    // the selector-restore record
    lemma_step_cur(s, i4, st3, st.div.current);
    let st4 = SnapModel {
        div: write_model(
            DivView { current: st.div.current, ..st3.div },
            Seq::<u8>::empty(),
        ),
        ..st3
    };

    // the comment record, last so it can never swallow an earlier record
    lemma_step_comment(s, i5, st4, st.delims.comment_start, st.delims.comment_end);
    let st5 = SnapModel {
        delims: Delimiters {
            comment_start: st.delims.comment_start,
            comment_end: st.delims.comment_end,
            ..st4.delims
        },
        ..st4
    };
    assert(decode_records(s, i5 + 8, st5) == Some(st5));

    assert(st5.delims == st.delims);
    assert(st5.tbl == st.tbl);
    lemma_divs_result_content(st.div.bufs, 0, st2.div);
    lemma_write_empty_content(st3.div, st.div.current);
    assert(st5.div.out == st0.div.out);
    assert forall|n: int| div_content(st5.div, n) == div_content(st.div, n) by {
        assert(div_content(st4.div, n) == div_content(st3.div, n));
        if 1 <= n {
            assert(div_content(st3.div, n) == (if n <= st.div.bufs.len() {
                st.div.bufs[n - 1]
            } else {
                Seq::<u8>::empty()
            }));
        }
    }
}

} // verus!
