use vstd::prelude::*;

use crate::delim::Delimiters;
use crate::divert::{write_model, DivView, DiversionStore};
use crate::engine::{find_comment_end, nat_digits, u64_digits};
use crate::errors::M4Error;
use crate::table::{BindingModel, MacroTable, MacroValue, ValueModel};

verus! {

/// A snapshot of the three stateful components that the reload-state format
/// carries: the macro table, the delimiter configuration, and the diversion
/// store.
#[verifier::ext_equal]
pub struct SnapModel {
    pub tbl: Seq<BindingModel>,
    pub delims: Delimiters,
    pub div: DivView,
}

/// `n` clamped into the record scanner's progress window `[i + 1, len]`.
pub open spec fn adv(i: int, n: int, len: int) -> int {
    if n < i + 1 {
        i + 1
    } else if n > len {
        len
    } else {
        n
    }
}

/// Decimal digits accumulated up to the separator byte: `None` on a missing
/// separator, a non-digit byte, or a value that leaves the machine range.
pub open spec fn read_digits(s: Seq<u8>, i: int, sep: u8, v: int) -> Option<(int, int)>
    decreases s.len() - i when 0 <= i <= s.len() && 0 <= v <= i64::MAX
{
    if i >= s.len() {
        None
    } else if s[i] == sep {
        Some((v, i + 1))
    } else if 48 <= s[i] <= 57 {
        let dg = (s[i] - 48) as int;
        if v > (i64::MAX - dg) / 10 {
            None
        } else {
            read_digits(s, i + 1, sep, v * 10 + dg)
        }
    } else {
        None
    }
}

/// A length or diversion field: decimal digits with an optional leading `-`,
/// read up to the separator byte; the value and the position just after the
/// separator.
pub open spec fn read_int_model(s: Seq<u8>, i: int, sep: u8) -> Option<(int, int)> {
    if i < s.len() && s[i] == 45 && sep != 45 {
        match read_digits(s, i + 1, sep, 0) {
            Some(vj) => Some((-vj.0, vj.1)),
            None => None,
        }
    } else {
        read_digits(s, i, sep, 0)
    }
}

pub proof fn lemma_read_digits_bounds(s: Seq<u8>, i: int, sep: u8, v: int)
    requires
        0 <= i <= s.len(),
        0 <= v <= i64::MAX,
    ensures
        match read_digits(s, i, sep, v) {
            Some(vj) => i < vj.1 <= s.len() && 0 <= vj.0 <= i64::MAX,
            None => true,
        },
    decreases s.len() - i,
{
    if i >= s.len() {
    } else if s[i] == sep {
    } else if 48 <= s[i] <= 57 {
        let dg = (s[i] - 48) as int;
        if v > (i64::MAX - dg) / 10 {
        } else {
            lemma_read_digits_bounds(s, i + 1, sep, v * 10 + dg);
        }
    } else {
    }
}

fn read_digits_exec(data: &Vec<u8>, pos: usize, sep: u8, v: i64) -> (r: Result<(i64, usize), M4Error>)
    requires
        pos <= data@.len(),
        0 <= v,
    ensures
        match read_digits(data@, pos as int, sep, v as int) {
            Some(vj) => r == Ok::<(i64, usize), M4Error>((vj.0 as i64, vj.1 as usize)) && 0
                <= vj.0 <= i64::MAX && pos < vj.1 <= data@.len(),
            None => r == Err::<(i64, usize), M4Error>(M4Error::ReloadStateFormatError),
        },
    decreases data@.len() - pos,
{
    proof {
        lemma_read_digits_bounds(data@, pos as int, sep, v as int);
    }
    if pos >= data.len() {
        Err(M4Error::ReloadStateFormatError)
    } else {
        let c = data[pos];
        if c == sep {
            Ok((v, pos + 1))
        } else if 48 <= c && c <= 57 {
            let dg = (c - 48) as i64;
            if v > (i64::MAX - dg) / 10 {
                Err(M4Error::ReloadStateFormatError)
            } else {
                read_digits_exec(data, pos + 1, sep, v * 10 + dg)
            }
        } else {
            Err(M4Error::ReloadStateFormatError)
        }
    }
}

/// Reads a decimal integer field, optional leading `-`, up to the separator
/// byte; any malformation is a reload-state format error.
pub fn read_int(data: &Vec<u8>, pos: usize, sep: u8) -> (r: Result<(i64, usize), M4Error>)
    requires
        pos <= data@.len(),
    ensures
        match read_int_model(data@, pos as int, sep) {
            Some(vj) => r == Ok::<(i64, usize), M4Error>((vj.0 as i64, vj.1 as usize)) && pos
                < vj.1 <= data@.len() && -(i64::MAX as int) <= vj.0 <= i64::MAX,
            None => r == Err::<(i64, usize), M4Error>(M4Error::ReloadStateFormatError),
        },
{
    if pos < data.len() && data[pos] == 45 && sep != 45 {
        match read_digits_exec(data, pos + 1, sep, 0) {
            Ok((v, j)) => Ok((-v, j)),
            Err(e) => Err(e),
        }
    } else {
        read_digits_exec(data, pos, sep, 0)
    }
}

/// The record scanner of the reload-state format, entered after the leading
/// version record: each step consumes a comment, a `C`, `Q`, `D`, `T`, `F`
/// or `V` record, or one raw byte passed through to primary output; `None`
/// is a fatal format error.
pub open spec fn decode_records(s: Seq<u8>, i: int, st: SnapModel) -> Option<SnapModel>
    decreases s.len() - i when 0 <= i <= s.len()
{
    if i >= s.len() {
        Some(st)
    } else {
        let c = s[i];
        if c == st.delims.comment_start {
            decode_records(s, adv(i, find_comment_end(s, i + 1, st.delims.comment_end), s.len() as int), st)
        } else if c == 67 || c == 81 {
            match read_int_model(s, i + 1, 44) {
                None => None,
                Some(sl) => match read_int_model(s, sl.1, 10) {
                    None => None,
                    Some(el) => if sl.0 != 1 || el.0 != 1 {
                        None
                    } else if el.1 + 3 > s.len() {
                        None
                    } else if s[el.1 + 2] != 10 {
                        None
                    } else {
                        let d2 = if c == 67 {
                            Delimiters {
                                comment_start: s[el.1],
                                comment_end: s[el.1 + 1],
                                ..st.delims
                            }
                        } else {
                            Delimiters { quote_start: s[el.1], quote_end: s[el.1 + 1], ..st.delims }
                        };
                        decode_records(s, adv(i, el.1 + 3, s.len() as int), SnapModel { delims: d2, ..st })
                    },
                },
            }
        } else if c == 68 {
            match read_int_model(s, i + 1, 44) {
                None => None,
                Some(dv) => match read_int_model(s, dv.1, 10) {
                    None => None,
                    Some(ln) => if ln.0 < 0 {
                        None
                    } else if ln.1 + ln.0 + 1 > s.len() {
                        None
                    } else if s[ln.1 + ln.0] != 10 {
                        None
                    } else {
                        let content = s.subrange(ln.1, ln.1 + ln.0);
                        let m1 = DivView { current: dv.0, ..st.div };
                        decode_records(
                            s,
                            adv(i, ln.1 + ln.0 + 1, s.len() as int),
                            SnapModel { div: write_model(m1, content), ..st },
                        )
                    },
                },
            }
        } else if c == 84 || c == 70 {
            match read_int_model(s, i + 1, 44) {
                None => None,
                Some(nl) => match read_int_model(s, nl.1, 10) {
                    None => None,
                    Some(vl) => if nl.0 < 0 || vl.0 < 0 {
                        None
                    } else if vl.1 + nl.0 + vl.0 + 1 > s.len() {
                        None
                    } else if s[vl.1 + nl.0 + vl.0] != 10 {
                        None
                    } else {
                        let nm = s.subrange(vl.1, vl.1 + nl.0);
                        let vv = s.subrange(vl.1 + nl.0, vl.1 + nl.0 + vl.0);
                        let val = if c == 84 {
                            ValueModel::Text(vv)
                        } else {
                            ValueModel::Builtin(vv)
                        };
                        decode_records(
                            s,
                            adv(i, vl.1 + nl.0 + vl.0 + 1, s.len() as int),
                            SnapModel {
                                tbl: st.tbl.push(BindingModel { name: nm, value: val }),
                                ..st
                            },
                        )
                    },
                },
            }
        } else if c == 86 {
            if i + 3 > s.len() {
                None
            } else if s[i + 1] != 49 || s[i + 2] != 10 {
                None
            } else {
                decode_records(s, i + 3, st)
            }
        } else {
            decode_records(
                s,
                i + 1,
                SnapModel { div: DivView { out: st.div.out.push(c), ..st.div }, ..st },
            )
        }
    }
}

/// The whole reload-state parse: leading comments may precede the mandatory
/// version record `V1`, which must come before any other record or raw
/// byte; an unsupported or missing version is fatal.
pub open spec fn decode_top(s: Seq<u8>, i: int, st: SnapModel) -> Option<SnapModel>
    decreases s.len() - i when 0 <= i <= s.len()
{
    if i >= s.len() {
        None
    } else if s[i] == st.delims.comment_start {
        decode_top(s, adv(i, find_comment_end(s, i + 1, st.delims.comment_end), s.len() as int), st)
    } else if s[i] == 86 {
        if i + 3 > s.len() {
            None
        } else if s[i + 1] != 49 || s[i + 2] != 10 {
            None
        } else {
            decode_records(s, i + 3, st)
        }
    } else {
        None
    }
}

pub open spec fn reload_model(s: Seq<u8>, st: SnapModel) -> Option<SnapModel> {
    decode_top(s, 0, st)
}

#[verifier::rlimit(100)]
fn decode_records_exec(
    data: &Vec<u8>,
    pos: usize,
    table: &mut MacroTable,
    div: &mut DiversionStore,
    delims: &mut Delimiters,
) -> (r: Result<(), M4Error>)
    requires
        pos <= data@.len(),
    ensures
        match decode_records(
            data@,
            pos as int,
            SnapModel { tbl: old(table)@, delims: *old(delims), div: old(div)@ },
        ) {
            Some(st2) => r is Ok && final(table)@ == st2.tbl && *final(delims) == st2.delims
                && final(div)@ == st2.div,
            None => r == Err::<(), M4Error>(M4Error::ReloadStateFormatError),
        },
    decreases data@.len() - pos,
{
    let ghost st0 = SnapModel { tbl: table@, delims: *delims, div: div@ };
    if pos >= data.len() {
        return Ok(());
    }
    let c = data[pos];
    if c == delims.comment_start {
        let e = crate::engine::skip_comment(data, pos + 1, delims.comment_end);
        proof {
            assert(e == adv(pos as int, e as int, data@.len() as int));
        }
        decode_records_exec(data, e, table, div, delims)
    } else if c == 67 || c == 81 {
        let sl = match read_int(data, pos + 1, 44) {
            Ok(x) => x,
            Err(e) => { return Err(e); },
        };
        let el = match read_int(data, sl.1, 10) {
            Ok(x) => x,
            Err(e) => { return Err(e); },
        };
        if sl.0 != 1 || el.0 != 1 {
            return Err(M4Error::ReloadStateFormatError);
        }
        if data.len() - el.1 < 3 {
            return Err(M4Error::ReloadStateFormatError);
        }
        if data[el.1 + 2] != 10 {
            return Err(M4Error::ReloadStateFormatError);
        }
        if c == 67 {
            delims.comment_start = data[el.1];
            delims.comment_end = data[el.1 + 1];
        } else {
            delims.quote_start = data[el.1];
            delims.quote_end = data[el.1 + 1];
        }
        decode_records_exec(data, el.1 + 3, table, div, delims)
    } else if c == 68 {
        let dv = match read_int(data, pos + 1, 44) {
            Ok(x) => x,
            Err(e) => { return Err(e); },
        };
        let ln = match read_int(data, dv.1, 10) {
            Ok(x) => x,
            Err(e) => { return Err(e); },
        };
        if ln.0 < 0 {
            return Err(M4Error::ReloadStateFormatError);
        }
        let rem: usize = data.len() - ln.1;
        if (ln.0 as u64) + 1 > (rem as u64) {
            return Err(M4Error::ReloadStateFormatError);
        }
        let clen: usize = ln.0 as usize;
        if data[ln.1 + clen] != 10 {
            return Err(M4Error::ReloadStateFormatError);
        }
        let content = crate::engine::copy_range(data, ln.1, ln.1 + clen);
        div.set_current(dv.0);
        div.write(&content);
        decode_records_exec(data, ln.1 + clen + 1, table, div, delims)
    } else if c == 84 || c == 70 {
        let nl = match read_int(data, pos + 1, 44) {
            Ok(x) => x,
            Err(e) => { return Err(e); },
        };
        let vl = match read_int(data, nl.1, 10) {
            Ok(x) => x,
            Err(e) => { return Err(e); },
        };
        if nl.0 < 0 || vl.0 < 0 {
            return Err(M4Error::ReloadStateFormatError);
        }
        let rem: usize = data.len() - vl.1;
        if (nl.0 as u64) + (vl.0 as u64) + 1 > (rem as u64) {
            return Err(M4Error::ReloadStateFormatError);
        }
        let nlen: usize = nl.0 as usize;
        let vlen: usize = vl.0 as usize;
        if data[vl.1 + nlen + vlen] != 10 {
            return Err(M4Error::ReloadStateFormatError);
        }
        let nm = crate::engine::copy_range(data, vl.1, vl.1 + nlen);
        let vv = crate::engine::copy_range(data, vl.1 + nlen, vl.1 + nlen + vlen);
        let val = if c == 84 {
            MacroValue::Text(vv)
        } else {
            MacroValue::Builtin(vv)
        };
        table.define(nm, val);
        decode_records_exec(data, vl.1 + nlen + vlen + 1, table, div, delims)
    } else if c == 86 {
        if data.len() - pos < 3 {
            return Err(M4Error::ReloadStateFormatError);
        }
        if data[pos + 1] != 49 || data[pos + 2] != 10 {
            return Err(M4Error::ReloadStateFormatError);
        }
        decode_records_exec(data, pos + 3, table, div, delims)
    } else {
        div.primary.push(c);
        proof {
            assert(div@ == (DivView { out: st0.div.out.push(c), ..st0.div }));
        }
        decode_records_exec(data, pos + 1, table, div, delims)
    }
}

/// Decodes a whole reload-state byte string into the three stateful
/// components, strictly and fail-fast: a leading version record is required
/// before any other record, every record must be well formed and
/// newline-terminated, and any malformation is fatal. Raw bytes outside
/// records pass through to primary output.
pub fn decode_reload_state(
    data: &Vec<u8>,
    table: &mut MacroTable,
    div: &mut DiversionStore,
    delims: &mut Delimiters,
) -> (r: Result<(), M4Error>)
    ensures
        match reload_model(
            data@,
            SnapModel { tbl: old(table)@, delims: *old(delims), div: old(div)@ },
        ) {
            Some(st2) => r is Ok && final(table)@ == st2.tbl && *final(delims) == st2.delims
                && final(div)@ == st2.div,
            None => r == Err::<(), M4Error>(M4Error::ReloadStateFormatError),
        },
{
    let mut pos: usize = 0;
    let ghost st0 = SnapModel { tbl: table@, delims: *delims, div: div@ };
    while pos < data.len()
        invariant
            pos <= data@.len(),
            st0 == (SnapModel { tbl: table@, delims: *delims, div: div@ }),
            table@ == old(table)@,
            *delims == *old(delims),
            div@ == old(div)@,
            decode_top(data@, 0, st0) == decode_top(data@, pos as int, st0),
        decreases data@.len() - pos,
    {
        let c = data[pos];
        if c == delims.comment_start {
            let e = crate::engine::skip_comment(data, pos + 1, delims.comment_end);
            proof {
                assert(e == adv(pos as int, e as int, data@.len() as int));
            }
            pos = e;
        } else if c == 86 {
            if data.len() - pos < 3 {
                return Err(M4Error::ReloadStateFormatError);
            }
            if data[pos + 1] != 49 || data[pos + 2] != 10 {
                return Err(M4Error::ReloadStateFormatError);
            }
            return decode_records_exec(data, pos + 3, table, div, delims);
        } else {
            return Err(M4Error::ReloadStateFormatError);
        }
    }
    Err(M4Error::ReloadStateFormatError)
}

/// The decimal digits of `v`, with a leading `-` when it is negative.
pub open spec fn int_digits(v: int) -> Seq<u8> {
    if v < 0 {
        seq![45u8] + nat_digits((-v) as nat)
    } else {
        nat_digits(v as nat)
    }
}

/// The encoding of one macro binding: a `T` record for text, `F` for a
/// builtin.
pub open spec fn encode_binding(b: BindingModel) -> Seq<u8> {
    let tag = match b.value {
        ValueModel::Text(_) => 84u8,
        ValueModel::Builtin(_) => 70u8,
    };
    let val = match b.value {
        ValueModel::Text(t) => t,
        ValueModel::Builtin(bb) => bb,
    };
    seq![tag] + nat_digits(b.name.len()) + seq![44u8] + nat_digits(val.len()) + seq![10u8]
        + b.name + val + seq![10u8]
}

/// The encodings of all bindings, oldest first, so that decoding replays
/// them in order.
pub open spec fn encode_table(tbl: Seq<BindingModel>) -> Seq<u8>
    decreases tbl.len(),
{
    if tbl.len() == 0 {
        Seq::empty()
    } else {
        encode_binding(tbl.first()) + encode_table(tbl.drop_first())
    }
}

/// One `D` record per non-empty diversion, in ascending order.
pub open spec fn encode_divs(bufs: Seq<Seq<u8>>, k: int) -> Seq<u8>
    decreases bufs.len() - k when 0 <= k <= bufs.len()
{
    if k >= bufs.len() {
        Seq::empty()
    } else if bufs[k].len() == 0 {
        encode_divs(bufs, k + 1)
    } else {
        seq![68u8] + nat_digits((k + 1) as nat) + seq![44u8] + nat_digits(bufs[k].len())
            + seq![10u8] + bufs[k] + seq![10u8] + encode_divs(bufs, k + 1)
    }
}

/// The full frozen-state encoding: the version record, the quote record,
/// every macro binding, every non-empty diversion, an empty `D` record that
/// restores the current-diversion selector, and last the comment record, so
/// that the new comment delimiters cannot swallow any earlier record.
pub open spec fn encode_state(st: SnapModel) -> Seq<u8> {
    seq![86u8, 49u8, 10u8] + seq![
        81u8,
        49u8,
        44u8,
        49u8,
        10u8,
        st.delims.quote_start,
        st.delims.quote_end,
        10u8,
    ] + encode_table(st.tbl) + encode_divs(st.div.bufs, 0) + seq![68u8] + int_digits(
        st.div.current,
    ) + seq![44u8, 48u8, 10u8, 10u8] + seq![
        67u8,
        49u8,
        44u8,
        49u8,
        10u8,
        st.delims.comment_start,
        st.delims.comment_end,
        10u8,
    ]
}

/// The decimal digits of `v`, with a leading `-` when negative.
pub fn i64_digits(v: i64) -> (r: Vec<u8>)
    ensures
        r@ == int_digits(v as int),
{
    if v >= 0 {
        let r = u64_digits(v as u64);
        r
    } else if v == i64::MIN {
        let mut r: Vec<u8> = Vec::new();
        r.push(45);
        let mag = u64_digits(9223372036854775808u64);
        crate::divert::append_bytes(&mut r, &mag);
        proof {
            assert(r@ =~= int_digits(v as int));
        }
        r
    } else {
        let mut r: Vec<u8> = Vec::new();
        r.push(45);
        let mag = u64_digits((-v) as u64);
        crate::divert::append_bytes(&mut r, &mag);
        proof {
            assert(r@ =~= int_digits(v as int));
        }
        r
    }
}

/// Encodes the three stateful components to the frozen-state record format,
/// ready to be decoded back by `decode_reload_state`.
#[verifier::rlimit(100)]
pub fn encode_reload_state(
    table: &MacroTable,
    delims: &Delimiters,
    div: &DiversionStore,
) -> (r: Vec<u8>)
    ensures
        r@ == encode_state(SnapModel { tbl: table@, delims: *delims, div: div@ }),
{
    let ghost st = SnapModel { tbl: table@, delims: *delims, div: div@ };
    let mut out: Vec<u8> = Vec::new();
    out.push(86);
    out.push(49);
    out.push(10);
    out.push(81);
    out.push(49);
    out.push(44);
    out.push(49);
    out.push(10);
    out.push(delims.quote_start);
    out.push(delims.quote_end);
    out.push(10);
    proof {
        assert(out@ =~= seq![86u8, 49u8, 10u8] + seq![
            81u8,
            49u8,
            44u8,
            49u8,
            10u8,
            st.delims.quote_start,
            st.delims.quote_end,
            10u8,
        ]);
    }
    let ghost head = out@;
    let n = table.entries.len();
    let mut k: usize = 0;
    while k < n
        invariant
            n == table.entries@.len(),
            table@.len() == n,
            0 <= k <= n,
            out@ == head + encode_table(table@.take(k as int)),
            forall|q: int| 0 <= q < n ==> table@[q] == table.entries@[q]@,
        decreases n - k,
    {
        let ghost pre = out@;
        let entry = &table.entries[k];
        let (tag, val): (u8, &Vec<u8>) = match &entry.value {
            MacroValue::Text(t) => (84u8, t),
            MacroValue::Builtin(bb) => (70u8, bb),
        };
        out.push(tag);
        let nd = u64_digits(entry.name.len() as u64);
        crate::divert::append_bytes(&mut out, &nd);
        out.push(44);
        let vd = u64_digits(val.len() as u64);
        crate::divert::append_bytes(&mut out, &vd);
        out.push(10);
        crate::divert::append_bytes(&mut out, &entry.name);
        crate::divert::append_bytes(&mut out, val);
        out.push(10);
        proof {
            assert(out@ =~= pre + encode_binding(table@[k as int]));
            lemma_encode_table_snoc(table@, k as int);
            assert(out@ =~= head + encode_table(table@.take(k + 1)));
        }
        k += 1;
    }
    proof {
        assert(table@.take(n as int) =~= table@);
    }
    let ghost head2 = out@;
    let bn = div.buffers.len();
    let mut b: usize = 0;
    while b < bn
        invariant
            bn == div.buffers@.len(),
            st.div.bufs.len() == bn,
            0 <= b <= bn,
            out@ + encode_divs(st.div.bufs, b as int) == head2 + encode_divs(st.div.bufs, 0),
            forall|q: int| 0 <= q < bn ==> st.div.bufs[q] == div.buffers@[q]@,
        decreases bn - b,
    {
        let ghost pre = out@;
        let buf = &div.buffers[b];
        if buf.len() > 0 {
            out.push(68);
            let dd = u64_digits((b as u64) + 1);
            crate::divert::append_bytes(&mut out, &dd);
            out.push(44);
            let ld = u64_digits(buf.len() as u64);
            crate::divert::append_bytes(&mut out, &ld);
            out.push(10);
            crate::divert::append_bytes(&mut out, buf);
            out.push(10);
        }
        proof {
            lemma_encode_divs_step(st.div.bufs, b as int);
            if st.div.bufs[b as int].len() == 0 {
                assert(out@ == pre);
            } else {
                assert(out@ =~= pre + (seq![68u8] + nat_digits((b + 1) as nat) + seq![44u8]
                    + nat_digits(st.div.bufs[b as int].len()) + seq![10u8] + st.div.bufs[b as int]
                    + seq![10u8]));
            }
            assert(out@ + encode_divs(st.div.bufs, b + 1) =~= pre + encode_divs(
                st.div.bufs,
                b as int,
            ));
        }
        b += 1;
    }
    proof {
        assert(out@ =~= out@ + encode_divs(st.div.bufs, bn as int));
        assert(out@ == head2 + encode_divs(st.div.bufs, 0));
    }
    out.push(68);
    let cd = i64_digits(div.current);
    crate::divert::append_bytes(&mut out, &cd);
    out.push(44);
    out.push(48);
    out.push(10);
    out.push(10);
    out.push(67);
    out.push(49);
    out.push(44);
    out.push(49);
    out.push(10);
    out.push(delims.comment_start);
    out.push(delims.comment_end);
    out.push(10);
    proof {
        assert(out@ =~= encode_state(st));
    }
    out
}

/// Splitting the table encoding at one binding.
proof fn lemma_encode_table_snoc(tbl: Seq<BindingModel>, k: int)
    requires
        0 <= k < tbl.len(),
    ensures
        encode_table(tbl.take(k + 1)) == encode_table(tbl.take(k)) + encode_binding(tbl[k]),
    decreases k,
{
    if k == 0 {
        assert(tbl.take(1).first() == tbl[0]);
        assert(tbl.take(1).drop_first() =~= Seq::<BindingModel>::empty());
        assert(encode_table(Seq::<BindingModel>::empty()) =~= Seq::<u8>::empty());
        assert(encode_table(tbl.take(1)) == encode_binding(tbl[0]) + encode_table(
            tbl.take(1).drop_first(),
        ));
        assert(encode_table(tbl.take(1)) =~= encode_binding(tbl[0]));
        assert(encode_table(tbl.take(0)) =~= Seq::<u8>::empty());
        assert(encode_table(tbl.take(0)) + encode_binding(tbl[0]) =~= encode_binding(tbl[0]));
    } else {
        let a = tbl.take(k + 1);
        let b = tbl.take(k);
        assert(a.first() == tbl[0]);
        assert(b.first() == tbl[0]);
        assert(a.drop_first() =~= tbl.drop_first().take(k));
        assert(b.drop_first() =~= tbl.drop_first().take(k - 1));
        lemma_encode_table_snoc(tbl.drop_first(), k - 1);
        assert(tbl.drop_first()[k - 1] == tbl[k]);
        assert(encode_table(a) =~= encode_binding(tbl[0]) + encode_table(
            tbl.drop_first().take(k),
        ));
        assert(encode_table(b) + encode_binding(tbl[k]) =~= encode_binding(tbl[0]) + (
        encode_table(tbl.drop_first().take(k - 1)) + encode_binding(tbl[k])));
    }
}

/// The diversion encoding from `k` is one record (or nothing) followed by
/// the encoding from `k + 1`; stated through subtraction so a loop can
/// accumulate the prefix.
proof fn lemma_encode_divs_step(bufs: Seq<Seq<u8>>, k: int)
    requires
        0 <= k < bufs.len(),
    ensures
        bufs[k].len() == 0 ==> encode_divs(bufs, k) == encode_divs(bufs, k + 1),
        bufs[k].len() > 0 ==> encode_divs(bufs, k) == (seq![68u8] + nat_digits((k + 1) as nat)
            + seq![44u8] + nat_digits(bufs[k].len()) + seq![10u8] + bufs[k] + seq![10u8])
            + encode_divs(bufs, k + 1),
{
}

} // verus!
