use vstd::prelude::*;

use crate::engine::copy_range;
use crate::table::bytes_eq;
use crate::errors::M4Error;

verus! {

/// Mathematical model of a classified command-line argument.
pub enum ArgModel {
    Help,
    FatalWarning,
    Gnu,
    Traditional,
    DebugFlags(Seq<u8>),
    DebugFile(Seq<u8>),
    IncludePath(Seq<u8>),
    NestingLimit(int),
    ReloadStatePath(Seq<u8>),
    Trace(Seq<u8>),
    Undefine(Seq<u8>),
    Stdin,
    InputFile(Seq<u8>),
}

/// A classified command-line argument: each recognized flag, stdin, or a
/// plain input path.
#[derive(Debug, PartialEq, Eq)]
pub enum ArgKind {
    Help,
    FatalWarning,
    Gnu,
    Traditional,
    DebugFlags(Vec<u8>),
    DebugFile(Vec<u8>),
    IncludePath(Vec<u8>),
    NestingLimit(u64),
    ReloadStatePath(Vec<u8>),
    Trace(Vec<u8>),
    Undefine(Vec<u8>),
    Stdin,
    InputFile(Vec<u8>),
}

impl View for ArgKind {
    type V = ArgModel;

    open spec fn view(&self) -> ArgModel {
        match self {
            ArgKind::Help => ArgModel::Help,
            ArgKind::FatalWarning => ArgModel::FatalWarning,
            ArgKind::Gnu => ArgModel::Gnu,
            ArgKind::Traditional => ArgModel::Traditional,
            ArgKind::DebugFlags(x) => ArgModel::DebugFlags(x@),
            ArgKind::DebugFile(x) => ArgModel::DebugFile(x@),
            ArgKind::IncludePath(x) => ArgModel::IncludePath(x@),
            ArgKind::NestingLimit(v) => ArgModel::NestingLimit(*v as int),
            ArgKind::ReloadStatePath(x) => ArgModel::ReloadStatePath(x@),
            ArgKind::Trace(x) => ArgModel::Trace(x@),
            ArgKind::Undefine(x) => ArgModel::Undefine(x@),
            ArgKind::Stdin => ArgModel::Stdin,
            ArgKind::InputFile(x) => ArgModel::InputFile(x@),
        }
    }
}

/// `p` is a prefix of `s`.
pub open spec fn starts_with(s: Seq<u8>, p: Seq<u8>) -> bool {
    p.len() <= s.len() && s.subrange(0, p.len() as int) == p
}

/// What follows the first `k` bytes of `s`.
pub open spec fn rest_after(s: Seq<u8>, k: int) -> Seq<u8> {
    s.subrange(k, s.len() as int)
}

/// An unsigned decimal number: optional leading `+`, then at least one
/// digit, within the machine range; anything else fails to parse.
pub open spec fn u64_digits_val(s: Seq<u8>, i: int, v: int) -> Option<int>
    decreases s.len() - i when 0 <= i <= s.len() && 0 <= v <= u64::MAX
{
    if i >= s.len() {
        Some(v)
    } else if 48 <= s[i] <= 57 {
        let dg = (s[i] - 48) as int;
        if v > (u64::MAX - dg) / 10 {
            None
        } else {
            u64_digits_val(s, i + 1, v * 10 + dg)
        }
    } else {
        None
    }
}

pub open spec fn parse_u64_model(s: Seq<u8>) -> Option<int> {
    let st: int = if s.len() > 0 && s[0] == 43 {
        1
    } else {
        0
    };
    if s.len() - st == 0 {
        None
    } else {
        u64_digits_val(s, st, 0)
    }
}

/// The bytes of `--help`.
pub open spec fn help_lit() -> Seq<u8> {
    seq![45u8, 45, 104, 101, 108, 112]
}

/// The bytes of `--fatal-warning`.
pub open spec fn fatal_warning_lit() -> Seq<u8> {
    seq![45u8, 45, 102, 97, 116, 97, 108, 45, 119, 97, 114, 110, 105, 110, 103]
}

/// The bytes of `--gnu`.
pub open spec fn gnu_lit() -> Seq<u8> {
    seq![45u8, 45, 103, 110, 117]
}

/// The bytes of `--traditional`.
pub open spec fn traditional_lit() -> Seq<u8> {
    seq![45u8, 45, 116, 114, 97, 100, 105, 116, 105, 111, 110, 97, 108]
}

/// The bytes of `--debug=`.
pub open spec fn debug_eq_lit() -> Seq<u8> {
    seq![45u8, 45, 100, 101, 98, 117, 103, 61]
}

/// The bytes of `--debugfile=`.
pub open spec fn debugfile_eq_lit() -> Seq<u8> {
    seq![45u8, 45, 100, 101, 98, 117, 103, 102, 105, 108, 101, 61]
}

/// The bytes of `--include=`.
pub open spec fn include_eq_lit() -> Seq<u8> {
    seq![45u8, 45, 105, 110, 99, 108, 117, 100, 101, 61]
}

/// The bytes of `--nesting-limit=`.
pub open spec fn nesting_limit_eq_lit() -> Seq<u8> {
    seq![45u8, 45, 110, 101, 115, 116, 105, 110, 103, 45, 108, 105, 109, 105, 116, 61]
}

/// The bytes of `--reload-state=`.
pub open spec fn reload_state_eq_lit() -> Seq<u8> {
    seq![45u8, 45, 114, 101, 108, 111, 97, 100, 45, 115, 116, 97, 116, 101, 61]
}

/// The bytes of `--trace=`.
pub open spec fn trace_eq_lit() -> Seq<u8> {
    seq![45u8, 45, 116, 114, 97, 99, 101, 61]
}

/// The bytes of `--undefine=`.
pub open spec fn undefine_eq_lit() -> Seq<u8> {
    seq![45u8, 45, 117, 110, 100, 101, 102, 105, 110, 101, 61]
}

/// The bytes of `-`.
pub open spec fn dash_lit() -> Seq<u8> {
    seq![45u8]
}


/// The classification of one command-line argument, in the order the flags
/// are recognized: exact flags, the `=`-carrying flags with their payloads,
/// `-` for stdin, any other `-`-prefixed argument rejected, and everything
/// else an input path. A `--nesting-limit=` payload that is not an unsigned
/// number is rejected too.
pub open spec fn classify_model(s: Seq<u8>) -> Result<ArgModel, M4Error> {
    if s == help_lit() {
        Ok(ArgModel::Help)
    } else if s == fatal_warning_lit() {
        Ok(ArgModel::FatalWarning)
    } else if s == gnu_lit() {
        Ok(ArgModel::Gnu)
    } else if s == traditional_lit() {
        Ok(ArgModel::Traditional)
    } else if starts_with(s, debug_eq_lit()) {
        Ok(ArgModel::DebugFlags(rest_after(s, debug_eq_lit().len() as int)))
    } else if starts_with(s, debugfile_eq_lit()) {
        Ok(ArgModel::DebugFile(rest_after(s, debugfile_eq_lit().len() as int)))
    } else if starts_with(s, include_eq_lit()) {
        Ok(ArgModel::IncludePath(rest_after(s, include_eq_lit().len() as int)))
    } else if starts_with(s, nesting_limit_eq_lit()) {
        match parse_u64_model(rest_after(s, nesting_limit_eq_lit().len() as int)) {
            Some(v) => Ok(ArgModel::NestingLimit(v)),
            None => Err(M4Error::ArgParseError),
        }
    } else if starts_with(s, reload_state_eq_lit()) {
        Ok(ArgModel::ReloadStatePath(rest_after(s, reload_state_eq_lit().len() as int)))
    } else if starts_with(s, trace_eq_lit()) {
        Ok(ArgModel::Trace(rest_after(s, trace_eq_lit().len() as int)))
    } else if starts_with(s, undefine_eq_lit()) {
        Ok(ArgModel::Undefine(rest_after(s, undefine_eq_lit().len() as int)))
    } else if s == dash_lit() {
        Ok(ArgModel::Stdin)
    } else if s.len() > 0 && s[0] == 45 {
        Err(M4Error::ArgParseError)
    } else {
        Ok(ArgModel::InputFile(s))
    }
}

fn help_vec() -> (r: Vec<u8>)
    ensures
        r@ == help_lit(),
{
    let mut v: Vec<u8> = Vec::new();
    v.push(45);
    v.push(45);
    v.push(104);
    v.push(101);
    v.push(108);
    v.push(112);
    proof {
        assert(v@ =~= help_lit());
    }
    v
}

fn fatal_warning_vec() -> (r: Vec<u8>)
    ensures
        r@ == fatal_warning_lit(),
{
    let mut v: Vec<u8> = Vec::new();
    v.push(45);
    v.push(45);
    v.push(102);
    v.push(97);
    v.push(116);
    v.push(97);
    v.push(108);
    v.push(45);
    v.push(119);
    v.push(97);
    v.push(114);
    v.push(110);
    v.push(105);
    v.push(110);
    v.push(103);
    proof {
        assert(v@ =~= fatal_warning_lit());
    }
    v
}

fn gnu_vec() -> (r: Vec<u8>)
    ensures
        r@ == gnu_lit(),
{
    let mut v: Vec<u8> = Vec::new();
    v.push(45);
    v.push(45);
    v.push(103);
    v.push(110);
    v.push(117);
    proof {
        assert(v@ =~= gnu_lit());
    }
    v
}

fn traditional_vec() -> (r: Vec<u8>)
    ensures
        r@ == traditional_lit(),
{
    let mut v: Vec<u8> = Vec::new();
    v.push(45);
    v.push(45);
    v.push(116);
    v.push(114);
    v.push(97);
    v.push(100);
    v.push(105);
    v.push(116);
    v.push(105);
    v.push(111);
    v.push(110);
    v.push(97);
    v.push(108);
    proof {
        assert(v@ =~= traditional_lit());
    }
    v
}

fn debug_eq_vec() -> (r: Vec<u8>)
    ensures
        r@ == debug_eq_lit(),
{
    let mut v: Vec<u8> = Vec::new();
    v.push(45);
    v.push(45);
    v.push(100);
    v.push(101);
    v.push(98);
    v.push(117);
    v.push(103);
    v.push(61);
    proof {
        assert(v@ =~= debug_eq_lit());
    }
    v
}

fn debugfile_eq_vec() -> (r: Vec<u8>)
    ensures
        r@ == debugfile_eq_lit(),
{
    let mut v: Vec<u8> = Vec::new();
    v.push(45);
    v.push(45);
    v.push(100);
    v.push(101);
    v.push(98);
    v.push(117);
    v.push(103);
    v.push(102);
    v.push(105);
    v.push(108);
    v.push(101);
    v.push(61);
    proof {
        assert(v@ =~= debugfile_eq_lit());
    }
    v
}

fn include_eq_vec() -> (r: Vec<u8>)
    ensures
        r@ == include_eq_lit(),
{
    let mut v: Vec<u8> = Vec::new();
    v.push(45);
    v.push(45);
    v.push(105);
    v.push(110);
    v.push(99);
    v.push(108);
    v.push(117);
    v.push(100);
    v.push(101);
    v.push(61);
    proof {
        assert(v@ =~= include_eq_lit());
    }
    v
}

fn nesting_limit_eq_vec() -> (r: Vec<u8>)
    ensures
        r@ == nesting_limit_eq_lit(),
{
    let mut v: Vec<u8> = Vec::new();
    v.push(45);
    v.push(45);
    v.push(110);
    v.push(101);
    v.push(115);
    v.push(116);
    v.push(105);
    v.push(110);
    v.push(103);
    v.push(45);
    v.push(108);
    v.push(105);
    v.push(109);
    v.push(105);
    v.push(116);
    v.push(61);
    proof {
        assert(v@ =~= nesting_limit_eq_lit());
    }
    v
}

fn reload_state_eq_vec() -> (r: Vec<u8>)
    ensures
        r@ == reload_state_eq_lit(),
{
    let mut v: Vec<u8> = Vec::new();
    v.push(45);
    v.push(45);
    v.push(114);
    v.push(101);
    v.push(108);
    v.push(111);
    v.push(97);
    v.push(100);
    v.push(45);
    v.push(115);
    v.push(116);
    v.push(97);
    v.push(116);
    v.push(101);
    v.push(61);
    proof {
        assert(v@ =~= reload_state_eq_lit());
    }
    v
}

fn trace_eq_vec() -> (r: Vec<u8>)
    ensures
        r@ == trace_eq_lit(),
{
    let mut v: Vec<u8> = Vec::new();
    v.push(45);
    v.push(45);
    v.push(116);
    v.push(114);
    v.push(97);
    v.push(99);
    v.push(101);
    v.push(61);
    proof {
        assert(v@ =~= trace_eq_lit());
    }
    v
}

fn undefine_eq_vec() -> (r: Vec<u8>)
    ensures
        r@ == undefine_eq_lit(),
{
    let mut v: Vec<u8> = Vec::new();
    v.push(45);
    v.push(45);
    v.push(117);
    v.push(110);
    v.push(100);
    v.push(101);
    v.push(102);
    v.push(105);
    v.push(110);
    v.push(101);
    v.push(61);
    proof {
        assert(v@ =~= undefine_eq_lit());
    }
    v
}

fn dash_vec() -> (r: Vec<u8>)
    ensures
        r@ == dash_lit(),
{
    let mut v: Vec<u8> = Vec::new();
    v.push(45);
    proof {
        assert(v@ =~= dash_lit());
    }
    v
}


fn starts_with_exec(a: &Vec<u8>, p: &Vec<u8>) -> (r: bool)
    ensures
        r <==> starts_with(a@, p@),
{
    let pl = p.len();
    if pl > a.len() {
        return false;
    }
    let mut i: usize = 0;
    while i < pl
        invariant
            pl == p@.len() <= a@.len(),
            0 <= i <= pl,
            forall|k: int| 0 <= k < i ==> a@[k] == p@[k],
        decreases pl - i,
    {
        if a[i] != p[i] {
            proof {
                assert(a@.subrange(0, pl as int)[i as int] != p@[i as int]);
            }
            return false;
        }
        i += 1;
    }
    proof {
        assert(a@.subrange(0, pl as int) =~= p@);
    }
    true
}

fn parse_u64_rec(s: &Vec<u8>, i: usize, v: u64) -> (r: Option<u64>)
    requires
        i <= s@.len(),
    ensures
        match u64_digits_val(s@, i as int, v as int) {
            Some(x) => r == Some(x as u64) && 0 <= x <= u64::MAX,
            None => r is None,
        },
    decreases s@.len() - i,
{
    if i >= s.len() {
        Some(v)
    } else {
        let c = s[i];
        if 48 <= c && c <= 57 {
            let dg = (c - 48) as u64;
            if v > (u64::MAX - dg) / 10 {
                None
            } else {
                parse_u64_rec(s, i + 1, v * 10 + dg)
            }
        } else {
            None
        }
    }
}

/// Parses an unsigned decimal number (optional leading `+`); `None` on any
/// malformation or overflow.
pub fn parse_u64(s: &Vec<u8>) -> (r: Option<u64>)
    ensures
        match parse_u64_model(s@) {
            Some(x) => r == Some(x as u64) && 0 <= x <= u64::MAX,
            None => r is None,
        },
{
    let st: usize = if s.len() > 0 && s[0] == 43 {
        1
    } else {
        0
    };
    if s.len() - st == 0 {
        None
    } else {
        parse_u64_rec(s, st, 0)
    }
}

/// Classifies one command-line argument, exactly as `classify_model` says:
/// the recognized flags, `-` for stdin, a plain input path, and the two
/// rejections that are fatal argument errors.
pub fn classify_arg(arg: &Vec<u8>) -> (r: Result<ArgKind, M4Error>)
    ensures
        match r {
            Ok(k) => classify_model(arg@) == Ok::<ArgModel, M4Error>(k@),
            Err(e) => classify_model(arg@) == Err::<ArgModel, M4Error>(e),
        },
{
    let l_help = help_vec();
    if bytes_eq(arg, &l_help) {
        return Ok(ArgKind::Help);
    }
    let l_fw = fatal_warning_vec();
    if bytes_eq(arg, &l_fw) {
        return Ok(ArgKind::FatalWarning);
    }
    let l_gnu = gnu_vec();
    if bytes_eq(arg, &l_gnu) {
        return Ok(ArgKind::Gnu);
    }
    let l_trad = traditional_vec();
    if bytes_eq(arg, &l_trad) {
        return Ok(ArgKind::Traditional);
    }
    let l_debug = debug_eq_vec();
    if starts_with_exec(arg, &l_debug) {
        return Ok(ArgKind::DebugFlags(copy_range(arg, l_debug.len(), arg.len())));
    }
    let l_debugfile = debugfile_eq_vec();
    if starts_with_exec(arg, &l_debugfile) {
        return Ok(ArgKind::DebugFile(copy_range(arg, l_debugfile.len(), arg.len())));
    }
    let l_include = include_eq_vec();
    if starts_with_exec(arg, &l_include) {
        return Ok(ArgKind::IncludePath(copy_range(arg, l_include.len(), arg.len())));
    }
    let l_nl = nesting_limit_eq_vec();
    if starts_with_exec(arg, &l_nl) {
        let tail = copy_range(arg, l_nl.len(), arg.len());
        return match parse_u64(&tail) {
            Some(v) => Ok(ArgKind::NestingLimit(v)),
            None => Err(M4Error::ArgParseError),
        };
    }
    let l_rs = reload_state_eq_vec();
    if starts_with_exec(arg, &l_rs) {
        return Ok(ArgKind::ReloadStatePath(copy_range(arg, l_rs.len(), arg.len())));
    }
    let l_trace = trace_eq_vec();
    if starts_with_exec(arg, &l_trace) {
        return Ok(ArgKind::Trace(copy_range(arg, l_trace.len(), arg.len())));
    }
    let l_undef = undefine_eq_vec();
    if starts_with_exec(arg, &l_undef) {
        return Ok(ArgKind::Undefine(copy_range(arg, l_undef.len(), arg.len())));
    }
    let l_dash = dash_vec();
    if bytes_eq(arg, &l_dash) {
        return Ok(ArgKind::Stdin);
    }
    if arg.len() > 0 && arg[0] == 45 {
        return Err(M4Error::ArgParseError);
    }
    Ok(ArgKind::InputFile(crate::table::clone_bytes(arg)))
}

} // verus!
