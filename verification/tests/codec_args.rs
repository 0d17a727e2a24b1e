use lc_m4::args::{classify_arg, parse_u64, ArgKind};
use lc_m4::codec::{decode_reload_state, encode_reload_state, read_int};
use lc_m4::delim::Delimiters;
use lc_m4::divert::DiversionStore;
use lc_m4::errors::M4Error;
use lc_m4::table::{MacroTable, MacroValue};

fn fresh() -> (MacroTable, DiversionStore, Delimiters) {
    (MacroTable::new(), DiversionStore::new(), Delimiters::new())
}

#[test]
fn scenario_version_and_comment_record() {
    let (mut t, mut d, mut del) = fresh();
    let data = b"V1\nC1,1\n#\n\n".to_vec();
    assert!(decode_reload_state(&data, &mut t, &mut d, &mut del).is_ok());
    assert_eq!(del.comment_start, b'#');
    assert_eq!(del.comment_end, b'\n');
    assert_eq!(d.take_primary(), b"".to_vec());
}

#[test]
fn scenario_diversion_record_needs_undivert() {
    let (mut t, mut d, mut del) = fresh();
    let data = b"V1\nD1,5\nhello\n".to_vec();
    assert!(decode_reload_state(&data, &mut t, &mut d, &mut del).is_ok());
    assert_eq!(d.take_primary(), b"".to_vec());
    d.set_current(0);
    d.undivert(1);
    assert_eq!(d.take_primary(), b"hello".to_vec());
}

#[test]
fn missing_version_is_fatal() {
    let (mut t, mut d, mut del) = fresh();
    let data = b"C1,1\n#\n\n".to_vec();
    assert_eq!(
        decode_reload_state(&data, &mut t, &mut d, &mut del),
        Err(M4Error::ReloadStateFormatError)
    );
}

#[test]
fn wrong_version_is_fatal() {
    let (mut t, mut d, mut del) = fresh();
    let data = b"V2\n".to_vec();
    assert_eq!(
        decode_reload_state(&data, &mut t, &mut d, &mut del),
        Err(M4Error::ReloadStateFormatError)
    );
}

#[test]
fn missing_terminator_is_fatal() {
    let (mut t, mut d, mut del) = fresh();
    let data = b"V1\nT1,1\nab".to_vec();
    assert_eq!(
        decode_reload_state(&data, &mut t, &mut d, &mut del),
        Err(M4Error::ReloadStateFormatError)
    );
}

#[test]
fn bad_delimiter_length_is_fatal() {
    let (mut t, mut d, mut del) = fresh();
    let data = b"V1\nC2,1\n##\n\n".to_vec();
    assert_eq!(
        decode_reload_state(&data, &mut t, &mut d, &mut del),
        Err(M4Error::ReloadStateFormatError)
    );
}

#[test]
fn text_and_builtin_records_bind_macros() {
    let (mut t, mut d, mut del) = fresh();
    let data = b"V1\nT3,5\nfoohello\nF6,6\ndivertdivert\n".to_vec();
    assert!(decode_reload_state(&data, &mut t, &mut d, &mut del).is_ok());
    match t.lookup(&b"foo".to_vec()) {
        Some(MacroValue::Text(v)) => assert_eq!(v, &b"hello".to_vec()),
        other => panic!("unexpected binding: {:?}", other.is_some()),
    }
    match t.lookup(&b"divert".to_vec()) {
        Some(MacroValue::Builtin(v)) => assert_eq!(v, &b"divert".to_vec()),
        other => panic!("unexpected binding: {:?}", other.is_some()),
    }
}

#[test]
fn raw_bytes_pass_to_primary_output() {
    let (mut t, mut d, mut del) = fresh();
    let data = b"V1\nhi".to_vec();
    assert!(decode_reload_state(&data, &mut t, &mut d, &mut del).is_ok());
    assert_eq!(d.take_primary(), b"hi".to_vec());
}

#[test]
fn comments_in_reload_state_are_skipped() {
    let (mut t, mut d, mut del) = fresh();
    let data = b"# leading\nV1\n# trailing\n".to_vec();
    assert!(decode_reload_state(&data, &mut t, &mut d, &mut del).is_ok());
    assert_eq!(d.take_primary(), b"".to_vec());
}

#[test]
fn encode_of_fresh_state_is_canonical() {
    let (t, d, del) = fresh();
    let bytes = encode_reload_state(&t, &del, &d);
    assert_eq!(bytes, b"V1\nQ1,1\n`'\nD0,0\n\nC1,1\n#\n\n".to_vec());
}

#[test]
fn reload_round_trip_restores_state() {
    let mut t = MacroTable::new();
    t.define(b"foo".to_vec(), MacroValue::Text(b"bar $1".to_vec()));
    t.define(b"divert".to_vec(), MacroValue::Builtin(b"divert".to_vec()));
    let mut d = DiversionStore::new();
    d.set_current(2);
    d.write(&b"pending".to_vec());
    let mut del = Delimiters::new();
    del.set_quote(&b"[".to_vec(), &b"]".to_vec()).unwrap();
    let bytes = encode_reload_state(&t, &del, &d);

    let (mut t2, mut d2, mut del2) = fresh();
    assert!(decode_reload_state(&bytes, &mut t2, &mut d2, &mut del2).is_ok());
    assert_eq!(del2.comment_start, del.comment_start);
    assert_eq!(del2.comment_end, del.comment_end);
    assert_eq!(del2.quote_start, del.quote_start);
    assert_eq!(del2.quote_end, del.quote_end);
    match t2.lookup(&b"foo".to_vec()) {
        Some(MacroValue::Text(v)) => assert_eq!(v, &b"bar $1".to_vec()),
        _ => panic!("foo not restored"),
    }
    match t2.lookup(&b"divert".to_vec()) {
        Some(MacroValue::Builtin(v)) => assert_eq!(v, &b"divert".to_vec()),
        _ => panic!("divert not restored"),
    }
    assert_eq!(d2.current, 2);
    assert_eq!(d2.take_primary(), b"".to_vec());
    d2.set_current(0);
    d2.undivert(2);
    assert_eq!(d2.take_primary(), b"pending".to_vec());
}

#[test]
fn read_int_reads_decimal_fields() {
    assert_eq!(read_int(&b"12,".to_vec(), 0, b','), Ok((12, 3)));
    assert_eq!(read_int(&b"-4\n".to_vec(), 0, b'\n'), Ok((-4, 3)));
    assert_eq!(read_int(&b",".to_vec(), 0, b','), Ok((0, 1)));
    assert_eq!(
        read_int(&b"x,".to_vec(), 0, b','),
        Err(M4Error::ReloadStateFormatError)
    );
    assert_eq!(
        read_int(&b"12".to_vec(), 0, b','),
        Err(M4Error::ReloadStateFormatError)
    );
    assert_eq!(
        read_int(&b"99999999999999999999,".to_vec(), 0, b','),
        Err(M4Error::ReloadStateFormatError)
    );
}

#[test]
fn skip_comment_consumes_through_end() {
    let data = b"abc#def\nrest".to_vec();
    assert_eq!(lc_m4::engine::skip_comment(&data, 4, b'\n'), 8);
    assert_eq!(lc_m4::engine::skip_comment(&data, 9, b'\n'), 12);
}

#[test]
fn classify_recognizes_flags() {
    assert!(matches!(classify_arg(&b"--help".to_vec()), Ok(ArgKind::Help)));
    assert!(matches!(
        classify_arg(&b"--fatal-warning".to_vec()),
        Ok(ArgKind::FatalWarning)
    ));
    assert!(matches!(classify_arg(&b"--gnu".to_vec()), Ok(ArgKind::Gnu)));
    assert!(matches!(
        classify_arg(&b"--traditional".to_vec()),
        Ok(ArgKind::Traditional)
    ));
    assert!(matches!(classify_arg(&b"-".to_vec()), Ok(ArgKind::Stdin)));
    match classify_arg(&b"--debug=xyz".to_vec()) {
        Ok(ArgKind::DebugFlags(v)) => assert_eq!(v, b"xyz".to_vec()),
        _ => panic!("debug flags"),
    }
    match classify_arg(&b"--nesting-limit=10".to_vec()) {
        Ok(ArgKind::NestingLimit(v)) => assert_eq!(v, 10),
        _ => panic!("nesting limit"),
    }
    match classify_arg(&b"--reload-state=f.rs".to_vec()) {
        Ok(ArgKind::ReloadStatePath(v)) => assert_eq!(v, b"f.rs".to_vec()),
        _ => panic!("reload state"),
    }
    match classify_arg(&b"input.m4".to_vec()) {
        Ok(ArgKind::InputFile(v)) => assert_eq!(v, b"input.m4".to_vec()),
        _ => panic!("input file"),
    }
}

#[test]
fn classify_rejects_bad_arguments() {
    assert_eq!(
        classify_arg(&b"--nesting-limit=abc".to_vec()),
        Err(M4Error::ArgParseError)
    );
    assert_eq!(classify_arg(&b"-x".to_vec()), Err(M4Error::ArgParseError));
    assert_eq!(
        classify_arg(&b"--unknown".to_vec()),
        Err(M4Error::ArgParseError)
    );
}

#[test]
fn parse_u64_accepts_plain_and_plus() {
    assert_eq!(parse_u64(&b"42".to_vec()), Some(42));
    assert_eq!(parse_u64(&b"+42".to_vec()), Some(42));
    assert_eq!(parse_u64(&b"".to_vec()), None);
    assert_eq!(parse_u64(&b"4a".to_vec()), None);
    assert_eq!(parse_u64(&b"99999999999999999999".to_vec()), None);
}

#[test]
fn set_delimiters_requires_single_bytes() {
    let mut del = Delimiters::new();
    assert_eq!(
        del.set_comment(&b"ab".to_vec(), &b"\n".to_vec()),
        Err(M4Error::UnsupportedDelimiterLength)
    );
    assert_eq!(del.comment_start, b'#');
    assert!(del.set_quote(&b"[".to_vec(), &b"]".to_vec()).is_ok());
    assert_eq!(del.quote_start, b'[');
    assert_eq!(del.quote_end, b']');
}

#[test]
fn reload_round_trip_with_changed_comment_delimiters() {
    let t = MacroTable::new();
    let mut d = DiversionStore::new();
    d.set_current(-3);
    let mut del = Delimiters::new();
    del.set_comment(&b"%".to_vec(), &b";".to_vec()).unwrap();
    let bytes = encode_reload_state(&t, &del, &d);

    let (mut t2, mut d2, mut del2) = fresh();
    assert!(decode_reload_state(&bytes, &mut t2, &mut d2, &mut del2).is_ok());
    assert_eq!(del2.comment_start, b'%');
    assert_eq!(del2.comment_end, b';');
    assert_eq!(d2.current, -3);
    assert_eq!(d2.take_primary(), b"".to_vec());
}
