use lc_m4::divert::DiversionStore;
use lc_m4::table::{MacroTable, MacroValue};

fn text(s: &[u8]) -> MacroValue {
    MacroValue::Text(s.to_vec())
}

fn lookup_text(t: &MacroTable, name: &[u8]) -> Option<Vec<u8>> {
    match t.lookup(&name.to_vec()) {
        Some(MacroValue::Text(v)) => Some(v.clone()),
        Some(MacroValue::Builtin(v)) => Some(v.clone()),
        None => None,
    }
}

#[test]
fn define_shadows_and_undefine_removes_all() {
    let mut t = MacroTable::new();
    t.define(b"a".to_vec(), text(b"one"));
    t.define(b"a".to_vec(), text(b"two"));
    assert_eq!(lookup_text(&t, b"a"), Some(b"two".to_vec()));
    t.undefine(&b"a".to_vec());
    assert_eq!(lookup_text(&t, b"a"), None);
}

#[test]
fn pushdef_popdef_restores_previous() {
    let mut t = MacroTable::new();
    t.define(b"a".to_vec(), text(b"one"));
    t.pushdef(b"a".to_vec(), text(b"two"));
    assert_eq!(lookup_text(&t, b"a"), Some(b"two".to_vec()));
    t.popdef(&b"a".to_vec());
    assert_eq!(lookup_text(&t, b"a"), Some(b"one".to_vec()));
    t.popdef(&b"a".to_vec());
    assert_eq!(lookup_text(&t, b"a"), None);
    t.popdef(&b"a".to_vec());
    assert_eq!(lookup_text(&t, b"a"), None);
}

#[test]
fn lookup_ignores_other_names() {
    let mut t = MacroTable::new();
    t.define(b"a".to_vec(), text(b"one"));
    t.define(b"b".to_vec(), text(b"two"));
    t.undefine(&b"a".to_vec());
    assert_eq!(lookup_text(&t, b"b"), Some(b"two".to_vec()));
}

#[test]
fn write_to_primary_is_immediate() {
    let mut d = DiversionStore::new();
    d.write(&b"now".to_vec());
    assert_eq!(d.take_primary(), b"now".to_vec());
}

#[test]
fn write_to_positive_diversion_waits_for_undivert() {
    let mut d = DiversionStore::new();
    d.set_current(3);
    d.write(&b"later".to_vec());
    assert_eq!(d.take_primary(), b"".to_vec());
    d.set_current(0);
    d.undivert(3);
    assert_eq!(d.take_primary(), b"later".to_vec());
    d.set_current(0);
    d.undivert(3);
    assert_eq!(d.take_primary(), b"".to_vec());
}

#[test]
fn write_to_negative_diversion_discards() {
    let mut d = DiversionStore::new();
    d.set_current(-2);
    d.write(&b"gone".to_vec());
    d.set_current(0);
    d.undivert(1);
    assert_eq!(d.take_primary(), b"".to_vec());
}

#[test]
fn flush_all_drains_in_ascending_order() {
    let mut d = DiversionStore::new();
    d.set_current(2);
    d.write(&b"second".to_vec());
    d.set_current(1);
    d.write(&b"first ".to_vec());
    d.flush_all();
    assert_eq!(d.take_primary(), b"first second".to_vec());
}

#[test]
fn undivert_out_of_range_is_noop() {
    let mut d = DiversionStore::new();
    d.write(&b"x".to_vec());
    d.undivert(7);
    d.undivert(-1);
    assert_eq!(d.take_primary(), b"x".to_vec());
}
