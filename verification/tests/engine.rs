use lc_m4::delim::Delimiters;
use lc_m4::divert::DiversionStore;
use lc_m4::errors::M4Error;
use lc_m4::table::{MacroTable, MacroValue};

fn run(input: &[u8], table: &MacroTable) -> Vec<u8> {
    let mut div = DiversionStore::new();
    let delims = Delimiters::new();
    let data = input.to_vec();
    lc_m4::engine::process_text(&data, table, &mut div, &delims, 1024).unwrap();
    div.take_primary()
}

#[test]
fn scenario_quoted_text() {
    let table = MacroTable::new();
    let out = run(b"This is `quoted text'.\n", &table);
    assert_eq!(out, b"This is quoted text.\n".to_vec());
}

#[test]
fn scenario_comment_line() {
    let table = MacroTable::new();
    let out = run(b"# ignore `x'\nend\n", &table);
    assert_eq!(out, b"# ignore `x'\nend\n".to_vec());
}

#[test]
fn quote_hides_macro_names() {
    let mut table = MacroTable::new();
    table.define(b"foo".to_vec(), MacroValue::Text(b"bar".to_vec()));
    let out = run(b"`foo'", &table);
    assert_eq!(out, b"foo".to_vec());
}

#[test]
fn text_macro_expands() {
    let mut table = MacroTable::new();
    table.define(b"foo".to_vec(), MacroValue::Text(b"bar".to_vec()));
    let out = run(b"foo", &table);
    assert_eq!(out, b"bar".to_vec());
}

#[test]
fn text_macro_with_arguments() {
    let mut table = MacroTable::new();
    table.define(b"greet".to_vec(), MacroValue::Text(b"hi $1".to_vec()));
    let out = run(b"greet(bob)", &table);
    assert_eq!(out, b"hi bob".to_vec());
}

#[test]
fn positional_tokens() {
    let mut table = MacroTable::new();
    table.define(b"m".to_vec(), MacroValue::Text(b"$0:$#:$*".to_vec()));
    let out = run(b"m(a,b)", &table);
    assert_eq!(out, b"m:2:a,b".to_vec());
}

#[test]
fn expansion_is_rescanned() {
    let mut table = MacroTable::new();
    table.define(b"inner".to_vec(), MacroValue::Text(b"deep".to_vec()));
    table.define(b"outer".to_vec(), MacroValue::Text(b"inner".to_vec()));
    let out = run(b"outer", &table);
    assert_eq!(out, b"deep".to_vec());
}

#[test]
fn nesting_guard_fires() {
    let mut table = MacroTable::new();
    table.define(b"x".to_vec(), MacroValue::Text(b"x".to_vec()));
    let mut div = DiversionStore::new();
    let delims = Delimiters::new();
    let data = b"x".to_vec();
    let r = lc_m4::engine::process_text(&data, &table, &mut div, &delims, 5);
    assert_eq!(r, Err(M4Error::NestingLimitExceeded));
}

#[test]
fn divert_builtin_routes_output() {
    let mut table = MacroTable::new();
    table.define(b"divert".to_vec(), MacroValue::Builtin(b"divert".to_vec()));
    let out = run(b"a divert(-1)b divert(0)c", &table);
    assert_eq!(out, b"a c".to_vec());
}

#[test]
fn divert_and_undivert_builtins() {
    let mut table = MacroTable::new();
    table.define(b"divert".to_vec(), MacroValue::Builtin(b"divert".to_vec()));
    table.define(b"undivert".to_vec(), MacroValue::Builtin(b"undivert".to_vec()));
    let out = run(b"divert(1)world divert(0)hello undivert(1)", &table);
    assert_eq!(out, b"hello world ".to_vec());
}

#[test]
fn unknown_word_passes_through() {
    let table = MacroTable::new();
    let out = run(b"nothing special(here)", &table);
    assert_eq!(out, b"nothing special(here)".to_vec());
}

#[test]
fn unterminated_quote_closes_at_end() {
    let table = MacroTable::new();
    let out = run(b"`open", &table);
    assert_eq!(out, b"open".to_vec());
}

#[test]
fn unterminated_comment_closes_at_end() {
    let table = MacroTable::new();
    let out = run(b"# tail", &table);
    assert_eq!(out, b"# tail".to_vec());
}

#[test]
fn nested_quotes_keep_inner_delimiters() {
    let table = MacroTable::new();
    let out = run(b"``a''", &table);
    assert_eq!(out, b"`a'".to_vec());
}

#[test]
fn undivert_without_arguments_flushes_all() {
    let mut table = MacroTable::new();
    table.define(b"divert".to_vec(), MacroValue::Builtin(b"divert".to_vec()));
    table.define(
        b"undivert".to_vec(),
        MacroValue::Builtin(b"undivert".to_vec()),
    );
    let out = run(b"divert(2)b divert(1)a divert(0)undivert", &table);
    assert_eq!(out, b"a b ".to_vec());
}

#[test]
fn empty_input_gives_empty_output() {
    let table = MacroTable::new();
    let out = run(b"", &table);
    assert_eq!(out, b"".to_vec());
}

#[test]
fn changed_quote_delimiters_take_effect() {
    let mut table = MacroTable::new();
    table.define(b"foo".to_vec(), MacroValue::Text(b"bar".to_vec()));
    let mut delims = Delimiters::new();
    delims.set_quote(&b"[".to_vec(), &b"]".to_vec()).unwrap();
    let mut div = DiversionStore::new();
    let data = b"[foo] `foo'".to_vec();
    lc_m4::engine::process_text(&data, &table, &mut div, &delims, 1024).unwrap();
    assert_eq!(div.take_primary(), b"foo `foo'".to_vec());
}

#[test]
fn nested_parens_do_not_split_arguments() {
    let mut table = MacroTable::new();
    table.define(b"m".to_vec(), MacroValue::Text(b"<$1>".to_vec()));
    let out = run(b"m(f(a,b))", &table);
    assert_eq!(out, b"<f(a,b)>".to_vec());
}

#[test]
fn quoted_commas_do_not_split_arguments() {
    let mut table = MacroTable::new();
    table.define(b"m".to_vec(), MacroValue::Text(b"<$1>".to_vec()));
    let out = run(b"m(`a,b')", &table);
    assert_eq!(out, b"<a,b>".to_vec());
}

#[test]
fn missing_arguments_substitute_empty() {
    let mut table = MacroTable::new();
    table.define(b"m".to_vec(), MacroValue::Text(b"[$1|$2]".to_vec()));
    let out = run(b"m(only)", &table);
    assert_eq!(out, b"[only|]".to_vec());
}
