use yarnpkg_parsers::parser::{parse, ErrorKind, ParseError, Production};
use yarnpkg_parsers::value::{Entry, Value};

fn text(s: &str) -> Value {
    Value::String(s.to_string())
}

fn entry(key: &str, value: Value) -> Entry {
    Entry { key: key.to_string(), value }
}

fn object(entries: Vec<Entry>) -> Value {
    Value::Object(entries)
}

fn kind_of(r: Result<Value, ParseError>) -> (usize, ErrorKind) {
    match r {
        Ok(v) => panic!("parsed to {:?}", v),
        Err(e) => (e.offset, e.kind),
    }
}

#[test]
fn empty_input_is_an_empty_object() {
    assert_eq!(parse(b""), Ok(object(vec![])));
}

#[test]
fn inline_scalar_is_a_leaf() {
    assert_eq!(parse(b"a: b\n"), Ok(object(vec![entry("a", text("b"))])));
}

#[test]
fn scalars_are_never_typed() {
    assert_eq!(
        parse(b"n: 123\nt: true\nz: null\n"),
        Ok(object(vec![
            entry("n", text("123")),
            entry("t", text("true")),
            entry("z", text("null")),
        ]))
    );
}

#[test]
fn nested_block_at_two_spaces() {
    assert_eq!(
        parse(b"a:\n  b: 1\n"),
        Ok(object(vec![entry("a", object(vec![entry("b", text("1"))]))]))
    );
}

#[test]
fn nested_block_at_one_space_is_not_taken() {
    let r = parse(b"a:\n b: 1\n");
    assert_eq!(
        r,
        Err(ParseError {
            offset: 3,
            kind: ErrorKind::IndentationMismatch,
            trace: vec![
                Production::Comment,
                Production::PropertyStatement,
                Production::QuotedScalar,
                Production::PlainScalar,
            ],
        })
    );
}

#[test]
fn nested_block_at_three_spaces_is_not_taken() {
    assert_eq!(kind_of(parse(b"a:\n   b: 1\n")), (3, ErrorKind::IndentationMismatch));
}

#[test]
fn key_without_nested_value_is_an_empty_object() {
    assert_eq!(
        parse(b"a:\nb: 1\n"),
        Ok(object(vec![entry("a", object(vec![])), entry("b", text("1"))]))
    );
}

#[test]
fn item_run_is_an_array() {
    assert_eq!(
        parse(b"a:\n  - x\n  - y\n"),
        Ok(object(vec![entry("a", Value::Array(vec![text("x"), text("y")]))]))
    );
}

#[test]
fn items_and_properties_do_not_mix() {
    assert_eq!(kind_of(parse(b"a:\n  - x\n  b: 1\n")), (9, ErrorKind::IndentationMismatch));
    assert_eq!(kind_of(parse(b"a:\n  b: 1\n  - x\n")), (10, ErrorKind::IndentationMismatch));
}

#[test]
fn item_may_hold_a_nested_object() {
    assert_eq!(
        parse(b"a:\n  - \n    k: v\n  - w\n"),
        Ok(object(vec![entry(
            "a",
            Value::Array(vec![object(vec![entry("k", text("v"))]), text("w")])
        )]))
    );
}

#[test]
fn item_may_hold_a_nested_array() {
    assert_eq!(
        parse(b"a:\n  -\t\n    - x\n"),
        Ok(object(vec![entry("a", Value::Array(vec![Value::Array(vec![text("x")])]))]))
    );
}

#[test]
fn three_levels() {
    assert_eq!(
        parse(b"a:\n  b:\n    c: d\n  e: f\ng: h\n"),
        Ok(object(vec![
            entry(
                "a",
                object(vec![entry("b", object(vec![entry("c", text("d"))])), entry("e", text("f"))])
            ),
            entry("g", text("h")),
        ]))
    );
}

#[test]
fn last_assignment_wins() {
    assert_eq!(parse(b"a: 1\na: 2\n"), Ok(object(vec![entry("a", text("2"))])));
}

#[test]
fn reassigned_key_keeps_its_place() {
    assert_eq!(
        parse(b"a: 1\nb: 2\na: 3\n"),
        Ok(object(vec![entry("a", text("3")), entry("b", text("2"))]))
    );
}

#[test]
fn reassignment_replaces_a_whole_subtree() {
    assert_eq!(
        parse(b"a:\n  b: 1\na: c\n"),
        Ok(object(vec![entry("a", text("c"))]))
    );
}

#[test]
fn full_line_comment_contributes_nothing() {
    assert_eq!(
        parse(b"# full line comment\na: 1\n"),
        Ok(object(vec![entry("a", text("1"))]))
    );
}

#[test]
fn indented_comment_and_blank_lines_are_skipped() {
    assert_eq!(
        parse(b"\n  \t# note\n\na: 1\n\n   \n# end\n"),
        Ok(object(vec![entry("a", text("1"))]))
    );
}

#[test]
fn comment_inside_a_nested_block() {
    assert_eq!(
        parse(b"a:\n# c\n  b: 1\n"),
        Ok(object(vec![entry("a", object(vec![entry("b", text("1"))]))]))
    );
}

#[test]
fn trailing_comment_is_not_stripped() {
    assert_eq!(kind_of(parse(b"a: 1 # note\n")), (0, ErrorKind::UnterminatedConstruct));
}

#[test]
fn comment_needs_its_line_ending() {
    assert_eq!(kind_of(parse(b"a: 1\n# end")), (5, ErrorKind::ResidualInput));
    assert_eq!(kind_of(parse(b"# a\rb\n")), (0, ErrorKind::ResidualInput));
}

#[test]
fn carriage_return_line_feed() {
    assert_eq!(
        parse(b"a:\r\n  b: 1\r\n\r\nc: d\r\n"),
        Ok(object(vec![
            entry("a", object(vec![entry("b", text("1"))])),
            entry("c", text("d")),
        ]))
    );
}

#[test]
fn lone_carriage_return_ends_no_line() {
    assert_eq!(kind_of(parse(b"a: b\r")), (0, ErrorKind::UnterminatedConstruct));
}

#[test]
fn statement_needs_its_line_ending() {
    assert_eq!(kind_of(parse(b"a: b")), (0, ErrorKind::UnterminatedConstruct));
    assert_eq!(kind_of(parse(b"a: 1\nb: 2")), (5, ErrorKind::UnterminatedConstruct));
}

#[test]
fn whitespace_around_the_colon() {
    assert_eq!(parse(b"a \t:\t b\n"), Ok(object(vec![entry("a", text("b"))])));
    assert_eq!(parse(b"a:b\n"), Ok(object(vec![entry("a", text("b"))])));
}

#[test]
fn whitespace_after_the_colon_belongs_to_the_colon() {
    assert_eq!(
        parse(b"a: \t\n  b: 1\n"),
        Ok(object(vec![entry("a", object(vec![entry("b", text("1"))]))]))
    );
}

#[test]
fn quoted_key_and_value() {
    assert_eq!(
        parse(b"\"a b:\": \"c # d\"\n"),
        Ok(object(vec![entry("a b:", text("c # d"))]))
    );
}

#[test]
fn malformed_escape_is_reported() {
    assert_eq!(kind_of(parse(b"a: \"\\q\"\n")), (0, ErrorKind::MalformedEscape));
    assert_eq!(kind_of(parse(b"a: \"\\uZZZZ\"\n")), (0, ErrorKind::MalformedEscape));
    assert_eq!(kind_of(parse(b"ok: 1\n\"k\\x\": v\n")), (6, ErrorKind::MalformedEscape));
}

#[test]
fn missing_closing_quote_is_reported() {
    assert_eq!(kind_of(parse(b"a: \"bc\n")), (0, ErrorKind::UnterminatedConstruct));
    assert_eq!(kind_of(parse(b"\"abc")), (0, ErrorKind::UnterminatedConstruct));
    assert_eq!(kind_of(parse(b"a: \"b\x7fc\"\n")), (0, ErrorKind::UnterminatedConstruct));
}

#[test]
fn key_without_colon_is_unterminated() {
    assert_eq!(kind_of(parse(b"abc\n")), (0, ErrorKind::UnterminatedConstruct));
}

#[test]
fn reserved_first_byte_is_residual_input() {
    assert_eq!(kind_of(parse(b"- x\n")), (0, ErrorKind::ResidualInput));
    assert_eq!(kind_of(parse(b"a: 1\n?b: 2\n")), (5, ErrorKind::ResidualInput));
    assert_eq!(kind_of(parse(b"\tb: 2\n")), (0, ErrorKind::ResidualInput));
}

#[test]
fn trace_of_a_quoted_key_that_matches() {
    assert_eq!(
        parse(b"\"a\" b\n"),
        Err(ParseError {
            offset: 0,
            kind: ErrorKind::UnterminatedConstruct,
            trace: vec![
                Production::Comment,
                Production::PropertyStatement,
                Production::QuotedScalar,
            ],
        })
    );
}

#[test]
fn no_partial_tree_beside_an_error() {
    assert!(parse(b"a: 1\nb: 2\n!\n").is_err());
}

#[test]
fn text_that_is_not_utf8_is_no_scalar() {
    assert_eq!(kind_of(parse(b"a: \xff\n")), (0, ErrorKind::UnterminatedConstruct));
    assert_eq!(kind_of(parse(b"\xc3: b\n")), (0, ErrorKind::ResidualInput));
    assert_eq!(kind_of(parse(b"a: \"\xc3\"\n")), (0, ErrorKind::UnterminatedConstruct));
}

#[test]
fn text_beyond_ascii() {
    assert_eq!(
        parse("cl\u{e9}: \u{65e5}\u{672c} \"\u{1f600}\"\n".as_bytes()),
        Err(ParseError {
            offset: 0,
            kind: ErrorKind::UnterminatedConstruct,
            trace: vec![
                Production::Comment,
                Production::PropertyStatement,
                Production::QuotedScalar,
                Production::PlainScalar,
            ],
        })
    );
    assert_eq!(
        parse("cl\u{e9}: \u{65e5}\u{672c}\nk: \"\u{1f600}\"\n".as_bytes()),
        Ok(object(vec![
            entry("cl\u{e9}", text("\u{65e5}\u{672c}")),
            entry("k", text("\u{1f600}")),
        ]))
    );
}
