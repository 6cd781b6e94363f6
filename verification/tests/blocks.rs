use yarnpkg_parsers::block::{
    colon, expression, item_marker, item_statement, item_statements, property_statement,
    property_statements,
};
use yarnpkg_parsers::value::{assign, Entry, Value};

fn text(s: &str) -> Value {
    Value::String(s.to_string())
}

fn entry(key: &str, value: Value) -> Entry {
    Entry { key: key.to_string(), value }
}

#[test]
fn colon_with_whitespace_on_both_sides() {
    assert_eq!(colon(b":x", 0), Some(1));
    assert_eq!(colon(b" \t: \tx", 0), Some(5));
    assert_eq!(colon(b"a:", 1), Some(2));
}

#[test]
fn colon_is_required() {
    assert_eq!(colon(b"  x", 0), None);
    assert_eq!(colon(b"", 0), None);
    assert_eq!(colon(b"\n:", 0), None);
}

#[test]
fn item_marker_needs_whitespace_after_the_dash() {
    assert_eq!(item_marker(b"- x", 0), Some(2));
    assert_eq!(item_marker(b"-\t  x", 0), Some(4));
    assert_eq!(item_marker(b"-x", 0), None);
    assert_eq!(item_marker(b"-\n", 0), None);
    assert_eq!(item_marker(b"-", 0), None);
    assert_eq!(item_marker(b"x - ", 0), None);
}

#[test]
fn expression_on_the_same_line_is_a_scalar() {
    assert_eq!(expression(b"b\nc: d\n", 0, 0), Some((text("b"), 2)));
    assert_eq!(expression(b"k: \"b c\"\n\n\nx", 3, 0), Some((text("b c"), 11)));
}

#[test]
fn expression_after_a_line_break_is_a_nested_block() {
    assert_eq!(
        expression(b"\n  - x\n", 0, 0),
        Some((Value::Array(vec![text("x")]), 7))
    );
    assert_eq!(
        expression(b"\n  k: v\n", 0, 0),
        Some((Value::Object(vec![entry("k", text("v"))]), 8))
    );
    assert_eq!(expression(b"\nk: v\n", 0, 0), Some((Value::Object(vec![]), 1)));
}

#[test]
fn nested_block_is_one_step_further_in() {
    assert_eq!(
        expression(b"\n      k: v\n", 0, 4),
        Some((Value::Object(vec![entry("k", text("v"))]), 12))
    );
    assert_eq!(expression(b"\n     k: v\n", 0, 4), Some((Value::Object(vec![]), 1)));
    assert_eq!(expression(b"\n       k: v\n", 0, 4), Some((Value::Object(vec![]), 1)));
}

#[test]
fn expression_needs_a_value_or_a_line_break() {
    assert_eq!(expression(b"", 0, 0), None);
    assert_eq!(expression(b"b", 0, 0), None);
    assert_eq!(expression(b"- x\n", 0, 0), None);
    assert_eq!(expression(b"b c: d\n", 0, 0), None);
}

#[test]
fn expression_at_an_indentation_beyond_any_input() {
    assert_eq!(
        expression(b"\n# c\n  k: v\n", 0, usize::MAX),
        Some((Value::Object(vec![]), 5))
    );
    assert_eq!(
        expression(b"\n# c\n  k: v\n", 0, usize::MAX - 1),
        Some((Value::Object(vec![]), 5))
    );
    assert_eq!(expression(b"v\n", 0, usize::MAX), Some((text("v"), 2)));
}

#[test]
fn property_statement_yields_key_and_value() {
    assert_eq!(
        property_statement(b"  k: v\nx", 0, 2),
        Some(("k".to_string(), text("v"), 7))
    );
    assert_eq!(property_statement(b"k: v\n", 0, 0), Some(("k".to_string(), text("v"), 5)));
}

#[test]
fn property_statement_at_another_indentation_does_not_match() {
    assert_eq!(property_statement(b"  k: v\n", 0, 0), None);
    assert_eq!(property_statement(b"  k: v\n", 0, 1), None);
    assert_eq!(property_statement(b"  k: v\n", 0, 3), None);
    assert_eq!(property_statement(b"  k: v\n", 0, 4), None);
}

#[test]
fn property_run_stops_at_the_first_line_that_is_no_statement() {
    let (value, end) = property_statements(b"  a: 1\n  b: 2\nc: 3\n", 0, 2);
    assert_eq!(value, Value::Object(vec![entry("a", text("1")), entry("b", text("2"))]));
    assert_eq!(end, 14);
}

#[test]
fn property_run_may_be_empty() {
    assert_eq!(property_statements(b"- x\n", 0, 0), (Value::Object(vec![]), 0));
    assert_eq!(property_statements(b"", 0, 0), (Value::Object(vec![]), 0));
    assert_eq!(property_statements(b"a: b\n", 9, 0), (Value::Object(vec![]), 9));
}

#[test]
fn property_run_passes_over_comment_lines() {
    let (value, end) = property_statements(b"# c\n  a: 1\n\n  # d\n  b: 2\n", 0, 2);
    assert_eq!(value, Value::Object(vec![entry("a", text("1")), entry("b", text("2"))]));
    assert_eq!(end, 25);
}

#[test]
fn item_statement_yields_its_value() {
    assert_eq!(item_statement(b"  - v\nx", 0, 2), Some((text("v"), 6)));
    assert_eq!(item_statement(b"- v\n", 0, 0), Some((text("v"), 4)));
    assert_eq!(item_statement(b" - v\n", 0, 0), None);
    assert_eq!(item_statement(b"-v\n", 0, 0), None);
}

#[test]
fn item_run_needs_one_item() {
    assert_eq!(item_statements(b"a: b\n", 0, 0), None);
    assert_eq!(item_statements(b"", 0, 0), None);
    assert_eq!(item_statements(b"# c\n- x\n", 0, 0), None);
}

#[test]
fn item_run_takes_every_item_at_its_indentation() {
    assert_eq!(
        item_statements(b"- x\n- y\n- z\n", 0, 0),
        Some((Value::Array(vec![text("x"), text("y"), text("z")]), 12))
    );
    assert_eq!(
        item_statements(b"  - x\n  - y\n- z\n", 0, 2),
        Some((Value::Array(vec![text("x"), text("y")]), 12))
    );
}

#[test]
fn item_run_holds_no_comment_line() {
    assert_eq!(
        item_statements(b"- x\n\n# c\n- y\n", 0, 0),
        Some((Value::Array(vec![text("x")]), 5))
    );
}

#[test]
fn assigning_a_new_key_appends() {
    let mut entries = vec![entry("a", text("1"))];
    assign(&mut entries, "b".to_string(), text("2"));
    assert_eq!(entries, vec![entry("a", text("1")), entry("b", text("2"))]);
}

#[test]
fn assigning_a_key_that_stands_twice_replaces_the_later_entry() {
    let mut entries = vec![entry("a", text("1")), entry("a", text("2"))];
    assign(&mut entries, "a".to_string(), text("3"));
    assert_eq!(entries, vec![entry("a", text("1")), entry("a", text("3"))]);
}

#[test]
fn assigning_a_known_key_replaces() {
    let mut entries = vec![entry("a", text("1")), entry("b", text("2"))];
    assign(&mut entries, "a".to_string(), Value::Null);
    assert_eq!(entries, vec![entry("a", Value::Null), entry("b", text("2"))]);
}
