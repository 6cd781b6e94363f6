use yarnpkg_parsers::lexical::{
    comment, eol_any, indentation, line_break, line_ending, space0, spaces,
};

#[test]
fn indentation_takes_exactly_the_spaces_asked_for() {
    assert_eq!(indentation(b"    a", 0, 4), Some(4));
    assert_eq!(indentation(b"    a", 0, 2), Some(2));
    assert_eq!(indentation(b"    a", 0, 0), Some(0));
    assert_eq!(indentation(b"x  a", 1, 2), Some(3));
}

#[test]
fn indentation_fails_on_fewer_spaces() {
    assert_eq!(indentation(b"  a", 0, 3), None);
    assert_eq!(indentation(b"  ", 0, 3), None);
    assert_eq!(indentation(b"", 0, 1), None);
}

#[test]
fn tabs_do_not_indent() {
    assert_eq!(indentation(b"\t\ta", 0, 2), None);
    assert_eq!(indentation(b" \ta", 0, 2), None);
}

#[test]
fn indentation_that_no_input_can_hold() {
    assert_eq!(indentation(b"   ", 1, usize::MAX), None);
    assert_eq!(indentation(b"", 0, 0), Some(0));
    assert_eq!(indentation(b"ab", 5, 0), None);
}

#[test]
fn line_ending_is_lf_or_crlf() {
    assert_eq!(line_ending(b"\nx", 0), Some(1));
    assert_eq!(line_ending(b"\r\nx", 0), Some(2));
    assert_eq!(line_ending(b"a\r\n", 1), Some(3));
}

#[test]
fn line_ending_is_nothing_else() {
    assert_eq!(line_ending(b"\r", 0), None);
    assert_eq!(line_ending(b"\rx\n", 0), None);
    assert_eq!(line_ending(b"x\n", 0), None);
    assert_eq!(line_ending(b"", 0), None);
    assert_eq!(line_ending(b"\n", 1), None);
    assert_eq!(line_ending(b"\n", 7), None);
}

#[test]
fn end_of_line_takes_the_blank_lines_that_follow() {
    assert_eq!(eol_any(b"\n\n\nx", 0), Some(3));
    assert_eq!(eol_any(b"\n  \n\t\r\nx", 0), Some(7));
    assert_eq!(eol_any(b"\nx\n", 0), Some(1));
}

#[test]
fn end_of_line_leaves_whitespace_that_ends_no_line() {
    assert_eq!(eol_any(b"\n  x", 0), Some(1));
    assert_eq!(eol_any(b"\n\n  ", 0), Some(2));
}

#[test]
fn end_of_line_needs_a_line_ending() {
    assert_eq!(eol_any(b" \n", 0), None);
    assert_eq!(eol_any(b"x", 0), None);
    assert_eq!(eol_any(b"", 0), None);
}

#[test]
fn horizontal_whitespace_is_spaces_and_tabs() {
    assert_eq!(space0(b" \t \tx", 0), 4);
    assert_eq!(space0(b"x ", 0), 0);
    assert_eq!(space0(b"  ", 0), 2);
    assert_eq!(space0(b" \n", 0), 1);
    assert_eq!(space0(b"ab", 9), 9);
}

#[test]
fn runs_of_spaces_hold_no_tab() {
    assert_eq!(spaces(b"  \t x", 0), 2);
    assert_eq!(spaces(b"x", 0), 0);
    assert_eq!(spaces(b"a   ", 1), 4);
    assert_eq!(spaces(b"ab", 9), 9);
}

#[test]
fn line_break_search() {
    assert_eq!(line_break(b"abc\ndef", 0), 3);
    assert_eq!(line_break(b"abc\rdef", 1), 3);
    assert_eq!(line_break(b"abc", 0), 3);
    assert_eq!(line_break(b"\n", 0), 0);
    assert_eq!(line_break(b"ab", 9), 9);
}

#[test]
fn comment_line_with_a_body() {
    assert_eq!(comment(b"# hello\nx", 0), Some(8));
    assert_eq!(comment(b"  \t# hello\r\nx", 0), Some(12));
    assert_eq!(comment(b"#\n", 0), Some(2));
}

#[test]
fn blank_line_is_a_comment_line() {
    assert_eq!(comment(b"\nx", 0), Some(1));
    assert_eq!(comment(b"   \nx", 0), Some(4));
}

#[test]
fn comment_line_takes_the_blank_lines_that_follow() {
    assert_eq!(comment(b"# a\n\n  \nx", 0), Some(8));
}

#[test]
fn comment_line_needs_its_line_ending() {
    assert_eq!(comment(b"# a", 0), None);
    assert_eq!(comment(b"# a\rb\n", 0), None);
    assert_eq!(comment(b"   ", 0), None);
    assert_eq!(comment(b"", 0), None);
}

#[test]
fn statement_is_no_comment_line() {
    assert_eq!(comment(b"a: b # c\n", 0), None);
    assert_eq!(comment(b"  a\n", 0), None);
}
