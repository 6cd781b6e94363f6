use yarnpkg_parsers::scalar::{
    decode_text, double_quoted_scalar, plain_scalar, scalar, unicode_escape_digits,
};

fn quoted(s: &[u8]) -> Option<(String, usize)> {
    double_quoted_scalar(s, 0)
}

fn matched(s: &str, len: usize) -> Option<(String, usize)> {
    Some((s.to_string(), len))
}

#[test]
fn quoting_plain_text_changes_nothing() {
    assert_eq!(quoted(b"\"hello world\""), matched("hello world", 13));
    assert_eq!(quoted(b"\"a: b, [c] # d\""), matched("a: b, [c] # d", 15));
    assert_eq!(
        quoted("\"\u{e9}\u{65e5}\u{1f600}\"".as_bytes()),
        matched("\u{e9}\u{65e5}\u{1f600}", 11)
    );
}

#[test]
fn quoting_the_empty_text() {
    assert_eq!(quoted(b"\"\""), matched("", 2));
}

#[test]
fn escape_quote() {
    assert_eq!(quoted(b"\"\\\"\""), matched("\"", 4));
}

#[test]
fn escape_backslash() {
    assert_eq!(quoted(b"\"\\\\\""), matched("\\", 4));
}

#[test]
fn escape_solidus() {
    assert_eq!(quoted(b"\"\\/\""), matched("/", 4));
}

#[test]
fn escape_line_feed() {
    assert_eq!(quoted(b"\"\\n\""), matched("\n", 4));
}

#[test]
fn escape_carriage_return() {
    assert_eq!(quoted(b"\"\\r\""), matched("\r", 4));
}

#[test]
fn escape_tab() {
    assert_eq!(quoted(b"\"\\t\""), matched("\t", 4));
}

#[test]
fn escape_backspace() {
    assert_eq!(quoted(b"\"\\b\""), matched("\u{8}", 4));
}

#[test]
fn escape_form_feed() {
    assert_eq!(quoted(b"\"\\f\""), matched("\u{c}", 4));
}

#[test]
fn escape_unicode() {
    assert_eq!(quoted(b"\"\\u0041\""), matched("A", 8));
    assert_eq!(quoted(b"\"\\u00e9\""), matched("\u{e9}", 8));
    assert_eq!(quoted(b"\"\\u00E9\""), matched("\u{e9}", 8));
    assert_eq!(quoted(b"\"\\u65E5\""), matched("\u{65e5}", 8));
    assert_eq!(quoted(b"\"\\uffff\""), matched("\u{ffff}", 8));
    assert_eq!(quoted(b"\"\\u0000\""), matched("\u{0}", 8));
}

#[test]
fn escape_unicode_takes_four_digits() {
    assert_eq!(quoted(b"\"\\u00411\""), matched("A1", 9));
}

#[test]
fn escapes_among_text() {
    assert_eq!(quoted(b"\"a\\tb\\u0043\\\\d\""), matched("a\tbC\\d", 15));
}

#[test]
fn unknown_escape_fails() {
    assert_eq!(quoted(b"\"\\q\""), None);
    assert_eq!(quoted(b"\"\\N\""), None);
    assert_eq!(quoted(b"\"\\0\""), None);
}

#[test]
fn bad_unicode_escape_fails() {
    assert_eq!(quoted(b"\"\\uZZZZ\""), None);
    assert_eq!(quoted(b"\"\\u12\""), None);
    assert_eq!(quoted(b"\"\\u12g4\""), None);
    assert_eq!(quoted(b"\"\\U0041\""), None);
}

#[test]
fn surrogate_escape_fails() {
    assert_eq!(quoted(b"\"\\ud800\""), None);
    assert_eq!(quoted(b"\"\\udfff\""), None);
    assert_eq!(quoted(b"\"\\ud7ff\""), matched("\u{d7ff}", 8));
    assert_eq!(quoted(b"\"\\ue000\""), matched("\u{e000}", 8));
}

#[test]
fn backslash_at_the_end_fails() {
    assert_eq!(quoted(b"\"\\"), None);
    assert_eq!(quoted(b"\"abc\\"), None);
}

#[test]
fn quoted_scalar_needs_both_quotes() {
    assert_eq!(quoted(b"\"abc"), None);
    assert_eq!(quoted(b"abc\""), None);
    assert_eq!(quoted(b"\""), None);
    assert_eq!(quoted(b""), None);
}

#[test]
fn delete_byte_ends_the_body() {
    assert_eq!(quoted(b"\"a\x7fb\""), None);
}

#[test]
fn control_bytes_stand_for_themselves_in_a_body() {
    assert_eq!(quoted(b"\"a\nb\x01\""), matched("a\nb\u{1}", 6));
}

#[test]
fn quoted_scalar_stops_after_its_closing_quote() {
    assert_eq!(double_quoted_scalar(b"k: \"v\" rest", 3), matched("v", 6));
}

#[test]
fn position_beyond_the_input_matches_nothing() {
    assert_eq!(double_quoted_scalar(b"\"a\"", 3), None);
    assert_eq!(double_quoted_scalar(b"\"a\"", 9), None);
    assert_eq!(plain_scalar(b"a", 1), None);
    assert_eq!(plain_scalar(b"a", 9), None);
    assert_eq!(scalar(b"a", 7), None);
}

#[test]
fn plain_scalar_is_the_matched_bytes() {
    assert_eq!(plain_scalar(b"abc", 0), matched("abc", 3));
    assert_eq!(plain_scalar(b"abc\n", 0), matched("abc", 3));
    assert_eq!(plain_scalar(b"1.2.3", 0), matched("1.2.3", 5));
}

#[test]
fn plain_scalar_may_hold_spaces() {
    assert_eq!(plain_scalar(b"hello big world\n", 0), matched("hello big world", 15));
    assert_eq!(plain_scalar(b"a  b", 0), matched("a  b", 4));
}

#[test]
fn plain_scalar_leaves_trailing_spaces() {
    assert_eq!(plain_scalar(b"abc  \n", 0), matched("abc", 3));
    assert_eq!(plain_scalar(b"abc #", 0), matched("abc", 3));
}

#[test]
fn plain_scalar_stops_at_its_stop_bytes() {
    for stop in b"\r\n\t,][{}:#\"'" {
        let input = [b'a', b'b', *stop, b'c'];
        assert_eq!(plain_scalar(&input, 0), matched("ab", 2));
    }
}

#[test]
fn plain_scalar_begins_with_no_reserved_byte() {
    for first in b"\r\n\t ?:,][{}#&*!|>'\"%@`-" {
        let input = [*first, b'a'];
        assert_eq!(plain_scalar(&input, 0), None);
    }
}

#[test]
fn reserved_bytes_are_free_after_the_first() {
    assert_eq!(plain_scalar(b"a-b?c&d*e!f|g>h%i@j`k", 0), matched("a-b?c&d*e!f|g>h%i@j`k", 21));
    assert_eq!(plain_scalar(b"a -b", 0), matched("a -b", 4));
}

#[test]
fn plain_scalar_is_not_unescaped() {
    assert_eq!(plain_scalar(b"a\\nb", 0), matched("a\\nb", 4));
}

#[test]
fn plain_scalar_must_be_utf8() {
    assert_eq!(plain_scalar(b"a\xffb", 0), None);
    assert_eq!(plain_scalar("\u{e9}t\u{e9}".as_bytes(), 0), matched("\u{e9}t\u{e9}", 5));
}

#[test]
fn scalar_tries_quoted_first() {
    assert_eq!(scalar(b"\"a b\" c", 0), matched("a b", 5));
    assert_eq!(scalar(b"a b\" c", 0), matched("a b", 3));
    assert_eq!(scalar(b"\"a b", 0), None);
}

#[test]
fn unicode_digits() {
    assert_eq!(unicode_escape_digits(b"0041", 0), Some(0x41));
    assert_eq!(unicode_escape_digits(b"xxAbCd", 2), Some(0xabcd));
    assert_eq!(unicode_escape_digits(b"D800", 0), None);
    assert_eq!(unicode_escape_digits(b"004", 0), None);
    assert_eq!(unicode_escape_digits(b"00g1", 0), None);
}

#[test]
fn escapes_of_each_encoded_width() {
    assert_eq!(quoted(b"\"\\u007f\""), matched("\u{7f}", 8));
    assert_eq!(quoted(b"\"\\u0080\""), matched("\u{80}", 8));
    assert_eq!(quoted(b"\"\\u07ff\""), matched("\u{7ff}", 8));
    assert_eq!(quoted(b"\"\\u0800\""), matched("\u{800}", 8));
    assert_eq!(quoted(b"\"\\uFFFD\""), matched("\u{fffd}", 8));
}

#[test]
fn decoding_text() {
    assert_eq!(decode_text(b"abc"), Some("abc".to_string()));
    assert_eq!(decode_text("\u{e9}".as_bytes()), Some("\u{e9}".to_string()));
    assert_eq!(decode_text(b""), Some(String::new()));
    assert_eq!(decode_text(b"\xc3"), None);
    assert_eq!(decode_text(b"\xed\xa0\x80"), None);
    assert_eq!(decode_text(b"\xc0\x80"), None);
}
