//! Laws of the grammar: what holds of every input.

use vstd::prelude::*;
use vstd::utf8::{
    char_is_scalar, char_u32_cast, encode_scalar, encode_utf8, encode_utf8_decode_utf8,
    encode_utf8_valid_utf8, has_width_1_encoding, is_scalar,
};
use crate::grammar::{
    blank_lines_end, blanks_end, comment_end, document, expression, is_blank, item_statement,
    lemma_blank_lines_end_bounds, lemma_blanks_end_bounds, lemma_item_statements_bounds,
    lemma_line_break_pos_bounds, lemma_property_statement_bounds, line_break_pos,
    line_ending_end, property_run, property_statement, quoted_body, quoted_scalar,
    unicode_escape, BACKSLASH, CARRIAGE_RETURN, DELETE, HASH, INDENT_STEP, LINE_FEED, QUOTE,
    SPACE,
};
use crate::locality::{lemma_blank_lines_end_local, lemma_property_run_local};
use crate::value::Tree;

verus! {

/// A byte that stands for itself in the body of a quoted scalar.
pub open spec fn is_body_byte(b: u8) -> bool {
    b != QUOTE && b != BACKSLASH && b != DELETE
}

/// A character that can stand unescaped in the body of a quoted scalar:
/// any but `"`, `\` and DEL.
pub open spec fn is_body_char(c: char) -> bool {
    c != '"' && c != '\\' && c != '\u{7f}'
}

/// The UTF-8 encoding of a character holds `"`, `\` or DEL only where the
/// character is one of them.
proof fn lemma_encode_scalar_body_bytes(v: u32)
    requires
        is_scalar(v),
        v != 0x22 && v != 0x5c && v != 0x7f,
    ensures
        forall|j: int|
            0 <= j < encode_scalar(v).len() ==> is_body_byte(#[trigger] encode_scalar(v)[j]),
{
    if has_width_1_encoding(v) {
        assert((v & 0x7F) as u8 == v) by (bit_vector)
            requires
                v <= 0x7f,
        ;
    } else {
        assert(0xC0u8 | ((v >> 6) & 0x1F) as u8 >= 0x80) by (bit_vector);
        assert(0xE0u8 | ((v >> 12) & 0x0F) as u8 >= 0x80) by (bit_vector);
        assert(0xF0u8 | ((v >> 18) & 0x7) as u8 >= 0x80) by (bit_vector);
        assert(0x80u8 | (v & 0x3F) as u8 >= 0x80) by (bit_vector);
        assert(0x80u8 | ((v >> 6) & 0x3F) as u8 >= 0x80) by (bit_vector);
        assert(0x80u8 | ((v >> 12) & 0x3F) as u8 >= 0x80) by (bit_vector);
    }
}

/// The UTF-8 encoding of a text without `"`, `\` and DEL holds none of
/// these bytes.
pub proof fn lemma_encode_utf8_body_bytes(text: Seq<char>)
    requires
        forall|i: int| 0 <= i < text.len() ==> is_body_char(#[trigger] text[i]),
    ensures
        forall|j: int|
            0 <= j < encode_utf8(text).len() ==> is_body_byte(#[trigger] encode_utf8(text)[j]),
    decreases text.len(),
{
    if text.len() > 0 {
        let head = text[0];
        let first = encode_scalar(head as u32);
        let others = encode_utf8(text.drop_first());
        assert(is_body_char(head));
        char_is_scalar(head);
        char_u32_cast(head, head as u32);
        assert('"' == 0x22u32 as char && '\\' == 0x5cu32 as char && '\u{7f}' == 0x7fu32 as char);
        lemma_encode_scalar_body_bytes(head as u32);
        assert forall|i: int| 0 <= i < text.drop_first().len() implies is_body_char(
            #[trigger] text.drop_first()[i],
        ) by {
            assert(text.drop_first()[i] == text[i + 1]);
        }
        lemma_encode_utf8_body_bytes(text.drop_first());
        assert forall|j: int| 0 <= j < encode_utf8(text).len() implies is_body_byte(
            #[trigger] encode_utf8(text)[j],
        ) by {
            if j < first.len() {
                assert(encode_utf8(text)[j] == first[j]);
            } else {
                assert(encode_utf8(text)[j] == others[j - first.len()]);
            }
        }
    }
}

/// A stretch of bytes that stand for themselves is decoded to itself: the
/// body goes on after it with these bytes added to what was decoded.
pub proof fn lemma_quoted_body_plain_stretch(s: Seq<u8>, p: int, e: int, acc: Seq<u8>)
    requires
        0 <= p <= e <= s.len(),
        forall|j: int| p <= j < e ==> is_body_byte(#[trigger] s[j]),
    ensures
        quoted_body(s, p, acc) == quoted_body(s, e, acc + s.subrange(p, e)),
    decreases e - p,
{
    if p < e {
        assert(is_body_byte(s[p]));
        lemma_quoted_body_plain_stretch(s, p + 1, e, acc.push(s[p]));
        assert(acc.push(s[p]) + s.subrange(p + 1, e) =~= acc + s.subrange(p, e));
    } else {
        assert(acc + s.subrange(p, e) =~= acc);
    }
}

/// Quoting changes nothing. A text that holds no `"`, no `\` and no DEL,
/// and so any text free of quotes, backslashes and control characters, is
/// read back as itself from between two quotes, whatever follows the
/// closing quote.
pub proof fn lemma_quoting_round_trip(text: Seq<char>, rest: Seq<u8>)
    requires
        forall|i: int| 0 <= i < text.len() ==> is_body_char(#[trigger] text[i]),
    ensures
        quoted_scalar(seq![QUOTE] + encode_utf8(text) + seq![QUOTE] + rest, 0) == Some(
            (text, encode_utf8(text).len() as int + 2),
        ),
{
    let body = encode_utf8(text);
    let s = seq![QUOTE] + body + seq![QUOTE] + rest;
    let e: int = body.len() as int + 1;
    lemma_encode_utf8_body_bytes(text);
    assert forall|j: int| 1 <= j < e implies is_body_byte(#[trigger] s[j]) by {
        assert(s[j] == body[j - 1]);
    }
    lemma_quoted_body_plain_stretch(s, 1, e, Seq::empty());
    assert(Seq::<u8>::empty() + s.subrange(1, e) =~= body);
    assert(s[e] == QUOTE);
    encode_utf8_valid_utf8(text);
    encode_utf8_decode_utf8(text);
}

/// The bytes that stand for a character in the body of a quoted scalar: an
/// escape sequence for `"`, `\` and DEL, which cannot stand there
/// themselves, and the character's UTF-8 encoding for any other.
pub open spec fn escaped_char(c: char) -> Seq<u8> {
    if c == '"' {
        seq![BACKSLASH, QUOTE]
    } else if c == '\\' {
        seq![BACKSLASH, BACKSLASH]
    } else if c == '\u{7f}' {
        seq![BACKSLASH, 0x75u8, 0x30u8, 0x30u8, 0x37u8, 0x66u8]
    } else {
        encode_scalar(c as u32)
    }
}

/// A body for a quoted scalar that stands for the text: each character's
/// bytes, one after the other.
pub open spec fn escaped(text: Seq<char>) -> Seq<u8>
    decreases text.len(),
{
    if text.len() == 0 {
        Seq::empty()
    } else {
        escaped_char(text[0]) + escaped(text.drop_first())
    }
}

/// Where the escaped form of a text stands at `p`, the body of a quoted
/// scalar goes on after it with the text's UTF-8 encoding added to what was
/// decoded.
pub proof fn lemma_quoted_body_escaped(s: Seq<u8>, p: int, text: Seq<char>, acc: Seq<u8>)
    requires
        0 <= p,
        p + escaped(text).len() <= s.len(),
        s.subrange(p, p + escaped(text).len()) == escaped(text),
    ensures
        quoted_body(s, p, acc) == quoted_body(
            s,
            p + escaped(text).len(),
            acc + encode_utf8(text),
        ),
    decreases text.len(),
{
    if text.len() == 0 {
        assert(acc + encode_utf8(text) =~= acc);
    } else {
        let c = text[0];
        let head = escaped_char(c);
        let tail = text.drop_first();
        let whole = escaped(text);
        let q = p + head.len();
        assert forall|j: int| 0 <= j < whole.len() implies s[p + j] == #[trigger] whole[j] by {
            assert(s.subrange(p, p + whole.len())[j] == s[p + j]);
        }
        assert forall|j: int| 0 <= j < head.len() implies s[p + j] == #[trigger] head[j] by {
            assert(whole[j] == head[j]);
        }
        assert(s.subrange(q, q + escaped(tail).len()) =~= escaped(tail)) by {
            assert forall|j: int| 0 <= j < escaped(tail).len() implies s[q + j] == escaped(
                tail,
            )[j] by {
                assert(whole[head.len() + j] == escaped(tail)[j]);
            }
        }
        char_is_scalar(c);
        char_u32_cast(c, c as u32);
        assert('"' == 0x22u32 as char && '\\' == 0x5cu32 as char && '\u{7f}' == 0x7fu32 as char);
        let step = acc + encode_scalar(c as u32);
        assert(quoted_body(s, p, acc) == quoted_body(s, q, step)) by {
            if c == '"' || c == '\\' {
                assert(s[p] == head[0] && s[p + 1] == head[1]);
            } else if c == '\u{7f}' {
                assert(s[p] == head[0] && s[p + 1] == head[1] && s[p + 2] == head[2] && s[p + 3]
                    == head[3] && s[p + 4] == head[4] && s[p + 5] == head[5]);
                assert(unicode_escape(s, p + 2) == Some(0x7fu32));
            } else {
                lemma_encode_scalar_body_bytes(c as u32);
                assert forall|j: int| p <= j < q implies is_body_byte(#[trigger] s[j]) by {
                    assert(s[j] == head[j - p]);
                }
                lemma_quoted_body_plain_stretch(s, p, q, acc);
                assert(s.subrange(p, q) =~= head);
            }
        }
        lemma_quoted_body_escaped(s, q, tail, step);
        assert(step + encode_utf8(tail) =~= acc + encode_utf8(text));
    }
}

/// Every text can be quoted. Between two quotes, the escaped form of any
/// text is read back as that text, whatever follows the closing quote.
pub proof fn lemma_escaped_round_trip(text: Seq<char>, rest: Seq<u8>)
    ensures
        quoted_scalar(seq![QUOTE] + escaped(text) + seq![QUOTE] + rest, 0) == Some(
            (text, escaped(text).len() as int + 2),
        ),
{
    let body = escaped(text);
    let s = seq![QUOTE] + body + seq![QUOTE] + rest;
    let e: int = body.len() as int + 1;
    assert(s.subrange(1, e) =~= body);
    lemma_quoted_body_escaped(s, 1, text, Seq::empty());
    assert(Seq::<u8>::empty() + encode_utf8(text) =~= encode_utf8(text));
    assert(s[e] == QUOTE);
    encode_utf8_valid_utf8(text);
    encode_utf8_decode_utf8(text);
}

/// The precedence among the forms of an expression. A value that begins on
/// the line of its key or marker is a scalar, never a nested block.
/// Directly after a line terminator the value is a nested block: an array,
/// which is not empty, exactly where an item statement stands at the nested
/// indentation, and an object everywhere else, so that the two never mix.
pub proof fn lemma_expression_precedence(s: Seq<u8>, p: int, n: nat)
    ensures
        match line_ending_end(s, p) {
            None => expression(s, p, n) matches Some((v, _)) ==> v is Text,
            Some(q) => match expression(s, p, n) {
                None => false,
                Some((v, _)) => if item_statement(s, q, n + INDENT_STEP as nat) is Some {
                    v matches Tree::List(items) && items.len() >= 1
                } else {
                    v is Dict
                },
            },
        },
{
    match line_ending_end(s, p) {
        None => {},
        Some(q) => {
            lemma_item_statements_bounds(s, q, n + INDENT_STEP as nat);
        },
    }
}

/// A comment line contributes nothing: a run of property statements that
/// meets one goes on after it with the object unchanged.
pub proof fn lemma_comment_contributes_nothing(
    s: Seq<u8>,
    p: int,
    n: nat,
    acc: Map<Seq<char>, Tree>,
)
    requires
        0 <= p <= s.len(),
        comment_end(s, p) is Some,
    ensures
        property_run(s, p, n, acc) == property_run(s, comment_end(s, p)->0, n, acc),
{
}

/// Whitespace that ends within an input ends there too when more input
/// follows.
proof fn lemma_blanks_end_extends(c: Seq<u8>, s: Seq<u8>, p: int)
    requires
        0 <= p,
        blanks_end(c, p) < c.len(),
    ensures
        blanks_end(c + s, p) == blanks_end(c, p),
    decreases c.len() - p,
{
    if p < c.len() {
        assert((c + s)[p] == c[p]);
        if is_blank(c[p]) {
            lemma_blanks_end_extends(c, s, p + 1);
        }
    }
}

/// A line break that is found within an input is found there too when
/// more input follows.
proof fn lemma_line_break_pos_extends(c: Seq<u8>, s: Seq<u8>, p: int)
    requires
        0 <= p,
        line_break_pos(c, p) < c.len(),
    ensures
        line_break_pos(c + s, p) == line_break_pos(c, p),
    decreases c.len() - p,
{
    if p < c.len() {
        assert((c + s)[p] == c[p]);
        if c[p] != CARRIAGE_RETURN && c[p] != LINE_FEED {
            lemma_line_break_pos_extends(c, s, p + 1);
        }
    }
}

/// A line terminator within an input stands there too when more input
/// follows.
proof fn lemma_line_ending_end_extends(c: Seq<u8>, s: Seq<u8>, p: int)
    requires
        line_ending_end(c, p) is Some,
    ensures
        line_ending_end(c + s, p) == line_ending_end(c, p),
{
    assert((c + s)[p] == c[p]);
    if p + 1 < c.len() {
        assert((c + s)[p + 1] == c[p + 1]);
    }
}

/// Blank lines that run to the end of an input go on, when more input
/// follows, with the blank lines at the start of what follows.
proof fn lemma_blank_lines_end_extends(c: Seq<u8>, s: Seq<u8>, p: int)
    requires
        0 <= p <= c.len(),
        blank_lines_end(c, p) == c.len(),
    ensures
        blank_lines_end(c + s, p) == c.len() + blank_lines_end(s, 0),
    decreases c.len() - p,
{
    lemma_blanks_end_bounds(c, p);
    let b = blanks_end(c, p);
    match line_ending_end(c, b) {
        Some(q) => {
            lemma_blanks_end_extends(c, s, p);
            lemma_line_ending_end_extends(c, s, b);
            lemma_blank_lines_end_extends(c, s, q);
        },
        None => {
            lemma_blank_lines_end_local(c, s, 0);
        },
    }
}

/// A run of property statements passes over blank lines.
proof fn lemma_property_run_skips_blank_lines(
    s: Seq<u8>,
    p: int,
    n: nat,
    acc: Map<Seq<char>, Tree>,
)
    requires
        0 <= p <= s.len(),
    ensures
        property_run(s, p, n, acc) == property_run(s, blank_lines_end(s, p), n, acc),
{
    lemma_blanks_end_bounds(s, p);
}

/// Comment lines are transparent. Where comment lines, with or without a
/// body, are put before a document, parsing yields what it yields without
/// them: the same object, or a failure alike.
pub proof fn lemma_comment_lines_are_transparent(comment: Seq<u8>, s: Seq<u8>)
    requires
        comment_end(comment, 0) == Some(comment.len() as int),
    ensures
        document(comment + s) == document(s),
{
    let c = comment;
    let t = c + s;
    let k = c.len() as int;
    let j = blank_lines_end(s, 0);
    lemma_blanks_end_bounds(c, 0);
    let q = blanks_end(c, 0);
    assert(comment_end(t, 0) == Some(k + j)) by {
        if q < c.len() && c[q] == HASH {
            let r = line_break_pos(c, q + 1);
            lemma_line_break_pos_bounds(c, q + 1);
            let r2 = line_ending_end(c, r)->0;
            lemma_blanks_end_extends(c, s, 0);
            assert(t[q] == c[q]);
            lemma_line_break_pos_extends(c, s, q + 1);
            lemma_line_ending_end_extends(c, s, r);
            lemma_blank_lines_end_extends(c, s, r2);
        } else {
            let r2 = line_ending_end(c, q)->0;
            lemma_blanks_end_extends(c, s, 0);
            assert(t[q] == c[q]);
            lemma_line_ending_end_extends(c, s, q);
            lemma_blank_lines_end_extends(c, s, r2);
        }
    }
    lemma_blank_lines_end_bounds(s, 0);
    lemma_property_run_local(c, s, j, 0, Map::empty());
    lemma_property_run_skips_blank_lines(s, 0, 0, Map::empty());
}

/// A property statement assigns its value to its key: the run goes on
/// after it with the key's value replaced, whatever the key had.
pub proof fn lemma_statement_assigns(s: Seq<u8>, p: int, n: nat, acc: Map<Seq<char>, Tree>)
    requires
        0 <= p <= s.len(),
        comment_end(s, p) is None,
        property_statement(s, p, n) is Some,
    ensures
        ({
            let (key, value, q) = property_statement(s, p, n)->0;
            property_run(s, p, n, acc) == property_run(s, q, n, acc.insert(key, value))
        }),
{
    lemma_property_statement_bounds(s, p, n);
}

/// The last assignment wins. Where two statements with the same key follow
/// one another, the object is what it would be had the first assigned
/// nothing: no trace of the first value is left, and no error is raised.
pub proof fn lemma_last_assignment_wins(s: Seq<u8>, p: int, n: nat, acc: Map<Seq<char>, Tree>)
    requires
        0 <= p <= s.len(),
        comment_end(s, p) is None,
        property_statement(s, p, n) matches Some((first_key, _, q)) && (comment_end(s, q) is None
            && (property_statement(s, q, n) matches Some((second_key, _, _)) && first_key
            == second_key)),
    ensures
        ({
            let (_, _, q) = property_statement(s, p, n)->0;
            let (key, value, r) = property_statement(s, q, n)->0;
            property_run(s, p, n, acc) == property_run(s, r, n, acc.insert(key, value))
        }),
{
    let (key, first, q) = property_statement(s, p, n)->0;
    let (_, second, r) = property_statement(s, q, n)->0;
    lemma_statement_assigns(s, p, n, acc);
    lemma_property_statement_bounds(s, p, n);
    lemma_statement_assigns(s, q, n, acc.insert(key, first));
    assert(acc.insert(key, first).insert(key, second) =~= acc.insert(key, second));
}

/// Indentation is exact. Where a statement stands at indentation `n`,
/// exactly `n` spaces begin its line: the byte after them is no space. So a
/// line that is indented by more or by less is no statement of the block.
pub proof fn lemma_indentation_is_exact(s: Seq<u8>, p: int, n: nat)
    requires
        property_statement(s, p, n) is Some || item_statement(s, p, n) is Some,
    ensures
        0 <= p && p + n < s.len(),
        forall|i: int| p <= i < p + n ==> s[i] == SPACE,
        s[p + n] != SPACE,
{
}

} // verus!
