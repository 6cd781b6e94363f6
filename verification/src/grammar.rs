//! The grammar, as mathematical functions over a byte sequence.
//!
//! A production is a function of the whole input `s` and a position `p` in
//! it. It yields `None` where it does not match at `p`, and otherwise what
//! it recognised together with the position just after the match. Nothing
//! here is executable: these definitions are what the parser is proved
//! against.

use vstd::prelude::*;
use vstd::utf8::*;
use crate::value::Tree;

verus! {

pub const TAB: u8 = 0x09;

pub const LINE_FEED: u8 = 0x0a;

pub const CARRIAGE_RETURN: u8 = 0x0d;

pub const SPACE: u8 = 0x20;

pub const QUOTE: u8 = 0x22;

pub const HASH: u8 = 0x23;

pub const DASH: u8 = 0x2d;

pub const COLON: u8 = 0x3a;

pub const BACKSLASH: u8 = 0x5c;

pub const DELETE: u8 = 0x7f;

/// The number of spaces by which a nested block is indented further than
/// the statement that opens it.
pub const INDENT_STEP: usize = 2;

// ---------------------------------------------------------------------
// Lexical primitives
// ---------------------------------------------------------------------

/// Horizontal whitespace: a space or a tab.
pub open spec fn is_blank(b: u8) -> bool {
    b == SPACE || b == TAB
}

/// The position after the longest run of horizontal whitespace at `p`.
pub open spec fn blanks_end(s: Seq<u8>, p: int) -> int
    decreases s.len() - p,
{
    if 0 <= p < s.len() && is_blank(s[p]) {
        blanks_end(s, p + 1)
    } else {
        p
    }
}

/// The position after the longest run of spaces at `p`.
pub open spec fn spaces_end(s: Seq<u8>, p: int) -> int
    decreases s.len() - p,
{
    if 0 <= p < s.len() && s[p] == SPACE {
        spaces_end(s, p + 1)
    } else {
        p
    }
}

/// One line terminator at `p`: a line feed, or a carriage return directly
/// followed by a line feed.
pub open spec fn line_ending_end(s: Seq<u8>, p: int) -> Option<int> {
    if 0 <= p < s.len() && s[p] == LINE_FEED {
        Some(p + 1)
    } else if 0 <= p && p + 1 < s.len() && s[p] == CARRIAGE_RETURN && s[p + 1] == LINE_FEED {
        Some(p + 2)
    } else {
        None
    }
}

/// The position after every line at `p` that holds nothing but optional
/// horizontal whitespace and its terminator.
pub open spec fn blank_lines_end(s: Seq<u8>, p: int) -> int
    decreases s.len() - p,
    via blank_lines_end_decreases
{
    match line_ending_end(s, blanks_end(s, p)) {
        Some(q) => blank_lines_end(s, q),
        None => p,
    }
}

#[via_fn]
proof fn blank_lines_end_decreases(s: Seq<u8>, p: int) {
    lemma_blanks_end_bounds(s, p);
}

/// A run of horizontal whitespace ends at or after its start, and within
/// the input if it started there.
pub proof fn lemma_blanks_end_bounds(s: Seq<u8>, p: int)
    ensures
        p <= blanks_end(s, p),
        0 <= p <= s.len() ==> blanks_end(s, p) <= s.len(),
    decreases s.len() - p,
{
    if 0 <= p < s.len() && is_blank(s[p]) {
        lemma_blanks_end_bounds(s, p + 1);
    }
}

/// End of line: one line terminator, then any number of blank lines.
pub open spec fn eol_end(s: Seq<u8>, p: int) -> Option<int> {
    match line_ending_end(s, p) {
        Some(q) => Some(blank_lines_end(s, q)),
        None => None,
    }
}

/// Indentation: exactly `n` spaces at `p`. Tabs do not indent.
pub open spec fn indentation_end(s: Seq<u8>, p: int, n: nat) -> Option<int> {
    if 0 <= p && p + n <= s.len() && (forall|i: int| p <= i < p + n ==> s[i] == SPACE) {
        Some(p + n)
    } else {
        None
    }
}

/// The position of the first carriage return or line feed at or after `p`,
/// or the end of the input if there is none.
pub open spec fn line_break_pos(s: Seq<u8>, p: int) -> int
    decreases s.len() - p,
{
    if 0 <= p < s.len() && s[p] != CARRIAGE_RETURN && s[p] != LINE_FEED {
        line_break_pos(s, p + 1)
    } else {
        p
    }
}

/// A comment line: optional horizontal whitespace, optionally a `#` and
/// everything up to the line's terminator, then an end of line. A line of
/// whitespace alone is a comment line too.
pub open spec fn comment_end(s: Seq<u8>, p: int) -> Option<int> {
    let q = blanks_end(s, p);
    if 0 <= q < s.len() && s[q] == HASH {
        eol_end(s, line_break_pos(s, q + 1))
    } else {
        eol_end(s, q)
    }
}

// ---------------------------------------------------------------------
// Scalars
// ---------------------------------------------------------------------

/// The text that a run of bytes stands for: its UTF-8 decoding, where the
/// bytes are well-formed UTF-8.
pub open spec fn text_of(bytes: Seq<u8>) -> Option<Seq<char>> {
    if valid_utf8(bytes) {
        Some(decode_utf8(bytes))
    } else {
        None
    }
}

/// The bytes with which no plain scalar begins: line terminators,
/// horizontal whitespace and ``? : , ] [ { } # & * ! | > ' " % @ ` -``.
pub open spec fn is_reserved_start(b: u8) -> bool {
    ||| b == CARRIAGE_RETURN
    ||| b == LINE_FEED
    ||| b == TAB
    ||| b == SPACE
    ||| b == 0x3f  // ?
    ||| b == COLON
    ||| b == 0x2c  // ,
    ||| b == 0x5d  // ]
    ||| b == 0x5b  // [
    ||| b == 0x7b  // {
    ||| b == 0x7d  // }
    ||| b == HASH
    ||| b == 0x26  // &
    ||| b == 0x2a  // *
    ||| b == 0x21  // !
    ||| b == 0x7c  // |
    ||| b == 0x3e  // >
    ||| b == 0x27  // '
    ||| b == QUOTE
    ||| b == 0x25  // %
    ||| b == 0x40  // @
    ||| b == 0x60  // `
    ||| b == DASH
}

/// The bytes at which a plain scalar stops: line terminators, tabs and
/// `, ] [ { } : # " '`, and a space that no further text follows.
pub open spec fn is_plain_stop(b: u8) -> bool {
    ||| b == CARRIAGE_RETURN
    ||| b == LINE_FEED
    ||| b == TAB
    ||| b == SPACE
    ||| b == 0x2c  // ,
    ||| b == 0x5d  // ]
    ||| b == 0x5b  // [
    ||| b == 0x7b  // {
    ||| b == 0x7d  // }
    ||| b == COLON
    ||| b == HASH
    ||| b == QUOTE
    ||| b == 0x27  // '
}

/// A run of spaces ends at or after its start, and within the input if it
/// started there.
pub proof fn lemma_spaces_end_bounds(s: Seq<u8>, p: int)
    ensures
        p <= spaces_end(s, p),
        0 <= p <= s.len() ==> spaces_end(s, p) <= s.len(),
    decreases s.len() - p,
{
    if 0 <= p < s.len() && s[p] == SPACE {
        lemma_spaces_end_bounds(s, p + 1);
    }
}

/// Where a plain scalar that has reached `q` ends: it goes on over any
/// spaces at `q` as long as a byte that is no stop follows them, and ends
/// at `q` otherwise, leaving such spaces out.
pub open spec fn plain_end(s: Seq<u8>, q: int) -> int
    decreases s.len() - q,
    via plain_end_decreases
{
    let w = spaces_end(s, q);
    if 0 <= w < s.len() && !is_plain_stop(s[w]) {
        plain_end(s, w + 1)
    } else {
        q
    }
}

#[via_fn]
proof fn plain_end_decreases(s: Seq<u8>, q: int) {
    lemma_spaces_end_bounds(s, q);
}

/// A plain scalar at `p`: it begins with a byte that is not reserved and
/// runs to `plain_end`; its text is exactly the bytes matched.
pub open spec fn plain_scalar(s: Seq<u8>, p: int) -> Option<(Seq<char>, int)> {
    if 0 <= p < s.len() && !is_reserved_start(s[p]) {
        let e = plain_end(s, p + 1);
        match text_of(s.subrange(p, e)) {
            Some(t) => Some((t, e)),
            None => None,
        }
    } else {
        None
    }
}

/// The value of a hexadecimal digit.
pub open spec fn hex_value(b: u8) -> Option<u32> {
    if 0x30 <= b <= 0x39 {
        Some((b - 0x30) as u32)
    } else if 0x41 <= b <= 0x46 {
        Some((b - 0x41 + 10) as u32)
    } else if 0x61 <= b <= 0x66 {
        Some((b - 0x61 + 10) as u32)
    } else {
        None
    }
}

/// The Unicode scalar value that the four hexadecimal digits at `p` spell.
/// There is none where fewer than four hexadecimal digits stand there, or
/// where their value is a surrogate.
pub open spec fn unicode_escape(s: Seq<u8>, p: int) -> Option<u32> {
    if 0 <= p && p + 4 <= s.len() {
        match (hex_value(s[p]), hex_value(s[p + 1]), hex_value(s[p + 2]), hex_value(s[p + 3])) {
            (Some(a), Some(b), Some(c), Some(d)) => {
                let v = ((a * 16 + b) * 16 + c) * 16 + d;
                if 0xD800 <= v <= 0xDFFF {
                    None
                } else {
                    Some(v as u32)
                }
            },
            _ => None,
        }
    } else {
        None
    }
}

/// The character that a one-letter escape stands for, by the letter that
/// follows the backslash.
pub open spec fn simple_escape(b: u8) -> Option<u8> {
    if b == QUOTE {
        Some(QUOTE)
    } else if b == BACKSLASH {
        Some(BACKSLASH)
    } else if b == 0x2f {
        Some(0x2fu8)  // solidus
    } else if b == 0x6e {
        Some(LINE_FEED)  // n
    } else if b == 0x72 {
        Some(CARRIAGE_RETURN)  // r
    } else if b == 0x74 {
        Some(TAB)  // t
    } else if b == 0x62 {
        Some(0x08u8)  // b: backspace
    } else if b == 0x66 {
        Some(0x0cu8)  // f: form feed
    } else {
        None
    }
}

/// What follows a backslash, at `p`: a one-letter escape, or `u` and four
/// hexadecimal digits. Yields the Unicode scalar value that the escape
/// stands for and the position after it.
pub open spec fn escape(s: Seq<u8>, p: int) -> Option<(u32, int)> {
    if 0 <= p < s.len() {
        match simple_escape(s[p]) {
            Some(c) => Some((c as u32, p + 1)),
            None => if s[p] == 0x75 {
                match unicode_escape(s, p + 1) {
                    Some(v) => Some((v, p + 5)),
                    None => None,
                }
            } else {
                None
            },
        }
    } else {
        None
    }
}

/// The body of a quoted scalar from `p`, with `acc` decoded so far: every
/// byte but `"`, `\` and DEL stands for itself, and a backslash with a
/// well-formed escape for the UTF-8 encoding of the escape's character.
/// Yields the decoded bytes and the position where the body stops: the end
/// of the input, a `"`, a DEL, or a backslash that begins no escape.
pub open spec fn quoted_body(s: Seq<u8>, p: int, acc: Seq<u8>) -> (Seq<u8>, int)
    decreases s.len() - p,
{
    if !(0 <= p < s.len()) {
        (acc, p)
    } else if s[p] == BACKSLASH {
        match escape(s, p + 1) {
            Some((v, q)) => quoted_body(s, q, acc + encode_scalar(v)),
            None => (acc, p),
        }
    } else if s[p] == QUOTE || s[p] == DELETE {
        (acc, p)
    } else {
        quoted_body(s, p + 1, acc.push(s[p]))
    }
}

/// A quoted scalar at `p`: a `"`, a body, and a `"` where the body stops.
/// Its text is the decoded body.
pub open spec fn quoted_scalar(s: Seq<u8>, p: int) -> Option<(Seq<char>, int)> {
    if 0 <= p < s.len() && s[p] == QUOTE {
        let (bytes, e) = quoted_body(s, p + 1, Seq::empty());
        if 0 <= e < s.len() && s[e] == QUOTE {
            match text_of(bytes) {
                Some(t) => Some((t, e + 1)),
                None => None,
            }
        } else {
            None
        }
    } else {
        None
    }
}

/// A scalar at `p`: a quoted scalar, or else a plain one.
pub open spec fn scalar(s: Seq<u8>, p: int) -> Option<(Seq<char>, int)> {
    match quoted_scalar(s, p) {
        Some(r) => Some(r),
        None => plain_scalar(s, p),
    }
}

// ---------------------------------------------------------------------
// Progress: what a production matches is never empty
// ---------------------------------------------------------------------

/// Blank lines end at or after their start, within the input.
pub proof fn lemma_blank_lines_end_bounds(s: Seq<u8>, p: int)
    requires
        0 <= p <= s.len(),
    ensures
        p <= blank_lines_end(s, p) <= s.len(),
    decreases s.len() - p,
{
    lemma_blanks_end_bounds(s, p);
    match line_ending_end(s, blanks_end(s, p)) {
        Some(q) => {
            lemma_blank_lines_end_bounds(s, q);
        },
        None => {},
    }
}

/// An end of line consumes at least one byte and stays within the input.
pub proof fn lemma_eol_end_bounds(s: Seq<u8>, p: int)
    requires
        0 <= p <= s.len(),
    ensures
        eol_end(s, p) matches Some(q) ==> p < q <= s.len(),
{
    match line_ending_end(s, p) {
        Some(q) => {
            lemma_blank_lines_end_bounds(s, q);
        },
        None => {},
    }
}

/// The search for a line break ends at or after its start, within the
/// input.
pub proof fn lemma_line_break_pos_bounds(s: Seq<u8>, p: int)
    requires
        0 <= p <= s.len(),
    ensures
        p <= line_break_pos(s, p) <= s.len(),
    decreases s.len() - p,
{
    if p < s.len() && s[p] != CARRIAGE_RETURN && s[p] != LINE_FEED {
        lemma_line_break_pos_bounds(s, p + 1);
    }
}

/// A comment line consumes at least one byte and stays within the input.
pub proof fn lemma_comment_end_bounds(s: Seq<u8>, p: int)
    requires
        0 <= p <= s.len(),
    ensures
        comment_end(s, p) matches Some(q) ==> p < q <= s.len(),
{
    lemma_blanks_end_bounds(s, p);
    let q = blanks_end(s, p);
    if q < s.len() && s[q] == HASH {
        lemma_line_break_pos_bounds(s, q + 1);
        lemma_eol_end_bounds(s, line_break_pos(s, q + 1));
    } else {
        lemma_eol_end_bounds(s, q);
    }
}

/// A plain scalar that has reached `q` ends at or after `q`, within the
/// input.
pub proof fn lemma_plain_end_bounds(s: Seq<u8>, q: int)
    requires
        0 <= q <= s.len(),
    ensures
        q <= plain_end(s, q) <= s.len(),
    decreases s.len() - q,
{
    lemma_spaces_end_bounds(s, q);
    let w = spaces_end(s, q);
    if w < s.len() && !is_plain_stop(s[w]) {
        lemma_plain_end_bounds(s, w + 1);
    }
}

/// The body of a quoted scalar stops at or after its start, within the
/// input.
pub proof fn lemma_quoted_body_bounds(s: Seq<u8>, p: int, acc: Seq<u8>)
    requires
        0 <= p <= s.len(),
    ensures
        p <= quoted_body(s, p, acc).1 <= s.len(),
    decreases s.len() - p,
{
    if p < s.len() {
        if s[p] == BACKSLASH {
            match escape(s, p + 1) {
                Some((v, q)) => {
                    lemma_quoted_body_bounds(s, q, acc + encode_scalar(v));
                },
                None => {},
            }
        } else if s[p] == QUOTE || s[p] == DELETE {
        } else {
            lemma_quoted_body_bounds(s, p + 1, acc.push(s[p]));
        }
    }
}

/// A scalar consumes at least one byte and stays within the input.
pub proof fn lemma_scalar_bounds(s: Seq<u8>, p: int)
    ensures
        scalar(s, p) matches Some((_, q)) ==> 0 <= p < q <= s.len(),
        quoted_scalar(s, p) matches Some((_, q)) ==> 0 <= p < q <= s.len(),
        plain_scalar(s, p) matches Some((_, q)) ==> 0 <= p < q <= s.len(),
{
    if 0 <= p < s.len() {
        lemma_quoted_body_bounds(s, p + 1, Seq::empty());
        lemma_plain_end_bounds(s, p + 1);
    }
}

// ---------------------------------------------------------------------
// Block structure
// ---------------------------------------------------------------------

/// The separator of a property statement: a colon, with optional
/// horizontal whitespace on either side.
pub open spec fn colon_end(s: Seq<u8>, p: int) -> Option<int> {
    let q = blanks_end(s, p);
    if 0 <= q < s.len() && s[q] == COLON {
        Some(blanks_end(s, q + 1))
    } else {
        None
    }
}

/// The marker of an item statement: a dash, then horizontal whitespace, of
/// which there is at least one byte.
pub open spec fn marker_end(s: Seq<u8>, p: int) -> Option<int> {
    if 0 <= p && p + 1 < s.len() && s[p] == DASH && is_blank(s[p + 1]) {
        Some(blanks_end(s, p + 1))
    } else {
        None
    }
}

/// The separator of a property statement ends after its start, within the
/// input.
pub proof fn lemma_colon_end_bounds(s: Seq<u8>, p: int)
    requires
        0 <= p <= s.len(),
    ensures
        colon_end(s, p) matches Some(q) ==> p < q <= s.len(),
{
    lemma_blanks_end_bounds(s, p);
    lemma_blanks_end_bounds(s, blanks_end(s, p) + 1);
}

/// The marker of an item statement takes at least two bytes and ends within
/// the input.
pub proof fn lemma_marker_end_bounds(s: Seq<u8>, p: int)
    requires
        0 <= p <= s.len(),
    ensures
        marker_end(s, p) matches Some(q) ==> p + 2 <= q <= s.len(),
{
    lemma_blanks_end_bounds(s, p + 1);
    lemma_blanks_end_bounds(s, p + 2);
}

/// An expression at `p`, the value of a statement at indentation `n`.
/// Directly after a line terminator it is a nested block one step further
/// in: an array where a run of item statements stands there, and otherwise
/// an object, which may be empty. On the same line it is a scalar followed
/// by an end of line.
pub open spec fn expression(s: Seq<u8>, p: int, n: nat) -> Option<(Tree, int)>
    decreases s.len() - p, 0nat,
{
    match line_ending_end(s, p) {
        Some(q) => match item_statements(s, q, n + INDENT_STEP as nat) {
            Some((items, e)) => Some((Tree::List(items), e)),
            None => {
                let (dict, e) = property_statements(s, q, n + INDENT_STEP as nat);
                Some((Tree::Dict(dict), e))
            },
        },
        None => match scalar(s, p) {
            Some((text, q)) => match eol_end(s, q) {
                Some(e) => Some((Tree::Text(text), e)),
                None => None,
            },
            None => None,
        },
    }
}

/// A property statement at `p`: indentation `n`, a scalar as the key, a
/// colon, and an expression.
pub open spec fn property_statement(s: Seq<u8>, p: int, n: nat) -> Option<(Seq<char>, Tree, int)>
    decreases s.len() - p, 1nat,
    via property_statement_decreases
{
    match indentation_end(s, p, n) {
        Some(begin) => match scalar(s, begin) {
            Some((key, next)) => match colon_end(s, next) {
                Some(value_at) => match expression(s, value_at, n) {
                    Some((value, e)) => Some((key, value, e)),
                    None => None,
                },
                None => None,
            },
            None => None,
        },
        None => None,
    }
}

#[via_fn]
proof fn property_statement_decreases(s: Seq<u8>, p: int, n: nat) {
    match indentation_end(s, p, n) {
        Some(begin) => {
            lemma_scalar_bounds(s, begin);
            match scalar(s, begin) {
                Some((key, next)) => {
                    lemma_colon_end_bounds(s, next);
                },
                None => {},
            }
        },
        None => {},
    }
}

/// The rest of a run of property statements at indentation `n`, from `p`,
/// with `acc` assigned so far. Comment lines are passed over; each
/// statement assigns its value to its key, replacing what the key had. The
/// run ends at the first position where neither stands, and yields the
/// object and that position.
pub open spec fn property_run(s: Seq<u8>, p: int, n: nat, acc: Map<Seq<char>, Tree>) -> (
    Map<Seq<char>, Tree>,
    int,
)
    decreases s.len() - p, 2nat,
    via property_run_decreases
{
    if !(0 <= p <= s.len()) {
        (acc, p)
    } else {
        match comment_end(s, p) {
            Some(q) => property_run(s, q, n, acc),
            None => match property_statement(s, p, n) {
                Some((key, value, q)) => if p < q <= s.len() {
                    property_run(s, q, n, acc.insert(key, value))
                } else {
                    (acc, p)
                },
                None => (acc, p),
            },
        }
    }
}

#[via_fn]
proof fn property_run_decreases(s: Seq<u8>, p: int, n: nat, acc: Map<Seq<char>, Tree>) {
    if 0 <= p <= s.len() {
        lemma_comment_end_bounds(s, p);
    }
}

/// A run of property statements at indentation `n`: zero or more comment
/// lines and statements. It always matches, if only nothing.
pub open spec fn property_statements(s: Seq<u8>, p: int, n: nat) -> (Map<Seq<char>, Tree>, int)
    decreases s.len() - p, 3nat,
{
    property_run(s, p, n, Map::empty())
}

/// An item statement at `p`: indentation `n`, a dash, horizontal
/// whitespace, and an expression.
pub open spec fn item_statement(s: Seq<u8>, p: int, n: nat) -> Option<(Tree, int)>
    decreases s.len() - p, 1nat,
    via item_statement_decreases
{
    match indentation_end(s, p, n) {
        Some(begin) => match marker_end(s, begin) {
            Some(next) => expression(s, next, n),
            None => None,
        },
        None => None,
    }
}

#[via_fn]
proof fn item_statement_decreases(s: Seq<u8>, p: int, n: nat) {
    match indentation_end(s, p, n) {
        Some(begin) => {
            lemma_marker_end_bounds(s, begin);
        },
        None => {},
    }
}

/// The rest of a run of item statements at indentation `n`, from `p`, with
/// the values `acc` so far. The run ends at the first position where no
/// item statement stands.
pub open spec fn item_run(s: Seq<u8>, p: int, n: nat, acc: Seq<Tree>) -> (Seq<Tree>, int)
    decreases s.len() - p, 2nat,
{
    match item_statement(s, p, n) {
        Some((value, q)) => if p < q <= s.len() {
            item_run(s, q, n, acc.push(value))
        } else {
            (acc, p)
        },
        None => (acc, p),
    }
}

/// A run of item statements at indentation `n`: one or more of them. It
/// does not match where the first is missing.
pub open spec fn item_statements(s: Seq<u8>, p: int, n: nat) -> Option<(Seq<Tree>, int)>
    decreases s.len() - p, 3nat,
{
    match item_statement(s, p, n) {
        Some((value, q)) => if p < q <= s.len() {
            Some(item_run(s, q, n, seq![value]))
        } else {
            None
        },
        None => None,
    }
}

/// An expression consumes at least one byte and stays within the input.
pub proof fn lemma_expression_bounds(s: Seq<u8>, p: int, n: nat)
    ensures
        expression(s, p, n) matches Some((_, q)) ==> 0 <= p < q <= s.len(),
    decreases s.len() - p, 0nat,
{
    match line_ending_end(s, p) {
        Some(q) => {
            lemma_item_statements_bounds(s, q, n + INDENT_STEP as nat);
            lemma_property_run_bounds(s, q, n + INDENT_STEP as nat, Map::empty());
        },
        None => {
            lemma_scalar_bounds(s, p);
            match scalar(s, p) {
                Some((_, q)) => {
                    lemma_eol_end_bounds(s, q);
                },
                None => {},
            }
        },
    }
}

/// A property statement consumes at least one byte and stays within the
/// input.
pub proof fn lemma_property_statement_bounds(s: Seq<u8>, p: int, n: nat)
    ensures
        property_statement(s, p, n) matches Some((_, _, q)) ==> 0 <= p < q <= s.len(),
    decreases s.len() - p, 1nat,
{
    match indentation_end(s, p, n) {
        Some(begin) => {
            lemma_scalar_bounds(s, begin);
            match scalar(s, begin) {
                Some((_, next)) => {
                    lemma_colon_end_bounds(s, next);
                    match colon_end(s, next) {
                        Some(value_at) => {
                            lemma_expression_bounds(s, value_at, n);
                        },
                        None => {},
                    }
                },
                None => {},
            }
        },
        None => {},
    }
}

/// A run of property statements ends at or after its start, within the
/// input.
pub proof fn lemma_property_run_bounds(s: Seq<u8>, p: int, n: nat, acc: Map<Seq<char>, Tree>)
    requires
        0 <= p <= s.len(),
    ensures
        p <= property_run(s, p, n, acc).1 <= s.len(),
    decreases s.len() - p, 2nat,
{
    lemma_comment_end_bounds(s, p);
    match comment_end(s, p) {
        Some(q) => {
            lemma_property_run_bounds(s, q, n, acc);
        },
        None => {
            match property_statement(s, p, n) {
                Some((key, value, q)) => {
                    if p < q <= s.len() {
                        lemma_property_run_bounds(s, q, n, acc.insert(key, value));
                    }
                },
                None => {},
            }
        },
    }
}

/// An item statement consumes at least one byte and stays within the
/// input.
pub proof fn lemma_item_statement_bounds(s: Seq<u8>, p: int, n: nat)
    ensures
        item_statement(s, p, n) matches Some((_, q)) ==> 0 <= p < q <= s.len(),
    decreases s.len() - p, 1nat,
{
    match indentation_end(s, p, n) {
        Some(begin) => {
            lemma_marker_end_bounds(s, begin);
            match marker_end(s, begin) {
                Some(next) => {
                    lemma_expression_bounds(s, next, n);
                },
                None => {},
            }
        },
        None => {},
    }
}

/// The rest of a run of item statements ends at or after its start, within
/// the input, and holds at least the values it started with.
pub proof fn lemma_item_run_bounds(s: Seq<u8>, p: int, n: nat, acc: Seq<Tree>)
    requires
        0 <= p <= s.len(),
    ensures
        p <= item_run(s, p, n, acc).1 <= s.len(),
        acc.len() <= item_run(s, p, n, acc).0.len(),
    decreases s.len() - p, 2nat,
{
    match item_statement(s, p, n) {
        Some((value, q)) => {
            if p < q <= s.len() {
                lemma_item_run_bounds(s, q, n, acc.push(value));
            }
        },
        None => {},
    }
}

/// A run of item statements consumes at least one byte, stays within the
/// input and holds at least one value.
pub proof fn lemma_item_statements_bounds(s: Seq<u8>, p: int, n: nat)
    ensures
        item_statements(s, p, n) matches Some((items, q)) ==> 0 <= p < q <= s.len() && items.len()
            >= 1,
        item_statements(s, p, n) is Some <==> item_statement(s, p, n) is Some,
    decreases s.len() - p, 3nat,
{
    lemma_item_statement_bounds(s, p, n);
    match item_statement(s, p, n) {
        Some((value, q)) => {
            lemma_item_run_bounds(s, q, n, seq![value]);
        },
        None => {},
    }
}

/// Where the input is too short to hold the indentation, two runs differ in
/// nothing: no statement stands anywhere from `p` on, whatever the
/// indentation asked for, and only comment lines are passed over.
pub proof fn lemma_unreachable_indentation(
    s: Seq<u8>,
    p: int,
    n1: nat,
    n2: nat,
    acc: Map<Seq<char>, Tree>,
)
    requires
        0 <= p,
        p + n1 > s.len(),
        p + n2 > s.len(),
    ensures
        property_run(s, p, n1, acc) == property_run(s, p, n2, acc),
        item_statements(s, p, n1) is None,
        item_statements(s, p, n2) is None,
    decreases s.len() - p,
{
    assert(indentation_end(s, p, n1) is None);
    assert(indentation_end(s, p, n2) is None);
    assert(property_statement(s, p, n1) is None);
    assert(property_statement(s, p, n2) is None);
    assert(item_statement(s, p, n1) is None);
    assert(item_statement(s, p, n2) is None);
    if p <= s.len() {
        lemma_comment_end_bounds(s, p);
        match comment_end(s, p) {
            Some(q) => {
                lemma_unreachable_indentation(s, q, n1, n2, acc);
            },
            None => {},
        }
    }
}

/// A document: a run of property statements without indentation that
/// takes the whole input.
pub open spec fn document(s: Seq<u8>) -> Option<Map<Seq<char>, Tree>> {
    let (dict, e) = property_statements(s, 0, 0);
    if e == s.len() {
        Some(dict)
    } else {
        None
    }
}

} // verus!
