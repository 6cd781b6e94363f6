//! Locality: what a production matches at a position depends on nothing
//! before that position.
//!
//! Each lemma compares a production on an input `s` at `p` with the same
//! production on `a + s`, the input behind some prefix `a`, at the same
//! place, which is now `a.len() + p`. The two match alike, and every
//! position they yield differs by `a.len()`.

use vstd::prelude::*;
use crate::grammar::{
    blank_lines_end, blanks_end, colon_end, comment_end, eol_end, escape, expression,
    indentation_end, is_blank, is_plain_stop, item_run, item_statement, item_statements,
    lemma_blanks_end_bounds, lemma_colon_end_bounds, lemma_comment_end_bounds,
    lemma_line_break_pos_bounds, lemma_marker_end_bounds, lemma_plain_end_bounds,
    lemma_quoted_body_bounds, lemma_scalar_bounds, lemma_spaces_end_bounds, line_break_pos,
    line_ending_end, marker_end, plain_end, plain_scalar, property_run, property_statement,
    quoted_body, quoted_scalar, scalar, spaces_end, unicode_escape, BACKSLASH, CARRIAGE_RETURN,
    DELETE, INDENT_STEP, LINE_FEED, QUOTE, SPACE,
};
use crate::value::Tree;

verus! {

/// A position or none, moved by `k`.
pub open spec fn moved(r: Option<int>, k: int) -> Option<int> {
    match r {
        Some(q) => Some(q + k),
        None => None,
    }
}

/// A match with its end position, or none, moved by `k`.
pub open spec fn moved_match<T>(r: Option<(T, int)>, k: int) -> Option<(T, int)> {
    match r {
        Some((v, q)) => Some((v, q + k)),
        None => None,
    }
}

/// Horizontal whitespace ends alike behind a prefix.
pub proof fn lemma_blanks_end_local(a: Seq<u8>, s: Seq<u8>, p: int)
    requires
        0 <= p,
    ensures
        blanks_end(a + s, a.len() + p) == blanks_end(s, p) + a.len(),
    decreases s.len() - p,
{
    if p < s.len() {
        assert((a + s)[a.len() + p] == s[p]);
        if is_blank(s[p]) {
            lemma_blanks_end_local(a, s, p + 1);
        }
    }
}

/// A run of spaces ends alike behind a prefix.
pub proof fn lemma_spaces_end_local(a: Seq<u8>, s: Seq<u8>, p: int)
    requires
        0 <= p,
    ensures
        spaces_end(a + s, a.len() + p) == spaces_end(s, p) + a.len(),
    decreases s.len() - p,
{
    if p < s.len() {
        assert((a + s)[a.len() + p] == s[p]);
        if s[p] == SPACE {
            lemma_spaces_end_local(a, s, p + 1);
        }
    }
}

/// A line terminator stands alike behind a prefix.
pub proof fn lemma_line_ending_end_local(a: Seq<u8>, s: Seq<u8>, p: int)
    requires
        0 <= p,
    ensures
        line_ending_end(a + s, a.len() + p) == moved(line_ending_end(s, p), a.len() as int),
{
    if p < s.len() {
        assert((a + s)[a.len() + p] == s[p]);
    }
    if p + 1 < s.len() {
        assert((a + s)[a.len() + p + 1] == s[p + 1]);
    }
}

/// Blank lines end alike behind a prefix.
pub proof fn lemma_blank_lines_end_local(a: Seq<u8>, s: Seq<u8>, p: int)
    requires
        0 <= p,
    ensures
        blank_lines_end(a + s, a.len() + p) == blank_lines_end(s, p) + a.len(),
    decreases s.len() - p,
{
    lemma_blanks_end_local(a, s, p);
    lemma_blanks_end_bounds(s, p);
    let b = blanks_end(s, p);
    lemma_line_ending_end_local(a, s, b);
    match line_ending_end(s, b) {
        Some(q) => {
            lemma_blank_lines_end_local(a, s, q);
        },
        None => {},
    }
}

/// An end of line matches alike behind a prefix.
pub proof fn lemma_eol_end_local(a: Seq<u8>, s: Seq<u8>, p: int)
    requires
        0 <= p,
    ensures
        eol_end(a + s, a.len() + p) == moved(eol_end(s, p), a.len() as int),
{
    lemma_line_ending_end_local(a, s, p);
    match line_ending_end(s, p) {
        Some(q) => {
            lemma_blank_lines_end_local(a, s, q);
        },
        None => {},
    }
}

/// Indentation matches alike behind a prefix.
pub proof fn lemma_indentation_end_local(a: Seq<u8>, s: Seq<u8>, p: int, n: nat)
    requires
        0 <= p,
    ensures
        indentation_end(a + s, a.len() + p, n) == moved(
            indentation_end(s, p, n),
            a.len() as int,
        ),
{
    let t = a + s;
    let k = a.len() as int;
    if p + n <= s.len() {
        if forall|i: int| p <= i < p + n ==> s[i] == SPACE {
            assert forall|i: int| k + p <= i < k + p + n implies t[i] == SPACE by {
                assert(t[i] == s[i - k]);
            }
        } else {
            let i = choose|i: int| p <= i < p + n && s[i] != SPACE;
            assert(t[k + i] == s[i]);
        }
    }
}

/// A line break is found alike behind a prefix.
pub proof fn lemma_line_break_pos_local(a: Seq<u8>, s: Seq<u8>, p: int)
    requires
        0 <= p,
    ensures
        line_break_pos(a + s, a.len() + p) == line_break_pos(s, p) + a.len(),
    decreases s.len() - p,
{
    if p < s.len() {
        assert((a + s)[a.len() + p] == s[p]);
        if s[p] != CARRIAGE_RETURN && s[p] != LINE_FEED {
            lemma_line_break_pos_local(a, s, p + 1);
        }
    }
}

/// A comment line matches alike behind a prefix.
pub proof fn lemma_comment_end_local(a: Seq<u8>, s: Seq<u8>, p: int)
    requires
        0 <= p,
    ensures
        comment_end(a + s, a.len() + p) == moved(comment_end(s, p), a.len() as int),
{
    lemma_blanks_end_local(a, s, p);
    lemma_blanks_end_bounds(s, p);
    let q = blanks_end(s, p);
    if q < s.len() {
        assert((a + s)[a.len() + q] == s[q]);
    }
    lemma_line_break_pos_local(a, s, q + 1);
    if q < s.len() {
        lemma_line_break_pos_bounds(s, q + 1);
    }
    lemma_eol_end_local(a, s, q);
    if line_break_pos(s, q + 1) >= 0 {
        lemma_eol_end_local(a, s, line_break_pos(s, q + 1));
    }
}

/// A plain scalar ends alike behind a prefix.
pub proof fn lemma_plain_end_local(a: Seq<u8>, s: Seq<u8>, q: int)
    requires
        0 <= q,
    ensures
        plain_end(a + s, a.len() + q) == plain_end(s, q) + a.len(),
    decreases s.len() - q,
{
    lemma_spaces_end_local(a, s, q);
    lemma_spaces_end_bounds(s, q);
    let w = spaces_end(s, q);
    if w < s.len() {
        assert((a + s)[a.len() + w] == s[w]);
        if !is_plain_stop(s[w]) {
            lemma_plain_end_local(a, s, w + 1);
        }
    }
}

/// A plain scalar matches alike behind a prefix, with the same text.
pub proof fn lemma_plain_scalar_local(a: Seq<u8>, s: Seq<u8>, p: int)
    requires
        0 <= p,
    ensures
        plain_scalar(a + s, a.len() + p) == moved_match(plain_scalar(s, p), a.len() as int),
{
    if p < s.len() {
        assert((a + s)[a.len() + p] == s[p]);
        lemma_plain_end_local(a, s, p + 1);
        lemma_plain_end_bounds(s, p + 1);
        let e = plain_end(s, p + 1);
        assert((a + s).subrange(a.len() + p, a.len() + e) =~= s.subrange(p, e));
    }
}

/// An escape sequence matches alike behind a prefix, with the same value.
pub proof fn lemma_escape_local(a: Seq<u8>, s: Seq<u8>, p: int)
    requires
        0 <= p,
    ensures
        unicode_escape(a + s, a.len() + p) == unicode_escape(s, p),
        escape(a + s, a.len() + p) == moved_match(escape(s, p), a.len() as int),
{
    let t = a + s;
    let k = a.len() as int;
    if p + 4 <= s.len() {
        assert(t[k + p] == s[p] && t[k + p + 1] == s[p + 1] && t[k + p + 2] == s[p + 2] && t[k + p
            + 3] == s[p + 3]);
    }
    if p < s.len() {
        assert(t[k + p] == s[p]);
        if p + 5 <= s.len() {
            assert(t[k + p + 1] == s[p + 1] && t[k + p + 2] == s[p + 2] && t[k + p + 3] == s[p
                + 3] && t[k + p + 4] == s[p + 4]);
        }
    }
}

/// The body of a quoted scalar is decoded alike behind a prefix.
pub proof fn lemma_quoted_body_local(a: Seq<u8>, s: Seq<u8>, p: int, acc: Seq<u8>)
    requires
        0 <= p,
    ensures
        quoted_body(a + s, a.len() + p, acc) == (
            quoted_body(s, p, acc).0,
            quoted_body(s, p, acc).1 + a.len(),
        ),
    decreases s.len() - p,
{
    if p < s.len() {
        assert((a + s)[a.len() + p] == s[p]);
        if s[p] == BACKSLASH {
            lemma_escape_local(a, s, p + 1);
            match escape(s, p + 1) {
                Some((v, q)) => {
                    lemma_quoted_body_local(a, s, q, acc + vstd::utf8::encode_scalar(v));
                },
                None => {},
            }
        } else if s[p] == QUOTE || s[p] == DELETE {
        } else {
            lemma_quoted_body_local(a, s, p + 1, acc.push(s[p]));
        }
    }
}

/// A scalar, quoted or not, matches alike behind a prefix, with the same
/// text.
pub proof fn lemma_scalar_local(a: Seq<u8>, s: Seq<u8>, p: int)
    requires
        0 <= p,
    ensures
        quoted_scalar(a + s, a.len() + p) == moved_match(quoted_scalar(s, p), a.len() as int),
        scalar(a + s, a.len() + p) == moved_match(scalar(s, p), a.len() as int),
{
    lemma_plain_scalar_local(a, s, p);
    if p < s.len() {
        assert((a + s)[a.len() + p] == s[p]);
        lemma_quoted_body_local(a, s, p + 1, Seq::empty());
        lemma_quoted_body_bounds(s, p + 1, Seq::empty());
        let e = quoted_body(s, p + 1, Seq::empty()).1;
        if e < s.len() {
            assert((a + s)[a.len() + e] == s[e]);
        }
    }
}

/// The separator of a property statement matches alike behind a prefix.
pub proof fn lemma_colon_end_local(a: Seq<u8>, s: Seq<u8>, p: int)
    requires
        0 <= p,
    ensures
        colon_end(a + s, a.len() + p) == moved(colon_end(s, p), a.len() as int),
{
    lemma_blanks_end_local(a, s, p);
    lemma_blanks_end_bounds(s, p);
    let q = blanks_end(s, p);
    if q < s.len() {
        assert((a + s)[a.len() + q] == s[q]);
    }
    lemma_blanks_end_local(a, s, q + 1);
}

/// The marker of an item statement matches alike behind a prefix.
pub proof fn lemma_marker_end_local(a: Seq<u8>, s: Seq<u8>, p: int)
    requires
        0 <= p,
    ensures
        marker_end(a + s, a.len() + p) == moved(marker_end(s, p), a.len() as int),
{
    if p + 1 < s.len() {
        assert((a + s)[a.len() + p] == s[p]);
        assert((a + s)[a.len() + p + 1] == s[p + 1]);
    }
    lemma_blanks_end_local(a, s, p + 1);
}

/// An expression matches alike behind a prefix, with the same value.
pub proof fn lemma_expression_local(a: Seq<u8>, s: Seq<u8>, p: int, n: nat)
    requires
        0 <= p,
    ensures
        expression(a + s, a.len() + p, n) == moved_match(expression(s, p, n), a.len() as int),
    decreases s.len() - p, 0nat,
{
    lemma_line_ending_end_local(a, s, p);
    match line_ending_end(s, p) {
        Some(q) => {
            let m = n + INDENT_STEP as nat;
            lemma_item_statements_local(a, s, q, m);
            lemma_property_run_local(a, s, q, m, Map::empty());
        },
        None => {
            lemma_scalar_local(a, s, p);
            match scalar(s, p) {
                Some((_, q)) => {
                    lemma_scalar_bounds(s, p);
                    lemma_eol_end_local(a, s, q);
                },
                None => {},
            }
        },
    }
}

/// A property statement matches alike behind a prefix, with the same key
/// and value.
pub proof fn lemma_property_statement_local(a: Seq<u8>, s: Seq<u8>, p: int, n: nat)
    requires
        0 <= p,
    ensures
        property_statement(a + s, a.len() + p, n) == match property_statement(s, p, n) {
            Some((key, value, q)) => Some((key, value, q + a.len())),
            None => None,
        },
    decreases s.len() - p, 1nat,
{
    lemma_indentation_end_local(a, s, p, n);
    match indentation_end(s, p, n) {
        Some(begin) => {
            lemma_scalar_local(a, s, begin);
            lemma_scalar_bounds(s, begin);
            match scalar(s, begin) {
                Some((_, next)) => {
                    lemma_colon_end_local(a, s, next);
                    lemma_colon_end_bounds(s, next);
                    match colon_end(s, next) {
                        Some(value_at) => {
                            lemma_expression_local(a, s, value_at, n);
                        },
                        None => {},
                    }
                },
                None => {},
            }
        },
        None => {},
    }
}

/// A run of property statements yields the same object behind a prefix.
pub proof fn lemma_property_run_local(
    a: Seq<u8>,
    s: Seq<u8>,
    p: int,
    n: nat,
    acc: Map<Seq<char>, Tree>,
)
    requires
        0 <= p,
    ensures
        property_run(a + s, a.len() + p, n, acc) == (
            property_run(s, p, n, acc).0,
            property_run(s, p, n, acc).1 + a.len(),
        ),
    decreases s.len() - p, 2nat,
{
    if p <= s.len() {
        lemma_comment_end_local(a, s, p);
        lemma_comment_end_bounds(s, p);
        match comment_end(s, p) {
            Some(q) => {
                lemma_property_run_local(a, s, q, n, acc);
            },
            None => {
                lemma_property_statement_local(a, s, p, n);
                match property_statement(s, p, n) {
                    Some((key, value, q)) => {
                        if p < q <= s.len() {
                            lemma_property_run_local(a, s, q, n, acc.insert(key, value));
                        }
                    },
                    None => {},
                }
            },
        }
    }
}

/// An item statement matches alike behind a prefix, with the same value.
pub proof fn lemma_item_statement_local(a: Seq<u8>, s: Seq<u8>, p: int, n: nat)
    requires
        0 <= p,
    ensures
        item_statement(a + s, a.len() + p, n) == moved_match(
            item_statement(s, p, n),
            a.len() as int,
        ),
    decreases s.len() - p, 1nat,
{
    lemma_indentation_end_local(a, s, p, n);
    match indentation_end(s, p, n) {
        Some(begin) => {
            lemma_marker_end_local(a, s, begin);
            lemma_marker_end_bounds(s, begin);
            match marker_end(s, begin) {
                Some(next) => {
                    lemma_expression_local(a, s, next, n);
                },
                None => {},
            }
        },
        None => {},
    }
}

/// The rest of a run of item statements yields the same values behind a
/// prefix.
pub proof fn lemma_item_run_local(a: Seq<u8>, s: Seq<u8>, p: int, n: nat, acc: Seq<Tree>)
    requires
        0 <= p,
    ensures
        item_run(a + s, a.len() + p, n, acc) == (
            item_run(s, p, n, acc).0,
            item_run(s, p, n, acc).1 + a.len(),
        ),
    decreases s.len() - p, 2nat,
{
    lemma_item_statement_local(a, s, p, n);
    match item_statement(s, p, n) {
        Some((value, q)) => {
            if p < q <= s.len() {
                lemma_item_run_local(a, s, q, n, acc.push(value));
            }
        },
        None => {},
    }
}

/// A run of item statements matches alike behind a prefix, with the same
/// values.
pub proof fn lemma_item_statements_local(a: Seq<u8>, s: Seq<u8>, p: int, n: nat)
    requires
        0 <= p,
    ensures
        item_statements(a + s, a.len() + p, n) == moved_match(
            item_statements(s, p, n),
            a.len() as int,
        ),
    decreases s.len() - p, 3nat,
{
    lemma_item_statement_local(a, s, p, n);
    match item_statement(s, p, n) {
        Some((value, q)) => {
            if p < q <= s.len() {
                lemma_item_run_local(a, s, q, n, seq![value]);
            }
        },
        None => {},
    }
}

} // verus!
