//! Lexical primitives: indentation, line terminators and comment lines.

use vstd::prelude::*;
use crate::grammar::{
    blank_lines_end, blanks_end, comment_end, eol_end, indentation_end, line_break_pos,
    line_ending_end, spaces_end, CARRIAGE_RETURN, HASH, LINE_FEED, SPACE, TAB,
};

verus! {

/// True when an executable result, a position or none, is the given model
/// result.
pub open spec fn is_end(r: Option<usize>, model: Option<int>) -> bool {
    match r {
        Some(q) => model == Some(q as int),
        None => model is None,
    }
}

/// Skips horizontal whitespace: the position of the first byte at or after
/// `pos` that is neither a space nor a tab.
pub fn space0(input: &[u8], pos: usize) -> (end: usize)
    ensures
        end == blanks_end(input@, pos as int),
        pos <= end,
        pos <= input.len() ==> end <= input.len(),
{
    if pos >= input.len() {
        return pos;
    }
    let mut i: usize = pos;
    while i < input.len() && (input[i] == SPACE || input[i] == TAB)
        invariant
            pos <= i <= input.len(),
            blanks_end(input@, pos as int) == blanks_end(input@, i as int),
        decreases input.len() - i,
    {
        i += 1;
    }
    i
}

/// Skips spaces: the position of the first byte at or after `pos` that is
/// not a space.
pub fn spaces(input: &[u8], pos: usize) -> (end: usize)
    ensures
        end == spaces_end(input@, pos as int),
        pos <= end,
        pos <= input.len() ==> end <= input.len(),
{
    if pos >= input.len() {
        return pos;
    }
    let mut i: usize = pos;
    while i < input.len() && input[i] == SPACE
        invariant
            pos <= i <= input.len(),
            spaces_end(input@, pos as int) == spaces_end(input@, i as int),
        decreases input.len() - i,
    {
        i += 1;
    }
    i
}

/// Recognises one line terminator at `pos`.
pub fn line_ending(input: &[u8], pos: usize) -> (r: Option<usize>)
    ensures
        is_end(r, line_ending_end(input@, pos as int)),
        r matches Some(q) ==> pos < q <= input.len(),
{
    if pos < input.len() && input[pos] == LINE_FEED {
        Some(pos + 1)
    } else if pos < input.len() && input.len() - pos >= 2 && input[pos] == CARRIAGE_RETURN
        && input[pos + 1] == LINE_FEED {
        Some(pos + 2)
    } else {
        None
    }
}

/// Recognises an end of line at `pos`: a line terminator and every blank
/// line that follows it.
pub fn eol_any(input: &[u8], pos: usize) -> (r: Option<usize>)
    ensures
        is_end(r, eol_end(input@, pos as int)),
        r matches Some(q) ==> pos < q <= input.len(),
{
    match line_ending(input, pos) {
        None => None,
        Some(first) => {
            let mut i: usize = first;
            loop
                invariant
                    pos < i <= input.len(),
                    blank_lines_end(input@, first as int) == blank_lines_end(input@, i as int),
                ensures
                    pos < i <= input.len(),
                    i == blank_lines_end(input@, first as int),
                decreases input.len() - i,
            {
                let b = space0(input, i);
                match line_ending(input, b) {
                    Some(q) => {
                        i = q;
                    },
                    None => {
                        break ;
                    },
                }
            }
            Some(i)
        },
    }
}

/// Recognises indentation at `pos`: exactly `indent` spaces.
pub fn indentation(input: &[u8], pos: usize, indent: usize) -> (r: Option<usize>)
    ensures
        is_end(r, indentation_end(input@, pos as int, indent as nat)),
        r matches Some(q) ==> q == pos + indent && q <= input.len(),
{
    if pos > input.len() || indent > input.len() - pos {
        return None;
    }
    let mut i: usize = 0;
    while i < indent
        invariant
            i <= indent,
            pos + indent <= input.len(),
            forall|k: int| pos <= k < pos + i ==> input@[k] == SPACE,
        decreases indent - i,
    {
        if input[pos + i] != SPACE {
            return None;
        }
        i += 1;
    }
    Some(pos + indent)
}

/// The position of the first carriage return or line feed at or after
/// `pos`, or the end of the input.
pub fn line_break(input: &[u8], pos: usize) -> (end: usize)
    ensures
        end == line_break_pos(input@, pos as int),
        pos <= end,
        pos <= input.len() ==> end <= input.len(),
{
    if pos >= input.len() {
        return pos;
    }
    let mut i: usize = pos;
    while i < input.len() && input[i] != CARRIAGE_RETURN && input[i] != LINE_FEED
        invariant
            pos <= i <= input.len(),
            line_break_pos(input@, pos as int) == line_break_pos(input@, i as int),
        decreases input.len() - i,
    {
        i += 1;
    }
    i
}

/// Recognises a comment line at `pos`; it contributes nothing but its
/// length.
pub fn comment(input: &[u8], pos: usize) -> (r: Option<usize>)
    ensures
        is_end(r, comment_end(input@, pos as int)),
        r matches Some(q) ==> pos < q <= input.len(),
{
    let q = space0(input, pos);
    if q < input.len() && input[q] == HASH {
        let e = line_break(input, q + 1);
        eol_any(input, e)
    } else {
        eol_any(input, q)
    }
}

} // verus!
