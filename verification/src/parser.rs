//! The entry point: a whole document, or the error that says where and why
//! parsing stopped.

use vstd::prelude::*;
use crate::block::{colon, property_statements};
use crate::grammar::{
    colon_end, document, property_statements as property_statements_at, quoted_body,
    quoted_scalar, scalar as scalar_at, BACKSLASH, QUOTE, SPACE,
};
use crate::scalar::{double_quoted_scalar, double_quoted_scalar_text, scalar};
use crate::value::Value;

verus! {

/// Why no statement could be read where parsing stopped.
#[derive(Debug, Clone, Copy, PartialEq, Eq)]
pub enum ErrorKind {
    /// A backslash in a quoted scalar begins no well-formed escape sequence.
    MalformedEscape,
    /// The line is indented, where a statement without indentation is
    /// expected.
    IndentationMismatch,
    /// A quoted scalar has no closing quote, or a statement has no
    /// well-formed value after its key.
    UnterminatedConstruct,
    /// Input is left with which no statement can begin.
    ResidualInput,
}

/// A production of the grammar, as named in the trace of an error.
#[derive(Debug, Clone, Copy, PartialEq, Eq)]
pub enum Production {
    Comment,
    PropertyStatement,
    QuotedScalar,
    PlainScalar,
}

/// Where and why parsing stopped.
#[derive(Debug, PartialEq, Eq)]
pub struct ParseError {
    /// The offset of the first byte that is part of no statement.
    pub offset: usize,
    /// Why the statement that begins there cannot be read.
    pub kind: ErrorKind,
    /// The productions that were tried at the offset, in the order in which
    /// they were tried.
    pub trace: Vec<Production>,
}

/// What is wrong with a quoted scalar that opens at `p` and does not match,
/// if its body says so: a backslash that begins no escape, or no closing
/// quote where the body stops.
pub open spec fn quoted_fault(s: Seq<u8>, p: int) -> Option<ErrorKind> {
    if 0 <= p < s.len() && s[p] == QUOTE {
        let e = quoted_body(s, p + 1, Seq::empty()).1;
        if 0 <= e < s.len() && s[e] == BACKSLASH {
            Some(ErrorKind::MalformedEscape)
        } else if !(0 <= e < s.len() && s[e] == QUOTE) {
            Some(ErrorKind::UnterminatedConstruct)
        } else {
            None
        }
    } else {
        None
    }
}

/// Why no property statement without indentation can be read at `p`.
///
/// A leading space is an indentation mismatch. Otherwise the key is looked
/// at, then the colon, then the value on the same line: a quoted scalar
/// that is at fault decides; a key that is no scalar at all is residual
/// input; and anything missing after a key leaves the statement
/// unterminated.
pub open spec fn failure_kind(s: Seq<u8>, p: int) -> ErrorKind {
    if 0 <= p < s.len() && s[p] == SPACE {
        ErrorKind::IndentationMismatch
    } else {
        match scalar_at(s, p) {
            None => match quoted_fault(s, p) {
                Some(kind) => kind,
                None => ErrorKind::ResidualInput,
            },
            Some((_, next)) => match colon_end(s, next) {
                None => ErrorKind::UnterminatedConstruct,
                Some(value_at) => match scalar_at(s, value_at) {
                    None => match quoted_fault(s, value_at) {
                        Some(kind) => kind,
                        None => ErrorKind::UnterminatedConstruct,
                    },
                    Some(_) => ErrorKind::UnterminatedConstruct,
                },
            },
        }
    }
}

/// The productions that are tried at `p` when a run of property statements
/// without indentation goes on there: a comment line, a property statement,
/// for its key a quoted scalar, and a plain scalar where the quoted one
/// does not match.
pub open spec fn attempted(s: Seq<u8>, p: int) -> Seq<Production> {
    if quoted_scalar(s, p) is None {
        seq![
            Production::Comment,
            Production::PropertyStatement,
            Production::QuotedScalar,
            Production::PlainScalar,
        ]
    } else {
        seq![Production::Comment, Production::PropertyStatement, Production::QuotedScalar]
    }
}

/// Says what is wrong with the quoted scalar that opens at `pos`, if its
/// body says so.
pub fn quoted_scalar_fault(input: &[u8], pos: usize) -> (r: Option<ErrorKind>)
    ensures
        r == quoted_fault(input@, pos as int),
{
    if pos >= input.len() || input[pos] != QUOTE {
        return None;
    }
    let (_, end) = double_quoted_scalar_text(input, pos + 1);
    if end < input.len() && input[end] == BACKSLASH {
        Some(ErrorKind::MalformedEscape)
    } else if end >= input.len() || input[end] != QUOTE {
        Some(ErrorKind::UnterminatedConstruct)
    } else {
        None
    }
}

/// Says why no property statement without indentation can be read at
/// `pos`.
pub fn diagnose(input: &[u8], pos: usize) -> (kind: ErrorKind)
    ensures
        kind == failure_kind(input@, pos as int),
{
    if pos < input.len() && input[pos] == SPACE {
        return ErrorKind::IndentationMismatch;
    }
    match scalar(input, pos) {
        None => match quoted_scalar_fault(input, pos) {
            Some(kind) => kind,
            None => ErrorKind::ResidualInput,
        },
        Some((_, next)) => match colon(input, next) {
            None => ErrorKind::UnterminatedConstruct,
            Some(value_at) => match scalar(input, value_at) {
                None => match quoted_scalar_fault(input, value_at) {
                    Some(kind) => kind,
                    None => ErrorKind::UnterminatedConstruct,
                },
                Some(_) => ErrorKind::UnterminatedConstruct,
            },
        },
    }
}

/// Lists the productions that are tried at `pos` at the top level.
pub fn attempted_productions(input: &[u8], pos: usize) -> (trace: Vec<Production>)
    ensures
        trace@ == attempted(input@, pos as int),
{
    let mut trace: Vec<Production> = Vec::new();
    trace.push(Production::Comment);
    trace.push(Production::PropertyStatement);
    trace.push(Production::QuotedScalar);
    if double_quoted_scalar(input, pos).is_none() {
        trace.push(Production::PlainScalar);
    }
    assert(trace@ =~= attempted(input@, pos as int));
    trace
}

/// Parses a whole document.
///
/// The document is a run of property statements without indentation. Where
/// the run takes the whole input, the result is the object it defines.
/// Where it stops before the end, the result is an error at the offset of
/// the first byte that the run could not take, never a part of the tree.
pub fn parse(input: &[u8]) -> (r: Result<Value, ParseError>)
    ensures
        match r {
            Ok(v) => {
                &&& v@ is Dict
                &&& document(input@) == Some(v@->Dict_0)
                &&& v.wf()
                &&& v.parsed_shape()
            },
            Err(e) => {
                &&& document(input@) is None
                &&& e.offset == property_statements_at(input@, 0, 0).1
                &&& e.offset < input.len()
                &&& e.kind == failure_kind(input@, e.offset as int)
                &&& e.trace@ == attempted(input@, e.offset as int)
            },
        },
{
    let (value, end) = property_statements(input, 0, 0);
    if end == input.len() {
        Ok(value)
    } else {
        Err(
            ParseError {
                offset: end,
                kind: diagnose(input, end),
                trace: attempted_productions(input, end),
            },
        )
    }
}

} // verus!
