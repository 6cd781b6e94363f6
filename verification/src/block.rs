//! Block structure: property statements, item statements, and the
//! expressions that follow a key or an item marker.

use vstd::prelude::*;
use crate::grammar::{
    colon_end, expression as expression_at, item_run, item_statement as item_statement_at,
    item_statements as item_statements_at, lemma_marker_end_bounds,
    lemma_unreachable_indentation, marker_end, property_run,
    property_statement as property_statement_at, property_statements as property_statements_at,
    COLON, DASH, INDENT_STEP, SPACE, TAB,
};
use crate::lexical::{comment, eol_any, indentation, is_end, line_ending, space0};
use crate::scalar::scalar;
use crate::value::{
    assign, dict_view, entries_parsed_shape, entries_wf, items_parsed_shape, items_wf,
    list_view, unique_keys, Entry, Tree, Value,
};

verus! {

/// True when an executable result, a value and a position or none, is the
/// given model result.
pub open spec fn is_value_end(r: Option<(Value, usize)>, model: Option<(Tree, int)>) -> bool {
    match r {
        Some((v, q)) => model == Some((v@, q as int)),
        None => model is None,
    }
}

/// Recognises the separator of a property statement at `pos`.
pub fn colon(input: &[u8], pos: usize) -> (r: Option<usize>)
    ensures
        is_end(r, colon_end(input@, pos as int)),
        r matches Some(q) ==> pos < q <= input.len(),
{
    let q = space0(input, pos);
    if q < input.len() && input[q] == COLON {
        Some(space0(input, q + 1))
    } else {
        None
    }
}

/// Recognises the marker of an item statement at `pos`.
pub fn item_marker(input: &[u8], pos: usize) -> (r: Option<usize>)
    ensures
        is_end(r, marker_end(input@, pos as int)),
        r matches Some(q) ==> pos + 2 <= q <= input.len(),
{
    if pos < input.len() && input.len() - pos >= 2 && input[pos] == DASH && (input[pos + 1]
        == SPACE || input[pos + 1] == TAB) {
        let q = space0(input, pos + 1);
        proof {
            lemma_marker_end_bounds(input@, pos as int);
        }
        Some(q)
    } else {
        None
    }
}

/// Recognises an expression at `pos`, the value of a statement at
/// indentation `indent`.
pub fn expression(input: &[u8], pos: usize, indent: usize) -> (r: Option<(Value, usize)>)
    ensures
        is_value_end(r, expression_at(input@, pos as int, indent as nat)),
        r matches Some((v, q)) ==> v.wf() && v.parsed_shape() && pos < q <= input.len(),
    decreases input.len() - pos, 0nat,
{
    match line_ending(input, pos) {
        Some(q) => {
            // An indentation that does not fit a `usize` fits no input
            // either: any other that is out of reach stands for it.
            let nested = if indent <= usize::MAX - INDENT_STEP {
                indent + INDENT_STEP
            } else {
                usize::MAX
            };
            proof {
                if indent > usize::MAX - INDENT_STEP {
                    lemma_unreachable_indentation(
                        input@,
                        q as int,
                        indent as nat + INDENT_STEP as nat,
                        nested as nat,
                        Map::empty(),
                    );
                }
            }
            match item_statements(input, q, nested) {
                Some(r) => Some(r),
                None => Some(property_statements(input, q, nested)),
            }
        },
        None => {
            match scalar(input, pos) {
                Some((text, q)) => {
                    match eol_any(input, q) {
                        Some(e) => Some((Value::String(text), e)),
                        None => None,
                    }
                },
                None => None,
            }
        },
    }
}

/// Recognises a property statement at `pos`: yields its key, its value and
/// the position after it.
pub fn property_statement(input: &[u8], pos: usize, indent: usize) -> (r: Option<
    (String, Value, usize),
>)
    ensures
        match r {
            Some((k, v, q)) => property_statement_at(input@, pos as int, indent as nat) == Some(
                (k@, v@, q as int),
            ),
            None => property_statement_at(input@, pos as int, indent as nat) is None,
        },
        r matches Some((_, v, q)) ==> v.wf() && v.parsed_shape() && pos < q <= input.len(),
    decreases input.len() - pos, 1nat,
{
    let begin = match indentation(input, pos, indent) {
        Some(q) => q,
        None => {
            return None;
        },
    };
    let (key, next) = match scalar(input, begin) {
        Some(r) => r,
        None => {
            return None;
        },
    };
    let value_at = match colon(input, next) {
        Some(q) => q,
        None => {
            return None;
        },
    };
    match expression(input, value_at, indent) {
        Some((value, e)) => Some((key, value, e)),
        None => None,
    }
}

/// Recognises a run of property statements at `pos` and assembles the
/// object they define. The run may be empty; it ends where neither a
/// comment line nor a statement at this indentation stands.
pub fn property_statements(input: &[u8], pos: usize, indent: usize) -> (r: (Value, usize))
    ensures
        r.0@ == Tree::Dict(property_statements_at(input@, pos as int, indent as nat).0),
        r.1 == property_statements_at(input@, pos as int, indent as nat).1,
        r.0.wf(),
        r.0.parsed_shape(),
        pos <= r.1,
        pos <= input.len() ==> r.1 <= input.len(),
    decreases input.len() - pos, 3nat,
{
    let mut entries: Vec<Entry> = Vec::new();
    if pos > input.len() {
        return (Value::Object(entries), pos);
    }
    let mut p: usize = pos;
    loop
        invariant
            pos <= p <= input.len(),
            unique_keys(entries@),
            entries_wf(entries@),
            entries_parsed_shape(entries@),
            property_run(input@, pos as int, indent as nat, Map::empty()) == property_run(
                input@,
                p as int,
                indent as nat,
                dict_view(entries@),
            ),
        ensures
            pos <= p <= input.len(),
            unique_keys(entries@),
            entries_wf(entries@),
            entries_parsed_shape(entries@),
            property_run(input@, pos as int, indent as nat, Map::empty()) == (
                dict_view(entries@),
                p as int,
            ),
        decreases input.len() - p,
    {
        match comment(input, p) {
            Some(q) => {
                p = q;
            },
            None => {
                match property_statement(input, p, indent) {
                    Some((key, value, q)) => {
                        assign(&mut entries, key, value);
                        p = q;
                    },
                    None => {
                        break ;
                    },
                }
            },
        }
    }
    (Value::Object(entries), p)
}

/// Recognises an item statement at `pos`.
pub fn item_statement(input: &[u8], pos: usize, indent: usize) -> (r: Option<
    (Value, usize),
>)
    ensures
        is_value_end(r, item_statement_at(input@, pos as int, indent as nat)),
        r matches Some((v, q)) ==> v.wf() && v.parsed_shape() && pos < q <= input.len(),
    decreases input.len() - pos, 1nat,
{
    let begin = match indentation(input, pos, indent) {
        Some(q) => q,
        None => {
            return None;
        },
    };
    let next = match item_marker(input, begin) {
        Some(q) => q,
        None => {
            return None;
        },
    };
    expression(input, next, indent)
}

/// Recognises a run of item statements at `pos` and assembles the array of
/// their values. The run has at least one statement.
pub fn item_statements(input: &[u8], pos: usize, indent: usize) -> (r: Option<
    (Value, usize),
>)
    ensures
        match r {
            Some((v, q)) => item_statements_at(input@, pos as int, indent as nat) matches Some(
                (items, e),
            ) && v@ == Tree::List(items) && q == e,
            None => item_statements_at(input@, pos as int, indent as nat) is None,
        },
        r matches Some((v, q)) ==> v.wf() && v.parsed_shape() && pos < q <= input.len(),
    decreases input.len() - pos, 3nat,
{
    let (first, start) = match item_statement(input, pos, indent) {
        Some(r) => r,
        None => {
            return None;
        },
    };
    let mut items: Vec<Value> = Vec::new();
    items.push(first);
    assert(list_view(items@) =~= seq![first@]);
    let mut p: usize = start;
    loop
        invariant
            pos < p <= input.len(),
            items_wf(items@),
            items_parsed_shape(items@),
            items@.len() >= 1,
            item_run(input@, start as int, indent as nat, seq![first@]) == item_run(
                input@,
                p as int,
                indent as nat,
                list_view(items@),
            ),
        ensures
            pos < p <= input.len(),
            items_wf(items@),
            items_parsed_shape(items@),
            items@.len() >= 1,
            item_run(input@, start as int, indent as nat, seq![first@]) == (
                list_view(items@),
                p as int,
            ),
        decreases input.len() - p,
    {
        match item_statement(input, p, indent) {
            Some((value, q)) => {
                let ghost before = items@;
                items.push(value);
                assert(list_view(items@) =~= list_view(before).push(value@));
                p = q;
            },
            None => {
                break ;
            },
        }
    }
    Some((Value::Array(items), p))
}

} // verus!
