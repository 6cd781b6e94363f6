//! Every tree that parsing yields can be written down so that parsing reads
//! it back.
//!
//! The written form defined here is one of many: each statement on a line
//! of its own, nested blocks one step further in, every key and every
//! scalar between quotes. It is a definition, not a program; what is proved
//! of it is that the grammar reads it back as the tree it was written
//! from.

use vstd::prelude::*;
use crate::grammar::{
    blank_lines_end, blanks_end, colon_end, comment_end, document, eol_end, expression,
    indentation_end, item_run, item_statement, item_statements, line_ending_end, marker_end,
    property_run, property_statement, scalar, COLON, DASH, INDENT_STEP, LINE_FEED, QUOTE, SPACE,
};
use crate::laws::{escaped, lemma_escaped_round_trip};
use crate::locality::{
    lemma_blank_lines_end_local, lemma_expression_local, lemma_item_run_local,
    lemma_item_statements_local, lemma_property_run_local, lemma_scalar_local,
};
use crate::value::{
    dict_view, entries_parsed_shape, items_parsed_shape, list_view, value_parsed_shape, Entry,
    Tree, Value,
};

verus! {

/// Indentation: `n` spaces.
pub open spec fn indent(n: nat) -> Seq<u8> {
    Seq::new(n, |i: int| SPACE)
}

/// A text between quotes, with what cannot stand there escaped.
pub open spec fn quoted(text: Seq<char>) -> Seq<u8> {
    seq![QUOTE] + escaped(text) + seq![QUOTE]
}

/// A value as it is written after a key or an item marker of a statement
/// at indentation `n`: a scalar on the same line, a block on the lines
/// that follow.
pub open spec fn written_value(v: Value, n: nat) -> Seq<u8>
    decreases v,
{
    match v {
        Value::Null => Seq::empty(),
        Value::String(text) => quoted(text@) + seq![LINE_FEED],
        Value::Array(items) => seq![LINE_FEED] + written_items(items@, n + INDENT_STEP as nat),
        Value::Object(entries) => seq![LINE_FEED] + written_entries(
            entries@,
            n + INDENT_STEP as nat,
        ),
    }
}

/// Values as a run of item statements at indentation `n`.
pub open spec fn written_items(items: Seq<Value>, n: nat) -> Seq<u8>
    decreases items, items.len(),
{
    if items.len() == 0 {
        Seq::empty()
    } else {
        indent(n) + seq![DASH, SPACE] + written_value(items[0], n) + written_items(
            items.drop_first(),
            n,
        )
    }
}

/// Entries as a run of property statements at indentation `n`.
pub open spec fn written_entries(entries: Seq<Entry>, n: nat) -> Seq<u8>
    decreases entries, entries.len(),
{
    if entries.len() == 0 {
        Seq::empty()
    } else {
        indent(n) + quoted(entries[0].key@) + seq![COLON, SPACE] + written_value(
            entries[0].value,
            n,
        ) + written_entries(entries.drop_first(), n)
    }
}

/// The entries assigned to an object one after the other, first to last.
pub open spec fn assigned(acc: Map<Seq<char>, Tree>, entries: Seq<Entry>) -> Map<Seq<char>, Tree>
    decreases entries.len(),
{
    if entries.len() == 0 {
        acc
    } else {
        assigned(acc.insert(entries[0].key@, entries[0].value@), entries.drop_first())
    }
}

/// Assigning one more entry at the end is assigning it to the result.
pub proof fn lemma_assigned_push(acc: Map<Seq<char>, Tree>, entries: Seq<Entry>, e: Entry)
    ensures
        assigned(acc, entries.push(e)) == assigned(acc, entries).insert(e.key@, e.value@),
    decreases entries.len(),
{
    if entries.len() == 0 {
        assert(entries.push(e).drop_first() =~= entries);
        assert(assigned(acc.insert(e.key@, e.value@), entries) == acc.insert(e.key@, e.value@));
    } else {
        assert(entries.push(e).drop_first() =~= entries.drop_first().push(e));
        lemma_assigned_push(
            acc.insert(entries[0].key@, entries[0].value@),
            entries.drop_first(),
            e,
        );
    }
}

/// Assigning the entries to an empty object, first to last, gives the
/// object that they denote.
pub proof fn lemma_assigned_is_dict_view(entries: Seq<Entry>)
    ensures
        assigned(Map::empty(), entries) == dict_view(entries),
    decreases entries.len(),
{
    if entries.len() > 0 {
        lemma_assigned_is_dict_view(entries.drop_last());
        lemma_assigned_push(Map::empty(), entries.drop_last(), entries.last());
        assert(entries.drop_last().push(entries.last()) =~= entries);
    }
}

/// True when a block at indentation `n` or deeper ends where `rest`
/// begins: no comment line and no statement at such an indentation stands
/// at its start.
pub open spec fn closes(rest: Seq<u8>, n: nat) -> bool {
    &&& comment_end(rest, 0) is None
    &&& forall|m: nat| m >= n ==> #[trigger] property_statement(rest, 0, m) is None
    &&& forall|m: nat| m >= n ==> #[trigger] item_statement(rest, 0, m) is None
}

/// The end of the input closes every block.
pub proof fn lemma_end_closes(n: nat)
    ensures
        closes(Seq::empty(), n),
{
    let rest = Seq::<u8>::empty();
    assert forall|m: nat| m >= n implies #[trigger] property_statement(rest, 0, m) is None by {
        assert(scalar(rest, 0) is None);
    }
    assert forall|m: nat| m >= n implies #[trigger] item_statement(rest, 0, m) is None by {
        assert(marker_end(rest, 0) is None);
    }
}

/// Spaces followed by a byte that is none end at that byte.
proof fn lemma_blanks_end_over_spaces(s: Seq<u8>, p: int, j: nat)
    requires
        0 <= p,
        p + j < s.len(),
        forall|i: int| p <= i < p + j ==> s[i] == SPACE,
        s[p + j] == QUOTE || s[p + j] == DASH || s[p + j] == LINE_FEED,
    ensures
        blanks_end(s, p) == p + j,
    decreases j,
{
    if j > 0 {
        lemma_blanks_end_over_spaces(s, p + 1, (j - 1) as nat);
    }
}

/// A line that begins with `j` spaces and a quote or a dash closes every
/// block that is indented further.
pub proof fn lemma_statement_closes(text: Seq<u8>, j: nat, n: nat)
    requires
        j < text.len(),
        forall|i: int| 0 <= i < j ==> text[i] == SPACE,
        text[j as int] == QUOTE || text[j as int] == DASH,
        n > j,
    ensures
        closes(text, n),
{
    lemma_blanks_end_over_spaces(text, 0, j);
    assert forall|m: nat| m >= n implies #[trigger] property_statement(text, 0, m) is None by {
        assert(indentation_end(text, 0, m) is None);
    }
    assert forall|m: nat| m >= n implies #[trigger] item_statement(text, 0, m) is None by {
        assert(indentation_end(text, 0, m) is None);
    }
}

/// Where no comment line stands, no blank line stands either.
proof fn lemma_no_comment_no_blank_line(rest: Seq<u8>)
    requires
        comment_end(rest, 0) is None,
    ensures
        blank_lines_end(rest, 0) == 0,
{
}

/// A written value begins with a quote or with a line feed.
proof fn lemma_written_value_first(v: Value, n: nat)
    requires
        value_parsed_shape(v),
    ensures
        written_value(v, n).len() > 0,
        written_value(v, n)[0] == QUOTE || written_value(v, n)[0] == LINE_FEED,
{
}

/// A scalar between quotes on a line of its own is read back as an
/// expression: the text, as a scalar.
proof fn lemma_written_text(text: Seq<char>, n: nat, rest: Seq<u8>)
    requires
        comment_end(rest, 0) is None,
    ensures
        expression(quoted(text) + seq![LINE_FEED] + rest, 0, n) == Some(
            (Tree::Text(text), quoted(text).len() as int + 1),
        ),
{
    let s = quoted(text) + seq![LINE_FEED] + rest;
    let a = quoted(text) + seq![LINE_FEED];
    let e = quoted(text).len() as int;
    lemma_escaped_round_trip(text, seq![LINE_FEED] + rest);
    assert(s =~= seq![QUOTE] + escaped(text) + seq![QUOTE] + (seq![LINE_FEED] + rest));
    assert(s[0] == QUOTE);
    assert(line_ending_end(s, 0) is None);
    assert(scalar(s, 0) == Some((text, e)));
    assert(s[e] == LINE_FEED);
    assert(s =~= a + rest);
    lemma_blank_lines_end_local(a, rest, 0);
    lemma_no_comment_no_blank_line(rest);
    assert(eol_end(s, e) == Some(e + 1));
}

/// A run of item statements after a line feed is read as an expression:
/// the array of the values of the run.
proof fn lemma_nested_array(block: Seq<u8>, n: nat, items: Seq<Tree>, e: int)
    requires
        item_statements(block, 0, n + INDENT_STEP as nat) == Some((items, e)),
    ensures
        expression(seq![LINE_FEED] + block, 0, n) == Some((Tree::List(items), e + 1)),
{
    let s = seq![LINE_FEED] + block;
    assert(s[0] == LINE_FEED);
    lemma_item_statements_local(
        seq![LINE_FEED],
        block,
        0,
        n + INDENT_STEP as nat,
    );
}

/// Where no item statement stands after a line feed, what stands there is
/// read as an expression: the object of the run of property statements.
proof fn lemma_nested_object(block: Seq<u8>, n: nat, dict: Map<Seq<char>, Tree>, e: int)
    requires
        item_statement(block, 0, n + INDENT_STEP as nat) is None,
        property_run(block, 0, n + INDENT_STEP as nat, Map::empty()) == (dict, e),
    ensures
        expression(seq![LINE_FEED] + block, 0, n) == Some((Tree::Dict(dict), e + 1)),
{
    let s = seq![LINE_FEED] + block;
    let m = n + INDENT_STEP as nat;
    assert(s[0] == LINE_FEED);
    assert(item_statements(block, 0, m) is None);
    lemma_item_statements_local(seq![LINE_FEED], block, 0, m);
    lemma_property_run_local(seq![LINE_FEED], block, 0, m, Map::empty());
}

/// No item statement stands where a written run of property statements
/// begins, or where it ends if it is empty.
proof fn lemma_entries_are_no_items(entries: Seq<Entry>, n: nat, rest: Seq<u8>)
    requires
        closes(rest, n),
    ensures
        item_statement(written_entries(entries, n) + rest, 0, n) is None,
{
    let block = written_entries(entries, n) + rest;
    if entries.len() == 0 {
        assert(block =~= rest);
    } else {
        assert forall|i: int| 0 <= i < n implies block[i] == SPACE by {
            assert(block[i] == indent(n)[i]);
        }
        assert(block[n as int] == QUOTE);
        assert(indentation_end(block, 0, n) == Some(n as int));
        assert(marker_end(block, n as int) is None);
    }
}

/// A written value is read back as the value, up to where it ends.
pub proof fn lemma_written_value(v: Value, n: nat, rest: Seq<u8>)
    requires
        value_parsed_shape(v),
        closes(rest, n + INDENT_STEP as nat),
    ensures
        expression(written_value(v, n) + rest, 0, n) == Some(
            (v@, written_value(v, n).len() as int),
        ),
    decreases v, 0nat,
{
    let m = n + INDENT_STEP as nat;
    let s = written_value(v, n) + rest;
    match v {
        Value::Null => {},
        Value::String(text) => {
            lemma_written_text(text@, n, rest);
        },
        Value::Array(items) => {
            let block = written_items(items@, m) + rest;
            assert(s =~= seq![LINE_FEED] + block);
            lemma_written_item_statements(items@, m, rest);
            lemma_nested_array(block, n, list_view(items@), written_items(items@, m).len() as int);
        },
        Value::Object(entries) => {
            let block = written_entries(entries@, m) + rest;
            assert(s =~= seq![LINE_FEED] + block);
            lemma_entries_are_no_items(entries@, m, rest);
            lemma_written_entries(entries@, m, rest, Map::empty());
            lemma_assigned_is_dict_view(entries@);
            lemma_nested_object(
                block,
                n,
                dict_view(entries@),
                written_entries(entries@, m).len() as int,
            );
        },
    }
}

/// A written run of item statements that is not empty is read back as its
/// values.
pub proof fn lemma_written_item_statements(items: Seq<Value>, n: nat, rest: Seq<u8>)
    requires
        items.len() > 0,
        items_parsed_shape(items),
        closes(rest, n),
    ensures
        item_statements(written_items(items, n) + rest, 0, n) == Some(
            (list_view(items), written_items(items, n).len() as int),
        ),
    decreases items, items.len() + 1,
{
    let first = items[0];
    let others = items.drop_first();
    let line = indent(n) + seq![DASH, SPACE] + written_value(first, n);
    let rest2 = written_items(others, n) + rest;
    let block = written_items(items, n) + rest;
    assert(block =~= line + rest2);
    lemma_written_value_first(first, n);
    lemma_items_rest_closes(others, n, rest);
    lemma_written_item(first, n, rest2);
    assert forall|i: int| 0 <= i < others.len() implies value_parsed_shape(
        #[trigger] others[i],
    ) by {
        assert(others[i] == items[i + 1]);
    }
    lemma_written_items(others, n, rest, seq![first@]);
    lemma_item_run_local(line, rest2, 0, n, seq![first@]);
    assert(seq![first@] + list_view(others) =~= list_view(items));
}

/// What follows an item statement in a written run closes the blocks that
/// are nested in the statement.
proof fn lemma_items_rest_closes(others: Seq<Value>, n: nat, rest: Seq<u8>)
    requires
        closes(rest, n),
    ensures
        closes(written_items(others, n) + rest, n + INDENT_STEP as nat),
{
    let rest2 = written_items(others, n) + rest;
    if others.len() == 0 {
        assert(rest2 =~= rest);
    } else {
        assert forall|i: int| 0 <= i < n implies rest2[i] == SPACE by {
            assert(rest2[i] == indent(n)[i]);
        }
        assert(rest2[n as int] == DASH);
        lemma_statement_closes(rest2, n, n + INDENT_STEP as nat);
    }
}

/// What follows a property statement in a written run closes the blocks
/// that are nested in the statement.
proof fn lemma_entries_rest_closes(others: Seq<Entry>, n: nat, rest: Seq<u8>)
    requires
        closes(rest, n),
    ensures
        closes(written_entries(others, n) + rest, n + INDENT_STEP as nat),
{
    let rest2 = written_entries(others, n) + rest;
    if others.len() == 0 {
        assert(rest2 =~= rest);
    } else {
        assert forall|i: int| 0 <= i < n implies rest2[i] == SPACE by {
            assert(rest2[i] == indent(n)[i]);
        }
        assert(rest2[n as int] == QUOTE);
        lemma_statement_closes(rest2, n, n + INDENT_STEP as nat);
    }
}

/// The head of a written item statement, whatever value `w` follows it:
/// its indentation and its marker are read as written.
proof fn lemma_written_item_head(n: nat, w: Seq<u8>, rest: Seq<u8>)
    requires
        w.len() > 0,
        w[0] == QUOTE || w[0] == LINE_FEED,
    ensures
        ({
            let t = indent(n) + seq![DASH, SPACE] + w + rest;
            &&& indentation_end(t, 0, n) == Some(n as int)
            &&& marker_end(t, n as int) == Some(n as int + 2)
        }),
{
    let t = indent(n) + seq![DASH, SPACE] + w + rest;
    let begin = n as int;
    assert forall|i: int| 0 <= i < n implies t[i] == SPACE by {
        assert(t[i] == indent(n)[i]);
    }
    assert(t[begin] == DASH && t[begin + 1] == SPACE && t[begin + 2] == w[0]);
    lemma_blanks_end_over_spaces(t, begin + 1, 1);
}

/// An item statement is its parts, one after the other.
proof fn lemma_item_statement_parts(t: Seq<u8>, n: nat, value_at: int, value: Tree, e: int)
    requires
        indentation_end(t, 0, n) == Some(n as int),
        marker_end(t, n as int) == Some(value_at),
        expression(t, value_at, n) == Some((value, e)),
    ensures
        item_statement(t, 0, n) == Some((value, e)),
{
}

/// A written item statement is read back as its value.
pub proof fn lemma_written_item(v: Value, n: nat, rest: Seq<u8>)
    requires
        value_parsed_shape(v),
        closes(rest, n + INDENT_STEP as nat),
    ensures
        ({
            let line = indent(n) + seq![DASH, SPACE] + written_value(v, n);
            item_statement(line + rest, 0, n) == Some((v@, line.len() as int))
        }),
    decreases v, 1nat,
{
    let w = written_value(v, n);
    let head = indent(n) + seq![DASH, SPACE];
    lemma_written_value_first(v, n);
    lemma_written_item_head(n, w, rest);
    lemma_written_value(v, n, rest);
    lemma_written_value_behind(head, v, n, rest);
    lemma_item_statement_parts(
        head + w + rest,
        n,
        n as int + 2,
        v@,
        head.len() as int + w.len(),
    );
}

/// A written run of item statements is read back as its values, added to
/// those that the run began with.
pub proof fn lemma_written_items(items: Seq<Value>, n: nat, rest: Seq<u8>, acc: Seq<Tree>)
    requires
        items_parsed_shape(items),
        closes(rest, n),
    ensures
        item_run(written_items(items, n) + rest, 0, n, acc) == (
            acc + list_view(items),
            written_items(items, n).len() as int,
        ),
    decreases items, items.len(),
{
    let t = written_items(items, n) + rest;
    if items.len() == 0 {
        assert(t =~= rest);
        assert(item_statement(rest, 0, n) is None);
        assert(acc + list_view(items) =~= acc);
    } else {
        let first = items[0];
        let others = items.drop_first();
        let line = indent(n) + seq![DASH, SPACE] + written_value(first, n);
        let rest2 = written_items(others, n) + rest;
        assert(t =~= line + rest2);
        lemma_items_rest_closes(others, n, rest);
        lemma_written_item(first, n, rest2);
        assert forall|i: int| 0 <= i < others.len() implies value_parsed_shape(
            #[trigger] others[i],
        ) by {
            assert(others[i] == items[i + 1]);
        }
        lemma_written_items(others, n, rest, acc.push(first@));
        lemma_item_run_local(line, rest2, 0, n, acc.push(first@));
        assert(acc.push(first@) + list_view(others) =~= acc + list_view(items));
    }
}

/// A line that begins with `n` spaces and a quote is no comment line, and
/// its indentation is `n`.
proof fn lemma_line_head(t: Seq<u8>, n: nat)
    requires
        n < t.len(),
        forall|i: int| 0 <= i < n ==> t[i] == SPACE,
        t[n as int] == QUOTE,
    ensures
        comment_end(t, 0) is None,
        indentation_end(t, 0, n) == Some(n as int),
{
    lemma_blanks_end_over_spaces(t, 0, n);
}

/// A key between quotes behind its indentation is read back as the key.
proof fn lemma_written_key(key: Seq<char>, n: nat, after: Seq<u8>)
    ensures
        scalar(indent(n) + quoted(key) + after, n as int) == Some(
            (key, n + quoted(key).len() as int),
        ),
{
    let k = quoted(key);
    lemma_escaped_round_trip(key, after);
    assert(k + after =~= seq![QUOTE] + escaped(key) + seq![QUOTE] + after);
    assert(indent(n) + k + after =~= indent(n) + (k + after));
    lemma_scalar_local(indent(n), k + after, 0);
}

/// A colon and a space before a quote or a line feed are the separator of
/// a property statement.
proof fn lemma_written_colon(t: Seq<u8>, p: int)
    requires
        0 <= p,
        p + 2 < t.len(),
        t[p] == COLON,
        t[p + 1] == SPACE,
        t[p + 2] == QUOTE || t[p + 2] == LINE_FEED,
    ensures
        colon_end(t, p) == Some(p + 2),
{
    assert(blanks_end(t, p) == p);
    lemma_blanks_end_over_spaces(t, p + 1, 1);
}

/// The head of a written property statement, whatever value `w` follows
/// it: the line is no comment line, and its indentation, its key and its
/// separator are read as written.
proof fn lemma_written_property_head(key: Seq<char>, n: nat, w: Seq<u8>, rest: Seq<u8>)
    requires
        w.len() > 0,
        w[0] == QUOTE || w[0] == LINE_FEED,
    ensures
        ({
            let t = indent(n) + quoted(key) + seq![COLON, SPACE] + w + rest;
            let next = n + quoted(key).len() as int;
            &&& comment_end(t, 0) is None
            &&& indentation_end(t, 0, n) == Some(n as int)
            &&& scalar(t, n as int) == Some((key, next))
            &&& colon_end(t, next) == Some(next + 2)
        }),
{
    let k = quoted(key);
    let t = indent(n) + k + seq![COLON, SPACE] + w + rest;
    let begin = n as int;
    let next = begin + k.len();
    assert(n < t.len() && t[begin] == QUOTE && (forall|i: int| 0 <= i < n ==> t[i] == SPACE)) by {
        assert forall|i: int| 0 <= i < n implies t[i] == SPACE by {
            assert(t[i] == indent(n)[i]);
        }
        assert(t[begin] == k[0]);
    }
    lemma_line_head(t, n);
    assert(scalar(t, begin) == Some((key, next))) by {
        let after = seq![COLON, SPACE] + w + rest;
        lemma_written_key(key, n, after);
        assert(t =~= indent(n) + k + after);
    }
    assert(colon_end(t, next) == Some(next + 2)) by {
        assert(t[next] == COLON && t[next + 1] == SPACE && t[next + 2] == w[0]);
        lemma_written_colon(t, next);
    }
}

/// A property statement is its parts, one after the other.
proof fn lemma_property_statement_parts(
    t: Seq<u8>,
    n: nat,
    key: Seq<char>,
    next: int,
    value_at: int,
    value: Tree,
    e: int,
)
    requires
        indentation_end(t, 0, n) == Some(n as int),
        scalar(t, n as int) == Some((key, next)),
        colon_end(t, next) == Some(value_at),
        expression(t, value_at, n) == Some((value, e)),
    ensures
        property_statement(t, 0, n) == Some((key, value, e)),
{
}

/// A written value behind the head of its statement is read back as the
/// value.
proof fn lemma_written_value_behind(head: Seq<u8>, v: Value, n: nat, rest: Seq<u8>)
    requires
        expression(written_value(v, n) + rest, 0, n) == Some(
            (v@, written_value(v, n).len() as int),
        ),
    ensures
        expression(head + written_value(v, n) + rest, head.len() as int, n) == Some(
            (v@, head.len() as int + written_value(v, n).len()),
        ),
{
    let w = written_value(v, n);
    assert(head + w + rest =~= head + (w + rest));
    lemma_expression_local(head, w + rest, 0, n);
}

/// A written property statement is no comment line, and it is read back as
/// its key and its value.
pub proof fn lemma_written_property(e: Entry, n: nat, rest: Seq<u8>)
    requires
        value_parsed_shape(e.value),
        closes(rest, n + INDENT_STEP as nat),
    ensures
        ({
            let line = indent(n) + quoted(e.key@) + seq![COLON, SPACE] + written_value(
                e.value,
                n,
            );
            &&& comment_end(line + rest, 0) is None
            &&& property_statement(line + rest, 0, n) == Some(
                (e.key@, e.value@, line.len() as int),
            )
        }),
    decreases e, 1nat,
{
    let w = written_value(e.value, n);
    let head = indent(n) + quoted(e.key@) + seq![COLON, SPACE];
    let next = n + quoted(e.key@).len() as int;
    lemma_written_value_first(e.value, n);
    lemma_written_property_head(e.key@, n, w, rest);
    lemma_written_value(e.value, n, rest);
    lemma_written_value_behind(head, e.value, n, rest);
    lemma_property_statement_parts(
        head + w + rest,
        n,
        e.key@,
        next,
        next + 2,
        e.value@,
        head.len() as int + w.len(),
    );
}

/// A written run of property statements is read back as its entries,
/// assigned one after the other to the object that the run began with.
pub proof fn lemma_written_entries(
    entries: Seq<Entry>,
    n: nat,
    rest: Seq<u8>,
    acc: Map<Seq<char>, Tree>,
)
    requires
        entries_parsed_shape(entries),
        closes(rest, n),
    ensures
        property_run(written_entries(entries, n) + rest, 0, n, acc) == (
            assigned(acc, entries),
            written_entries(entries, n).len() as int,
        ),
    decreases entries, entries.len(),
{
    let t = written_entries(entries, n) + rest;
    if entries.len() == 0 {
        assert(t =~= rest);
        assert(property_statement(rest, 0, n) is None);
    } else {
        let e = entries[0];
        let others = entries.drop_first();
        let line = indent(n) + quoted(e.key@) + seq![COLON, SPACE] + written_value(e.value, n);
        let rest2 = written_entries(others, n) + rest;
        let next = acc.insert(e.key@, e.value@);
        assert(t =~= line + rest2);
        lemma_entries_rest_closes(others, n, rest);
        lemma_written_property(e, n, rest2);
        assert forall|i: int| 0 <= i < others.len() implies value_parsed_shape(
            (#[trigger] others[i]).value,
        ) by {
            assert(others[i] == entries[i + 1]);
        }
        lemma_written_entries(others, n, rest, next);
        lemma_property_run_local(line, rest2, 0, n, next);
    }
}

/// The written form of an object: its entries as a run of property
/// statements without indentation.
pub open spec fn written(v: Value) -> Seq<u8> {
    match v {
        Value::Object(entries) => written_entries(entries@, 0),
        _ => Seq::empty(),
    }
}

/// Writing a tree down and parsing it again changes nothing. Every object
/// of the shape that parsing yields, and so every tree that was parsed,
/// has a written form that is a document, and the document is the object.
pub proof fn lemma_written_round_trip(v: Value)
    requires
        v is Object,
        value_parsed_shape(v),
    ensures
        document(written(v)) == Some(v@->Dict_0),
        v@ is Dict,
{
    let entries = v->Object_0;
    lemma_end_closes(0);
    lemma_written_entries(entries@, 0, Seq::empty(), Map::empty());
    lemma_assigned_is_dict_view(entries@);
    assert(written_entries(entries@, 0) + Seq::<u8>::empty() =~= written(v));
}

} // verus!
