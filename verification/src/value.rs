//! The value tree that parsing produces, and its mathematical model.

use vstd::prelude::*;

verus! {

/// The mathematical model of a value: what a [`Value`] denotes.
///
/// An object is a map from key text to value, so that the order in which
/// its entries were written carries no meaning.
pub enum Tree {
    Null,
    Text(Seq<char>),
    List(Seq<Tree>),
    Dict(Map<Seq<char>, Tree>),
}

/// One entry of an object: a key and the value assigned to it.
#[derive(Debug, PartialEq, Eq)]
pub struct Entry {
    pub key: String,
    pub value: Value,
}

/// A parsed value. Every scalar is text, whatever it looks like.
#[derive(Debug, PartialEq, Eq)]
pub enum Value {
    /// No value.
    Null,
    /// A scalar, kept verbatim as text.
    String(String),
    /// The values of a run of item statements, in order.
    Array(Vec<Value>),
    /// The entries of a run of property statements. In a well-formed value
    /// no two entries of one object have the same key.
    Object(Vec<Entry>),
}

/// The model of a sequence of values, element by element.
pub open spec fn list_view(items: Seq<Value>) -> Seq<Tree>
    decreases items, 0nat,
{
    Seq::new(
        items.len(),
        |i: int|
            if 0 <= i < items.len() {
                value_view(items[i])
            } else {
                Tree::Null
            },
    )
}

/// The map that a sequence of entries denotes: each entry assigns its key,
/// and a later entry overrides an earlier one with the same key.
pub open spec fn dict_view(entries: Seq<Entry>) -> Map<Seq<char>, Tree>
    decreases entries, entries.len(),
{
    if entries.len() == 0 {
        Map::empty()
    } else {
        dict_view(entries.drop_last()).insert(entries.last().key@, value_view(entries.last().value))
    }
}

/// The model of a value.
pub open spec fn value_view(v: Value) -> Tree
    decreases v,
{
    match v {
        Value::Null => Tree::Null,
        Value::String(s) => Tree::Text(s@),
        Value::Array(items) => Tree::List(list_view(items@)),
        Value::Object(entries) => Tree::Dict(dict_view(entries@)),
    }
}

impl View for Value {
    type V = Tree;

    open spec fn view(&self) -> Tree {
        value_view(*self)
    }
}

/// True when no two of the entries have the same key.
pub open spec fn unique_keys(entries: Seq<Entry>) -> bool {
    forall|i: int, j: int| 0 <= i < j < entries.len() ==> entries[i].key@ != entries[j].key@
}

/// True when every object in the value, at any depth, has unique keys.
pub open spec fn value_wf(v: Value) -> bool
    decreases v,
{
    match v {
        Value::Null => true,
        Value::String(_) => true,
        Value::Array(items) => forall|i: int|
            0 <= i < items@.len() ==> value_wf(#[trigger] items@[i]),
        Value::Object(entries) => unique_keys(entries@) && forall|i: int|
            0 <= i < entries@.len() ==> value_wf((#[trigger] entries@[i]).value),
    }
}

/// True when each entry's value is well formed.
pub open spec fn entries_wf(entries: Seq<Entry>) -> bool {
    forall|i: int| 0 <= i < entries.len() ==> value_wf((#[trigger] entries[i]).value)
}

/// True when each value is well formed.
pub open spec fn items_wf(items: Seq<Value>) -> bool {
    forall|i: int| 0 <= i < items.len() ==> value_wf(#[trigger] items[i])
}

/// True when the value has the shape of what parsing yields: no `Null` is
/// in it, and no array without items.
pub open spec fn value_parsed_shape(v: Value) -> bool
    decreases v,
{
    match v {
        Value::Null => false,
        Value::String(_) => true,
        Value::Array(items) => items@.len() > 0 && forall|i: int|
            0 <= i < items@.len() ==> value_parsed_shape(#[trigger] items@[i]),
        Value::Object(entries) => forall|i: int|
            0 <= i < entries@.len() ==> value_parsed_shape((#[trigger] entries@[i]).value),
    }
}

/// True when each entry's value has the shape of what parsing yields.
pub open spec fn entries_parsed_shape(entries: Seq<Entry>) -> bool {
    forall|i: int| 0 <= i < entries.len() ==> value_parsed_shape((#[trigger] entries[i]).value)
}

/// True when each value has the shape of what parsing yields.
pub open spec fn items_parsed_shape(items: Seq<Value>) -> bool {
    forall|i: int| 0 <= i < items.len() ==> value_parsed_shape(#[trigger] items[i])
}

impl Value {
    /// The invariant of a value: every object in it has unique keys.
    pub open spec fn wf(&self) -> bool {
        value_wf(*self)
    }

    /// The shape of what parsing yields: no `Null`, no empty array.
    pub open spec fn parsed_shape(&self) -> bool {
        value_parsed_shape(*self)
    }
}

/// Replacing the value of the last entry that has a key is an assignment
/// to that key.
pub proof fn lemma_dict_view_update(entries: Seq<Entry>, i: int, e: Entry)
    requires
        0 <= i < entries.len(),
        e.key@ == entries[i].key@,
        forall|j: int| i < j < entries.len() ==> entries[j].key@ != e.key@,
    ensures
        dict_view(entries.update(i, e)) == dict_view(entries).insert(e.key@, e.value@),
    decreases entries.len(),
{
    let last = entries.len() - 1;
    let updated = entries.update(i, e);
    if i == last {
        assert(updated.drop_last() =~= entries.drop_last());
        assert(dict_view(updated) =~= dict_view(entries).insert(e.key@, e.value@));
    } else {
        assert(updated.drop_last() =~= entries.drop_last().update(i, e));
        assert(updated.last() == entries.last());
        assert(entries.drop_last()[i] == entries[i]);
        assert forall|j: int| i < j < entries.drop_last().len() implies entries.drop_last()[j].key@
            != e.key@ by {
            assert(entries.drop_last()[j] == entries[j]);
        }
        lemma_dict_view_update(entries.drop_last(), i, e);
        assert(entries[last].key@ != e.key@);
        assert(dict_view(updated) =~= dict_view(entries).insert(e.key@, e.value@));
    }
}

/// Assigns `value` to `key` in an object's entries: the value of the entry
/// that has this key is replaced, and where there is none a new entry is
/// added at the end. Whatever was assigned to the key before is lost.
pub fn assign(entries: &mut Vec<Entry>, key: String, value: Value)
    ensures
        dict_view(final(entries)@) == dict_view(old(entries)@).insert(key@, value@),
        unique_keys(old(entries)@) ==> unique_keys(final(entries)@),
        entries_wf(old(entries)@) && value.wf() ==> entries_wf(final(entries)@),
        entries_parsed_shape(old(entries)@) && value.parsed_shape() ==> entries_parsed_shape(
            final(entries)@,
        ),
{
    let mut i: usize = entries.len();
    while i > 0
        invariant
            i <= entries.len(),
            *entries == *old(entries),
            forall|j: int| i <= j < entries.len() ==> entries@[j].key@ != key@,
        decreases i,
    {
        i -= 1;
        if entries[i].key == key {
            let ghost before = entries@;
            let e = Entry { key, value };
            proof {
                lemma_dict_view_update(before, i as int, e);
            }
            entries.set(i, e);
            return ;
        }
    }
    let ghost before = entries@;
    entries.push(Entry { key, value });
    assert(entries@.drop_last() =~= before);
}

} // verus!
