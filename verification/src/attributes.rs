//! Attribute tables: names mapped to values, in the order in which the names
//! first came.
//!
//! The table itself is an `IndexMap`. What the contracts say of one is said
//! over its entries as a sequence of name and value pairs.

use indexmap::IndexMap;
use vstd::prelude::*;

verus! {

/// `indexmap::IndexMap`, taken as it is: nothing inside a table is visible
/// to a proof but through `attr_entries`.
#[verifier::external_type_specification]
#[verifier::external_body]
#[verifier::reject_recursive_types(K)]
#[verifier::reject_recursive_types(V)]
#[verifier::reject_recursive_types(S)]
pub struct ExIndexMap<K, V, S>(IndexMap<K, V, S>);

/// The entries of an attribute table in iteration order, each a name and its value.
pub type AttrEntries = Seq<(Seq<char>, Seq<char>)>;

/// The entries that `table` holds, in the order in which `IndexMap` iterates.
pub uninterp spec fn attr_entries(table: IndexMap<String, String>) -> Seq<(Seq<char>, Seq<char>)>;

/// Whether some entry goes by `name`.
pub open spec fn has_name(entries: AttrEntries, name: Seq<char>) -> bool {
    exists|i: int| 0 <= i < entries.len() && #[trigger] entries[i].0 == name
}

/// Whether `i` is the first place in `entries` that goes by `name`.
pub open spec fn is_first_at(entries: AttrEntries, name: Seq<char>, i: int) -> bool {
    &&& 0 <= i < entries.len()
    &&& entries[i].0 == name
    &&& forall|j: int| 0 <= j < i ==> #[trigger] entries[j].0 != name
}

/// The first place in `entries` that goes by `name`, where there is one.
pub open spec fn position(entries: AttrEntries, name: Seq<char>) -> int {
    choose|i: int| is_first_at(entries, name, i)
}

/// The value that `entries` gives for `name`.
pub open spec fn lookup(entries: AttrEntries, name: Seq<char>) -> Option<Seq<char>> {
    if has_name(entries, name) {
        Some(entries[position(entries, name)].1)
    } else {
        None
    }
}

/// `entries` after setting `name` to `value`: an entry that goes by `name`
/// keeps its place and takes the value, and a new name goes last.
pub open spec fn put(entries: AttrEntries, name: Seq<char>, value: Seq<char>) -> AttrEntries {
    if has_name(entries, name) {
        entries.update(position(entries, name), (name, value))
    } else {
        entries.push((name, value))
    }
}

/// The names of `entries`, in order.
pub open spec fn names(entries: AttrEntries) -> Seq<Seq<char>> {
    Seq::new(entries.len(), |i: int| entries[i].0)
}

/// Whether no two entries go by the same name.
pub open spec fn names_distinct(entries: AttrEntries) -> bool {
    forall|i: int, j: int|
        0 <= i < entries.len() && 0 <= j < entries.len() && i != j ==> #[trigger] entries[i].0
            != #[trigger] entries[j].0
}

/// A name that occurs has a first place.
pub proof fn lemma_position(entries: AttrEntries, name: Seq<char>)
    requires
        has_name(entries, name),
    ensures
        is_first_at(entries, name, position(entries, name)),
{
    let i = choose|i: int| 0 <= i < entries.len() && #[trigger] entries[i].0 == name;
    lemma_first_upto(entries, name, i);
}

proof fn lemma_first_upto(entries: AttrEntries, name: Seq<char>, i: int)
    requires
        0 <= i < entries.len(),
        entries[i].0 == name,
    ensures
        exists|k: int| is_first_at(entries, name, k),
    decreases i,
{
    if exists|j: int| 0 <= j < i && #[trigger] entries[j].0 == name {
        let j = choose|j: int| 0 <= j < i && #[trigger] entries[j].0 == name;
        lemma_first_upto(entries, name, j);
    } else {
        assert(is_first_at(entries, name, i));
    }
}

/// A name has one first place at most.
pub proof fn lemma_first_is_position(entries: AttrEntries, name: Seq<char>, i: int)
    requires
        is_first_at(entries, name, i),
    ensures
        has_name(entries, name),
        position(entries, name) == i,
{
    assert(entries[i].0 == name);
    lemma_position(entries, name);
    let p = position(entries, name);
    if p < i {
        assert(entries[p].0 != name);
    } else if i < p {
        assert(entries[i].0 != name);
    }
}

/// The last write wins: after `name` is set to `value`, that is the value
/// found for it.
pub proof fn lemma_put_then_lookup(entries: AttrEntries, name: Seq<char>, value: Seq<char>)
    ensures
        lookup(put(entries, name, value), name) == Some(value),
{
    let after = put(entries, name, value);
    if has_name(entries, name) {
        lemma_position(entries, name);
        let p = position(entries, name);
        assert(is_first_at(after, name, p)) by {
            assert forall|j: int| 0 <= j < p implies #[trigger] after[j].0 != name by {
                assert(entries[j].0 != name);
            }
        }
        lemma_first_is_position(after, name, p);
    } else {
        let p = entries.len() as int;
        assert(is_first_at(after, name, p)) by {
            assert forall|j: int| 0 <= j < p implies #[trigger] after[j].0 != name by {
                assert(entries[j].0 == after[j].0);
            }
        }
        lemma_first_is_position(after, name, p);
    }
}

/// Setting one name leaves what is found for every other name as it was.
pub proof fn lemma_put_keeps_others(
    entries: AttrEntries,
    name: Seq<char>,
    value: Seq<char>,
    other: Seq<char>,
)
    requires
        other != name,
    ensures
        lookup(put(entries, name, value), other) == lookup(entries, other),
{
    let after = put(entries, name, value);
    if has_name(entries, name) {
        lemma_position(entries, name);
    }
    assert forall|j: int| 0 <= j < entries.len() implies ((#[trigger] after[j].0 == other)
        <==> entries[j].0 == other) && (entries[j].0 == other ==> after[j] == entries[j]) by {}
    if has_name(entries, other) {
        lemma_position(entries, other);
        let p = position(entries, other);
        assert(is_first_at(after, other, p)) by {
            assert(after[p].0 == other);
            assert forall|j: int| 0 <= j < p implies #[trigger] after[j].0 != other by {
                assert(entries[j].0 != other);
            }
        }
        lemma_first_is_position(after, other, p);
    } else {
        if has_name(after, other) {
            let j = choose|j: int| 0 <= j < after.len() && #[trigger] after[j].0 == other;
            if j < entries.len() {
                assert(entries[j].0 == other);
            }
        }
    }
}

/// Setting a name keeps the order of the names: a name that is present
/// keeps its place, and a new one goes last.
pub proof fn lemma_put_names(entries: AttrEntries, name: Seq<char>, value: Seq<char>)
    ensures
        names(put(entries, name, value)) == (if has_name(entries, name) {
            names(entries)
        } else {
            names(entries).push(name)
        }),
{
    if has_name(entries, name) {
        lemma_position(entries, name);
        assert(names(put(entries, name, value)) =~= names(entries));
    } else {
        assert(names(put(entries, name, value)) =~= names(entries).push(name));
    }
}

/// Setting a name never makes two entries go by one name.
pub proof fn lemma_put_keeps_distinct(entries: AttrEntries, name: Seq<char>, value: Seq<char>)
    requires
        names_distinct(entries),
    ensures
        names_distinct(put(entries, name, value)),
{
    let after = put(entries, name, value);
    if has_name(entries, name) {
        lemma_position(entries, name);
        assert forall|i: int, j: int|
            0 <= i < after.len() && 0 <= j < after.len() && i != j implies #[trigger] after[i].0
            != #[trigger] after[j].0 by {
            assert(after[i].0 == entries[i].0);
            assert(after[j].0 == entries[j].0);
        }
    } else {
        assert forall|i: int, j: int|
            0 <= i < after.len() && 0 <= j < after.len() && i != j implies #[trigger] after[i].0
            != #[trigger] after[j].0 by {
            if i < entries.len() {
                assert(after[i].0 == entries[i].0);
            }
            if j < entries.len() {
                assert(after[j].0 == entries[j].0);
            }
        }
    }
}

/// A table without entries has no value for any name.
pub proof fn lemma_lookup_empty(name: Seq<char>)
    ensures
        lookup(Seq::empty(), name) is None,
{
}

/// `IndexMap::new`: the table it makes holds no entry.
#[verifier::external_body]
pub(crate) fn new_table() -> (table: IndexMap<String, String>)
    ensures
        attr_entries(table) == Seq::<(Seq<char>, Seq<char>)>::empty(),
{
    IndexMap::new()
}

/// `IndexMap::clone`: the copy holds the same entries in the same order.
#[verifier::external_body]
pub(crate) fn clone_table(table: &IndexMap<String, String>) -> (copy: IndexMap<String, String>)
    ensures
        attr_entries(copy) == attr_entries(*table),
{
    table.clone()
}

/// `IndexMap::insert`: where the name is present, its entry keeps its place
/// and takes the new value; where it is not, the pair becomes the last entry.
/// The call returns the value that the name had before.
#[verifier::external_body]
pub(crate) fn table_insert(
    table: &mut IndexMap<String, String>,
    name: String,
    value: String,
) -> (previous: Option<String>)
    ensures
        attr_entries(*final(table)) == put(attr_entries(*old(table)), name@, value@),
        match previous {
            Some(v) => lookup(attr_entries(*old(table)), name@) == Some(v@),
            None => lookup(attr_entries(*old(table)), name@) is None,
        },
{
    table.insert(name, value)
}

/// `IndexMap::get`: the value stored for the name, if the name is present.
#[verifier::external_body]
pub(crate) fn table_get<'a>(table: &'a IndexMap<String, String>, name: &str) -> (value: Option<
    &'a String,
>)
    ensures
        match value {
            Some(v) => lookup(attr_entries(*table), name@) == Some(v@),
            None => lookup(attr_entries(*table), name@) is None,
        },
{
    table.get(name)
}

/// `IndexMap::len`: the number of entries.
#[verifier::external_body]
pub(crate) fn table_len(table: &IndexMap<String, String>) -> (len: usize)
    ensures
        len == attr_entries(*table).len(),
{
    table.len()
}

/// `IndexMap::get_index`: the entry at a place in the order, for every place
/// below the length and for no other.
#[verifier::external_body]
pub(crate) fn table_entry<'a>(table: &'a IndexMap<String, String>, index: usize) -> (entry: Option<
    (&'a String, &'a String),
>)
    ensures
        match entry {
            Some((name, value)) => index < attr_entries(*table).len() && attr_entries(
                *table,
            )[index as int] == (name@, value@),
            None => index >= attr_entries(*table).len(),
        },
{
    table.get_index(index)
}

} // verus!
