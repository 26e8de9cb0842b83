//! The ordered table that export and sort produce: for each translation key,
//! in order, the texts of that key by locale, in order. It is held in an
//! `IndexMap` of `IndexMap`s, which keep their entries in insertion order.

use crate::store::upserted;
use indexmap::IndexMap;
use vstd::prelude::*;
use vstd::string::*;

verus! {

/// `indexmap::IndexMap`, a hash map that keeps its entries in the order in
/// which their keys were first inserted.
#[verifier::external_type_specification]
#[verifier::external_body]
#[verifier::reject_recursive_types(K)]
#[verifier::reject_recursive_types(V)]
#[verifier::reject_recursive_types(S)]
pub struct ExIndexMap<K, V, S>(IndexMap<K, V, S>);

/// The entries of a row, locale and text, in the order of the map.
pub uninterp spec fn row_entries(row: IndexMap<String, String>) -> Seq<(Seq<char>, Seq<char>)>;

/// The entries of a table, key and row, in the order of the map.
pub uninterp spec fn table_entries(table: IndexMap<String, IndexMap<String, String>>) -> Seq<
    (Seq<char>, Seq<(Seq<char>, Seq<char>)>),
>;

/// `IndexMap::new`: a map without entries.
#[verifier::external_body]
pub(crate) fn row_new() -> (row: IndexMap<String, String>)
    ensures
        row_entries(row) == Seq::<(Seq<char>, Seq<char>)>::empty(),
{
    IndexMap::new()
}

/// `IndexMap::insert`: an entry with an equal key keeps its place and takes
/// the new value; else the pair is added last.
#[verifier::external_body]
pub(crate) fn row_insert(row: &mut IndexMap<String, String>, locale: String, text: String)
    ensures
        row_entries(*final(row)) == upserted(row_entries(*old(row)), locale@, text@),
{
    row.insert(locale, text);
}

/// `IndexMap::len`: the number of entries.
#[verifier::external_body]
pub(crate) fn row_len(row: &IndexMap<String, String>) -> (n: usize)
    ensures
        n == row_entries(*row).len(),
{
    row.len()
}

/// `IndexMap::get_index`: the entry at a position of the order, if the
/// position is below the number of entries.
#[verifier::external_body]
pub(crate) fn row_get_index(row: &IndexMap<String, String>, i: usize) -> (r: Option<
    (&String, &String),
>)
    ensures
        match r {
            Some((locale, text)) => i < row_entries(*row).len() && (locale@, text@) == row_entries(
                *row,
            )[i as int],
            None => i >= row_entries(*row).len(),
        },
{
    row.get_index(i)
}

/// `IndexMap::new`: a map without entries.
#[verifier::external_body]
pub(crate) fn table_new() -> (table: IndexMap<String, IndexMap<String, String>>)
    ensures
        table_entries(table) == Seq::<(Seq<char>, Seq<(Seq<char>, Seq<char>)>)>::empty(),
{
    IndexMap::new()
}

/// `IndexMap::insert`: an entry with an equal key keeps its place and takes
/// the new value; else the pair is added last.
#[verifier::external_body]
pub(crate) fn table_insert(
    table: &mut IndexMap<String, IndexMap<String, String>>,
    key: String,
    row: IndexMap<String, String>,
)
    ensures
        table_entries(*final(table)) == upserted(table_entries(*old(table)), key@, row_entries(row)),
{
    table.insert(key, row);
}

/// `IndexMap::len`: the number of entries.
#[verifier::external_body]
pub(crate) fn table_len(table: &IndexMap<String, IndexMap<String, String>>) -> (n: usize)
    ensures
        n == table_entries(*table).len(),
{
    table.len()
}

/// `IndexMap::get_index`: the entry at a position of the order, if the
/// position is below the number of entries.
#[verifier::external_body]
pub(crate) fn table_get_index(
    table: &IndexMap<String, IndexMap<String, String>>,
    i: usize,
) -> (r: Option<(&String, &IndexMap<String, String>)>)
    ensures
        match r {
            Some((key, row)) => i < table_entries(*table).len() && (key@, row_entries(*row))
                == table_entries(*table)[i as int],
            None => i >= table_entries(*table).len(),
        },
{
    table.get_index(i)
}

} // verus!
