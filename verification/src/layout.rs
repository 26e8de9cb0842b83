//! The layout in which a store is written to its file after texts were
//! merged into it, and the laws that make a second run write the same file:
//! a second merge of the same texts, and a second sort of a sorted file.
//!
//! The keys of the default locale come first, in the order of its table, so
//! that texts stay in the order in which they were first seen. The other
//! keys follow in ascending order, and the cells of a row stand in ascending
//! order of their locales. This order can be told from what a file holds, so
//! a file that is read and written again is not changed.

use crate::export::{
    collect_keys, collect_locales, keys_upto, known_locales, lemma_present_cells_locales,
    lemma_store_keys, present_cells, sort_table, sorted_rows, store_keys,
};
use crate::import::{
    distinct_cells, imported, imported_row, lemma_imported_row, lemma_present_cells_lookup,
    lemma_sort_import_round_trip, lemma_sort_recovers_store, lemma_translation_is_listed, stored,
};
use crate::message::{lemma_merge_distinct_keys, lemma_merge_idempotent, merged, MessageView};
use crate::sorted::{
    lemma_sorted_no_duplicates, lemma_sorted_seq, lemma_sorted_seq_of, lemma_sorted_unique,
    ordered_seq, sorted_seq, strictly_sorted,
};
use crate::store::{
    distinct_keys, keys_of, lemma_lookup_push, lemma_position_from, lemma_position_of_entry,
    lemma_upserted, lookup, position, store_wf, table_of, translation_of, upserted, LocaleStore,
    LocaleTable,
};
use crate::table::table_entries;
use crate::text::str_views;
use indexmap::IndexMap;
use vstd::prelude::*;
use vstd::string::*;

verus! {

/// The locales of a written store: those of the store, in ascending order.
pub open spec fn layout_locales(store: Seq<(Seq<char>, Seq<(Seq<char>, Seq<char>)>)>) -> Seq<
    Seq<char>,
> {
    sorted_seq(keys_of(store).to_set())
}

/// The keys of a written store: those of the table of the default locale, in
/// the order of that table, then the other keys of the store in ascending
/// order.
pub open spec fn layout_keys(
    store: Seq<(Seq<char>, Seq<(Seq<char>, Seq<char>)>)>,
    default_locale: Seq<char>,
) -> Seq<Seq<char>> {
    let first = keys_of(table_of(store, default_locale));
    first + sorted_seq(store_keys(store).difference(first.to_set()))
}

/// The table in which a store is written: a row for each key, with a cell
/// for each locale that has a translation of the key.
pub open spec fn layout_rows(
    store: Seq<(Seq<char>, Seq<(Seq<char>, Seq<char>)>)>,
    default_locale: Seq<char>,
) -> Seq<(Seq<char>, Seq<(Seq<char>, Seq<char>)>)> {
    sorted_rows(store, layout_locales(store), layout_keys(store, default_locale))
}

/// The keys of a table, in order.
fn table_keys(table: &LocaleTable) -> (keys: Vec<String>)
    ensures
        str_views(keys@) == keys_of(table@),
{
    let mut keys: Vec<String> = Vec::new();
    let mut j: usize = 0;
    while j < table.len()
        invariant
            j <= table@.len(),
            str_views(keys@) == keys_of(table@).take(j as int),
        decreases table@.len() - j,
    {
        let ghost before = str_views(keys@);
        keys.push(table.key_at(j).clone());
        assert(str_views(keys@) == before.push(keys_of(table@)[j as int]));
        j += 1;
    }
    assert(keys_of(table@).take(j as int) == keys_of(table@));
    keys
}

/// The keys of a store are finitely many.
pub proof fn lemma_store_keys_finite(store: Seq<(Seq<char>, Seq<(Seq<char>, Seq<char>)>)>, n: int)
    ensures
        keys_upto(store, n).finite(),
    decreases n,
{
    if n > 0 {
        lemma_store_keys_finite(store, n - 1);
        vstd::seq_lib::seq_to_set_is_finite(keys_of(store[n - 1].1));
        vstd::set::axiom_set_union_finite(
            keys_upto(store, n - 1),
            keys_of(store[n - 1].1).to_set(),
        );
    } else {
        assert(keys_upto(store, n) =~= Seq::<Seq<char>>::empty().to_set());
        vstd::seq_lib::seq_to_set_is_finite(Seq::<Seq<char>>::empty());
    }
}

/// The keys and the locales of a written store are what their names say:
/// the locales ascend and are those of the store; the keys hold no key twice
/// and are those of the store and of the table of the default locale.
pub proof fn lemma_layout_order(
    store: Seq<(Seq<char>, Seq<(Seq<char>, Seq<char>)>)>,
    default_locale: Seq<char>,
)
    requires
        store_wf(store),
    ensures
        strictly_sorted(layout_locales(store)),
        layout_locales(store).to_set() == keys_of(store).to_set(),
        layout_keys(store, default_locale).no_duplicates(),
        forall|k: Seq<char>|
            store_keys(store).contains(k) ==> layout_keys(store, default_locale).contains(k),
        distinct_keys(table_of(store, default_locale)),
        strictly_sorted(
            sorted_seq(
                store_keys(store).difference(keys_of(table_of(store, default_locale)).to_set()),
            ),
        ),
        sorted_seq(
            store_keys(store).difference(keys_of(table_of(store, default_locale)).to_set()),
        ).to_set() == store_keys(store).difference(
            keys_of(table_of(store, default_locale)).to_set(),
        ),
{
    vstd::seq_lib::seq_to_set_is_finite(keys_of(store));
    lemma_sorted_seq(keys_of(store).to_set());
    let table = table_of(store, default_locale);
    let first = keys_of(table);
    let others = store_keys(store).difference(first.to_set());
    lemma_store_keys_finite(store, store.len() as int);
    vstd::set::axiom_set_difference_finite(store_keys(store), first.to_set());
    lemma_sorted_seq(others);
    let rest = sorted_seq(others);
    lemma_sorted_no_duplicates(rest);
    lemma_position_from(store, default_locale, 0);
    assert(distinct_keys(table)) by {
        match position(store, default_locale) {
            Some(i) => {
                assert(table == store[i].1);
            },
            None => {},
        }
    }
    let keys = first + rest;
    assert forall|i: int, j: int| 0 <= i < keys.len() && 0 <= j < keys.len() && i != j implies keys[i]
        != keys[j] by {
        if i < first.len() && j < first.len() {
            assert(table[i].0 != table[j].0);
        } else if i >= first.len() && j >= first.len() {
            assert(rest[i - first.len()] != rest[j - first.len()]);
        } else if i < first.len() {
            assert(first.to_set().contains(first[i]));
            assert(rest.to_set().contains(rest[j - first.len()]));
        } else {
            assert(first.to_set().contains(first[j]));
            assert(rest.to_set().contains(rest[i - first.len()]));
        }
    }
    assert forall|k: Seq<char>| store_keys(store).contains(k) implies keys.contains(k) by {
        if first.to_set().contains(k) {
            let i = choose|i: int| 0 <= i < first.len() && first[i] == k;
            assert(keys[i] == k);
        } else {
            assert(others.contains(k));
            assert(rest.to_set().contains(k));
            let i = choose|i: int| 0 <= i < rest.len() && rest[i] == k;
            assert(keys[first.len() + i] == k);
        }
    }
}

/// The table in which a store is written to its file: first the keys of the
/// default locale, in the order of its table, then the other keys in
/// ascending order; in each row the locales that have a translation of the
/// key, in ascending order.
pub fn layout(store: &LocaleStore, default_locale: &str) -> (table: IndexMap<
    String,
    IndexMap<String, String>,
>)
    requires
        store.wf(),
    ensures
        table_entries(table) == layout_rows(store@, default_locale@),
{
    let none: Vec<String> = Vec::new();
    let locales = collect_locales(&none, store);
    let mut others = collect_keys(store);
    let mut keys: Vec<String> = match store.table(default_locale) {
        Some(t) => table_keys(t),
        None => Vec::new(),
    };
    let ghost first = str_views(keys@);
    proof {
        assert(str_views(none@).to_set() =~= Set::<Seq<char>>::empty());
        assert(locales.members() =~= keys_of(store@).to_set());
        lemma_sorted_seq_of(locales@);
        lemma_layout_order(store@, default_locale@);
        assert(first == keys_of(table_of(store@, default_locale@)));
        assert(first.take(0).to_set() =~= Set::<Seq<char>>::empty());
        assert(store_keys(store@).difference(first.take(0).to_set()) =~= store_keys(store@));
    }
    let mut i: usize = 0;
    while i < keys.len()
        invariant
            i <= keys@.len(),
            first == str_views(keys@),
            others.wf(),
            others.members() == store_keys(store@).difference(first.take(i as int).to_set()),
        decreases keys@.len() - i,
    {
        others.remove(keys[i].as_str());
        proof {
            crate::sorted::lemma_take_next_to_set(first, i as int);
            assert(others.members() =~= store_keys(store@).difference(
                first.take(i + 1).to_set(),
            ));
        }
        i += 1;
    }
    proof {
        assert(first.take(i as int) == first);
        lemma_sorted_seq_of(others@);
    }
    let rest = others.to_vec();
    let mut j: usize = 0;
    while j < rest.len()
        invariant
            j <= rest@.len(),
            str_views(keys@) == first + str_views(rest@).take(j as int),
        decreases rest@.len() - j,
    {
        let ghost before = str_views(keys@);
        keys.push(rest[j].clone());
        assert(str_views(keys@) == before.push(str_views(rest@)[j as int]));
        assert(str_views(rest@).take(j + 1) == str_views(rest@).take(j as int).push(
            str_views(rest@)[j as int],
        ));
        j += 1;
    }
    proof {
        assert(str_views(rest@).take(j as int) == str_views(rest@));
        lemma_sorted_no_duplicates(locales@);
    }
    let locale_list = locales.to_vec();
    sort_table(store, &locale_list, &keys)
}


/// The cells of a sorted row stand in the order of the locales: where the
/// locales ascend, so do those of the cells.
pub proof fn lemma_present_cells_sorted(
    store: Seq<(Seq<char>, Seq<(Seq<char>, Seq<char>)>)>,
    locales: Seq<Seq<char>>,
    key: Seq<char>,
)
    requires
        strictly_sorted(locales),
    ensures
        strictly_sorted(keys_of(present_cells(store, locales, key))),
    decreases locales.len(),
{
    if locales.len() > 0 {
        let shorter = locales.drop_last();
        let before = present_cells(store, shorter, key);
        let cells = present_cells(store, locales, key);
        assert(strictly_sorted(shorter)) by {
            assert forall|i: int, j: int| 0 <= i < j < shorter.len() implies crate::text::lex_lt(
                #[trigger] shorter[i],
                #[trigger] shorter[j],
            ) by {
                assert(crate::text::lex_lt(locales[i], locales[j]));
            }
        }
        lemma_present_cells_sorted(store, shorter, key);
        lemma_present_cells_locales(store, shorter, key);
        let names = keys_of(cells);
        assert forall|i: int, j: int| 0 <= i < j < names.len() implies crate::text::lex_lt(
            #[trigger] names[i],
            #[trigger] names[j],
        ) by {
            if j < before.len() {
                assert(crate::text::lex_lt(keys_of(before)[i], keys_of(before)[j]));
            } else {
                assert(shorter.contains(before[i].0));
                let k = choose|k: int| 0 <= k < shorter.len() && shorter[k] == before[i].0;
                assert(crate::text::lex_lt(locales[k], locales[locales.len() - 1]));
            }
        }
    }
}

/// A sorted row depends only on what the store holds for its key: two
/// stores with the same translations of a key give the same row, whatever
/// other locales the two lists of locales name.
pub proof fn lemma_present_cells_same(
    first: Seq<(Seq<char>, Seq<(Seq<char>, Seq<char>)>)>,
    first_locales: Seq<Seq<char>>,
    second: Seq<(Seq<char>, Seq<(Seq<char>, Seq<char>)>)>,
    second_locales: Seq<Seq<char>>,
    key: Seq<char>,
)
    requires
        strictly_sorted(first_locales),
        strictly_sorted(second_locales),
        forall|l: Seq<char>| #[trigger]
            translation_of(first, l, key) is Some ==> first_locales.contains(l),
        forall|l: Seq<char>| #[trigger]
            translation_of(second, l, key) is Some ==> second_locales.contains(l),
        forall|l: Seq<char>| #[trigger]
            translation_of(first, l, key) == translation_of(second, l, key),
    ensures
        present_cells(first, first_locales, key) == present_cells(second, second_locales, key),
{
    let a = present_cells(first, first_locales, key);
    let b = present_cells(second, second_locales, key);
    lemma_sorted_no_duplicates(first_locales);
    lemma_sorted_no_duplicates(second_locales);
    lemma_present_cells_lookup(first, first_locales, key);
    lemma_present_cells_lookup(second, second_locales, key);
    lemma_present_cells_sorted(first, first_locales, key);
    lemma_present_cells_sorted(second, second_locales, key);
    assert forall|l: Seq<char>| lookup(a, l) == lookup(b, l) by {
        assert(lookup(a, l) == translation_of(first, l, key));
        assert(lookup(b, l) == translation_of(second, l, key));
    }
    assert forall|l: Seq<char>| keys_of(a).to_set().contains(l) <==> keys_of(b).to_set().contains(
        l,
    ) by {
        lemma_position_from(a, l, 0);
        lemma_position_from(b, l, 0);
        if keys_of(a).to_set().contains(l) {
            let i = choose|i: int| 0 <= i < keys_of(a).len() && keys_of(a)[i] == l;
            assert(a[i].0 == l);
            assert(lookup(a, l) is Some);
            let j = position(b, l).unwrap();
            assert(keys_of(b)[j] == l);
        }
        if keys_of(b).to_set().contains(l) {
            let i = choose|i: int| 0 <= i < keys_of(b).len() && keys_of(b)[i] == l;
            assert(b[i].0 == l);
            assert(lookup(b, l) is Some);
            let j = position(a, l).unwrap();
            assert(keys_of(a)[j] == l);
        }
    }
    assert(keys_of(a).to_set() =~= keys_of(b).to_set());
    lemma_sorted_unique(keys_of(a), keys_of(b));
    assert(a.len() == keys_of(a).len() && b.len() == keys_of(b).len());
    assert forall|i: int| 0 <= i < a.len() implies a[i] == b[i] by {
        assert(keys_of(a)[i] == keys_of(b)[i]);
        lemma_position_of_entry(a, i);
        lemma_position_of_entry(b, i);
    }
    assert(a =~= b);
}

/// The keys of a store are those that have a translation in some locale.
pub proof fn lemma_store_keys_are_translated(store: Seq<(Seq<char>, Seq<(Seq<char>, Seq<char>)>)>)
    requires
        store_wf(store),
    ensures
        forall|k: Seq<char>|
            store_keys(store).contains(k) <==> exists|l: Seq<char>| #[trigger]
                translation_of(store, l, k) is Some,
{
    lemma_store_keys(store, store.len() as int);
    assert forall|k: Seq<char>|
        store_keys(store).contains(k) <==> exists|l: Seq<char>| #[trigger]
            translation_of(store, l, k) is Some by {
        if store_keys(store).contains(k) {
            let i = choose|i: int|
                0 <= i < store.len() && keys_of(#[trigger] store[i].1).contains(k);
            let j = choose|j: int| 0 <= j < keys_of(store[i].1).len() && keys_of(store[i].1)[j] == k;
            lemma_position_of_entry(store, i);
            assert(store[i].1[j].0 == k);
            lemma_position_from(store[i].1, k, 0);
            assert(translation_of(store, store[i].0, k) is Some);
        }
        if exists|l: Seq<char>| #[trigger] translation_of(store, l, k) is Some {
            let l = choose|l: Seq<char>| #[trigger] translation_of(store, l, k) is Some;
            lemma_translation_is_listed(store, l, k);
        }
    }
}

/// Two stores that hold the same translations have the same keys.
pub proof fn lemma_same_translations_same_keys(
    first: Seq<(Seq<char>, Seq<(Seq<char>, Seq<char>)>)>,
    second: Seq<(Seq<char>, Seq<(Seq<char>, Seq<char>)>)>,
)
    requires
        store_wf(first),
        store_wf(second),
        forall|l: Seq<char>, k: Seq<char>| #[trigger]
            translation_of(first, l, k) == translation_of(second, l, k),
    ensures
        store_keys(first) == store_keys(second),
{
    lemma_store_keys_are_translated(first);
    lemma_store_keys_are_translated(second);
    assert forall|k: Seq<char>| store_keys(first).contains(k) <==> store_keys(second).contains(
        k,
    ) by {
        if store_keys(first).contains(k) {
            let l = choose|l: Seq<char>| #[trigger] translation_of(first, l, k) is Some;
            assert(translation_of(second, l, k) is Some);
        }
        if store_keys(second).contains(k) {
            let l = choose|l: Seq<char>| #[trigger] translation_of(second, l, k) is Some;
            assert(translation_of(first, l, k) is Some);
        }
    }
    assert(store_keys(first) =~= store_keys(second));
}


/// What a table holds for one locale: for each row that has a cell for the
/// locale, in the order of the rows, the key of the row and the text of the
/// cell.
pub open spec fn column(
    rows: Seq<(Seq<char>, Seq<(Seq<char>, Seq<char>)>)>,
    locale: Seq<char>,
) -> Seq<(Seq<char>, Seq<char>)>
    decreases rows.len(),
{
    if rows.len() == 0 {
        Seq::empty()
    } else {
        let before = column(rows.drop_last(), locale);
        match lookup(rows.last().1, locale) {
            Some(text) => before.push((rows.last().0, text)),
            None => before,
        }
    }
}

/// Storing a text changes the table of its locale and no other table.
pub proof fn lemma_stored_table(
    store: Seq<(Seq<char>, Seq<(Seq<char>, Seq<char>)>)>,
    locale: Seq<char>,
    key: Seq<char>,
    text: Seq<char>,
    other: Seq<char>,
)
    requires
        store_wf(store),
    ensures
        table_of(stored(store, locale, key, text), other) == if other == locale {
            upserted(table_of(store, locale), key, text)
        } else {
            table_of(store, other)
        },
{
    lemma_upserted(store, locale, upserted(table_of(store, locale), key, text));
}

/// Storing the cells of a row adds the key of the row to the table of each
/// locale that has a cell, and changes no other table.
pub proof fn lemma_imported_row_table(
    store: Seq<(Seq<char>, Seq<(Seq<char>, Seq<char>)>)>,
    key: Seq<char>,
    cells: Seq<(Seq<char>, Seq<char>)>,
    locale: Seq<char>,
)
    requires
        store_wf(store),
        distinct_keys(cells),
    ensures
        table_of(imported_row(store, key, cells), locale) == match lookup(cells, locale) {
            Some(text) => upserted(table_of(store, locale), key, text),
            None => table_of(store, locale),
        },
    decreases cells.len(),
{
    if cells.len() == 0 {
        lemma_position_from(cells, locale, 0);
    } else {
        let shorter = cells.drop_last();
        let last = cells.last();
        let before = imported_row(store, key, shorter);
        assert(cells == shorter.push(last));
        lemma_imported_row(store, key, shorter);
        lemma_imported_row_table(store, key, shorter, locale);
        lemma_stored_table(before, last.0, key, last.1, locale);
        lemma_lookup_push(shorter, last.0, last.1, locale);
        lemma_position_from(shorter, last.0, 0);
        assert(lookup(shorter, last.0) is None) by {
            if position(shorter, last.0) is Some {
                let i = position(shorter, last.0).unwrap();
                assert(cells[i].0 == shorter[i].0);
                assert(cells[cells.len() - 1].0 == last.0);
            }
        }
    }
}

/// Reading a table into an empty store gives each locale the column that
/// the table holds for it: the keys of its rows, in the order of the rows.
pub proof fn lemma_imported_table(
    rows: Seq<(Seq<char>, Seq<(Seq<char>, Seq<char>)>)>,
    locale: Seq<char>,
)
    requires
        distinct_keys(rows),
        distinct_cells(rows),
    ensures
        store_wf(imported(Seq::empty(), rows)),
        table_of(imported(Seq::empty(), rows), locale) == column(rows, locale),
        forall|i: int|
            0 <= i < column(rows, locale).len() ==> keys_of(rows).contains(
                (#[trigger] column(rows, locale)[i]).0,
            ),
    decreases rows.len(),
{
    let empty = Seq::<(Seq<char>, Seq<(Seq<char>, Seq<char>)>)>::empty();
    if rows.len() == 0 {
        lemma_position_from(empty, locale, 0);
    } else {
        let shorter = rows.drop_last();
        let last = rows.last();
        assert(rows == shorter.push(last));
        assert(distinct_keys(shorter));
        assert(distinct_cells(shorter)) by {
            assert forall|i: int| 0 <= i < shorter.len() implies distinct_keys(
                #[trigger] shorter[i].1,
            ) by {
                assert(shorter[i] == rows[i]);
            }
        }
        assert(distinct_keys(last.1)) by {
            assert(rows[rows.len() - 1] == last);
        }
        lemma_imported_table(shorter, locale);
        let before = imported(empty, shorter);
        lemma_imported_row(before, last.0, last.1);
        lemma_imported_row_table(before, last.0, last.1, locale);
        let held = column(shorter, locale);
        assert forall|i: int| 0 <= i < held.len() implies (#[trigger] held[i]).0 != last.0 by {
            assert(keys_of(shorter).contains(held[i].0));
            let k = choose|k: int| 0 <= k < keys_of(shorter).len() && keys_of(shorter)[k] == held[i].0;
            assert(rows[k].0 == held[i].0);
            assert(rows[rows.len() - 1].0 == last.0);
        }
        lemma_position_from(held, last.0, 0);
        assert(position(held, last.0) is None);
        let all = column(rows, locale);
        assert forall|i: int| 0 <= i < all.len() implies keys_of(rows).contains(
            (#[trigger] all[i]).0,
        ) by {
            if i < held.len() {
                assert(keys_of(shorter).contains(held[i].0));
                let k = choose|k: int|
                    0 <= k < keys_of(shorter).len() && keys_of(shorter)[k] == held[i].0;
                assert(keys_of(rows)[k] == all[i].0);
            } else {
                assert(keys_of(rows)[rows.len() - 1] == last.0);
            }
        }
    }
}

/// The column that a prefix of a written store holds for the default locale
/// is a prefix of the table of the default locale.
proof fn lemma_default_column(
    store: Seq<(Seq<char>, Seq<(Seq<char>, Seq<char>)>)>,
    default_locale: Seq<char>,
    n: int,
)
    requires
        store_wf(store),
        0 <= n <= layout_keys(store, default_locale).len(),
    ensures
        column(
            sorted_rows(
                store,
                layout_locales(store),
                layout_keys(store, default_locale).take(n),
            ),
            default_locale,
        ) == table_of(store, default_locale).take(
            if n <= table_of(store, default_locale).len() {
                n
            } else {
                table_of(store, default_locale).len() as int
            },
        ),
    decreases n,
{
    let locales = layout_locales(store);
    let keys = layout_keys(store, default_locale);
    let table = table_of(store, default_locale);
    let first = keys_of(table);
    let rest = sorted_seq(store_keys(store).difference(first.to_set()));
    lemma_layout_order(store, default_locale);
    lemma_sorted_no_duplicates(locales);
    if n > 0 {
        lemma_default_column(store, default_locale, n - 1);
        let rows = sorted_rows(store, locales, keys.take(n));
        let shorter = sorted_rows(store, locales, keys.take(n - 1));
        let key = keys[n - 1];
        assert(rows.drop_last() == shorter);
        assert(rows.last() == (key, present_cells(store, locales, key)));
        lemma_present_cells_lookup(store, locales, key);
        lemma_position_from(store, default_locale, 0);
        lemma_position_from(table, key, 0);
        if n - 1 < table.len() {
            assert(key == table[n - 1].0);
            lemma_position_of_entry(table, n - 1);
            let i = position(store, default_locale).unwrap();
            assert(keys_of(store)[i] == default_locale);
            assert(keys_of(store).to_set().contains(default_locale));
            assert(locales.contains(default_locale));
            assert(translation_of(store, default_locale, key) == Some(table[n - 1].1));
            assert(table.take(n) == table.take(n - 1).push(table[n - 1]));
        } else {
            assert(key == rest[n - 1 - first.len()]);
            assert(rest.to_set().contains(key));
            assert(store_keys(store).difference(first.to_set()).contains(key));
            assert(!first.to_set().contains(key));
            assert(position(table, key) is None) by {
                if position(table, key) is Some {
                    let j = position(table, key).unwrap();
                    assert(first[j] == key);
                }
            }
            assert(translation_of(store, default_locale, key) is None);
        }
    }
}

/// The table of the default locale is written as it stands: its keys come
/// first, in its order, and no other row has a cell for the default locale.
pub proof fn lemma_default_table_is_kept(
    store: Seq<(Seq<char>, Seq<(Seq<char>, Seq<char>)>)>,
    default_locale: Seq<char>,
)
    requires
        store_wf(store),
    ensures
        column(layout_rows(store, default_locale), default_locale) == table_of(
            store,
            default_locale,
        ),
{
    let keys = layout_keys(store, default_locale);
    let table = table_of(store, default_locale);
    lemma_default_column(store, default_locale, keys.len() as int);
    assert(keys.take(keys.len() as int) == keys);
    assert(table.take(table.len() as int) == table);
}


/// Giving a locale a table keeps the store in order, makes the table that of
/// the locale, and leaves the translations of the other locales as they
/// were.
pub proof fn lemma_table_replaced(
    store: Seq<(Seq<char>, Seq<(Seq<char>, Seq<char>)>)>,
    locale: Seq<char>,
    table: Seq<(Seq<char>, Seq<char>)>,
)
    requires
        store_wf(store),
        distinct_keys(table),
    ensures
        store_wf(upserted(store, locale, table)),
        table_of(upserted(store, locale, table), locale) == table,
        forall|l: Seq<char>, k: Seq<char>| #[trigger]
            translation_of(upserted(store, locale, table), l, k) == if l == locale {
                lookup(table, k)
            } else {
                translation_of(store, l, k)
            },
{
    let after = upserted(store, locale, table);
    lemma_upserted(store, locale, table);
    lemma_position_from(store, locale, 0);
    assert forall|i: int| 0 <= i < after.len() implies distinct_keys(#[trigger] after[i].1) by {
        match position(store, locale) {
            Some(p) => {
                if i != p {
                    assert(after[i] == store[i]);
                }
            },
            None => {
                if i < store.len() {
                    assert(after[i] == store[i]);
                }
            },
        }
    }
    assert forall|l: Seq<char>, k: Seq<char>| #[trigger]
        translation_of(after, l, k) == if l == locale {
            lookup(table, k)
        } else {
            translation_of(store, l, k)
        } by {
        if l != locale {
            assert(lookup(after, l) == lookup(store, l));
        }
    }
}

/// What is written depends only on the table of the default locale and on
/// the translations that the store holds: two stores that agree on both are
/// written as the same table, whatever the order of their locales and of
/// the keys of their other tables.
pub proof fn lemma_layout_depends_on(
    first: Seq<(Seq<char>, Seq<(Seq<char>, Seq<char>)>)>,
    second: Seq<(Seq<char>, Seq<(Seq<char>, Seq<char>)>)>,
    default_locale: Seq<char>,
)
    requires
        store_wf(first),
        store_wf(second),
        table_of(first, default_locale) == table_of(second, default_locale),
        forall|l: Seq<char>, k: Seq<char>| #[trigger]
            translation_of(first, l, k) == translation_of(second, l, k),
    ensures
        layout_rows(first, default_locale) == layout_rows(second, default_locale),
{
    lemma_layout_order(first, default_locale);
    lemma_layout_order(second, default_locale);
    lemma_same_translations_same_keys(first, second);
    let keys = layout_keys(first, default_locale);
    assert(keys == layout_keys(second, default_locale));
    let a = layout_rows(first, default_locale);
    let b = layout_rows(second, default_locale);
    assert forall|i: int| 0 <= i < keys.len() implies a[i] == b[i] by {
        let key = keys[i];
        assert forall|l: Seq<char>| #[trigger]
            translation_of(first, l, key) is Some implies layout_locales(first).contains(l) by {
            lemma_translation_is_listed(first, l, key);
            assert(keys_of(first).to_set().contains(l));
            assert(layout_locales(first).to_set().contains(l));
        }
        assert forall|l: Seq<char>| #[trigger]
            translation_of(second, l, key) is Some implies layout_locales(second).contains(l) by {
            lemma_translation_is_listed(second, l, key);
            assert(keys_of(second).to_set().contains(l));
            assert(layout_locales(second).to_set().contains(l));
        }
        lemma_present_cells_same(
            first,
            layout_locales(first),
            second,
            layout_locales(second),
            key,
        );
    }
    assert(a =~= b);
}

/// A written store that is read back holds what the store held: the same
/// translations, and for the default locale the same table. Written again
/// it gives the same table.
pub proof fn lemma_layout_is_read_back(
    store: Seq<(Seq<char>, Seq<(Seq<char>, Seq<char>)>)>,
    default_locale: Seq<char>,
)
    requires
        store_wf(store),
    ensures
        ({
            let back = imported(Seq::empty(), layout_rows(store, default_locale));
            &&& store_wf(back)
            &&& table_of(back, default_locale) == table_of(store, default_locale)
            &&& forall|l: Seq<char>, k: Seq<char>| #[trigger]
                translation_of(back, l, k) == translation_of(store, l, k)
            &&& layout_rows(back, default_locale) == layout_rows(store, default_locale)
        }),
{
    let locales = layout_locales(store);
    let keys = layout_keys(store, default_locale);
    let rows = layout_rows(store, default_locale);
    let back = imported(Seq::empty(), rows);
    lemma_layout_order(store, default_locale);
    lemma_sorted_no_duplicates(locales);
    assert(distinct_keys(rows));
    assert(distinct_cells(rows)) by {
        assert forall|i: int| 0 <= i < rows.len() implies distinct_keys(#[trigger] rows[i].1) by {
            lemma_present_cells_lookup(store, locales, keys[i]);
        }
    }
    lemma_imported_table(rows, default_locale);
    lemma_default_table_is_kept(store, default_locale);
    assert forall|l: Seq<char>| keys_of(store).contains(l) implies locales.contains(l) by {
        assert(keys_of(store).to_set().contains(l));
        assert(locales.to_set().contains(l));
    }
    lemma_sort_recovers_store(store, locales, keys);
    lemma_layout_depends_on(back, store, default_locale);
}

/// A second run of the same merge writes the same file. When the messages
/// of a scan were merged into a store and the store was written, then
/// reading what was written, merging the same messages again and writing
/// once more gives the table that was written the first time, row for row
/// and cell for cell.
pub proof fn lemma_layout_is_stable(
    store: Seq<(Seq<char>, Seq<(Seq<char>, Seq<char>)>)>,
    default_locale: Seq<char>,
    messages: Seq<MessageView>,
)
    requires
        store_wf(store),
    ensures
        ({
            let first = upserted(
                store,
                default_locale,
                merged(table_of(store, default_locale), messages),
            );
            let written = layout_rows(first, default_locale);
            let read = imported(Seq::empty(), written);
            let second = upserted(
                read,
                default_locale,
                merged(table_of(read, default_locale), messages),
            );
            layout_rows(second, default_locale) == written
        }),
{
    lemma_layout_order(store, default_locale);
    let table = merged(table_of(store, default_locale), messages);
    lemma_merge_distinct_keys(table_of(store, default_locale), messages);
    lemma_table_replaced(store, default_locale, table);
    let first = upserted(store, default_locale, table);
    let written = layout_rows(first, default_locale);
    let read = imported(Seq::empty(), written);
    lemma_layout_is_read_back(first, default_locale);
    assert(table_of(read, default_locale) == table);
    lemma_merge_idempotent(table_of(store, default_locale), messages);
    assert(merged(table_of(read, default_locale), messages) == table);
    lemma_table_replaced(read, default_locale, table);
    let second = upserted(read, default_locale, table);
    assert forall|l: Seq<char>, k: Seq<char>| #[trigger]
        translation_of(second, l, k) == translation_of(first, l, k) by {
        if l == default_locale {
            lemma_position_from(read, default_locale, 0);
            lemma_position_from(first, default_locale, 0);
            assert(translation_of(first, l, k) == lookup(table, k));
        } else {
            assert(translation_of(second, l, k) == translation_of(read, l, k));
        }
    }
    lemma_layout_depends_on(second, first, default_locale);
}


/// A sorted row that starts with one more locale starts with the cell of
/// that locale, if the locale has a translation of the key.
proof fn lemma_present_cells_front(
    store: Seq<(Seq<char>, Seq<(Seq<char>, Seq<char>)>)>,
    head: Seq<char>,
    locales: Seq<Seq<char>>,
    key: Seq<char>,
)
    ensures
        present_cells(store, seq![head] + locales, key) == match translation_of(store, head, key) {
            Some(text) => seq![(head, text)] + present_cells(store, locales, key),
            None => present_cells(store, locales, key),
        },
    decreases locales.len(),
{
    let all = seq![head] + locales;
    if locales.len() == 0 {
        assert(all.drop_last() == Seq::<Seq<char>>::empty());
        assert(all.last() == head);
        assert(present_cells(store, all.drop_last(), key) == Seq::<
            (Seq<char>, Seq<char>),
        >::empty());
        match translation_of(store, head, key) {
            Some(text) => {
                assert(Seq::<(Seq<char>, Seq<char>)>::empty().push((head, text)) == seq![
                    (head, text),
                ] + present_cells(store, locales, key));
            },
            None => {},
        }
    } else {
        let shorter = locales.drop_last();
        lemma_present_cells_front(store, head, shorter, key);
        assert(all.drop_last() == seq![head] + shorter);
        assert(all.last() == locales.last());
        match (translation_of(store, head, key), translation_of(store, locales.last(), key)) {
            (Some(a), Some(b)) => {
                assert((seq![(head, a)] + present_cells(store, shorter, key)).push(
                    (locales.last(), b),
                ) == seq![(head, a)] + present_cells(store, shorter, key).push(
                    (locales.last(), b),
                ));
            },
            _ => {},
        }
    }
}

/// Turning the locales round turns the cells of a sorted row round.
proof fn lemma_present_cells_reverse(
    store: Seq<(Seq<char>, Seq<(Seq<char>, Seq<char>)>)>,
    locales: Seq<Seq<char>>,
    key: Seq<char>,
)
    ensures
        present_cells(store, locales.reverse(), key) == present_cells(store, locales, key).reverse(),
    decreases locales.len(),
{
    if locales.len() == 0 {
        assert(locales.reverse() == locales);
        assert(present_cells(store, locales, key).reverse() == present_cells(
            store,
            locales,
            key,
        ));
    } else {
        let shorter = locales.drop_last();
        let last = locales.last();
        lemma_present_cells_reverse(store, shorter, key);
        assert(locales.reverse() == seq![last] + shorter.reverse());
        lemma_present_cells_front(store, last, shorter.reverse(), key);
        let before = present_cells(store, shorter, key);
        match translation_of(store, last, key) {
            Some(text) => {
                assert(before.push((last, text)).reverse() == seq![(last, text)]
                    + before.reverse());
            },
            None => {},
        }
    }
}

/// A sorted file that is sorted again is written as it is: the table sorted
/// out of a store, read back and sorted in the same direction with the same
/// declared locales, is the same table.
pub proof fn lemma_sort_is_stable(
    store: Seq<(Seq<char>, Seq<(Seq<char>, Seq<char>)>)>,
    declared: Seq<Seq<char>>,
    reverse: bool,
)
    requires
        store_wf(store),
    ensures
        ({
            let written = sorted_rows(
                store,
                ordered_seq(known_locales(declared, store), reverse),
                ordered_seq(store_keys(store), reverse),
            );
            let read = imported(Seq::empty(), written);
            sorted_rows(
                read,
                ordered_seq(known_locales(declared, read), reverse),
                ordered_seq(store_keys(read), reverse),
            ) == written
        }),
{
    let known = known_locales(declared, store);
    vstd::seq_lib::seq_to_set_is_finite(declared);
    vstd::seq_lib::seq_to_set_is_finite(keys_of(store));
    vstd::set::axiom_set_union_finite(declared.to_set(), keys_of(store).to_set());
    lemma_sorted_seq(known);
    lemma_store_keys_finite(store, store.len() as int);
    lemma_sorted_seq(store_keys(store));
    let up_locales = sorted_seq(known);
    let up_keys = sorted_seq(store_keys(store));
    let locales = ordered_seq(known, reverse);
    let keys = ordered_seq(store_keys(store), reverse);
    lemma_sorted_no_duplicates(up_locales);
    lemma_sorted_no_duplicates(up_keys);
    assert(locales.no_duplicates() && keys.no_duplicates()) by {
        if reverse {
            assert forall|i: int, j: int|
                0 <= i < locales.len() && 0 <= j < locales.len() && i != j implies locales[i]
                != locales[j] by {
                assert(locales[i] == up_locales[up_locales.len() - 1 - i]);
                assert(locales[j] == up_locales[up_locales.len() - 1 - j]);
            }
            assert forall|i: int, j: int|
                0 <= i < keys.len() && 0 <= j < keys.len() && i != j implies keys[i] != keys[j] by {
                assert(keys[i] == up_keys[up_keys.len() - 1 - i]);
                assert(keys[j] == up_keys[up_keys.len() - 1 - j]);
            }
        }
    }
    assert forall|l: Seq<char>| keys_of(store).contains(l) implies locales.contains(l) by {
        assert(keys_of(store).to_set().contains(l));
        assert(up_locales.to_set().contains(l));
        let i = choose|i: int| 0 <= i < up_locales.len() && up_locales[i] == l;
        if reverse {
            assert(locales[up_locales.len() - 1 - i] == l);
        }
    }
    assert forall|k: Seq<char>| store_keys(store).contains(k) implies keys.contains(k) by {
        assert(up_keys.to_set().contains(k));
        let i = choose|i: int| 0 <= i < up_keys.len() && up_keys[i] == k;
        if reverse {
            assert(keys[up_keys.len() - 1 - i] == k);
        }
    }
    let written = sorted_rows(store, locales, keys);
    let read = imported(Seq::empty(), written);
    lemma_sort_import_round_trip(store, locales, keys);
    lemma_sort_recovers_store(store, locales, keys);
    lemma_same_translations_same_keys(read, store);

    let known_again = known_locales(declared, read);
    vstd::seq_lib::seq_to_set_is_finite(keys_of(read));
    vstd::set::axiom_set_union_finite(declared.to_set(), keys_of(read).to_set());
    lemma_sorted_seq(known_again);
    let up_locales_again = sorted_seq(known_again);
    let locales_again = ordered_seq(known_again, reverse);
    let again = sorted_rows(read, locales_again, keys);
    assert forall|i: int| 0 <= i < keys.len() implies again[i] == written[i] by {
        let key = keys[i];
        assert forall|l: Seq<char>| #[trigger]
            translation_of(store, l, key) is Some implies up_locales.contains(l) by {
            lemma_translation_is_listed(store, l, key);
            assert(keys_of(store).to_set().contains(l));
            assert(up_locales.to_set().contains(l));
        }
        assert forall|l: Seq<char>| #[trigger]
            translation_of(read, l, key) is Some implies up_locales_again.contains(l) by {
            lemma_translation_is_listed(read, l, key);
            assert(keys_of(read).to_set().contains(l));
            assert(up_locales_again.to_set().contains(l));
        }
        lemma_present_cells_same(read, up_locales_again, store, up_locales, key);
        if reverse {
            lemma_present_cells_reverse(read, up_locales_again, key);
            lemma_present_cells_reverse(store, up_locales, key);
        }
    }
    assert(again =~= written);
}

} // verus!
