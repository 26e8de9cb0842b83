//! Reading a table back into a store: the inverse of an export. A table
//! gives for each key the texts by locale; a store holds for each locale the
//! texts by key.

use crate::export::{
    cell, export_row, export_rows, lemma_present_cells_locales, lemma_store_keys, present_cells,
    sorted_rows, store_keys, MissedBehavior,
};
use crate::store::{
    distinct_keys, keys_of, lemma_lookup_push, lemma_position_from, lemma_position_of_entry,
    lemma_upserted, lookup, position, store_wf, table_of, translation_of, upserted, LocaleStore,
};
use crate::table::{row_entries, row_get_index, row_len, table_entries, table_get_index, table_len};
use indexmap::IndexMap;
use vstd::prelude::*;
use vstd::string::*;

verus! {

/// The store after `text` was stored for `key` in `locale`.
pub open spec fn stored(
    store: Seq<(Seq<char>, Seq<(Seq<char>, Seq<char>)>)>,
    locale: Seq<char>,
    key: Seq<char>,
    text: Seq<char>,
) -> Seq<(Seq<char>, Seq<(Seq<char>, Seq<char>)>)> {
    upserted(store, locale, upserted(table_of(store, locale), key, text))
}

/// The store after the cells of one row were stored, each in its locale.
pub open spec fn imported_row(
    store: Seq<(Seq<char>, Seq<(Seq<char>, Seq<char>)>)>,
    key: Seq<char>,
    cells: Seq<(Seq<char>, Seq<char>)>,
) -> Seq<(Seq<char>, Seq<(Seq<char>, Seq<char>)>)>
    decreases cells.len(),
{
    if cells.len() == 0 {
        store
    } else {
        stored(imported_row(store, key, cells.drop_last()), cells.last().0, key, cells.last().1)
    }
}

/// The store after the rows of a table were stored, one after the other.
pub open spec fn imported(
    store: Seq<(Seq<char>, Seq<(Seq<char>, Seq<char>)>)>,
    rows: Seq<(Seq<char>, Seq<(Seq<char>, Seq<char>)>)>,
) -> Seq<(Seq<char>, Seq<(Seq<char>, Seq<char>)>)>
    decreases rows.len(),
{
    if rows.len() == 0 {
        store
    } else {
        imported_row(imported(store, rows.drop_last()), rows.last().0, rows.last().1)
    }
}

/// Storing a text keeps the store in order, makes the text the translation
/// of its key in its locale, and leaves every other translation as it was.
pub proof fn lemma_stored(
    store: Seq<(Seq<char>, Seq<(Seq<char>, Seq<char>)>)>,
    locale: Seq<char>,
    key: Seq<char>,
    text: Seq<char>,
)
    requires
        store_wf(store),
    ensures
        store_wf(stored(store, locale, key, text)),
        forall|l: Seq<char>, k: Seq<char>| #[trigger]
            translation_of(stored(store, locale, key, text), l, k) == if l == locale && k == key {
                Some(text)
            } else {
                translation_of(store, l, k)
            },
{
    let table = table_of(store, locale);
    lemma_position_from(store, locale, 0);
    assert(distinct_keys(table)) by {
        match position(store, locale) {
            Some(i) => {
                assert(table == store[i].1);
            },
            None => {},
        }
    }
    let new_table = upserted(table, key, text);
    lemma_upserted(table, key, text);
    lemma_upserted(store, locale, new_table);
    let after = stored(store, locale, key, text);
    assert(store_wf(after)) by {
        lemma_position_from(store, locale, 0);
        assert forall|i: int| 0 <= i < after.len() implies distinct_keys(#[trigger] after[i].1) by {
            match position(store, locale) {
                Some(p) => {
                    if i != p {
                        assert(after[i] == store[i]);
                    }
                },
                None => {
                    if i < store.len() {
                        assert(after[i] == store[i]);
                    }
                },
            }
        }
    }
    assert forall|l: Seq<char>, k: Seq<char>| #[trigger]
        translation_of(after, l, k) == if l == locale && k == key {
            Some(text)
        } else {
            translation_of(store, l, k)
        } by {
        if l == locale {
            assert(lookup(after, l) == Some(new_table));
            if k != key {
                assert(lookup(new_table, k) == lookup(table, k));
            }
        } else {
            assert(lookup(after, l) == lookup(store, l));
        }
    }
}

/// What a store holds after the cells of one row were stored in it: for the
/// key of the row, in each locale that has a cell, the text of the cell; and
/// elsewhere what it held.
pub proof fn lemma_imported_row(
    store: Seq<(Seq<char>, Seq<(Seq<char>, Seq<char>)>)>,
    key: Seq<char>,
    cells: Seq<(Seq<char>, Seq<char>)>,
)
    requires
        store_wf(store),
        distinct_keys(cells),
    ensures
        store_wf(imported_row(store, key, cells)),
        forall|l: Seq<char>, k: Seq<char>| #[trigger]
            translation_of(imported_row(store, key, cells), l, k) == if k == key && lookup(
                cells,
                l,
            ) is Some {
                lookup(cells, l)
            } else {
                translation_of(store, l, k)
            },
    decreases cells.len(),
{
    if cells.len() > 0 {
        let shorter = cells.drop_last();
        let last = cells.last();
        let before = imported_row(store, key, shorter);
        lemma_imported_row(store, key, shorter);
        lemma_stored(before, last.0, key, last.1);
        let after = imported_row(store, key, cells);
        assert(cells == shorter.push(last));
        lemma_position_from(shorter, last.0, 0);
        assert(lookup(shorter, last.0) is None) by {
            if position(shorter, last.0) is Some {
                let i = position(shorter, last.0).unwrap();
                assert(cells[i].0 == shorter[i].0);
                assert(cells[cells.len() - 1].0 == last.0);
            }
        }
        assert forall|l: Seq<char>, k: Seq<char>| #[trigger]
            translation_of(after, l, k) == if k == key && lookup(cells, l) is Some {
                lookup(cells, l)
            } else {
                translation_of(store, l, k)
            } by {
            lemma_lookup_push(shorter, last.0, last.1, l);
            assert(translation_of(after, l, k) == if l == last.0 && k == key {
                Some(last.1)
            } else {
                translation_of(before, l, k)
            });
        }
    } else {
        assert forall|l: Seq<char>| lookup(cells, l) is None by {
            lemma_position_from(cells, l, 0);
        }
    }
}

/// In each row the locales are distinct.
pub open spec fn distinct_cells(rows: Seq<(Seq<char>, Seq<(Seq<char>, Seq<char>)>)>) -> bool {
    forall|i: int| 0 <= i < rows.len() ==> distinct_keys(#[trigger] rows[i].1)
}

/// What a store holds after a table was stored in it: for each key of the
/// table, in each locale that has a cell in the row of the key, the text of
/// the cell; and elsewhere what it held.
pub proof fn lemma_imported(
    store: Seq<(Seq<char>, Seq<(Seq<char>, Seq<char>)>)>,
    rows: Seq<(Seq<char>, Seq<(Seq<char>, Seq<char>)>)>,
)
    requires
        store_wf(store),
        distinct_keys(rows),
        distinct_cells(rows),
    ensures
        store_wf(imported(store, rows)),
        forall|l: Seq<char>, k: Seq<char>| #[trigger]
            translation_of(imported(store, rows), l, k) == if translation_of(rows, k, l) is Some {
                translation_of(rows, k, l)
            } else {
                translation_of(store, l, k)
            },
    decreases rows.len(),
{
    if rows.len() > 0 {
        let shorter = rows.drop_last();
        let last = rows.last();
        let before = imported(store, shorter);
        assert(rows == shorter.push(last));
        assert(distinct_keys(shorter));
        assert(distinct_cells(shorter)) by {
            assert forall|i: int| 0 <= i < shorter.len() implies distinct_keys(
                #[trigger] shorter[i].1,
            ) by {
                assert(shorter[i] == rows[i]);
            }
        }
        assert(distinct_keys(last.1)) by {
            assert(rows[rows.len() - 1] == last);
        }
        lemma_imported(store, shorter);
        lemma_imported_row(before, last.0, last.1);
        let after = imported(store, rows);
        lemma_position_from(shorter, last.0, 0);
        assert(lookup(shorter, last.0) is None) by {
            if position(shorter, last.0) is Some {
                let i = position(shorter, last.0).unwrap();
                assert(rows[i].0 == shorter[i].0);
                assert(rows[rows.len() - 1].0 == last.0);
            }
        }
        assert forall|l: Seq<char>, k: Seq<char>| #[trigger]
            translation_of(after, l, k) == if translation_of(rows, k, l) is Some {
                translation_of(rows, k, l)
            } else {
                translation_of(store, l, k)
            } by {
            lemma_lookup_push(shorter, last.0, last.1, k);
            assert(translation_of(after, l, k) == if k == last.0 && lookup(last.1, l) is Some {
                lookup(last.1, l)
            } else {
                translation_of(before, l, k)
            });
            assert(translation_of(before, l, k) == if translation_of(shorter, k, l) is Some {
                translation_of(shorter, k, l)
            } else {
                translation_of(store, l, k)
            });
        }
    } else {
        assert forall|k: Seq<char>| lookup(rows, k) is None by {
            lemma_position_from(rows, k, 0);
        }
        assert forall|l: Seq<char>, k: Seq<char>| #[trigger]
            translation_of(imported(store, rows), l, k) == if translation_of(rows, k, l) is Some {
                translation_of(rows, k, l)
            } else {
                translation_of(store, l, k)
            } by {
            assert(lookup(rows, k) is None);
        }
    }
}

/// Export and import are inverse to each other: a table exported from a
/// store and read back into an empty store gives, for every exported locale
/// and key, the text of the exported cell. That is the translation that the
/// store had, where it had one, and what the policy for missed translations
/// puts there, where it had none.
pub proof fn lemma_export_import_round_trip(
    store: Seq<(Seq<char>, Seq<(Seq<char>, Seq<char>)>)>,
    locales: Seq<Seq<char>>,
    keys: Seq<Seq<char>>,
    missed: MissedBehavior,
    default_locale: Seq<char>,
)
    requires
        locales.no_duplicates(),
        keys.no_duplicates(),
    ensures
        ({
            let back = imported(
                Seq::empty(),
                export_rows(store, locales, keys, missed, default_locale),
            );
            &&& store_wf(back)
            &&& forall|i: int, j: int|
                0 <= i < locales.len() && 0 <= j < keys.len() ==> #[trigger] translation_of(
                    back,
                    locales[i],
                    keys[j],
                ) == Some(cell(store, locales[i], keys[j], missed, default_locale))
            &&& forall|i: int, j: int|
                0 <= i < locales.len() && 0 <= j < keys.len() && translation_of(
                    store,
                    locales[i],
                    keys[j],
                ) is Some ==> #[trigger] translation_of(back, locales[i], keys[j])
                    == translation_of(store, locales[i], keys[j])
            &&& forall|l: Seq<char>, k: Seq<char>|
                !locales.contains(l) || !keys.contains(k) ==> #[trigger] translation_of(back, l, k)
                    is None
        }),
{
    let rows = export_rows(store, locales, keys, missed, default_locale);
    let empty = Seq::<(Seq<char>, Seq<(Seq<char>, Seq<char>)>)>::empty();
    assert(distinct_keys(rows));
    assert(distinct_cells(rows)) by {
        assert forall|i: int| 0 <= i < rows.len() implies distinct_keys(#[trigger] rows[i].1) by {
            let cells = rows[i].1;
            assert(cells == export_row(store, locales, keys[i], missed, default_locale));
        }
    }
    assert(store_wf(empty));
    lemma_imported(empty, rows);
    let back = imported(empty, rows);
    assert forall|l: Seq<char>, k: Seq<char>| translation_of(empty, l, k) is None by {
        lemma_position_from(empty, l, 0);
    }
    assert forall|i: int, j: int| 0 <= i < locales.len() && 0 <= j < keys.len() implies #[trigger]
        translation_of(back, locales[i], keys[j]) == Some(
        cell(store, locales[i], keys[j], missed, default_locale),
    ) by {
        let cells = export_row(store, locales, keys[j], missed, default_locale);
        assert(rows[j] == (keys[j], cells));
        lemma_position_of_entry(rows, j);
        assert(distinct_keys(cells));
        assert(cells[i] == (locales[i], cell(store, locales[i], keys[j], missed, default_locale)));
        lemma_position_of_entry(cells, i);
        assert(translation_of(rows, keys[j], locales[i]) == Some(
            cell(store, locales[i], keys[j], missed, default_locale),
        ));
    }
    assert forall|l: Seq<char>, k: Seq<char>|
        !locales.contains(l) || !keys.contains(k) implies #[trigger] translation_of(back, l, k)
        is None by {
        lemma_position_from(rows, k, 0);
        match position(rows, k) {
            Some(j) => {
                assert(keys[j] == k);
                let cells = rows[j].1;
                assert(cells == export_row(store, locales, keys[j], missed, default_locale));
                lemma_position_from(cells, l, 0);
                match position(cells, l) {
                    Some(i) => {
                        assert(locales[i] == l);
                    },
                    None => {},
                }
            },
            None => {},
        }
        assert(translation_of(rows, k, l) is None);
    }
}

/// What is found in a sorted row: under each of the locales that were asked
/// for, the translation that the store has for the key, if it has one.
pub proof fn lemma_present_cells_lookup(
    store: Seq<(Seq<char>, Seq<(Seq<char>, Seq<char>)>)>,
    locales: Seq<Seq<char>>,
    key: Seq<char>,
)
    requires
        locales.no_duplicates(),
    ensures
        distinct_keys(present_cells(store, locales, key)),
        forall|l: Seq<char>| #[trigger]
            lookup(present_cells(store, locales, key), l) == if locales.contains(l) {
                translation_of(store, l, key)
            } else {
                None
            },
    decreases locales.len(),
{
    let cells = present_cells(store, locales, key);
    if locales.len() == 0 {
        assert forall|l: Seq<char>| #[trigger] lookup(cells, l) == if locales.contains(l) {
            translation_of(store, l, key)
        } else {
            None
        } by {
            lemma_position_from(cells, l, 0);
        }
    } else {
        let shorter = locales.drop_last();
        let last = locales.last();
        let before = present_cells(store, shorter, key);
        lemma_present_cells_lookup(store, shorter, key);
        lemma_present_cells_locales(store, shorter, key);
        assert(!shorter.contains(last)) by {
            if shorter.contains(last) {
                let k = choose|k: int| 0 <= k < shorter.len() && shorter[k] == last;
                assert(locales[k] == last);
                assert(locales[locales.len() - 1] == last);
            }
        }
        assert(distinct_keys(cells)) by {
            assert forall|i: int, j: int| 0 <= i < j < cells.len() implies cells[i].0
                != cells[j].0 by {
                if j == before.len() {
                    assert(shorter.contains(before[i].0));
                }
            }
        }
        assert forall|l: Seq<char>| #[trigger] lookup(cells, l) == if locales.contains(l) {
            translation_of(store, l, key)
        } else {
            None
        } by {
            if shorter.contains(l) {
                let k = choose|k: int| 0 <= k < shorter.len() && shorter[k] == l;
                assert(locales[k] == l);
            }
            if locales.contains(l) && l != last {
                let k = choose|k: int| 0 <= k < locales.len() && locales[k] == l;
                assert(shorter[k] == l);
            }
            if l == last {
                assert(locales[locales.len() - 1] == l);
            }
            match translation_of(store, last, key) {
                Some(text) => {
                    lemma_lookup_push(before, last, text, l);
                },
                None => {},
            }
        }
    }
}

/// Sort and import are inverse to each other: a table sorted out of a store
/// and read back into an empty store gives, for every locale and key that
/// was asked for, the translation that the store has, and nothing else.
pub proof fn lemma_sort_import_round_trip(
    store: Seq<(Seq<char>, Seq<(Seq<char>, Seq<char>)>)>,
    locales: Seq<Seq<char>>,
    keys: Seq<Seq<char>>,
)
    requires
        locales.no_duplicates(),
        keys.no_duplicates(),
    ensures
        store_wf(imported(Seq::empty(), sorted_rows(store, locales, keys))),
        forall|l: Seq<char>, k: Seq<char>| #[trigger]
            translation_of(imported(Seq::empty(), sorted_rows(store, locales, keys)), l, k)
                == if locales.contains(l) && keys.contains(k) {
                translation_of(store, l, k)
            } else {
                None
            },
{
    let rows = sorted_rows(store, locales, keys);
    let empty = Seq::<(Seq<char>, Seq<(Seq<char>, Seq<char>)>)>::empty();
    assert(distinct_keys(rows));
    assert(distinct_cells(rows)) by {
        assert forall|i: int| 0 <= i < rows.len() implies distinct_keys(#[trigger] rows[i].1) by {
            lemma_present_cells_lookup(store, locales, keys[i]);
        }
    }
    lemma_imported(empty, rows);
    let back = imported(empty, rows);
    assert forall|l: Seq<char>, k: Seq<char>| #[trigger]
        translation_of(back, l, k) == if locales.contains(l) && keys.contains(k) {
            translation_of(store, l, k)
        } else {
            None
        } by {
        lemma_position_from(empty, l, 0);
        assert(translation_of(empty, l, k) is None);
        lemma_position_from(rows, k, 0);
        match position(rows, k) {
            Some(j) => {
                assert(keys[j] == k);
                assert(rows[j].1 == present_cells(store, locales, k));
                lemma_present_cells_lookup(store, locales, k);
            },
            None => {
                if keys.contains(k) {
                    let j = choose|j: int| 0 <= j < keys.len() && keys[j] == k;
                    assert(rows[j].0 == k);
                }
            },
        }
    }
}

/// A translation that a store has stands under one of its locales and one
/// of its keys.
pub proof fn lemma_translation_is_listed(
    store: Seq<(Seq<char>, Seq<(Seq<char>, Seq<char>)>)>,
    locale: Seq<char>,
    key: Seq<char>,
)
    requires
        translation_of(store, locale, key) is Some,
    ensures
        keys_of(store).contains(locale),
        store_keys(store).contains(key),
{
    lemma_position_from(store, locale, 0);
    let i = position(store, locale).unwrap();
    assert(keys_of(store)[i] == locale);
    lemma_position_from(store[i].1, key, 0);
    let j = position(store[i].1, key).unwrap();
    assert(keys_of(store[i].1)[j] == key);
    assert(keys_of(store[i].1).contains(key));
    lemma_store_keys(store, store.len() as int);
}

/// A sort that covers all locales and keys of a store loses nothing: the
/// table read back gives every translation that the store has, and no
/// other.
pub proof fn lemma_sort_recovers_store(
    store: Seq<(Seq<char>, Seq<(Seq<char>, Seq<char>)>)>,
    locales: Seq<Seq<char>>,
    keys: Seq<Seq<char>>,
)
    requires
        locales.no_duplicates(),
        keys.no_duplicates(),
        forall|l: Seq<char>| keys_of(store).contains(l) ==> locales.contains(l),
        forall|k: Seq<char>| store_keys(store).contains(k) ==> keys.contains(k),
    ensures
        forall|l: Seq<char>, k: Seq<char>| #[trigger]
            translation_of(imported(Seq::empty(), sorted_rows(store, locales, keys)), l, k)
                == translation_of(store, l, k),
{
    lemma_sort_import_round_trip(store, locales, keys);
    let back = imported(Seq::empty(), sorted_rows(store, locales, keys));
    assert forall|l: Seq<char>, k: Seq<char>| #[trigger]
        translation_of(back, l, k) == translation_of(store, l, k) by {
        if translation_of(store, l, k) is Some {
            lemma_translation_is_listed(store, l, k);
        }
    }
}

/// Stores the texts of a table, row by row and cell by cell.
pub fn import_table(store: &mut LocaleStore, table: &IndexMap<String, IndexMap<String, String>>)
    requires
        old(store).wf(),
    ensures
        final(store).wf(),
        final(store)@ == imported(old(store)@, table_entries(*table)),
{
    let ghost rows = table_entries(*table);
    let n = table_len(table);
    let mut i: usize = 0;
    assert(rows.take(0).len() == 0);
    while i < n
        invariant
            i <= n,
            n == rows.len(),
            rows == table_entries(*table),
            store.wf(),
            store@ == imported(old(store)@, rows.take(i as int)),
        decreases n - i,
    {
        match table_get_index(table, i) {
            Some((key, row)) => {
                let ghost cells = row_entries(*row);
                let ghost start = store@;
                let m = row_len(row);
                let mut j: usize = 0;
                assert(cells.take(0).len() == 0);
                while j < m
                    invariant
                        j <= m,
                        m == cells.len(),
                        cells == row_entries(*row),
                        store.wf(),
                        store@ == imported_row(start, key@, cells.take(j as int)),
                    decreases m - j,
                {
                    match row_get_index(row, j) {
                        Some((locale, text)) => {
                            assert(cells.take(j + 1).drop_last() == cells.take(j as int));
                            assert(cells.take(j + 1).last() == cells[j as int]);
                            store.insert(locale.as_str(), key.clone(), text.clone());
                        },
                        None => {},
                    }
                    j += 1;
                }
                assert(cells.take(j as int) == cells);
                assert(rows.take(i + 1).drop_last() == rows.take(i as int));
                assert(rows.take(i + 1).last() == rows[i as int]);
            },
            None => {},
        }
        i += 1;
    }
    assert(rows.take(i as int) == rows);
}

} // verus!
