//! Export and sort of a translation store: which locales and keys are
//! written, in which order, and what stands in each cell.

use crate::sorted::{
    lemma_sorted_no_duplicates, lemma_sorted_seq_of, lemma_take_next_to_set, ordered_seq,
    sorted_seq, StringSet,
};
use crate::store::{keys_of, lemma_position_from, position, translation_of, LocaleStore};
use crate::table::{row_entries, row_insert, row_new, table_entries, table_insert, table_new};
use crate::text::{chars_of, str_eq, str_views, string_of_range};
use indexmap::IndexMap;
use vstd::prelude::*;
use vstd::string::*;

verus! {

/// What is written into a cell for which the locale has no translation.
#[derive(Clone, Copy, Debug, PartialEq, Eq, Structural)]
pub enum MissedBehavior {
    /// The translation of the default locale, or nothing if that is missing
    /// too.
    Default,
    /// Nothing.
    Empty,
}

impl Default for MissedBehavior {
    fn default() -> (r: Self)
        ensures
            r == MissedBehavior::Default,
    {
        MissedBehavior::Default
    }
}

impl MissedBehavior {
    /// Reads a policy from its name, `default` or `empty`.
    pub fn from_str(s: &str) -> (r: Result<MissedBehavior, String>)
        ensures
            s@ == "default"@ ==> r == Ok::<MissedBehavior, String>(MissedBehavior::Default),
            s@ != "default"@ && s@ == "empty"@ ==> r == Ok::<MissedBehavior, String>(
                MissedBehavior::Empty,
            ),
            s@ != "default"@ && s@ != "empty"@ ==> r is Err && r->Err_0@
                == "invalid missed behavior"@,
    {
        if str_eq(s, "default") {
            Ok(MissedBehavior::Default)
        } else if str_eq(s, "empty") {
            Ok(MissedBehavior::Empty)
        } else {
            Err("invalid missed behavior".to_owned())
        }
    }
}

/// The keys of the first `n` tables of a store.
pub open spec fn keys_upto(store: Seq<(Seq<char>, Seq<(Seq<char>, Seq<char>)>)>, n: int) -> Set<
    Seq<char>,
>
    decreases n,
{
    if n <= 0 {
        Set::empty()
    } else {
        keys_upto(store, n - 1) + keys_of(store[n - 1].1).to_set()
    }
}

/// The keys of a store: those that have a translation in some locale.
pub open spec fn store_keys(store: Seq<(Seq<char>, Seq<(Seq<char>, Seq<char>)>)>) -> Set<
    Seq<char>,
> {
    keys_upto(store, store.len() as int)
}

/// A key belongs to the keys of a store exactly when one of the tables of the
/// store has an entry for it.
pub proof fn lemma_store_keys(store: Seq<(Seq<char>, Seq<(Seq<char>, Seq<char>)>)>, n: int)
    requires
        0 <= n <= store.len(),
    ensures
        forall|k: Seq<char>| #[trigger]
            keys_upto(store, n).contains(k) <==> exists|i: int|
                0 <= i < n && keys_of(#[trigger] store[i].1).contains(k),
    decreases n,
{
    if n > 0 {
        lemma_store_keys(store, n - 1);
        assert forall|k: Seq<char>| #[trigger]
            keys_upto(store, n).contains(k) <==> exists|i: int|
                0 <= i < n && keys_of(#[trigger] store[i].1).contains(k) by {
            if keys_upto(store, n).contains(k) {
                if keys_upto(store, n - 1).contains(k) {
                    let i = choose|i: int|
                        0 <= i < n - 1 && keys_of(#[trigger] store[i].1).contains(k);
                    assert(0 <= i < n && keys_of(store[i].1).contains(k));
                } else {
                    assert(keys_of(store[n - 1].1).contains(k));
                }
            }
            if exists|i: int| 0 <= i < n && keys_of(#[trigger] store[i].1).contains(k) {
                let i = choose|i: int| 0 <= i < n && keys_of(#[trigger] store[i].1).contains(k);
                if i < n - 1 {
                    assert(keys_upto(store, n - 1).contains(k));
                }
            }
        }
    }
}

/// The locales that are known: those declared and those of the store.
pub open spec fn known_locales(
    declared: Seq<Seq<char>>,
    store: Seq<(Seq<char>, Seq<(Seq<char>, Seq<char>)>)>,
) -> Set<Seq<char>> {
    declared.to_set() + keys_of(store).to_set()
}

/// Whether a filter token adds (`+`) or excludes (`!`) a locale.
pub open spec fn is_modifier(token: Seq<char>) -> bool {
    token.len() > 0 && (token[0] == '+' || token[0] == '!')
}

/// Whether one of the first `n` tokens names a locale without a prefix.
pub open spec fn has_explicit(tokens: Seq<Seq<char>>, n: int) -> bool {
    exists|i: int| 0 <= i < n && i < tokens.len() && !is_modifier(#[trigger] tokens[i])
}

/// The locales that the first `n` tokens name without a prefix.
pub open spec fn explicit_locales(tokens: Seq<Seq<char>>, n: int) -> Set<Seq<char>> {
    Set::new(|l: Seq<char>| exists|i: int| 0 <= i < n && i < tokens.len() && tokens[i] == l && !is_modifier(l))
}

/// The locales that the first `n` tokens name behind the prefix `mark`.
pub open spec fn marked_locales(tokens: Seq<Seq<char>>, mark: char, n: int) -> Set<Seq<char>> {
    Set::new(
        |l: Seq<char>|
            exists|i: int|
                0 <= i < n && i < tokens.len() && #[trigger] tokens[i].len() > 0 && tokens[i][0]
                    == mark && tokens[i].skip(1) == l,
    )
}

/// The locales that a filter lets through. Where the filter names locales
/// without a prefix, only those of them that are known stay. Then the
/// locales behind `+` are added, known or not, and last those behind `!` are
/// taken out.
pub open spec fn filtered_locales(known: Set<Seq<char>>, tokens: Seq<Seq<char>>) -> Set<
    Seq<char>,
> {
    let narrowed = if has_explicit(tokens, tokens.len() as int) {
        known.intersect(explicit_locales(tokens, tokens.len() as int))
    } else {
        known
    };
    (narrowed + marked_locales(tokens, '+', tokens.len() as int)) - marked_locales(
        tokens,
        '!',
        tokens.len() as int,
    )
}

/// The declared locales together with those of the store.
pub fn collect_locales(declared: &Vec<String>, store: &LocaleStore) -> (set: StringSet)
    ensures
        set.wf(),
        set.members() == known_locales(str_views(declared@), store@),
{
    let mut set = StringSet::new();
    let mut i: usize = 0;
    while i < declared.len()
        invariant
            i <= declared@.len(),
            set.wf(),
            set.members() == str_views(declared@).take(i as int).to_set(),
        decreases declared@.len() - i,
    {
        set.insert(declared[i].clone());
        proof {
            lemma_take_next_to_set(str_views(declared@), i as int);
        }
        i += 1;
    }
    assert(str_views(declared@).take(i as int) == str_views(declared@));
    let mut j: usize = 0;
    while j < store.locale_count()
        invariant
            j <= store@.len(),
            set.wf(),
            set.members() == str_views(declared@).to_set() + keys_of(store@).take(j as int).to_set(),
        decreases store@.len() - j,
    {
        set.insert(store.locale_at(j).clone());
        proof {
            lemma_take_next_to_set(keys_of(store@), j as int);
            assert(set.members() =~= str_views(declared@).to_set() + keys_of(store@).take(
                j + 1,
            ).to_set());
        }
        j += 1;
    }
    assert(keys_of(store@).take(j as int) == keys_of(store@));
    set
}

/// The keys of a store.
pub fn collect_keys(store: &LocaleStore) -> (set: StringSet)
    requires
        store.wf(),
    ensures
        set.wf(),
        set.members() == store_keys(store@),
{
    let mut set = StringSet::new();
    let mut i: usize = 0;
    while i < store.locale_count()
        invariant
            i <= store@.len(),
            store.wf(),
            set.wf(),
            set.members() == keys_upto(store@, i as int),
        decreases store@.len() - i,
    {
        let table = store.table_at(i);
        let mut j: usize = 0;
        while j < table.len()
            invariant
                i < store@.len(),
                j <= table@.len(),
                table@ == store@[i as int].1,
                set.wf(),
                set.members() == keys_upto(store@, i as int) + keys_of(table@).take(
                    j as int,
                ).to_set(),
            decreases table@.len() - j,
        {
            set.insert(table.key_at(j).clone());
            proof {
                lemma_take_next_to_set(keys_of(table@), j as int);
                assert(set.members() =~= keys_upto(store@, i as int) + keys_of(table@).take(
                    j + 1,
                ).to_set());
            }
            j += 1;
        }
        assert(keys_of(table@).take(j as int) == keys_of(table@));
        i += 1;
    }
    set
}

/// What one more token adds to the locales named without a prefix.
proof fn lemma_explicit_step(tokens: Seq<Seq<char>>, i: int)
    requires
        0 <= i < tokens.len(),
    ensures
        explicit_locales(tokens, i + 1) == if is_modifier(tokens[i]) {
            explicit_locales(tokens, i)
        } else {
            explicit_locales(tokens, i).insert(tokens[i])
        },
        has_explicit(tokens, i + 1) == (has_explicit(tokens, i) || !is_modifier(tokens[i])),
{
    let next = if is_modifier(tokens[i]) {
        explicit_locales(tokens, i)
    } else {
        explicit_locales(tokens, i).insert(tokens[i])
    };
    assert forall|l: Seq<char>| explicit_locales(tokens, i + 1).contains(l) <==> next.contains(
        l,
    ) by {
        if explicit_locales(tokens, i + 1).contains(l) {
            let k = choose|k: int|
                0 <= k < i + 1 && k < tokens.len() && tokens[k] == l && !is_modifier(l);
            if k < i {
                assert(explicit_locales(tokens, i).contains(l));
            }
        }
        if explicit_locales(tokens, i).contains(l) {
            let k = choose|k: int| 0 <= k < i && k < tokens.len() && tokens[k] == l && !is_modifier(l);
            assert(0 <= k < i + 1 && tokens[k] == l);
        }
        if !is_modifier(tokens[i]) && l == tokens[i] {
            assert(0 <= i < i + 1 && tokens[i] == l);
        }
    }
    assert(explicit_locales(tokens, i + 1) =~= next);
    if has_explicit(tokens, i + 1) {
        let k = choose|k: int| 0 <= k < i + 1 && k < tokens.len() && !is_modifier(tokens[k]);
        if k < i {
            assert(has_explicit(tokens, i));
        }
    }
    if has_explicit(tokens, i) {
        let k = choose|k: int| 0 <= k < i && k < tokens.len() && !is_modifier(tokens[k]);
        assert(0 <= k < i + 1 && !is_modifier(tokens[k]));
    }
    if !is_modifier(tokens[i]) {
        assert(0 <= i < i + 1 && !is_modifier(tokens[i]));
    }
}

/// What one more token adds to the locales named behind a prefix.
proof fn lemma_marked_step(tokens: Seq<Seq<char>>, mark: char, i: int)
    requires
        0 <= i < tokens.len(),
    ensures
        marked_locales(tokens, mark, i + 1) == if tokens[i].len() > 0 && tokens[i][0] == mark {
            marked_locales(tokens, mark, i).insert(tokens[i].skip(1))
        } else {
            marked_locales(tokens, mark, i)
        },
{
    let hit = tokens[i].len() > 0 && tokens[i][0] == mark;
    let next = if hit {
        marked_locales(tokens, mark, i).insert(tokens[i].skip(1))
    } else {
        marked_locales(tokens, mark, i)
    };
    assert forall|l: Seq<char>| marked_locales(tokens, mark, i + 1).contains(l) <==> next.contains(
        l,
    ) by {
        if marked_locales(tokens, mark, i + 1).contains(l) {
            let k = choose|k: int|
                0 <= k < i + 1 && k < tokens.len() && #[trigger] tokens[k].len() > 0
                    && tokens[k][0] == mark && tokens[k].skip(1) == l;
            if k < i {
                assert(marked_locales(tokens, mark, i).contains(l));
            }
        }
        if marked_locales(tokens, mark, i).contains(l) {
            let k = choose|k: int|
                0 <= k < i && k < tokens.len() && #[trigger] tokens[k].len() > 0 && tokens[k][0]
                    == mark && tokens[k].skip(1) == l;
            assert(0 <= k < i + 1 && tokens[k].len() > 0);
        }
        if hit && l == tokens[i].skip(1) {
            assert(0 <= i < i + 1 && tokens[i].len() > 0);
        }
    }
    assert(marked_locales(tokens, mark, i + 1) =~= next);
}

/// Applies a locale filter to a set of locales. A token without a prefix
/// names a locale to keep: where there is such a token, only the named
/// locales that the set holds stay. A token `+locale` then adds that locale,
/// whether the set held it or not, and a token `!locale` last takes that
/// locale out.
pub fn filter_locales(available_locales: &mut StringSet, locales: &Vec<String>)
    requires
        old(available_locales).wf(),
    ensures
        final(available_locales).wf(),
        final(available_locales).members() == filtered_locales(
            old(available_locales).members(),
            str_views(locales@),
        ),
{
    let ghost tokens = str_views(locales@);
    let ghost known = available_locales.members();
    let mut narrowed = StringSet::new();
    let mut any: bool = false;
    let mut i: usize = 0;
    assert(known.intersect(explicit_locales(tokens, 0)) =~= Set::<Seq<char>>::empty());
    while i < locales.len()
        invariant
            i <= locales@.len(),
            tokens == str_views(locales@),
            available_locales.wf(),
            available_locales.members() == known,
            narrowed.wf(),
            any == has_explicit(tokens, i as int),
            narrowed.members() == known.intersect(explicit_locales(tokens, i as int)),
        decreases locales@.len() - i,
    {
        let v = chars_of(locales[i].as_str());
        proof {
            lemma_explicit_step(tokens, i as int);
        }
        if !(v.len() > 0 && (v[0] == '+' || v[0] == '!')) {
            any = true;
            if available_locales.contains(locales[i].as_str()) {
                narrowed.insert(locales[i].clone());
            }
            assert(narrowed.members() =~= known.intersect(explicit_locales(tokens, i + 1)));
        }
        i += 1;
    }
    if any {
        *available_locales = narrowed;
    }
    let ghost base = available_locales.members();
    assert(base + marked_locales(tokens, '+', 0) =~= base);
    i = 0;
    while i < locales.len()
        invariant
            i <= locales@.len(),
            tokens == str_views(locales@),
            available_locales.wf(),
            available_locales.members() == base + marked_locales(tokens, '+', i as int),
        decreases locales@.len() - i,
    {
        let v = chars_of(locales[i].as_str());
        proof {
            lemma_marked_step(tokens, '+', i as int);
        }
        if v.len() > 0 && v[0] == '+' {
            assert(v@.skip(1) == v@.subrange(1, v@.len() as int));
            available_locales.insert(string_of_range(&v, 1, v.len()));
            assert(available_locales.members() =~= base + marked_locales(tokens, '+', i + 1));
        }
        i += 1;
    }
    let ghost added = available_locales.members();
    assert(added - marked_locales(tokens, '!', 0) =~= added);
    i = 0;
    while i < locales.len()
        invariant
            i <= locales@.len(),
            tokens == str_views(locales@),
            available_locales.wf(),
            available_locales.members() == added - marked_locales(tokens, '!', i as int),
        decreases locales@.len() - i,
    {
        let v = chars_of(locales[i].as_str());
        proof {
            lemma_marked_step(tokens, '!', i as int);
        }
        if v.len() > 0 && v[0] == '!' {
            assert(v@.skip(1) == v@.subrange(1, v@.len() as int));
            let name = string_of_range(&v, 1, v.len());
            available_locales.remove(name.as_str());
            assert(available_locales.members() =~= added - marked_locales(tokens, '!', i + 1));
        }
        i += 1;
    }
}

/// The text written for `key` in the column of `locale`: the translation of
/// that locale where it has one; else, under the policy `Default`, the
/// translation of the default locale where that has one; else nothing.
pub open spec fn cell(
    store: Seq<(Seq<char>, Seq<(Seq<char>, Seq<char>)>)>,
    locale: Seq<char>,
    key: Seq<char>,
    missed: MissedBehavior,
    default_locale: Seq<char>,
) -> Seq<char> {
    match translation_of(store, locale, key) {
        Some(text) => text,
        None => match missed {
            MissedBehavior::Default => match translation_of(store, default_locale, key) {
                Some(text) => text,
                None => Seq::empty(),
            },
            MissedBehavior::Empty => Seq::empty(),
        },
    }
}

/// The exported row of `key`: one cell for each locale, in order.
pub open spec fn export_row(
    store: Seq<(Seq<char>, Seq<(Seq<char>, Seq<char>)>)>,
    locales: Seq<Seq<char>>,
    key: Seq<char>,
    missed: MissedBehavior,
    default_locale: Seq<char>,
) -> Seq<(Seq<char>, Seq<char>)> {
    Seq::new(
        locales.len(),
        |j: int| (locales[j], cell(store, locales[j], key, missed, default_locale)),
    )
}

/// The exported table: one row for each key, in order.
pub open spec fn export_rows(
    store: Seq<(Seq<char>, Seq<(Seq<char>, Seq<char>)>)>,
    locales: Seq<Seq<char>>,
    keys: Seq<Seq<char>>,
    missed: MissedBehavior,
    default_locale: Seq<char>,
) -> Seq<(Seq<char>, Seq<(Seq<char>, Seq<char>)>)> {
    Seq::new(
        keys.len(),
        |i: int| (keys[i], export_row(store, locales, keys[i], missed, default_locale)),
    )
}

/// The sorted row of `key`: the translations that the store has for it, in
/// the order of `locales`. A locale without a translation has no cell.
pub open spec fn present_cells(
    store: Seq<(Seq<char>, Seq<(Seq<char>, Seq<char>)>)>,
    locales: Seq<Seq<char>>,
    key: Seq<char>,
) -> Seq<(Seq<char>, Seq<char>)>
    decreases locales.len(),
{
    if locales.len() == 0 {
        Seq::empty()
    } else {
        let before = present_cells(store, locales.drop_last(), key);
        match translation_of(store, locales.last(), key) {
            Some(text) => before.push((locales.last(), text)),
            None => before,
        }
    }
}

/// The sorted table: one row for each key, in order.
pub open spec fn sorted_rows(
    store: Seq<(Seq<char>, Seq<(Seq<char>, Seq<char>)>)>,
    locales: Seq<Seq<char>>,
    keys: Seq<Seq<char>>,
) -> Seq<(Seq<char>, Seq<(Seq<char>, Seq<char>)>)> {
    Seq::new(keys.len(), |i: int| (keys[i], present_cells(store, locales, keys[i])))
}

/// The cells of a sorted row belong to the locales that were asked for.
pub proof fn lemma_present_cells_locales(
    store: Seq<(Seq<char>, Seq<(Seq<char>, Seq<char>)>)>,
    locales: Seq<Seq<char>>,
    key: Seq<char>,
)
    ensures
        forall|i: int|
            0 <= i < present_cells(store, locales, key).len() ==> locales.contains(
                #[trigger] present_cells(store, locales, key)[i].0,
            ),
    decreases locales.len(),
{
    if locales.len() > 0 {
        let shorter = locales.drop_last();
        lemma_present_cells_locales(store, shorter, key);
        let before = present_cells(store, shorter, key);
        assert forall|i: int| 0 <= i < present_cells(store, locales, key).len() implies locales.contains(
            #[trigger] present_cells(store, locales, key)[i].0,
        ) by {
            if i < before.len() {
                let l = before[i].0;
                assert(shorter.contains(l));
                let k = choose|k: int| 0 <= k < shorter.len() && shorter[k] == l;
                assert(locales[k] == l);
            } else {
                assert(locales[locales.len() - 1] == locales.last());
            }
        }
    }
}

/// An entry list none of whose keys is `key` has no position for it.
proof fn lemma_absent_key<V>(entries: Seq<(Seq<char>, V)>, key: Seq<char>)
    requires
        forall|i: int| 0 <= i < entries.len() ==> (#[trigger] entries[i]).0 != key,
    ensures
        position(entries, key) is None,
{
    lemma_position_from(entries, key, 0);
}

/// The text written for `key` in the column of `locale`.
fn cell_text(
    store: &LocaleStore,
    locale: &str,
    key: &str,
    missed: MissedBehavior,
    default_locale: &str,
) -> (text: String)
    requires
        store.wf(),
    ensures
        text@ == cell(store@, locale@, key@, missed, default_locale@),
{
    match store.translation(locale, key) {
        Some(text) => text.clone(),
        None => match missed {
            MissedBehavior::Default => match store.translation(default_locale, key) {
                Some(text) => text.clone(),
                None => String::new(),
            },
            MissedBehavior::Empty => String::new(),
        },
    }
}

/// Builds the exported table for the given locales and keys, in their order.
pub fn export_table(
    store: &LocaleStore,
    locales: &Vec<String>,
    keys: &Vec<String>,
    missed: MissedBehavior,
    default_locale: &str,
) -> (table: IndexMap<String, IndexMap<String, String>>)
    requires
        store.wf(),
        str_views(locales@).no_duplicates(),
        str_views(keys@).no_duplicates(),
    ensures
        table_entries(table) == export_rows(
            store@,
            str_views(locales@),
            str_views(keys@),
            missed,
            default_locale@,
        ),
{
    let ghost ls = str_views(locales@);
    let ghost ks = str_views(keys@);
    let ghost rows = export_rows(store@, ls, ks, missed, default_locale@);
    let mut table = table_new();
    let mut i: usize = 0;
    while i < keys.len()
        invariant
            i <= keys@.len(),
            store.wf(),
            ls == str_views(locales@),
            ks == str_views(keys@),
            ls.no_duplicates(),
            ks.no_duplicates(),
            rows == export_rows(store@, ls, ks, missed, default_locale@),
            table_entries(table) == rows.take(i as int),
        decreases keys@.len() - i,
    {
        let ghost cells = export_row(store@, ls, ks[i as int], missed, default_locale@);
        let mut row = row_new();
        let mut j: usize = 0;
        while j < locales.len()
            invariant
                i < keys@.len(),
                j <= locales@.len(),
                store.wf(),
                ls == str_views(locales@),
                ks == str_views(keys@),
                ls.no_duplicates(),
                cells == export_row(store@, ls, ks[i as int], missed, default_locale@),
                row_entries(row) == cells.take(j as int),
            decreases locales@.len() - j,
        {
            let text = cell_text(
                store,
                locales[j].as_str(),
                keys[i].as_str(),
                missed,
                default_locale,
            );
            proof {
                lemma_absent_key(row_entries(row), ls[j as int]);
            }
            row_insert(&mut row, locales[j].clone(), text);
            assert(row_entries(row) == cells.take(j + 1));
            j += 1;
        }
        assert(cells.take(j as int) == cells);
        proof {
            lemma_absent_key(table_entries(table), ks[i as int]);
        }
        table_insert(&mut table, keys[i].clone(), row);
        assert(table_entries(table) == rows.take(i + 1));
        i += 1;
    }
    assert(rows.take(i as int) == rows);
    table
}

/// Builds the sorted table for the given locales and keys, in their order.
pub fn sort_table(store: &LocaleStore, locales: &Vec<String>, keys: &Vec<String>) -> (table:
    IndexMap<String, IndexMap<String, String>>)
    requires
        store.wf(),
        str_views(locales@).no_duplicates(),
        str_views(keys@).no_duplicates(),
    ensures
        table_entries(table) == sorted_rows(store@, str_views(locales@), str_views(keys@)),
{
    let ghost ls = str_views(locales@);
    let ghost ks = str_views(keys@);
    let ghost rows = sorted_rows(store@, ls, ks);
    let mut table = table_new();
    let mut i: usize = 0;
    while i < keys.len()
        invariant
            i <= keys@.len(),
            store.wf(),
            ls == str_views(locales@),
            ks == str_views(keys@),
            ls.no_duplicates(),
            ks.no_duplicates(),
            rows == sorted_rows(store@, ls, ks),
            table_entries(table) == rows.take(i as int),
        decreases keys@.len() - i,
    {
        let mut row = row_new();
        let mut j: usize = 0;
        assert(ls.take(0).len() == 0);
        while j < locales.len()
            invariant
                i < keys@.len(),
                j <= locales@.len(),
                store.wf(),
                ls == str_views(locales@),
                ks == str_views(keys@),
                ls.no_duplicates(),
                row_entries(row) == present_cells(store@, ls.take(j as int), ks[i as int]),
            decreases locales@.len() - j,
        {
            proof {
                assert(ls.take(j + 1).drop_last() == ls.take(j as int));
                assert(ls.take(j + 1).last() == ls[j as int]);
                lemma_present_cells_locales(store@, ls.take(j as int), ks[i as int]);
                assert forall|k: int| 0 <= k < row_entries(row).len() implies (
                #[trigger] row_entries(row)[k]).0 != ls[j as int] by {
                    let l = row_entries(row)[k].0;
                    assert(ls.take(j as int).contains(l));
                    let m = choose|m: int| 0 <= m < ls.take(j as int).len() && ls.take(j as int)[m] == l;
                    assert(ls[m] == l);
                }
                lemma_absent_key(row_entries(row), ls[j as int]);
            }
            match store.translation(locales[j].as_str(), keys[i].as_str()) {
                Some(text) => {
                    row_insert(&mut row, locales[j].clone(), text.clone());
                },
                None => {},
            }
            j += 1;
        }
        assert(ls.take(j as int) == ls);
        proof {
            lemma_absent_key(table_entries(table), ks[i as int]);
        }
        table_insert(&mut table, keys[i].clone(), row);
        assert(table_entries(table) == rows.take(i + 1));
        i += 1;
    }
    assert(rows.take(i as int) == rows);
    table
}

/// The strings of `v` in the opposite order.
fn reversed(v: Vec<String>) -> (r: Vec<String>)
    ensures
        str_views(r@) == str_views(v@).reverse(),
{
    let mut r: Vec<String> = Vec::new();
    let mut i: usize = v.len();
    while i > 0
        invariant
            i <= v@.len(),
            r@.len() == v@.len() - i,
            forall|k: int| 0 <= k < r@.len() ==> r@[k]@ == v@[v@.len() - 1 - k]@,
        decreases i,
    {
        i -= 1;
        r.push(v[i].clone());
    }
    assert(str_views(r@) =~= str_views(v@).reverse());
    r
}

/// The table that an export writes: a row for each key of the store, in
/// ascending order, with a cell for each locale that the filter lets
/// through, in ascending order.
pub fn export(
    store: &LocaleStore,
    declared: &Vec<String>,
    filter: &Vec<String>,
    missed: MissedBehavior,
    default_locale: &str,
) -> (table: IndexMap<String, IndexMap<String, String>>)
    requires
        store.wf(),
    ensures
        table_entries(table) == export_rows(
            store@,
            sorted_seq(
                filtered_locales(known_locales(str_views(declared@), store@), str_views(filter@)),
            ),
            sorted_seq(store_keys(store@)),
            missed,
            default_locale@,
        ),
{
    let mut locales = collect_locales(declared, store);
    filter_locales(&mut locales, filter);
    let keys = collect_keys(store);
    proof {
        lemma_sorted_seq_of(locales@);
        lemma_sorted_seq_of(keys@);
        lemma_sorted_no_duplicates(locales@);
        lemma_sorted_no_duplicates(keys@);
    }
    let locale_list = locales.to_vec();
    let key_list = keys.to_vec();
    export_table(store, &locale_list, &key_list, missed, default_locale)
}

/// The table that a sort writes: a row for each key of the store, with a
/// cell for each known locale that has a translation of the key; keys and
/// locales ascend, or descend when `reverse` is set.
pub fn sort(store: &LocaleStore, declared: &Vec<String>, reverse: bool) -> (table: IndexMap<
    String,
    IndexMap<String, String>,
>)
    requires
        store.wf(),
    ensures
        table_entries(table) == sorted_rows(
            store@,
            ordered_seq(known_locales(str_views(declared@), store@), reverse),
            ordered_seq(store_keys(store@), reverse),
        ),
{
    let locales = collect_locales(declared, store);
    let keys = collect_keys(store);
    proof {
        lemma_sorted_seq_of(locales@);
        lemma_sorted_seq_of(keys@);
        lemma_sorted_no_duplicates(locales@);
        lemma_sorted_no_duplicates(keys@);
    }
    let mut locale_list = locales.to_vec();
    let mut key_list = keys.to_vec();
    if reverse {
        locale_list = reversed(locale_list);
        key_list = reversed(key_list);
        proof {
            lemma_reverse_no_duplicates(locales@);
            lemma_reverse_no_duplicates(keys@);
        }
    }
    sort_table(store, &locale_list, &key_list)
}

/// A sequence without duplicates has none when it is reversed.
proof fn lemma_reverse_no_duplicates<A>(s: Seq<A>)
    requires
        s.no_duplicates(),
    ensures
        s.reverse().no_duplicates(),
{
    let r = s.reverse();
    assert forall|i: int, j: int| 0 <= i < r.len() && 0 <= j < r.len() && i != j implies r[i]
        != r[j] by {
        assert(r[i] == s[s.len() - 1 - i]);
        assert(r[j] == s[s.len() - 1 - j]);
    }
}

} // verus!
