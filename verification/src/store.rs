//! The translation store: for each locale a table from translation key to
//! translated text. Tables and stores keep their entries in the order in
//! which they were added, and hold each key, or locale, once.

use vstd::prelude::*;
use vstd::string::*;

verus! {

/// The keys of a list of entries, in order.
pub open spec fn keys_of<V>(entries: Seq<(Seq<char>, V)>) -> Seq<Seq<char>> {
    Seq::new(entries.len(), |i: int| entries[i].0)
}

/// No key occurs in two entries.
pub open spec fn distinct_keys<V>(entries: Seq<(Seq<char>, V)>) -> bool {
    forall|i: int, j: int| 0 <= i < j < entries.len() ==> entries[i].0 != entries[j].0
}

/// The position of the first entry from `from` on that has the key `key`.
pub open spec fn position_from<V>(entries: Seq<(Seq<char>, V)>, key: Seq<char>, from: int) -> Option<
    int,
>
    decreases entries.len() - from,
{
    if from < 0 || from >= entries.len() {
        None
    } else if entries[from].0 == key {
        Some(from)
    } else {
        position_from(entries, key, from + 1)
    }
}

/// The position of the entry with the key `key`.
pub open spec fn position<V>(entries: Seq<(Seq<char>, V)>, key: Seq<char>) -> Option<int> {
    position_from(entries, key, 0)
}

/// The value stored under `key`.
pub open spec fn lookup<V>(entries: Seq<(Seq<char>, V)>, key: Seq<char>) -> Option<V> {
    match position(entries, key) {
        Some(i) => Some(entries[i].1),
        None => None,
    }
}

/// The entries after `value` was stored under `key`: an entry that has the
/// key keeps its place and takes the value, else a new entry comes last.
pub open spec fn upserted<V>(entries: Seq<(Seq<char>, V)>, key: Seq<char>, value: V) -> Seq<
    (Seq<char>, V),
> {
    match position(entries, key) {
        Some(i) => entries.update(i, (key, value)),
        None => entries.push((key, value)),
    }
}

/// What `position_from` finds: the first entry with the key, or none when no
/// entry from `from` on has it.
pub proof fn lemma_position_from<V>(entries: Seq<(Seq<char>, V)>, key: Seq<char>, from: int)
    requires
        0 <= from,
    ensures
        match position_from(entries, key, from) {
            Some(i) => from <= i < entries.len() && entries[i].0 == key && forall|j: int|
                from <= j < i ==> entries[j].0 != key,
            None => forall|j: int| from <= j < entries.len() ==> entries[j].0 != key,
        },
    decreases entries.len() - from,
{
    if from < entries.len() && entries[from].0 != key {
        lemma_position_from(entries, key, from + 1);
    }
}

/// Among distinct keys, the entry at `i` is the one found under its key.
pub proof fn lemma_position_of_entry<V>(entries: Seq<(Seq<char>, V)>, i: int)
    requires
        distinct_keys(entries),
        0 <= i < entries.len(),
    ensures
        position(entries, entries[i].0) == Some(i),
        lookup(entries, entries[i].0) == Some(entries[i].1),
{
    lemma_position_from(entries, entries[i].0, 0);
}

/// Storing a value keeps the keys distinct, makes the value the one found
/// under its key, and leaves what is found under every other key as it was.
pub proof fn lemma_upserted<V>(entries: Seq<(Seq<char>, V)>, key: Seq<char>, value: V)
    requires
        distinct_keys(entries),
    ensures
        distinct_keys(upserted(entries, key, value)),
        lookup(upserted(entries, key, value), key) == Some(value),
        forall|other: Seq<char>|
            other != key ==> #[trigger] lookup(upserted(entries, key, value), other) == lookup(
                entries,
                other,
            ),
{
    let after = upserted(entries, key, value);
    lemma_position_from(entries, key, 0);
    lemma_position_from(after, key, 0);
    let at: int = match position(entries, key) {
        Some(i) => i,
        None => entries.len() as int,
    };
    assert(after.len() > at && after[at] == (key, value));
    assert(forall|j: int| 0 <= j < after.len() && j != at ==> after[j] == entries[j]);
    assert(position(after, key) == Some(at));
    assert forall|other: Seq<char>| other != key implies #[trigger] lookup(after, other) == lookup(
        entries,
        other,
    ) by {
        lemma_position_from(entries, other, 0);
        lemma_position_from(after, other, 0);
        match position(entries, other) {
            Some(i) => {
                assert(after[i] == entries[i]);
                assert(position(after, other) == Some(i));
            },
            None => {
                assert(position(after, other) is None);
            },
        }
    }
}

/// What is found in a list that got one more entry at its end.
pub proof fn lemma_lookup_push<V>(
    entries: Seq<(Seq<char>, V)>,
    key: Seq<char>,
    value: V,
    wanted: Seq<char>,
)
    ensures
        lookup(entries.push((key, value)), wanted) == if lookup(entries, wanted) is Some {
            lookup(entries, wanted)
        } else if wanted == key {
            Some(value)
        } else {
            None
        },
{
    let after = entries.push((key, value));
    lemma_position_from(entries, wanted, 0);
    lemma_position_from(after, wanted, 0);
    match position(entries, wanted) {
        Some(i) => {
            assert(after[i] == entries[i]);
            assert(position(after, wanted) == Some(i));
        },
        None => {
            assert(forall|j: int| 0 <= j < entries.len() ==> after[j] == entries[j]);
            if wanted == key {
                assert(after[entries.len() as int].0 == wanted);
                assert(position(after, wanted) == Some(entries.len() as int));
            }
        },
    }
}

/// The contents of a list of pairs of strings.
pub open spec fn pair_views(v: Seq<(String, String)>) -> Seq<(Seq<char>, Seq<char>)> {
    Seq::new(v.len(), |i: int| (v[i].0@, v[i].1@))
}

/// The translations of one locale: a table from key to text.
pub struct LocaleTable {
    entries: Vec<(String, String)>,
}

impl View for LocaleTable {
    type V = Seq<(Seq<char>, Seq<char>)>;

    closed spec fn view(&self) -> Self::V {
        pair_views(self.entries@)
    }
}

impl LocaleTable {
    /// Every key occurs once.
    pub open spec fn wf(&self) -> bool {
        distinct_keys(self@)
    }

    /// A table without entries.
    pub fn new() -> (t: Self)
        ensures
            t.wf(),
            t@ == Seq::<(Seq<char>, Seq<char>)>::empty(),
    {
        LocaleTable { entries: Vec::new() }
    }

    /// The number of entries.
    pub fn len(&self) -> (n: usize)
        ensures
            n == self@.len(),
    {
        self.entries.len()
    }

    /// The key of the entry at position `i`.
    pub fn key_at(&self, i: usize) -> (k: &String)
        requires
            i < self@.len(),
        ensures
            k@ == self@[i as int].0,
    {
        &self.entries[i].0
    }

    /// The text of the entry at position `i`.
    pub fn value_at(&self, i: usize) -> (v: &String)
        requires
            i < self@.len(),
        ensures
            v@ == self@[i as int].1,
    {
        &self.entries[i].1
    }

    /// The position of the entry with the key `key`.
    pub fn find(&self, key: &str) -> (r: Option<usize>)
        ensures
            match r {
                Some(i) => position(self@, key@) == Some(i as int) && i < self@.len(),
                None => position(self@, key@) is None,
            },
    {
        let wanted = key.to_owned();
        let mut i: usize = 0;
        while i < self.entries.len()
            invariant
                i <= self.entries@.len(),
                wanted@ == key@,
                position(self@, key@) == position_from(self@, key@, i as int),
            decreases self.entries@.len() - i,
        {
            if self.entries[i].0 == wanted {
                return Some(i);
            }
            i += 1;
        }
        None
    }

    /// The text stored under `key`.
    pub fn get(&self, key: &str) -> (r: Option<&String>)
        ensures
            match r {
                Some(v) => lookup(self@, key@) == Some(v@),
                None => lookup(self@, key@) is None,
            },
    {
        match self.find(key) {
            Some(i) => Some(&self.entries[i].1),
            None => None,
        }
    }

    /// Whether the table has an entry for `key`.
    pub fn contains_key(&self, key: &str) -> (r: bool)
        ensures
            r == lookup(self@, key@).is_some(),
    {
        self.find(key).is_some()
    }

    /// Stores `value` under `key`: an entry that has the key keeps its place
    /// and takes the value, else a new entry comes last.
    pub fn insert(&mut self, key: String, value: String)
        requires
            old(self).wf(),
        ensures
            final(self).wf(),
            final(self)@ == upserted(old(self)@, key@, value@),
    {
        proof {
            lemma_upserted(self@, key@, value@);
        }
        match self.find(key.as_str()) {
            Some(i) => {
                self.entries.set(i, (key, value));
                assert(self@ == upserted(old(self)@, key@, value@));
            },
            None => {
                self.entries.push((key, value));
                assert(self@ == upserted(old(self)@, key@, value@));
            },
        }
    }
}

impl Clone for LocaleTable {
    fn clone(&self) -> (t: Self)
        ensures
            t@ == self@,
    {
        let mut entries: Vec<(String, String)> = Vec::new();
        let mut i: usize = 0;
        while i < self.entries.len()
            invariant
                i <= self.entries@.len(),
                pair_views(entries@) == pair_views(self.entries@).take(i as int),
            decreases self.entries@.len() - i,
        {
            let ghost before = pair_views(entries@);
            entries.push((self.entries[i].0.clone(), self.entries[i].1.clone()));
            assert(pair_views(entries@) == before.push(pair_views(self.entries@)[i as int]));
            i += 1;
        }
        assert(pair_views(self.entries@).take(i as int) == pair_views(self.entries@));
        LocaleTable { entries }
    }
}

/// The contents of a list of named tables.
pub open spec fn table_views(v: Seq<(String, LocaleTable)>) -> Seq<
    (Seq<char>, Seq<(Seq<char>, Seq<char>)>),
> {
    Seq::new(v.len(), |i: int| (v[i].0@, v[i].1@))
}

/// The text that a store holds for `key` in `locale`.
pub open spec fn translation_of(
    store: Seq<(Seq<char>, Seq<(Seq<char>, Seq<char>)>)>,
    locale: Seq<char>,
    key: Seq<char>,
) -> Option<Seq<char>> {
    match lookup(store, locale) {
        Some(table) => lookup(table, key),
        None => None,
    }
}

/// The table of `locale` in a store; a locale that the store lacks has the
/// empty table.
pub open spec fn table_of(
    store: Seq<(Seq<char>, Seq<(Seq<char>, Seq<char>)>)>,
    locale: Seq<char>,
) -> Seq<(Seq<char>, Seq<char>)> {
    match lookup(store, locale) {
        Some(table) => table,
        None => Seq::empty(),
    }
}

/// Every locale occurs once, and in each table every key occurs once.
pub open spec fn store_wf(store: Seq<(Seq<char>, Seq<(Seq<char>, Seq<char>)>)>) -> bool {
    &&& distinct_keys(store)
    &&& forall|i: int| 0 <= i < store.len() ==> distinct_keys(#[trigger] store[i].1)
}

/// The translations of all locales: for each locale its table.
pub struct LocaleStore {
    locales: Vec<(String, LocaleTable)>,
}

impl View for LocaleStore {
    type V = Seq<(Seq<char>, Seq<(Seq<char>, Seq<char>)>)>;

    closed spec fn view(&self) -> Self::V {
        table_views(self.locales@)
    }
}

impl LocaleStore {
    /// Every locale occurs once, and in each table every key occurs once.
    pub open spec fn wf(&self) -> bool {
        store_wf(self@)
    }

    /// A store without locales.
    pub fn new() -> (s: Self)
        ensures
            s.wf(),
            s@.len() == 0,
    {
        LocaleStore { locales: Vec::new() }
    }

    /// The number of locales.
    pub fn locale_count(&self) -> (n: usize)
        ensures
            n == self@.len(),
    {
        self.locales.len()
    }

    /// The locale at position `i`.
    pub fn locale_at(&self, i: usize) -> (l: &String)
        requires
            i < self@.len(),
        ensures
            l@ == self@[i as int].0,
    {
        &self.locales[i].0
    }

    /// The table at position `i`.
    pub fn table_at(&self, i: usize) -> (t: &LocaleTable)
        requires
            self.wf(),
            i < self@.len(),
        ensures
            t@ == self@[i as int].1,
            t.wf(),
    {
        &self.locales[i].1
    }

    /// The position of `locale`.
    pub fn find_locale(&self, locale: &str) -> (r: Option<usize>)
        ensures
            match r {
                Some(i) => position(self@, locale@) == Some(i as int) && i < self@.len(),
                None => position(self@, locale@) is None,
            },
    {
        let wanted = locale.to_owned();
        let mut i: usize = 0;
        while i < self.locales.len()
            invariant
                i <= self.locales@.len(),
                wanted@ == locale@,
                position(self@, locale@) == position_from(self@, locale@, i as int),
            decreases self.locales@.len() - i,
        {
            if self.locales[i].0 == wanted {
                return Some(i);
            }
            i += 1;
        }
        None
    }

    /// The table of `locale`.
    pub fn table(&self, locale: &str) -> (r: Option<&LocaleTable>)
        requires
            self.wf(),
        ensures
            match r {
                Some(t) => lookup(self@, locale@) == Some(t@) && t.wf(),
                None => lookup(self@, locale@) is None,
            },
    {
        match self.find_locale(locale) {
            Some(i) => Some(self.table_at(i)),
            None => None,
        }
    }

    /// The text stored for `key` in `locale`.
    pub fn translation(&self, locale: &str, key: &str) -> (r: Option<&String>)
        requires
            self.wf(),
        ensures
            match r {
                Some(v) => translation_of(self@, locale@, key@) == Some(v@),
                None => translation_of(self@, locale@, key@) is None,
            },
    {
        match self.table(locale) {
            Some(t) => t.get(key),
            None => None,
        }
    }

    /// Makes `table` the table of `locale`: a locale that the store has keeps
    /// its place, a new one comes last.
    pub fn set_table(&mut self, locale: String, table: LocaleTable)
        requires
            old(self).wf(),
            table.wf(),
        ensures
            final(self).wf(),
            final(self)@ == upserted(old(self)@, locale@, table@),
    {
        proof {
            lemma_upserted(self@, locale@, table@);
            lemma_position_from(self@, locale@, 0);
        }
        match self.find_locale(locale.as_str()) {
            Some(i) => {
                self.locales.set(i, (locale, table));
                assert(self@ == upserted(old(self)@, locale@, table@));
            },
            None => {
                self.locales.push((locale, table));
                assert(self@ == upserted(old(self)@, locale@, table@));
            },
        }
    }

    /// Stores `value` under `key` in the table of `locale`, which is added
    /// when the store lacks it.
    pub fn insert(&mut self, locale: &str, key: String, value: String)
        requires
            old(self).wf(),
        ensures
            final(self).wf(),
            final(self)@ == upserted(
                old(self)@,
                locale@,
                upserted(table_of(old(self)@, locale@), key@, value@),
            ),
    {
        let ghost before = table_of(self@, locale@);
        proof {
            lemma_position_from(self@, locale@, 0);
            lemma_upserted(before, key@, value@);
        }
        match self.find_locale(locale) {
            Some(i) => {
                let (name, mut table) = self.locales.remove(i);
                table.insert(key, value);
                self.locales.insert(i, (name, table));
                assert(self@ == upserted(old(self)@, locale@, upserted(before, key@, value@)));
            },
            None => {
                let mut table = LocaleTable::new();
                table.insert(key, value);
                self.locales.push((locale.to_owned(), table));
                assert(self@ == upserted(old(self)@, locale@, upserted(before, key@, value@)));
            },
        }
        proof {
            lemma_upserted(old(self)@, locale@, upserted(before, key@, value@));
        }
    }
}

} // verus!
