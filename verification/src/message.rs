//! The message table: the texts found in source code, each under its key,
//! in the order in which they were first seen; and the merge of a message
//! table into the table of the default locale.

use crate::config::Config;
use crate::sorted::{lemma_sorted_seq_of, lemma_take_next_to_set, sorted_seq, StringSet};
use crate::store::{
    distinct_keys, lemma_lookup_push, lemma_position_from, lookup, pair_views, table_of,
    upserted, LocaleStore, LocaleTable,
};
use vstd::prelude::*;
use vstd::string::*;

verus! {

/// A place in the source code: a file and a position in it. It is kept for
/// the reader and has no part in what key a text gets.
pub struct SourceLocation {
    pub file: String,
    pub line: usize,
    pub column: usize,
}

/// What a `SourceLocation` holds.
pub ghost struct LocationView {
    pub file: Seq<char>,
    pub line: nat,
    pub column: nat,
}

impl View for SourceLocation {
    type V = LocationView;

    open spec fn view(&self) -> LocationView {
        LocationView { file: self.file@, line: self.line as nat, column: self.column as nat }
    }
}

impl Clone for SourceLocation {
    fn clone(&self) -> (r: Self)
        ensures
            r@ == self@,
    {
        SourceLocation { file: self.file.clone(), line: self.line, column: self.column }
    }
}

/// A text found in source code.
pub struct Message {
    /// The key under which translations of the text are looked up.
    pub key: String,
    /// The text as it stands in the source: the translation that the default
    /// locale starts with.
    pub value: String,
    /// The number of messages that were found before this one.
    pub index: usize,
    /// Whether the key was made by minification.
    pub minified: bool,
    /// Where the text occurs.
    pub locations: Vec<SourceLocation>,
}

/// What a `Message` holds.
pub ghost struct MessageView {
    pub key: Seq<char>,
    pub value: Seq<char>,
    pub index: nat,
    pub minified: bool,
    pub locations: Seq<LocationView>,
}

/// What a list of locations holds.
pub open spec fn location_views(v: Seq<SourceLocation>) -> Seq<LocationView> {
    Seq::new(v.len(), |i: int| v[i]@)
}

impl View for Message {
    type V = MessageView;

    open spec fn view(&self) -> MessageView {
        MessageView {
            key: self.key@,
            value: self.value@,
            index: self.index as nat,
            minified: self.minified,
            locations: location_views(self.locations@),
        }
    }
}

/// What a list of messages holds.
pub open spec fn message_views(v: Seq<Message>) -> Seq<MessageView> {
    Seq::new(v.len(), |i: int| v[i]@)
}

/// The position of the first message from `from` on that has the key `key`.
pub open spec fn message_position_from(messages: Seq<MessageView>, key: Seq<char>, from: int) -> Option<
    int,
>
    decreases messages.len() - from,
{
    if from < 0 || from >= messages.len() {
        None
    } else if messages[from].key == key {
        Some(from)
    } else {
        message_position_from(messages, key, from + 1)
    }
}

/// The position of the message with the key `key`.
pub open spec fn message_position(messages: Seq<MessageView>, key: Seq<char>) -> Option<int> {
    message_position_from(messages, key, 0)
}

/// Each message stands at the position that its index gives, and no two
/// messages have the same key.
pub open spec fn messages_wf(messages: Seq<MessageView>) -> bool {
    &&& forall|i: int| 0 <= i < messages.len() ==> (#[trigger] messages[i]).index == i
    &&& forall|i: int, j: int|
        0 <= i < j < messages.len() ==> (#[trigger] messages[i]).key != (#[trigger] messages[j]).key
}

/// The messages after a text was seen at a location. A message with the same
/// key gets the location added and is otherwise left as it is; else a new
/// message comes last, with the text as its value.
pub open spec fn recorded(
    messages: Seq<MessageView>,
    key: Seq<char>,
    text: Seq<char>,
    minified: bool,
    location: LocationView,
) -> Seq<MessageView> {
    match message_position(messages, key) {
        Some(i) => messages.update(
            i,
            MessageView { locations: messages[i].locations.push(location), ..messages[i] },
        ),
        None => messages.push(
            MessageView {
                key,
                value: text,
                index: messages.len(),
                minified,
                locations: seq![location],
            },
        ),
    }
}

/// The messages after a translation was supplied by hand for a key. A
/// message with the same key is left as it is; else a new message comes
/// last, with the translation as its value and without locations.
pub open spec fn supplied(
    messages: Seq<MessageView>,
    key: Seq<char>,
    translation: Seq<char>,
    minified: bool,
) -> Seq<MessageView> {
    match message_position(messages, key) {
        Some(_) => messages,
        None => messages.push(
            MessageView {
                key,
                value: translation,
                index: messages.len(),
                minified,
                locations: Seq::empty(),
            },
        ),
    }
}

/// The messages after each pair of `list`, a text and its translation, was
/// supplied in turn.
pub open spec fn supplied_all(
    messages: Seq<MessageView>,
    list: Seq<(Seq<char>, Seq<char>)>,
    cfg: Config,
) -> Seq<MessageView>
    decreases list.len(),
{
    if list.len() == 0 {
        messages
    } else {
        supplied(
            supplied_all(messages, list.drop_last(), cfg),
            cfg.key_of(list.last().0),
            list.last().1,
            cfg.minify_key,
        )
    }
}

/// What `message_position_from` finds: the first message with the key, or
/// none when no message from `from` on has it.
pub proof fn lemma_message_position_from(messages: Seq<MessageView>, key: Seq<char>, from: int)
    requires
        0 <= from,
    ensures
        match message_position_from(messages, key, from) {
            Some(i) => from <= i < messages.len() && messages[i].key == key && forall|j: int|
                from <= j < i ==> (#[trigger] messages[j]).key != key,
            None => forall|j: int| from <= j < messages.len() ==> (#[trigger] messages[j]).key != key,
        },
    decreases messages.len() - from,
{
    if from < messages.len() && messages[from].key != key {
        lemma_message_position_from(messages, key, from + 1);
    }
}

/// Seeing a text keeps the table in order.
pub proof fn lemma_recorded_wf(
    messages: Seq<MessageView>,
    key: Seq<char>,
    text: Seq<char>,
    minified: bool,
    location: LocationView,
)
    requires
        messages_wf(messages),
    ensures
        messages_wf(recorded(messages, key, text, minified, location)),
{
    lemma_message_position_from(messages, key, 0);
}

/// Supplying a translation keeps the table in order.
pub proof fn lemma_supplied_wf(
    messages: Seq<MessageView>,
    key: Seq<char>,
    translation: Seq<char>,
    minified: bool,
)
    requires
        messages_wf(messages),
    ensures
        messages_wf(supplied(messages, key, translation, minified)),
{
    lemma_message_position_from(messages, key, 0);
}

/// The key of a text does not depend on the other texts: after a text was
/// seen it is found under the key that the settings give it, whatever the
/// table held before, and no message that the table held has changed its
/// key, its value or its index.
pub proof fn lemma_recorded_keeps_keys(
    messages: Seq<MessageView>,
    text: Seq<char>,
    cfg: Config,
    location: LocationView,
)
    requires
        messages_wf(messages),
    ensures
        ({
            let after = recorded(messages, cfg.key_of(text), text, cfg.minify_key, location);
            &&& after.len() >= messages.len()
            &&& message_position(after, cfg.key_of(text)) is Some
            &&& forall|i: int|
                0 <= i < messages.len() ==> (#[trigger] after[i]).key == messages[i].key
                    && after[i].value == messages[i].value && after[i].index == messages[i].index
        }),
{
    let key = cfg.key_of(text);
    let after = recorded(messages, key, text, cfg.minify_key, location);
    lemma_message_position_from(messages, key, 0);
    lemma_message_position_from(after, key, 0);
    match message_position(messages, key) {
        Some(i) => {
            assert(after[i].key == key);
        },
        None => {
            assert(after[messages.len() as int].key == key);
        },
    }
}

/// The texts found in source code, in the order in which they were first
/// seen.
pub struct MessageTable {
    messages: Vec<Message>,
}

impl View for MessageTable {
    type V = Seq<MessageView>;

    closed spec fn view(&self) -> Self::V {
        message_views(self.messages@)
    }
}

impl MessageTable {
    /// Each message stands at the position that its index gives, and no two
    /// messages have the same key.
    pub open spec fn wf(&self) -> bool {
        messages_wf(self@)
    }

    /// A table without messages.
    pub fn new() -> (t: Self)
        ensures
            t.wf(),
            t@.len() == 0,
    {
        MessageTable { messages: Vec::new() }
    }

    /// The number of messages.
    pub fn len(&self) -> (n: usize)
        ensures
            n == self@.len(),
    {
        self.messages.len()
    }

    /// The messages, ordered by index.
    pub fn messages(&self) -> (v: &Vec<Message>)
        ensures
            message_views(v@) == self@,
    {
        &self.messages
    }

    /// The position of the message with the key `key`.
    pub fn find(&self, key: &str) -> (r: Option<usize>)
        ensures
            match r {
                Some(i) => message_position(self@, key@) == Some(i as int) && i < self@.len(),
                None => message_position(self@, key@) is None,
            },
    {
        let wanted = key.to_owned();
        let mut i: usize = 0;
        while i < self.messages.len()
            invariant
                i <= self.messages@.len(),
                wanted@ == key@,
                message_position(self@, key@) == message_position_from(self@, key@, i as int),
            decreases self.messages@.len() - i,
        {
            if self.messages[i].key == wanted {
                return Some(i);
            }
            i += 1;
        }
        None
    }

    /// Takes note that `text` stands at `location` in the source.
    pub fn record(&mut self, text: &str, location: SourceLocation, cfg: &Config)
        requires
            old(self).wf(),
        ensures
            final(self).wf(),
            final(self)@ == recorded(
                old(self)@,
                cfg.key_of(text@),
                text@,
                cfg.minify_key,
                location@,
            ),
    {
        let key = cfg.key_for(text);
        proof {
            lemma_recorded_wf(self@, key@, text@, cfg.minify_key, location@);
        }
        match self.find(key.as_str()) {
            Some(i) => {
                let mut message = self.messages.remove(i);
                let ghost before = location_views(message.locations@);
                message.locations.push(location);
                assert(location_views(message.locations@) == before.push(location@));
                self.messages.insert(i, message);
                assert(self@ == recorded(
                    old(self)@,
                    cfg.key_of(text@),
                    text@,
                    cfg.minify_key,
                    location@,
                ));
            },
            None => {
                let index = self.messages.len();
                let mut locations: Vec<SourceLocation> = Vec::new();
                locations.push(location);
                assert(location_views(locations@) == seq![location@]);
                self.messages.push(
                    Message {
                        key,
                        value: text.to_owned(),
                        index,
                        minified: cfg.minify_key,
                        locations,
                    },
                );
                assert(self@ == recorded(
                    old(self)@,
                    cfg.key_of(text@),
                    text@,
                    cfg.minify_key,
                    location@,
                ));
            },
        }
    }

    /// Adds translations that were supplied by hand, each for a text that the
    /// scan could not find. They come after the messages that the table holds
    /// and move none of them.
    pub fn add_translations(&mut self, list: &Vec<(String, String)>, cfg: &Config)
        requires
            old(self).wf(),
        ensures
            final(self).wf(),
            final(self)@ == supplied_all(old(self)@, pair_views(list@), *cfg),
    {
        let ghost pairs = pair_views(list@);
        let mut n: usize = 0;
        assert(pairs.take(0).len() == 0);
        while n < list.len()
            invariant
                n <= list@.len(),
                pairs == pair_views(list@),
                self.wf(),
                self@ == supplied_all(old(self)@, pairs.take(n as int), *cfg),
            decreases list@.len() - n,
        {
            let key = cfg.key_for(list[n].0.as_str());
            proof {
                assert(pairs.take(n + 1).drop_last() == pairs.take(n as int));
                assert(pairs.take(n + 1).last() == pairs[n as int]);
                lemma_supplied_wf(self@, key@, list@[n as int].1@, cfg.minify_key);
            }
            let ghost before = self@;
            if self.find(key.as_str()).is_none() {
                let index = self.messages.len();
                self.messages.push(
                    Message {
                        key,
                        value: list[n].1.clone(),
                        index,
                        minified: cfg.minify_key,
                        locations: Vec::new(),
                    },
                );
                assert(location_views(Seq::<SourceLocation>::empty()) == Seq::<
                    LocationView,
                >::empty());
                assert(self@ == supplied(
                    before,
                    cfg.key_of(pairs[n as int].0),
                    pairs[n as int].1,
                    cfg.minify_key,
                ));
            }
            n += 1;
        }
        assert(pairs.take(n as int) == pairs);
    }
}

/// The table of the default locale after the messages were merged into it.
/// A key that the table has keeps its place and its translation. A key that
/// it lacks is added at the end with the text of the message as its
/// translation, in the order of the messages. Nothing leaves the table.
pub open spec fn merged(entries: Seq<(Seq<char>, Seq<char>)>, messages: Seq<MessageView>) -> Seq<
    (Seq<char>, Seq<char>),
>
    decreases messages.len(),
{
    if messages.len() == 0 {
        entries
    } else {
        let before = merged(entries, messages.drop_last());
        if lookup(before, messages.last().key) is Some {
            before
        } else {
            before.push((messages.last().key, messages.last().value))
        }
    }
}

/// A merge is not destructive: every entry of the table stays where it was,
/// with the translation it had, whether or not its key still occurs among
/// the messages.
pub proof fn lemma_merge_keeps_entries(
    entries: Seq<(Seq<char>, Seq<char>)>,
    messages: Seq<MessageView>,
)
    ensures
        merged(entries, messages).len() >= entries.len(),
        merged(entries, messages).take(entries.len() as int) == entries,
        forall|key: Seq<char>|
            lookup(entries, key) is Some ==> #[trigger] lookup(merged(entries, messages), key)
                == lookup(entries, key),
    decreases messages.len(),
{
    if messages.len() == 0 {
        assert(entries.take(entries.len() as int) == entries);
    } else {
        let before = merged(entries, messages.drop_last());
        lemma_merge_keeps_entries(entries, messages.drop_last());
        let after = merged(entries, messages);
        assert(after.take(entries.len() as int) == before.take(entries.len() as int));
        assert forall|key: Seq<char>| lookup(entries, key) is Some implies #[trigger] lookup(
            after,
            key,
        ) == lookup(entries, key) by {
            assert(lookup(before, key) == lookup(entries, key));
            lemma_lookup_push(before, messages.last().key, messages.last().value, key);
        }
    }
}

/// A merge leaves no key twice in the table.
pub proof fn lemma_merge_distinct_keys(
    entries: Seq<(Seq<char>, Seq<char>)>,
    messages: Seq<MessageView>,
)
    requires
        distinct_keys(entries),
    ensures
        distinct_keys(merged(entries, messages)),
    decreases messages.len(),
{
    if messages.len() > 0 {
        let before = merged(entries, messages.drop_last());
        lemma_merge_distinct_keys(entries, messages.drop_last());
        lemma_position_from(before, messages.last().key, 0);
    }
}

/// After a merge the table has an entry for the key of every message.
pub proof fn lemma_merge_covers_messages(
    entries: Seq<(Seq<char>, Seq<char>)>,
    messages: Seq<MessageView>,
)
    ensures
        forall|i: int|
            0 <= i < messages.len() ==> lookup(
                merged(entries, messages),
                (#[trigger] messages[i]).key,
            ) is Some,
    decreases messages.len(),
{
    if messages.len() > 0 {
        let shorter = messages.drop_last();
        let before = merged(entries, shorter);
        let after = merged(entries, messages);
        lemma_merge_covers_messages(entries, shorter);
        assert forall|i: int| 0 <= i < messages.len() implies lookup(
            after,
            (#[trigger] messages[i]).key,
        ) is Some by {
            lemma_lookup_push(before, messages.last().key, messages.last().value, messages[i].key);
            if i < shorter.len() {
                assert(shorter[i] == messages[i]);
            }
        }
    }
}

/// Messages whose keys the table already has change nothing.
pub proof fn lemma_merge_of_known_keys(
    entries: Seq<(Seq<char>, Seq<char>)>,
    messages: Seq<MessageView>,
)
    requires
        forall|i: int|
            0 <= i < messages.len() ==> lookup(entries, (#[trigger] messages[i]).key) is Some,
    ensures
        merged(entries, messages) == entries,
    decreases messages.len(),
{
    if messages.len() > 0 {
        let shorter = messages.drop_last();
        assert forall|i: int| 0 <= i < shorter.len() implies lookup(
            entries,
            (#[trigger] shorter[i]).key,
        ) is Some by {
            assert(shorter[i] == messages[i]);
        }
        lemma_merge_of_known_keys(entries, shorter);
        assert(messages[messages.len() - 1] == messages.last());
    }
}

/// A merge is idempotent: merging the same messages a second time leaves the
/// table as the first merge made it, entry for entry and in the same order.
pub proof fn lemma_merge_idempotent(
    entries: Seq<(Seq<char>, Seq<char>)>,
    messages: Seq<MessageView>,
)
    ensures
        merged(merged(entries, messages), messages) == merged(entries, messages),
{
    lemma_merge_covers_messages(entries, messages);
    lemma_merge_of_known_keys(merged(entries, messages), messages);
}

/// Merges the messages into the table of the default locale.
pub fn merge(table: &mut LocaleTable, messages: &MessageTable)
    requires
        old(table).wf(),
    ensures
        final(table).wf(),
        final(table)@ == merged(old(table)@, messages@),
        final(table)@.len() >= old(table)@.len(),
        final(table)@.take(old(table)@.len() as int) == old(table)@,
{
    let list = messages.messages();
    let ghost views = messages@;
    let mut i: usize = 0;
    assert(views.take(0).len() == 0);
    while i < list.len()
        invariant
            i <= list@.len(),
            views == message_views(list@),
            table.wf(),
            table@ == merged(old(table)@, views.take(i as int)),
        decreases list@.len() - i,
    {
        proof {
            assert(views.take(i + 1).drop_last() == views.take(i as int));
            assert(views.take(i + 1).last() == views[i as int]);
            lemma_position_from(table@, views[i as int].key, 0);
        }
        if !table.contains_key(list[i].key.as_str()) {
            table.insert(list[i].key.clone(), list[i].value.clone());
        }
        i += 1;
    }
    proof {
        assert(views.take(i as int) == views);
        lemma_merge_keeps_entries(old(table)@, views);
    }
}

/// Merges the messages into the table that the store has for `locale`, the
/// default locale. The tables of the other locales stay as they are.
pub fn merge_into_store(store: &mut LocaleStore, locale: &str, messages: &MessageTable)
    requires
        old(store).wf(),
    ensures
        final(store).wf(),
        final(store)@ == upserted(
            old(store)@,
            locale@,
            merged(table_of(old(store)@, locale@), messages@),
        ),
{
    let mut table = match store.table(locale) {
        Some(t) => t.clone(),
        None => LocaleTable::new(),
    };
    merge(&mut table, messages);
    store.set_table(locale.to_owned(), table);
}

/// A text together with the place at which it was found.
pub struct Found {
    pub text: String,
    pub location: SourceLocation,
}

/// What a list of found texts holds.
pub open spec fn found_views(v: Seq<Found>) -> Seq<(Seq<char>, LocationView)> {
    Seq::new(v.len(), |i: int| (v[i].text@, v[i].location@))
}

/// The messages after each text of `found` was seen, in the order of the
/// list.
pub open spec fn recorded_all(
    messages: Seq<MessageView>,
    found: Seq<(Seq<char>, LocationView)>,
    cfg: Config,
) -> Seq<MessageView>
    decreases found.len(),
{
    if found.len() == 0 {
        messages
    } else {
        recorded(
            recorded_all(messages, found.drop_last(), cfg),
            cfg.key_of(found.last().0),
            found.last().0,
            cfg.minify_key,
            found.last().1,
        )
    }
}

/// The files in which the texts of `found` stand.
pub open spec fn files_of(found: Seq<(Seq<char>, LocationView)>) -> Seq<Seq<char>> {
    Seq::new(found.len(), |i: int| found[i].1.file)
}

/// The texts of `found` that stand in `file`, in the order of the list.
pub open spec fn of_file(found: Seq<(Seq<char>, LocationView)>, file: Seq<char>) -> Seq<
    (Seq<char>, LocationView),
>
    decreases found.len(),
{
    if found.len() == 0 {
        Seq::empty()
    } else if found.last().1.file == file {
        of_file(found.drop_last(), file).push(found.last())
    } else {
        of_file(found.drop_last(), file)
    }
}

/// The messages after the texts of each file of `files` were seen, file by
/// file, those of one file in the order in which they stand in `found`.
pub open spec fn recorded_by_file(
    messages: Seq<MessageView>,
    found: Seq<(Seq<char>, LocationView)>,
    files: Seq<Seq<char>>,
    cfg: Config,
) -> Seq<MessageView>
    decreases files.len(),
{
    if files.len() == 0 {
        messages
    } else {
        recorded_all(
            recorded_by_file(messages, found, files.drop_last(), cfg),
            of_file(found, files.last()),
            cfg,
        )
    }
}

/// The message table of a scan. The texts are taken file by file, the files
/// in ascending order of their names and the texts of one file in the order
/// in which they were found; the translations supplied by hand come last. So
/// the table does not depend on the order in which the files were read.
pub open spec fn extracted(
    found: Seq<(Seq<char>, LocationView)>,
    overrides: Seq<(Seq<char>, Seq<char>)>,
    cfg: Config,
) -> Seq<MessageView> {
    supplied_all(
        recorded_by_file(Seq::empty(), found, sorted_seq(files_of(found).to_set()), cfg),
        overrides,
        cfg,
    )
}

/// Two scans that found the same texts in each file, in the same order
/// within the file, give the same message table, in whatever order the
/// files were read.
pub proof fn lemma_extraction_ignores_file_order(
    a: Seq<(Seq<char>, LocationView)>,
    b: Seq<(Seq<char>, LocationView)>,
    overrides: Seq<(Seq<char>, Seq<char>)>,
    cfg: Config,
)
    requires
        files_of(a).to_set() == files_of(b).to_set(),
        forall|file: Seq<char>| of_file(a, file) == of_file(b, file),
    ensures
        extracted(a, overrides, cfg) == extracted(b, overrides, cfg),
{
    lemma_recorded_by_file_same(Seq::empty(), a, b, sorted_seq(files_of(a).to_set()), cfg);
}

/// Taking the texts file by file gives the same for two lists that agree on
/// the texts of every file.
proof fn lemma_recorded_by_file_same(
    messages: Seq<MessageView>,
    a: Seq<(Seq<char>, LocationView)>,
    b: Seq<(Seq<char>, LocationView)>,
    files: Seq<Seq<char>>,
    cfg: Config,
)
    requires
        forall|file: Seq<char>| of_file(a, file) == of_file(b, file),
    ensures
        recorded_by_file(messages, a, files, cfg) == recorded_by_file(messages, b, files, cfg),
    decreases files.len(),
{
    if files.len() > 0 {
        lemma_recorded_by_file_same(messages, a, b, files.drop_last(), cfg);
    }
}

/// The names of the files in which the texts of `found` stand.
fn collect_files(found: &Vec<Found>) -> (files: StringSet)
    ensures
        files.wf(),
        files.members() == files_of(found_views(found@)).to_set(),
{
    let ghost names = files_of(found_views(found@));
    let mut files = StringSet::new();
    let mut i: usize = 0;
    assert(names.take(0).to_set() =~= Set::<Seq<char>>::empty());
    while i < found.len()
        invariant
            i <= found@.len(),
            names == files_of(found_views(found@)),
            files.wf(),
            files.members() == names.take(i as int).to_set(),
        decreases found@.len() - i,
    {
        files.insert(found[i].location.file.clone());
        proof {
            lemma_take_next_to_set(names, i as int);
        }
        i += 1;
    }
    assert(names.take(i as int) == names);
    files
}

/// Builds the message table of a scan.
pub fn extract(found: &Vec<Found>, overrides: &Vec<(String, String)>, cfg: &Config) -> (table:
    MessageTable)
    ensures
        table.wf(),
        table@ == extracted(found_views(found@), pair_views(overrides@), *cfg),
{
    let ghost views = found_views(found@);
    let files = collect_files(found);
    proof {
        lemma_sorted_seq_of(files@);
    }
    let ghost names = files@;
    let mut table = MessageTable::new();
    assert(table@ == Seq::<MessageView>::empty());
    let mut k: usize = 0;
    assert(names.take(0).len() == 0);
    while k < files.len()
        invariant
            k <= files@.len(),
            names == files@,
            views == found_views(found@),
            table.wf(),
            table@ == recorded_by_file(Seq::empty(), views, names.take(k as int), *cfg),
        decreases files@.len() - k,
    {
        let file = files.get(k);
        let ghost start = table@;
        let mut n: usize = 0;
        assert(views.take(0).len() == 0);
        while n < found.len()
            invariant
                n <= found@.len(),
                views == found_views(found@),
                table.wf(),
                table@ == recorded_all(start, of_file(views.take(n as int), file@), *cfg),
            decreases found@.len() - n,
        {
            proof {
                assert(views.take(n + 1).drop_last() == views.take(n as int));
                assert(views.take(n + 1).last() == views[n as int]);
            }
            if found[n].location.file == *file {
                let ghost part = of_file(views.take(n as int), file@);
                assert(part.push(views[n as int]).drop_last() == part);
                table.record(found[n].text.as_str(), found[n].location.clone(), cfg);
            }
            n += 1;
        }
        proof {
            assert(views.take(n as int) == views);
            assert(names.take(k + 1).drop_last() == names.take(k as int));
            assert(names.take(k + 1).last() == names[k as int]);
        }
        k += 1;
    }
    assert(names.take(k as int) == names);
    table.add_translations(overrides, cfg);
    table
}

/// Merges the message table of a scan into the table that the store has for
/// the default locale.
pub fn extract_into(
    store: &mut LocaleStore,
    found: &Vec<Found>,
    overrides: &Vec<(String, String)>,
    cfg: &Config,
)
    requires
        old(store).wf(),
    ensures
        final(store).wf(),
        final(store)@ == upserted(
            old(store)@,
            cfg.default_locale@,
            merged(
                table_of(old(store)@, cfg.default_locale@),
                extracted(found_views(found@), pair_views(overrides@), *cfg),
            ),
        ),
{
    let table = extract(found, overrides, cfg);
    merge_into_store(store, cfg.default_locale.as_str(), &table);
}

} // verus!
