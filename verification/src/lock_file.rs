//! The lock file: the lock state as a document.
//!
//! The document is a table. Under `plugins` it holds one table for each
//! plugin, by name, with the flag `initialized` and the table `map`, which
//! holds the plugin's own state: under each key an array of bytes, written
//! as integers.

use vstd::prelude::*;
use vstd::string::*;
use std::path::PathBuf;
use crate::codec::{
    lemma_entries_depth_bound, lemma_items_depth_bound, TransportError, MAX_DEPTH,
};
use crate::config::{
    as_held, float_free, parse, render_plain, toml_parsed, toml_written, ConfigError,
};
use crate::nesting::deepest;
use crate::lock::{
    captured_all, report_views, DioxusLock, PluginLockState, PluginRecord, PluginReport, Records,
};
use crate::string_map::{
    distinct_keys, has_key, lemma_map_of_at, lemma_map_of_push, map_of, StringMap,
};
use crate::table::{first_entry, first_place, lemma_first_place_front, lemma_first_place_second};
use crate::value::{
    entry_views, item_views, lemma_array_view, lemma_table_view, Tree, ValueTree,
};

verus! {

/// What is wrong with a document that is no lock file.
#[derive(Clone, Copy, Debug, PartialEq, Eq, Structural)]
pub enum LockFormatError {
    /// The document is not a table.
    NotTable,
    /// The document has no `plugins`.
    MissingPlugins,
    /// `plugins` is not a table.
    PluginsNotTable,
    /// What stands under a plugin's name is not a table.
    PluginNotTable,
    /// A plugin has no `initialized`.
    MissingInitialized,
    /// A plugin's `initialized` is not a boolean.
    InitializedNotBoolean,
    /// A plugin has no `map`.
    MissingMap,
    /// A plugin's `map` is not a table.
    MapNotTable,
    /// What stands under a key of a plugin's state is not an array.
    StateNotArray,
    /// An item of a plugin's state is not an integer.
    ByteNotInteger,
    /// An item of a plugin's state is an integer that is no byte.
    ByteOutOfRange,
}

/// What stands of one plugin in the lock state, in the order in which it is
/// written: the name, the flag, and the keys and bytes of the plugin's state.
pub type Listed = (Seq<char>, bool, Seq<(Seq<char>, Seq<u8>)>);

/// The array that holds `bytes`.
pub open spec fn bytes_tree(bytes: Seq<u8>) -> Tree {
    Tree::Array(Seq::new(bytes.len(), |i: int| Tree::Integer(bytes[i] as i64)))
}

/// The table that holds a plugin's own state.
pub open spec fn state_tree(state: Seq<(Seq<char>, Seq<u8>)>) -> Tree {
    Tree::Table(Seq::new(state.len(), |i: int| (state[i].0, bytes_tree(state[i].1))))
}

/// The table that holds what is remembered of one plugin.
pub open spec fn record_tree(initialized: bool, state: Seq<(Seq<char>, Seq<u8>)>) -> Tree {
    Tree::Table(seq![("initialized"@, Tree::Boolean(initialized)), ("map"@, state_tree(state))])
}

/// The table that holds the plugins.
pub open spec fn plugins_tree(listing: Seq<Listed>) -> Tree {
    Tree::Table(
        Seq::new(listing.len(), |i: int| (listing[i].0, record_tree(listing[i].1, listing[i].2))),
    )
}

/// The document of a lock state.
pub open spec fn lock_tree(listing: Seq<Listed>) -> Tree {
    Tree::Table(seq![("plugins"@, plugins_tree(listing))])
}

/// The byte that an item of a plugin's state holds.
pub open spec fn byte_of(item: Tree) -> Result<u8, LockFormatError> {
    match item {
        Tree::Integer(number) => if 0 <= number <= 255 {
            Ok(number as u8)
        } else {
            Err(LockFormatError::ByteOutOfRange)
        },
        _ => Err(LockFormatError::ByteNotInteger),
    }
}

/// The bytes that the items of an array hold; the first item that holds none
/// decides the error.
pub open spec fn bytes_of(items: Seq<Tree>) -> Result<Seq<u8>, LockFormatError>
    decreases items.len(),
{
    if items.len() == 0 {
        Ok(Seq::empty())
    } else {
        match bytes_of(items.drop_last()) {
            Err(e) => Err(e),
            Ok(front) => match byte_of(items.last()) {
                Err(e) => Err(e),
                Ok(byte) => Ok(front.push(byte)),
            },
        }
    }
}

/// The state that the entries of a `map` hold; of two entries with one key
/// the later one counts.
pub open spec fn state_of(entries: Seq<(Seq<char>, Tree)>) -> Result<
    Map<Seq<char>, Seq<u8>>,
    LockFormatError,
>
    decreases entries.len(),
{
    if entries.len() == 0 {
        Ok(Map::empty())
    } else {
        match state_of(entries.drop_last()) {
            Err(e) => Err(e),
            Ok(front) => match entries.last().1 {
                Tree::Array(items) => match bytes_of(items) {
                    Err(e) => Err(e),
                    Ok(bytes) => Ok(front.insert(entries.last().0, bytes)),
                },
                _ => Err(LockFormatError::StateNotArray),
            },
        }
    }
}

/// What a plugin's table holds. Of two fields with one name the first counts;
/// fields with other names are passed over.
pub open spec fn record_of_tree(tree: Tree) -> Result<PluginRecord, LockFormatError> {
    match tree {
        Tree::Table(fields) => match first_place(fields, "initialized"@) {
            None => Err(LockFormatError::MissingInitialized),
            Some(i) => match fields[i].1 {
                Tree::Boolean(initialized) => match first_place(fields, "map"@) {
                    None => Err(LockFormatError::MissingMap),
                    Some(j) => match fields[j].1 {
                        Tree::Table(entries) => match state_of(entries) {
                            Err(e) => Err(e),
                            Ok(state) => Ok(PluginRecord { initialized, state }),
                        },
                        _ => Err(LockFormatError::MapNotTable),
                    },
                },
                _ => Err(LockFormatError::InitializedNotBoolean),
            },
        },
        _ => Err(LockFormatError::PluginNotTable),
    }
}

/// The records that the entries of `plugins` hold; of two entries with one
/// name the later one counts.
pub open spec fn records_of(entries: Seq<(Seq<char>, Tree)>) -> Result<Records, LockFormatError>
    decreases entries.len(),
{
    if entries.len() == 0 {
        Ok(Map::empty())
    } else {
        match records_of(entries.drop_last()) {
            Err(e) => Err(e),
            Ok(front) => match record_of_tree(entries.last().1) {
                Err(e) => Err(e),
                Ok(record) => Ok(front.insert(entries.last().0, record)),
            },
        }
    }
}

/// The lock state that a document holds.
pub open spec fn lock_of_tree(tree: Tree) -> Result<Records, LockFormatError> {
    match tree {
        Tree::Table(fields) => match first_place(fields, "plugins"@) {
            None => Err(LockFormatError::MissingPlugins),
            Some(i) => match fields[i].1 {
                Tree::Table(entries) => records_of(entries),
                _ => Err(LockFormatError::PluginsNotTable),
            },
        },
        _ => Err(LockFormatError::NotTable),
    }
}

fn read_bytes(items: &Vec<ValueTree>) -> (outcome: Result<Vec<u8>, LockFormatError>)
    ensures
        match bytes_of(item_views(items@)) {
            Ok(bytes) => outcome matches Ok(got) && got@ == bytes,
            Err(e) => outcome matches Err(got) && got == e,
        },
{
    let ghost views = item_views(items@);
    let mut bytes: Vec<u8> = Vec::new();
    let mut i: usize = 0;
    assert(views.take(0) =~= Seq::<Tree>::empty());
    while i < items.len()
        invariant
            i <= items.len(),
            views == item_views(items@),
            bytes_of(views.take(i as int)) == Ok::<Seq<u8>, LockFormatError>(bytes@),
        decreases items.len() - i,
    {
        assert(views.take(i + 1).drop_last() =~= views.take(i as int));
        assert(views.take(i + 1).last() == items@[i as int]@);
        match &items[i] {
            ValueTree::Integer(number) => {
                if 0 <= *number && *number <= 255 {
                    bytes.push(*number as u8);
                } else {
                    proof {
                        lemma_bytes_error_stays(views, i as int);
                    }
                    return Err(LockFormatError::ByteOutOfRange);
                }
            },
            _ => {
                proof {
                    lemma_bytes_error_stays(views, i as int);
                }
                return Err(LockFormatError::ByteNotInteger);
            },
        }
        i += 1;
    }
    assert(views.take(i as int) =~= views);
    Ok(bytes)
}

/// An error among the first items is the error of the whole array.
proof fn lemma_bytes_error_stays(items: Seq<Tree>, i: int)
    requires
        0 <= i < items.len(),
        bytes_of(items.take(i + 1)) is Err,
    ensures
        bytes_of(items) == bytes_of(items.take(i + 1)),
    decreases items.len() - i,
{
    if i + 1 < items.len() {
        assert(items.take(i + 2).drop_last() =~= items.take(i + 1));
        lemma_bytes_error_stays(items, i + 1);
    } else {
        assert(items.take(i + 1) =~= items);
    }
}

/// An error among the first entries of a state is the error of the whole.
proof fn lemma_state_error_stays(entries: Seq<(Seq<char>, Tree)>, i: int)
    requires
        0 <= i < entries.len(),
        state_of(entries.take(i + 1)) is Err,
    ensures
        state_of(entries) == state_of(entries.take(i + 1)),
    decreases entries.len() - i,
{
    if i + 1 < entries.len() {
        assert(entries.take(i + 2).drop_last() =~= entries.take(i + 1));
        lemma_state_error_stays(entries, i + 1);
    } else {
        assert(entries.take(i + 1) =~= entries);
    }
}

/// An error among the first plugins is the error of the whole.
proof fn lemma_records_error_stays(entries: Seq<(Seq<char>, Tree)>, i: int)
    requires
        0 <= i < entries.len(),
        records_of(entries.take(i + 1)) is Err,
    ensures
        records_of(entries) == records_of(entries.take(i + 1)),
    decreases entries.len() - i,
{
    if i + 1 < entries.len() {
        assert(entries.take(i + 2).drop_last() =~= entries.take(i + 1));
        lemma_records_error_stays(entries, i + 1);
    } else {
        assert(entries.take(i + 1) =~= entries);
    }
}

fn read_state(entries: &Vec<(String, ValueTree)>) -> (outcome: Result<
    StringMap<Vec<u8>>,
    LockFormatError,
>)
    ensures
        match state_of(entry_views(entries@)) {
            Ok(state) => outcome matches Ok(got) && got@ == state,
            Err(e) => outcome matches Err(got) && got == e,
        },
{
    let ghost views = entry_views(entries@);
    let mut state: StringMap<Vec<u8>> = StringMap::new();
    let mut i: usize = 0;
    assert(views.take(0) =~= Seq::<(Seq<char>, Tree)>::empty());
    while i < entries.len()
        invariant
            i <= entries.len(),
            views == entry_views(entries@),
            state_of(views.take(i as int)) == Ok::<Map<Seq<char>, Seq<u8>>, LockFormatError>(
                state@,
            ),
        decreases entries.len() - i,
    {
        assert(views.take(i + 1).drop_last() =~= views.take(i as int));
        assert(views.take(i + 1).last() == views[i as int]);
        match &entries[i].1 {
            ValueTree::Array(items) => {
                proof {
                    lemma_array_view(*items);
                }
                match read_bytes(items) {
                    Err(e) => {
                        proof {
                            lemma_state_error_stays(views, i as int);
                        }
                        return Err(e);
                    },
                    Ok(bytes) => {
                        let _ = state.insert(entries[i].0.as_str(), bytes);
                    },
                }
            },
            _ => {
                proof {
                    lemma_state_error_stays(views, i as int);
                }
                return Err(LockFormatError::StateNotArray);
            },
        }
        i += 1;
    }
    assert(views.take(i as int) =~= views);
    Ok(state)
}

#[verifier::rlimit(40)]
fn read_record(tree: &ValueTree) -> (outcome: Result<PluginLockState, LockFormatError>)
    ensures
        match record_of_tree(tree@) {
            Ok(record) => outcome matches Ok(got) && got@ == record,
            Err(e) => outcome matches Err(got) && got == e,
        },
{
    let fields = match tree {
        ValueTree::Table(fields) => fields,
        _ => {
            return Err(LockFormatError::PluginNotTable);
        },
    };
    proof {
        lemma_table_view(*fields);
    }
    let initialized = match first_entry(fields, "initialized") {
        None => {
            return Err(LockFormatError::MissingInitialized);
        },
        Some(ValueTree::Boolean(flag)) => *flag,
        Some(_) => {
            return Err(LockFormatError::InitializedNotBoolean);
        },
    };
    let entries = match first_entry(fields, "map") {
        None => {
            return Err(LockFormatError::MissingMap);
        },
        Some(ValueTree::Table(entries)) => entries,
        Some(_) => {
            return Err(LockFormatError::MapNotTable);
        },
    };
    proof {
        lemma_table_view(*entries);
    }
    match read_state(entries) {
        Err(e) => Err(e),
        Ok(map) => Ok(PluginLockState { initialized, map }),
    }
}

fn read_records(entries: &Vec<(String, ValueTree)>) -> (outcome: Result<
    StringMap<PluginLockState>,
    LockFormatError,
>)
    ensures
        match records_of(entry_views(entries@)) {
            Ok(records) => outcome matches Ok(got) && got@ == records,
            Err(e) => outcome matches Err(got) && got == e,
        },
{
    let ghost views = entry_views(entries@);
    let mut records: StringMap<PluginLockState> = StringMap::new();
    let mut i: usize = 0;
    assert(views.take(0) =~= Seq::<(Seq<char>, Tree)>::empty());
    while i < entries.len()
        invariant
            i <= entries.len(),
            views == entry_views(entries@),
            records_of(views.take(i as int)) == Ok::<Records, LockFormatError>(records@),
        decreases entries.len() - i,
    {
        assert(views.take(i + 1).drop_last() =~= views.take(i as int));
        assert(views.take(i + 1).last() == views[i as int]);
        match read_record(&entries[i].1) {
            Err(e) => {
                proof {
                    lemma_records_error_stays(views, i as int);
                }
                return Err(e);
            },
            Ok(record) => {
                let _ = records.insert(entries[i].0.as_str(), record);
            },
        }
        i += 1;
    }
    assert(views.take(i as int) =~= views);
    Ok(records)
}

impl DioxusLock {
    /// The lock state that the document `tree` holds, for the lock file at
    /// `path`.
    #[verifier::rlimit(40)]
    pub fn from_tree(path: PathBuf, tree: &ValueTree) -> (outcome: Result<Self, LockFormatError>)
        ensures
            match lock_of_tree(tree@) {
                Ok(records) => outcome matches Ok(lock) && lock@ == records && lock.path == path,
                Err(e) => outcome matches Err(got) && got == e,
            },
    {
        let fields = match tree {
            ValueTree::Table(fields) => fields,
            _ => {
                return Err(LockFormatError::NotTable);
            },
        };
        proof {
            lemma_table_view(*fields);
        }
        let entries = match first_entry(fields, "plugins") {
            None => {
                return Err(LockFormatError::MissingPlugins);
            },
            Some(ValueTree::Table(entries)) => entries,
            Some(_) => {
                return Err(LockFormatError::PluginsNotTable);
            },
        };
        proof {
            lemma_table_view(*entries);
        }
        match read_records(entries) {
            Err(e) => Err(e),
            Ok(plugins) => Ok(DioxusLock { path, plugins }),
        }
    }
}

/// The records that a listing stands for.
pub open spec fn listed_records(listing: Seq<Listed>) -> Seq<(Seq<char>, PluginRecord)> {
    Seq::new(
        listing.len(),
        |i: int|
            (listing[i].0, PluginRecord { initialized: listing[i].1, state: map_of(listing[i].2) }),
    )
}

/// The array of some bytes holds those bytes.
pub proof fn lemma_bytes_read_back(bytes: Seq<u8>)
    ensures
        bytes_of(bytes_tree(bytes)->Array_0) == Ok::<Seq<u8>, LockFormatError>(bytes),
    decreases bytes.len(),
{
    let items = bytes_tree(bytes)->Array_0;
    if bytes.len() == 0 {
        assert(items.len() == 0);
        assert(bytes =~= Seq::<u8>::empty());
    } else {
        lemma_bytes_read_back(bytes.drop_last());
        assert(items.drop_last() =~= bytes_tree(bytes.drop_last())->Array_0);
        assert(items.last() == Tree::Integer(bytes.last() as i64));
        assert(bytes.drop_last().push(bytes.last()) =~= bytes);
    }
}

/// The table of a plugin's state holds that state.
#[verifier::rlimit(40)]
pub proof fn lemma_state_reads_back(state: Seq<(Seq<char>, Seq<u8>)>)
    requires
        distinct_keys(state),
    ensures
        state_of(state_tree(state)->Table_0) == Ok::<Map<Seq<char>, Seq<u8>>, LockFormatError>(
            map_of(state),
        ),
    decreases state.len(),
{
    let entries = state_tree(state)->Table_0;
    if state.len() == 0 {
        assert(entries.len() == 0);
        assert(map_of(state) =~= Map::<Seq<char>, Seq<u8>>::empty());
    } else {
        let front = state.drop_last();
        let last = state.last();
        assert forall|i: int, j: int|
            0 <= i < front.len() && 0 <= j < front.len() && i != j implies (#[trigger] front[i]).0
            != (#[trigger] front[j]).0 by {
            assert(front[i] == state[i]);
            assert(front[j] == state[j]);
        }
        lemma_state_reads_back(front);
        assert(entries.drop_last() =~= state_tree(front)->Table_0);
        assert(entries.last() == (last.0, bytes_tree(last.1)));
        lemma_bytes_read_back(last.1);
        assert(!has_key(front, last.0)) by {
            if has_key(front, last.0) {
                let k = choose|k: int| 0 <= k < front.len() && (#[trigger] front[k]).0 == last.0;
                assert(front[k] == state[k]);
                assert(state[k].0 != state[state.len() - 1].0);
            }
        }
        lemma_map_of_push(front, last.0, last.1);
        assert(front.push((last.0, last.1)) =~= state);
    }
}

/// The table of one plugin holds its record.
pub proof fn lemma_record_reads_back(initialized: bool, state: Seq<(Seq<char>, Seq<u8>)>)
    requires
        distinct_keys(state),
    ensures
        record_of_tree(record_tree(initialized, state)) == Ok::<PluginRecord, LockFormatError>(
            PluginRecord { initialized, state: map_of(state) },
        ),
{
    let fields = record_tree(initialized, state)->Table_0;
    reveal_strlit("initialized");
    reveal_strlit("map");
    assert("initialized"@.len() != "map"@.len());
    lemma_first_place_front(fields, "initialized"@);
    lemma_first_place_second(fields, "map"@);
    lemma_state_reads_back(state);
}

/// The table of the plugins holds their records.
#[verifier::rlimit(40)]
pub proof fn lemma_records_read_back(listing: Seq<Listed>)
    requires
        distinct_keys(listed_records(listing)),
        forall|i: int| 0 <= i < listing.len() ==> distinct_keys((#[trigger] listing[i]).2),
    ensures
        records_of(plugins_tree(listing)->Table_0) == Ok::<Records, LockFormatError>(
            map_of(listed_records(listing)),
        ),
    decreases listing.len(),
{
    let entries = plugins_tree(listing)->Table_0;
    let records = listed_records(listing);
    if listing.len() == 0 {
        assert(entries.len() == 0);
        assert(map_of(records) =~= Map::<Seq<char>, PluginRecord>::empty());
    } else {
        let front = listing.drop_last();
        let last = listing.last();
        assert(listed_records(front) =~= records.drop_last());
        assert forall|i: int, j: int|
            0 <= i < records.drop_last().len() && 0 <= j < records.drop_last().len() && i
                != j implies (#[trigger] records.drop_last()[i]).0 != (
        #[trigger] records.drop_last()[j]).0 by {
            assert(records.drop_last()[i] == records[i]);
            assert(records.drop_last()[j] == records[j]);
        }
        assert forall|i: int| 0 <= i < front.len() implies distinct_keys(
            (#[trigger] front[i]).2,
        ) by {
            assert(front[i] == listing[i]);
        }
        lemma_records_read_back(front);
        assert(entries.drop_last() =~= plugins_tree(front)->Table_0);
        assert(entries.last() == (last.0, record_tree(last.1, last.2)));
        lemma_record_reads_back(last.1, last.2);
        let record = PluginRecord { initialized: last.1, state: map_of(last.2) };
        assert(!has_key(records.drop_last(), last.0)) by {
            if has_key(records.drop_last(), last.0) {
                let k = choose|k: int|
                    0 <= k < records.drop_last().len() && (#[trigger] records.drop_last()[k]).0
                        == last.0;
                assert(records.drop_last()[k] == records[k]);
                assert(records[k].0 != records[records.len() - 1].0);
            }
        }
        lemma_map_of_push(records.drop_last(), last.0, record);
        assert(records.drop_last().push((last.0, record)) =~= records);
    }
}

/// Reading gives back what was written: the document of a lock state holds
/// that lock state.
pub proof fn lemma_lock_reads_back(listing: Seq<Listed>)
    requires
        distinct_keys(listed_records(listing)),
        forall|i: int| 0 <= i < listing.len() ==> distinct_keys((#[trigger] listing[i]).2),
    ensures
        lock_of_tree(lock_tree(listing)) == Ok::<Records, LockFormatError>(
            map_of(listed_records(listing)),
        ),
{
    let fields = lock_tree(listing)->Table_0;
    lemma_first_place_front(fields, "plugins"@);
    lemma_records_read_back(listing);
}

fn bytes_to_tree(bytes: &Vec<u8>) -> (tree: ValueTree)
    ensures
        tree@ == bytes_tree(bytes@),
{
    let mut items: Vec<ValueTree> = Vec::new();
    let mut i: usize = 0;
    while i < bytes.len()
        invariant
            i <= bytes.len(),
            items.len() == i,
            forall|j: int| 0 <= j < i ==> (#[trigger] items@[j])@ == Tree::Integer(bytes@[j] as i64),
        decreases bytes.len() - i,
    {
        items.push(ValueTree::Integer(bytes[i] as i64));
        i += 1;
    }
    proof {
        lemma_array_view(items);
        assert(item_views(items@) =~= bytes_tree(bytes@)->Array_0);
    }
    ValueTree::Array(items)
}

fn state_to_tree(state: &StringMap<Vec<u8>>) -> (tree: ValueTree)
    ensures
        tree@ == state_tree(state.entries()),
        distinct_keys(state.entries()),
{
    let mut entries: Vec<(String, ValueTree)> = Vec::new();
    let count = state.len();
    let mut i: usize = 0;
    while i < count
        invariant
            i <= count,
            count == state.entries().len(),
            entries.len() == i,
            forall|j: int|
                0 <= j < i ==> (#[trigger] entries@[j]).0@ == state.entries()[j].0
                    && entries@[j].1@ == bytes_tree(state.entries()[j].1),
        decreases count - i,
    {
        let key = state.key_at(i).clone();
        let bytes = bytes_to_tree(state.value_at(i));
        entries.push((key, bytes));
        i += 1;
    }
    proof {
        lemma_table_view(entries);
        assert(entry_views(entries@) =~= state_tree(state.entries())->Table_0);
    }
    ValueTree::Table(entries)
}

fn record_to_tree(record: &PluginLockState) -> (tree: ValueTree)
    ensures
        tree@ == record_tree(record.initialized, record.map.entries()),
        distinct_keys(record.map.entries()),
{
    let mut fields: Vec<(String, ValueTree)> = Vec::new();
    fields.push(("initialized".to_owned(), ValueTree::Boolean(record.initialized)));
    fields.push(("map".to_owned(), state_to_tree(&record.map)));
    proof {
        lemma_table_view(fields);
        assert(entry_views(fields@) =~= record_tree(
            record.initialized,
            record.map.entries(),
        )->Table_0);
    }
    ValueTree::Table(fields)
}

impl DioxusLock {
    /// The plugins in the order in which they are written.
    pub open spec fn listing(&self) -> Seq<Listed> {
        Seq::new(
            self.plugins.entries().len(),
            |i: int|
                (
                    self.plugins.entries()[i].0,
                    self.plugins.values()[i].initialized,
                    self.plugins.values()[i].map.entries(),
                ),
        )
    }

    /// The document of this lock state. Reading it gives the lock state back.
    pub fn to_tree(&self) -> (tree: ValueTree)
        ensures
            tree@ == lock_tree(self.listing()),
            lock_of_tree(tree@) == Ok::<Records, LockFormatError>(self@),
    {
        let ghost listing = self.listing();
        let mut plugins: Vec<(String, ValueTree)> = Vec::new();
        let count = self.plugins.len();
        let mut i: usize = 0;
        while i < count
            invariant
                i <= count,
                count == self.plugins.entries().len(),
                count == self.plugins.values().len(),
                listing == self.listing(),
                plugins.len() == i,
                forall|j: int|
                    0 <= j < i ==> (#[trigger] plugins@[j]).0@ == listing[j].0 && plugins@[j].1@
                        == record_tree(listing[j].1, listing[j].2),
                forall|j: int| 0 <= j < i ==> distinct_keys((#[trigger] listing[j]).2),
            decreases count - i,
        {
            let name = self.plugins.key_at(i).clone();
            let record = record_to_tree(self.plugins.value_at(i));
            plugins.push((name, record));
            i += 1;
        }
        proof {
            lemma_table_view(plugins);
            assert(entry_views(plugins@) =~= plugins_tree(listing)->Table_0);
        }
        let mut fields: Vec<(String, ValueTree)> = Vec::new();
        fields.push(("plugins".to_owned(), ValueTree::Table(plugins)));
        proof {
            lemma_table_view(fields);
            assert(entry_views(fields@) =~= lock_tree(listing)->Table_0);
            assert(listed_records(listing) =~= self.plugins.entries());
            lemma_lock_reads_back(listing);
        }
        ValueTree::Table(fields)
    }
}

/// The document of a lock state holds no float and no datetime, and is
/// nested six deep at most.
#[verifier::rlimit(40)]
pub proof fn lemma_lock_tree_plain(listing: Seq<Listed>)
    ensures
        float_free(lock_tree(listing)),
        lock_tree(listing).datetimes_representable(),
        lock_tree(listing).depth() <= 6,
{
    let plugins = plugins_tree(listing)->Table_0;
    assert forall|i: int| 0 <= i < plugins.len() implies float_free((#[trigger] plugins[i]).1)
        && plugins[i].1.datetimes_representable() && plugins[i].1.depth() <= 4 by {
        let fields = record_tree(listing[i].1, listing[i].2)->Table_0;
        let states = state_tree(listing[i].2)->Table_0;
        assert forall|k: int| 0 <= k < states.len() implies float_free((#[trigger] states[k]).1)
            && states[k].1.datetimes_representable() && states[k].1.depth() <= 2 by {
            let items = bytes_tree(listing[i].2[k].1)->Array_0;
            assert forall|b: int| 0 <= b < items.len() implies float_free(#[trigger] items[b])
                && items[b].datetimes_representable() && items[b].depth() <= 1 by {}
            lemma_items_depth_bound(items, 1);
            assert(states[k].1 == Tree::Array(items));
        }
        lemma_entries_depth_bound(states, 2);
        assert(state_tree(listing[i].2).depth() <= 3);
        assert forall|k: int| 0 <= k < fields.len() implies float_free((#[trigger] fields[k]).1)
            && fields[k].1.datetimes_representable() && fields[k].1.depth() <= 3 by {}
        lemma_entries_depth_bound(fields, 3);
        assert(plugins[i].1 == Tree::Table(fields));
    }
    lemma_entries_depth_bound(plugins, 4);
    assert(plugins_tree(listing).depth() <= 5);
    let root = lock_tree(listing)->Table_0;
    assert forall|k: int| 0 <= k < root.len() implies float_free((#[trigger] root[k]).1)
        && root[k].1.datetimes_representable() && root[k].1.depth() <= 5 by {}
    lemma_entries_depth_bound(root, 5);
}

/// Why the lock file could not be loaded or saved. `location` says which
/// file it was.
#[derive(Debug, PartialEq, Eq)]
pub enum LockError {
    /// The file does not hold a document.
    Unreadable { location: String, cause: ConfigError },
    /// The file holds a document that is no lock state.
    Malformed { location: String, format: LockFormatError },
    /// The lock state could not be written as a document.
    Unwritable { location: String, cause: ConfigError },
}

/// Which of the two names the lock file has.
#[derive(Clone, Copy, Debug, PartialEq, Eq, Structural)]
pub enum LockFileName {
    /// `Dioxus.lock`, the name that is preferred and that a new file gets.
    Uppercase,
    /// `dioxus.lock`.
    Lowercase,
}

impl LockFileName {
    /// The name as it stands in the project's root.
    pub fn file_name(&self) -> (name: &'static str)
        ensures
            name@ == match self {
                LockFileName::Uppercase => "Dioxus.lock"@,
                LockFileName::Lowercase => "dioxus.lock"@,
            },
    {
        match self {
            LockFileName::Uppercase => "Dioxus.lock",
            LockFileName::Lowercase => "dioxus.lock",
        }
    }
}

/// Picks the lock file of a project, given which of the two names is the name
/// of a file in the project's root: the uppercase name is preferred, the
/// lowercase one is fine too, and with neither there is no lock file.
pub fn acquire_dioxus_lock(uppercase_is_file: bool, lowercase_is_file: bool) -> (found: Option<
    LockFileName,
>)
    ensures
        found == if uppercase_is_file {
            Some(LockFileName::Uppercase)
        } else if lowercase_is_file {
            Some(LockFileName::Lowercase)
        } else {
            None::<LockFileName>
        },
{
    if uppercase_is_file {
        return Some(LockFileName::Uppercase);
    }
    if lowercase_is_file {
        return Some(LockFileName::Lowercase);
    }
    None
}

/// What loading gives for the text of a lock file.
pub open spec fn loaded_as(
    outcome: Result<DioxusLock, LockError>,
    path: PathBuf,
    text: Seq<char>,
    location: Seq<char>,
) -> bool {
    if deepest(text) > MAX_DEPTH {
        outcome matches Err(LockError::Unreadable { location: at, cause }) && at@ == location
            && cause == ConfigError::Transport(TransportError::TooDeep)
    } else {
        match toml_parsed(text) {
            None => outcome matches Err(LockError::Unreadable { location: at, cause })
                && at@ == location && cause matches ConfigError::Syntax(_),
            Some(tree) => if tree.depth() > MAX_DEPTH {
                outcome matches Err(LockError::Unreadable { location: at, cause })
                    && at@ == location && cause == ConfigError::Transport(
                    TransportError::TooDeep,
                )
            } else {
                match lock_of_tree(tree) {
                    Ok(records) => outcome matches Ok(lock) && lock@ == records && lock.path
                        == path,
                    Err(e) => outcome matches Err(LockError::Malformed { location: at, format })
                        && at@ == location && format == e,
                }
            },
        }
    }
}

impl DioxusLock {
    /// Loads the lock state of a project. `text` is what the lock file holds,
    /// `None` where the project has no lock file: that is an empty lock state
    /// and no error. `location` names the file in an error.
    pub fn load(path: PathBuf, text: Option<&str>, location: &str) -> (outcome: Result<
        Self,
        LockError,
    >)
        ensures
            match text {
                None => outcome matches Ok(lock) && lock@ == Map::<Seq<char>, PluginRecord>::empty()
                    && lock.path == path,
                Some(held) => loaded_as(outcome, path, held@, location@),
            },
    {
        let held = match text {
            None => {
                return Ok(Self::new(path));
            },
            Some(held) => held,
        };
        let tree = match parse(held) {
            Err(cause) => {
                return Err(LockError::Unreadable { location: location.to_owned(), cause });
            },
            Ok(tree) => tree,
        };
        match Self::from_tree(path, &tree) {
            Ok(lock) => Ok(lock),
            Err(format) => Err(LockError::Malformed { location: location.to_owned(), format }),
        }
    }

    /// The text of the lock file for this lock state.
    pub fn to_text(&self, location: &str) -> (outcome: Result<String, LockError>)
        ensures
            match toml_written(as_held(lock_tree(self.listing()))) {
                Some(text) => outcome matches Ok(got) && got@ == text,
                None => outcome matches Err(LockError::Unwritable { location: at, cause })
                    && at@ == location@,
            },
    {
        let tree = self.to_tree();
        proof {
            lemma_lock_tree_plain(self.listing());
        }
        match render_plain(&tree) {
            Ok(text) => Ok(text),
            Err(cause) => Err(LockError::Unwritable { location: location.to_owned(), cause }),
        }
    }

    /// Saves the lock state: where plugins are given, their states are
    /// captured first; then the text of the whole lock file is made, which is
    /// to replace the file in one step. `location` names the file in an error.
    pub fn save(&mut self, plugins: Option<&Vec<PluginReport>>, location: &str) -> (outcome:
        Result<String, LockError>)
        ensures
            final(self)@ == match plugins {
                Some(reports) => captured_all(old(self)@, report_views(reports@)),
                None => old(self)@,
            },
            final(self).path == old(self).path,
            match toml_written(as_held(lock_tree(final(self).listing()))) {
                Some(text) => outcome matches Ok(got) && got@ == text,
                None => outcome matches Err(LockError::Unwritable { location: at, cause })
                    && at@ == location@,
            },
    {
        match plugins {
            Some(reports) => {
                self.capture_all(reports);
            },
            None => {},
        }
        self.to_text(location)
    }
}

} // verus!
