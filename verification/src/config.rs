//! Configuration values as the host holds them, and as plugins see them.
//!
//! The host reads its configuration with the `toml` crate. What it hands to a
//! plugin is a structured value of this library. The change from one to the
//! other is explicit: `from_toml` and `to_toml` walk the value node by node,
//! `parse` and `render` go from and to text.
//!
//! A table of this library keeps its entries in the order in which they were
//! given, and may hold a key twice. A table of the `toml` crate holds each
//! key once, in the order of the keys. So on the way to TOML the last entry
//! of a key is the one that stays; `keyed` states this, and `as_held` is what
//! becomes of a whole value.

use vstd::prelude::*;
use crate::keyed::{lemma_collected_is_among, put, toml_collected};
use crate::codec::{
    datetimes_representable, depth_within, entries_depth, items_depth, lemma_entries_depth_bound,
    lemma_items_depth_bound, TransportError, MAX_DEPTH,
};
use crate::nesting::{deepest, nests_within};
use crate::text::chars_of;
use crate::value::{
    entry_views, item_views, lemma_array_view, lemma_table_view, Date, DateTime, Offset, Time,
    Tree, ValueTree,
};

verus! {

/// `toml::Value`, a value of a TOML document. It is carried as it is; what
/// it holds is told by `toml_tree`.
#[verifier::external_type_specification]
#[verifier::external_body]
pub struct ExTomlValue(toml::Value);

/// `toml::map::Map`, the table of a TOML document. What it holds is told
/// by `toml_entries`.
#[verifier::external_type_specification]
#[verifier::external_body]
#[verifier::reject_recursive_types(K)]
#[verifier::reject_recursive_types(V)]
pub struct ExTomlTable<K, V>(toml::map::Map<K, V>);

/// `toml::value::Datetime`. What it holds is told by `toml_datetime`.
#[verifier::external_type_specification]
#[verifier::external_body]
pub struct ExTomlDatetime(toml::value::Datetime);

/// `toml::de::Error`, why a text is not TOML. Nothing is said of it but its
/// message.
#[verifier::external_type_specification]
#[verifier::external_body]
pub struct ExTomlReadError(toml::de::Error);

/// `toml::ser::Error`, why a value was not written. Nothing is said of it but
/// its message.
#[verifier::external_type_specification]
#[verifier::external_body]
pub struct ExTomlWriteError(toml::ser::Error);

/// What a value of the `toml` crate holds, as a tree. The entries of a table
/// stand in the order in which the table hands them out.
pub uninterp spec fn toml_tree(value: toml::Value) -> Tree;

/// What a table of the `toml` crate holds: its keys and what their values
/// hold, in the order in which the table hands them out.
pub uninterp spec fn toml_entries(table: toml::map::Map<String, toml::Value>) -> Seq<
    (Seq<char>, Tree),
>;

/// What a datetime of the `toml` crate holds.
pub uninterp spec fn toml_datetime(datetime: toml::value::Datetime) -> DateTime;

/// The value that a text holds when read as TOML, `None` where the text is
/// not TOML.
pub uninterp spec fn toml_parsed(text: Seq<char>) -> Option<Tree>;

/// The TOML text of a value, `None` where the `toml` crate refuses to write
/// the value.
pub uninterp spec fn toml_written(tree: Tree) -> Option<Seq<char>>;

/// One node of a value of the `toml` crate, with what stands below it still
/// in the crate's own types.
pub enum TomlNode<'a> {
    String(&'a String),
    Integer(i64),
    Float(u64),
    Boolean(bool),
    Datetime(&'a toml::value::Datetime),
    Array(&'a Vec<toml::Value>),
    Table(&'a toml::map::Map<String, toml::Value>),
}

/// The trees that the values of an array of the `toml` crate hold.
pub open spec fn toml_trees(items: Seq<toml::Value>) -> Seq<Tree> {
    Seq::new(items.len(), |i: int| toml_tree(items[i]))
}

/// What a node says of the tree that its value holds.
pub open spec fn node_tree(node: TomlNode<'_>) -> Tree {
    match node {
        TomlNode::String(text) => Tree::String(text@),
        TomlNode::Integer(number) => Tree::Integer(number),
        TomlNode::Float(bits) => Tree::Float(bits),
        TomlNode::Boolean(flag) => Tree::Boolean(flag),
        TomlNode::Datetime(datetime) => Tree::DateTime(toml_datetime(*datetime)),
        TomlNode::Array(items) => Tree::Array(toml_trees(items@)),
        TomlNode::Table(table) => Tree::Table(toml_entries(*table)),
    }
}

/// Tells the variants of `toml::Value` apart. Each arm hands on what the
/// variant holds: a float by the bits that `to_bits` gives, the others as
/// they are. The tree of the value is the tree of that node.
#[verifier::external_body]
fn node_of<'a>(value: &'a toml::Value) -> (node: TomlNode<'a>)
    ensures
        toml_tree(*value) == node_tree(node),
{
    match value {
        toml::Value::String(text) => TomlNode::String(text),
        toml::Value::Integer(number) => TomlNode::Integer(*number),
        toml::Value::Float(number) => TomlNode::Float(number.to_bits()),
        toml::Value::Boolean(flag) => TomlNode::Boolean(*flag),
        toml::Value::Datetime(datetime) => TomlNode::Datetime(datetime),
        toml::Value::Array(items) => TomlNode::Array(items),
        toml::Value::Table(table) => TomlNode::Table(table),
    }
}

/// `toml::map::Map::iter`, collected: the keys and values of a table, in
/// the order in which the table hands them out.
#[verifier::external_body]
fn table_items<'a>(table: &'a toml::map::Map<String, toml::Value>) -> (items: Vec<
    (&'a String, &'a toml::Value),
>)
    ensures
        items@.len() == toml_entries(*table).len(),
        forall|i: int|
            0 <= i < items@.len() ==> (#[trigger] items@[i]).0@ == toml_entries(*table)[i].0
                && toml_tree(*items@[i].1) == toml_entries(*table)[i].1,
{
    table.iter().collect()
}

/// The `date` field of a `toml::value::Datetime`, copied field by field.
#[verifier::external_body]
fn date_of(datetime: &toml::value::Datetime) -> (date: Option<Date>)
    ensures
        date == toml_datetime(*datetime).date,
{
    datetime.date.as_ref().map(|d| Date { year: d.year, month: d.month, day: d.day })
}

/// The `time` field of a `toml::value::Datetime`, copied field by field.
#[verifier::external_body]
fn time_of(datetime: &toml::value::Datetime) -> (time: Option<Time>)
    ensures
        time == toml_datetime(*datetime).time,
{
    datetime.time.as_ref().map(
        |t| Time { hour: t.hour, minute: t.minute, second: t.second, nanosecond: t.nanosecond },
    )
}

/// The `offset` field of a `toml::value::Datetime`, copied variant by
/// variant.
#[verifier::external_body]
fn offset_of(datetime: &toml::value::Datetime) -> (offset: Option<Offset>)
    ensures
        offset == toml_datetime(*datetime).offset,
{
    match &datetime.offset {
        None => None,
        Some(toml::value::Offset::Z) => Some(Offset::Z),
        Some(toml::value::Offset::Custom { hours, minutes }) => Some(
            Offset::Custom { hours: *hours, minutes: *minutes },
        ),
    }
}

/// The `FromStr` of `toml::Value`, which reads a text as a TOML document. It
/// follows nested arrays and inline tables, and the tables that the dots of
/// a key open, by recursion, so it is given texts only that nest within a
/// limit.
#[verifier::external_body]
fn parse_toml(text: &str) -> (outcome: Result<toml::Value, toml::de::Error>)
    requires
        deepest(text@) <= MAX_DEPTH,
    ensures
        match outcome {
            Ok(value) => toml_parsed(text@) == Some(toml_tree(value)),
            Err(_) => toml_parsed(text@) is None,
        },
{
    text.parse::<toml::Value>()
}

fn datetime_of(datetime: &toml::value::Datetime) -> (made: DateTime)
    ensures
        made == toml_datetime(*datetime),
{
    DateTime { date: date_of(datetime), time: time_of(datetime), offset: offset_of(datetime) }
}

/// The structured value that a value of the `toml` crate holds, when it is
/// nested at most `depth` deep.
pub fn from_toml(value: &toml::Value, depth: usize) -> (outcome: Result<ValueTree, TransportError>)
    ensures
        match outcome {
            Ok(tree) => tree@ == toml_tree(*value) && tree@.depth() <= depth,
            Err(e) => e == TransportError::TooDeep && toml_tree(*value).depth() > depth,
        },
    decreases depth, 0nat,
{
    if depth == 0 {
        return Err(TransportError::TooDeep);
    }
    match node_of(value) {
        TomlNode::String(text) => Ok(ValueTree::String(text.clone())),
        TomlNode::Integer(number) => Ok(ValueTree::Integer(number)),
        TomlNode::Float(bits) => Ok(ValueTree::Float(bits)),
        TomlNode::Boolean(flag) => Ok(ValueTree::Boolean(flag)),
        TomlNode::Datetime(datetime) => Ok(ValueTree::DateTime(datetime_of(datetime))),
        TomlNode::Array(items) => {
            match items_from_toml(items, depth - 1) {
                Err(e) => {
                    proof {
                        crate::codec::lemma_items_depth_bound(toml_trees(items@), (depth - 1) as nat);
                    }
                    Err(e)
                },
                Ok(trees) => {
                    proof {
                        lemma_array_view(trees);
                        crate::codec::lemma_items_depth_bound(toml_trees(items@), (depth - 1) as nat);
                    }
                    Ok(ValueTree::Array(trees))
                },
            }
        },
        TomlNode::Table(table) => {
            match entries_from_toml(table, depth - 1) {
                Err(e) => {
                    proof {
                        crate::codec::lemma_entries_depth_bound(
                            toml_entries(*table),
                            (depth - 1) as nat,
                        );
                    }
                    Err(e)
                },
                Ok(entries) => {
                    proof {
                        lemma_table_view(entries);
                        crate::codec::lemma_entries_depth_bound(
                            toml_entries(*table),
                            (depth - 1) as nat,
                        );
                    }
                    Ok(ValueTree::Table(entries))
                },
            }
        },
    }
}

#[verifier::loop_isolation(false)]
fn items_from_toml(items: &Vec<toml::Value>, depth: usize) -> (outcome: Result<
    Vec<ValueTree>,
    TransportError,
>)
    ensures
        match outcome {
            Ok(trees) => item_views(trees@) == toml_trees(items@) && forall|i: int|
                0 <= i < items@.len() ==> (#[trigger] toml_trees(items@)[i]).depth() <= depth,
            Err(e) => e == TransportError::TooDeep && exists|i: int|
                0 <= i < items@.len() && (#[trigger] toml_trees(items@)[i]).depth() > depth,
        },
    decreases depth, 1nat,
{
    let mut trees: Vec<ValueTree> = Vec::new();
    let mut i: usize = 0;
    while i < items.len()
        invariant
            i <= items.len(),
            trees.len() == i,
            forall|j: int| 0 <= j < i ==> (#[trigger] trees@[j])@ == toml_tree(items@[j]),
            forall|j: int| 0 <= j < i ==> (#[trigger] toml_trees(items@)[j]).depth() <= depth,
        decreases items.len() - i,
    {
        match from_toml(&items[i], depth) {
            Err(e) => {
                assert(toml_trees(items@)[i as int].depth() > depth);
                return Err(e);
            },
            Ok(tree) => {
                assert(toml_trees(items@)[i as int].depth() <= depth);
                trees.push(tree);
            },
        }
        i += 1;
    }
    assert(item_views(trees@) =~= toml_trees(items@));
    Ok(trees)
}

#[verifier::loop_isolation(false)]
fn entries_from_toml(table: &toml::map::Map<String, toml::Value>, depth: usize) -> (outcome:
    Result<Vec<(String, ValueTree)>, TransportError>)
    ensures
        match outcome {
            Ok(entries) => entry_views(entries@) == toml_entries(*table) && forall|i: int|
                0 <= i < toml_entries(*table).len() ==> (#[trigger] toml_entries(
                    *table,
                )[i]).1.depth() <= depth,
            Err(e) => e == TransportError::TooDeep && exists|i: int|
                0 <= i < toml_entries(*table).len() && (#[trigger] toml_entries(
                    *table,
                )[i]).1.depth() > depth,
        },
    decreases depth, 1nat,
{
    let items = table_items(table);
    let ghost wanted = toml_entries(*table);
    let mut entries: Vec<(String, ValueTree)> = Vec::new();
    let mut i: usize = 0;
    while i < items.len()
        invariant
            i <= items.len(),
            entries.len() == i,
            forall|j: int|
                0 <= j < i ==> (#[trigger] entries@[j]).0@ == wanted[j].0 && entries@[j].1@
                    == wanted[j].1,
            forall|j: int| 0 <= j < i ==> (#[trigger] wanted[j]).1.depth() <= depth,
        decreases items.len() - i,
    {
        let (key, value) = items[i];
        match from_toml(value, depth) {
            Err(e) => {
                assert(wanted[i as int].1.depth() > depth);
                return Err(e);
            },
            Ok(tree) => {
                assert(wanted[i as int].1.depth() <= depth);
                entries.push((key.clone(), tree));
            },
        }
        i += 1;
    }
    assert(entry_views(entries@) =~= wanted);
    Ok(entries)
}

/// The variant `toml::Value::String`: a value that holds the text.
#[verifier::external_body]
fn make_string(text: String) -> (value: toml::Value)
    ensures
        toml_tree(value) == Tree::String(text@),
{
    toml::Value::String(text)
}

/// The variant `toml::Value::Integer`: a value that holds the number.
#[verifier::external_body]
fn make_integer(number: i64) -> (value: toml::Value)
    ensures
        toml_tree(value) == Tree::Integer(number),
{
    toml::Value::Integer(number)
}

/// The variant `toml::Value::Boolean`: a value that holds the flag.
#[verifier::external_body]
fn make_boolean(flag: bool) -> (value: toml::Value)
    ensures
        toml_tree(value) == Tree::Boolean(flag),
{
    toml::Value::Boolean(flag)
}

/// The variant `toml::Value::Datetime`, of a `toml::value::Datetime` with the
/// same fields: a value that holds the datetime.
#[verifier::external_body]
fn make_datetime(datetime: DateTime) -> (value: toml::Value)
    ensures
        toml_tree(value) == Tree::DateTime(datetime),
{
    toml::Value::Datetime(toml::value::Datetime {
        date: datetime.date.map(|d| toml::value::Date { year: d.year, month: d.month, day: d.day }),
        time: datetime.time.map(|t| toml::value::Time {
            hour: t.hour, minute: t.minute, second: t.second, nanosecond: t.nanosecond,
        }),
        offset: datetime.offset.map(|o| match o {
            Offset::Z => toml::value::Offset::Z,
            Offset::Custom { hours, minutes } => toml::value::Offset::Custom { hours, minutes },
        }),
    })
}

/// The variant `toml::Value::Array`: a value that holds what the items
/// hold, in their order.
#[verifier::external_body]
fn make_array(items: Vec<toml::Value>) -> (value: toml::Value)
    ensures
        toml_tree(value) == Tree::Array(toml_trees(items@)),
{
    toml::Value::Array(items)
}

/// `toml::map::Map::new`: a table without entries.
#[verifier::external_body]
fn new_table() -> (table: toml::map::Map<String, toml::Value>)
    ensures
        toml_entries(table) == Seq::<(Seq<char>, Tree)>::empty(),
{
    toml::map::Map::new()
}

/// `toml::map::Map::insert`: the table is a map that is ordered by its keys,
/// so the entry takes the place of the entry with its key, or its place in
/// the order of the keys. The order of strings is that of their characters.
#[verifier::external_body]
fn table_insert(table: &mut toml::map::Map<String, toml::Value>, key: String, value: toml::Value)
    ensures
        toml_entries(*final(table)) == put(toml_entries(*old(table)), (key@, toml_tree(value))),
{
    table.insert(key, value);
}

/// The variant `toml::Value::Table`: a value that holds what the table holds.
#[verifier::external_body]
fn make_table(table: toml::map::Map<String, toml::Value>) -> (value: toml::Value)
    ensures
        toml_tree(value) == Tree::Table(toml_entries(table)),
{
    toml::Value::Table(table)
}

/// `toml::to_string_pretty`: the text that the crate writes for a value. The
/// text depends on nothing but what the value holds. The writer follows
/// nested values by recursion, so it is given values only that are nested
/// within a limit.
#[verifier::external_body]
fn write_toml(value: &toml::Value) -> (outcome: Result<String, toml::ser::Error>)
    requires
        toml_tree(*value).depth() <= MAX_DEPTH,
    ensures
        match outcome {
            Ok(text) => toml_written(toml_tree(*value)) == Some(text@),
            Err(_) => toml_written(toml_tree(*value)) is None,
        },
{
    toml::to_string_pretty(value)
}

/// The `Display` of `toml::de::Error`: what was wrong with a text. Nothing
/// is claimed of the message.
#[verifier::external_body]
fn read_error_text(error: &toml::de::Error) -> (text: String) {
    error.to_string()
}

/// The `Display` of `toml::ser::Error`: why a value was not written. The
/// variants `KeyNewline` and `ArrayMixedType` have no message, and their
/// `Display` does not return: they are told apart before anything is
/// formatted. Nothing is claimed of the message.
#[verifier::external_body]
fn write_error_text(error: &toml::ser::Error) -> (text: Option<String>) {
    match error {
        toml::ser::Error::KeyNewline => None,
        toml::ser::Error::ArrayMixedType => None,
        other => Some(other.to_string()),
    }
}

/// The error for a value that was not written.
fn unwritable(error: &toml::ser::Error) -> (failure: ConfigError)
    ensures
        failure is Unwritable,
{
    match write_error_text(error) {
        Some(text) => ConfigError::Unwritable(text),
        None => ConfigError::Unwritable("a key or an array that cannot be written".to_owned()),
    }
}

/// The tree that the `toml` crate holds when it is given `tree`: the same
/// tree, with the entries of every table as the crate's tables keep them.
pub open spec fn as_held(tree: Tree) -> Tree
    decreases tree,
{
    match tree {
        Tree::Array(items) => Tree::Array(items_as_held(items)),
        Tree::Table(entries) => Tree::Table(toml_collected(entries_as_given(entries))),
        _ => tree,
    }
}

/// The items of an array as the `toml` crate holds them.
pub open spec fn items_as_held(items: Seq<Tree>) -> Seq<Tree>
    decreases items,
{
    Seq::new(
        items.len(),
        |i: int|
            if 0 <= i < items.len() {
                as_held(items[i])
            } else {
                Tree::Boolean(false)
            },
    )
}

/// The entries of a table before the `toml` crate collects them.
pub open spec fn entries_as_given(entries: Seq<(Seq<char>, Tree)>) -> Seq<(Seq<char>, Tree)>
    decreases entries,
{
    Seq::new(
        entries.len(),
        |i: int|
            if 0 <= i < entries.len() {
                (entries[i].0, as_held(entries[i].1))
            } else {
                (Seq::empty(), Tree::Boolean(false))
            },
    )
}

/// Whether no float stands in the tree.
pub open spec fn float_free(tree: Tree) -> bool
    decreases tree,
{
    match tree {
        Tree::Float(_) => false,
        Tree::Array(items) => forall|i: int|
            0 <= i < items.len() ==> float_free(#[trigger] items[i]),
        Tree::Table(entries) => forall|i: int|
            0 <= i < entries.len() ==> float_free((#[trigger] entries[i]).1),
        _ => true,
    }
}

proof fn lemma_float_free_array(items: Seq<Tree>)
    ensures
        float_free(Tree::Array(items)) <==> forall|i: int|
            0 <= i < items.len() ==> float_free(#[trigger] items[i]),
{
    let whole = Tree::Array(items);
    if float_free(whole) {
        assert forall|i: int| 0 <= i < items.len() implies float_free(#[trigger] items[i]) by {
            assert(float_free(whole->Array_0[i]));
        }
    }
    if forall|i: int| 0 <= i < items.len() ==> float_free(#[trigger] items[i]) {
        assert(float_free(whole));
    }
}

proof fn lemma_float_free_table(entries: Seq<(Seq<char>, Tree)>)
    ensures
        float_free(Tree::Table(entries)) <==> forall|i: int|
            0 <= i < entries.len() ==> float_free((#[trigger] entries[i]).1),
{
    let whole = Tree::Table(entries);
    if float_free(whole) {
        assert forall|i: int| 0 <= i < entries.len() implies float_free(
            (#[trigger] entries[i]).1,
        ) by {
            assert(float_free(whole->Table_0[i].1));
        }
    }
    if forall|i: int| 0 <= i < entries.len() ==> float_free((#[trigger] entries[i]).1) {
        assert(float_free(whole));
    }
}

/// Whether `float_of` makes floats: whatever it makes of some bits is a value
/// that holds the float with those bits.
pub open spec fn makes_floats<F: Fn(u64) -> toml::Value>(float_of: F) -> bool {
    forall|bits: u64, made: toml::Value| #[trigger]
        call_ensures(float_of, (bits,), made) ==> toml_tree(made) == Tree::Float(bits)
}

/// What the `toml` crate holds of a value is not deeper than the value.
pub proof fn lemma_as_held_depth(tree: Tree)
    ensures
        as_held(tree).depth() <= tree.depth(),
    decreases tree,
{
    match tree {
        Tree::Array(items) => {
            let held = items_as_held(items);
            lemma_items_depth_bound(items, items_depth(items));
            assert forall|i: int| 0 <= i < held.len() implies (#[trigger] held[i]).depth()
                <= items_depth(items) by {
                lemma_as_held_depth(items[i]);
            }
            lemma_items_depth_bound(held, items_depth(items));
        },
        Tree::Table(entries) => {
            let given = entries_as_given(entries);
            let held = toml_collected(given);
            lemma_entries_depth_bound(entries, entries_depth(entries));
            assert forall|i: int| 0 <= i < held.len() implies (#[trigger] held[i]).1.depth()
                <= entries_depth(entries) by {
                lemma_collected_is_among(given, i);
                let k = choose|k: int| 0 <= k < given.len() && given[k] == held[i];
                lemma_as_held_depth(entries[k].1);
            }
            lemma_entries_depth_bound(held, entries_depth(entries));
        },
        _ => {},
    }
}

/// A table with one entry is held with that entry.
pub proof fn lemma_one_entry_is_held(key: Seq<char>, value: Tree)
    ensures
        as_held(Tree::Table(seq![(key, value)])) == Tree::Table(seq![(key, as_held(value))]),
{
    let entries = seq![(key, value)];
    let given = entries_as_given(entries);
    assert(given =~= seq![(key, as_held(value))]);
    assert(given.drop_last() =~= Seq::<(Seq<char>, Tree)>::empty());
    assert(toml_collected(given.drop_last()) =~= Seq::<(Seq<char>, Tree)>::empty());
    assert(given.last() == (key, as_held(value)));
    assert(put(Seq::<(Seq<char>, Tree)>::empty(), given.last()) =~= seq![given.last()]);
    assert(toml_collected(given) =~= seq![(key, as_held(value))]);
}

/// Builds the value of the `toml` crate that holds `tree`. A float is made by
/// `float_of`, and what it made is looked at: it has to be a float with the
/// bits that were given.
#[verifier::loop_isolation(false)]
fn build_toml<F: Fn(u64) -> toml::Value>(tree: &ValueTree, float_of: &F) -> (outcome: Result<
    toml::Value,
    TransportError,
>)
    requires
        forall|bits: u64| call_requires(*float_of, (bits,)),
    ensures
        match outcome {
            Ok(value) => toml_tree(value) == as_held(tree@),
            Err(e) => e == TransportError::FloatRefused && !float_free(tree@),
        },
        makes_floats(*float_of) ==> outcome is Ok,
    decreases tree,
{
    match tree {
        ValueTree::String(text) => Ok(make_string(text.clone())),
        ValueTree::Integer(number) => Ok(make_integer(*number)),
        ValueTree::Float(bits) => {
            let made = float_of(*bits);
            match node_of(&made) {
                TomlNode::Float(held) => {
                    if held == *bits {
                        Ok(made)
                    } else {
                        Err(TransportError::FloatRefused)
                    }
                },
                _ => Err(TransportError::FloatRefused),
            }
        },
        ValueTree::Boolean(flag) => Ok(make_boolean(*flag)),
        ValueTree::DateTime(datetime) => Ok(make_datetime(*datetime)),
        ValueTree::Array(items) => {
            proof {
                lemma_array_view(*items);
                lemma_float_free_array(item_views(items@));
            }
            let mut built: Vec<toml::Value> = Vec::new();
            let mut i: usize = 0;
            while i < items.len()
                invariant
                    i <= items.len(),
                    built.len() == i,
                    forall|j: int|
                        0 <= j < i ==> toml_tree(#[trigger] built@[j]) == as_held(items@[j]@),
                decreases items.len() - i,
            {
                match build_toml(&items[i], float_of) {
                    Err(e) => {
                        assert(!float_free(item_views(items@)[i as int]));
                        return Err(e);
                    },
                    Ok(value) => {
                        built.push(value);
                    },
                }
                i += 1;
            }
            proof {
                assert(toml_trees(built@) =~= items_as_held(item_views(items@)));
            }
            Ok(make_array(built))
        },
        ValueTree::Table(entries) => {
            proof {
                lemma_table_view(*entries);
                lemma_float_free_table(entry_views(entries@));
            }
            let ghost given = entries_as_given(entry_views(entries@));
            let mut table = new_table();
            let mut i: usize = 0;
            assert(given.take(0) =~= Seq::<(Seq<char>, Tree)>::empty());
            while i < entries.len()
                invariant
                    i <= entries.len(),
                    given == entries_as_given(entry_views(entries@)),
                    toml_entries(table) == toml_collected(given.take(i as int)),
                decreases entries.len() - i,
            {
                match build_toml(&entries[i].1, float_of) {
                    Err(e) => {
                        assert(!float_free(entry_views(entries@)[i as int].1));
                        return Err(e);
                    },
                    Ok(value) => {
                        assert(given.take(i + 1).drop_last() =~= given.take(i as int));
                        assert(given.take(i + 1).last() == (
                            entries@[i as int].0@,
                            as_held(entries@[i as int].1@),
                        ));
                        table_insert(&mut table, entries[i].0.clone(), value);
                    },
                }
                i += 1;
            }
            assert(given.take(i as int) =~= given);
            Ok(make_table(table))
        },
    }
}

/// What `to_toml` gives for `tree`: a value that holds the tree, unless the
/// tree is nested too deeply, or holds a datetime that cannot be represented,
/// or holds a float that `float_of` did not make.
pub open spec fn held_as(outcome: Result<toml::Value, TransportError>, tree: Tree) -> bool {
    if tree.depth() > MAX_DEPTH {
        outcome matches Err(e) && e == TransportError::TooDeep
    } else if !tree.datetimes_representable() {
        outcome matches Err(e) && e == TransportError::UnrepresentableDatetime
    } else {
        match outcome {
            Ok(value) => toml_tree(value) == as_held(tree),
            Err(e) => e == TransportError::FloatRefused && !float_free(tree),
        }
    }
}

/// The value of the `toml` crate that holds `tree`. The library holds floats
/// by their bits only, so the caller says how a float is made from its bits.
/// A value without floats is held whatever `float_of` does, and a value with
/// floats is held where `float_of` makes floats.
pub fn to_toml<F: Fn(u64) -> toml::Value>(tree: &ValueTree, float_of: &F) -> (outcome: Result<
    toml::Value,
    TransportError,
>)
    requires
        forall|bits: u64| call_requires(*float_of, (bits,)),
    ensures
        held_as(outcome, tree@),
        makes_floats(*float_of) ==> !(outcome matches Err(e) && e == TransportError::FloatRefused),
{
    if !depth_within(tree, MAX_DEPTH) {
        return Err(TransportError::TooDeep);
    }
    if !datetimes_representable(tree) {
        return Err(TransportError::UnrepresentableDatetime);
    }
    build_toml(tree, float_of)
}

/// Why a configuration text could not be read or written.
#[derive(Debug, PartialEq, Eq)]
pub enum ConfigError {
    /// The text is not TOML; the message says where and why.
    Syntax(String),
    /// The value cannot be carried.
    Transport(TransportError),
    /// The value cannot be written as TOML; the message says why.
    Unwritable(String),
}

/// What reading `text` gives. A text that opens more brackets at once, or
/// has more dots in one key, than a value may be deep is refused unread; so
/// is a value that is nested too deeply.
pub open spec fn read_as(outcome: Result<ValueTree, ConfigError>, text: Seq<char>) -> bool {
    if deepest(text) > MAX_DEPTH {
        outcome == Err::<ValueTree, ConfigError>(ConfigError::Transport(TransportError::TooDeep))
    } else {
        match toml_parsed(text) {
            None => outcome matches Err(ConfigError::Syntax(_)),
            Some(tree) => if tree.depth() <= MAX_DEPTH {
                outcome matches Ok(got) && got@ == tree
            } else {
                outcome == Err::<ValueTree, ConfigError>(
                    ConfigError::Transport(TransportError::TooDeep),
                )
            },
        }
    }
}

/// Reads a TOML text as a structured value.
pub fn parse(text: &str) -> (outcome: Result<ValueTree, ConfigError>)
    ensures
        read_as(outcome, text@),
{
    if !nests_within(&chars_of(text), MAX_DEPTH) {
        return Err(ConfigError::Transport(TransportError::TooDeep));
    }
    match parse_toml(text) {
        Err(error) => Err(ConfigError::Syntax(read_error_text(&error))),
        Ok(value) => match from_toml(&value, MAX_DEPTH) {
            Ok(tree) => Ok(tree),
            Err(e) => Err(ConfigError::Transport(e)),
        },
    }
}

/// What writing `tree` gives.
pub open spec fn written_as(outcome: Result<String, ConfigError>, tree: Tree) -> bool {
    if tree.depth() > MAX_DEPTH {
        outcome == Err::<String, ConfigError>(ConfigError::Transport(TransportError::TooDeep))
    } else if !tree.datetimes_representable() {
        outcome == Err::<String, ConfigError>(
            ConfigError::Transport(TransportError::UnrepresentableDatetime),
        )
    } else if outcome == Err::<String, ConfigError>(
        ConfigError::Transport(TransportError::FloatRefused),
    ) {
        !float_free(tree)
    } else {
        match toml_written(as_held(tree)) {
            Some(text) => outcome matches Ok(got) && got@ == text,
            None => outcome matches Err(ConfigError::Unwritable(_)),
        }
    }
}

/// Writes a structured value as TOML text. For `float_of` see `to_toml`.
pub fn render<F: Fn(u64) -> toml::Value>(tree: &ValueTree, float_of: &F) -> (outcome: Result<
    String,
    ConfigError,
>)
    requires
        forall|bits: u64| call_requires(*float_of, (bits,)),
    ensures
        written_as(outcome, tree@),
        makes_floats(*float_of) ==> outcome != Err::<String, ConfigError>(
            ConfigError::Transport(TransportError::FloatRefused),
        ),
{
    proof {
        lemma_as_held_depth(tree@);
    }
    match to_toml(tree, float_of) {
        Err(e) => Err(ConfigError::Transport(e)),
        Ok(value) => match write_toml(&value) {
            Ok(text) => Ok(text),
            Err(error) => Err(unwritable(&error)),
        },
    }
}

/// Whether no float stands in `tree`.
#[verifier::loop_isolation(false)]
pub fn is_float_free(tree: &ValueTree) -> (free: bool)
    ensures
        free == float_free(tree@),
    decreases tree,
{
    match tree {
        ValueTree::Float(_) => false,
        ValueTree::Array(items) => {
            proof {
                lemma_array_view(*items);
                lemma_float_free_array(item_views(items@));
            }
            let mut i: usize = 0;
            while i < items.len()
                invariant
                    i <= items.len(),
                    forall|j: int| 0 <= j < i ==> float_free(#[trigger] item_views(items@)[j]),
                decreases items.len() - i,
            {
                if !is_float_free(&items[i]) {
                    assert(!float_free(item_views(items@)[i as int]));
                    return false;
                }
                i += 1;
            }
            true
        },
        ValueTree::Table(entries) => {
            proof {
                lemma_table_view(*entries);
                lemma_float_free_table(entry_views(entries@));
            }
            let mut i: usize = 0;
            while i < entries.len()
                invariant
                    i <= entries.len(),
                    forall|j: int|
                        0 <= j < i ==> float_free((#[trigger] entry_views(entries@)[j]).1),
                decreases entries.len() - i,
            {
                if !is_float_free(&entries[i].1) {
                    assert(!float_free(entry_views(entries@)[i as int].1));
                    return false;
                }
                i += 1;
            }
            true
        },
        _ => true,
    }
}

/// What writing a value without floats gives.
pub open spec fn plainly_written_as(outcome: Result<String, ConfigError>, tree: Tree) -> bool {
    if !float_free(tree) {
        outcome == Err::<String, ConfigError>(ConfigError::Transport(TransportError::FloatRefused))
    } else if tree.depth() > MAX_DEPTH {
        outcome == Err::<String, ConfigError>(ConfigError::Transport(TransportError::TooDeep))
    } else if !tree.datetimes_representable() {
        outcome == Err::<String, ConfigError>(
            ConfigError::Transport(TransportError::UnrepresentableDatetime),
        )
    } else {
        match toml_written(as_held(tree)) {
            Some(text) => outcome matches Ok(got) && got@ == text,
            None => outcome matches Err(ConfigError::Unwritable(_)),
        }
    }
}

/// Writes a structured value as TOML text, and refuses floats.
pub fn render_plain(tree: &ValueTree) -> (outcome: Result<String, ConfigError>)
    ensures
        plainly_written_as(outcome, tree@),
{
    if !is_float_free(tree) {
        return Err(ConfigError::Transport(TransportError::FloatRefused));
    }
    let refuse = |bits: u64| -> (made: toml::Value) { make_integer(0) };
    proof {
        lemma_as_held_depth(tree@);
    }
    match to_toml(tree, &refuse) {
        Err(e) => Err(ConfigError::Transport(e)),
        Ok(value) => match write_toml(&value) {
            Ok(text) => Ok(text),
            Err(error) => Err(unwritable(&error)),
        },
    }
}

} // verus!
