//! The structured value that crosses the boundary between host and plugin.
//!
//! A plugin shares no memory and no types with the host, so configuration
//! travels as a self-describing tree: strings, 64-bit integers, floats,
//! booleans, datetimes, arrays and tables. This module holds the tree as an
//! owned value (`ValueTree`) together with its mathematical model (`Tree`);
//! the arena in `handle` holds the same data node by node behind handles.

use vstd::prelude::*;

verus! {

/// A calendar date.
#[derive(Clone, Copy, Debug, PartialEq, Eq, Structural)]
pub struct Date {
    pub year: u16,
    pub month: u8,
    pub day: u8,
}

/// A time of day.
#[derive(Clone, Copy, Debug, PartialEq, Eq, Structural)]
pub struct Time {
    pub hour: u8,
    pub minute: u8,
    pub second: u8,
    pub nanosecond: u32,
}

/// The distance of a local time from UTC.
#[derive(Clone, Copy, Debug, PartialEq, Eq, Structural)]
pub enum Offset {
    /// UTC itself.
    Z,
    /// Hours and minutes away from UTC; the sign is that of `hours`.
    Custom { hours: i8, minutes: u8 },
}

/// A datetime whose three parts are each optional.
#[derive(Clone, Copy, Debug, PartialEq, Eq)]
pub struct DateTime {
    pub date: Option<Date>,
    pub time: Option<Time>,
    pub offset: Option<Offset>,
}

impl Date {
    /// A four-digit year, a month of the year and a day of a month.
    pub open spec fn representable(self) -> bool {
        &&& self.year <= 9999
        &&& 1 <= self.month <= 12
        &&& 1 <= self.day <= 31
    }

    /// Whether the value is representable.
    pub fn is_representable(&self) -> (ok: bool)
        ensures
            ok == self.representable(),
    {
        self.year <= 9999 && 1 <= self.month && self.month <= 12 && 1 <= self.day && self.day <= 31
    }
}

impl Time {
    /// An hour up to 24, minutes and seconds below 60, less than a second of
    /// nanoseconds.
    pub open spec fn representable(self) -> bool {
        &&& self.hour <= 24
        &&& self.minute <= 59
        &&& self.second <= 59
        &&& self.nanosecond <= 999_999_999
    }

    /// Whether the value is representable.
    pub fn is_representable(&self) -> (ok: bool)
        ensures
            ok == self.representable(),
    {
        self.hour <= 24 && self.minute <= 59 && self.second <= 59 && self.nanosecond <= 999_999_999
    }
}

impl Offset {
    /// Two digits of hours and two digits of minutes.
    pub open spec fn representable(self) -> bool {
        match self {
            Offset::Z => true,
            Offset::Custom { hours, minutes } => -99 <= hours <= 99 && minutes <= 99,
        }
    }

    /// Whether the value is representable.
    pub fn is_representable(&self) -> (ok: bool)
        ensures
            ok == self.representable(),
    {
        match self {
            Offset::Z => true,
            Offset::Custom { hours, minutes } => -99 <= *hours && *hours <= 99 && *minutes <= 99,
        }
    }
}

impl DateTime {
    /// Whether the datetime can be written down as a configuration value: it
    /// has a date or a time, each part is in range, and an offset comes only
    /// with both a date and a time.
    pub open spec fn representable(self) -> bool {
        &&& self.date is Some || self.time is Some
        &&& self.date matches Some(date) ==> date.representable()
        &&& self.time matches Some(time) ==> time.representable()
        &&& self.offset matches Some(offset) ==> offset.representable() && self.date is Some
            && self.time is Some
    }

    /// Whether the value is representable.
    pub fn is_representable(&self) -> (ok: bool)
        ensures
            ok == self.representable(),
    {
        let date_ok = match &self.date {
            Some(date) => date.is_representable(),
            None => true,
        };
        let time_ok = match &self.time {
            Some(time) => time.is_representable(),
            None => true,
        };
        let offset_ok = match &self.offset {
            Some(offset) => offset.is_representable() && self.date.is_some() && self.time.is_some(),
            None => true,
        };
        (self.date.is_some() || self.time.is_some()) && date_ok && time_ok && offset_ok
    }
}

/// The mathematical model of a structured value: a finite tree.
///
/// A float is held by its 64 bits, so that equality of trees is equality of
/// what travels. A table is a sequence: it keeps the order of its entries, and
/// it keeps entries with equal keys apart.
pub enum Tree {
    String(Seq<char>),
    Integer(i64),
    Float(u64),
    Boolean(bool),
    DateTime(DateTime),
    Array(Seq<Tree>),
    Table(Seq<(Seq<char>, Tree)>),
}

/// A structured value, owned as a whole.
#[derive(Debug, PartialEq, Eq)]
pub enum ValueTree {
    String(String),
    Integer(i64),
    /// The bits of a 64-bit float.
    Float(u64),
    Boolean(bool),
    DateTime(DateTime),
    Array(Vec<ValueTree>),
    Table(Vec<(String, ValueTree)>),
}

/// The model of an owned value.
pub open spec fn tree_of(value: ValueTree) -> Tree
    decreases value,
{
    match value {
        ValueTree::String(text) => Tree::String(text@),
        ValueTree::Integer(number) => Tree::Integer(number),
        ValueTree::Float(bits) => Tree::Float(bits),
        ValueTree::Boolean(flag) => Tree::Boolean(flag),
        ValueTree::DateTime(datetime) => Tree::DateTime(datetime),
        ValueTree::Array(items) => Tree::Array(
            Seq::new(
                items@.len(),
                |i: int|
                    if 0 <= i < items@.len() {
                        tree_of(items@[i])
                    } else {
                        Tree::Boolean(false)
                    },
            ),
        ),
        ValueTree::Table(entries) => Tree::Table(
            Seq::new(
                entries@.len(),
                |i: int|
                    if 0 <= i < entries@.len() {
                        (entries@[i].0@, tree_of(entries@[i].1))
                    } else {
                        (Seq::empty(), Tree::Boolean(false))
                    },
            ),
        ),
    }
}

impl View for ValueTree {
    type V = Tree;

    open spec fn view(&self) -> Tree {
        tree_of(*self)
    }
}

/// The models of the items of an array.
pub open spec fn item_views(items: Seq<ValueTree>) -> Seq<Tree> {
    Seq::new(items.len(), |i: int| items[i]@)
}

/// The models of the entries of a table.
pub open spec fn entry_views(entries: Seq<(String, ValueTree)>) -> Seq<(Seq<char>, Tree)> {
    Seq::new(entries.len(), |i: int| (entries[i].0@, entries[i].1@))
}

/// The model of an array is the array of the models of its items.
pub proof fn lemma_array_view(items: Vec<ValueTree>)
    ensures
        ValueTree::Array(items)@ == Tree::Array(item_views(items@)),
{
    assert(ValueTree::Array(items)@->Array_0 =~= item_views(items@));
}

/// The model of a table is the table of the models of its entries.
pub proof fn lemma_table_view(entries: Vec<(String, ValueTree)>)
    ensures
        ValueTree::Table(entries)@ == Tree::Table(entry_views(entries@)),
{
    assert(ValueTree::Table(entries)@->Table_0 =~= entry_views(entries@));
}

impl Clone for ValueTree {
    /// A copy with the same model.
    fn clone(&self) -> (copy: Self)
        ensures
            copy@ == self@,
    {
        self.duplicate()
    }
}

impl ValueTree {
    /// A copy with the same model.
    #[verifier::loop_isolation(false)]
    pub fn duplicate(&self) -> (copy: Self)
        ensures
            copy@ == self@,
        decreases self,
    {
        match self {
            ValueTree::String(text) => ValueTree::String(text.clone()),
            ValueTree::Integer(number) => ValueTree::Integer(*number),
            ValueTree::Float(bits) => ValueTree::Float(*bits),
            ValueTree::Boolean(flag) => ValueTree::Boolean(*flag),
            ValueTree::DateTime(datetime) => ValueTree::DateTime(*datetime),
            ValueTree::Array(items) => {
                let mut copies: Vec<ValueTree> = Vec::new();
                let mut i: usize = 0;
                while i < items.len()
                    invariant
                        i <= items.len(),
                        copies.len() == i,
                        *self == ValueTree::Array(*items),
                        forall|j: int| 0 <= j < i ==> copies[j]@ == items[j]@,
                    decreases items.len() - i,
                {
                    copies.push(items[i].duplicate());
                    i += 1;
                }
                proof {
                    lemma_array_view(*items);
                    lemma_array_view(copies);
                    assert(item_views(copies@) =~= item_views(items@));
                }
                ValueTree::Array(copies)
            },
            ValueTree::Table(entries) => {
                let mut copies: Vec<(String, ValueTree)> = Vec::new();
                let mut i: usize = 0;
                while i < entries.len()
                    invariant
                        i <= entries.len(),
                        copies.len() == i,
                        *self == ValueTree::Table(*entries),
                        forall|j: int|
                            0 <= j < i ==> copies[j].0@ == entries[j].0@ && copies[j].1@
                                == entries[j].1@,
                    decreases entries.len() - i,
                {
                    let key = entries[i].0.clone();
                    let value = entries[i].1.duplicate();
                    copies.push((key, value));
                    i += 1;
                }
                proof {
                    lemma_table_view(*entries);
                    lemma_table_view(copies);
                    assert(entry_views(copies@) =~= entry_views(entries@));
                }
                ValueTree::Table(copies)
            },
        }
    }
}

} // verus!
