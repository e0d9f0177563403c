//! The byte form in which a structured value crosses the boundary.
//!
//! A value is written as a tag byte and a payload. Numbers are little-endian,
//! text is UTF-8 behind its length in bytes, arrays and tables stand behind
//! the count of their items. The format is self-describing: `decode_tree`
//! needs nothing but the bytes, and gives back the value that `encode_tree`
//! was given.

use vstd::prelude::*;
use vstd::bytes::*;
use vstd::slice::*;
use vstd::string::*;
use vstd::utf8::*;
use crate::value::{
    entry_views, item_views, lemma_array_view, lemma_table_view, Date, DateTime, Offset, Time,
    Tree, ValueTree,
};

verus! {

/// Why a value could not be carried across the boundary.
#[derive(Clone, Copy, Debug, PartialEq, Eq, Structural)]
pub enum TransportError {
    /// The bytes end before the value does.
    Truncated,
    /// A tag, a flag or a boolean holds a byte that stands for nothing.
    MalformedVariant,
    /// A length or a count is larger than this machine can index.
    IntegerOverflow,
    /// A datetime that cannot be written down as a configuration value.
    UnrepresentableDatetime,
    /// Text that is not UTF-8.
    InvalidText,
    /// The value is nested more deeply than `MAX_DEPTH`.
    TooDeep,
    /// Bytes are left over behind the value.
    TrailingBytes,
    /// A handle that is bound to no node.
    StaleHandle,
    /// A float that the host's configuration did not take with its bits.
    FloatRefused,
}

/// The deepest nesting that is carried: a scalar has depth 1.
pub const MAX_DEPTH: usize = 64;

/// The tag of a string.
pub const TAG_STRING: u8 = 0;

/// The tag of an integer.
pub const TAG_INTEGER: u8 = 1;

/// The tag of a float.
pub const TAG_FLOAT: u8 = 2;

/// The tag of a boolean.
pub const TAG_BOOLEAN: u8 = 3;

/// The tag of a datetime.
pub const TAG_DATETIME: u8 = 4;

/// The tag of an array.
pub const TAG_ARRAY: u8 = 5;

/// The tag of a table.
pub const TAG_TABLE: u8 = 6;

/// What a step of decoding gives: what was read, and the bytes behind it.
pub type Parsed<T> = Result<(T, Seq<u8>), TransportError>;

impl Tree {
    /// The nesting depth: 1 for a scalar and for an empty array or table.
    pub open spec fn depth(self) -> nat
        decreases self,
    {
        match self {
            Tree::Array(items) => 1 + items_depth(items),
            Tree::Table(entries) => 1 + entries_depth(entries),
            _ => 1,
        }
    }

    /// Whether every datetime in the value is representable.
    pub open spec fn datetimes_representable(self) -> bool
        decreases self,
    {
        match self {
            Tree::DateTime(datetime) => datetime.representable(),
            Tree::Array(items) => forall|i: int|
                0 <= i < items.len() ==> (#[trigger] items[i]).datetimes_representable(),
            Tree::Table(entries) => forall|i: int|
                0 <= i < entries.len() ==> (#[trigger] entries[i]).1.datetimes_representable(),
            _ => true,
        }
    }

    /// Whether every length and count in the value is one that this machine
    /// can index. An owned value always is.
    pub open spec fn fits(self) -> bool
        decreases self,
    {
        match self {
            Tree::String(text) => encode_utf8(text).len() <= usize::MAX,
            Tree::Array(items) => items.len() <= usize::MAX && forall|i: int|
                0 <= i < items.len() ==> (#[trigger] items[i]).fits(),
            Tree::Table(entries) => entries.len() <= usize::MAX && forall|i: int|
                0 <= i < entries.len() ==> encode_utf8((#[trigger] entries[i]).0).len()
                    <= usize::MAX && entries[i].1.fits(),
            _ => true,
        }
    }

    /// Whether the value can be carried: what `encode` asks of it.
    pub open spec fn transportable(self) -> bool {
        self.depth() <= MAX_DEPTH && self.datetimes_representable() && self.fits()
    }
}

/// The greatest depth among `items`, 0 when there is none.
pub open spec fn items_depth(items: Seq<Tree>) -> nat
    decreases items,
{
    if items.len() == 0 {
        0
    } else {
        let first = items[0].depth();
        let rest = items_depth(items.drop_first());
        if first >= rest {
            first
        } else {
            rest
        }
    }
}

/// The greatest depth among the values of `entries`, 0 when there is none.
pub open spec fn entries_depth(entries: Seq<(Seq<char>, Tree)>) -> nat
    decreases entries,
{
    if entries.len() == 0 {
        0
    } else {
        let first = entries[0].1.depth();
        let rest = entries_depth(entries.drop_first());
        if first >= rest {
            first
        } else {
            rest
        }
    }
}

/// The bits of a signed number.
pub open spec fn bits_of(number: i64) -> u64 {
    number as u64
}

/// The signed number with the given bits.
pub open spec fn number_of(bits: u64) -> i64 {
    bits as i64
}

/// The byte of a flag: 1 for true, 0 for false.
pub open spec fn encode_flag(flag: bool) -> Seq<u8> {
    seq![if flag { 1u8 } else { 0u8 }]
}

/// The bytes of a text: the length of its UTF-8 in 8 bytes, then the UTF-8.
pub open spec fn encode_text(text: Seq<char>) -> Seq<u8> {
    spec_u64_to_le_bytes(encode_utf8(text).len() as u64) + encode_utf8(text)
}

/// The bytes of a date: the year in 2 bytes, the month, the day.
pub open spec fn encode_date(date: Date) -> Seq<u8> {
    spec_u16_to_le_bytes(date.year) + seq![date.month, date.day]
}

/// The bytes of a time: hour, minute, second, and the nanoseconds in 4
/// bytes.
pub open spec fn encode_time(time: Time) -> Seq<u8> {
    seq![time.hour, time.minute, time.second] + spec_u32_to_le_bytes(time.nanosecond)
}

/// The bytes of an offset: 0 for none, 1 for UTC, 2 and the hours and
/// minutes for another.
pub open spec fn encode_offset(offset: Option<Offset>) -> Seq<u8> {
    match offset {
        None => seq![0u8],
        Some(Offset::Z) => seq![1u8],
        Some(Offset::Custom { hours, minutes }) => seq![2u8, hours as u8, minutes],
    }
}

/// The bytes of a datetime: the date and the time, each behind the flag that
/// says whether it is there, and the offset.
pub open spec fn encode_datetime(datetime: DateTime) -> Seq<u8> {
    (match datetime.date {
        Some(date) => encode_flag(true) + encode_date(date),
        None => encode_flag(false),
    }) + (match datetime.time {
        Some(time) => encode_flag(true) + encode_time(time),
        None => encode_flag(false),
    }) + encode_offset(datetime.offset)
}

/// The bytes of a value.
pub open spec fn encode_tree(tree: Tree) -> Seq<u8>
    decreases tree,
{
    match tree {
        Tree::String(text) => seq![TAG_STRING] + encode_text(text),
        Tree::Integer(number) => seq![TAG_INTEGER] + spec_u64_to_le_bytes(bits_of(number)),
        Tree::Float(bits) => seq![TAG_FLOAT] + spec_u64_to_le_bytes(bits),
        Tree::Boolean(flag) => seq![TAG_BOOLEAN] + encode_flag(flag),
        Tree::DateTime(datetime) => seq![TAG_DATETIME] + encode_datetime(datetime),
        Tree::Array(items) => seq![TAG_ARRAY] + spec_u64_to_le_bytes(items.len() as u64)
            + encode_items(items),
        Tree::Table(entries) => seq![TAG_TABLE] + spec_u64_to_le_bytes(entries.len() as u64)
            + encode_entries(entries),
    }
}

/// The bytes of the items of an array, one behind the other.
pub open spec fn encode_items(items: Seq<Tree>) -> Seq<u8>
    decreases items,
{
    if items.len() == 0 {
        Seq::empty()
    } else {
        encode_tree(items[0]) + encode_items(items.drop_first())
    }
}

/// The bytes of the entries of a table: each key as text, then its value.
pub open spec fn encode_entries(entries: Seq<(Seq<char>, Tree)>) -> Seq<u8>
    decreases entries,
{
    if entries.len() == 0 {
        Seq::empty()
    } else {
        encode_text(entries[0].0) + encode_tree(entries[0].1) + encode_entries(
            entries.drop_first(),
        )
    }
}

/// The byte at the front.
pub open spec fn take_u8(bytes: Seq<u8>) -> Parsed<u8> {
    if bytes.len() < 1 {
        Err(TransportError::Truncated)
    } else {
        Ok((bytes[0], bytes.skip(1)))
    }
}

/// The number in the 2 bytes at the front.
pub open spec fn take_u16(bytes: Seq<u8>) -> Parsed<u16> {
    if bytes.len() < 2 {
        Err(TransportError::Truncated)
    } else {
        Ok((spec_u16_from_le_bytes(bytes.subrange(0, 2)), bytes.skip(2)))
    }
}

/// The number in the 4 bytes at the front.
pub open spec fn take_u32(bytes: Seq<u8>) -> Parsed<u32> {
    if bytes.len() < 4 {
        Err(TransportError::Truncated)
    } else {
        Ok((spec_u32_from_le_bytes(bytes.subrange(0, 4)), bytes.skip(4)))
    }
}

/// The number in the 8 bytes at the front.
pub open spec fn take_u64(bytes: Seq<u8>) -> Parsed<u64> {
    if bytes.len() < 8 {
        Err(TransportError::Truncated)
    } else {
        Ok((spec_u64_from_le_bytes(bytes.subrange(0, 8)), bytes.skip(8)))
    }
}

/// A length or a count: 8 bytes that hold a number this machine can index.
pub open spec fn take_length(bytes: Seq<u8>) -> Parsed<nat> {
    match take_u64(bytes) {
        Err(e) => Err(e),
        Ok((length, rest)) => if length > usize::MAX {
            Err(TransportError::IntegerOverflow)
        } else {
            Ok((length as nat, rest))
        },
    }
}

/// A flag: one byte that is 0 or 1.
pub open spec fn take_flag(bytes: Seq<u8>) -> Parsed<bool> {
    match take_u8(bytes) {
        Err(e) => Err(e),
        Ok((byte, rest)) => if byte == 0 {
            Ok((false, rest))
        } else if byte == 1 {
            Ok((true, rest))
        } else {
            Err(TransportError::MalformedVariant)
        },
    }
}

/// The text at the front: a length, and as many bytes of UTF-8.
pub open spec fn decode_text(bytes: Seq<u8>) -> Parsed<Seq<char>> {
    match take_length(bytes) {
        Err(e) => Err(e),
        Ok((length, rest)) => if rest.len() < length {
            Err(TransportError::Truncated)
        } else if !valid_utf8(rest.subrange(0, length as int)) {
            Err(TransportError::InvalidText)
        } else {
            Ok((decode_utf8(rest.subrange(0, length as int)), rest.skip(length as int)))
        },
    }
}

/// The date at the front.
pub open spec fn decode_date(bytes: Seq<u8>) -> Parsed<Date> {
    match take_u16(bytes) {
        Err(e) => Err(e),
        Ok((year, rest)) => match take_u8(rest) {
            Err(e) => Err(e),
            Ok((month, rest)) => match take_u8(rest) {
                Err(e) => Err(e),
                Ok((day, rest)) => Ok((Date { year, month, day }, rest)),
            },
        },
    }
}

/// The time at the front.
pub open spec fn decode_time(bytes: Seq<u8>) -> Parsed<Time> {
    match take_u8(bytes) {
        Err(e) => Err(e),
        Ok((hour, rest)) => match take_u8(rest) {
            Err(e) => Err(e),
            Ok((minute, rest)) => match take_u8(rest) {
                Err(e) => Err(e),
                Ok((second, rest)) => match take_u32(rest) {
                    Err(e) => Err(e),
                    Ok((nanosecond, rest)) => Ok(
                        (Time { hour, minute, second, nanosecond }, rest),
                    ),
                },
            },
        },
    }
}

/// The offset at the front.
pub open spec fn decode_offset(bytes: Seq<u8>) -> Parsed<Option<Offset>> {
    match take_u8(bytes) {
        Err(e) => Err(e),
        Ok((kind, rest)) => if kind == 0 {
            Ok((None, rest))
        } else if kind == 1 {
            Ok((Some(Offset::Z), rest))
        } else if kind == 2 {
            match take_u8(rest) {
                Err(e) => Err(e),
                Ok((hours, rest)) => match take_u8(rest) {
                    Err(e) => Err(e),
                    Ok((minutes, rest)) => Ok(
                        (Some(Offset::Custom { hours: hours as i8, minutes }), rest),
                    ),
                },
            }
        } else {
            Err(TransportError::MalformedVariant)
        },
    }
}

/// The date at the front, behind the flag that says whether it is there.
pub open spec fn decode_optional_date(bytes: Seq<u8>) -> Parsed<Option<Date>> {
    match take_flag(bytes) {
        Err(e) => Err(e),
        Ok((present, rest)) => if present {
            match decode_date(rest) {
                Err(e) => Err(e),
                Ok((date, rest)) => Ok((Some(date), rest)),
            }
        } else {
            Ok((None, rest))
        },
    }
}

/// The time at the front, behind the flag that says whether it is there.
pub open spec fn decode_optional_time(bytes: Seq<u8>) -> Parsed<Option<Time>> {
    match take_flag(bytes) {
        Err(e) => Err(e),
        Ok((present, rest)) => if present {
            match decode_time(rest) {
                Err(e) => Err(e),
                Ok((time, rest)) => Ok((Some(time), rest)),
            }
        } else {
            Ok((None, rest))
        },
    }
}

/// The three parts, and then the question whether they make a datetime.
pub open spec fn decode_datetime(bytes: Seq<u8>) -> Parsed<DateTime> {
    match decode_optional_date(bytes) {
        Err(e) => Err(e),
        Ok((date, rest)) => match decode_optional_time(rest) {
            Err(e) => Err(e),
            Ok((time, rest)) => match decode_offset(rest) {
                Err(e) => Err(e),
                Ok((offset, rest)) => {
                    let datetime = DateTime { date, time, offset };
                    if datetime.representable() {
                        Ok((datetime, rest))
                    } else {
                        Err(TransportError::UnrepresentableDatetime)
                    }
                },
            },
        },
    }
}

/// The value at the front of `bytes`, nested at most `depth` deep.
pub open spec fn decode_tree(bytes: Seq<u8>, depth: nat) -> Parsed<Tree>
    decreases depth, 0nat,
{
    if depth == 0 {
        Err(TransportError::TooDeep)
    } else {
        match take_u8(bytes) {
            Err(e) => Err(e),
            Ok((tag, rest)) => if tag == TAG_STRING {
                match decode_text(rest) {
                    Err(e) => Err(e),
                    Ok((text, rest)) => Ok((Tree::String(text), rest)),
                }
            } else if tag == TAG_INTEGER {
                match take_u64(rest) {
                    Err(e) => Err(e),
                    Ok((bits, rest)) => Ok((Tree::Integer(number_of(bits)), rest)),
                }
            } else if tag == TAG_FLOAT {
                match take_u64(rest) {
                    Err(e) => Err(e),
                    Ok((bits, rest)) => Ok((Tree::Float(bits), rest)),
                }
            } else if tag == TAG_BOOLEAN {
                match take_flag(rest) {
                    Err(e) => Err(e),
                    Ok((flag, rest)) => Ok((Tree::Boolean(flag), rest)),
                }
            } else if tag == TAG_DATETIME {
                match decode_datetime(rest) {
                    Err(e) => Err(e),
                    Ok((datetime, rest)) => Ok((Tree::DateTime(datetime), rest)),
                }
            } else if tag == TAG_ARRAY {
                match take_length(rest) {
                    Err(e) => Err(e),
                    Ok((count, rest)) => match decode_items(rest, count, (depth - 1) as nat) {
                        Err(e) => Err(e),
                        Ok((items, rest)) => Ok((Tree::Array(items), rest)),
                    },
                }
            } else if tag == TAG_TABLE {
                match take_length(rest) {
                    Err(e) => Err(e),
                    Ok((count, rest)) => match decode_entries(rest, count, (depth - 1) as nat) {
                        Err(e) => Err(e),
                        Ok((entries, rest)) => Ok((Tree::Table(entries), rest)),
                    },
                }
            } else {
                Err(TransportError::MalformedVariant)
            },
        }
    }
}

/// `count` values, one behind the other.
pub open spec fn decode_items(bytes: Seq<u8>, count: nat, depth: nat) -> Parsed<Seq<Tree>>
    decreases depth, count,
{
    if count == 0 {
        Ok((Seq::empty(), bytes))
    } else {
        match decode_tree(bytes, depth) {
            Err(e) => Err(e),
            Ok((first, rest)) => match decode_items(rest, (count - 1) as nat, depth) {
                Err(e) => Err(e),
                Ok((others, rest)) => Ok((seq![first] + others, rest)),
            },
        }
    }
}

/// `count` entries, one behind the other.
pub open spec fn decode_entries(bytes: Seq<u8>, count: nat, depth: nat) -> Parsed<
    Seq<(Seq<char>, Tree)>,
>
    decreases depth, count,
{
    if count == 0 {
        Ok((Seq::empty(), bytes))
    } else {
        match decode_text(bytes) {
            Err(e) => Err(e),
            Ok((key, rest)) => match decode_tree(rest, depth) {
                Err(e) => Err(e),
                Ok((value, rest)) => match decode_entries(rest, (count - 1) as nat, depth) {
                    Err(e) => Err(e),
                    Ok((others, rest)) => Ok((seq![(key, value)] + others, rest)),
                },
            },
        }
    }
}

/// The value that `bytes` hold, when they hold one value and nothing else.
pub open spec fn decode_all(bytes: Seq<u8>) -> Result<Tree, TransportError> {
    match decode_tree(bytes, MAX_DEPTH as nat) {
        Err(e) => Err(e),
        Ok((tree, rest)) => if rest.len() == 0 {
            Ok(tree)
        } else {
            Err(TransportError::TrailingBytes)
        },
    }
}

/// The deepest of `items` is within `limit` exactly when each of them is.
pub proof fn lemma_items_depth_bound(items: Seq<Tree>, limit: nat)
    ensures
        items_depth(items) <= limit <==> forall|i: int|
            0 <= i < items.len() ==> (#[trigger] items[i]).depth() <= limit,
    decreases items.len(),
{
    if items.len() > 0 {
        let others = items.drop_first();
        lemma_items_depth_bound(others, limit);
        if items_depth(items) <= limit {
            assert forall|i: int| 0 <= i < items.len() implies (#[trigger] items[i]).depth()
                <= limit by {
                if i > 0 {
                    assert(others[i - 1] == items[i]);
                }
            }
        }
        if forall|i: int| 0 <= i < items.len() ==> (#[trigger] items[i]).depth() <= limit {
            assert(items[0].depth() <= limit);
            assert forall|i: int| 0 <= i < others.len() implies (#[trigger] others[i]).depth()
                <= limit by {
                assert(others[i] == items[i + 1]);
            }
        }
    }
}

/// The deepest value of `entries` is within `limit` exactly when each is.
pub proof fn lemma_entries_depth_bound(entries: Seq<(Seq<char>, Tree)>, limit: nat)
    ensures
        entries_depth(entries) <= limit <==> forall|i: int|
            0 <= i < entries.len() ==> (#[trigger] entries[i]).1.depth() <= limit,
    decreases entries.len(),
{
    if entries.len() > 0 {
        let others = entries.drop_first();
        lemma_entries_depth_bound(others, limit);
        if entries_depth(entries) <= limit {
            assert forall|i: int| 0 <= i < entries.len() implies (#[trigger] entries[i]).1.depth()
                <= limit by {
                if i > 0 {
                    assert(others[i - 1] == entries[i]);
                }
            }
        }
        if forall|i: int| 0 <= i < entries.len() ==> (#[trigger] entries[i]).1.depth() <= limit {
            assert(entries[0].1.depth() <= limit);
            assert forall|i: int| 0 <= i < others.len() implies (#[trigger] others[i]).1.depth()
                <= limit by {
                assert(others[i] == entries[i + 1]);
            }
        }
    }
}

/// The bytes of a sequence of items grow at the end with the sequence.
pub proof fn lemma_encode_items_push(items: Seq<Tree>, last: Tree)
    ensures
        encode_items(items.push(last)) == encode_items(items) + encode_tree(last),
    decreases items.len(),
{
    let grown = items.push(last);
    if items.len() == 0 {
        assert(grown.drop_first() =~= Seq::<Tree>::empty());
        assert(encode_items(grown.drop_first()) =~= Seq::<u8>::empty());
        assert(encode_items(grown) =~= encode_tree(last));
        assert(encode_items(items) + encode_tree(last) =~= encode_tree(last));
    } else {
        assert(grown.drop_first() =~= items.drop_first().push(last));
        lemma_encode_items_push(items.drop_first(), last);
        assert(encode_items(grown) =~= encode_items(items) + encode_tree(last));
    }
}

/// The bytes of a sequence of entries grow at the end with the sequence.
pub proof fn lemma_encode_entries_push(entries: Seq<(Seq<char>, Tree)>, last: (Seq<char>, Tree))
    ensures
        encode_entries(entries.push(last)) == encode_entries(entries) + (encode_text(last.0)
            + encode_tree(last.1)),
    decreases entries.len(),
{
    let grown = entries.push(last);
    if entries.len() == 0 {
        assert(grown.drop_first() =~= Seq::<(Seq<char>, Tree)>::empty());
        assert(encode_entries(grown.drop_first()) =~= Seq::<u8>::empty());
        assert(encode_entries(grown) =~= encode_text(last.0) + encode_tree(last.1));
        assert(encode_entries(entries) + (encode_text(last.0) + encode_tree(last.1))
            =~= encode_text(last.0) + encode_tree(last.1));
    } else {
        assert(grown.drop_first() =~= entries.drop_first().push(last));
        lemma_encode_entries_push(entries.drop_first(), last);
        assert(encode_entries(grown) =~= encode_entries(entries) + (encode_text(last.0)
            + encode_tree(last.1)));
    }
}

/// Whether `tree` is nested at most `limit` deep.
#[verifier::loop_isolation(false)]
pub fn depth_within(tree: &ValueTree, limit: usize) -> (within: bool)
    ensures
        within == (tree@.depth() <= limit),
    decreases tree,
{
    if limit == 0 {
        return false;
    }
    match tree {
        ValueTree::Array(items) => {
            proof {
                lemma_array_view(*items);
                lemma_items_depth_bound(item_views(items@), (limit - 1) as nat);
            }
            let mut i: usize = 0;
            while i < items.len()
                invariant
                    i <= items.len(),
                    forall|j: int| 0 <= j < i ==> (#[trigger] item_views(items@)[j]).depth() <= limit - 1,
                decreases items.len() - i,
            {
                if !depth_within(&items[i], limit - 1) {
                    assert(item_views(items@)[i as int].depth() > limit - 1);
                    return false;
                }
                i += 1;
            }
            true
        },
        ValueTree::Table(entries) => {
            proof {
                lemma_table_view(*entries);
                lemma_entries_depth_bound(entry_views(entries@), (limit - 1) as nat);
            }
            let mut i: usize = 0;
            while i < entries.len()
                invariant
                    i <= entries.len(),
                    forall|j: int|
                        0 <= j < i ==> (#[trigger] entry_views(entries@)[j]).1.depth() <= limit - 1,
                decreases entries.len() - i,
            {
                if !depth_within(&entries[i].1, limit - 1) {
                    assert(entry_views(entries@)[i as int].1.depth() > limit - 1);
                    return false;
                }
                i += 1;
            }
            true
        },
        _ => true,
    }
}

/// An array holds representable datetimes exactly when each item does.
pub proof fn lemma_array_datetimes(items: Seq<Tree>)
    ensures
        Tree::Array(items).datetimes_representable() <==> forall|i: int|
            0 <= i < items.len() ==> (#[trigger] items[i]).datetimes_representable(),
{
    let whole = Tree::Array(items);
    if whole.datetimes_representable() {
        assert forall|i: int| 0 <= i < items.len() implies (
        #[trigger] items[i]).datetimes_representable() by {
            assert(whole->Array_0[i].datetimes_representable());
        }
    }
    if forall|i: int| 0 <= i < items.len() ==> (#[trigger] items[i]).datetimes_representable() {
        assert(whole.datetimes_representable());
    }
}

/// A table holds representable datetimes exactly when each value does.
pub proof fn lemma_table_datetimes(entries: Seq<(Seq<char>, Tree)>)
    ensures
        Tree::Table(entries).datetimes_representable() <==> forall|i: int|
            0 <= i < entries.len() ==> (#[trigger] entries[i]).1.datetimes_representable(),
{
    let whole = Tree::Table(entries);
    if whole.datetimes_representable() {
        assert forall|i: int| 0 <= i < entries.len() implies (
        #[trigger] entries[i]).1.datetimes_representable() by {
            assert(whole->Table_0[i].1.datetimes_representable());
        }
    }
    if forall|i: int|
        0 <= i < entries.len() ==> (#[trigger] entries[i]).1.datetimes_representable() {
        assert(whole.datetimes_representable());
    }
}

/// Whether every datetime in `tree` is representable.
#[verifier::loop_isolation(false)]
pub fn datetimes_representable(tree: &ValueTree) -> (ok: bool)
    ensures
        ok == tree@.datetimes_representable(),
    decreases tree,
{
    match tree {
        ValueTree::DateTime(datetime) => datetime.is_representable(),
        ValueTree::Array(items) => {
            proof {
                lemma_array_view(*items);
                lemma_array_datetimes(item_views(items@));
            }
            let mut i: usize = 0;
            while i < items.len()
                invariant
                    i <= items.len(),
                    forall|j: int|
                        0 <= j < i ==> (#[trigger] item_views(items@)[j]).datetimes_representable(),
                decreases items.len() - i,
            {
                if !datetimes_representable(&items[i]) {
                    assert(!item_views(items@)[i as int].datetimes_representable());
                    return false;
                }
                i += 1;
            }
            true
        },
        ValueTree::Table(entries) => {
            proof {
                lemma_table_view(*entries);
                lemma_table_datetimes(entry_views(entries@));
            }
            let mut i: usize = 0;
            while i < entries.len()
                invariant
                    i <= entries.len(),
                    forall|j: int|
                        0 <= j < i ==> (#[trigger] entry_views(
                            entries@,
                        )[j]).1.datetimes_representable(),
                decreases entries.len() - i,
            {
                if !datetimes_representable(&entries[i].1) {
                    assert(!entry_views(entries@)[i as int].1.datetimes_representable());
                    return false;
                }
                i += 1;
            }
            true
        },
        _ => true,
    }
}

fn write_u16(out: &mut Vec<u8>, number: u16)
    ensures
        final(out)@ == old(out)@ + spec_u16_to_le_bytes(number),
{
    let mut bytes = u16_to_le_bytes(number);
    out.append(&mut bytes);
}

fn write_u32(out: &mut Vec<u8>, number: u32)
    ensures
        final(out)@ == old(out)@ + spec_u32_to_le_bytes(number),
{
    let mut bytes = u32_to_le_bytes(number);
    out.append(&mut bytes);
}

fn write_u64(out: &mut Vec<u8>, number: u64)
    ensures
        final(out)@ == old(out)@ + spec_u64_to_le_bytes(number),
{
    let mut bytes = u64_to_le_bytes(number);
    out.append(&mut bytes);
}

fn write_flag(out: &mut Vec<u8>, flag: bool)
    ensures
        final(out)@ == old(out)@ + encode_flag(flag),
{
    out.push(if flag { 1u8 } else { 0u8 });
    assert(out@ =~= old(out)@ + encode_flag(flag));
}

fn write_text(out: &mut Vec<u8>, text: &String)
    ensures
        final(out)@ == old(out)@ + encode_text(text@),
        encode_utf8(text@).len() <= usize::MAX,
{
    let mut bytes = text.as_str().as_bytes_vec();
    write_u64(out, bytes.len() as u64);
    out.append(&mut bytes);
    assert(out@ =~= old(out)@ + encode_text(text@));
}

fn write_datetime(out: &mut Vec<u8>, datetime: &DateTime)
    ensures
        final(out)@ == old(out)@ + encode_datetime(*datetime),
{
    let ghost start = out@;
    match &datetime.date {
        Some(date) => {
            write_flag(out, true);
            write_u16(out, date.year);
            out.push(date.month);
            out.push(date.day);
            assert(out@ =~= start + (encode_flag(true) + encode_date(*date)));
        },
        None => {
            write_flag(out, false);
        },
    }
    let ghost middle = out@;
    match &datetime.time {
        Some(time) => {
            write_flag(out, true);
            out.push(time.hour);
            out.push(time.minute);
            out.push(time.second);
            write_u32(out, time.nanosecond);
            assert(out@ =~= middle + (encode_flag(true) + encode_time(*time)));
        },
        None => {
            write_flag(out, false);
        },
    }
    let ghost late = out@;
    match &datetime.offset {
        None => {
            out.push(0u8);
        },
        Some(Offset::Z) => {
            out.push(1u8);
        },
        Some(Offset::Custom { hours, minutes }) => {
            out.push(2u8);
            out.push(*hours as u8);
            out.push(*minutes);
        },
    }
    assert(out@ =~= late + encode_offset(datetime.offset));
    assert(out@ =~= old(out)@ + encode_datetime(*datetime));
}

/// Puts the bytes of `tree` at the end of `out`.
#[verifier::loop_isolation(false)]
#[verifier::rlimit(40)]
fn write_tree(out: &mut Vec<u8>, tree: &ValueTree)
    ensures
        final(out)@ == old(out)@ + encode_tree(tree@),
        tree@.fits(),
    decreases tree,
{
    let ghost start = out@;
    match tree {
        ValueTree::String(text) => {
            out.push(TAG_STRING);
            write_text(out, text);
            assert(out@ =~= start + encode_tree(tree@));
        },
        ValueTree::Integer(number) => {
            out.push(TAG_INTEGER);
            write_u64(out, *number as u64);
            assert(out@ =~= start + encode_tree(tree@));
        },
        ValueTree::Float(bits) => {
            out.push(TAG_FLOAT);
            write_u64(out, *bits);
            assert(out@ =~= start + encode_tree(tree@));
        },
        ValueTree::Boolean(flag) => {
            out.push(TAG_BOOLEAN);
            write_flag(out, *flag);
            assert(out@ =~= start + encode_tree(tree@));
        },
        ValueTree::DateTime(datetime) => {
            out.push(TAG_DATETIME);
            write_datetime(out, datetime);
            assert(out@ =~= start + encode_tree(tree@));
        },
        ValueTree::Array(items) => {
            proof {
                lemma_array_view(*items);
            }
            let ghost views = item_views(items@);
            out.push(TAG_ARRAY);
            write_u64(out, items.len() as u64);
            let ghost head = out@;
            let mut i: usize = 0;
            assert(views.take(0) =~= Seq::<Tree>::empty());
            while i < items.len()
                invariant
                    i <= items.len(),
                    out@ == head + encode_items(views.take(i as int)),
                    forall|j: int| 0 <= j < i ==> (#[trigger] views[j]).fits(),
                decreases items.len() - i,
            {
                let ghost before = out@;
                write_tree(out, &items[i]);
                proof {
                    lemma_encode_items_push(views.take(i as int), views[i as int]);
                    assert(views.take(i + 1) =~= views.take(i as int).push(views[i as int]));
                    assert(out@ =~= head + encode_items(views.take(i + 1)));
                }
                i += 1;
            }
            assert(views.take(i as int) =~= views);
            assert(out@ =~= start + encode_tree(tree@));
        },
        ValueTree::Table(entries) => {
            proof {
                lemma_table_view(*entries);
            }
            let ghost views = entry_views(entries@);
            out.push(TAG_TABLE);
            write_u64(out, entries.len() as u64);
            let ghost head = out@;
            let mut i: usize = 0;
            assert(views.take(0) =~= Seq::<(Seq<char>, Tree)>::empty());
            while i < entries.len()
                invariant
                    i <= entries.len(),
                    out@ == head + encode_entries(views.take(i as int)),
                    forall|j: int|
                        0 <= j < i ==> encode_utf8((#[trigger] views[j]).0).len() <= usize::MAX
                            && views[j].1.fits(),
                decreases entries.len() - i,
            {
                let ghost before = out@;
                write_text(out, &entries[i].0);
                write_tree(out, &entries[i].1);
                proof {
                    lemma_encode_entries_push(views.take(i as int), views[i as int]);
                    assert(views.take(i + 1) =~= views.take(i as int).push(views[i as int]));
                    assert(out@ =~= head + encode_entries(views.take(i + 1)));
                }
                i += 1;
            }
            assert(views.take(i as int) =~= views);
            assert(out@ =~= start + encode_tree(tree@));
        },
    }
}

/// The bytes of `tree`, which decode to `tree` again. A value that is nested
/// too deeply is refused, and then one that holds a datetime that cannot be
/// represented.
pub fn encode(tree: &ValueTree) -> (outcome: Result<Vec<u8>, TransportError>)
    ensures
        match outcome {
            Ok(bytes) => tree@.transportable() && bytes@ == encode_tree(tree@) && decode_all(
                bytes@,
            ) == Ok::<Tree, TransportError>(tree@),
            Err(e) => if tree@.depth() > MAX_DEPTH {
                e == TransportError::TooDeep
            } else {
                e == TransportError::UnrepresentableDatetime && !tree@.datetimes_representable()
            },
        },
{
    if !depth_within(tree, MAX_DEPTH) {
        return Err(TransportError::TooDeep);
    }
    if !datetimes_representable(tree) {
        return Err(TransportError::UnrepresentableDatetime);
    }
    let mut out: Vec<u8> = Vec::new();
    write_tree(&mut out, tree);
    assert(out@ =~= encode_tree(tree@));
    proof {
        crate::roundtrip::lemma_round_trip(tree@);
    }
    Ok(out)
}


/// `std::str::from_utf8`. The standard library documents that it succeeds
/// exactly on valid UTF-8, and that the text then consists of the characters
/// that those bytes encode.
#[verifier::external_body]
fn text_from_utf8<'a>(bytes: &'a [u8]) -> (text: Option<&'a str>)
    ensures
        text is Some <==> valid_utf8(bytes@),
        text matches Some(read) ==> read@ == decode_utf8(bytes@),
{
    std::str::from_utf8(bytes).ok()
}

/// Whether the outcome of reading at a position is what decoding says of the
/// bytes from that position on.
spec fn read_as<T>(
    outcome: Result<(T, usize), TransportError>,
    bytes: Seq<u8>,
    parsed: Parsed<T>,
) -> bool {
    match parsed {
        Ok((value, rest)) => outcome matches Ok((got, next)) && got == value && next
            <= bytes.len() && rest == bytes.skip(next as int),
        Err(e) => outcome matches Err(got) && got == e,
    }
}

/// The same for a value, which is compared by its model.
spec fn tree_read_as(
    outcome: Result<(ValueTree, usize), TransportError>,
    bytes: Seq<u8>,
    parsed: Parsed<Tree>,
) -> bool {
    match parsed {
        Ok((value, rest)) => outcome matches Ok((got, next)) && got@ == value && next
            <= bytes.len() && rest == bytes.skip(next as int),
        Err(e) => outcome matches Err(got) && got == e,
    }
}

/// What was read before, put in front of what is read next.
spec fn prepend<T>(front: Seq<T>, parsed: Parsed<Seq<T>>) -> Parsed<Seq<T>> {
    match parsed {
        Ok((back, rest)) => Ok((front + back, rest)),
        Err(e) => Err(e),
    }
}

fn read_u8(bytes: &[u8], at: usize) -> (outcome: Result<(u8, usize), TransportError>)
    requires
        at <= bytes@.len(),
    ensures
        read_as(outcome, bytes@, take_u8(bytes@.skip(at as int))),
{
    if at >= bytes.len() {
        Err(TransportError::Truncated)
    } else {
        assert(bytes@.skip(at as int).skip(1) =~= bytes@.skip(at + 1));
        Ok((bytes[at], at + 1))
    }
}

fn read_u16(bytes: &[u8], at: usize) -> (outcome: Result<(u16, usize), TransportError>)
    requires
        at <= bytes@.len(),
    ensures
        read_as(outcome, bytes@, take_u16(bytes@.skip(at as int))),
{
    if bytes.len() - at < 2 {
        Err(TransportError::Truncated)
    } else {
        let field = slice_subrange(bytes, at, at + 2);
        assert(field@ =~= bytes@.skip(at as int).subrange(0, 2));
        assert(bytes@.skip(at as int).skip(2) =~= bytes@.skip(at + 2));
        Ok((u16_from_le_bytes(field), at + 2))
    }
}

fn read_u32(bytes: &[u8], at: usize) -> (outcome: Result<(u32, usize), TransportError>)
    requires
        at <= bytes@.len(),
    ensures
        read_as(outcome, bytes@, take_u32(bytes@.skip(at as int))),
{
    if bytes.len() - at < 4 {
        Err(TransportError::Truncated)
    } else {
        let field = slice_subrange(bytes, at, at + 4);
        assert(field@ =~= bytes@.skip(at as int).subrange(0, 4));
        assert(bytes@.skip(at as int).skip(4) =~= bytes@.skip(at + 4));
        Ok((u32_from_le_bytes(field), at + 4))
    }
}

fn read_u64(bytes: &[u8], at: usize) -> (outcome: Result<(u64, usize), TransportError>)
    requires
        at <= bytes@.len(),
    ensures
        read_as(outcome, bytes@, take_u64(bytes@.skip(at as int))),
{
    if bytes.len() - at < 8 {
        Err(TransportError::Truncated)
    } else {
        let field = slice_subrange(bytes, at, at + 8);
        assert(field@ =~= bytes@.skip(at as int).subrange(0, 8));
        assert(bytes@.skip(at as int).skip(8) =~= bytes@.skip(at + 8));
        Ok((u64_from_le_bytes(field), at + 8))
    }
}

fn read_length(bytes: &[u8], at: usize) -> (outcome: Result<(usize, usize), TransportError>)
    requires
        at <= bytes@.len(),
    ensures
        match take_length(bytes@.skip(at as int)) {
            Ok((length, rest)) => outcome matches Ok((got, next)) && got == length && next
                <= bytes@.len() && rest == bytes@.skip(next as int),
            Err(e) => outcome matches Err(got) && got == e,
        },
{
    match read_u64(bytes, at) {
        Err(e) => Err(e),
        Ok((length, next)) => {
            if length > usize::MAX as u64 {
                Err(TransportError::IntegerOverflow)
            } else {
                Ok((length as usize, next))
            }
        },
    }
}

fn read_flag(bytes: &[u8], at: usize) -> (outcome: Result<(bool, usize), TransportError>)
    requires
        at <= bytes@.len(),
    ensures
        read_as(outcome, bytes@, take_flag(bytes@.skip(at as int))),
{
    match read_u8(bytes, at) {
        Err(e) => Err(e),
        Ok((byte, next)) => {
            if byte == 0 {
                Ok((false, next))
            } else if byte == 1 {
                Ok((true, next))
            } else {
                Err(TransportError::MalformedVariant)
            }
        },
    }
}

fn read_text(bytes: &[u8], at: usize) -> (outcome: Result<(String, usize), TransportError>)
    requires
        at <= bytes@.len(),
    ensures
        match decode_text(bytes@.skip(at as int)) {
            Ok((text, rest)) => outcome matches Ok((got, next)) && got@ == text && next
                <= bytes@.len() && rest == bytes@.skip(next as int),
            Err(e) => outcome matches Err(got) && got == e,
        },
{
    match read_length(bytes, at) {
        Err(e) => Err(e),
        Ok((length, start)) => {
            if bytes.len() - start < length {
                Err(TransportError::Truncated)
            } else {
                let raw = slice_subrange(bytes, start, start + length);
                assert(raw@ =~= bytes@.skip(start as int).subrange(0, length as int));
                assert(bytes@.skip(start as int).skip(length as int) =~= bytes@.skip(
                    start + length,
                ));
                match text_from_utf8(raw) {
                    None => Err(TransportError::InvalidText),
                    Some(text) => Ok((text.to_owned(), start + length)),
                }
            }
        },
    }
}

fn read_date(bytes: &[u8], at: usize) -> (outcome: Result<(Date, usize), TransportError>)
    requires
        at <= bytes@.len(),
    ensures
        read_as(outcome, bytes@, decode_date(bytes@.skip(at as int))),
{
    let (year, at) = match read_u16(bytes, at) {
        Err(e) => {
            return Err(e);
        },
        Ok(read) => read,
    };
    let (month, at) = match read_u8(bytes, at) {
        Err(e) => {
            return Err(e);
        },
        Ok(read) => read,
    };
    let (day, at) = match read_u8(bytes, at) {
        Err(e) => {
            return Err(e);
        },
        Ok(read) => read,
    };
    Ok((Date { year, month, day }, at))
}

fn read_time(bytes: &[u8], at: usize) -> (outcome: Result<(Time, usize), TransportError>)
    requires
        at <= bytes@.len(),
    ensures
        read_as(outcome, bytes@, decode_time(bytes@.skip(at as int))),
{
    let (hour, at) = match read_u8(bytes, at) {
        Err(e) => {
            return Err(e);
        },
        Ok(read) => read,
    };
    let (minute, at) = match read_u8(bytes, at) {
        Err(e) => {
            return Err(e);
        },
        Ok(read) => read,
    };
    let (second, at) = match read_u8(bytes, at) {
        Err(e) => {
            return Err(e);
        },
        Ok(read) => read,
    };
    let (nanosecond, at) = match read_u32(bytes, at) {
        Err(e) => {
            return Err(e);
        },
        Ok(read) => read,
    };
    Ok((Time { hour, minute, second, nanosecond }, at))
}

fn read_offset(bytes: &[u8], at: usize) -> (outcome: Result<
    (Option<Offset>, usize),
    TransportError,
>)
    requires
        at <= bytes@.len(),
    ensures
        read_as(outcome, bytes@, decode_offset(bytes@.skip(at as int))),
{
    let (kind, at) = match read_u8(bytes, at) {
        Err(e) => {
            return Err(e);
        },
        Ok(read) => read,
    };
    if kind == 0 {
        Ok((None, at))
    } else if kind == 1 {
        Ok((Some(Offset::Z), at))
    } else if kind == 2 {
        let (hours, at) = match read_u8(bytes, at) {
            Err(e) => {
                return Err(e);
            },
            Ok(read) => read,
        };
        let (minutes, at) = match read_u8(bytes, at) {
            Err(e) => {
                return Err(e);
            },
            Ok(read) => read,
        };
        Ok((Some(Offset::Custom { hours: hours as i8, minutes }), at))
    } else {
        Err(TransportError::MalformedVariant)
    }
}

#[verifier::rlimit(40)]
fn read_datetime(bytes: &[u8], at: usize) -> (outcome: Result<(DateTime, usize), TransportError>)
    requires
        at <= bytes@.len(),
    ensures
        read_as(outcome, bytes@, decode_datetime(bytes@.skip(at as int))),
{
    let (has_date, at) = match read_flag(bytes, at) {
        Err(e) => {
            return Err(e);
        },
        Ok(read) => read,
    };
    let (date, at) = if has_date {
        match read_date(bytes, at) {
            Err(e) => {
                return Err(e);
            },
            Ok((date, at)) => (Some(date), at),
        }
    } else {
        (None, at)
    };
    let (has_time, at) = match read_flag(bytes, at) {
        Err(e) => {
            return Err(e);
        },
        Ok(read) => read,
    };
    let (time, at) = if has_time {
        match read_time(bytes, at) {
            Err(e) => {
                return Err(e);
            },
            Ok((time, at)) => (Some(time), at),
        }
    } else {
        (None, at)
    };
    let (offset, at) = match read_offset(bytes, at) {
        Err(e) => {
            return Err(e);
        },
        Ok(read) => read,
    };
    let datetime = DateTime { date, time, offset };
    if datetime.is_representable() {
        Ok((datetime, at))
    } else {
        Err(TransportError::UnrepresentableDatetime)
    }
}

/// Whether the outcome of reading items is what decoding says.
spec fn items_read_as(
    outcome: Result<(Vec<ValueTree>, usize), TransportError>,
    bytes: Seq<u8>,
    parsed: Parsed<Seq<Tree>>,
) -> bool {
    match parsed {
        Ok((items, rest)) => outcome matches Ok((got, next)) && item_views(got@) == items && next
            <= bytes.len() && rest == bytes.skip(next as int),
        Err(e) => outcome matches Err(got) && got == e,
    }
}

/// Whether the outcome of reading entries is what decoding says.
spec fn entries_read_as(
    outcome: Result<(Vec<(String, ValueTree)>, usize), TransportError>,
    bytes: Seq<u8>,
    parsed: Parsed<Seq<(Seq<char>, Tree)>>,
) -> bool {
    match parsed {
        Ok((entries, rest)) => outcome matches Ok((got, next)) && entry_views(got@) == entries
            && next <= bytes.len() && rest == bytes.skip(next as int),
        Err(e) => outcome matches Err(got) && got == e,
    }
}

/// One more item was read: what was read so far grows by it.
proof fn lemma_items_progress(
    before: Seq<Tree>,
    here: Seq<u8>,
    left: nat,
    depth: nat,
    first: Tree,
    behind: Seq<u8>,
)
    requires
        left > 0,
        decode_tree(here, depth) == Ok::<(Tree, Seq<u8>), TransportError>((first, behind)),
    ensures
        prepend(before, decode_items(here, left, depth)) == prepend(
            before.push(first),
            decode_items(behind, (left - 1) as nat, depth),
        ),
{
    match decode_items(behind, (left - 1) as nat, depth) {
        Ok((others, rest)) => {
            assert(before + (seq![first] + others) =~= before.push(first) + others);
        },
        Err(_) => {},
    }
}

/// One more entry was read: what was read so far grows by it.
proof fn lemma_entries_progress(
    before: Seq<(Seq<char>, Tree)>,
    here: Seq<u8>,
    left: nat,
    depth: nat,
    key: Seq<char>,
    middle: Seq<u8>,
    value: Tree,
    behind: Seq<u8>,
)
    requires
        left > 0,
        decode_text(here) == Ok::<(Seq<char>, Seq<u8>), TransportError>((key, middle)),
        decode_tree(middle, depth) == Ok::<(Tree, Seq<u8>), TransportError>((value, behind)),
    ensures
        prepend(before, decode_entries(here, left, depth)) == prepend(
            before.push((key, value)),
            decode_entries(behind, (left - 1) as nat, depth),
        ),
{
    match decode_entries(behind, (left - 1) as nat, depth) {
        Ok((others, rest)) => {
            assert(before + (seq![(key, value)] + others) =~= before.push((key, value)) + others);
        },
        Err(_) => {},
    }
}

/// Reads `count` values, one behind the other, from `at` on.
#[verifier::loop_isolation(false)]
#[verifier::rlimit(40)]
fn read_items(bytes: &[u8], at: usize, count: usize, depth: usize) -> (outcome: Result<
    (Vec<ValueTree>, usize),
    TransportError,
>)
    requires
        at <= bytes@.len(),
    ensures
        items_read_as(
            outcome,
            bytes@,
            decode_items(bytes@.skip(at as int), count as nat, depth as nat),
        ),
    decreases depth, 1nat,
{
    let ghost whole = decode_items(bytes@.skip(at as int), count as nat, depth as nat);
    let mut items: Vec<ValueTree> = Vec::new();
    let mut next = at;
    let mut left = count;
    proof {
        match whole {
            Ok((back, rest)) => {
                assert(item_views(items@) + back =~= back);
            },
            Err(_) => {},
        }
    }
    while left > 0
        invariant
            next <= bytes@.len(),
            prepend(
                item_views(items@),
                decode_items(bytes@.skip(next as int), left as nat, depth as nat),
            ) == whole,
        decreases left,
    {
        let ghost before = item_views(items@);
        match read_tree(bytes, next, depth) {
            Err(e) => {
                return Err(e);
            },
            Ok((item, after)) => {
                proof {
                    lemma_items_progress(
                        before,
                        bytes@.skip(next as int),
                        left as nat,
                        depth as nat,
                        item@,
                        bytes@.skip(after as int),
                    );
                }
                items.push(item);
                assert(item_views(items@) =~= before.push(item@));
                next = after;
                left = left - 1;
            },
        }
    }
    assert(item_views(items@) + Seq::<Tree>::empty() =~= item_views(items@));
    Ok((items, next))
}

/// Reads `count` entries, one behind the other, from `at` on.
#[verifier::loop_isolation(false)]
#[verifier::rlimit(40)]
fn read_entries(bytes: &[u8], at: usize, count: usize, depth: usize) -> (outcome: Result<
    (Vec<(String, ValueTree)>, usize),
    TransportError,
>)
    requires
        at <= bytes@.len(),
    ensures
        entries_read_as(
            outcome,
            bytes@,
            decode_entries(bytes@.skip(at as int), count as nat, depth as nat),
        ),
    decreases depth, 1nat,
{
    let ghost whole = decode_entries(bytes@.skip(at as int), count as nat, depth as nat);
    let mut entries: Vec<(String, ValueTree)> = Vec::new();
    let mut next = at;
    let mut left = count;
    proof {
        match whole {
            Ok((back, rest)) => {
                assert(entry_views(entries@) + back =~= back);
            },
            Err(_) => {},
        }
    }
    while left > 0
        invariant
            next <= bytes@.len(),
            prepend(
                entry_views(entries@),
                decode_entries(bytes@.skip(next as int), left as nat, depth as nat),
            ) == whole,
        decreases left,
    {
        let ghost before = entry_views(entries@);
        let (key, middle) = match read_text(bytes, next) {
            Err(e) => {
                return Err(e);
            },
            Ok(read) => read,
        };
        match read_tree(bytes, middle, depth) {
            Err(e) => {
                return Err(e);
            },
            Ok((value, after)) => {
                proof {
                    lemma_entries_progress(
                        before,
                        bytes@.skip(next as int),
                        left as nat,
                        depth as nat,
                        key@,
                        bytes@.skip(middle as int),
                        value@,
                        bytes@.skip(after as int),
                    );
                }
                entries.push((key, value));
                assert(entry_views(entries@) =~= before.push((key@, value@)));
                next = after;
                left = left - 1;
            },
        }
    }
    assert(entry_views(entries@) + Seq::<(Seq<char>, Tree)>::empty() =~= entry_views(entries@));
    Ok((entries, next))
}

/// Reads the value that starts at `at`, nested at most `depth` deep.
#[verifier::rlimit(40)]
fn read_tree(bytes: &[u8], at: usize, depth: usize) -> (outcome: Result<
    (ValueTree, usize),
    TransportError,
>)
    requires
        at <= bytes@.len(),
    ensures
        tree_read_as(outcome, bytes@, decode_tree(bytes@.skip(at as int), depth as nat)),
    decreases depth, 0nat,
{
    if depth == 0 {
        return Err(TransportError::TooDeep);
    }
    let (tag, at) = match read_u8(bytes, at) {
        Err(e) => {
            return Err(e);
        },
        Ok(read) => read,
    };
    if tag == TAG_STRING {
        match read_text(bytes, at) {
            Err(e) => Err(e),
            Ok((text, next)) => Ok((ValueTree::String(text), next)),
        }
    } else if tag == TAG_INTEGER {
        match read_u64(bytes, at) {
            Err(e) => Err(e),
            Ok((bits, next)) => Ok((ValueTree::Integer(bits as i64), next)),
        }
    } else if tag == TAG_FLOAT {
        match read_u64(bytes, at) {
            Err(e) => Err(e),
            Ok((bits, next)) => Ok((ValueTree::Float(bits), next)),
        }
    } else if tag == TAG_BOOLEAN {
        match read_flag(bytes, at) {
            Err(e) => Err(e),
            Ok((flag, next)) => Ok((ValueTree::Boolean(flag), next)),
        }
    } else if tag == TAG_DATETIME {
        match read_datetime(bytes, at) {
            Err(e) => Err(e),
            Ok((datetime, next)) => Ok((ValueTree::DateTime(datetime), next)),
        }
    } else if tag == TAG_ARRAY {
        let (count, start) = match read_length(bytes, at) {
            Err(e) => {
                return Err(e);
            },
            Ok(read) => read,
        };
        match read_items(bytes, start, count, depth - 1) {
            Err(e) => Err(e),
            Ok((items, next)) => {
                proof {
                    lemma_array_view(items);
                }
                Ok((ValueTree::Array(items), next))
            },
        }
    } else if tag == TAG_TABLE {
        let (count, start) = match read_length(bytes, at) {
            Err(e) => {
                return Err(e);
            },
            Ok(read) => read,
        };
        match read_entries(bytes, start, count, depth - 1) {
            Err(e) => Err(e),
            Ok((entries, next)) => {
                proof {
                    lemma_table_view(entries);
                }
                Ok((ValueTree::Table(entries), next))
            },
        }
    } else {
        Err(TransportError::MalformedVariant)
    }
}

/// The value that `bytes` hold. Fails when they hold no value, more than one,
/// or one that is nested more deeply than `MAX_DEPTH`.
pub fn decode(bytes: &[u8]) -> (outcome: Result<ValueTree, TransportError>)
    ensures
        match decode_all(bytes@) {
            Ok(tree) => outcome matches Ok(got) && got@ == tree,
            Err(e) => outcome matches Err(got) && got == e,
        },
{
    assert(bytes@.skip(0) =~= bytes@);
    match read_tree(bytes, 0, MAX_DEPTH) {
        Err(e) => Err(e),
        Ok((tree, next)) => {
            if next == bytes.len() {
                Ok(tree)
            } else {
                Err(TransportError::TrailingBytes)
            }
        },
    }
}


} // verus!
