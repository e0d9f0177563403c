//! Decoding gives back what was encoded.
//!
//! Every lemma here has the same shape: the bytes of a thing, followed by any
//! other bytes, decode to that thing and leave the other bytes.

use vstd::prelude::*;
use vstd::bytes::*;
use vstd::utf8::*;
use crate::codec::{
    bits_of, decode_all, decode_date, decode_datetime, decode_entries, decode_items,
    decode_offset, decode_optional_date, decode_optional_time, decode_text, decode_time,
    decode_tree, encode_date, encode_datetime, encode_entries, encode_flag, encode_items,
    encode_offset, encode_text, encode_time, encode_tree, entries_depth, items_depth, take_flag,
    take_length, take_u16, take_u32, take_u64, take_u8, TransportError, MAX_DEPTH, TAG_ARRAY,
    TAG_BOOLEAN, TAG_DATETIME, TAG_FLOAT, TAG_INTEGER, TAG_STRING, TAG_TABLE,
};
use crate::value::{Date, DateTime, Offset, Time, Tree};

verus! {

proof fn lemma_take_u8(byte: u8, rest: Seq<u8>)
    ensures
        take_u8(seq![byte] + rest) == Ok::<(u8, Seq<u8>), TransportError>((byte, rest)),
{
    assert((seq![byte] + rest).skip(1) =~= rest);
}

proof fn lemma_take_u16(number: u16, rest: Seq<u8>)
    ensures
        take_u16(spec_u16_to_le_bytes(number) + rest) == Ok::<(u16, Seq<u8>), TransportError>(
            (number, rest),
        ),
{
    lemma_auto_spec_u16_to_from_le_bytes();
    let head = spec_u16_to_le_bytes(number);
    assert((head + rest).subrange(0, 2) =~= head);
    assert((head + rest).skip(2) =~= rest);
}

proof fn lemma_take_u32(number: u32, rest: Seq<u8>)
    ensures
        take_u32(spec_u32_to_le_bytes(number) + rest) == Ok::<(u32, Seq<u8>), TransportError>(
            (number, rest),
        ),
{
    lemma_auto_spec_u32_to_from_le_bytes();
    let head = spec_u32_to_le_bytes(number);
    assert((head + rest).subrange(0, 4) =~= head);
    assert((head + rest).skip(4) =~= rest);
}

proof fn lemma_take_u64(number: u64, rest: Seq<u8>)
    ensures
        take_u64(spec_u64_to_le_bytes(number) + rest) == Ok::<(u64, Seq<u8>), TransportError>(
            (number, rest),
        ),
{
    lemma_auto_spec_u64_to_from_le_bytes();
    let head = spec_u64_to_le_bytes(number);
    assert((head + rest).subrange(0, 8) =~= head);
    assert((head + rest).skip(8) =~= rest);
}

proof fn lemma_take_length(length: nat, rest: Seq<u8>)
    requires
        length <= usize::MAX,
    ensures
        take_length(spec_u64_to_le_bytes(length as u64) + rest) == Ok::<
            (nat, Seq<u8>),
            TransportError,
        >((length, rest)),
{
    lemma_take_u64(length as u64, rest);
}

proof fn lemma_take_flag(flag: bool, rest: Seq<u8>)
    ensures
        take_flag(encode_flag(flag) + rest) == Ok::<(bool, Seq<u8>), TransportError>(
            (flag, rest),
        ),
{
    lemma_take_u8(if flag { 1u8 } else { 0u8 }, rest);
}

#[verifier::rlimit(40)]
proof fn lemma_decode_text(text: Seq<char>, rest: Seq<u8>)
    requires
        encode_utf8(text).len() <= usize::MAX,
    ensures
        decode_text(encode_text(text) + rest) == Ok::<(Seq<char>, Seq<u8>), TransportError>(
            (text, rest),
        ),
{
    let raw = encode_utf8(text);
    let head = spec_u64_to_le_bytes(raw.len() as u64);
    assert(encode_text(text) + rest =~= head + (raw + rest));
    lemma_take_length(raw.len(), raw + rest);
    assert((raw + rest).subrange(0, raw.len() as int) =~= raw);
    assert((raw + rest).skip(raw.len() as int) =~= rest);
    encode_utf8_valid_utf8(text);
    encode_utf8_decode_utf8(text);
}

proof fn lemma_decode_date(date: Date, rest: Seq<u8>)
    ensures
        decode_date(encode_date(date) + rest) == Ok::<(Date, Seq<u8>), TransportError>(
            (date, rest),
        ),
{
    let tail = seq![date.month, date.day] + rest;
    assert(encode_date(date) + rest =~= spec_u16_to_le_bytes(date.year) + tail);
    lemma_take_u16(date.year, tail);
    assert(tail =~= seq![date.month] + (seq![date.day] + rest));
    lemma_take_u8(date.month, seq![date.day] + rest);
    lemma_take_u8(date.day, rest);
}

proof fn lemma_decode_time(time: Time, rest: Seq<u8>)
    ensures
        decode_time(encode_time(time) + rest) == Ok::<(Time, Seq<u8>), TransportError>(
            (time, rest),
        ),
{
    let nanos = spec_u32_to_le_bytes(time.nanosecond) + rest;
    let seconds = seq![time.second] + nanos;
    let minutes = seq![time.minute] + seconds;
    assert(encode_time(time) + rest =~= seq![time.hour] + minutes);
    lemma_take_u8(time.hour, minutes);
    lemma_take_u8(time.minute, seconds);
    lemma_take_u8(time.second, nanos);
    lemma_take_u32(time.nanosecond, rest);
}

proof fn lemma_decode_offset(offset: Option<Offset>, rest: Seq<u8>)
    ensures
        decode_offset(encode_offset(offset) + rest) == Ok::<
            (Option<Offset>, Seq<u8>),
            TransportError,
        >((offset, rest)),
{
    match offset {
        None => {
            lemma_take_u8(0u8, rest);
        },
        Some(Offset::Z) => {
            lemma_take_u8(1u8, rest);
        },
        Some(Offset::Custom { hours, minutes }) => {
            let low = seq![minutes] + rest;
            let high = seq![hours as u8] + low;
            assert(encode_offset(offset) + rest =~= seq![2u8] + high);
            lemma_take_u8(2u8, high);
            lemma_take_u8(hours as u8, low);
            lemma_take_u8(minutes, rest);
            assert((hours as u8) as i8 == hours) by (bit_vector);
        },
    }
}

proof fn lemma_decode_optional_date(date: Option<Date>, rest: Seq<u8>)
    ensures
        decode_optional_date(date_bytes(date) + rest) == Ok::<
            (Option<Date>, Seq<u8>),
            TransportError,
        >((date, rest)),
{
    match date {
        Some(inner) => {
            assert((encode_flag(true) + encode_date(inner)) + rest =~= encode_flag(true) + (
            encode_date(inner) + rest));
            lemma_take_flag(true, encode_date(inner) + rest);
            lemma_decode_date(inner, rest);
        },
        None => {
            lemma_take_flag(false, rest);
        },
    }
}

proof fn lemma_decode_optional_time(time: Option<Time>, rest: Seq<u8>)
    ensures
        decode_optional_time(time_bytes(time) + rest) == Ok::<
            (Option<Time>, Seq<u8>),
            TransportError,
        >((time, rest)),
{
    match time {
        Some(inner) => {
            assert((encode_flag(true) + encode_time(inner)) + rest =~= encode_flag(true) + (
            encode_time(inner) + rest));
            lemma_take_flag(true, encode_time(inner) + rest);
            lemma_decode_time(inner, rest);
        },
        None => {
            lemma_take_flag(false, rest);
        },
    }
}

/// The bytes of the date of a datetime, present or not.
pub open spec fn date_bytes(date: Option<Date>) -> Seq<u8> {
    match date {
        Some(date) => encode_flag(true) + encode_date(date),
        None => encode_flag(false),
    }
}

/// The bytes of the time of a datetime, present or not.
pub open spec fn time_bytes(time: Option<Time>) -> Seq<u8> {
    match time {
        Some(time) => encode_flag(true) + encode_time(time),
        None => encode_flag(false),
    }
}

proof fn lemma_datetime_parts(datetime: DateTime, rest: Seq<u8>)
    ensures
        encode_datetime(datetime) + rest == date_bytes(datetime.date) + (time_bytes(datetime.time)
            + (encode_offset(datetime.offset) + rest)),
{
    assert(encode_datetime(datetime) + rest =~= date_bytes(datetime.date) + (time_bytes(
        datetime.time,
    ) + (encode_offset(datetime.offset) + rest)));
}

proof fn lemma_decode_datetime_parts(
    bytes: Seq<u8>,
    datetime: DateTime,
    behind_date: Seq<u8>,
    behind_time: Seq<u8>,
    rest: Seq<u8>,
)
    requires
        datetime.representable(),
        decode_optional_date(bytes) == Ok::<(Option<Date>, Seq<u8>), TransportError>(
            (datetime.date, behind_date),
        ),
        decode_optional_time(behind_date) == Ok::<(Option<Time>, Seq<u8>), TransportError>(
            (datetime.time, behind_time),
        ),
        decode_offset(behind_time) == Ok::<(Option<Offset>, Seq<u8>), TransportError>(
            (datetime.offset, rest),
        ),
    ensures
        decode_datetime(bytes) == Ok::<(DateTime, Seq<u8>), TransportError>((datetime, rest)),
{
}

#[verifier::rlimit(40)]
proof fn lemma_decode_datetime(datetime: DateTime, rest: Seq<u8>)
    requires
        datetime.representable(),
    ensures
        decode_datetime(encode_datetime(datetime) + rest) == Ok::<
            (DateTime, Seq<u8>),
            TransportError,
        >((datetime, rest)),
{
    let behind_time = encode_offset(datetime.offset) + rest;
    let behind_date = time_bytes(datetime.time) + behind_time;
    lemma_datetime_parts(datetime, rest);
    lemma_decode_optional_date(datetime.date, behind_date);
    lemma_decode_optional_time(datetime.time, behind_time);
    lemma_decode_offset(datetime.offset, rest);
    lemma_decode_datetime_parts(
        encode_datetime(datetime) + rest,
        datetime,
        behind_date,
        behind_time,
        rest,
    );
}

proof fn lemma_decode_string(text: Seq<char>, rest: Seq<u8>, depth: nat)
    requires
        depth > 0,
        encode_utf8(text).len() <= usize::MAX,
    ensures
        decode_tree(encode_tree(Tree::String(text)) + rest, depth) == Ok::<
            (Tree, Seq<u8>),
            TransportError,
        >((Tree::String(text), rest)),
{
    assert(encode_tree(Tree::String(text)) + rest =~= seq![TAG_STRING] + (encode_text(text)
        + rest));
    lemma_take_u8(TAG_STRING, encode_text(text) + rest);
    lemma_decode_text(text, rest);
}

proof fn lemma_decode_integer(number: i64, rest: Seq<u8>, depth: nat)
    requires
        depth > 0,
    ensures
        decode_tree(encode_tree(Tree::Integer(number)) + rest, depth) == Ok::<
            (Tree, Seq<u8>),
            TransportError,
        >((Tree::Integer(number), rest)),
{
    let payload = spec_u64_to_le_bytes(bits_of(number));
    assert(encode_tree(Tree::Integer(number)) + rest =~= seq![TAG_INTEGER] + (payload + rest));
    lemma_take_u8(TAG_INTEGER, payload + rest);
    lemma_take_u64(bits_of(number), rest);
    assert((number as u64) as i64 == number) by (bit_vector);
}

proof fn lemma_decode_float(bits: u64, rest: Seq<u8>, depth: nat)
    requires
        depth > 0,
    ensures
        decode_tree(encode_tree(Tree::Float(bits)) + rest, depth) == Ok::<
            (Tree, Seq<u8>),
            TransportError,
        >((Tree::Float(bits), rest)),
{
    let payload = spec_u64_to_le_bytes(bits);
    assert(encode_tree(Tree::Float(bits)) + rest =~= seq![TAG_FLOAT] + (payload + rest));
    lemma_take_u8(TAG_FLOAT, payload + rest);
    lemma_take_u64(bits, rest);
}

proof fn lemma_decode_boolean(flag: bool, rest: Seq<u8>, depth: nat)
    requires
        depth > 0,
    ensures
        decode_tree(encode_tree(Tree::Boolean(flag)) + rest, depth) == Ok::<
            (Tree, Seq<u8>),
            TransportError,
        >((Tree::Boolean(flag), rest)),
{
    assert(encode_tree(Tree::Boolean(flag)) + rest =~= seq![TAG_BOOLEAN] + (encode_flag(flag)
        + rest));
    lemma_take_u8(TAG_BOOLEAN, encode_flag(flag) + rest);
    lemma_take_flag(flag, rest);
}

proof fn lemma_decode_datetime_value(datetime: DateTime, rest: Seq<u8>, depth: nat)
    requires
        depth > 0,
        datetime.representable(),
    ensures
        decode_tree(encode_tree(Tree::DateTime(datetime)) + rest, depth) == Ok::<
            (Tree, Seq<u8>),
            TransportError,
        >((Tree::DateTime(datetime), rest)),
{
    assert(encode_tree(Tree::DateTime(datetime)) + rest =~= seq![TAG_DATETIME] + (
    encode_datetime(datetime) + rest));
    lemma_take_u8(TAG_DATETIME, encode_datetime(datetime) + rest);
    lemma_decode_datetime(datetime, rest);
}

proof fn lemma_decode_array(items: Seq<Tree>, rest: Seq<u8>, depth: nat)
    requires
        depth > 0,
        items.len() <= usize::MAX,
        decode_items(encode_items(items) + rest, items.len(), (depth - 1) as nat) == Ok::<
            (Seq<Tree>, Seq<u8>),
            TransportError,
        >((items, rest)),
    ensures
        decode_tree(encode_tree(Tree::Array(items)) + rest, depth) == Ok::<
            (Tree, Seq<u8>),
            TransportError,
        >((Tree::Array(items), rest)),
{
    let count = spec_u64_to_le_bytes(items.len() as u64);
    assert(encode_tree(Tree::Array(items)) + rest =~= seq![TAG_ARRAY] + (count + (encode_items(
        items,
    ) + rest)));
    lemma_take_u8(TAG_ARRAY, count + (encode_items(items) + rest));
    lemma_take_length(items.len(), encode_items(items) + rest);
}

proof fn lemma_decode_table(entries: Seq<(Seq<char>, Tree)>, rest: Seq<u8>, depth: nat)
    requires
        depth > 0,
        entries.len() <= usize::MAX,
        decode_entries(encode_entries(entries) + rest, entries.len(), (depth - 1) as nat) == Ok::<
            (Seq<(Seq<char>, Tree)>, Seq<u8>),
            TransportError,
        >((entries, rest)),
    ensures
        decode_tree(encode_tree(Tree::Table(entries)) + rest, depth) == Ok::<
            (Tree, Seq<u8>),
            TransportError,
        >((Tree::Table(entries), rest)),
{
    let count = spec_u64_to_le_bytes(entries.len() as u64);
    assert(encode_tree(Tree::Table(entries)) + rest =~= seq![TAG_TABLE] + (count + (
    encode_entries(entries) + rest)));
    lemma_take_u8(TAG_TABLE, count + (encode_entries(entries) + rest));
    lemma_take_length(entries.len(), encode_entries(entries) + rest);
}

proof fn lemma_decode_items_step(
    bytes: Seq<u8>,
    count: nat,
    depth: nat,
    first: Tree,
    middle: Seq<u8>,
    others: Seq<Tree>,
    rest: Seq<u8>,
)
    requires
        count > 0,
        decode_tree(bytes, depth) == Ok::<(Tree, Seq<u8>), TransportError>((first, middle)),
        decode_items(middle, (count - 1) as nat, depth) == Ok::<
            (Seq<Tree>, Seq<u8>),
            TransportError,
        >((others, rest)),
    ensures
        decode_items(bytes, count, depth) == Ok::<(Seq<Tree>, Seq<u8>), TransportError>(
            (seq![first] + others, rest),
        ),
{
}

proof fn lemma_decode_entries_step(
    bytes: Seq<u8>,
    count: nat,
    depth: nat,
    key: Seq<char>,
    behind_key: Seq<u8>,
    value: Tree,
    middle: Seq<u8>,
    others: Seq<(Seq<char>, Tree)>,
    rest: Seq<u8>,
)
    requires
        count > 0,
        decode_text(bytes) == Ok::<(Seq<char>, Seq<u8>), TransportError>((key, behind_key)),
        decode_tree(behind_key, depth) == Ok::<(Tree, Seq<u8>), TransportError>((value, middle)),
        decode_entries(middle, (count - 1) as nat, depth) == Ok::<
            (Seq<(Seq<char>, Tree)>, Seq<u8>),
            TransportError,
        >((others, rest)),
    ensures
        decode_entries(bytes, count, depth) == Ok::<
            (Seq<(Seq<char>, Tree)>, Seq<u8>),
            TransportError,
        >((seq![(key, value)] + others, rest)),
{
}

/// The bytes of a value that can be carried, followed by any bytes, decode to
/// the value and leave those bytes.
#[verifier::rlimit(40)]
pub proof fn lemma_decode_tree(tree: Tree, rest: Seq<u8>, depth: nat)
    requires
        tree.depth() <= depth,
        tree.datetimes_representable(),
        tree.fits(),
    ensures
        decode_tree(encode_tree(tree) + rest, depth) == Ok::<(Tree, Seq<u8>), TransportError>(
            (tree, rest),
        ),
    decreases tree,
{
    match tree {
        Tree::String(text) => {
            lemma_decode_string(text, rest, depth);
        },
        Tree::Integer(number) => {
            lemma_decode_integer(number, rest, depth);
        },
        Tree::Float(bits) => {
            lemma_decode_float(bits, rest, depth);
        },
        Tree::Boolean(flag) => {
            lemma_decode_boolean(flag, rest, depth);
        },
        Tree::DateTime(datetime) => {
            lemma_decode_datetime_value(datetime, rest, depth);
        },
        Tree::Array(items) => {
            lemma_decode_items(items, rest, (depth - 1) as nat);
            lemma_decode_array(items, rest, depth);
        },
        Tree::Table(entries) => {
            lemma_decode_entries(entries, rest, (depth - 1) as nat);
            lemma_decode_table(entries, rest, depth);
        },
    }
}

proof fn lemma_items_split(items: Seq<Tree>, rest: Seq<u8>)
    requires
        items.len() > 0,
    ensures
        encode_items(items) + rest == encode_tree(items[0]) + (encode_items(items.drop_first())
            + rest),
{
    assert(encode_items(items) + rest =~= encode_tree(items[0]) + (encode_items(
        items.drop_first(),
    ) + rest));
}

proof fn lemma_entries_split(entries: Seq<(Seq<char>, Tree)>, rest: Seq<u8>)
    requires
        entries.len() > 0,
    ensures
        encode_entries(entries) + rest == encode_text(entries[0].0) + (encode_tree(entries[0].1)
            + (encode_entries(entries.drop_first()) + rest)),
{
    assert(encode_entries(entries) + rest =~= encode_text(entries[0].0) + (encode_tree(
        entries[0].1,
    ) + (encode_entries(entries.drop_first()) + rest)));
}

/// What holds of the items holds of all but the first.
proof fn lemma_items_tail(items: Seq<Tree>, depth: nat)
    requires
        items.len() > 0,
        items_depth(items) <= depth,
        forall|i: int| 0 <= i < items.len() ==> (#[trigger] items[i]).datetimes_representable(),
        forall|i: int| 0 <= i < items.len() ==> (#[trigger] items[i]).fits(),
    ensures
        items[0].depth() <= depth,
        items[0].datetimes_representable(),
        items[0].fits(),
        items_depth(items.drop_first()) <= depth,
        forall|i: int|
            0 <= i < items.drop_first().len() ==> (
            #[trigger] items.drop_first()[i]).datetimes_representable(),
        forall|i: int| 0 <= i < items.drop_first().len() ==> (#[trigger] items.drop_first()[i]).fits(),
{
    let others = items.drop_first();
    assert forall|i: int| 0 <= i < others.len() implies (#[trigger] others[i]).fits()
        && others[i].datetimes_representable() by {
        assert(others[i] == items[i + 1]);
    }
}

/// What holds of the entries holds of all but the first.
proof fn lemma_entries_tail(entries: Seq<(Seq<char>, Tree)>, depth: nat)
    requires
        entries.len() > 0,
        entries_depth(entries) <= depth,
        forall|i: int|
            0 <= i < entries.len() ==> (#[trigger] entries[i]).1.datetimes_representable(),
        forall|i: int|
            0 <= i < entries.len() ==> encode_utf8((#[trigger] entries[i]).0).len() <= usize::MAX
                && entries[i].1.fits(),
    ensures
        entries[0].1.depth() <= depth,
        entries[0].1.datetimes_representable(),
        entries[0].1.fits(),
        encode_utf8(entries[0].0).len() <= usize::MAX,
        entries_depth(entries.drop_first()) <= depth,
        forall|i: int|
            0 <= i < entries.drop_first().len() ==> (
            #[trigger] entries.drop_first()[i]).1.datetimes_representable(),
        forall|i: int|
            0 <= i < entries.drop_first().len() ==> encode_utf8(
                (#[trigger] entries.drop_first()[i]).0,
            ).len() <= usize::MAX && entries.drop_first()[i].1.fits(),
{
    let others = entries.drop_first();
    assert forall|i: int| 0 <= i < others.len() implies (#[trigger] others[i]).1.fits()
        && others[i].1.datetimes_representable() && encode_utf8(others[i].0).len()
        <= usize::MAX by {
        assert(others[i] == entries[i + 1]);
    }
}

/// The same for the items of an array.
#[verifier::rlimit(40)]
pub proof fn lemma_decode_items(items: Seq<Tree>, rest: Seq<u8>, depth: nat)
    requires
        items_depth(items) <= depth,
        forall|i: int| 0 <= i < items.len() ==> (#[trigger] items[i]).datetimes_representable(),
        forall|i: int| 0 <= i < items.len() ==> (#[trigger] items[i]).fits(),
    ensures
        decode_items(encode_items(items) + rest, items.len(), depth) == Ok::<
            (Seq<Tree>, Seq<u8>),
            TransportError,
        >((items, rest)),
    decreases items,
{
    if items.len() == 0 {
        assert(encode_items(items) + rest =~= rest);
        assert(items =~= Seq::<Tree>::empty());
    } else {
        let first = items[0];
        let others = items.drop_first();
        let middle = encode_items(others) + rest;
        lemma_items_split(items, rest);
        lemma_items_tail(items, depth);
        lemma_decode_tree(first, middle, depth);
        lemma_decode_items(others, rest, depth);
        lemma_decode_items_step(
            encode_items(items) + rest,
            items.len(),
            depth,
            first,
            middle,
            others,
            rest,
        );
        assert(seq![first] + others =~= items);
    }
}

/// The same for the entries of a table.
#[verifier::rlimit(40)]
pub proof fn lemma_decode_entries(entries: Seq<(Seq<char>, Tree)>, rest: Seq<u8>, depth: nat)
    requires
        entries_depth(entries) <= depth,
        forall|i: int|
            0 <= i < entries.len() ==> (#[trigger] entries[i]).1.datetimes_representable(),
        forall|i: int|
            0 <= i < entries.len() ==> encode_utf8((#[trigger] entries[i]).0).len() <= usize::MAX
                && entries[i].1.fits(),
    ensures
        decode_entries(encode_entries(entries) + rest, entries.len(), depth) == Ok::<
            (Seq<(Seq<char>, Tree)>, Seq<u8>),
            TransportError,
        >((entries, rest)),
    decreases entries,
{
    if entries.len() == 0 {
        assert(encode_entries(entries) + rest =~= rest);
        assert(entries =~= Seq::<(Seq<char>, Tree)>::empty());
    } else {
        let first = entries[0];
        let others = entries.drop_first();
        let middle = encode_entries(others) + rest;
        let behind_key = encode_tree(first.1) + middle;
        lemma_entries_split(entries, rest);
        lemma_entries_tail(entries, depth);
        lemma_decode_text(first.0, behind_key);
        lemma_decode_tree(first.1, middle, depth);
        lemma_decode_entries(others, rest, depth);
        lemma_decode_entries_step(
            encode_entries(entries) + rest,
            entries.len(),
            depth,
            first.0,
            behind_key,
            first.1,
            middle,
            others,
            rest,
        );
        assert(seq![(first.0, first.1)] + others =~= entries);
    }
}

/// Round trip: a value that can be carried is what its bytes decode to.
pub proof fn lemma_round_trip(tree: Tree)
    requires
        tree.transportable(),
    ensures
        decode_all(encode_tree(tree)) == Ok::<Tree, TransportError>(tree),
{
    lemma_decode_tree(tree, Seq::empty(), MAX_DEPTH as nat);
    assert(encode_tree(tree) + Seq::<u8>::empty() =~= encode_tree(tree));
}

} // verus!
