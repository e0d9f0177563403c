use plugin_host::codec::{decode, encode, TransportError, MAX_DEPTH};
use plugin_host::value::{Date, DateTime, Offset, Time, ValueTree};

fn date() -> Date {
    Date { year: 1979, month: 5, day: 27 }
}

fn time() -> Time {
    Time { hour: 7, minute: 32, second: 0, nanosecond: 999_999_999 }
}

fn every_variant() -> ValueTree {
    ValueTree::Table(vec![
        ("text".to_string(), ValueTree::String("héllo, wörld ✓".to_string())),
        ("least".to_string(), ValueTree::Integer(i64::MIN)),
        ("greatest".to_string(), ValueTree::Integer(i64::MAX)),
        ("float".to_string(), ValueTree::Float((-0.1f64).to_bits())),
        ("not a number".to_string(), ValueTree::Float(f64::NAN.to_bits())),
        ("yes".to_string(), ValueTree::Boolean(true)),
        ("no".to_string(), ValueTree::Boolean(false)),
        (
            "with offset".to_string(),
            ValueTree::DateTime(DateTime {
                date: Some(date()),
                time: Some(time()),
                offset: Some(Offset::Custom { hours: -7, minutes: 30 }),
            }),
        ),
        (
            "utc".to_string(),
            ValueTree::DateTime(DateTime {
                date: Some(date()),
                time: Some(time()),
                offset: Some(Offset::Z),
            }),
        ),
        (
            "without offset".to_string(),
            ValueTree::DateTime(DateTime { date: Some(date()), time: Some(time()), offset: None }),
        ),
        (
            "date only".to_string(),
            ValueTree::DateTime(DateTime { date: Some(date()), time: None, offset: None }),
        ),
        (
            "time only".to_string(),
            ValueTree::DateTime(DateTime { date: None, time: Some(time()), offset: None }),
        ),
        (
            "nested array".to_string(),
            ValueTree::Array(vec![
                ValueTree::Array(vec![ValueTree::Integer(1), ValueTree::Array(vec![])]),
                ValueTree::String(String::new()),
            ]),
        ),
        (
            "nested table".to_string(),
            ValueTree::Table(vec![
                ("inner".to_string(), ValueTree::Table(vec![])),
                ("inner".to_string(), ValueTree::Integer(2)),
            ]),
        ),
    ])
}

#[test]
fn every_variant_survives_the_round_trip() {
    let value = every_variant();
    let bytes = encode(&value).unwrap();
    assert_eq!(decode(&bytes), Ok(value));
}

#[test]
fn bytes_are_as_the_format_says() {
    assert_eq!(encode(&ValueTree::Boolean(true)), Ok(vec![3, 1]));
    assert_eq!(encode(&ValueTree::Integer(1)), Ok(vec![1, 1, 0, 0, 0, 0, 0, 0, 0]));
    assert_eq!(encode(&ValueTree::Integer(-2)), Ok(vec![1, 0xfe, 255, 255, 255, 255, 255, 255, 255]));
    assert_eq!(
        encode(&ValueTree::Float(0x0102_0304_0506_0708)),
        Ok(vec![2, 8, 7, 6, 5, 4, 3, 2, 1])
    );
    assert_eq!(
        encode(&ValueTree::String("hé".to_string())),
        Ok(vec![0, 3, 0, 0, 0, 0, 0, 0, 0, b'h', 0xc3, 0xa9])
    );
    assert_eq!(
        encode(&ValueTree::Array(vec![ValueTree::Boolean(false)])),
        Ok(vec![5, 1, 0, 0, 0, 0, 0, 0, 0, 3, 0])
    );
    assert_eq!(
        encode(&ValueTree::Table(vec![("k".to_string(), ValueTree::Boolean(true))])),
        Ok(vec![6, 1, 0, 0, 0, 0, 0, 0, 0, 1, 0, 0, 0, 0, 0, 0, 0, b'k', 3, 1])
    );
    assert_eq!(
        encode(&ValueTree::DateTime(DateTime {
            date: Some(Date { year: 2024, month: 2, day: 29 }),
            time: Some(Time { hour: 1, minute: 2, second: 3, nanosecond: 4 }),
            offset: Some(Offset::Custom { hours: -1, minutes: 30 }),
        })),
        Ok(vec![4, 1, 0xe8, 0x07, 2, 29, 1, 1, 2, 3, 4, 0, 0, 0, 2, 255, 30])
    );
}

#[test]
fn each_error_has_an_input() {
    assert_eq!(decode(&[]), Err(TransportError::Truncated));
    assert_eq!(decode(&[1, 0, 0]), Err(TransportError::Truncated));
    assert_eq!(decode(&[0, 2, 0, 0, 0, 0, 0, 0, 0, b'a']), Err(TransportError::Truncated));
    assert_eq!(decode(&[9]), Err(TransportError::MalformedVariant));
    assert_eq!(decode(&[3, 2]), Err(TransportError::MalformedVariant));
    assert_eq!(decode(&[4, 0, 0, 3]), Err(TransportError::MalformedVariant));
    assert_eq!(decode(&[3, 1, 0]), Err(TransportError::TrailingBytes));
    assert_eq!(
        decode(&[0, 1, 0, 0, 0, 0, 0, 0, 0, 0xff]),
        Err(TransportError::InvalidText)
    );
    // A datetime without date and time, and one with a thirteenth month.
    assert_eq!(decode(&[4, 0, 0, 0]), Err(TransportError::UnrepresentableDatetime));
    assert_eq!(
        decode(&[4, 1, 0xe8, 0x07, 13, 1, 0, 0]),
        Err(TransportError::UnrepresentableDatetime)
    );
}

#[test]
fn a_count_that_the_bytes_cannot_hold_is_refused() {
    let mut bytes = vec![5];
    bytes.extend_from_slice(&u64::MAX.to_le_bytes());
    let outcome = decode(&bytes);
    assert!(
        outcome == Err(TransportError::Truncated)
            || outcome == Err(TransportError::IntegerOverflow)
    );
    let mut text = vec![0];
    text.extend_from_slice(&u64::MAX.to_le_bytes());
    let outcome = decode(&text);
    assert!(
        outcome == Err(TransportError::Truncated)
            || outcome == Err(TransportError::IntegerOverflow)
    );
}

fn nested(depth: usize) -> ValueTree {
    let mut value = ValueTree::Integer(0);
    for _ in 1..depth {
        value = ValueTree::Array(vec![value]);
    }
    value
}

#[test]
fn nesting_is_carried_up_to_the_limit() {
    let deepest = nested(MAX_DEPTH);
    let bytes = encode(&deepest).unwrap();
    assert_eq!(decode(&bytes), Ok(deepest));
    assert_eq!(encode(&nested(MAX_DEPTH + 1)), Err(TransportError::TooDeep));

    let mut too_deep = Vec::new();
    for _ in 0..MAX_DEPTH {
        too_deep.push(5);
        too_deep.extend_from_slice(&1u64.to_le_bytes());
    }
    too_deep.extend_from_slice(&[3, 1]);
    assert_eq!(decode(&too_deep), Err(TransportError::TooDeep));
}

#[test]
fn an_unrepresentable_datetime_is_not_encoded() {
    let bad = ValueTree::Array(vec![ValueTree::DateTime(DateTime {
        date: None,
        time: Some(Time { hour: 25, minute: 0, second: 0, nanosecond: 0 }),
        offset: None,
    })]);
    assert_eq!(encode(&bad), Err(TransportError::UnrepresentableDatetime));
    let offset_without_date = ValueTree::DateTime(DateTime {
        date: None,
        time: Some(time()),
        offset: Some(Offset::Z),
    });
    assert_eq!(encode(&offset_without_date), Err(TransportError::UnrepresentableDatetime));
}

#[test]
fn representable_is_what_can_be_written_down() {
    assert!(Date { year: 9999, month: 12, day: 31 }.is_representable());
    assert!(!Date { year: 10000, month: 12, day: 31 }.is_representable());
    assert!(!Date { year: 2000, month: 0, day: 1 }.is_representable());
    assert!(!Date { year: 2000, month: 1, day: 32 }.is_representable());
    assert!(Time { hour: 24, minute: 59, second: 59, nanosecond: 0 }.is_representable());
    assert!(!Time { hour: 0, minute: 60, second: 0, nanosecond: 0 }.is_representable());
    assert!(!Time { hour: 0, minute: 0, second: 0, nanosecond: 1_000_000_000 }.is_representable());
    assert!(Offset::Custom { hours: -99, minutes: 99 }.is_representable());
    assert!(!Offset::Custom { hours: 100, minutes: 0 }.is_representable());
    assert!(!DateTime { date: None, time: None, offset: None }.is_representable());
}

#[test]
fn a_copy_is_equal_to_the_value() {
    let value = every_variant();
    assert_eq!(value.clone(), value);
    assert_eq!(value.duplicate(), value);
}
