use plugin_host::codec::TransportError;
use plugin_host::config::{from_toml, parse, render, render_plain, to_toml, ConfigError};
use plugin_host::value::{Date, DateTime, Offset, Time, ValueTree};

fn float_of(bits: u64) -> toml::Value {
    toml::Value::Float(f64::from_bits(bits))
}

#[test]
fn a_text_is_read_node_by_node() {
    let text = "title = \"demo\"\ncount = -3\nratio = 0.5\non = true\nwhen = 1979-05-27T07:32:00-08:00\nday = 1979-05-27\nlist = [1, [2, 3]]\n\n[inner]\nb = 1\na = 2\n";
    let tree = parse(text).unwrap();
    let expected = ValueTree::Table(vec![
        ("count".to_string(), ValueTree::Integer(-3)),
        (
            "day".to_string(),
            ValueTree::DateTime(DateTime {
                date: Some(Date { year: 1979, month: 5, day: 27 }),
                time: None,
                offset: None,
            }),
        ),
        (
            "inner".to_string(),
            ValueTree::Table(vec![
                ("a".to_string(), ValueTree::Integer(2)),
                ("b".to_string(), ValueTree::Integer(1)),
            ]),
        ),
        (
            "list".to_string(),
            ValueTree::Array(vec![
                ValueTree::Integer(1),
                ValueTree::Array(vec![ValueTree::Integer(2), ValueTree::Integer(3)]),
            ]),
        ),
        ("on".to_string(), ValueTree::Boolean(true)),
        ("ratio".to_string(), ValueTree::Float(0.5f64.to_bits())),
        ("title".to_string(), ValueTree::String("demo".to_string())),
        (
            "when".to_string(),
            ValueTree::DateTime(DateTime {
                date: Some(Date { year: 1979, month: 5, day: 27 }),
                time: Some(Time { hour: 7, minute: 32, second: 0, nanosecond: 0 }),
                offset: Some(Offset::Custom { hours: -8, minutes: 0 }),
            }),
        ),
    ]);
    assert_eq!(tree, expected);
}

#[test]
fn what_is_written_reads_back() {
    let tree = ValueTree::Table(vec![
        ("name".to_string(), ValueTree::String("demo".to_string())),
        ("ratio".to_string(), ValueTree::Float(2.25f64.to_bits())),
        (
            "when".to_string(),
            ValueTree::DateTime(DateTime {
                date: Some(Date { year: 2024, month: 2, day: 29 }),
                time: Some(Time { hour: 23, minute: 59, second: 59, nanosecond: 500_000_000 }),
                offset: Some(Offset::Z),
            }),
        ),
        (
            "z".to_string(),
            ValueTree::Table(vec![(
                "list".to_string(),
                ValueTree::Array(vec![ValueTree::Integer(i64::MIN), ValueTree::Integer(i64::MAX)]),
            )]),
        ),
    ]);
    let text = render(&tree, &float_of).unwrap();
    assert_eq!(parse(&text), Ok(tree));
}

#[test]
fn a_table_is_held_in_the_order_of_its_keys_with_the_last_of_equal_keys() {
    let tree = ValueTree::Table(vec![
        ("b".to_string(), ValueTree::Integer(1)),
        ("a".to_string(), ValueTree::Integer(2)),
        ("b".to_string(), ValueTree::Integer(3)),
    ]);
    let held = to_toml(&tree, &float_of).unwrap();
    assert_eq!(
        from_toml(&held, 8),
        Ok(ValueTree::Table(vec![
            ("a".to_string(), ValueTree::Integer(2)),
            ("b".to_string(), ValueTree::Integer(3)),
        ]))
    );
}

#[test]
fn floats_keep_their_bits() {
    for float in [0.0f64, -0.0, 1.5, f64::MAX, f64::MIN_POSITIVE, f64::INFINITY] {
        let tree = ValueTree::Array(vec![ValueTree::Float(float.to_bits())]);
        let held = to_toml(&tree, &float_of).unwrap();
        assert_eq!(held, toml::Value::Array(vec![toml::Value::Float(float)]));
        assert_eq!(from_toml(&held, 2), Ok(tree));
    }
}

#[test]
fn a_float_that_was_not_made_is_refused() {
    let tree = ValueTree::Array(vec![ValueTree::Float(1.5f64.to_bits())]);
    assert_eq!(
        to_toml(&tree, &|_bits| toml::Value::Integer(0)),
        Err(TransportError::FloatRefused)
    );
    assert_eq!(
        to_toml(&tree, &|_bits| toml::Value::Float(2.5)),
        Err(TransportError::FloatRefused)
    );
    assert_eq!(
        render_plain(&tree),
        Err(ConfigError::Transport(TransportError::FloatRefused))
    );
    assert_eq!(
        render_plain(&ValueTree::Table(vec![("a".to_string(), ValueTree::Integer(1))])),
        Ok("a = 1\n".to_string())
    );
}

#[test]
fn depth_is_limited_when_reading() {
    let held = toml::Value::Array(vec![toml::Value::Array(vec![toml::Value::Integer(1)])]);
    assert_eq!(from_toml(&held, 2), Err(TransportError::TooDeep));
    assert_eq!(
        from_toml(&held, 3),
        Ok(ValueTree::Array(vec![ValueTree::Array(vec![ValueTree::Integer(1)])]))
    );
    assert_eq!(from_toml(&toml::Value::Integer(1), 0), Err(TransportError::TooDeep));
}

#[test]
fn each_error_of_reading_and_writing_has_an_input() {
    assert!(matches!(parse("a = "), Err(ConfigError::Syntax(_))));
    let bad = ValueTree::Table(vec![(
        "when".to_string(),
        ValueTree::DateTime(DateTime { date: None, time: None, offset: None }),
    )]);
    assert_eq!(
        render(&bad, &float_of),
        Err(ConfigError::Transport(TransportError::UnrepresentableDatetime))
    );
    let mut deep = ValueTree::Integer(0);
    for _ in 0..64 {
        deep = ValueTree::Array(vec![deep]);
    }
    assert_eq!(
        render(&ValueTree::Table(vec![("deep".to_string(), deep.clone())]), &float_of),
        Err(ConfigError::Transport(TransportError::TooDeep))
    );
    let mut text = String::from("deep = ");
    for _ in 0..64 {
        text.push('[');
    }
    text.push('0');
    for _ in 0..64 {
        text.push(']');
    }
    assert_eq!(parse(&text), Err(ConfigError::Transport(TransportError::TooDeep)));
}

#[test]
fn brackets_in_strings_and_comments_do_not_nest() {
    let mut brackets = String::new();
    for _ in 0..100 {
        brackets.push('[');
    }
    let texts = [
        format!("a = \"{}\"\n", brackets),
        format!("a = '{}'\n", brackets),
        format!("a = \"\"\"\n{}\n\"\"\"\n", brackets),
        format!("a = \'\'\'\n{}\n\'\'\'\n", brackets),
        format!("a = \"\\\"{}\"\n", brackets),
        format!("# {}\na = 1\n", brackets),
    ];
    for text in &texts {
        assert!(parse(text).is_ok(), "{:?}", text);
    }
    // Quotes that stand against the end of a string belong to the string.
    let mut behind = String::from("a = [\"\"\"x\"\"\"\"\", ");
    for _ in 0..70 {
        behind.push('[');
    }
    assert_eq!(parse(&behind), Err(ConfigError::Transport(TransportError::TooDeep)));
    let mut open = String::from("a = ");
    for _ in 0..70 {
        open.push('[');
    }
    assert_eq!(parse(&open), Err(ConfigError::Transport(TransportError::TooDeep)));
    // Dots nest tables; the dots of numbers do not.
    let mut key = String::from("[a");
    for _ in 0..70 {
        key.push_str(".a");
    }
    key.push_str("]\n");
    assert_eq!(parse(&key), Err(ConfigError::Transport(TransportError::TooDeep)));
    let mut long = String::from("a");
    for _ in 0..200_000 {
        long.push_str(".a");
    }
    long.push_str(" = 1\n");
    assert_eq!(parse(&long), Err(ConfigError::Transport(TransportError::TooDeep)));
    let mut numbers = String::from("a = [");
    for _ in 0..200 {
        numbers.push_str("1.5, ");
    }
    numbers.push_str("]\nb.c.d = 1979-05-27T07:32:00.5Z\n");
    assert!(parse(&numbers).is_ok());
    // A text that opens thousands of arrays is refused before it is read.
    let mut deep = String::from("a = ");
    for _ in 0..200_000 {
        deep.push('[');
    }
    assert_eq!(parse(&deep), Err(ConfigError::Transport(TransportError::TooDeep)));
}

#[test]
fn keys_are_ordered_by_their_characters() {
    let tree = ValueTree::Table(vec![
        ("\u{10000}".to_string(), ValueTree::Integer(1)),
        ("\u{e9}".to_string(), ValueTree::Integer(2)),
        ("zz".to_string(), ValueTree::Integer(3)),
        ("\u{ffff}".to_string(), ValueTree::Integer(4)),
        ("z".to_string(), ValueTree::Integer(5)),
        ("".to_string(), ValueTree::Integer(6)),
        ("\u{e9}".to_string(), ValueTree::Integer(7)),
    ]);
    let held = to_toml(&tree, &float_of).unwrap();
    assert_eq!(
        from_toml(&held, 8),
        Ok(ValueTree::Table(vec![
            ("".to_string(), ValueTree::Integer(6)),
            ("z".to_string(), ValueTree::Integer(5)),
            ("zz".to_string(), ValueTree::Integer(3)),
            ("\u{e9}".to_string(), ValueTree::Integer(7)),
            ("\u{ffff}".to_string(), ValueTree::Integer(4)),
            ("\u{10000}".to_string(), ValueTree::Integer(1)),
        ]))
    );
}

#[test]
fn a_table_with_one_entry_is_held_with_that_entry() {
    let tree = ValueTree::Table(vec![("only".to_string(), ValueTree::Boolean(true))]);
    let held = to_toml(&tree, &float_of).unwrap();
    assert_eq!(from_toml(&held, 8), Ok(tree));
}
