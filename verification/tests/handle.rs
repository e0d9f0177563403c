use plugin_host::codec::TransportError;
use plugin_host::handle::{StructuredValue, ValueArena};
use plugin_host::value::{DateTime, ValueTree};

#[test]
fn a_store_through_one_alias_is_read_through_the_other() {
    let mut arena = ValueArena::new();
    let h1 = arena.new_handle(StructuredValue::Integer(1));
    let h2 = arena.clone_handle(&h1).unwrap();
    assert_eq!(arena.aliases(&h1), Some(2));

    assert_eq!(arena.set(&h1, StructuredValue::Integer(2)), Ok(StructuredValue::Integer(1)));
    assert_eq!(arena.get(&h2), Some(StructuredValue::Integer(2)));

    assert_eq!(
        arena.set(&h2, StructuredValue::String("x".to_string())),
        Ok(StructuredValue::Integer(2))
    );
    assert_eq!(arena.get(&h1), Some(StructuredValue::String("x".to_string())));
}

#[test]
fn what_was_read_does_not_follow_later_stores() {
    let mut arena = ValueArena::new();
    let h = arena.new_handle(StructuredValue::Boolean(true));
    let read = arena.get(&h).unwrap();
    arena.set(&h, StructuredValue::Boolean(false)).unwrap();
    assert_eq!(read, StructuredValue::Boolean(true));
    assert_eq!(arena.get(&h), Some(StructuredValue::Boolean(false)));
}

#[test]
fn reading_an_array_makes_aliases_of_its_items() {
    let mut arena = ValueArena::new();
    let item = arena.new_handle(StructuredValue::Integer(7));
    let spare = arena.clone_handle(&item).unwrap();
    let array = arena.new_handle(StructuredValue::Array(vec![item]));
    assert_eq!(arena.aliases(&spare), Some(2));
    let read = arena.get(&array).unwrap();
    assert_eq!(arena.aliases(&spare), Some(3));
    match read {
        StructuredValue::Array(items) => {
            assert_eq!(items.len(), 1);
            assert_eq!(arena.get(&items[0]), Some(StructuredValue::Integer(7)));
        }
        other => panic!("unexpected: {:?}", other),
    }
}

#[test]
fn the_last_alias_frees_the_node() {
    let mut arena = ValueArena::new();
    let h1 = arena.new_handle(StructuredValue::Integer(5));
    let h2 = arena.clone_handle(&h1).unwrap();
    let h3 = arena.clone_handle(&h1).unwrap();
    assert_eq!(arena.release(h1), None);
    assert!(arena.is_live(&h2));
    assert_eq!(arena.aliases(&h2), Some(2));
    assert_eq!(arena.release(h2), None);
    // `h3` is the last alias: releasing it hands the node out.
    let stale = arena.clone_handle(&h3).unwrap();
    assert_eq!(arena.release(h3), None);
    assert_eq!(arena.release(stale), Some(StructuredValue::Integer(5)));
    assert_eq!(arena.len(), 1);
}

#[test]
fn a_stale_handle_is_refused() {
    let mut arena = ValueArena::new();
    let h = arena.new_handle(StructuredValue::Integer(5));
    let stale = arena.clone_handle(&h).unwrap();
    assert_eq!(arena.release(h), None);
    let mut other = ValueArena::new();
    assert!(!other.is_live(&stale));
    assert_eq!(other.get(&stale), None);
    assert_eq!(other.clone_handle(&stale), None);
    assert_eq!(other.aliases(&stale), None);
    assert_eq!(
        other.set(&stale, StructuredValue::Integer(1)),
        Err(StructuredValue::Integer(1))
    );
    assert_eq!(other.snapshot(&stale), Err(TransportError::StaleHandle));
    assert_eq!(other.release(stale), None);
    // In its own arena the node is gone after its last alias.
    let last = arena.new_handle(StructuredValue::Array(vec![]));
    let kept = arena.clone_handle(&last).unwrap();
    assert_eq!(arena.release(last), None);
    let dangling = arena.new_handle(StructuredValue::Array(vec![kept]));
    let inside = match arena.release(dangling) {
        Some(StructuredValue::Array(mut items)) => items.pop().unwrap(),
        other => panic!("unexpected: {:?}", other),
    };
    assert_eq!(arena.release(inside), Some(StructuredValue::Array(vec![])));
}

#[test]
fn a_whole_value_goes_in_and_comes_out() {
    let tree = ValueTree::Table(vec![
        ("name".to_string(), ValueTree::String("demo".to_string())),
        (
            "nested".to_string(),
            ValueTree::Array(vec![
                ValueTree::Integer(1),
                ValueTree::Array(vec![ValueTree::Boolean(true)]),
                ValueTree::Table(vec![("k".to_string(), ValueTree::Float(1.5f64.to_bits()))]),
            ]),
        ),
    ]);
    let mut arena = ValueArena::new();
    let spare = arena.new_handle(StructuredValue::Integer(0));
    let root = arena.install(&tree);
    assert_eq!(arena.len(), 9);
    assert_eq!(arena.snapshot(&root), Ok(tree));
    assert_eq!(arena.snapshot(&spare), Ok(ValueTree::Integer(0)));
}

#[test]
fn a_value_that_holds_itself_is_too_deep() {
    let mut arena = ValueArena::new();
    let root = arena.new_handle(StructuredValue::Array(vec![]));
    let inside = arena.clone_handle(&root).unwrap();
    arena.set(&root, StructuredValue::Array(vec![inside])).unwrap();
    assert_eq!(arena.snapshot(&root), Err(TransportError::TooDeep));
}

#[test]
fn a_store_changes_what_a_snapshot_sees() {
    let mut arena = ValueArena::new();
    let root = arena.install(&ValueTree::Array(vec![ValueTree::Integer(1)]));
    let items = match arena.get(&root).unwrap() {
        StructuredValue::Array(items) => items,
        other => panic!("unexpected: {:?}", other),
    };
    arena.set(&items[0], StructuredValue::Integer(2)).unwrap();
    assert_eq!(arena.snapshot(&root), Ok(ValueTree::Array(vec![ValueTree::Integer(2)])));
}

#[test]
fn a_value_crosses_the_boundary_as_bytes() {
    let tree = ValueTree::Table(vec![
        ("least".to_string(), ValueTree::Integer(i64::MIN)),
        ("list".to_string(), ValueTree::Array(vec![ValueTree::String("é".to_string())])),
    ]);
    let mut host = ValueArena::new();
    let root = host.install(&tree);
    let bytes = host.export(&root).unwrap();

    let mut plugin = ValueArena::new();
    let arrived = plugin.import(&bytes).unwrap();
    assert_eq!(plugin.snapshot(&arrived), Ok(tree));
    assert_eq!(plugin.len(), 4);

    assert_eq!(plugin.import(&[9]), Err(TransportError::MalformedVariant));
    assert_eq!(plugin.len(), 4);
    assert_eq!(ValueArena::new().export(&arrived), Err(TransportError::StaleHandle));
}

#[test]
fn a_datetime_that_cannot_be_represented_does_not_cross() {
    let mut arena = ValueArena::new();
    let bad = arena.new_handle(StructuredValue::DateTime(DateTime {
        date: None,
        time: None,
        offset: None,
    }));
    let array = arena.new_handle(StructuredValue::Array(vec![bad]));
    assert_eq!(arena.export(&array), Err(TransportError::UnrepresentableDatetime));
}
