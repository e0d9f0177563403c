use plugin_host::global::{GlobalKey, GlobalSignalContext, LazyGlobal};

/// Keys of globals are made from where the global stands or from its name,
/// and globals that stand apart have keys that differ.
#[test]
fn test_global_keys() {
    let my_signal: LazyGlobal<i32, i32, _> = LazyGlobal::new(|| 42, "tests/global.rs", 7, 46);
    let my_signal2: LazyGlobal<i32, i32, _> = LazyGlobal::new(|| 42, "tests/global.rs", 8, 47);
    let my_signal3: LazyGlobal<i32, i32, _> = LazyGlobal::with_key(|| 42, "custom-keyed");

    let a = my_signal.key();
    let b = my_signal.key();
    let c = my_signal.key();
    assert_eq!(a, b);
    assert_eq!(b, c);

    let d = my_signal2.key();
    assert_ne!(a, d);

    let e = my_signal3.key();
    assert_ne!(a, e);
}

#[test]
fn named_key_stands_at_line_and_column_zero() {
    assert_eq!(GlobalKey::new_from_str("custom-keyed"), GlobalKey::new("custom-keyed", 0, 0));
    assert_ne!(GlobalKey::new_from_str("custom-keyed"), GlobalKey::new("custom-keyed", 0, 1));
    assert!(GlobalKey::new("a.rs", 3, 4).same(&GlobalKey::new("a.rs", 3, 4)));
    assert!(!GlobalKey::new("a.rs", 3, 4).same(&GlobalKey::new("b.rs", 3, 4)));
}

#[test]
fn resolve_makes_the_value_once() {
    let counter = std::cell::Cell::new(0);
    let global: LazyGlobal<i32, i32, _> = LazyGlobal::with_key(
        || {
            counter.set(counter.get() + 1);
            42
        },
        "answer",
    );
    let mut context: GlobalSignalContext<i32> = GlobalSignalContext::new();
    assert_eq!(context.get_signal_with_key("answer"), None);
    assert_eq!(global.resolve(&mut context), 42);
    assert_eq!(global.resolve(&mut context), 42);
    assert_eq!(counter.get(), 1);
    assert_eq!(context.get_signal_with_key("answer"), Some(&42));
    assert_eq!(context.get_signal_with_key("other"), None);
}

#[test]
fn a_name_converts_to_its_key() {
    assert_eq!(GlobalKey::from("custom-keyed"), GlobalKey::new_from_str("custom-keyed"));
    let key: GlobalKey<'static> = "other".into();
    assert_eq!(key, GlobalKey::new("other", 0, 0));
}

#[test]
fn a_key_is_held_once() {
    let first: LazyGlobal<i32, i32, _> = LazyGlobal::with_key(|| 1, "one");
    let again: LazyGlobal<i32, i32, _> = LazyGlobal::with_key(|| 5, "one");
    let second: LazyGlobal<i32, i32, _> = LazyGlobal::new(|| 2, "one", 1, 0);
    let mut context: GlobalSignalContext<i32> = GlobalSignalContext::new();
    assert_eq!(context.len(), 0);
    assert_eq!(first.resolve(&mut context), 1);
    assert_eq!(again.resolve(&mut context), 1);
    assert_eq!(context.len(), 1);
    assert_eq!(second.resolve(&mut context), 2);
    assert_eq!(first.resolve(&mut context), 1);
    assert_eq!(context.len(), 2);
}
