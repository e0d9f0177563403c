use plugin_host::lock::{DioxusLock, PluginReport, Registration};
use plugin_host::lock_file::{acquire_dioxus_lock, LockError, LockFileName, LockFormatError};
use plugin_host::string_map::StringMap;
use plugin_host::value::ValueTree;
use std::path::PathBuf;

fn report(name: &str, registration: Registration, state: &[(&str, &[u8])]) -> PluginReport {
    let mut store = StringMap::new();
    for (key, bytes) in state {
        store.insert(key, bytes.to_vec());
    }
    PluginReport { name: name.to_string(), registration, store }
}

#[test]
fn fresh_project_registers_saves_and_reloads() {
    let mut lock = DioxusLock::new(PathBuf::from("Dioxus.lock"));
    assert!(lock.needs_registration("tailwind"));

    let reports = vec![report("tailwind", Registration::Succeeded, &[("cache", &[1, 2, 255])])];
    let outcome = lock.initialize_new_plugins(&reports);
    assert!(outcome.save);
    assert!(outcome.failed.is_empty());

    let text = lock.save(None, "Dioxus.lock").unwrap();
    let reloaded =
        DioxusLock::load(PathBuf::from("Dioxus.lock"), Some(&text), "Dioxus.lock").unwrap();
    let state = reloaded.plugins.get("tailwind").unwrap();
    assert!(state.initialized);
    assert_eq!(state.map.get("cache"), Some(&vec![1u8, 2, 255]));
    assert_eq!(state.map.len(), 1);
    assert!(!reloaded.needs_registration("tailwind"));
    assert_eq!(reloaded.plugins.len(), 1);
    assert_eq!(reloaded.path, PathBuf::from("Dioxus.lock"));
}

#[test]
fn saved_text_is_a_table_per_plugin() {
    let mut lock = DioxusLock::new(PathBuf::from("Dioxus.lock"));
    let reports = vec![report("tailwind", Registration::Succeeded, &[("k", &[7])])];
    lock.initialize_new_plugins(&reports);
    let text = lock.save(None, "Dioxus.lock").unwrap();
    assert!(text.contains("[plugins.tailwind]"));
    assert!(text.contains("initialized = true"));
    assert!(text.contains("[plugins.tailwind.map]"));
}

#[test]
fn absent_lock_file_is_an_empty_state() {
    let lock = DioxusLock::load(PathBuf::from("Dioxus.lock"), None, "Dioxus.lock").unwrap();
    assert_eq!(lock.plugins.len(), 0);
    assert!(lock.needs_registration("anything"));
}

#[test]
fn empty_lock_state_reloads_empty() {
    let mut lock = DioxusLock::new(PathBuf::from("Dioxus.lock"));
    let text = lock.save(None, "Dioxus.lock").unwrap();
    let reloaded =
        DioxusLock::load(PathBuf::from("Dioxus.lock"), Some(&text), "Dioxus.lock").unwrap();
    assert_eq!(reloaded.plugins.len(), 0);
}

#[test]
fn reads_a_hand_written_lock_file() {
    let text = "[plugins.a]\ninitialized = false\n\n[plugins.a.map]\n\n[plugins.b]\ninitialized = true\nextra = \"ignored\"\n\n[plugins.b.map]\nstate = [0, 128, 255]\n";
    let lock = DioxusLock::load(PathBuf::from("x/Dioxus.lock"), Some(text), "Dioxus.lock").unwrap();
    assert!(lock.needs_registration("a"));
    assert!(!lock.needs_registration("b"));
    assert_eq!(lock.plugins.get("b").unwrap().map.get("state"), Some(&vec![0u8, 128, 255]));
    assert_eq!(lock.plugins.get("a").unwrap().map.len(), 0);
}

#[test]
fn unreadable_text_names_the_file() {
    match DioxusLock::load(PathBuf::from("Dioxus.lock"), Some("[plugins"), "Dioxus.lock") {
        Err(LockError::Unreadable { location, .. }) => assert_eq!(location, "Dioxus.lock"),
        other => panic!("unexpected: {:?}", other.map(|lock| lock.plugins.len())),
    }
}

fn format_error(text: &str) -> LockFormatError {
    match DioxusLock::load(PathBuf::from("Dioxus.lock"), Some(text), "Dioxus.lock") {
        Err(LockError::Malformed { format, .. }) => format,
        other => panic!("unexpected: {:?}", other.map(|lock| lock.plugins.len())),
    }
}

#[test]
fn each_format_error_has_an_input() {
    assert_eq!(format_error("other = 1\n"), LockFormatError::MissingPlugins);
    assert_eq!(format_error("plugins = 1\n"), LockFormatError::PluginsNotTable);
    assert_eq!(format_error("[plugins]\na = 1\n"), LockFormatError::PluginNotTable);
    assert_eq!(format_error("[plugins.a]\nmap = {}\n"), LockFormatError::MissingInitialized);
    assert_eq!(
        format_error("[plugins.a]\ninitialized = 1\nmap = {}\n"),
        LockFormatError::InitializedNotBoolean
    );
    assert_eq!(format_error("[plugins.a]\ninitialized = true\n"), LockFormatError::MissingMap);
    assert_eq!(
        format_error("[plugins.a]\ninitialized = true\nmap = 3\n"),
        LockFormatError::MapNotTable
    );
    assert_eq!(
        format_error("[plugins.a]\ninitialized = true\n[plugins.a.map]\nk = 3\n"),
        LockFormatError::StateNotArray
    );
    assert_eq!(
        format_error("[plugins.a]\ninitialized = true\n[plugins.a.map]\nk = [\"x\"]\n"),
        LockFormatError::ByteNotInteger
    );
    assert_eq!(
        format_error("[plugins.a]\ninitialized = true\n[plugins.a.map]\nk = [1, 256]\n"),
        LockFormatError::ByteOutOfRange
    );
    assert_eq!(
        format_error("[plugins.a]\ninitialized = true\n[plugins.a.map]\nk = [-1]\n"),
        LockFormatError::ByteOutOfRange
    );
}

#[test]
fn a_document_is_read_and_written_as_a_tree() {
    let path = PathBuf::from("Dioxus.lock");
    assert_eq!(
        DioxusLock::from_tree(path.clone(), &ValueTree::Integer(1)).err(),
        Some(LockFormatError::NotTable)
    );
    let mut lock = DioxusLock::new(path.clone());
    lock.initialize_new_plugins(&vec![
        report("b", Registration::Succeeded, &[("z", &[1]), ("a", &[])]),
        report("a", Registration::Failed, &[]),
    ]);
    let table = |entries: Vec<(&str, ValueTree)>| {
        ValueTree::Table(entries.into_iter().map(|(k, v)| (k.to_string(), v)).collect())
    };
    let expected = table(vec![(
        "plugins",
        table(vec![
            (
                "b",
                table(vec![
                    ("initialized", ValueTree::Boolean(true)),
                    (
                        "map",
                        table(vec![
                            ("z", ValueTree::Array(vec![ValueTree::Integer(1)])),
                            ("a", ValueTree::Array(vec![])),
                        ]),
                    ),
                ]),
            ),
            (
                "a",
                table(vec![("initialized", ValueTree::Boolean(false)), ("map", table(vec![]))]),
            ),
        ]),
    )]);
    assert_eq!(lock.to_tree(), expected);
    let back = DioxusLock::from_tree(path, &expected).unwrap();
    assert_eq!(back.plugins.get("b").unwrap().map.get("z"), Some(&vec![1u8]));
    assert!(back.needs_registration("a"));
    // Of two plugins with one name the later one counts; of two fields the
    // first.
    let twice = table(vec![(
        "plugins",
        table(vec![
            (
                "a",
                table(vec![
                    ("initialized", ValueTree::Boolean(true)),
                    ("initialized", ValueTree::Boolean(false)),
                    ("map", table(vec![])),
                ]),
            ),
            ("a", table(vec![("initialized", ValueTree::Boolean(false)), ("map", table(vec![]))])),
            ("c", table(vec![("initialized", ValueTree::Boolean(true)), ("map", table(vec![]))])),
        ]),
    )]);
    let read = DioxusLock::from_tree(PathBuf::new(), &twice).unwrap();
    assert!(read.needs_registration("a"));
    assert!(!read.needs_registration("c"));
    assert_eq!(read.plugins.len(), 2);
}

#[test]
fn failed_registration_is_reported_and_retried() {
    let mut lock = DioxusLock::new(PathBuf::from("Dioxus.lock"));
    let reports = vec![
        report("a", Registration::Failed, &[("k", &[1])]),
        report("b", Registration::Succeeded, &[("k", &[2])]),
    ];
    let outcome = lock.initialize_new_plugins(&reports);
    assert_eq!(outcome.failed, vec!["a".to_string()]);
    assert!(lock.needs_registration("a"));
    assert!(!lock.needs_registration("b"));
    // The state of each plugin is captured, registered or not.
    assert_eq!(lock.plugins.get("a").unwrap().map.get("k"), Some(&vec![1u8]));
    assert_eq!(lock.plugins.get("b").unwrap().map.get("k"), Some(&vec![2u8]));
}

#[test]
fn registered_plugin_is_not_registered_again() {
    let mut lock = DioxusLock::new(PathBuf::from("Dioxus.lock"));
    lock.initialize_new_plugins(&vec![report("a", Registration::Succeeded, &[])]);
    assert!(!lock.needs_registration("a"));
    // Whatever a later session reports, the flag stays and nothing fails.
    let outcome = lock.initialize_new_plugins(&vec![report("a", Registration::Failed, &[])]);
    assert!(outcome.failed.is_empty());
    assert!(!lock.needs_registration("a"));
}

#[test]
fn a_plugin_that_misses_a_session_is_not_forgotten() {
    let mut lock = DioxusLock::new(PathBuf::from("Dioxus.lock"));
    lock.initialize_new_plugins(&vec![
        report("a", Registration::Succeeded, &[("k", &[7])]),
        report("b", Registration::Succeeded, &[]),
    ]);
    // A session without `a`, and one without any plugin.
    lock.initialize_new_plugins(&vec![report("b", Registration::NotAttempted, &[])]);
    let outcome = lock.initialize_new_plugins(&vec![]);
    assert!(!outcome.save);
    assert_eq!(lock.plugins.len(), 2);
    assert!(!lock.needs_registration("a"));
    assert!(!lock.needs_registration("b"));
    assert_eq!(lock.plugins.get("a").unwrap().map.get("k"), Some(&vec![7u8]));
    // The flag survives the file as well.
    let text = lock.save(None, "Dioxus.lock").unwrap();
    let reloaded = DioxusLock::load(PathBuf::from("Dioxus.lock"), Some(&text), "l").unwrap();
    assert!(!reloaded.needs_registration("a"));
    // When `a` is loaded again, it is not registered again.
    let mut later = reloaded;
    let outcome = later.initialize_new_plugins(&vec![report("a", Registration::Failed, &[])]);
    assert!(outcome.failed.is_empty());
    assert!(!later.needs_registration("a"));
}

#[test]
fn add_plugin_captures_state_whether_registered_or_not() {
    let mut lock = DioxusLock::new(PathBuf::from("Dioxus.lock"));
    assert!(lock.add_plugin(&report("a", Registration::Failed, &[("k", &[9])])));
    assert!(lock.needs_registration("a"));
    assert_eq!(lock.plugins.get("a").unwrap().map.get("k"), Some(&vec![9u8]));
    assert!(!lock.add_plugin(&report("a", Registration::Succeeded, &[("k", &[10])])));
    assert!(!lock.needs_registration("a"));
    assert_eq!(lock.plugins.get("a").unwrap().map.get("k"), Some(&vec![10u8]));
}

#[test]
fn save_with_plugins_captures_every_state() {
    let mut lock = DioxusLock::new(PathBuf::from("Dioxus.lock"));
    lock.initialize_new_plugins(&vec![report("a", Registration::Succeeded, &[("k", &[1])])]);
    let later = vec![
        report("a", Registration::NotAttempted, &[("k", &[2]), ("l", &[3])]),
        report("c", Registration::NotAttempted, &[("k", &[4])]),
    ];
    let text = lock.save(Some(&later), "Dioxus.lock").unwrap();
    assert_eq!(lock.plugins.get("a").unwrap().map.get("k"), Some(&vec![2u8]));
    assert_eq!(lock.plugins.get("a").unwrap().map.get("l"), Some(&vec![3u8]));
    // A plugin that is not registered has its state captured all the same,
    // and saving does not register it.
    assert_eq!(lock.plugins.get("c").unwrap().map.get("k"), Some(&vec![4u8]));
    assert!(lock.needs_registration("c"));
    let reloaded = DioxusLock::load(PathBuf::from("Dioxus.lock"), Some(&text), "l").unwrap();
    assert_eq!(reloaded.plugins.get("a").unwrap().map.get("l"), Some(&vec![3u8]));
    assert_eq!(reloaded.plugins.get("c").unwrap().map.get("k"), Some(&vec![4u8]));
    assert!(reloaded.needs_registration("c"));
}

#[test]
fn a_copy_holds_the_same_records() {
    let mut lock = DioxusLock::new(PathBuf::from("a/Dioxus.lock"));
    lock.initialize_new_plugins(&vec![
        report("a", Registration::Succeeded, &[("k", &[1, 2])]),
        report("b", Registration::Failed, &[]),
    ]);
    let copy = lock.clone();
    assert_eq!(copy.path, lock.path);
    assert_eq!(copy.plugins.len(), 2);
    assert!(!copy.needs_registration("a"));
    assert!(copy.needs_registration("b"));
    assert_eq!(copy.plugins.get("a").unwrap().map.get("k"), Some(&vec![1u8, 2]));
    let empty = DioxusLock::default();
    assert_eq!(empty.path, PathBuf::new());
    assert_eq!(empty.plugins.len(), 0);
}

#[test]
fn uppercase_lock_file_is_preferred() {
    assert_eq!(acquire_dioxus_lock(true, true), Some(LockFileName::Uppercase));
    assert_eq!(acquire_dioxus_lock(true, false), Some(LockFileName::Uppercase));
    assert_eq!(acquire_dioxus_lock(false, true), Some(LockFileName::Lowercase));
    assert_eq!(acquire_dioxus_lock(false, false), None);
    assert_eq!(LockFileName::Uppercase.file_name(), "Dioxus.lock");
    assert_eq!(LockFileName::Lowercase.file_name(), "dioxus.lock");
}
