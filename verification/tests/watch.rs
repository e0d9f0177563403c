use plugin_host::watch::{NotWatched, WatchedPathSet};

#[test]
fn watching_twice_then_removing_once_leaves_nothing() {
    let mut set = WatchedPathSet::new();
    assert!(set.watch_path("src/main.ui"));
    assert!(!set.watch_path("src/main.ui"));
    assert_eq!(set.watched_paths(), vec!["src/main.ui".to_string()]);
    assert_eq!(set.remove_path("src/main.ui"), Ok(()));
    assert!(set.watched_paths().is_empty());
    assert_eq!(set.remove_path("src/main.ui"), Err(NotWatched));
}

#[test]
fn removing_an_absent_path_fails_and_changes_nothing() {
    let mut set = WatchedPathSet::new();
    set.watch_path("a");
    set.watch_path("b");
    assert_eq!(set.remove_path("c"), Err(NotWatched));
    assert_eq!(set.watched_paths(), vec!["a".to_string(), "b".to_string()]);
    assert_eq!(set.len(), 2);
}

#[test]
fn paths_keep_the_order_in_which_they_were_added() {
    let mut set = WatchedPathSet::new();
    for path in ["c", "a", "b", "a", "c"] {
        set.watch_path(path);
    }
    assert_eq!(set.watched_paths(), vec!["c".to_string(), "a".to_string(), "b".to_string()]);
    assert_eq!(set.remove_path("a"), Ok(()));
    assert_eq!(set.watched_paths(), vec!["c".to_string(), "b".to_string()]);
    assert!(set.contains("b"));
    assert!(!set.contains("a"));
    assert!(set.watch_path("a"));
    assert_eq!(set.watched_paths(), vec!["c".to_string(), "b".to_string(), "a".to_string()]);
}
