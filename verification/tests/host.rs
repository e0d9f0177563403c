use plugin_host::host::{Host, HostEffect, Platform};
use plugin_host::lifecycle::{FailureKind, Hook, HookFailure, HookOutcome, Session, Status};
use plugin_host::lock::{DioxusLock, PluginReport, Registration};
use plugin_host::string_map::StringMap;
use plugin_host::watch::NotWatched;
use std::path::PathBuf;

#[test]
fn the_host_answers_and_queues() {
    let mut host = Host::new(Platform::Web, "dist".to_string());
    assert_eq!(host.get_platform(), Platform::Web);
    assert_eq!(host.output_directory(), "dist");
    host.log("building");
    host.refresh_asset("/a.css", "/a.1.css");
    host.refresh_browser_page();
    assert_eq!(
        host.take_effects(),
        vec![
            HostEffect::Log("building".to_string()),
            HostEffect::RefreshAsset {
                old_url: "/a.css".to_string(),
                new_url: "/a.1.css".to_string()
            },
            HostEffect::RefreshBrowserPage,
        ]
    );
    assert!(host.take_effects().is_empty());
    assert_eq!(Host::new(Platform::Desktop, String::new()).get_platform(), Platform::Desktop);
}

#[test]
fn every_change_of_the_watched_paths_is_told_in_full() {
    let mut host = Host::new(Platform::Web, "dist".to_string());
    host.watch_path("src/main.ui");
    host.watch_path("src/main.ui");
    host.watch_path("assets");
    assert_eq!(host.watched_paths(), vec!["src/main.ui".to_string(), "assets".to_string()]);
    assert_eq!(host.remove_path("src/main.ui"), Ok(()));
    assert_eq!(host.remove_path("src/main.ui"), Err(NotWatched));
    assert_eq!(
        host.take_effects(),
        vec![
            HostEffect::WatchedPathsChanged(vec!["src/main.ui".to_string()]),
            HostEffect::WatchedPathsChanged(vec![
                "src/main.ui".to_string(),
                "assets".to_string()
            ]),
            HostEffect::WatchedPathsChanged(vec!["assets".to_string()]),
        ]
    );
}

fn dispatch(
    session: &mut Session,
    lock: &DioxusLock,
    hook: Hook,
    outcome_of: &dyn Fn(&str) -> HookOutcome,
) -> (Vec<String>, Vec<HookFailure>) {
    let mut called = Vec::new();
    let mut failures = Vec::new();
    let mut from = 0;
    while let Some(place) = session.next_plugin(lock, hook, from) {
        let name = session.name(place).unwrap().clone();
        let outcome = outcome_of(&name);
        called.push(name);
        if let Some(failure) = session.record(hook, place, outcome) {
            failures.push(failure);
        }
        from = place + 1;
    }
    (called, failures)
}

#[test]
fn a_failing_plugin_does_not_stop_the_others() {
    let lock = DioxusLock::new(PathBuf::from("Dioxus.lock"));
    let mut session = Session::new();
    assert_eq!(session.load("a"), 0);
    assert_eq!(session.load("b"), 1);
    let (called, failures) =
        dispatch(&mut session, &lock, Hook::ApplyConfig, &|_| HookOutcome::Succeeded);
    assert_eq!(called, vec!["a".to_string(), "b".to_string()]);
    assert!(failures.is_empty());

    let (called, failures) = dispatch(&mut session, &lock, Hook::BeforeBuild, &|name| {
        if name == "a" {
            HookOutcome::Failed
        } else {
            HookOutcome::Succeeded
        }
    });
    assert_eq!(called, vec!["a".to_string(), "b".to_string()]);
    assert_eq!(
        failures,
        vec![HookFailure {
            plugin: "a".to_string(),
            hook: Hook::BeforeBuild,
            kind: FailureKind::Hook
        }]
    );
    // The failure is the plugin's own: it gets its next hook as before.
    let (called, _) = dispatch(&mut session, &lock, Hook::OnRebuild, &|_| HookOutcome::Succeeded);
    assert_eq!(called, vec!["a".to_string(), "b".to_string()]);
}

#[test]
fn a_rejected_configuration_skips_the_plugin_for_the_session() {
    let lock = DioxusLock::new(PathBuf::from("Dioxus.lock"));
    let mut session = Session::new();
    session.load("a");
    session.load("b");
    session.load("c");
    // No hook comes before `apply_config`.
    assert_eq!(session.next_plugin(&lock, Hook::BeforeBuild, 0), None);
    let (_, failures) = dispatch(&mut session, &lock, Hook::ApplyConfig, &|name| {
        if name == "b" {
            HookOutcome::Failed
        } else {
            HookOutcome::Succeeded
        }
    });
    assert_eq!(
        failures,
        vec![HookFailure {
            plugin: "b".to_string(),
            hook: Hook::ApplyConfig,
            kind: FailureKind::Configuration
        }]
    );
    assert_eq!(session.status(1), Some(Status::Disabled));
    assert_eq!(session.status(0), Some(Status::Configured));
    assert_eq!(session.status(3), None);
    // `apply_config` is called once in a session.
    assert_eq!(session.next_plugin(&lock, Hook::ApplyConfig, 0), None);
    for hook in [
        Hook::Register,
        Hook::BeforeBuild,
        Hook::BeforeServe,
        Hook::OnRebuild,
        Hook::OnHotReload,
        Hook::OnWatchedPathsChange,
    ] {
        let (called, _) = dispatch(&mut session, &lock, hook, &|_| HookOutcome::Succeeded);
        assert_eq!(called, vec!["a".to_string(), "c".to_string()]);
    }
}

#[test]
fn register_is_due_only_until_it_has_succeeded() {
    let mut lock = DioxusLock::new(PathBuf::from("Dioxus.lock"));
    lock.initialize_new_plugins(&vec![PluginReport {
        name: "old".to_string(),
        registration: Registration::Succeeded,
        store: StringMap::new(),
    }]);
    let mut session = Session::new();
    session.load("old");
    session.load("new");
    dispatch(&mut session, &lock, Hook::ApplyConfig, &|_| HookOutcome::Succeeded);
    let (called, failures) =
        dispatch(&mut session, &lock, Hook::Register, &|_| HookOutcome::Failed);
    assert_eq!(called, vec!["new".to_string()]);
    assert_eq!(failures[0].kind, FailureKind::Registration);
    assert_eq!(session.record(Hook::BeforeBuild, 7, HookOutcome::Failed), None);
}
