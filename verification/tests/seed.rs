use plugin_host::seed::{needs_default_config, plugin_config, seed_plugin_config, SeedError};
use plugin_host::value::ValueTree;

fn table(entries: Vec<(&str, ValueTree)>) -> ValueTree {
    ValueTree::Table(entries.into_iter().map(|(key, value)| (key.to_string(), value)).collect())
}

#[test]
fn a_plugin_is_seeded_the_first_time_it_is_referenced() {
    let mut project = table(vec![("application", table(vec![]))]);
    assert!(needs_default_config(&project, "tailwind"));
    let default = table(vec![("minify", ValueTree::Boolean(true))]);
    assert_eq!(seed_plugin_config(&mut project, "tailwind", default.clone()), Ok(true));
    assert_eq!(
        project,
        table(vec![
            ("application", table(vec![])),
            ("plugins", table(vec![("tailwind", default.clone())])),
        ])
    );
    assert!(!needs_default_config(&project, "tailwind"));
    assert_eq!(plugin_config(&project, "tailwind"), Some(&default));

    // A section that is there is left as the project has it.
    let other = table(vec![("minify", ValueTree::Boolean(false))]);
    let before = project.clone();
    assert_eq!(seed_plugin_config(&mut project, "tailwind", other.clone()), Ok(false));
    assert_eq!(project, before);

    // A second plugin comes behind the first.
    assert_eq!(seed_plugin_config(&mut project, "images", other.clone()), Ok(true));
    assert_eq!(
        project,
        table(vec![
            ("application", table(vec![])),
            ("plugins", table(vec![("tailwind", default), ("images", other)])),
        ])
    );
}

#[test]
fn a_configuration_without_a_place_for_plugins_is_left_alone() {
    let mut project = ValueTree::Integer(1);
    assert_eq!(
        seed_plugin_config(&mut project, "a", ValueTree::Boolean(true)),
        Err(SeedError::NotTable)
    );
    assert_eq!(project, ValueTree::Integer(1));
    assert_eq!(plugin_config(&project, "a"), None);

    let mut project = table(vec![("plugins", ValueTree::Integer(1)), ("x", ValueTree::Integer(2))]);
    let before = project.clone();
    assert_eq!(
        seed_plugin_config(&mut project, "a", ValueTree::Boolean(true)),
        Err(SeedError::PluginsNotTable)
    );
    assert_eq!(project, before);
    assert!(needs_default_config(&project, "a"));
}

#[test]
fn of_two_entries_with_one_key_the_first_counts() {
    let project = table(vec![
        ("plugins", table(vec![("a", ValueTree::Integer(1)), ("a", ValueTree::Integer(2))])),
        ("plugins", table(vec![("b", ValueTree::Integer(3))])),
    ]);
    assert_eq!(plugin_config(&project, "a"), Some(&ValueTree::Integer(1)));
    assert_eq!(plugin_config(&project, "b"), None);
}
