//! The configuration of a plugin in the configuration of the project.
//!
//! The project's configuration holds, under `plugins`, one section for each
//! plugin, by name. The first time a plugin is referenced, its section is not
//! there yet: it is seeded with the configuration that the plugin starts
//! with. A section that is there is left as the project has it.

use vstd::prelude::*;
use crate::table::{first_entry, first_index, first_place};
use crate::value::{entry_views, lemma_table_view, Tree, ValueTree};

verus! {

/// Why a project's configuration has no place for the sections of plugins.
#[derive(Clone, Copy, Debug, PartialEq, Eq, Structural)]
pub enum SeedError {
    /// The configuration is not a table.
    NotTable,
    /// What stands under `plugins` is not a table.
    PluginsNotTable,
}

/// The section of `plugin` in the project's configuration.
pub open spec fn plugin_section(project: Tree, plugin: Seq<char>) -> Option<Tree> {
    match project {
        Tree::Table(fields) => match first_place(fields, "plugins"@) {
            Some(i) => match fields[i].1 {
                Tree::Table(sections) => match first_place(sections, plugin) {
                    Some(j) => Some(sections[j].1),
                    None => None,
                },
                _ => None,
            },
            None => None,
        },
        _ => None,
    }
}

/// The project's configuration after `plugin` was referenced: where it has no
/// section for the plugin, `default` becomes that section, at the end of the
/// sections; where it has no sections at all, they are begun at its end.
pub open spec fn seeded(project: Tree, plugin: Seq<char>, default: Tree) -> Result<Tree, SeedError> {
    match project {
        Tree::Table(fields) => match first_place(fields, "plugins"@) {
            None => Ok(
                Tree::Table(fields.push(("plugins"@, Tree::Table(seq![(plugin, default)])))),
            ),
            Some(i) => match fields[i].1 {
                Tree::Table(sections) => match first_place(sections, plugin) {
                    Some(_) => Ok(project),
                    None => Ok(
                        Tree::Table(
                            fields.update(
                                i,
                                (fields[i].0, Tree::Table(sections.push((plugin, default)))),
                            ),
                        ),
                    ),
                },
                _ => Err(SeedError::PluginsNotTable),
            },
        },
        _ => Err(SeedError::NotTable),
    }
}

/// The section of `plugin` in the project's configuration, if there is one.
pub fn plugin_config<'a>(project: &'a ValueTree, plugin: &str) -> (section: Option<&'a ValueTree>)
    ensures
        match plugin_section(project@, plugin@) {
            Some(tree) => section matches Some(found) && found@ == tree,
            None => section is None,
        },
{
    let fields = match project {
        ValueTree::Table(fields) => fields,
        _ => {
            return None;
        },
    };
    proof {
        lemma_table_view(*fields);
    }
    let sections = match first_entry(fields, "plugins") {
        Some(ValueTree::Table(sections)) => sections,
        _ => {
            return None;
        },
    };
    proof {
        lemma_table_view(*sections);
    }
    first_entry(sections, plugin)
}

/// Whether the plugin is referenced for the first time: the project's
/// configuration has no section for it, so that the plugin is to be asked for
/// the configuration that it starts with.
pub fn needs_default_config(project: &ValueTree, plugin: &str) -> (needed: bool)
    ensures
        needed == (plugin_section(project@, plugin@) is None),
{
    plugin_config(project, plugin).is_none()
}

/// Seeds the section of `plugin` with `default`, unless the project has a
/// section for the plugin already. Returns whether the configuration changed.
pub fn seed_plugin_config(project: &mut ValueTree, plugin: &str, default: ValueTree) -> (outcome:
    Result<bool, SeedError>)
    ensures
        match seeded(old(project)@, plugin@, default@) {
            Ok(tree) => outcome matches Ok(changed) && final(project)@ == tree && changed == (
            plugin_section(old(project)@, plugin@) is None),
            Err(e) => outcome matches Err(got) && got == e && final(project)@ == old(project)@,
        },
{
    let mut taken = ValueTree::Boolean(false);
    std::mem::swap(project, &mut taken);
    match taken {
        ValueTree::Table(fields) => {
            let mut fields = fields;
            let ghost before = entry_views(fields@);
            proof {
                lemma_table_view(fields);
            }
            match first_index(&fields, "plugins") {
                None => {
                    let mut sections: Vec<(String, ValueTree)> = Vec::new();
                    sections.push((plugin.to_owned(), default));
                    proof {
                        lemma_table_view(sections);
                        assert(entry_views(sections@) =~= seq![(plugin@, default@)]);
                    }
                    fields.push(("plugins".to_owned(), ValueTree::Table(sections)));
                    proof {
                        lemma_table_view(fields);
                        assert(entry_views(fields@) =~= before.push(
                            ("plugins"@, Tree::Table(seq![(plugin@, default@)])),
                        ));
                    }
                    *project = ValueTree::Table(fields);
                    Ok(true)
                },
                Some(i) => {
                    let mut section = ValueTree::Boolean(false);
                    std::mem::swap(&mut fields[i].1, &mut section);
                    match section {
                        ValueTree::Table(sections) => {
                            let mut sections = sections;
                            let ghost held = entry_views(sections@);
                            proof {
                                lemma_table_view(sections);
                            }
                            let changed = first_index(&sections, plugin).is_none();
                            if changed {
                                sections.push((plugin.to_owned(), default));
                                proof {
                                    lemma_table_view(sections);
                                    assert(entry_views(sections@) =~= held.push(
                                        (plugin@, default@),
                                    ));
                                }
                            }
                            fields[i].1 = ValueTree::Table(sections);
                            proof {
                                lemma_table_view(fields);
                                if changed {
                                    assert(entry_views(fields@) =~= before.update(
                                        i as int,
                                        (
                                            before[i as int].0,
                                            Tree::Table(held.push((plugin@, default@))),
                                        ),
                                    ));
                                } else {
                                    assert(entry_views(fields@) =~= before);
                                }
                            }
                            *project = ValueTree::Table(fields);
                            Ok(changed)
                        },
                        other => {
                            fields[i].1 = other;
                            proof {
                                lemma_table_view(fields);
                                assert(entry_views(fields@) =~= before);
                            }
                            *project = ValueTree::Table(fields);
                            Err(SeedError::PluginsNotTable)
                        },
                    }
                },
            }
        },
        other => {
            *project = other;
            Err(SeedError::NotTable)
        },
    }
}

} // verus!
