//! The hooks of a plugin, and when the host calls them.
//!
//! In a session the host loads its plugins in an order. A hook is dispatched
//! to all plugins in that order before the next hook begins, and no two calls
//! overlap. `apply_config` comes first: a plugin that rejects its
//! configuration gets no further hook in this session. Any other failure is
//! the plugin's own: it is logged under the plugin's name, and the other
//! plugins and the build go on.
//!
//! The calls themselves are made outside. Here stands what decides them: which
//! plugin is next for a hook, and what an outcome changes.

use vstd::prelude::*;
use crate::lock::{needs_registration, DioxusLock, Records};

verus! {

/// An entry point of a plugin.
#[derive(Clone, Copy, Debug, PartialEq, Eq, Structural)]
pub enum Hook {
    ApplyConfig,
    Register,
    BeforeBuild,
    BeforeServe,
    OnRebuild,
    OnHotReload,
    OnWatchedPathsChange,
}

/// What a call of a hook came to. A hook that returns nothing succeeds.
#[derive(Clone, Copy, Debug, PartialEq, Eq, Structural)]
pub enum HookOutcome {
    Succeeded,
    Failed,
}

/// Where a plugin stands in this session.
#[derive(Clone, Copy, Debug, PartialEq, Eq, Structural)]
pub enum Status {
    /// Loaded; `apply_config` was not called yet.
    Loaded,
    /// `apply_config` succeeded: the plugin gets its hooks.
    Configured,
    /// `apply_config` failed: the plugin gets no hook in this session.
    Disabled,
}

/// The kind of a plugin's failure.
#[derive(Clone, Copy, Debug, PartialEq, Eq, Structural)]
pub enum FailureKind {
    /// `apply_config` rejected the configuration.
    Configuration,
    /// `register` failed; it is called again in the next session.
    Registration,
    /// Another hook failed.
    Hook,
}

/// The kind of failure that a failing hook is.
pub open spec fn kind_of(hook: Hook) -> FailureKind {
    match hook {
        Hook::ApplyConfig => FailureKind::Configuration,
        Hook::Register => FailureKind::Registration,
        _ => FailureKind::Hook,
    }
}

/// The model of a failure.
pub struct FailureView {
    pub plugin: Seq<char>,
    pub hook: Hook,
    pub kind: FailureKind,
}

/// A failure of one plugin in one hook, to be logged.
#[derive(Debug, PartialEq, Eq)]
pub struct HookFailure {
    pub plugin: String,
    pub hook: Hook,
    pub kind: FailureKind,
}

impl View for HookFailure {
    type V = FailureView;

    open spec fn view(&self) -> FailureView {
        FailureView { plugin: self.plugin@, hook: self.hook, kind: self.kind }
    }
}

/// The model of a session: the plugins in the order in which they were loaded,
/// each with where it stands.
pub type Plugins = Seq<(Seq<char>, Status)>;

/// Whether `hook` is to be called on a plugin: `apply_config` on one that is
/// loaded, `register` on one that is configured and was never registered, any
/// other hook on one that is configured.
pub open spec fn due(records: Records, hook: Hook, plugin: (Seq<char>, Status)) -> bool {
    match hook {
        Hook::ApplyConfig => plugin.1 == Status::Loaded,
        Hook::Register => plugin.1 == Status::Configured && needs_registration(records, plugin.0),
        _ => plugin.1 == Status::Configured,
    }
}

/// The first plugin from the place `from` on that `hook` is to be called on.
pub open spec fn next_due(records: Records, plugins: Plugins, hook: Hook, from: int) -> Option<int>
    decreases plugins.len() - from,
{
    if from < 0 || from >= plugins.len() {
        None
    } else if due(records, hook, plugins[from]) {
        Some(from)
    } else {
        next_due(records, plugins, hook, from + 1)
    }
}

/// Where a plugin stands after `hook` came to `outcome` on it: only the
/// outcome of `apply_config` changes that.
pub open spec fn settled(status: Status, hook: Hook, outcome: HookOutcome) -> Status {
    match hook {
        Hook::ApplyConfig => match outcome {
            HookOutcome::Succeeded => Status::Configured,
            HookOutcome::Failed => Status::Disabled,
        },
        _ => status,
    }
}

/// The session after `hook` came to `outcome` on the plugin at `place`.
pub open spec fn recorded(plugins: Plugins, hook: Hook, place: int, outcome: HookOutcome) -> Plugins {
    if 0 <= place < plugins.len() {
        plugins.update(place, (plugins[place].0, settled(plugins[place].1, hook, outcome)))
    } else {
        plugins
    }
}

/// The failure that is to be logged after `hook` came to `outcome` on the
/// plugin at `place`.
pub open spec fn failure_of(plugins: Plugins, hook: Hook, place: int, outcome: HookOutcome) -> Option<
    FailureView,
> {
    if 0 <= place < plugins.len() && outcome == HookOutcome::Failed {
        Some(FailureView { plugin: plugins[place].0, hook, kind: kind_of(hook) })
    } else {
        None
    }
}

/// The plugins of one session.
pub struct Session {
    plugins: Vec<(String, Status)>,
}

impl View for Session {
    type V = Plugins;

    closed spec fn view(&self) -> Plugins {
        Seq::new(self.plugins@.len(), |i: int| (self.plugins@[i].0@, self.plugins@[i].1))
    }
}

impl Session {
    /// A session without plugins.
    pub fn new() -> (session: Self)
        ensures
            session@ == Seq::<(Seq<char>, Status)>::empty(),
    {
        let session = Session { plugins: Vec::new() };
        assert(session@ =~= Seq::<(Seq<char>, Status)>::empty());
        session
    }

    /// Loads a plugin: it comes behind the plugins that were loaded before.
    pub fn load(&mut self, name: &str) -> (place: usize)
        ensures
            place == old(self)@.len(),
            final(self)@ == old(self)@.push((name@, Status::Loaded)),
    {
        let place = self.plugins.len();
        self.plugins.push((name.to_owned(), Status::Loaded));
        assert(self@ =~= old(self)@.push((name@, Status::Loaded)));
        place
    }

    /// The number of plugins.
    pub fn len(&self) -> (n: usize)
        ensures
            n == self@.len(),
    {
        self.plugins.len()
    }

    /// The name of the plugin at `place`.
    pub fn name(&self, place: usize) -> (name: Option<&String>)
        ensures
            name is Some <==> place < self@.len(),
            name matches Some(text) ==> text@ == self@[place as int].0,
    {
        if place < self.plugins.len() {
            Some(&self.plugins[place].0)
        } else {
            None
        }
    }

    /// Where the plugin at `place` stands.
    pub fn status(&self, place: usize) -> (status: Option<Status>)
        ensures
            status is Some <==> place < self@.len(),
            status matches Some(s) ==> s == self@[place as int].1,
    {
        if place < self.plugins.len() {
            Some(self.plugins[place].1)
        } else {
            None
        }
    }

    /// The next plugin, from the place `from` on, that `hook` is to be called
    /// on. A dispatch starts from 0 and goes on from behind the plugin that
    /// was called last, until there is none.
    pub fn next_plugin(&self, lock: &DioxusLock, hook: Hook, from: usize) -> (next: Option<usize>)
        ensures
            match next_due(lock@, self@, hook, from as int) {
                Some(place) => next == Some(place as usize) && from <= place < self@.len(),
                None => next is None,
            },
    {
        let mut i = from;
        while i < self.plugins.len()
            invariant
                from <= i,
                next_due(lock@, self@, hook, i as int) == next_due(lock@, self@, hook, from as int),
            decreases self.plugins.len() - i,
        {
            let is_due = match hook {
                Hook::ApplyConfig => matches!(self.plugins[i].1, Status::Loaded),
                Hook::Register => matches!(self.plugins[i].1, Status::Configured)
                    && lock.needs_registration(self.plugins[i].0.as_str()),
                _ => matches!(self.plugins[i].1, Status::Configured),
            };
            assert(is_due == due(lock@, hook, self@[i as int]));
            if is_due {
                return Some(i);
            }
            i += 1;
        }
        None
    }

    /// Takes in what `hook` came to on the plugin at `place`, and returns the
    /// failure that is to be logged, if it failed. No failure stops anything:
    /// the dispatch goes on with the next plugin.
    pub fn record(&mut self, hook: Hook, place: usize, outcome: HookOutcome) -> (failure: Option<
        HookFailure,
    >)
        ensures
            final(self)@ == recorded(old(self)@, hook, place as int, outcome),
            match failure_of(old(self)@, hook, place as int, outcome) {
                Some(view) => failure matches Some(got) && got@ == view,
                None => failure is None,
            },
    {
        if place >= self.plugins.len() {
            return None;
        }
        match hook {
            Hook::ApplyConfig => {
                let status = match outcome {
                    HookOutcome::Succeeded => Status::Configured,
                    HookOutcome::Failed => Status::Disabled,
                };
                self.plugins[place].1 = status;
            },
            _ => {},
        }
        assert(self@ =~= recorded(old(self)@, hook, place as int, outcome));
        match outcome {
            HookOutcome::Succeeded => None,
            HookOutcome::Failed => {
                let kind = match hook {
                    Hook::ApplyConfig => FailureKind::Configuration,
                    Hook::Register => FailureKind::Registration,
                    _ => FailureKind::Hook,
                };
                Some(HookFailure { plugin: self.plugins[place].0.clone(), hook, kind })
            },
        }
    }
}

/// Which plugin is next does not depend on the plugins in front of the place
/// that the search starts from.
pub proof fn lemma_next_due_ignores_front(
    records: Records,
    before: Plugins,
    after: Plugins,
    hook: Hook,
    from: int,
)
    requires
        before.len() == after.len(),
        forall|i: int| from <= i < before.len() ==> before[i] == after[i],
    ensures
        next_due(records, before, hook, from) == next_due(records, after, hook, from),
    decreases before.len() - from,
{
    if 0 <= from < before.len() {
        lemma_next_due_ignores_front(records, before, after, hook, from + 1);
    }
}

/// No plugin stops another. When a hook other than `apply_config` fails on one
/// plugin, every plugin stands where it stood, so that the dispatch goes on
/// with the same plugin as if the hook had succeeded; and the failure names
/// the plugin that failed, and that hook.
pub proof fn lemma_failure_is_isolated(records: Records, plugins: Plugins, hook: Hook, place: int)
    requires
        hook != Hook::ApplyConfig,
        0 <= place < plugins.len(),
    ensures
        recorded(plugins, hook, place, HookOutcome::Failed) == plugins,
        recorded(plugins, hook, place, HookOutcome::Failed) == recorded(
            plugins,
            hook,
            place,
            HookOutcome::Succeeded,
        ),
        next_due(records, recorded(plugins, hook, place, HookOutcome::Failed), hook, place + 1)
            == next_due(records, plugins, hook, place + 1),
        failure_of(plugins, hook, place, HookOutcome::Failed) == Some(
            FailureView { plugin: plugins[place].0, hook, kind: kind_of(hook) },
        ),
        failure_of(plugins, hook, place, HookOutcome::Succeeded) is None,
{
    assert(recorded(plugins, hook, place, HookOutcome::Failed) =~= plugins);
    assert(recorded(plugins, hook, place, HookOutcome::Succeeded) =~= plugins);
}

/// A plugin that rejects its configuration is left out of this session, and
/// only that plugin: the others stand where they stood.
pub proof fn lemma_rejected_configuration_disables_one(
    records: Records,
    plugins: Plugins,
    place: int,
    hook: Hook,
    other: int,
)
    requires
        0 <= place < plugins.len(),
        0 <= other < plugins.len(),
        other != place,
    ensures
        !due(
            records,
            hook,
            recorded(plugins, Hook::ApplyConfig, place, HookOutcome::Failed)[place],
        ),
        recorded(plugins, Hook::ApplyConfig, place, HookOutcome::Failed)[other] == plugins[other],
{
}

/// A plugin that is registered is never due for `register`.
pub proof fn lemma_registered_is_not_due(records: Records, plugin: (Seq<char>, Status))
    requires
        !needs_registration(records, plugin.0),
    ensures
        !due(records, Hook::Register, plugin),
{
}

} // verus!
