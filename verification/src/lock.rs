//! The lock state: what the host remembers of each plugin from one session to
//! the next.
//!
//! A plugin is registered once in its persisted lifetime. The lock state holds,
//! under the plugin's name, whether that has happened, and the state that the
//! plugin keeps for itself, which the host carries and never reads. What is
//! remembered of a plugin stays, whether a session loads the plugin or not.

use vstd::prelude::*;
use std::path::PathBuf;
use crate::string_map::{distinct_keys, has_key, StringMap};

verus! {

/// `std::path::PathBuf`. A path is carried as it is and never looked into.
#[verifier::external_type_specification]
#[verifier::external_body]
pub struct ExPathBuf(PathBuf);

/// The model of what is remembered of one plugin.
pub struct PluginRecord {
    pub initialized: bool,
    pub state: Map<Seq<char>, Seq<u8>>,
}

/// What is remembered of one plugin.
#[derive(Debug)]
pub struct PluginLockState {
    /// Whether the plugin's `register` has succeeded.
    pub initialized: bool,
    /// The plugin's own state, byte for byte.
    pub map: StringMap<Vec<u8>>,
}

impl View for PluginLockState {
    type V = PluginRecord;

    open spec fn view(&self) -> PluginRecord {
        PluginRecord { initialized: self.initialized, state: self.map@ }
    }
}

/// The record of a plugin that was never seen.
pub open spec fn fresh_record() -> PluginRecord {
    PluginRecord { initialized: false, state: Map::empty() }
}

impl Default for PluginLockState {
    fn default() -> (state: Self)
        ensures
            state@ == fresh_record(),
    {
        PluginLockState { initialized: false, map: StringMap::new() }
    }
}

impl Clone for PluginLockState {
    fn clone(&self) -> (copy: Self)
        ensures
            copy@ == self@,
    {
        PluginLockState { initialized: self.initialized, map: self.map.duplicate() }
    }
}

/// What came of a plugin's `register` in this session.
#[derive(Clone, Copy, Debug, PartialEq, Eq, Structural)]
pub enum Registration {
    /// `register` was not called.
    NotAttempted,
    /// `register` was called and succeeded.
    Succeeded,
    /// `register` was called and failed.
    Failed,
}

/// The model of a report.
pub struct ReportView {
    pub name: Seq<char>,
    pub registration: Registration,
    pub store: Map<Seq<char>, Seq<u8>>,
}

/// What the host hands over of one loaded plugin: its name, what came of its
/// registration, and its own state as it is now.
#[derive(Debug)]
pub struct PluginReport {
    pub name: String,
    pub registration: Registration,
    pub store: StringMap<Vec<u8>>,
}

impl View for PluginReport {
    type V = ReportView;

    open spec fn view(&self) -> ReportView {
        ReportView { name: self.name@, registration: self.registration, store: self.store@ }
    }
}

/// The models of a list of reports.
pub open spec fn report_views(reports: Seq<PluginReport>) -> Seq<ReportView> {
    Seq::new(reports.len(), |i: int| reports[i]@)
}

/// The model of the lock state: the record of each plugin, by name.
pub type Records = Map<Seq<char>, PluginRecord>;

/// The record of `name`, that of a plugin never seen where there is none.
pub open spec fn record_of(records: Records, name: Seq<char>) -> PluginRecord {
    if records.dom().contains(name) {
        records[name]
    } else {
        fresh_record()
    }
}

/// Whether `register` is to be called on the plugin `name`: exactly when it
/// has not succeeded before.
pub open spec fn needs_registration(records: Records, name: Seq<char>) -> bool {
    !record_of(records, name).initialized
}

/// Whether a report says of a plugin that has to be registered that its
/// registration failed.
pub open spec fn registration_failed(records: Records, report: ReportView) -> bool {
    needs_registration(records, report.name) && report.registration == Registration::Failed
}

/// The records after what came of one plugin's registration was taken in. Of a
/// plugin that is registered the report changes nothing; of another, only
/// success sets the flag. The plugin has a record afterwards in any case.
pub open spec fn registered(records: Records, report: ReportView) -> Records {
    let before = record_of(records, report.name);
    records.insert(
        report.name,
        PluginRecord {
            initialized: before.initialized || report.registration == Registration::Succeeded,
            state: before.state,
        },
    )
}

/// The records after the registrations of `reports` were taken in, in order.
pub open spec fn registered_all(records: Records, reports: Seq<ReportView>) -> Records
    decreases reports.len(),
{
    if reports.len() == 0 {
        records
    } else {
        registered(registered_all(records, reports.drop_last()), reports.last())
    }
}

/// The records after one plugin's own state was captured: the state is taken
/// as it was reported, byte for byte, and the flag is left as it was.
pub open spec fn captured(records: Records, report: ReportView) -> Records {
    records.insert(
        report.name,
        PluginRecord {
            initialized: record_of(records, report.name).initialized,
            state: report.store,
        },
    )
}

/// The records after the states of `reports` were captured, in order.
pub open spec fn captured_all(records: Records, reports: Seq<ReportView>) -> Records
    decreases reports.len(),
{
    if reports.len() == 0 {
        records
    } else {
        captured(captured_all(records, reports.drop_last()), reports.last())
    }
}

/// The names that `reports` speak of.
pub open spec fn reported_names(reports: Seq<ReportView>) -> Set<Seq<char>> {
    Set::new(|name: Seq<char>| exists|i: int| 0 <= i < reports.len() && (#[trigger] reports[i]).name == name)
}

/// The records after the plugins of a session were initialized: the
/// registrations are taken in and the states are captured. What is remembered
/// of a plugin that the session does not load stays as it was.
pub open spec fn initialized_all(records: Records, reports: Seq<ReportView>) -> Records {
    captured_all(registered_all(records, reports), reports)
}

/// The records after one plugin was added: its registration is taken in and
/// its state is captured.
pub open spec fn added(records: Records, report: ReportView) -> Records {
    captured(registered(records, report), report)
}

/// The names of the plugins whose registration failed, in the order of the
/// reports.
pub open spec fn failures(records: Records, reports: Seq<ReportView>) -> Seq<Seq<char>>
    decreases reports.len(),
{
    if reports.len() == 0 {
        Seq::empty()
    } else {
        let earlier = failures(records, reports.drop_last());
        if registration_failed(registered_all(records, reports.drop_last()), reports.last()) {
            earlier.push(reports.last().name)
        } else {
            earlier
        }
    }
}

/// What `initialize_new_plugins` leaves to its caller.
#[derive(Debug)]
pub struct Initialization {
    /// The names of the plugins whose registration failed. Each is to be
    /// logged; none is an error.
    pub failed: Vec<String>,
    /// Whether the lock state is to be saved: there was a plugin.
    pub save: bool,
}

/// `PathBuf::new`: the empty path.
#[verifier::external_body]
fn empty_path() -> PathBuf {
    PathBuf::new()
}

/// The `Clone` of `PathBuf`: a copy of the path.
#[verifier::external_body]
fn copy_path(path: &PathBuf) -> (copy: PathBuf)
    ensures
        copy == *path,
{
    path.clone()
}

/// The lock state of a project.
#[derive(Debug)]
pub struct DioxusLock {
    /// Where the lock file lies.
    pub path: PathBuf,
    /// The record of each plugin, by name.
    pub plugins: StringMap<PluginLockState>,
}

impl View for DioxusLock {
    type V = Records;

    open spec fn view(&self) -> Records {
        self.plugins@
    }
}

impl Default for DioxusLock {
    /// An empty lock state at the empty path.
    fn default() -> (lock: Self)
        ensures
            lock@ == Map::<Seq<char>, PluginRecord>::empty(),
    {
        Self::new(empty_path())
    }
}

impl Clone for DioxusLock {
    /// A copy with the same path and the same records.
    fn clone(&self) -> (copy: Self)
        ensures
            copy@ == self@,
            copy.path == self.path,
    {
        let mut plugins: StringMap<PluginLockState> = StringMap::new();
        let count = self.plugins.len();
        let mut i: usize = 0;
        assert(self.plugins.entries().take(0) =~= plugins.entries());
        while i < count
            invariant
                i <= count,
                count == self.plugins.entries().len(),
                distinct_keys(self.plugins.entries()),
                plugins.entries() == self.plugins.entries().take(i as int),
            decreases count - i,
        {
            let ghost before = self.plugins.entries().take(i as int);
            let name = self.plugins.key_at(i);
            let state = self.plugins.value_at(i).clone();
            proof {
                if has_key(before, name@) {
                    let k = choose|k: int| 0 <= k < before.len() && (#[trigger] before[k]).0 == name@;
                    assert(before[k] == self.plugins.entries()[k]);
                    assert(self.plugins.entries()[k].0 != self.plugins.entries()[i as int].0);
                }
            }
            let _ = plugins.insert(name.as_str(), state);
            assert(plugins.entries() =~= self.plugins.entries().take(i + 1));
            i += 1;
        }
        assert(self.plugins.entries().take(i as int) =~= self.plugins.entries());
        DioxusLock { path: copy_path(&self.path), plugins }
    }
}

impl DioxusLock {
    /// The lock state of a project without a lock file: no plugin is known.
    pub fn new(path: PathBuf) -> (lock: Self)
        ensures
            lock.path == path,
            lock@ == Map::<Seq<char>, PluginRecord>::empty(),
    {
        Self { path, plugins: StringMap::new() }
    }

    /// Whether `register` is to be called on the plugin `name`.
    pub fn needs_registration(&self, name: &str) -> (needed: bool)
        ensures
            needed == needs_registration(self@, name@),
    {
        match self.plugins.get(name) {
            Some(state) => !state.initialized,
            None => true,
        }
    }

    fn state_of(&self, name: &str) -> (state: PluginLockState)
        ensures
            state@ == record_of(self@, name@),
    {
        match self.plugins.get(name) {
            Some(state) => state.clone(),
            None => PluginLockState::default(),
        }
    }

    /// Takes in what came of one plugin's registration. Returns whether the
    /// registration failed, which is to be logged and is no error: the plugin
    /// is asked again in the next session.
    pub fn record_registration(&mut self, report: &PluginReport) -> (failed: bool)
        ensures
            final(self)@ == registered(old(self)@, report@),
            final(self).path == old(self).path,
            failed == registration_failed(old(self)@, report@),
    {
        let mut state = self.state_of(report.name.as_str());
        let mut failed = false;
        if !state.initialized {
            match report.registration {
                Registration::Succeeded => {
                    state.initialized = true;
                },
                Registration::Failed => {
                    failed = true;
                },
                Registration::NotAttempted => {},
            }
        }
        let _ = self.plugins.insert(report.name.as_str(), state);
        failed
    }

    /// Captures one plugin's own state, byte for byte, whether the plugin is
    /// registered or not. The flag is left as it was.
    pub fn capture(&mut self, report: &PluginReport)
        ensures
            final(self)@ == captured(old(self)@, report@),
            final(self).path == old(self).path,
    {
        let mut state = self.state_of(report.name.as_str());
        state.map = report.store.duplicate();
        let _ = self.plugins.insert(report.name.as_str(), state);
    }

    /// Captures the states of all of `reports`, in order.
    pub fn capture_all(&mut self, reports: &Vec<PluginReport>)
        ensures
            final(self)@ == captured_all(old(self)@, report_views(reports@)),
            final(self).path == old(self).path,
    {
        let ghost views = report_views(reports@);
        let mut i: usize = 0;
        assert(views.take(0) =~= Seq::<ReportView>::empty());
        while i < reports.len()
            invariant
                i <= reports.len(),
                views == report_views(reports@),
                self@ == captured_all(old(self)@, views.take(i as int)),
                self.path == old(self).path,
            decreases reports.len() - i,
        {
            assert(views.take(i + 1).drop_last() =~= views.take(i as int));
            self.capture(&reports[i]);
            i += 1;
        }
        assert(views.take(i as int) =~= views);
    }

    /// Adds one plugin: takes in its registration and captures its state.
    /// Returns whether the registration failed. The lock state is to be saved
    /// afterwards.
    pub fn add_plugin(&mut self, report: &PluginReport) -> (failed: bool)
        ensures
            final(self)@ == added(old(self)@, report@),
            final(self).path == old(self).path,
            failed == registration_failed(old(self)@, report@),
    {
        let failed = self.record_registration(report);
        self.capture(report);
        failed
    }

    /// Initializes the plugins of a session. The registrations of `reports`
    /// are taken in, in order, and then the states are captured. What is
    /// remembered of a plugin that is not among the reports stays as it was:
    /// a plugin that misses a session is not forgotten. Where there is a
    /// plugin at all, the lock state is to be saved.
    pub fn initialize_new_plugins(&mut self, reports: &Vec<PluginReport>) -> (outcome:
        Initialization)
        ensures
            final(self)@ == initialized_all(old(self)@, report_views(reports@)),
            final(self).path == old(self).path,
            outcome.save == (reports@.len() > 0),
            outcome.failed@.len() == failures(old(self)@, report_views(reports@)).len(),
            forall|i: int|
                0 <= i < outcome.failed@.len() ==> (#[trigger] outcome.failed@[i])@ == failures(
                    old(self)@,
                    report_views(reports@),
                )[i],
    {
        let ghost views = report_views(reports@);
        let mut failed: Vec<String> = Vec::new();
        let mut i: usize = 0;
        assert(views.take(0) =~= Seq::<ReportView>::empty());
        while i < reports.len()
            invariant
                i <= reports.len(),
                views == report_views(reports@),
                self@ == registered_all(old(self)@, views.take(i as int)),
                self.path == old(self).path,
                failed@.len() == failures(old(self)@, views.take(i as int)).len(),
                forall|j: int|
                    0 <= j < failed@.len() ==> (#[trigger] failed@[j])@ == failures(
                        old(self)@,
                        views.take(i as int),
                    )[j],
            decreases reports.len() - i,
        {
            let report = &reports[i];
            assert(views.take(i + 1).drop_last() =~= views.take(i as int));
            assert(views.take(i + 1).last() == report@);
            if self.record_registration(report) {
                failed.push(report.name.clone());
            }
            i += 1;
        }
        assert(views.take(i as int) =~= views);
        self.capture_all(reports);
        Initialization { failed, save: reports.len() > 0 }
    }
}

/// The flag of a plugin is never taken back: what is taken in of any plugin's
/// registration leaves a registered plugin registered.
pub proof fn lemma_registered_keeps_flag(records: Records, report: ReportView, name: Seq<char>)
    requires
        record_of(records, name).initialized,
    ensures
        record_of(registered(records, report), name).initialized,
        registered(records, report).dom().contains(name),
{
}

/// The same for a capture of state.
pub proof fn lemma_captured_keeps_flag(records: Records, report: ReportView, name: Seq<char>)
    ensures
        record_of(captured(records, report), name).initialized == record_of(
            records,
            name,
        ).initialized,
{
}

/// The same for the registrations of a whole session.
pub proof fn lemma_registered_all_keeps_flag(
    records: Records,
    reports: Seq<ReportView>,
    name: Seq<char>,
)
    requires
        record_of(records, name).initialized,
    ensures
        record_of(registered_all(records, reports), name).initialized,
        registered_all(records, reports).dom().contains(name),
    decreases reports.len(),
{
    if reports.len() > 0 {
        lemma_registered_all_keeps_flag(records, reports.drop_last(), name);
        lemma_registered_keeps_flag(
            registered_all(records, reports.drop_last()),
            reports.last(),
            name,
        );
    }
}

/// The same for the captures of a whole session.
pub proof fn lemma_captured_all_keeps_flag(
    records: Records,
    reports: Seq<ReportView>,
    name: Seq<char>,
)
    ensures
        record_of(captured_all(records, reports), name).initialized == record_of(
            records,
            name,
        ).initialized,
    decreases reports.len(),
{
    if reports.len() > 0 {
        lemma_captured_all_keeps_flag(records, reports.drop_last(), name);
        lemma_captured_keeps_flag(captured_all(records, reports.drop_last()), reports.last(), name);
    }
}

/// Registrations touch the plugins that they speak of, and no others.
pub proof fn lemma_registered_all_elsewhere(
    records: Records,
    reports: Seq<ReportView>,
    name: Seq<char>,
)
    requires
        !reported_names(reports).contains(name),
    ensures
        registered_all(records, reports).dom().contains(name) == records.dom().contains(name),
        record_of(registered_all(records, reports), name) == record_of(records, name),
    decreases reports.len(),
{
    if reports.len() > 0 {
        let front = reports.drop_last();
        assert(reports[reports.len() - 1].name != name);
        if reported_names(front).contains(name) {
            let k = choose|k: int| 0 <= k < front.len() && (#[trigger] front[k]).name == name;
            assert(reports[k].name == name);
        }
        lemma_registered_all_elsewhere(records, front, name);
    }
}

/// Captures touch the plugins that they speak of, and no others.
pub proof fn lemma_captured_all_elsewhere(
    records: Records,
    reports: Seq<ReportView>,
    name: Seq<char>,
)
    requires
        !reported_names(reports).contains(name),
    ensures
        captured_all(records, reports).dom().contains(name) == records.dom().contains(name),
        record_of(captured_all(records, reports), name) == record_of(records, name),
    decreases reports.len(),
{
    if reports.len() > 0 {
        let front = reports.drop_last();
        assert(reports[reports.len() - 1].name != name);
        if reported_names(front).contains(name) {
            let k = choose|k: int| 0 <= k < front.len() && (#[trigger] front[k]).name == name;
            assert(reports[k].name == name);
        }
        lemma_captured_all_elsewhere(records, front, name);
    }
}

/// A plugin that a session does not load is remembered as it was: the session
/// neither forgets it nor changes what is remembered of it. With no plugin at
/// all the lock state stays as it is.
pub proof fn lemma_session_leaves_others(
    records: Records,
    reports: Seq<ReportView>,
    name: Seq<char>,
)
    requires
        !reported_names(reports).contains(name),
    ensures
        initialized_all(records, reports).dom().contains(name) == records.dom().contains(name),
        record_of(initialized_all(records, reports), name) == record_of(records, name),
        records.dom().contains(name) ==> initialized_all(records, reports)[name] == records[name],
        reports.len() == 0 ==> initialized_all(records, reports) == records,
{
    lemma_registered_all_elsewhere(records, reports, name);
    lemma_captured_all_elsewhere(registered_all(records, reports), reports, name);
}

/// A plugin that is registered is not registered again. Where the lock state
/// says that `register` has succeeded for a plugin, `register` is not to be
/// called on it; whatever a session then reports of its registration changes
/// nothing; and after any session, whether it loads the plugin or not, the
/// lock state says the same, so that no later session calls `register`
/// either.
pub proof fn lemma_registered_once(records: Records, reports: Seq<ReportView>, name: Seq<char>)
    requires
        record_of(records, name).initialized,
    ensures
        !needs_registration(records, name),
        forall|report: ReportView|
            report.name == name ==> #[trigger] registered(records, report) == records
                && !registration_failed(records, report),
        record_of(initialized_all(records, reports), name).initialized,
        !needs_registration(initialized_all(records, reports), name),
{
    assert forall|report: ReportView| report.name == name implies #[trigger] registered(
        records,
        report,
    ) == records && !registration_failed(records, report) by {
        assert(registered(records, report) =~= records);
    }
    lemma_registered_all_keeps_flag(records, reports, name);
    lemma_captured_all_keeps_flag(registered_all(records, reports), reports, name);
}

/// The records after some sessions, one after the other.
pub open spec fn after_sessions(records: Records, sessions: Seq<Seq<ReportView>>) -> Records
    decreases sessions.len(),
{
    if sessions.len() == 0 {
        records
    } else {
        initialized_all(after_sessions(records, sessions.drop_last()), sessions.last())
    }
}

/// A plugin that is registered stays registered through every later
/// session, whichever plugins those sessions load: at the start of each of
/// them, and after the last, the lock state says that `register` is not to be
/// called on it.
pub proof fn lemma_registered_in_every_later_session(
    records: Records,
    sessions: Seq<Seq<ReportView>>,
    name: Seq<char>,
)
    requires
        record_of(records, name).initialized,
    ensures
        forall|k: int|
            0 <= k <= sessions.len() ==> !needs_registration(
                #[trigger] after_sessions(records, sessions.take(k)),
                name,
            ),
    decreases sessions.len(),
{
    assert forall|k: int| 0 <= k <= sessions.len() implies !needs_registration(
        #[trigger] after_sessions(records, sessions.take(k)),
        name,
    ) by {
        if k == sessions.len() {
            assert(sessions.take(k) =~= sessions);
            if sessions.len() > 0 {
                let earlier = sessions.drop_last();
                lemma_registered_in_every_later_session(records, earlier, name);
                assert(earlier.take(earlier.len() as int) =~= earlier);
                assert(!needs_registration(
                    after_sessions(records, earlier.take(earlier.len() as int)),
                    name,
                ));
                lemma_registered_once(after_sessions(records, earlier), sessions.last(), name);
            }
        } else {
            let earlier = sessions.drop_last();
            lemma_registered_in_every_later_session(records, earlier, name);
            assert(sessions.take(k) =~= earlier.take(k));
        }
    }
}

/// Adding a plugin leaves every registered plugin registered.
pub proof fn lemma_added_keeps_flag(records: Records, report: ReportView, name: Seq<char>)
    requires
        record_of(records, name).initialized,
    ensures
        record_of(added(records, report), name).initialized,
{
}

/// No two reports speak of the same plugin.
pub open spec fn distinct_names(reports: Seq<ReportView>) -> bool {
    forall|i: int, j: int|
        0 <= i < reports.len() && 0 <= j < reports.len() && i != j ==> (#[trigger] reports[i]).name
            != (#[trigger] reports[j]).name
}

/// What a session leaves of a plugin that it loads: the plugin is registered
/// if it was or if its registration succeeded, and its state is the state
/// that was reported.
pub open spec fn after_session(records: Records, report: ReportView) -> PluginRecord {
    PluginRecord {
        initialized: record_of(records, report.name).initialized || report.registration
            == Registration::Succeeded,
        state: report.store,
    }
}

proof fn lemma_front_is_distinct(reports: Seq<ReportView>)
    requires
        distinct_names(reports),
        reports.len() > 0,
    ensures
        distinct_names(reports.drop_last()),
        !reported_names(reports.drop_last()).contains(reports.last().name),
        forall|name: Seq<char>|
            reported_names(reports).contains(name) <==> (name == reports.last().name
                || reported_names(reports.drop_last()).contains(name)),
{
    let front = reports.drop_last();
    assert forall|i: int, j: int|
        0 <= i < front.len() && 0 <= j < front.len() && i != j implies (#[trigger] front[i]).name
        != (#[trigger] front[j]).name by {
        assert(front[i] == reports[i]);
        assert(front[j] == reports[j]);
    }
    if reported_names(front).contains(reports.last().name) {
        let k = choose|k: int| 0 <= k < front.len() && (#[trigger] front[k]).name == reports.last().name;
        assert(front[k] == reports[k]);
        assert(reports[k].name != reports[reports.len() - 1].name);
    }
    assert forall|name: Seq<char>| reported_names(reports).contains(name) <==> (name
        == reports.last().name || reported_names(front).contains(name)) by {
        if reported_names(reports).contains(name) {
            let k = choose|k: int| 0 <= k < reports.len() && (#[trigger] reports[k]).name == name;
            if k < front.len() {
                assert(front[k].name == name);
            }
        }
        if reported_names(front).contains(name) {
            let k = choose|k: int| 0 <= k < front.len() && (#[trigger] front[k]).name == name;
            assert(reports[k].name == name);
        }
        if name == reports.last().name {
            assert(reports[reports.len() - 1].name == name);
        }
    }
}

/// What the registrations of a session leave of one plugin.
proof fn lemma_registered_all_at(records: Records, reports: Seq<ReportView>, i: int)
    requires
        distinct_names(reports),
        0 <= i < reports.len(),
    ensures
        registered_all(records, reports).dom().contains(reports[i].name),
        registered_all(records, reports)[reports[i].name] == (PluginRecord {
            initialized: record_of(records, reports[i].name).initialized || reports[i].registration
                == Registration::Succeeded,
            state: record_of(records, reports[i].name).state,
        }),
    decreases reports.len(),
{
    let front = reports.drop_last();
    lemma_front_is_distinct(reports);
    if i == reports.len() - 1 {
        lemma_registered_all_elsewhere(records, front, reports.last().name);
    } else {
        assert(front[i] == reports[i]);
        lemma_registered_all_at(records, front, i);
        assert(reports[i].name != reports[reports.len() - 1].name);
    }
}

/// What the captures of a session leave of one plugin.
proof fn lemma_captured_all_at(records: Records, reports: Seq<ReportView>, i: int)
    requires
        distinct_names(reports),
        0 <= i < reports.len(),
    ensures
        captured_all(records, reports).dom().contains(reports[i].name),
        captured_all(records, reports)[reports[i].name] == (PluginRecord {
            initialized: record_of(records, reports[i].name).initialized,
            state: reports[i].store,
        }),
    decreases reports.len(),
{
    let front = reports.drop_last();
    lemma_front_is_distinct(reports);
    if i == reports.len() - 1 {
        lemma_captured_all_elsewhere(records, front, reports.last().name);
    } else {
        assert(front[i] == reports[i]);
        lemma_captured_all_at(records, front, i);
        assert(reports[i].name != reports[reports.len() - 1].name);
    }
}

/// What a session leaves, plugin by plugin. Where no two reports speak of the
/// same plugin, the lock state after the session holds the plugins that it
/// held and those that were loaded, and of each loaded plugin what
/// `after_session` says.
pub proof fn lemma_session_plugin_by_plugin(records: Records, reports: Seq<ReportView>, i: int)
    requires
        distinct_names(reports),
        0 <= i < reports.len(),
    ensures
        initialized_all(records, reports).dom() == records.dom().union(reported_names(reports)),
        initialized_all(records, reports)[reports[i].name] == after_session(records, reports[i]),
{
    let names = reported_names(reports);
    let taken = registered_all(records, reports);
    assert(names.contains(reports[i].name));
    lemma_registered_all_at(records, reports, i);
    lemma_captured_all_at(taken, reports, i);
    assert forall|name: Seq<char>| initialized_all(records, reports).dom().contains(name)
        <==> records.dom().union(names).contains(name) by {
        if names.contains(name) {
            let k = choose|k: int| 0 <= k < reports.len() && (#[trigger] reports[k]).name == name;
            lemma_captured_all_at(taken, reports, k);
        } else {
            lemma_session_leaves_others(records, reports, name);
        }
    }
    assert(initialized_all(records, reports).dom() =~= records.dom().union(names));
}

} // verus!
