//! What the host offers to every plugin.
//!
//! A plugin may ask for the target platform and the output directory, ask for
//! a refresh of the page or of one asset, manage the watched paths, and log.
//! The host holds the state behind these calls. What has to happen outside
//! (a refresh, a log line, telling the plugins that the watched paths
//! changed) is queued as an effect, which the caller takes and performs.

use vstd::prelude::*;
use crate::watch::{with_path, without_path, NotWatched, WatchedPathSet};

verus! {

/// The surface that the application is built for.
#[derive(Clone, Copy, Debug, PartialEq, Eq, Structural)]
pub enum Platform {
    Web,
    Desktop,
}

/// The model of an effect.
pub enum EffectView {
    RefreshBrowserPage,
    RefreshAsset { old_url: Seq<char>, new_url: Seq<char> },
    Log(Seq<char>),
    WatchedPathsChanged(Seq<Seq<char>>),
}

/// Something that the host has to do outside on behalf of a plugin.
#[derive(Debug, PartialEq, Eq)]
pub enum HostEffect {
    /// Reload the page of every connected client.
    RefreshBrowserPage,
    /// Reload what refers to one asset, without reloading the page.
    RefreshAsset { old_url: String, new_url: String },
    /// Put a line into the log.
    Log(String),
    /// Tell every plugin the watched paths: all of them, not what changed.
    WatchedPathsChanged(Vec<String>),
}

impl View for HostEffect {
    type V = EffectView;

    open spec fn view(&self) -> EffectView {
        match self {
            HostEffect::RefreshBrowserPage => EffectView::RefreshBrowserPage,
            HostEffect::RefreshAsset { old_url, new_url } => EffectView::RefreshAsset {
                old_url: old_url@,
                new_url: new_url@,
            },
            HostEffect::Log(line) => EffectView::Log(line@),
            HostEffect::WatchedPathsChanged(paths) => EffectView::WatchedPathsChanged(
                Seq::new(paths@.len(), |i: int| paths@[i]@),
            ),
        }
    }
}

/// The model of the host's state.
pub struct HostState {
    pub platform: Platform,
    pub output_directory: Seq<char>,
    pub watched: Seq<Seq<char>>,
    pub pending: Seq<EffectView>,
}

/// The state behind the calls that plugins make.
pub struct Host {
    platform: Platform,
    output_directory: String,
    watched: WatchedPathSet,
    pending: Vec<HostEffect>,
}

impl View for Host {
    type V = HostState;

    closed spec fn view(&self) -> HostState {
        HostState {
            platform: self.platform,
            output_directory: self.output_directory@,
            watched: self.watched@,
            pending: Seq::new(self.pending@.len(), |i: int| self.pending@[i]@),
        }
    }
}

/// The state with one more effect queued.
pub open spec fn queued(state: HostState, effect: EffectView) -> HostState {
    HostState { pending: state.pending.push(effect), ..state }
}

/// The state after a plugin asked for `path` to be watched: a new path is
/// added, and the change is to be told; a path that is watched changes
/// nothing.
pub open spec fn after_watch(state: HostState, path: Seq<char>) -> HostState {
    if state.watched.contains(path) {
        state
    } else {
        HostState {
            watched: with_path(state.watched, path),
            pending: state.pending.push(
                EffectView::WatchedPathsChanged(with_path(state.watched, path)),
            ),
            ..state
        }
    }
}

/// The state after a plugin asked for `path` to be removed: a watched path
/// goes, and the change is to be told; another path changes nothing.
pub open spec fn after_remove(state: HostState, path: Seq<char>) -> HostState {
    if state.watched.contains(path) {
        HostState {
            watched: without_path(state.watched, path),
            pending: state.pending.push(
                EffectView::WatchedPathsChanged(without_path(state.watched, path)),
            ),
            ..state
        }
    } else {
        state
    }
}

impl Host {
    /// A host for the given platform and output directory, with no watched
    /// path and nothing to do.
    pub fn new(platform: Platform, output_directory: String) -> (host: Self)
        ensures
            host@ == (HostState {
                platform,
                output_directory: output_directory@,
                watched: Seq::empty(),
                pending: Seq::empty(),
            }),
    {
        let host = Host {
            platform,
            output_directory,
            watched: WatchedPathSet::new(),
            pending: Vec::new(),
        };
        assert(host@.pending =~= Seq::<EffectView>::empty());
        host
    }

    /// The platform that is built for.
    pub fn get_platform(&self) -> (platform: Platform)
        ensures
            platform == self@.platform,
    {
        self.platform
    }

    /// The root of the build output.
    pub fn output_directory(&self) -> (directory: String)
        ensures
            directory@ == self@.output_directory,
    {
        self.output_directory.clone()
    }

    fn queue(&mut self, effect: HostEffect)
        ensures
            final(self)@ == queued(old(self)@, effect@),
    {
        self.pending.push(effect);
        assert(self@.pending =~= old(self)@.pending.push(effect@));
    }

    /// Asks for a reload of the page of every connected client.
    pub fn refresh_browser_page(&mut self)
        ensures
            final(self)@ == queued(old(self)@, EffectView::RefreshBrowserPage),
    {
        self.queue(HostEffect::RefreshBrowserPage);
    }

    /// Asks for a reload of what refers to the asset at `old_url`, which is
    /// now at `new_url`.
    pub fn refresh_asset(&mut self, old_url: &str, new_url: &str)
        ensures
            final(self)@ == queued(
                old(self)@,
                EffectView::RefreshAsset { old_url: old_url@, new_url: new_url@ },
            ),
    {
        self.queue(
            HostEffect::RefreshAsset { old_url: old_url.to_owned(), new_url: new_url.to_owned() },
        );
    }

    /// Forwards a line to the log.
    pub fn log(&mut self, message: &str)
        ensures
            final(self)@ == queued(old(self)@, EffectView::Log(message@)),
    {
        self.queue(HostEffect::Log(message.to_owned()));
    }

    /// The watched paths, in the order in which they were added.
    pub fn watched_paths(&self) -> (paths: Vec<String>)
        ensures
            paths@.len() == self@.watched.len(),
            forall|i: int| 0 <= i < paths@.len() ==> paths@[i]@ == self@.watched[i],
            self@.watched.no_duplicates(),
    {
        self.watched.watched_paths()
    }

    /// Adds `path` to the watched paths, unless it is watched already.
    pub fn watch_path(&mut self, path: &str)
        ensures
            final(self)@ == after_watch(old(self)@, path@),
            final(self)@.watched.no_duplicates(),
    {
        if self.watched.watch_path(path) {
            let paths = self.watched.watched_paths();
            let effect = HostEffect::WatchedPathsChanged(paths);
            assert(effect@->WatchedPathsChanged_0 =~= self.watched@);
            self.queue(effect);
        }
    }

    /// Removes `path` from the watched paths. Fails, and changes nothing,
    /// when `path` is not watched.
    pub fn remove_path(&mut self, path: &str) -> (outcome: Result<(), NotWatched>)
        ensures
            final(self)@ == after_remove(old(self)@, path@),
            final(self)@.watched.no_duplicates(),
            outcome is Ok <==> old(self)@.watched.contains(path@),
    {
        match self.watched.remove_path(path) {
            Ok(()) => {
                let paths = self.watched.watched_paths();
                let effect = HostEffect::WatchedPathsChanged(paths);
                assert(effect@->WatchedPathsChanged_0 =~= self.watched@);
                self.queue(effect);
                Ok(())
            },
            Err(e) => Err(e),
        }
    }

    /// Hands over what is to be done outside, in the order in which it was
    /// asked for, and leaves nothing queued.
    pub fn take_effects(&mut self) -> (effects: Vec<HostEffect>)
        ensures
            final(self)@ == (HostState { pending: Seq::empty(), ..old(self)@ }),
            effects@.len() == old(self)@.pending.len(),
            forall|i: int| 0 <= i < effects@.len() ==> effects@[i]@ == old(self)@.pending[i],
    {
        let mut effects: Vec<HostEffect> = Vec::new();
        std::mem::swap(&mut effects, &mut self.pending);
        assert(self@.pending =~= Seq::<EffectView>::empty());
        effects
    }
}

} // verus!
