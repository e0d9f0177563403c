//! The set of paths that the dev server watches on behalf of the plugins.
//!
//! The set is owned by the host. Plugins reach it only through the capability
//! calls `watch_path`, `watched_paths` and `remove_path`; every change is
//! reported to all plugins with the complete new set.

use vstd::prelude::*;

verus! {

/// The paths after `path` was asked to be watched: adding is idempotent, and a
/// new path goes to the end.
pub open spec fn with_path(paths: Seq<Seq<char>>, path: Seq<char>) -> Seq<Seq<char>> {
    if paths.contains(path) {
        paths
    } else {
        paths.push(path)
    }
}

/// The paths after `path` was asked to be removed: the first occurrence goes,
/// the others keep their order. An absent path changes nothing.
pub open spec fn without_path(paths: Seq<Seq<char>>, path: Seq<char>) -> Seq<Seq<char>> {
    if paths.contains(path) {
        paths.remove(paths.index_of(path))
    } else {
        paths
    }
}

/// How often `path` occurs in `paths`.
pub open spec fn occurrences(paths: Seq<Seq<char>>, path: Seq<char>) -> nat
    decreases paths.len(),
{
    if paths.len() == 0 {
        0
    } else {
        let rest = occurrences(paths.drop_last(), path);
        if paths.last() == path {
            rest + 1
        } else {
            rest
        }
    }
}

/// The outcome of `remove_path` on a path that is not watched.
#[derive(Clone, Copy, Debug, PartialEq, Eq, Structural)]
pub struct NotWatched;

/// A deduplicated, ordered set of path strings.
pub struct WatchedPathSet {
    paths: Vec<String>,
}

impl View for WatchedPathSet {
    type V = Seq<Seq<char>>;

    closed spec fn view(&self) -> Seq<Seq<char>> {
        Seq::new(self.paths@.len(), |i: int| self.paths@[i]@)
    }
}

impl WatchedPathSet {
    #[verifier::type_invariant]
    spec fn distinct(&self) -> bool {
        self@.no_duplicates()
    }

    /// The empty set.
    pub fn new() -> (set: Self)
        ensures
            set@ == Seq::<Seq<char>>::empty(),
    {
        let set = WatchedPathSet { paths: Vec::new() };
        assert(set@ =~= Seq::<Seq<char>>::empty());
        set
    }

    /// The number of watched paths.
    pub fn len(&self) -> (n: usize)
        ensures
            n == self@.len(),
            self@.no_duplicates(),
    {
        proof {
            use_type_invariant(self);
        }
        self.paths.len()
    }

    fn position(&self, path: &String) -> (found: Option<usize>)
        ensures
            match found {
                Some(i) => i < self@.len() && self@[i as int] == path@ && self@.index_of(path@)
                    == i,
                None => !self@.contains(path@),
            },
    {
        proof {
            use_type_invariant(self);
        }
        let mut i: usize = 0;
        while i < self.paths.len()
            invariant
                i <= self.paths.len(),
                self@.len() == self.paths.len(),
                forall|j: int| 0 <= j < i ==> self@[j] != path@,
                forall|j: int| 0 <= j < self.paths.len() ==> self@[j] == self.paths@[j]@,
                self@.no_duplicates(),
            decreases self.paths.len() - i,
        {
            if self.paths[i] == *path {
                proof {
                    let k = self@.index_of(path@);
                    assert(self@[i as int] == path@);
                    assert(self@.contains(path@));
                    assert(0 <= k < self@.len() && self@[k] == path@);
                }
                return Some(i);
            }
            i += 1;
        }
        None
    }

    /// Whether `path` is watched.
    pub fn contains(&self, path: &str) -> (held: bool)
        ensures
            held == self@.contains(path@),
    {
        let owned = path.to_owned();
        self.position(&owned).is_some()
    }

    /// Adds `path` unless it is already watched. Returns whether the set
    /// changed, which is when the plugins have to be told.
    pub fn watch_path(&mut self, path: &str) -> (changed: bool)
        ensures
            final(self)@ == with_path(old(self)@, path@),
            final(self)@.no_duplicates(),
            changed == !old(self)@.contains(path@),
    {
        proof {
            use_type_invariant(&*self);
        }
        let owned = path.to_owned();
        match self.position(&owned) {
            Some(_) => false,
            None => {
                proof {
                    use_type_invariant(&*self);
                }
                let ghost before = self@;
                let mut paths: Vec<String> = Vec::new();
                std::mem::swap(&mut paths, &mut self.paths);
                paths.push(owned);
                proof {
                    let after = Seq::new(paths@.len(), |i: int| paths@[i]@);
                    assert(after =~= before.push(path@));
                    assert(after.no_duplicates()) by {
                        assert forall|i: int, j: int|
                            0 <= i < after.len() && 0 <= j < after.len() && i != j implies after[i]
                            != after[j] by {
                            if i < before.len() && j < before.len() {
                                assert(before[i] != before[j]);
                            } else if i < before.len() {
                                assert(before.contains(before[i]));
                            } else {
                                assert(before.contains(before[j]));
                            }
                        }
                    }
                }
                self.paths = paths;
                assert(self@ =~= before.push(path@));
                true
            },
        }
    }

    /// Removes `path`. Fails, and changes nothing, when `path` is not watched.
    pub fn remove_path(&mut self, path: &str) -> (outcome: Result<(), NotWatched>)
        ensures
            final(self)@ == without_path(old(self)@, path@),
            final(self)@.no_duplicates(),
            outcome is Ok <==> old(self)@.contains(path@),
    {
        proof {
            use_type_invariant(&*self);
        }
        let owned = path.to_owned();
        match self.position(&owned) {
            None => Err(NotWatched),
            Some(i) => {
                proof {
                    use_type_invariant(&*self);
                }
                let ghost before = self@;
                let mut paths: Vec<String> = Vec::new();
                std::mem::swap(&mut paths, &mut self.paths);
                let _ = paths.remove(i);
                proof {
                    let after = Seq::new(paths@.len(), |k: int| paths@[k]@);
                    assert(before.contains(path@));
                    assert(after =~= before.remove(i as int));
                    assert(after.no_duplicates()) by {
                        assert forall|a: int, b: int|
                            0 <= a < after.len() && 0 <= b < after.len() && a != b implies after[a]
                            != after[b] by {
                            let a0 = if a < i { a } else { a + 1 };
                            let b0 = if b < i { b } else { b + 1 };
                            assert(before[a0] != before[b0]);
                        }
                    }
                }
                self.paths = paths;
                assert(self@ =~= before.remove(i as int));
                Ok(())
            },
        }
    }

    /// A snapshot of the watched paths, in the order in which they were added.
    pub fn watched_paths(&self) -> (paths: Vec<String>)
        ensures
            paths@.len() == self@.len(),
            forall|i: int| 0 <= i < paths@.len() ==> paths@[i]@ == self@[i],
            self@.no_duplicates(),
    {
        proof {
            use_type_invariant(self);
        }
        let mut out: Vec<String> = Vec::new();
        let mut i: usize = 0;
        while i < self.paths.len()
            invariant
                i <= self.paths.len(),
                out@.len() == i,
                self@.len() == self.paths.len(),
                forall|j: int| 0 <= j < i ==> out@[j]@ == self@[j],
            decreases self.paths.len() - i,
        {
            out.push(self.paths[i].clone());
            i += 1;
        }
        out
    }
}

/// A path that does not occur is counted zero times, and the other way round.
pub proof fn lemma_occurrences_absent(paths: Seq<Seq<char>>, path: Seq<char>)
    ensures
        occurrences(paths, path) == 0 <==> !paths.contains(path),
    decreases paths.len(),
{
    if paths.len() > 0 {
        lemma_occurrences_absent(paths.drop_last(), path);
        if paths.last() == path {
            assert(paths[paths.len() - 1] == path);
        } else if paths.contains(path) {
            let i = choose|i: int| 0 <= i < paths.len() && paths[i] == path;
            assert(paths.drop_last()[i] == path);
        } else if paths.drop_last().contains(path) {
            let i = choose|i: int| 0 <= i < paths.drop_last().len() && paths.drop_last()[i] == path;
            assert(paths[i] == path);
        }
    }
}

/// Watching keeps the paths distinct.
pub proof fn lemma_with_path_distinct(paths: Seq<Seq<char>>, path: Seq<char>)
    requires
        paths.no_duplicates(),
    ensures
        with_path(paths, path).no_duplicates(),
        with_path(paths, path).contains(path),
{
    if !paths.contains(path) {
        let after = paths.push(path);
        assert(after[paths.len() as int] == path);
        assert forall|i: int, j: int|
            0 <= i < after.len() && 0 <= j < after.len() && i != j implies after[i]
            != after[j] by {
            if i < paths.len() && j < paths.len() {
            } else if i < paths.len() {
                assert(paths.contains(paths[i]));
            } else {
                assert(paths.contains(paths[j]));
            }
        }
    }
}

/// In a sequence without duplicates a path that occurs is counted once.
pub proof fn lemma_occurrences_distinct(paths: Seq<Seq<char>>, path: Seq<char>)
    requires
        paths.no_duplicates(),
        paths.contains(path),
    ensures
        occurrences(paths, path) == 1,
    decreases paths.len(),
{
    let front = paths.drop_last();
    assert(paths.len() > 0);
    if paths.last() == path {
        if front.contains(path) {
            let i = choose|i: int| 0 <= i < front.len() && front[i] == path;
            assert(paths[i] == paths[paths.len() - 1]);
        }
        lemma_occurrences_absent(front, path);
    } else {
        let i = choose|i: int| 0 <= i < paths.len() && paths[i] == path;
        assert(front[i] == path);
        lemma_occurrences_distinct(front, path);
    }
}

/// Watching the same path twice is the same as watching it once, and leaves
/// exactly one occurrence of it.
pub proof fn lemma_watch_twice(paths: Seq<Seq<char>>, path: Seq<char>)
    requires
        paths.no_duplicates(),
    ensures
        with_path(with_path(paths, path), path) == with_path(paths, path),
        occurrences(with_path(with_path(paths, path), path), path) == 1,
{
    lemma_with_path_distinct(paths, path);
    lemma_occurrences_distinct(with_path(paths, path), path);
}

/// Removing a path that is not watched leaves the set as it was.
pub proof fn lemma_remove_absent(paths: Seq<Seq<char>>, path: Seq<char>)
    requires
        !paths.contains(path),
    ensures
        without_path(paths, path) == paths,
{
}

/// After a watched path is removed it is watched no longer, so that a second
/// removal fails; the other paths stay.
pub proof fn lemma_remove_watched(paths: Seq<Seq<char>>, path: Seq<char>)
    requires
        paths.no_duplicates(),
    ensures
        !without_path(paths, path).contains(path),
        without_path(paths, path).no_duplicates(),
        forall|other: Seq<char>|
            other != path ==> (without_path(paths, path).contains(other) <==> paths.contains(
                other,
            )),
{
    let after = without_path(paths, path);
    if paths.contains(path) {
        let i = paths.index_of(path);
        assert(0 <= i < paths.len() && paths[i] == path);
        assert forall|k: int| 0 <= k < after.len() implies after[k] != path by {
            let k0 = if k < i { k } else { k + 1 };
            assert(after[k] == paths[k0]);
        }
        assert forall|a: int, b: int|
            0 <= a < after.len() && 0 <= b < after.len() && a != b implies after[a]
            != after[b] by {
            let a0 = if a < i { a } else { a + 1 };
            let b0 = if b < i { b } else { b + 1 };
            assert(paths[a0] != paths[b0]);
        }
        assert forall|other: Seq<char>| other != path implies (after.contains(other)
            <==> paths.contains(other)) by {
            if after.contains(other) {
                let k = choose|k: int| 0 <= k < after.len() && after[k] == other;
                let k0 = if k < i { k } else { k + 1 };
                assert(paths[k0] == other);
            }
            if paths.contains(other) {
                let k = choose|k: int| 0 <= k < paths.len() && paths[k] == other;
                let k1 = if k < i { k } else { k - 1 };
                assert(after[k1] == other);
            }
        }
    }
}

/// Watching a new path and removing it again gives back the set as it was.
pub proof fn lemma_watch_then_remove(paths: Seq<Seq<char>>, path: Seq<char>)
    requires
        !paths.contains(path),
    ensures
        without_path(with_path(paths, path), path) == paths,
{
    let grown = paths.push(path);
    assert(grown[paths.len() as int] == path);
    assert(grown.contains(path));
    let i = grown.index_of(path);
    assert(0 <= i < grown.len() && grown[i] == path);
    if i < paths.len() {
        assert(paths[i] == path);
    }
    assert(grown.remove(i) =~= paths);
}

} // verus!
