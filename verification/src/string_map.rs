//! A map from strings to values, kept as a list of entries with distinct keys.
//!
//! The lock state is keyed by plugin names and by the keys that plugins choose
//! for their own state. The list keeps the order in which keys were first put
//! in; its model is the mathematical map from key to value.
//!
//! It is a list and no hash map because the lock file is written from a walk
//! over the entries: the order of that walk has to be part of what the map
//! is, so that the written text is decided by the state alone.

use vstd::prelude::*;

verus! {

/// No two entries have the same key.
pub open spec fn distinct_keys<T>(entries: Seq<(Seq<char>, T)>) -> bool {
    forall|i: int, j: int|
        0 <= i < entries.len() && 0 <= j < entries.len() && i != j ==> (#[trigger] entries[i]).0 != (
        #[trigger] entries[j]).0
}

/// Whether some entry has the key `key`.
pub open spec fn has_key<T>(entries: Seq<(Seq<char>, T)>, key: Seq<char>) -> bool {
    exists|i: int| 0 <= i < entries.len() && (#[trigger] entries[i]).0 == key
}

/// The place of an entry with the key `key`.
pub open spec fn place_of<T>(entries: Seq<(Seq<char>, T)>, key: Seq<char>) -> int {
    choose|i: int| 0 <= i < entries.len() && (#[trigger] entries[i]).0 == key
}

/// The map that a list of entries stands for.
pub open spec fn map_of<T>(entries: Seq<(Seq<char>, T)>) -> Map<Seq<char>, T> {
    Map::new(|key: Seq<char>| has_key(entries, key), |key: Seq<char>| entries[place_of(entries, key)].1)
}

/// With distinct keys, the entry at a place is the one that the map holds
/// under its key.
pub proof fn lemma_map_of_at<T>(entries: Seq<(Seq<char>, T)>, i: int)
    requires
        distinct_keys(entries),
        0 <= i < entries.len(),
    ensures
        map_of(entries).dom().contains(entries[i].0),
        map_of(entries)[entries[i].0] == entries[i].1,
        place_of(entries, entries[i].0) == i,
{
    let key = entries[i].0;
    assert(has_key(entries, key));
    let found = place_of(entries, key);
    assert(0 <= found < entries.len() && entries[found].0 == key);
}

/// A new key at the end is an insertion into the map.
pub proof fn lemma_map_of_push<T>(entries: Seq<(Seq<char>, T)>, key: Seq<char>, value: T)
    requires
        distinct_keys(entries),
        !has_key(entries, key),
    ensures
        distinct_keys(entries.push((key, value))),
        map_of(entries.push((key, value))) == map_of(entries).insert(key, value),
{
    let grown = entries.push((key, value));
    assert forall|i: int, j: int|
        0 <= i < grown.len() && 0 <= j < grown.len() && i != j implies (#[trigger] grown[i]).0 != (
    #[trigger] grown[j]).0 by {
        if i < entries.len() && j < entries.len() {
            assert(entries[i].0 != entries[j].0);
        } else if i < entries.len() {
            assert(entries[i].0 != key);
        } else {
            assert(entries[j].0 != key);
        }
    }
    assert forall|k: Seq<char>| has_key(grown, k) <==> (k == key || has_key(entries, k)) by {
        if has_key(grown, k) {
            let i = place_of(grown, k);
            if i < entries.len() {
                assert(entries[i].0 == k);
            }
        }
        if k == key {
            assert(grown[entries.len() as int].0 == k);
        }
        if has_key(entries, k) {
            let i = place_of(entries, k);
            assert(grown[i].0 == k);
        }
    }
    assert forall|k: Seq<char>| has_key(grown, k) implies map_of(grown)[k] == map_of(
        entries,
    ).insert(key, value)[k] by {
        let i = place_of(grown, k);
        lemma_map_of_at(grown, i);
        if i < entries.len() {
            assert(entries[i].0 == k);
            lemma_map_of_at(entries, i);
        }
    }
    assert(map_of(grown) =~= map_of(entries).insert(key, value));
}

/// A new value at a place is an insertion under the key of that place.
pub proof fn lemma_map_of_update<T>(entries: Seq<(Seq<char>, T)>, i: int, value: T)
    requires
        distinct_keys(entries),
        0 <= i < entries.len(),
    ensures
        distinct_keys(entries.update(i, (entries[i].0, value))),
        map_of(entries.update(i, (entries[i].0, value))) == map_of(entries).insert(
            entries[i].0,
            value,
        ),
{
    let key = entries[i].0;
    let changed = entries.update(i, (key, value));
    assert forall|a: int, b: int|
        0 <= a < changed.len() && 0 <= b < changed.len() && a != b implies (
    #[trigger] changed[a]).0 != (#[trigger] changed[b]).0 by {
        assert(changed[a].0 == entries[a].0);
        assert(changed[b].0 == entries[b].0);
    }
    assert forall|k: Seq<char>| has_key(changed, k) <==> has_key(entries, k) by {
        if has_key(changed, k) {
            let a = place_of(changed, k);
            assert(entries[a].0 == k);
        }
        if has_key(entries, k) {
            let a = place_of(entries, k);
            assert(changed[a].0 == k);
        }
    }
    assert(has_key(entries, key));
    assert forall|k: Seq<char>| has_key(changed, k) implies map_of(changed)[k] == map_of(
        entries,
    ).insert(key, value)[k] by {
        let a = place_of(changed, k);
        lemma_map_of_at(changed, a);
        assert(entries[a].0 == k);
        lemma_map_of_at(entries, a);
    }
    assert(map_of(changed) =~= map_of(entries).insert(key, value));
}

/// Taking the entry at a place out is a removal of its key.
pub proof fn lemma_map_of_remove<T>(entries: Seq<(Seq<char>, T)>, i: int)
    requires
        distinct_keys(entries),
        0 <= i < entries.len(),
    ensures
        distinct_keys(entries.remove(i)),
        map_of(entries.remove(i)) == map_of(entries).remove(entries[i].0),
{
    let key = entries[i].0;
    let fewer = entries.remove(i);
    assert forall|a: int, b: int|
        0 <= a < fewer.len() && 0 <= b < fewer.len() && a != b implies (#[trigger] fewer[a]).0 != (
    #[trigger] fewer[b]).0 by {
        let a0 = if a < i { a } else { a + 1 };
        let b0 = if b < i { b } else { b + 1 };
        assert(fewer[a] == entries[a0]);
        assert(fewer[b] == entries[b0]);
    }
    assert forall|k: Seq<char>| has_key(fewer, k) <==> (k != key && has_key(entries, k)) by {
        if has_key(fewer, k) {
            let a = place_of(fewer, k);
            let a0 = if a < i { a } else { a + 1 };
            assert(entries[a0].0 == k);
            assert(entries[a0].0 != entries[i].0);
        }
        if k != key && has_key(entries, k) {
            let a = place_of(entries, k);
            let a1 = if a < i { a } else { a - 1 };
            assert(fewer[a1].0 == k);
        }
    }
    assert forall|k: Seq<char>| has_key(fewer, k) implies map_of(fewer)[k] == map_of(
        entries,
    ).remove(key)[k] by {
        let a = place_of(fewer, k);
        lemma_map_of_at(fewer, a);
        let a0 = if a < i { a } else { a + 1 };
        assert(entries[a0].0 == k);
        lemma_map_of_at(entries, a0);
    }
    assert(map_of(fewer) =~= map_of(entries).remove(key));
}

/// A map from strings to values of type `V`.
#[derive(Debug)]
pub struct StringMap<V: View> {
    entries: Vec<(String, V)>,
}

impl<V: View> View for StringMap<V> {
    type V = Map<Seq<char>, V::V>;

    open spec fn view(&self) -> Map<Seq<char>, V::V> {
        map_of(self.entries())
    }
}

impl<V: View> StringMap<V> {
    /// The keys and the models of the values, in the order in which the keys
    /// were first put in.
    pub closed spec fn entries(&self) -> Seq<(Seq<char>, V::V)> {
        Seq::new(self.entries@.len(), |i: int| (self.entries@[i].0@, self.entries@[i].1@))
    }

    /// The values themselves, in the same order.
    pub closed spec fn values(&self) -> Seq<V> {
        Seq::new(self.entries@.len(), |i: int| self.entries@[i].1)
    }

    #[verifier::type_invariant]
    spec fn keys_are_distinct(&self) -> bool {
        distinct_keys(self.entries())
    }

    /// The map without entries.
    pub fn new() -> (map: Self)
        ensures
            map.entries() == Seq::<(Seq<char>, V::V)>::empty(),
            map@ == Map::<Seq<char>, V::V>::empty(),
    {
        let map = StringMap { entries: Vec::new() };
        assert(map.entries() =~= Seq::<(Seq<char>, V::V)>::empty());
        assert(map@ =~= Map::<Seq<char>, V::V>::empty());
        map
    }

    /// The number of entries.
    pub fn len(&self) -> (n: usize)
        ensures
            n == self.entries().len(),
            n == self.values().len(),
            distinct_keys(self.entries()),
            forall|i: int| 0 <= i < n ==> (#[trigger] self.entries()[i]).1 == self.values()[i]@,
    {
        proof {
            use_type_invariant(self);
        }
        self.entries.len()
    }

    /// The key at the place `i`.
    pub fn key_at(&self, i: usize) -> (key: &String)
        requires
            i < self.entries().len(),
        ensures
            key@ == self.entries()[i as int].0,
            self@.dom().contains(key@),
    {
        proof {
            use_type_invariant(self);
            lemma_map_of_at(self.entries(), i as int);
        }
        &self.entries[i].0
    }

    /// The value at the place `i`.
    pub fn value_at(&self, i: usize) -> (value: &V)
        requires
            i < self.entries().len(),
        ensures
            *value == self.values()[i as int],
            value@ == self.entries()[i as int].1,
            value@ == self@[self.entries()[i as int].0],
    {
        proof {
            use_type_invariant(self);
            lemma_map_of_at(self.entries(), i as int);
        }
        &self.entries[i].1
    }

    /// The place of `key`, if the map holds it.
    pub fn position(&self, key: &str) -> (found: Option<usize>)
        ensures
            found is Some <==> self@.dom().contains(key@),
            found matches Some(i) ==> i < self.entries().len() && self.entries()[i as int].0
                == key@,
    {
        proof {
            use_type_invariant(self);
        }
        let wanted = key.to_owned();
        let mut i: usize = 0;
        while i < self.entries.len()
            invariant
                i <= self.entries.len(),
                wanted@ == key@,
                self.entries().len() == self.entries.len(),
                forall|j: int| 0 <= j < i ==> (#[trigger] self.entries()[j]).0 != key@,
                forall|j: int|
                    0 <= j < self.entries.len() ==> (#[trigger] self.entries()[j]).0
                        == self.entries@[j].0@,
            decreases self.entries.len() - i,
        {
            if self.entries[i].0 == wanted {
                assert(self.entries()[i as int].0 == key@);
                assert(has_key(self.entries(), key@));
                return Some(i);
            }
            i += 1;
        }
        assert(!has_key(self.entries(), key@));
        None
    }

    /// Whether the map holds `key`.
    pub fn contains_key(&self, key: &str) -> (held: bool)
        ensures
            held == self@.dom().contains(key@),
    {
        self.position(key).is_some()
    }

    /// The value under `key`.
    pub fn get(&self, key: &str) -> (found: Option<&V>)
        ensures
            found is Some <==> self@.dom().contains(key@),
            found matches Some(value) ==> value@ == self@[key@],
    {
        match self.position(key) {
            Some(i) => {
                proof {
                    use_type_invariant(self);
                    lemma_map_of_at(self.entries(), i as int);
                }
                Some(&self.entries[i].1)
            },
            None => None,
        }
    }

    /// Puts `value` under `key` and returns the value that was there. A new
    /// key goes to the end; a key that is held keeps its place.
    pub fn insert(&mut self, key: &str, value: V) -> (previous: Option<V>)
        ensures
            final(self)@ == old(self)@.insert(key@, value@),
            previous is Some <==> old(self)@.dom().contains(key@),
            previous matches Some(before) ==> before@ == old(self)@[key@],
            final(self).entries() == match old(self).position_of(key@) {
                Some(i) => old(self).entries().update(i, (key@, value@)),
                None => old(self).entries().push((key@, value@)),
            },
    {
        proof {
            use_type_invariant(&*self);
        }
        let ghost before = self.entries();
        let found = self.position(key);
        let mut entries: Vec<(String, V)> = Vec::new();
        std::mem::swap(&mut entries, &mut self.entries);
        let previous = match found {
            Some(i) => {
                let mut held = value;
                std::mem::swap(&mut entries[i].1, &mut held);
                proof {
                    lemma_map_of_at(before, i as int);
                    lemma_map_of_update(before, i as int, value@);
                    assert(has_key(before, key@));
                }
                Some(held)
            },
            None => {
                entries.push((key.to_owned(), value));
                proof {
                    lemma_map_of_push(before, key@, value@);
                }
                None
            },
        };
        let ghost after = Seq::new(entries@.len(), |i: int| (entries@[i].0@, entries@[i].1@));
        assert(after =~= match old(self).position_of(key@) {
            Some(i) => before.update(i, (key@, value@)),
            None => before.push((key@, value@)),
        });
        self.entries = entries;
        assert(self.entries() =~= after);
        previous
    }

    /// The place of `key` in the model.
    pub open spec fn position_of(&self, key: Seq<char>) -> Option<int> {
        if has_key(self.entries(), key) {
            Some(place_of(self.entries(), key))
        } else {
            None
        }
    }

    /// Takes the entry under `key` out and returns its value.
    pub fn remove(&mut self, key: &str) -> (previous: Option<V>)
        ensures
            final(self)@ == old(self)@.remove(key@),
            previous is Some <==> old(self)@.dom().contains(key@),
            previous matches Some(before) ==> before@ == old(self)@[key@],
    {
        proof {
            use_type_invariant(&*self);
        }
        let ghost before = self.entries();
        match self.position(key) {
            None => {
                assert(self@.remove(key@) =~= self@);
                None
            },
            Some(i) => {
                let mut entries: Vec<(String, V)> = Vec::new();
                std::mem::swap(&mut entries, &mut self.entries);
                let (_, value) = entries.remove(i);
                proof {
                    lemma_map_of_at(before, i as int);
                    lemma_map_of_remove(before, i as int);
                    let after = Seq::new(entries@.len(), |k: int| (entries@[k].0@, entries@[k].1@));
                    assert(after =~= before.remove(i as int));
                }
                self.entries = entries;
                assert(self.entries() =~= before.remove(i as int));
                Some(value)
            },
        }
    }
}

impl StringMap<Vec<u8>> {
    /// A copy with the same keys, in the same order, and the same bytes.
    pub fn duplicate(&self) -> (copy: Self)
        ensures
            copy.entries() == self.entries(),
            copy@ == self@,
    {
        proof {
            use_type_invariant(self);
        }
        let mut entries: Vec<(String, Vec<u8>)> = Vec::new();
        let mut i: usize = 0;
        while i < self.entries.len()
            invariant
                i <= self.entries.len(),
                entries.len() == i,
                forall|j: int|
                    0 <= j < i ==> entries@[j].0@ == self.entries@[j].0@ && entries@[j].1@
                        == self.entries@[j].1@,
            decreases self.entries.len() - i,
        {
            let key = self.entries[i].0.clone();
            let bytes = self.entries[i].1.clone();
            assert(bytes@ =~= self.entries@[i as int].1@);
            entries.push((key, bytes));
            i += 1;
        }
        let ghost copied = Seq::new(entries@.len(), |k: int| (entries@[k].0@, entries@[k].1@));
        assert(copied =~= self.entries());
        let copy = StringMap { entries };
        assert(copy.entries() =~= self.entries());
        copy
    }
}

} // verus!
