//! Looking a key up in the entries of a table.
//!
//! A table keeps its entries in order and may hold a key twice. Where a key
//! is looked up, its first entry counts.

use vstd::prelude::*;
use crate::text::str_eq;
use crate::value::{entry_views, Tree, ValueTree};

verus! {

/// The first place at which `key` stands in `entries`.
#[verifier::opaque]
pub open spec fn first_place(entries: Seq<(Seq<char>, Tree)>, key: Seq<char>) -> Option<int> {
    if exists|i: int| 0 <= i < entries.len() && (#[trigger] entries[i]).0 == key {
        Some(
            choose|i: int|
                0 <= i < entries.len() && (#[trigger] entries[i]).0 == key && forall|j: int|
                    0 <= j < i ==> (#[trigger] entries[j]).0 != key,
        )
    } else {
        None
    }
}

/// The first entry of `entries` with the key `key`.
pub fn first_entry<'a>(entries: &'a Vec<(String, ValueTree)>, key: &str) -> (found: Option<
    &'a ValueTree,
>)
    ensures
        match first_place(entry_views(entries@), key@) {
            Some(i) => found matches Some(value) && value@ == entry_views(entries@)[i].1,
            None => found is None,
        },
{
    let ghost views = entry_views(entries@);
    let mut i: usize = 0;
    proof {
        reveal(first_place);
    }
    while i < entries.len()
        invariant
            i <= entries.len(),
            views == entry_views(entries@),
            forall|j: int| 0 <= j < i ==> (#[trigger] views[j]).0 != key@,
        decreases entries.len() - i,
    {
        if str_eq(entries[i].0.as_str(), key) {
            proof {
                reveal(first_place);
                assert(views[i as int].0 == key@);
                let chosen = first_place(views, key@)->0;
                assert(0 <= chosen < views.len() && views[chosen].0 == key@ && forall|j: int|
                    0 <= j < chosen ==> (#[trigger] views[j]).0 != key@);
                if chosen < i {
                    assert(views[chosen].0 != key@);
                }
                if i < chosen {
                    assert(views[i as int].0 != key@);
                }
            }
            return Some(&entries[i].1);
        }
        i += 1;
    }
    None
}

/// The place of the first entry of `entries` with the key `key`.
pub fn first_index(entries: &Vec<(String, ValueTree)>, key: &str) -> (found: Option<usize>)
    ensures
        match found {
            Some(i) => first_place(entry_views(entries@), key@) == Some(i as int) && i
                < entries@.len() && entry_views(entries@)[i as int].0 == key@,
            None => first_place(entry_views(entries@), key@) is None,
        },
{
    let ghost views = entry_views(entries@);
    let mut i: usize = 0;
    proof {
        reveal(first_place);
    }
    while i < entries.len()
        invariant
            i <= entries.len(),
            views == entry_views(entries@),
            forall|j: int| 0 <= j < i ==> (#[trigger] views[j]).0 != key@,
        decreases entries.len() - i,
    {
        if str_eq(entries[i].0.as_str(), key) {
            proof {
                reveal(first_place);
                assert(views[i as int].0 == key@);
                let chosen = first_place(views, key@)->0;
                assert(0 <= chosen < views.len() && views[chosen].0 == key@ && forall|j: int|
                    0 <= j < chosen ==> (#[trigger] views[j]).0 != key@);
                if chosen < i {
                    assert(views[chosen].0 != key@);
                }
                if i < chosen {
                    assert(views[i as int].0 != key@);
                }
            }
            return Some(i);
        }
        i += 1;
    }
    None
}

/// The first place of a key that stands at the front is the front.
pub proof fn lemma_first_place_front(entries: Seq<(Seq<char>, Tree)>, key: Seq<char>)
    requires
        entries.len() > 0,
        entries[0].0 == key,
    ensures
        first_place(entries, key) == Some(0int),
{
    reveal(first_place);
    let chosen = first_place(entries, key)->0;
    assert(0 <= chosen < entries.len() && entries[chosen].0 == key && forall|j: int|
        0 <= j < chosen ==> (#[trigger] entries[j]).0 != key);
    if chosen > 0 {
        assert(entries[0].0 != key);
    }
}

/// The first place of a key that stands second, behind another key.
pub proof fn lemma_first_place_second(entries: Seq<(Seq<char>, Tree)>, key: Seq<char>)
    requires
        entries.len() > 1,
        entries[0].0 != key,
        entries[1].0 == key,
    ensures
        first_place(entries, key) == Some(1int),
{
    reveal(first_place);
    let chosen = first_place(entries, key)->0;
    assert(0 <= chosen < entries.len() && entries[chosen].0 == key && forall|j: int|
        0 <= j < chosen ==> (#[trigger] entries[j]).0 != key);
    if chosen > 1 {
        assert(entries[1].0 != key);
    }
}

} // verus!
