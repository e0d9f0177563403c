//! How a map that is ordered by its keys holds the entries of a table: of
//! entries with equal keys it keeps the last, and it hands its entries out in
//! the order of their keys.

use vstd::prelude::*;
use vstd::utf8::char_u32_cast;
use crate::value::Tree;

verus! {

/// Whether the text `left` stands before `right` in the order of strings:
/// the texts are compared character by character, a character by its place in
/// Unicode, and a text stands before every text that it begins.
pub open spec fn text_before(left: Seq<char>, right: Seq<char>) -> bool
    decreases left.len(),
{
    if right.len() == 0 {
        false
    } else if left.len() == 0 {
        true
    } else if left[0] != right[0] {
        (left[0] as u32) < (right[0] as u32)
    } else {
        text_before(left.skip(1), right.skip(1))
    }
}

/// The entries of a table after one more entry was put into it: the entry
/// takes the place of the entry with its key, or, where the table has none,
/// its place in the order of the keys.
pub open spec fn put(held: Seq<(Seq<char>, Tree)>, entry: (Seq<char>, Tree)) -> Seq<
    (Seq<char>, Tree),
>
    decreases held.len(),
{
    if held.len() == 0 {
        seq![entry]
    } else if held[0].0 == entry.0 {
        seq![entry] + held.skip(1)
    } else if text_before(entry.0, held[0].0) {
        seq![entry] + held
    } else {
        seq![held[0]] + put(held.skip(1), entry)
    }
}

/// The entries of a table of the `toml` crate that `entries` were put into,
/// one after the other: the table keeps the last entry of each key, and
/// hands its entries out in the order of the keys.
pub open spec fn toml_collected(entries: Seq<(Seq<char>, Tree)>) -> Seq<(Seq<char>, Tree)>
    decreases entries.len(),
{
    if entries.len() == 0 {
        Seq::empty()
    } else {
        put(toml_collected(entries.drop_last()), entries.last())
    }
}

/// Whether the keys of `entries` stand in strictly ascending order.
pub open spec fn ascending(entries: Seq<(Seq<char>, Tree)>) -> bool {
    forall|i: int, j: int|
        0 <= i < j < entries.len() ==> text_before(
            (#[trigger] entries[i]).0,
            (#[trigger] entries[j]).0,
        )
}

/// No text stands before itself.
pub proof fn lemma_before_is_strict(text: Seq<char>)
    ensures
        !text_before(text, text),
    decreases text.len(),
{
    if text.len() > 0 {
        lemma_before_is_strict(text.skip(1));
    }
}

/// Of two different texts one stands before the other.
pub proof fn lemma_before_is_total(left: Seq<char>, right: Seq<char>)
    requires
        left != right,
    ensures
        text_before(left, right) || text_before(right, left),
    decreases left.len(),
{
    if left.len() > 0 && right.len() > 0 && left[0] == right[0] {
        if left.skip(1) == right.skip(1) {
            assert(left =~= seq![left[0]] + left.skip(1));
            assert(right =~= seq![right[0]] + right.skip(1));
        }
        lemma_before_is_total(left.skip(1), right.skip(1));
    } else if left.len() == 0 && right.len() == 0 {
        assert(left =~= right);
    } else if left.len() > 0 && right.len() > 0 {
        let a = left[0];
        let b = right[0];
        if (a as u32) == (b as u32) {
            char_u32_cast(a, a as u32);
            char_u32_cast(b, b as u32);
        }
    }
}

/// A text that stands before a second, which stands before a third, stands
/// before the third.
pub proof fn lemma_before_is_transitive(first: Seq<char>, second: Seq<char>, third: Seq<char>)
    requires
        text_before(first, second),
        text_before(second, third),
    ensures
        text_before(first, third),
    decreases first.len(),
{
    if first.len() > 0 && first[0] == second[0] && second[0] == third[0] {
        lemma_before_is_transitive(first.skip(1), second.skip(1), third.skip(1));
    }
}

/// Every entry of a table after an entry was put into it is that entry or
/// one that the table held.
pub proof fn lemma_put_is_among(held: Seq<(Seq<char>, Tree)>, entry: (Seq<char>, Tree), i: int)
    requires
        0 <= i < put(held, entry).len(),
    ensures
        put(held, entry)[i] == entry || exists|k: int|
            0 <= k < held.len() && held[k] == put(held, entry)[i],
    decreases held.len(),
{
    if held.len() == 0 {
    } else if held[0].0 == entry.0 {
        if i > 0 {
            assert(held[i] == put(held, entry)[i]);
        }
    } else if text_before(entry.0, held[0].0) {
        if i > 0 {
            assert(held[i - 1] == put(held, entry)[i]);
        }
    } else {
        if i == 0 {
            assert(held[0] == put(held, entry)[i]);
        } else {
            lemma_put_is_among(held.skip(1), entry, i - 1);
            if put(held, entry)[i] != entry {
                let k = choose|k: int|
                    0 <= k < held.skip(1).len() && held.skip(1)[k] == put(held.skip(1), entry)[i
                        - 1];
                assert(held[k + 1] == put(held, entry)[i]);
            }
        }
    }
}

/// Every entry that a table holds is one of the entries that were put into
/// it.
pub proof fn lemma_collected_is_among(entries: Seq<(Seq<char>, Tree)>, i: int)
    requires
        0 <= i < toml_collected(entries).len(),
    ensures
        exists|k: int| 0 <= k < entries.len() && entries[k] == toml_collected(entries)[i],
    decreases entries.len(),
{
    if entries.len() > 0 {
        let front = toml_collected(entries.drop_last());
        lemma_put_is_among(front, entries.last(), i);
        if toml_collected(entries)[i] == entries.last() {
            assert(entries[entries.len() - 1] == toml_collected(entries)[i]);
        } else {
            let j = choose|j: int| 0 <= j < front.len() && front[j] == toml_collected(entries)[i];
            lemma_collected_is_among(entries.drop_last(), j);
            let k = choose|k: int|
                0 <= k < entries.drop_last().len() && entries.drop_last()[k] == front[j];
            assert(entries[k] == toml_collected(entries)[i]);
        }
    }
}

/// The entry that was put into a table is among its entries.
pub proof fn lemma_put_holds_entry(held: Seq<(Seq<char>, Tree)>, entry: (Seq<char>, Tree))
    ensures
        exists|i: int| 0 <= i < put(held, entry).len() && put(held, entry)[i] == entry,
    decreases held.len(),
{
    if held.len() == 0 || held[0].0 == entry.0 || text_before(entry.0, held[0].0) {
        assert(put(held, entry)[0] == entry);
    } else {
        lemma_put_holds_entry(held.skip(1), entry);
        let i = choose|i: int|
            0 <= i < put(held.skip(1), entry).len() && put(held.skip(1), entry)[i] == entry;
        assert(put(held, entry)[i + 1] == entry);
    }
}

/// An entry under another key stays when an entry is put into a table.
pub proof fn lemma_put_keeps_others(
    held: Seq<(Seq<char>, Tree)>,
    entry: (Seq<char>, Tree),
    k: int,
)
    requires
        0 <= k < held.len(),
        held[k].0 != entry.0,
    ensures
        exists|i: int| 0 <= i < put(held, entry).len() && put(held, entry)[i] == held[k],
    decreases held.len(),
{
    if held[0].0 == entry.0 {
        assert(put(held, entry)[k] == held[k]);
    } else if text_before(entry.0, held[0].0) {
        assert(put(held, entry)[k + 1] == held[k]);
    } else if k == 0 {
        assert(put(held, entry)[0] == held[k]);
    } else {
        lemma_put_keeps_others(held.skip(1), entry, k - 1);
        let i = choose|i: int|
            0 <= i < put(held.skip(1), entry).len() && put(held.skip(1), entry)[i] == held.skip(
                1,
            )[k - 1];
        assert(put(held, entry)[i + 1] == held[k]);
    }
}

/// A table whose keys ascend is one still after an entry was put into it.
pub proof fn lemma_put_ascends(held: Seq<(Seq<char>, Tree)>, entry: (Seq<char>, Tree))
    requires
        ascending(held),
    ensures
        ascending(put(held, entry)),
    decreases held.len(),
{
    let after = put(held, entry);
    if held.len() == 0 {
    } else if held[0].0 == entry.0 {
        assert forall|i: int, j: int| 0 <= i < j < after.len() implies text_before(
            (#[trigger] after[i]).0,
            (#[trigger] after[j]).0,
        ) by {
            assert(after[j] == held[j]);
            assert(after[i].0 == held[i].0);
        }
    } else if text_before(entry.0, held[0].0) {
        assert forall|i: int, j: int| 0 <= i < j < after.len() implies text_before(
            (#[trigger] after[i]).0,
            (#[trigger] after[j]).0,
        ) by {
            assert(after[j] == held[j - 1]);
            if i > 0 {
                assert(after[i] == held[i - 1]);
            } else if j > 1 {
                assert(text_before(held[0].0, held[j - 1].0));
                lemma_before_is_transitive(entry.0, held[0].0, held[j - 1].0);
            }
        }
    } else {
        let rest = put(held.skip(1), entry);
        assert(ascending(held.skip(1))) by {
            assert forall|i: int, j: int| 0 <= i < j < held.skip(1).len() implies text_before(
                (#[trigger] held.skip(1)[i]).0,
                (#[trigger] held.skip(1)[j]).0,
            ) by {
                assert(text_before(held[i + 1].0, held[j + 1].0));
            }
        }
        lemma_put_ascends(held.skip(1), entry);
        lemma_before_is_total(held[0].0, entry.0);
        assert forall|i: int, j: int| 0 <= i < j < after.len() implies text_before(
            (#[trigger] after[i]).0,
            (#[trigger] after[j]).0,
        ) by {
            assert(after[j] == rest[j - 1]);
            if i > 0 {
                assert(after[i] == rest[i - 1]);
            } else {
                lemma_put_is_among(held.skip(1), entry, j - 1);
                if rest[j - 1] != entry {
                    let k = choose|k: int|
                        0 <= k < held.skip(1).len() && held.skip(1)[k] == rest[j - 1];
                    assert(text_before(held[0].0, held[k + 1].0));
                }
            }
        }
    }
}

/// The keys of what a table holds stand in strictly ascending order, so no
/// key occurs twice.
pub proof fn lemma_collected_ascends(entries: Seq<(Seq<char>, Tree)>)
    ensures
        ascending(toml_collected(entries)),
        forall|i: int, j: int|
            0 <= i < j < toml_collected(entries).len() ==> (#[trigger] toml_collected(
                entries,
            )[i]).0 != (#[trigger] toml_collected(entries)[j]).0,
    decreases entries.len(),
{
    let held = toml_collected(entries);
    if entries.len() > 0 {
        lemma_collected_ascends(entries.drop_last());
        lemma_put_ascends(toml_collected(entries.drop_last()), entries.last());
    }
    assert forall|i: int, j: int| 0 <= i < j < held.len() implies (#[trigger] held[i]).0 != (
    #[trigger] held[j]).0 by {
        lemma_before_is_strict(held[i].0);
    }
}

/// Of the entries with one key a table holds the last: an entry that no
/// later entry has the key of is among what the table holds.
pub proof fn lemma_collected_keeps_last(entries: Seq<(Seq<char>, Tree)>, k: int)
    requires
        0 <= k < entries.len(),
        forall|later: int|
            k < later < entries.len() ==> (#[trigger] entries[later]).0 != entries[k].0,
    ensures
        exists|i: int|
            0 <= i < toml_collected(entries).len() && toml_collected(entries)[i] == entries[k],
    decreases entries.len(),
{
    let front = toml_collected(entries.drop_last());
    if k == entries.len() - 1 {
        lemma_put_holds_entry(front, entries.last());
        let i = choose|i: int|
            0 <= i < put(front, entries.last()).len() && put(front, entries.last())[i]
                == entries.last();
        assert(toml_collected(entries)[i] == entries[k]);
    } else {
        assert forall|later: int| k < later < entries.drop_last().len() implies (
        #[trigger] entries.drop_last()[later]).0 != entries.drop_last()[k].0 by {
            assert(entries[later].0 != entries[k].0);
        }
        lemma_collected_keeps_last(entries.drop_last(), k);
        let j = choose|j: int| 0 <= j < front.len() && front[j] == entries.drop_last()[k];
        assert(entries[entries.len() - 1].0 != entries[k].0);
        lemma_put_keeps_others(front, entries.last(), j);
        let i = choose|i: int|
            0 <= i < put(front, entries.last()).len() && put(front, entries.last())[i] == front[j];
        assert(toml_collected(entries)[i] == entries[k]);
    }
}

} // verus!
