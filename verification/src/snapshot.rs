//! Whole values in and out of the arena.
//!
//! A plugin sees a value node by node, through handles. What crosses the
//! boundary, and what the host's configuration holds, is the value as a
//! whole. `snapshot` follows the handles below a node and copies the whole
//! value out; `install` puts a whole value into the arena, node by node, and
//! returns the handle of its root.

use vstd::prelude::*;
use crate::codec::{
    decode, decode_all, decode_entries, decode_items, decode_tree, encode, encode_tree,
    entries_depth, items_depth, lemma_entries_depth_bound, lemma_items_depth_bound,
    TransportError, MAX_DEPTH,
};
use crate::handle::{
    allocated, live, node_at, ArenaState, Cell, Handle, Node, StructuredValue, ValueArena,
};
use crate::value::{
    entry_views, item_views, lemma_array_view, lemma_table_view, Tree, ValueTree,
};

verus! {

/// The whole value below the node of `h`, followed at most `fuel` deep. A
/// handle that is bound to nothing cannot be followed.
pub open spec fn tree_at(state: ArenaState, h: nat, fuel: nat) -> Result<Tree, TransportError>
    decreases fuel, 0nat,
{
    if fuel == 0 {
        Err(TransportError::TooDeep)
    } else if !live(state, h) {
        Err(TransportError::StaleHandle)
    } else {
        match node_at(state, h) {
            Node::String(text) => Ok(Tree::String(text)),
            Node::Integer(number) => Ok(Tree::Integer(number)),
            Node::Float(bits) => Ok(Tree::Float(bits)),
            Node::Boolean(flag) => Ok(Tree::Boolean(flag)),
            Node::DateTime(datetime) => Ok(Tree::DateTime(datetime)),
            Node::Array(items) => match trees_at(state, items, (fuel - 1) as nat) {
                Err(e) => Err(e),
                Ok(trees) => Ok(Tree::Array(trees)),
            },
            Node::Table(entries) => match entries_at(state, entries, (fuel - 1) as nat) {
                Err(e) => Err(e),
                Ok(trees) => Ok(Tree::Table(trees)),
            },
        }
    }
}

/// The whole values below `handles`, in order; the first that cannot be
/// followed decides the error.
pub open spec fn trees_at(state: ArenaState, handles: Seq<nat>, fuel: nat) -> Result<
    Seq<Tree>,
    TransportError,
>
    decreases fuel, handles.len() + 1,
{
    if handles.len() == 0 {
        Ok(Seq::empty())
    } else {
        match trees_at(state, handles.drop_last(), fuel) {
            Err(e) => Err(e),
            Ok(front) => match tree_at(state, handles.last(), fuel) {
                Err(e) => Err(e),
                Ok(tree) => Ok(front.push(tree)),
            },
        }
    }
}

/// The same for the entries of a table.
pub open spec fn entries_at(state: ArenaState, entries: Seq<(Seq<char>, nat)>, fuel: nat) -> Result<
    Seq<(Seq<char>, Tree)>,
    TransportError,
>
    decreases fuel, entries.len() + 1,
{
    if entries.len() == 0 {
        Ok(Seq::empty())
    } else {
        match entries_at(state, entries.drop_last(), fuel) {
            Err(e) => Err(e),
            Ok(front) => match tree_at(state, entries.last().1, fuel) {
                Err(e) => Err(e),
                Ok(tree) => Ok(front.push((entries.last().0, tree))),
            },
        }
    }
}

/// An error among the first handles is the error of them all.
proof fn lemma_trees_error_stays(state: ArenaState, handles: Seq<nat>, fuel: nat, i: int)
    requires
        0 <= i < handles.len(),
        trees_at(state, handles.take(i + 1), fuel) is Err,
    ensures
        trees_at(state, handles, fuel) == trees_at(state, handles.take(i + 1), fuel),
    decreases handles.len() - i,
{
    if i + 1 < handles.len() {
        assert(handles.take(i + 2).drop_last() =~= handles.take(i + 1));
        lemma_trees_error_stays(state, handles, fuel, i + 1);
    } else {
        assert(handles.take(i + 1) =~= handles);
    }
}

/// An error among the first entries is the error of them all.
proof fn lemma_entries_error_stays(
    state: ArenaState,
    entries: Seq<(Seq<char>, nat)>,
    fuel: nat,
    i: int,
)
    requires
        0 <= i < entries.len(),
        entries_at(state, entries.take(i + 1), fuel) is Err,
    ensures
        entries_at(state, entries, fuel) == entries_at(state, entries.take(i + 1), fuel),
    decreases entries.len() - i,
{
    if i + 1 < entries.len() {
        assert(entries.take(i + 2).drop_last() =~= entries.take(i + 1));
        lemma_entries_error_stays(state, entries, fuel, i + 1);
    } else {
        assert(entries.take(i + 1) =~= entries);
    }
}

/// Copies the whole value below `handle` out of `arena`, following handles at
/// most `fuel` deep.
#[verifier::loop_isolation(false)]
fn snapshot_at(arena: &ValueArena, handle: &Handle, fuel: usize) -> (outcome: Result<
    ValueTree,
    TransportError,
>)
    ensures
        match tree_at(arena@, handle@, fuel as nat) {
            Ok(tree) => outcome matches Ok(got) && got@ == tree,
            Err(e) => outcome matches Err(got) && got == e,
        },
    decreases fuel,
{
    if fuel == 0 {
        return Err(TransportError::TooDeep);
    }
    let node = match arena.peek(handle) {
        None => {
            return Err(TransportError::StaleHandle);
        },
        Some(node) => node,
    };
    match node {
        StructuredValue::String(text) => Ok(ValueTree::String(text.clone())),
        StructuredValue::Integer(number) => Ok(ValueTree::Integer(*number)),
        StructuredValue::Float(bits) => Ok(ValueTree::Float(*bits)),
        StructuredValue::Boolean(flag) => Ok(ValueTree::Boolean(*flag)),
        StructuredValue::DateTime(datetime) => Ok(ValueTree::DateTime(*datetime)),
        StructuredValue::Array(items) => {
            let ghost handles = node@->Array_0;
            let mut trees: Vec<ValueTree> = Vec::new();
            let mut i: usize = 0;
            assert(handles.take(0) =~= Seq::<nat>::empty());
            assert(item_views(trees@) =~= Seq::<Tree>::empty());
            while i < items.len()
                invariant
                    i <= items.len(),
                    handles.len() == items.len(),
                    forall|j: int| 0 <= j < items.len() ==> handles[j] == items@[j]@,
                    trees_at(arena@, handles.take(i as int), (fuel - 1) as nat) == Ok::<
                        Seq<Tree>,
                        TransportError,
                    >(item_views(trees@)),
                decreases items.len() - i,
            {
                let ghost before = item_views(trees@);
                assert(handles.take(i + 1).drop_last() =~= handles.take(i as int));
                match snapshot_at(arena, &items[i], fuel - 1) {
                    Err(e) => {
                        proof {
                            lemma_trees_error_stays(arena@, handles, (fuel - 1) as nat, i as int);
                        }
                        return Err(e);
                    },
                    Ok(tree) => {
                        trees.push(tree);
                        assert(item_views(trees@) =~= before.push(tree@));
                    },
                }
                i += 1;
            }
            proof {
                assert(handles.take(i as int) =~= handles);
                lemma_array_view(trees);
            }
            Ok(ValueTree::Array(trees))
        },
        StructuredValue::Table(entries) => {
            let ghost handles = node@->Table_0;
            let mut trees: Vec<(String, ValueTree)> = Vec::new();
            let mut i: usize = 0;
            assert(handles.take(0) =~= Seq::<(Seq<char>, nat)>::empty());
            assert(entry_views(trees@) =~= Seq::<(Seq<char>, Tree)>::empty());
            while i < entries.len()
                invariant
                    i <= entries.len(),
                    handles.len() == entries.len(),
                    forall|j: int|
                        0 <= j < entries.len() ==> handles[j] == (entries@[j].0@, entries@[j].1@),
                    entries_at(arena@, handles.take(i as int), (fuel - 1) as nat) == Ok::<
                        Seq<(Seq<char>, Tree)>,
                        TransportError,
                    >(entry_views(trees@)),
                decreases entries.len() - i,
            {
                let ghost before = entry_views(trees@);
                assert(handles.take(i + 1).drop_last() =~= handles.take(i as int));
                match snapshot_at(arena, &entries[i].1, fuel - 1) {
                    Err(e) => {
                        proof {
                            lemma_entries_error_stays(
                                arena@,
                                handles,
                                (fuel - 1) as nat,
                                i as int,
                            );
                        }
                        return Err(e);
                    },
                    Ok(tree) => {
                        trees.push((entries[i].0.clone(), tree));
                        assert(entry_views(trees@) =~= before.push((entries@[i as int].0@, tree@)));
                    },
                }
                i += 1;
            }
            proof {
                assert(handles.take(i as int) =~= handles);
                lemma_table_view(trees);
            }
            Ok(ValueTree::Table(trees))
        },
    }
}

impl ValueArena {
    /// Copies the whole value below `handle` out. Fails where a handle is
    /// bound to nothing, and where the value is nested more deeply than
    /// `MAX_DEPTH`, which is also how a value that holds itself ends.
    pub fn snapshot(&self, handle: &Handle) -> (outcome: Result<ValueTree, TransportError>)
        ensures
            match tree_at(self@, handle@, MAX_DEPTH as nat) {
                Ok(tree) => outcome matches Ok(got) && got@ == tree,
                Err(e) => outcome matches Err(got) && got == e,
            },
    {
        snapshot_at(self, handle, MAX_DEPTH)
    }
}

/// The arena after the whole value `tree` was put into it, and the handle of
/// the root. The nodes below a node are put in first, in order, and the node
/// itself last; each is new and has one alias.
pub open spec fn installed(state: ArenaState, tree: Tree) -> (ArenaState, nat)
    decreases tree,
{
    match tree {
        Tree::String(text) => (allocated(state, Node::String(text)), state.len()),
        Tree::Integer(number) => (allocated(state, Node::Integer(number)), state.len()),
        Tree::Float(bits) => (allocated(state, Node::Float(bits)), state.len()),
        Tree::Boolean(flag) => (allocated(state, Node::Boolean(flag)), state.len()),
        Tree::DateTime(datetime) => (allocated(state, Node::DateTime(datetime)), state.len()),
        Tree::Array(items) => {
            let below = installed_items(state, items);
            (allocated(below.0, Node::Array(below.1)), below.0.len())
        },
        Tree::Table(entries) => {
            let below = installed_entries(state, entries);
            (allocated(below.0, Node::Table(below.1)), below.0.len())
        },
    }
}

/// The arena after the items of an array were put into it, and their handles.
pub open spec fn installed_items(state: ArenaState, items: Seq<Tree>) -> (ArenaState, Seq<nat>)
    decreases items,
{
    if items.len() == 0 {
        (state, Seq::empty())
    } else {
        let front = installed_items(state, items.drop_last());
        let last = installed(front.0, items.last());
        (last.0, front.1.push(last.1))
    }
}

/// The arena after the values of a table were put into it, and the keys with
/// the handles of their values.
pub open spec fn installed_entries(state: ArenaState, entries: Seq<(Seq<char>, Tree)>) -> (
    ArenaState,
    Seq<(Seq<char>, nat)>,
)
    decreases entries,
{
    if entries.len() == 0 {
        (state, Seq::empty())
    } else {
        let front = installed_entries(state, entries.drop_last());
        let last = installed(front.0, entries.last().1);
        (last.0, front.1.push((entries.last().0, last.1)))
    }
}

/// Whether `larger` holds what `state` holds, and maybe more behind it.
pub open spec fn extends(larger: ArenaState, state: ArenaState) -> bool {
    state.len() <= larger.len() && forall|i: int|
        0 <= i < state.len() ==> #[trigger] larger[i] == state[i]
}

/// A whole value that can be followed in an arena is the same in every arena
/// that extends it.
pub proof fn lemma_tree_at_extends(state: ArenaState, larger: ArenaState, h: nat, fuel: nat)
    requires
        extends(larger, state),
        tree_at(state, h, fuel) is Ok,
    ensures
        tree_at(larger, h, fuel) == tree_at(state, h, fuel),
    decreases fuel, 0nat,
{
    if fuel > 0 && live(state, h) {
        assert(larger[h as int] == state[h as int]);
        match node_at(state, h) {
            Node::Array(items) => {
                lemma_trees_at_extend(state, larger, items, (fuel - 1) as nat);
            },
            Node::Table(entries) => {
                lemma_entries_at_extend(state, larger, entries, (fuel - 1) as nat);
            },
            _ => {},
        }
    }
}

/// The same for the values below some handles.
pub proof fn lemma_trees_at_extend(
    state: ArenaState,
    larger: ArenaState,
    handles: Seq<nat>,
    fuel: nat,
)
    requires
        extends(larger, state),
        trees_at(state, handles, fuel) is Ok,
    ensures
        trees_at(larger, handles, fuel) == trees_at(state, handles, fuel),
    decreases fuel, handles.len() + 1,
{
    if handles.len() > 0 {
        lemma_trees_at_extend(state, larger, handles.drop_last(), fuel);
        lemma_tree_at_extends(state, larger, handles.last(), fuel);
    }
}

/// The same for the values of the entries of a table.
pub proof fn lemma_entries_at_extend(
    state: ArenaState,
    larger: ArenaState,
    entries: Seq<(Seq<char>, nat)>,
    fuel: nat,
)
    requires
        extends(larger, state),
        entries_at(state, entries, fuel) is Ok,
    ensures
        entries_at(larger, entries, fuel) == entries_at(state, entries, fuel),
    decreases fuel, entries.len() + 1,
{
    if entries.len() > 0 {
        lemma_entries_at_extend(state, larger, entries.drop_last(), fuel);
        lemma_tree_at_extends(state, larger, entries.last().1, fuel);
    }
}

/// What was put into an arena is found there again. The arena keeps what it
/// held, and the whole value below the new root is the value that was put in,
/// for every limit that the value's depth is within.
pub proof fn lemma_installed_reads_back(state: ArenaState, tree: Tree, fuel: nat)
    requires
        tree.depth() <= fuel,
    ensures
        extends(installed(state, tree).0, state),
        installed(state, tree).1 < installed(state, tree).0.len(),
        tree_at(installed(state, tree).0, installed(state, tree).1, fuel) == Ok::<
            Tree,
            TransportError,
        >(tree),
    decreases tree,
{
    match tree {
        Tree::Array(items) => {
            let below = installed_items(state, items);
            lemma_installed_items_read_back(state, items, (fuel - 1) as nat);
            let after = allocated(below.0, Node::Array(below.1));
            assert(extends(after, below.0));
            lemma_trees_at_extend(below.0, after, below.1, (fuel - 1) as nat);
            assert(node_at(after, below.0.len()) == Node::Array(below.1));
        },
        Tree::Table(entries) => {
            let below = installed_entries(state, entries);
            lemma_installed_entries_read_back(state, entries, (fuel - 1) as nat);
            let after = allocated(below.0, Node::Table(below.1));
            assert(extends(after, below.0));
            lemma_entries_at_extend(below.0, after, below.1, (fuel - 1) as nat);
            assert(node_at(after, below.0.len()) == Node::Table(below.1));
        },
        _ => {},
    }
}

/// The same for the items of an array.
pub proof fn lemma_installed_items_read_back(state: ArenaState, items: Seq<Tree>, fuel: nat)
    requires
        crate::codec::items_depth(items) <= fuel,
    ensures
        extends(installed_items(state, items).0, state),
        installed_items(state, items).1.len() == items.len(),
        trees_at(installed_items(state, items).0, installed_items(state, items).1, fuel) == Ok::<
            Seq<Tree>,
            TransportError,
        >(items),
    decreases items,
{
    if items.len() == 0 {
        assert(items =~= Seq::<Tree>::empty());
    } else {
        lemma_items_depth_bound(items, fuel);
        lemma_items_depth_bound(items.drop_last(), fuel);
        assert forall|i: int| 0 <= i < items.drop_last().len() implies (
        #[trigger] items.drop_last()[i]).depth() <= fuel by {
            assert(items.drop_last()[i] == items[i]);
        }
        assert(items[items.len() - 1].depth() <= fuel);
        let front = installed_items(state, items.drop_last());
        lemma_installed_items_read_back(state, items.drop_last(), fuel);
        let last = installed(front.0, items.last());
        lemma_installed_reads_back(front.0, items.last(), fuel);
        lemma_trees_at_extend(front.0, last.0, front.1, fuel);
        let handles = front.1.push(last.1);
        assert(handles.drop_last() =~= front.1);
        assert(items.drop_last().push(items.last()) =~= items);
    }
}

/// The same for the entries of a table.
pub proof fn lemma_installed_entries_read_back(
    state: ArenaState,
    entries: Seq<(Seq<char>, Tree)>,
    fuel: nat,
)
    requires
        crate::codec::entries_depth(entries) <= fuel,
    ensures
        extends(installed_entries(state, entries).0, state),
        installed_entries(state, entries).1.len() == entries.len(),
        entries_at(
            installed_entries(state, entries).0,
            installed_entries(state, entries).1,
            fuel,
        ) == Ok::<Seq<(Seq<char>, Tree)>, TransportError>(entries),
    decreases entries,
{
    if entries.len() == 0 {
        assert(entries =~= Seq::<(Seq<char>, Tree)>::empty());
    } else {
        lemma_entries_depth_bound(entries, fuel);
        lemma_entries_depth_bound(entries.drop_last(), fuel);
        assert forall|i: int| 0 <= i < entries.drop_last().len() implies (
        #[trigger] entries.drop_last()[i]).1.depth() <= fuel by {
            assert(entries.drop_last()[i] == entries[i]);
        }
        assert(entries[entries.len() - 1].1.depth() <= fuel);
        let front = installed_entries(state, entries.drop_last());
        lemma_installed_entries_read_back(state, entries.drop_last(), fuel);
        let last = installed(front.0, entries.last().1);
        lemma_installed_reads_back(front.0, entries.last().1, fuel);
        lemma_entries_at_extend(front.0, last.0, front.1, fuel);
        let handles = front.1.push((entries.last().0, last.1));
        assert(handles.drop_last() =~= front.1);
        assert(entries.drop_last().push((entries.last().0, entries.last().1)) =~= entries);
    }
}

impl ValueArena {
    /// Puts the whole value `tree` into the arena and returns the handle of
    /// its root.
    #[verifier::loop_isolation(false)]
    pub fn install(&mut self, tree: &ValueTree) -> (handle: Handle)
        ensures
            final(self)@ == installed(old(self)@, tree@).0,
            handle@ == installed(old(self)@, tree@).1,
        decreases tree,
    {
        match tree {
            ValueTree::String(text) => self.new_handle(StructuredValue::String(text.clone())),
            ValueTree::Integer(number) => self.new_handle(StructuredValue::Integer(*number)),
            ValueTree::Float(bits) => self.new_handle(StructuredValue::Float(*bits)),
            ValueTree::Boolean(flag) => self.new_handle(StructuredValue::Boolean(*flag)),
            ValueTree::DateTime(datetime) => self.new_handle(StructuredValue::DateTime(*datetime)),
            ValueTree::Array(items) => {
                proof {
                    lemma_array_view(*items);
                }
                let ghost views = item_views(items@);
                let mut handles: Vec<Handle> = Vec::new();
                let mut i: usize = 0;
                assert(views.take(0) =~= Seq::<Tree>::empty());
                while i < items.len()
                    invariant
                        i <= items.len(),
                        handles.len() == i,
                        self@ == installed_items(old(self)@, views.take(i as int)).0,
                        Seq::new(handles@.len(), |j: int| handles@[j]@) == installed_items(
                            old(self)@,
                            views.take(i as int),
                        ).1,
                    decreases items.len() - i,
                {
                    let ghost before = Seq::new(handles@.len(), |j: int| handles@[j]@);
                    assert(views.take(i + 1).drop_last() =~= views.take(i as int));
                    assert(views.take(i + 1).last() == items@[i as int]@);
                    let handle = self.install(&items[i]);
                    handles.push(handle);
                    assert(Seq::new(handles@.len(), |j: int| handles@[j]@) =~= before.push(
                        handle@,
                    ));
                    i += 1;
                }
                assert(views.take(i as int) =~= views);
                let node = StructuredValue::Array(handles);
                assert(node@->Array_0 =~= installed_items(old(self)@, views).1);
                self.new_handle(node)
            },
            ValueTree::Table(entries) => {
                proof {
                    lemma_table_view(*entries);
                }
                let ghost views = entry_views(entries@);
                let mut handles: Vec<(String, Handle)> = Vec::new();
                let mut i: usize = 0;
                assert(views.take(0) =~= Seq::<(Seq<char>, Tree)>::empty());
                while i < entries.len()
                    invariant
                        i <= entries.len(),
                        handles.len() == i,
                        self@ == installed_entries(old(self)@, views.take(i as int)).0,
                        Seq::new(handles@.len(), |j: int| (handles@[j].0@, handles@[j].1@))
                            == installed_entries(old(self)@, views.take(i as int)).1,
                    decreases entries.len() - i,
                {
                    let ghost before = Seq::new(
                        handles@.len(),
                        |j: int| (handles@[j].0@, handles@[j].1@),
                    );
                    assert(views.take(i + 1).drop_last() =~= views.take(i as int));
                    assert(views.take(i + 1).last() == views[i as int]);
                    let handle = self.install(&entries[i].1);
                    let key = entries[i].0.clone();
                    handles.push((key, handle));
                    assert(Seq::new(handles@.len(), |j: int| (handles@[j].0@, handles@[j].1@))
                        =~= before.push((key@, handle@)));
                    i += 1;
                }
                assert(views.take(i as int) =~= views);
                let node = StructuredValue::Table(handles);
                assert(node@->Table_0 =~= installed_entries(old(self)@, views).1);
                self.new_handle(node)
            },
        }
    }
}

/// A whole value that was followed within a limit is not deeper than the
/// limit.
pub proof fn lemma_tree_at_depth(state: ArenaState, h: nat, fuel: nat)
    requires
        tree_at(state, h, fuel) is Ok,
    ensures
        tree_at(state, h, fuel)->Ok_0.depth() <= fuel,
    decreases fuel, 0nat,
{
    if fuel > 0 && live(state, h) {
        match node_at(state, h) {
            Node::Array(items) => {
                let trees = trees_at(state, items, (fuel - 1) as nat)->Ok_0;
                assert forall|i: int| 0 <= i < trees.len() implies (#[trigger] trees[i]).depth()
                    <= fuel - 1 by {
                    lemma_trees_at_depth(state, items, (fuel - 1) as nat, i);
                }
                lemma_items_depth_bound(trees, (fuel - 1) as nat);
            },
            Node::Table(entries) => {
                let trees = entries_at(state, entries, (fuel - 1) as nat)->Ok_0;
                assert forall|i: int| 0 <= i < trees.len() implies (#[trigger] trees[i]).1.depth()
                    <= fuel - 1 by {
                    lemma_entries_at_depth(state, entries, (fuel - 1) as nat, i);
                }
                lemma_entries_depth_bound(trees, (fuel - 1) as nat);
            },
            _ => {},
        }
    }
}

proof fn lemma_trees_at_depth(state: ArenaState, handles: Seq<nat>, fuel: nat, i: int)
    requires
        trees_at(state, handles, fuel) is Ok,
        0 <= i < trees_at(state, handles, fuel)->Ok_0.len(),
    ensures
        trees_at(state, handles, fuel)->Ok_0[i].depth() <= fuel,
    decreases fuel, handles.len() + 1,
{
    if handles.len() > 0 {
        let front = trees_at(state, handles.drop_last(), fuel)->Ok_0;
        if i < front.len() {
            lemma_trees_at_depth(state, handles.drop_last(), fuel, i);
        } else {
            lemma_tree_at_depth(state, handles.last(), fuel);
        }
    }
}

proof fn lemma_entries_at_depth(
    state: ArenaState,
    entries: Seq<(Seq<char>, nat)>,
    fuel: nat,
    i: int,
)
    requires
        entries_at(state, entries, fuel) is Ok,
        0 <= i < entries_at(state, entries, fuel)->Ok_0.len(),
    ensures
        entries_at(state, entries, fuel)->Ok_0[i].1.depth() <= fuel,
    decreases fuel, entries.len() + 1,
{
    if entries.len() > 0 {
        let front = entries_at(state, entries.drop_last(), fuel)->Ok_0;
        if i < front.len() {
            lemma_entries_at_depth(state, entries.drop_last(), fuel, i);
        } else {
            lemma_tree_at_depth(state, entries.last().1, fuel);
        }
    }
}

/// A value that was decoded within a limit is not deeper than the limit.
pub proof fn lemma_decoded_depth(bytes: Seq<u8>, depth: nat)
    requires
        decode_tree(bytes, depth) is Ok,
    ensures
        decode_tree(bytes, depth)->Ok_0.0.depth() <= depth,
    decreases depth, 0nat,
{
    if depth > 0 {
        match decode_tree(bytes, depth)->Ok_0.0 {
            Tree::Array(items) => {
                let rest = crate::codec::take_length(crate::codec::take_u8(bytes)->Ok_0.1)->Ok_0;
                lemma_decoded_items_depth(rest.1, rest.0, (depth - 1) as nat);
            },
            Tree::Table(entries) => {
                let rest = crate::codec::take_length(crate::codec::take_u8(bytes)->Ok_0.1)->Ok_0;
                lemma_decoded_entries_depth(rest.1, rest.0, (depth - 1) as nat);
            },
            _ => {},
        }
    }
}

proof fn lemma_decoded_items_depth(bytes: Seq<u8>, count: nat, depth: nat)
    requires
        decode_items(bytes, count, depth) is Ok,
    ensures
        items_depth(decode_items(bytes, count, depth)->Ok_0.0) <= depth,
    decreases depth, count + 1,
{
    if count > 0 {
        lemma_decoded_depth(bytes, depth);
        let first = decode_tree(bytes, depth)->Ok_0;
        lemma_decoded_items_depth(first.1, (count - 1) as nat, depth);
        let others = decode_items(first.1, (count - 1) as nat, depth)->Ok_0.0;
        assert((seq![first.0] + others).drop_first() =~= others);
    }
}

proof fn lemma_decoded_entries_depth(bytes: Seq<u8>, count: nat, depth: nat)
    requires
        decode_entries(bytes, count, depth) is Ok,
    ensures
        entries_depth(decode_entries(bytes, count, depth)->Ok_0.0) <= depth,
    decreases depth, count + 1,
{
    if count > 0 {
        let key = crate::codec::decode_text(bytes)->Ok_0;
        lemma_decoded_depth(key.1, depth);
        let value = decode_tree(key.1, depth)->Ok_0;
        lemma_decoded_entries_depth(value.1, (count - 1) as nat, depth);
        let others = decode_entries(value.1, (count - 1) as nat, depth)->Ok_0.0;
        assert((seq![(key.0, value.0)] + others).drop_first() =~= others);
    }
}

/// What handing the value below a handle over gives: its bytes, unless a
/// handle cannot be followed or a datetime cannot be represented.
pub open spec fn exported_as(outcome: Result<Vec<u8>, TransportError>, whole: Result<
    Tree,
    TransportError,
>) -> bool {
    match whole {
        Err(e) => outcome matches Err(got) && got == e,
        Ok(tree) => if tree.datetimes_representable() {
            outcome matches Ok(bytes) && bytes@ == encode_tree(tree) && decode_all(bytes@) == Ok::<
                Tree,
                TransportError,
            >(tree)
        } else {
            outcome matches Err(got) && got == TransportError::UnrepresentableDatetime
        },
    }
}

impl ValueArena {
    /// Hands the whole value below `handle` over the boundary: the bytes that
    /// the other side decodes to the same value.
    pub fn export(&self, handle: &Handle) -> (outcome: Result<Vec<u8>, TransportError>)
        ensures
            exported_as(outcome, tree_at(self@, handle@, MAX_DEPTH as nat)),
    {
        match self.snapshot(handle) {
            Err(e) => Err(e),
            Ok(tree) => {
                proof {
                    lemma_tree_at_depth(self@, handle@, MAX_DEPTH as nat);
                }
                encode(&tree)
            },
        }
    }

    /// Takes a value that came over the boundary into the arena and returns
    /// the handle of its root. Bytes that hold no value change nothing.
    pub fn import(&mut self, bytes: &[u8]) -> (outcome: Result<Handle, TransportError>)
        ensures
            match decode_all(bytes@) {
                Err(e) => outcome matches Err(got) && got == e && final(self)@ == old(self)@,
                Ok(tree) => outcome matches Ok(handle) && final(self)@ == installed(
                    old(self)@,
                    tree,
                ).0 && handle@ == installed(old(self)@, tree).1 && tree_at(
                    final(self)@,
                    handle@,
                    MAX_DEPTH as nat,
                ) == Ok::<Tree, TransportError>(tree),
            },
    {
        match decode(bytes) {
            Err(e) => Err(e),
            Ok(tree) => {
                proof {
                    lemma_decoded_depth(bytes@, MAX_DEPTH as nat);
                    lemma_installed_reads_back(self@, tree@, MAX_DEPTH as nat);
                }
                Ok(self.install(&tree))
            },
        }
    }
}

} // verus!
