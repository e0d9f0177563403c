//! Handles: shared, reference-counted aliases to the nodes of structured
//! values.
//!
//! The host owns an arena of nodes. A handle is an index into it; the arena
//! counts the aliases of every node. Cloning a handle makes a second alias of
//! the same node, so that what is stored through one is read through the
//! other. Reading copies the node out: later stores do not reach the copy.

use vstd::prelude::*;
use crate::value::DateTime;

verus! {

/// An alias to one node of an arena. It can be duplicated only by the arena,
/// which counts the aliases.
#[derive(Debug, PartialEq, Eq)]
pub struct Handle {
    slot: usize,
}

impl View for Handle {
    type V = nat;

    /// The index of the node that the handle is bound to.
    closed spec fn view(&self) -> nat {
        self.slot as nat
    }
}

/// The model of one node: a scalar, or the handles of its children.
pub enum Node {
    String(Seq<char>),
    Integer(i64),
    Float(u64),
    Boolean(bool),
    DateTime(DateTime),
    Array(Seq<nat>),
    Table(Seq<(Seq<char>, nat)>),
}

impl Node {
    /// The nodes that this one refers to, in order.
    pub open spec fn children(self) -> Seq<nat> {
        match self {
            Node::Array(items) => items,
            Node::Table(entries) => Seq::new(entries.len(), |i: int| entries[i].1),
            _ => Seq::empty(),
        }
    }
}

/// One node of a structured value. An array holds the handles of its items, a
/// table the keys and the handles of its entries, in order.
#[derive(Debug, PartialEq, Eq)]
pub enum StructuredValue {
    String(String),
    Integer(i64),
    /// The bits of a 64-bit float.
    Float(u64),
    Boolean(bool),
    DateTime(DateTime),
    Array(Vec<Handle>),
    Table(Vec<(String, Handle)>),
}

impl View for StructuredValue {
    type V = Node;

    open spec fn view(&self) -> Node {
        match self {
            StructuredValue::String(text) => Node::String(text@),
            StructuredValue::Integer(number) => Node::Integer(*number),
            StructuredValue::Float(bits) => Node::Float(*bits),
            StructuredValue::Boolean(flag) => Node::Boolean(*flag),
            StructuredValue::DateTime(datetime) => Node::DateTime(*datetime),
            StructuredValue::Array(items) => Node::Array(
                Seq::new(items@.len(), |i: int| items@[i]@),
            ),
            StructuredValue::Table(entries) => Node::Table(
                Seq::new(entries@.len(), |i: int| (entries@[i].0@, entries@[i].1@)),
            ),
        }
    }
}

/// What an arena holds at one index: the node and the number of its aliases.
pub struct Cell {
    pub node: Node,
    pub aliases: nat,
}

/// The model of an arena: what it holds at each index, `None` where the node
/// is gone. Indices are never used again.
pub type ArenaState = Seq<Option<Cell>>;

/// Whether the handle `h` is bound to a node.
pub open spec fn live(state: ArenaState, h: nat) -> bool {
    h < state.len() && state[h as int] is Some
}

/// The node that the handle `h` is bound to.
pub open spec fn node_at(state: ArenaState, h: nat) -> Node
    recommends
        live(state, h),
{
    state[h as int]->0.node
}

/// The arena after a node was put into it, under its first handle: the new
/// node takes the next index.
pub open spec fn allocated(state: ArenaState, node: Node) -> ArenaState {
    state.push(Some(Cell { node, aliases: 1 }))
}

/// The arena after `node` was stored through the handle `h`.
pub open spec fn stored(state: ArenaState, h: nat, node: Node) -> ArenaState {
    if live(state, h) {
        state.update(h as int, Some(Cell { node, aliases: state[h as int]->0.aliases }))
    } else {
        state
    }
}

/// The arena after one more alias of `h` was made. The count stops at the
/// largest number that the machine holds.
pub open spec fn retained(state: ArenaState, h: nat) -> ArenaState {
    if live(state, h) && state[h as int]->0.aliases < usize::MAX {
        state.update(
            h as int,
            Some(Cell { node: state[h as int]->0.node, aliases: state[h as int]->0.aliases + 1 }),
        )
    } else {
        state
    }
}

/// The arena after one more alias was made of each of `handles`, in order.
pub open spec fn retained_all(state: ArenaState, handles: Seq<nat>) -> ArenaState
    decreases handles.len(),
{
    if handles.len() == 0 {
        state
    } else {
        retained(retained_all(state, handles.drop_last()), handles.last())
    }
}

/// Whether giving up one alias of `h` takes the node out of the arena.
pub open spec fn last_alias(state: ArenaState, h: nat) -> bool {
    live(state, h) && state[h as int]->0.aliases <= 1
}

/// The arena after one alias of `h` was given up. With the last alias the node
/// goes. A count that has reached the largest number stays there.
pub open spec fn released(state: ArenaState, h: nat) -> ArenaState {
    if !live(state, h) || state[h as int]->0.aliases >= usize::MAX {
        state
    } else if state[h as int]->0.aliases <= 1 {
        state.update(h as int, None)
    } else {
        state.update(
            h as int,
            Some(
                Cell {
                    node: state[h as int]->0.node,
                    aliases: (state[h as int]->0.aliases - 1) as nat,
                },
            ),
        )
    }
}

struct Slot {
    value: Option<StructuredValue>,
    aliases: usize,
}

/// The arena of nodes that the host owns.
pub struct ValueArena {
    slots: Vec<Slot>,
}

impl View for ValueArena {
    type V = ArenaState;

    closed spec fn view(&self) -> ArenaState {
        Seq::new(
            self.slots@.len(),
            |i: int|
                match self.slots@[i].value {
                    Some(value) => Some(Cell { node: value@, aliases: self.slots@[i].aliases as nat }),
                    None => None,
                },
        )
    }
}

impl ValueArena {
    /// An arena without nodes.
    pub fn new() -> (arena: Self)
        ensures
            arena@ == Seq::<Option<Cell>>::empty(),
    {
        let arena = ValueArena { slots: Vec::new() };
        assert(arena@ =~= Seq::<Option<Cell>>::empty());
        arena
    }

    /// The number of indices handed out so far.
    pub fn len(&self) -> (n: usize)
        ensures
            n == self@.len(),
    {
        self.slots.len()
    }

    /// Whether `handle` is bound to a node of this arena.
    pub fn is_live(&self, handle: &Handle) -> (yes: bool)
        ensures
            yes == live(self@, handle@),
    {
        handle.slot < self.slots.len() && self.slots[handle.slot].value.is_some()
    }

    /// The number of aliases of the node of `handle`, `None` for a handle that
    /// is bound to nothing.
    pub fn aliases(&self, handle: &Handle) -> (count: Option<usize>)
        ensures
            count is Some <==> live(self@, handle@),
            count matches Some(n) ==> n == self@[handle@ as int]->0.aliases,
    {
        if self.is_live(handle) {
            Some(self.slots[handle.slot].aliases)
        } else {
            None
        }
    }

    /// The node of `handle`, to look at. `None` for a handle that is bound to
    /// nothing.
    pub fn peek(&self, handle: &Handle) -> (node: Option<&StructuredValue>)
        ensures
            node is Some <==> live(self@, handle@),
            node matches Some(value) ==> value@ == node_at(self@, handle@),
    {
        if handle.slot < self.slots.len() {
            self.slots[handle.slot].value.as_ref()
        } else {
            None
        }
    }

    /// Wraps `value` in a new node and returns its first handle.
    pub fn new_handle(&mut self, value: StructuredValue) -> (handle: Handle)
        ensures
            handle@ == old(self)@.len(),
            final(self)@ == allocated(old(self)@, value@),
    {
        let slot = self.slots.len();
        self.slots.push(Slot { value: Some(value), aliases: 1 });
        assert(self@ =~= allocated(old(self)@, value@));
        Handle { slot }
    }

    /// Makes a second alias of the node of `handle`: no value is copied.
    /// `None`, and nothing changes, for a handle that is bound to nothing.
    pub fn clone_handle(&mut self, handle: &Handle) -> (alias: Option<Handle>)
        ensures
            alias is Some <==> live(old(self)@, handle@),
            alias matches Some(other) ==> other@ == handle@,
            final(self)@ == retained(old(self)@, handle@),
    {
        if self.is_live(handle) {
            self.retain(handle.slot);
            Some(Handle { slot: handle.slot })
        } else {
            None
        }
    }

    /// Copies the node of `handle` out. The copy holds new aliases of the
    /// children, which the arena counts; no node changes. `None`, and nothing
    /// changes, for a handle that is bound to nothing.
    pub fn get(&mut self, handle: &Handle) -> (got: Option<StructuredValue>)
        ensures
            got is Some <==> live(old(self)@, handle@),
            got matches Some(value) ==> value@ == node_at(old(self)@, handle@) && final(self)@
                == retained_all(old(self)@, value@.children()),
            got is None ==> final(self)@ == old(self)@,
    {
        if handle.slot >= self.slots.len() {
            return None;
        }
        let copy = match &self.slots[handle.slot].value {
            Some(value) => copy_node(value),
            None => {
                return None;
            },
        };
        self.retain_children(&copy);
        Some(copy)
    }

    /// Replaces the node of `handle`, for every holder of an alias, and
    /// returns the node that was there. A handle that is bound to nothing
    /// changes nothing and gets `value` back.
    pub fn set(&mut self, handle: &Handle, value: StructuredValue) -> (outcome: Result<
        StructuredValue,
        StructuredValue,
    >)
        ensures
            final(self)@ == stored(old(self)@, handle@, value@),
            outcome is Ok <==> live(old(self)@, handle@),
            outcome matches Ok(previous) ==> previous@ == node_at(old(self)@, handle@),
            outcome matches Err(back) ==> back == value,
    {
        if !self.is_live(handle) {
            return Err(value);
        }
        let mut held = Some(value);
        std::mem::swap(&mut self.slots[handle.slot].value, &mut held);
        assert(self@ =~= stored(old(self)@, handle@, value@));
        Ok(held.unwrap())
    }

    /// Gives up one alias. With the last alias the node leaves the arena and
    /// is returned, together with the aliases of its children that it holds.
    pub fn release(&mut self, handle: Handle) -> (freed: Option<StructuredValue>)
        ensures
            final(self)@ == released(old(self)@, handle@),
            freed is Some <==> last_alias(old(self)@, handle@),
            freed matches Some(value) ==> value@ == node_at(old(self)@, handle@),
    {
        if !self.is_live(&handle) {
            return None;
        }
        let count = self.slots[handle.slot].aliases;
        if count >= usize::MAX {
            None
        } else if count <= 1 {
            let mut held: Option<StructuredValue> = None;
            std::mem::swap(&mut self.slots[handle.slot].value, &mut held);
            assert(self@ =~= released(old(self)@, handle@));
            held
        } else {
            self.slots[handle.slot].aliases = count - 1;
            assert(self@ =~= released(old(self)@, handle@));
            None
        }
    }

    fn retain(&mut self, slot: usize)
        ensures
            final(self)@ == retained(old(self)@, slot as nat),
    {
        if slot < self.slots.len() && self.slots[slot].value.is_some() {
            let count = self.slots[slot].aliases;
            if count < usize::MAX {
                self.slots[slot].aliases = count + 1;
            }
        }
        assert(self@ =~= retained(old(self)@, slot as nat));
    }

    fn retain_children(&mut self, node: &StructuredValue)
        ensures
            final(self)@ == retained_all(old(self)@, node@.children()),
    {
        let ghost children = node@.children();
        match node {
            StructuredValue::Array(items) => {
                let mut i: usize = 0;
                assert(children.take(0) =~= Seq::<nat>::empty());
                while i < items.len()
                    invariant
                        i <= items.len(),
                        children.len() == items.len(),
                        forall|j: int| 0 <= j < items.len() ==> children[j] == items[j]@,
                        self@ == retained_all(old(self)@, children.take(i as int)),
                    decreases items.len() - i,
                {
                    assert(children.take(i + 1).drop_last() =~= children.take(i as int));
                    self.retain(items[i].slot);
                    i += 1;
                }
                assert(children.take(i as int) =~= children);
            },
            StructuredValue::Table(entries) => {
                let mut i: usize = 0;
                assert(children.take(0) =~= Seq::<nat>::empty());
                while i < entries.len()
                    invariant
                        i <= entries.len(),
                        children.len() == entries.len(),
                        forall|j: int| 0 <= j < entries.len() ==> children[j] == entries[j].1@,
                        self@ == retained_all(old(self)@, children.take(i as int)),
                    decreases entries.len() - i,
                {
                    assert(children.take(i + 1).drop_last() =~= children.take(i as int));
                    self.retain(entries[i].1.slot);
                    i += 1;
                }
                assert(children.take(i as int) =~= children);
            },
            _ => {},
        }
    }
}

/// A copy of a node, with handles of the same indices.
fn copy_node(value: &StructuredValue) -> (copy: StructuredValue)
    ensures
        copy@ == value@,
{
    match value {
        StructuredValue::String(text) => StructuredValue::String(text.clone()),
        StructuredValue::Integer(number) => StructuredValue::Integer(*number),
        StructuredValue::Float(bits) => StructuredValue::Float(*bits),
        StructuredValue::Boolean(flag) => StructuredValue::Boolean(*flag),
        StructuredValue::DateTime(datetime) => StructuredValue::DateTime(*datetime),
        StructuredValue::Array(items) => {
            let mut copies: Vec<Handle> = Vec::new();
            let mut i: usize = 0;
            while i < items.len()
                invariant
                    i <= items.len(),
                    copies.len() == i,
                    forall|j: int| 0 <= j < i ==> copies[j]@ == items[j]@,
                decreases items.len() - i,
            {
                copies.push(Handle { slot: items[i].slot });
                i += 1;
            }
            let copy = StructuredValue::Array(copies);
            assert(copy@->Array_0 =~= value@->Array_0);
            copy
        },
        StructuredValue::Table(entries) => {
            let mut copies: Vec<(String, Handle)> = Vec::new();
            let mut i: usize = 0;
            while i < entries.len()
                invariant
                    i <= entries.len(),
                    copies.len() == i,
                    forall|j: int|
                        0 <= j < i ==> copies[j].0@ == entries[j].0@ && copies[j].1@
                            == entries[j].1@,
                decreases entries.len() - i,
            {
                copies.push((entries[i].0.clone(), Handle { slot: entries[i].1.slot }));
                i += 1;
            }
            let copy = StructuredValue::Table(copies);
            assert(copy@->Table_0 =~= value@->Table_0);
            copy
        },
    }
}

/// Making aliases changes no node and no liveness.
pub proof fn lemma_retained_keeps_nodes(state: ArenaState, handles: Seq<nat>, h: nat)
    ensures
        retained_all(state, handles).len() == state.len(),
        live(retained_all(state, handles), h) == live(state, h),
        live(state, h) ==> node_at(retained_all(state, handles), h) == node_at(state, h),
    decreases handles.len(),
{
    if handles.len() > 0 {
        lemma_retained_keeps_nodes(state, handles.drop_last(), h);
    }
}

/// What is stored through a handle is read through every alias of it, in both
/// directions: an alias is bound to the same node as the handle it was cloned
/// from, and a store through either replaces that node.
pub proof fn lemma_store_visible_through_alias(state: ArenaState, h1: nat, h2: nat, node: Node)
    requires
        live(state, h1),
        h2 == h1,
    ensures
        live(retained(state, h1), h2),
        node_at(stored(retained(state, h1), h1, node), h2) == node,
        node_at(stored(retained(state, h1), h2, node), h1) == node,
{
}

/// A store through one handle reaches no node but its own.
pub proof fn lemma_store_leaves_others(state: ArenaState, h: nat, other: nat, node: Node)
    requires
        other != h,
    ensures
        live(stored(state, h, node), other) == live(state, other),
        live(state, other) ==> node_at(stored(state, h, node), other) == node_at(state, other),
{
}

/// What was read is the node as it was when it was read: reading changes no
/// node, and a later store changes the arena, not the copy that was taken.
pub proof fn lemma_read_is_a_snapshot(state: ArenaState, h: nat, later: Node)
    requires
        live(state, h),
    ensures
        ({
            let read = node_at(state, h);
            let after_read = retained_all(state, read.children());
            let after_store = stored(after_read, h, later);
            &&& node_at(after_read, h) == read
            &&& node_at(after_store, h) == later
            &&& read == node_at(state, h)
        }),
{
    lemma_retained_keeps_nodes(state, node_at(state, h).children(), h);
}

} // verus!
