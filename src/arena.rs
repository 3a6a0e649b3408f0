//! The arena of `indextree` that holds the nodes of a tree, and what this
//! library assumes of the few of its operations that it uses.
//!
//! A node is named by the one-based number that `indextree` gives its
//! identifier. The contents of an arena are seen through three sequences,
//! indexed by that number less one: the entries, the parent of each node,
//! and the ordered children of each node. The library never removes a node,
//! so the slots of an arena are filled in order and never reused.
use vstd::prelude::*;
use indextree::{Arena, NodeId};
use crate::entry::{Entry, EntryView};

verus! {

#[verifier::external_type_specification]
#[verifier::external_body]
#[verifier::reject_recursive_types(T)]
pub struct ExArena<T>(Arena<T>);

#[verifier::external_type_specification]
#[verifier::external_body]
pub struct ExNodeId(NodeId);

/// The one-based slot number of a node identifier, as `usize::from(NodeId)`
/// gives it.
pub uninterp spec fn node_number(id: NodeId) -> nat;

/// The entries held in an arena, slot by slot.
pub uninterp spec fn arena_entries(a: Arena<Entry>) -> Seq<EntryView>;

/// The number of each node's parent, if it has one, slot by slot.
pub uninterp spec fn arena_parents(a: Arena<Entry>) -> Seq<Option<nat>>;

/// The numbers of each node's children, in order, slot by slot.
pub uninterp spec fn arena_children(a: Arena<Entry>) -> Seq<Seq<nat>>;

/// The identifier that the arena issued for each slot.
pub uninterp spec fn arena_ids(a: Arena<Entry>) -> Seq<NodeId>;

/// The number of slots of an arena freed by removal and open for reuse.
pub uninterp spec fn arena_freed(a: Arena<Entry>) -> nat;

/// The number of nodes in an arena.
pub open spec fn arena_len(a: Arena<Entry>) -> nat {
    arena_entries(a).len()
}

/// Whether `n` names a node of `a`.
pub open spec fn is_node(a: Arena<Entry>, n: nat) -> bool {
    1 <= n <= arena_len(a)
}

/// `id` is the identifier that `a` issued for its slot.
pub open spec fn owns(a: Arena<Entry>, id: NodeId) -> bool {
    &&& is_node(a, node_number(id))
    &&& arena_ids(a)[node_number(id) - 1] == id
}

/// The entry of node `n`.
pub open spec fn entry_of(a: Arena<Entry>, n: nat) -> EntryView {
    arena_entries(a)[n - 1]
}

/// The parent of node `n`.
pub open spec fn parent_of(a: Arena<Entry>, n: nat) -> Option<nat> {
    arena_parents(a)[n - 1]
}

/// The children of node `n`.
pub open spec fn children_of(a: Arena<Entry>, n: nat) -> Seq<nat> {
    arena_children(a)[n - 1]
}

/// The three views agree in length; parent and child links name nodes of the
/// arena and mirror each other; no node is listed twice as a child.
pub open spec fn arena_wf(a: Arena<Entry>) -> bool {
    &&& arena_freed(a) == 0
    &&& arena_ids(a).len() == arena_len(a)
    &&& arena_parents(a).len() == arena_len(a)
    &&& arena_children(a).len() == arena_len(a)
    &&& forall|n: nat, i: int|
        #![trigger children_of(a, n)[i]]
        is_node(a, n) && 0 <= i < children_of(a, n).len() ==> {
            &&& is_node(a, children_of(a, n)[i])
            &&& parent_of(a, children_of(a, n)[i]) == Some(n)
        }
    &&& forall|n: nat, i: int, j: int|
        #![trigger children_of(a, n)[i], children_of(a, n)[j]]
        is_node(a, n) && 0 <= i < j < children_of(a, n).len() ==> children_of(a, n)[i]
            != children_of(a, n)[j]
    &&& forall|c: nat|
        #![trigger parent_of(a, c)]
        is_node(a, c) && parent_of(a, c) is Some ==> {
            &&& is_node(a, parent_of(a, c)->0)
            &&& children_of(a, parent_of(a, c)->0).contains(c)
        }
}

/// Relies on `Arena::new`: an arena with no nodes.
#[verifier::external_body]
pub(crate) fn empty_arena() -> (r: Arena<Entry>)
    ensures
        arena_entries(r) == Seq::<EntryView>::empty(),
        arena_parents(r) == Seq::<Option<nat>>::empty(),
        arena_children(r) == Seq::<Seq<nat>>::empty(),
        arena_ids(r) == Seq::<NodeId>::empty(),
        arena_freed(r) == 0,
{
    Arena::new()
}

/// Relies on `Arena::new_node`: with no freed slot, the node goes into a new
/// slot at the end, without parent or children, and its identifier, issued
/// for that slot, has the slot's number. It panics only where the number
/// would overflow.
#[verifier::external_body]
pub(crate) fn add_node(a: &mut Arena<Entry>, e: Entry) -> (r: NodeId)
    requires
        arena_len(*old(a)) < usize::MAX,
        arena_parents(*old(a)).len() == arena_len(*old(a)),
        arena_children(*old(a)).len() == arena_len(*old(a)),
        arena_ids(*old(a)).len() == arena_len(*old(a)),
        arena_freed(*old(a)) == 0,
    ensures
        node_number(r) == arena_len(*old(a)) + 1,
        arena_ids(*final(a)) == arena_ids(*old(a)).push(r),
        arena_freed(*final(a)) == 0,
        arena_entries(*final(a)) == arena_entries(*old(a)).push(e@),
        arena_parents(*final(a)) == arena_parents(*old(a)).push(None),
        arena_children(*final(a)) == arena_children(*old(a)).push(Seq::<nat>::empty()),
{
    a.new_node(e)
}

/// Relies on `NodeId::append`: where both identifiers were issued by the
/// arena for their slots (so neither counts as removed), the new child is
/// another node, and neither it nor the parent has a parent yet (so the child
/// is no ancestor of the parent and nothing is detached), the child goes last
/// among the parent's children and has the parent as its own.
#[verifier::external_body]
pub(crate) fn link_child(parent: NodeId, child: NodeId, a: &mut Arena<Entry>)
    requires
        owns(*old(a), parent),
        owns(*old(a), child),
        node_number(parent) != node_number(child),
        parent_of(*old(a), node_number(parent)) is None,
        parent_of(*old(a), node_number(child)) is None,
        arena_wf(*old(a)),
    ensures
        arena_entries(*final(a)) == arena_entries(*old(a)),
        arena_ids(*final(a)) == arena_ids(*old(a)),
        arena_freed(*final(a)) == arena_freed(*old(a)),
        arena_parents(*final(a)) == arena_parents(*old(a)).update(
            node_number(child) - 1,
            Some(node_number(parent)),
        ),
        arena_children(*final(a)) == arena_children(*old(a)).update(
            node_number(parent) - 1,
            children_of(*old(a), node_number(parent)).push(node_number(child)),
        ),
{
    parent.append(child, a)
}

/// Relies on `Index<NodeId> for Arena` and `Node::get`: the entry of a node.
#[verifier::external_body]
pub(crate) fn entry_at(a: &Arena<Entry>, id: NodeId) -> (r: &Entry)
    requires
        owns(*a, id),
    ensures
        r@ == entry_of(*a, node_number(id)),
{
    a[id].get()
}

/// Relies on `NodeId::children`: the identifiers of a node's children, in
/// order.
#[verifier::external_body]
pub(crate) fn child_ids(a: &Arena<Entry>, id: NodeId) -> (r: Vec<NodeId>)
    requires
        owns(*a, id),
        arena_wf(*a),
    ensures
        r@.len() == children_of(*a, node_number(id)).len(),
        forall|i: int|
            0 <= i < r@.len() ==> node_number(#[trigger] r@[i]) == children_of(
                *a,
                node_number(id),
            )[i] && owns(*a, r@[i]),
{
    id.children(a).collect()
}

} // verus!
