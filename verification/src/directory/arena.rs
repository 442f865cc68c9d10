//! The arena that holds the links between folders, and what is taken on trust
//! about it.
//!
//! Nothing here is proved: each function calls the arena and states what the
//! arena's documentation and source say of the call.
use crate::directory::forest::Forest;
use indextree::{Arena, NodeError};
use std::num::NonZeroUsize;
use vstd::prelude::*;

verus! {

/// `indextree::Arena`, of which nothing is seen but through the functions
/// below.
#[verifier::external_type_specification]
#[verifier::external_body]
#[verifier::reject_recursive_types(T)]
pub struct ExArena<T>(Arena<T>);

/// `indextree::NodeError`, the reason for which an arena refuses to link two
/// nodes. It is handed on unread.
#[verifier::external_type_specification]
#[verifier::external_body]
pub struct ExNodeError(NodeError);

/// The children of the node in each slot of an arena, first to last. Handle
/// `h` names slot `h - 1`; a slot whose node was removed holds `None`.
pub uninterp spec fn arena_children(arena: Arena<()>) -> Seq<Option<Seq<int>>>;

/// The parent of the node in each slot of an arena; `None` for a node without
/// a parent and for a slot whose node was removed.
pub uninterp spec fn arena_parents(arena: Arena<()>) -> Seq<Option<int>>;

/// The links that `arena` holds.
pub open spec fn forest_of(arena: Arena<()>) -> Forest {
    Forest { parents: arena_parents(arena), children: arena_children(arena) }
}

/// A list of handles as numbers.
pub open spec fn handles(list: Seq<usize>) -> Seq<int> {
    Seq::new(list.len(), |i: int| list[i] as int)
}

/// `Arena::new`: an arena without slots.
#[verifier::external_body]
pub(crate) fn new_arena() -> (arena: Arena<()>)
    ensures
        arena_children(arena) == Seq::<Option<Seq<int>>>::empty(),
        arena_parents(arena) == Seq::<Option<int>>::empty(),
{
    Arena::new()
}

/// `Arena::new_node`: a node without parent or children, in a slot of its
/// own. The slot is a new last one, or one whose node had been removed.
#[verifier::external_body]
pub(crate) fn new_node(arena: &mut Arena<()>) -> (handle: usize)
    ensures
        1 <= handle <= arena_children(*old(arena)).len() + 1,
        !forest_of(*old(arena)).is_live(handle as int),
        forest_of(*final(arena)) == forest_of(*old(arena)).with_node(handle as int),
{
    usize::from(arena.new_node(()))
}

/// `NodeId::checked_append`: makes `child` the last child of `parent`. It
/// refuses, and changes nothing, where the two are the same node or `child` is
/// an ancestor of `parent`.
#[verifier::external_body]
pub(crate) fn checked_append(arena: &mut Arena<()>, parent: usize, child: usize) -> (r: Result<
    (),
    NodeError,
>)
    requires
        forest_of(*old(arena)).is_live(parent as int),
        forest_of(*old(arena)).is_live(child as int),
        arena_parents(*old(arena))[child - 1] is None,
    ensures
        r is Ok <==> parent != child && !forest_of(*old(arena)).ancestors(parent as int).contains(
            child as int,
        ),
        r is Ok ==> forest_of(*final(arena)) == forest_of(*old(arena)).with_child(
            parent as int,
            child as int,
        ),
        r is Err ==> forest_of(*final(arena)) == forest_of(*old(arena)),
{
    let parent = arena.get_node_id_at(NonZeroUsize::new(parent).unwrap()).unwrap();
    let child = arena.get_node_id_at(NonZeroUsize::new(child).unwrap()).unwrap();
    parent.checked_append(child, arena)
}

/// `NodeId::children`: the children of a node, first to last.
#[verifier::external_body]
pub(crate) fn children(arena: &Arena<()>, handle: usize) -> (list: Vec<usize>)
    requires
        forest_of(*arena).is_live(handle as int),
    ensures
        Some(handles(list@)) == arena_children(*arena)[handle - 1],
{
    let node = arena.get_node_id_at(NonZeroUsize::new(handle).unwrap()).unwrap();
    node.children(arena).map(usize::from).collect()
}

/// `NodeId::ancestors`: the node, then its parent, then that node's parent,
/// up to the one without a parent.
#[verifier::external_body]
pub(crate) fn ancestors(arena: &Arena<()>, handle: usize) -> (list: Vec<usize>)
    requires
        forest_of(*arena).is_live(handle as int),
    ensures
        handles(list@) == forest_of(*arena).ancestors(handle as int),
{
    let node = arena.get_node_id_at(NonZeroUsize::new(handle).unwrap()).unwrap();
    node.ancestors(arena).map(usize::from).collect()
}

/// `NodeId::descendants`: the node and all that lies below it, in pre-order,
/// siblings from first to last.
#[verifier::external_body]
pub(crate) fn descendants(arena: &Arena<()>, handle: usize) -> (list: Vec<usize>)
    requires
        forest_of(*arena).is_live(handle as int),
    ensures
        handles(list@) == forest_of(*arena).descendants(handle as int),
{
    let node = arena.get_node_id_at(NonZeroUsize::new(handle).unwrap()).unwrap();
    node.descendants(arena).map(usize::from).collect()
}

} // verus!
