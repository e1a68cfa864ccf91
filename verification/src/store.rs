//! The node store: one `id_arena::Arena` per build, read and filled through
//! the few operations declared here. What they say of the arena is taken
//! from its source and is not proved.
//!
//! A node names other nodes by `BId`, which holds as plain numbers what an
//! `id_arena::Id` holds: the number of the arena and the position in it.

use crate::bline::{BId, BLine, BLineView};
use crate::shape::{parent_of, well_formed};
use id_arena::{Arena, ArenaBehavior, DefaultArenaBehavior};
use vstd::prelude::*;

verus! {

/// `id_arena::DefaultArenaBehavior`, the second parameter of an arena.
#[verifier::external_type_specification]
#[verifier::external_body]
#[verifier::reject_recursive_types(T)]
pub struct ExDefaultArenaBehavior<T>(DefaultArenaBehavior<T>);

/// `id_arena::Arena`. What an arena holds is known through `arena_nodes`
/// and `arena_tag` alone.
#[verifier::external_type_specification]
#[verifier::external_body]
#[verifier::reject_recursive_types(T)]
#[verifier::reject_recursive_types(A)]
pub struct ExArena<T, A>(Arena<T, A>);

/// The nodes that an arena holds, in the order in which they were allocated.
pub uninterp spec fn arena_nodes(arena: Arena<BLine>) -> Seq<BLine>;

/// The number by which an arena tells its own handles from those of other
/// arenas.
pub uninterp spec fn arena_tag(arena: Arena<BLine>) -> u32;

/// The nodes of an arena as mathematical values.
pub open spec fn forest(arena: Arena<BLine>) -> Seq<BLineView> {
    arena_nodes(arena).map_values(|node: BLine| node@)
}

/// Whether a handle names a node of this arena.
pub open spec fn holds(arena: Arena<BLine>, id: BId) -> bool {
    id.arena_id == arena_tag(arena) && id.index < arena_nodes(arena).len()
}

/// `Arena::new`: an arena without nodes. Its number is whatever the
/// process-wide counter of the arena crate gives.
#[verifier::external_body]
pub(crate) fn arena_new() -> (arena: Arena<BLine>)
    ensures
        arena_nodes(arena) == Seq::<BLine>::empty(),
{
    Arena::new()
}

/// `Arena::len`: the number of nodes allocated so far.
#[verifier::external_body]
pub(crate) fn arena_len(arena: &Arena<BLine>) -> (len: usize)
    ensures
        len == arena_nodes(*arena).len(),
{
    arena.len()
}

/// `Arena::next_id`, read through `ArenaBehavior::arena_id`: the number that
/// every handle of this arena carries.
#[verifier::external_body]
pub(crate) fn arena_own_tag(arena: &Arena<BLine>) -> (tag: u32)
    ensures
        tag == arena_tag(*arena),
{
    DefaultArenaBehavior::arena_id(arena.next_id())
}

/// `Arena::alloc`: the node is appended, the nodes before it stay, and the
/// handle returned carries the arena's number and the node's position.
#[verifier::external_body]
pub(crate) fn arena_alloc(arena: &mut Arena<BLine>, node: BLine) -> (id: BId)
    ensures
        arena_nodes(*final(arena)) == arena_nodes(*old(arena)).push(node),
        arena_tag(*final(arena)) == arena_tag(*old(arena)),
        id.arena_id == arena_tag(*old(arena)),
        id.index == arena_nodes(*old(arena)).len(),
{
    let id = arena.alloc(node);
    BId { arena_id: DefaultArenaBehavior::arena_id(id), index: id.index() }
}

/// `Arena::get`: the node at the handle's position, if the handle carries
/// this arena's number and the position is allocated.
#[verifier::external_body]
pub(crate) fn arena_get(arena: &Arena<BLine>, id: BId) -> (node: Option<&BLine>)
    ensures
        node == (if holds(*arena, id) {
            Some(&arena_nodes(*arena)[id.index as int])
        } else {
            None
        }),
{
    arena.get(DefaultArenaBehavior::new_id(id.arena_id, id.index))
}

/// `Arena::get_mut` on a handle that names a node of this arena: the node
/// can be changed in place, and no other node changes.
#[verifier::external_body]
pub(crate) fn arena_get_mut(arena: &mut Arena<BLine>, id: BId) -> (node: &mut BLine)
    requires
        holds(*old(arena), id),
    ensures
        *node == arena_nodes(*old(arena))[id.index as int],
        arena_nodes(*final(arena)) == arena_nodes(*old(arena)).update(
            id.index as int,
            *final(node),
        ),
        arena_tag(*final(arena)) == arena_tag(*old(arena)),
{
    arena.get_mut(DefaultArenaBehavior::new_id(id.arena_id, id.index)).unwrap()
}

/// The parent of the node at `index`, as `parent_of` has it.
pub(crate) fn parent_position(blines: &Arena<BLine>, tag: u32, index: usize) -> (parent: Option<
    usize,
>)
    requires
        tag == arena_tag(*blines),
        index < forest(*blines).len(),
    ensures
        (match parent {
            Some(p) => parent_of(forest(*blines), tag, index as int) == Some(p as int),
            None => parent_of(forest(*blines), tag, index as int) is None,
        }),
{
    match arena_get(blines, BId { arena_id: tag, index }) {
        Some(node) => match node.parent_id {
            Some(parent) => if parent.arena_id == tag && parent.index < index {
                Some(parent.index)
            } else {
                None
            },
            None => None,
        },
        None => None,
    }
}

/// A store without nodes, for a new build.
pub fn new_store() -> (blines: Arena<BLine>)
    ensures
        forest(blines) == Seq::<BLineView>::empty(),
        well_formed(forest(blines), arena_tag(blines)),
{
    let blines = arena_new();
    assert(forest(blines) =~= Seq::<BLineView>::empty());
    blines
}

/// The handle of the node at a position of this arena.
pub fn id_at(blines: &Arena<BLine>, index: usize) -> (id: BId)
    ensures
        id == (BId { arena_id: arena_tag(*blines), index }),
{
    BId { arena_id: arena_own_tag(blines), index }
}

/// How many nodes the arena holds.
pub fn node_count(blines: &Arena<BLine>) -> (count: usize)
    ensures
        count == forest(*blines).len(),
{
    arena_len(blines)
}

/// The node that a handle names, if it names one of this arena.
pub fn lookup(blines: &Arena<BLine>, id: BId) -> (node: Option<&BLine>)
    ensures
        node.is_some() == holds(*blines, id),
        node matches Some(n) ==> n@ == forest(*blines)[id.index as int],
{
    arena_get(blines, id)
}

} // verus!
