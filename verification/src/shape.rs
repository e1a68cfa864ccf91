//! The shape of the trees in a store: which node lies above which, and what
//! holds of every node while a tree is built and trimmed.

use crate::bline::BLineView;
use crate::text_order::text_lt;
use vstd::prelude::*;

verus! {

/// The position of the parent of the node at `i`. A handle that points
/// forward, or into another arena, is no parent.
pub open spec fn parent_of(nodes: Seq<BLineView>, tag: u32, i: int) -> Option<int> {
    match nodes[i].parent_id {
        Some(parent) => if parent.arena_id == tag && parent.index < i {
            Some(parent.index as int)
        } else {
            None
        },
        None => None,
    }
}

/// Whether the node at `a` is the node at `d` or lies on the chain of its
/// parents.
pub open spec fn is_ancestor_or_self(nodes: Seq<BLineView>, tag: u32, a: int, d: int) -> bool
    decreases d,
{
    ||| a == d
    ||| {
        &&& d > 0
        &&& parent_of(nodes, tag, d) matches Some(parent)
        &&& is_ancestor_or_self(nodes, tag, a, parent)
    }
}

/// A node above a node that is above a third is above the third.
pub proof fn lemma_ancestor_step(nodes: Seq<BLineView>, tag: u32, x: int, c: int, d: int)
    requires
        c > 0,
        parent_of(nodes, tag, c) == Some(x),
        is_ancestor_or_self(nodes, tag, c, d),
    ensures
        is_ancestor_or_self(nodes, tag, x, d),
    decreases d,
{
    if c != d {
        let parent = parent_of(nodes, tag, d)->0;
        lemma_ancestor_step(nodes, tag, x, c, parent);
    } else {
        assert(is_ancestor_or_self(nodes, tag, x, x));
    }
}

/// Whether the node at position `j` names the node at position `i` as its
/// parent.
pub open spec fn is_child_of(nodes: Seq<BLineView>, j: int, i: int) -> bool {
    nodes[j].parent_id matches Some(parent) && parent.index == i
}

/// What holds of the node at position `i` of a tree: its parent was
/// allocated before it, in the same arena, and lies one level above it; its
/// children, once listed, are nodes allocated after it that name it as their
/// parent, in the order of their names and of their allocation; the cursor
/// has not run past them, and has not moved before they were listed; and
/// every node that names it as its parent is among them.
pub open spec fn node_wf(nodes: Seq<BLineView>, tag: u32, i: int) -> bool {
    let node = nodes[i];
    &&& match node.parent_id {
        Some(parent) => {
            &&& parent.arena_id == tag
            &&& parent.index < i
            &&& node.depth == nodes[parent.index as int].depth + 1
        },
        None => node.depth == 0,
    }
    &&& node.children is None ==> node.next_child_idx == 0
    &&& node.children matches Some(children) ==> {
        &&& node.next_child_idx <= children.len()
        &&& forall|k: int|
            0 <= k < children.len() ==> {
                let child = #[trigger] children[k];
                &&& child.arena_id == tag
                &&& i < child.index < nodes.len()
                &&& is_child_of(nodes, child.index as int, i)
            }
        &&& forall|a: int, b: int|
            0 <= a < b < children.len() ==> {
                &&& (#[trigger] children[a]).index < (#[trigger] children[b]).index
                &&& !text_lt(
                    nodes[children[b].index as int].name,
                    nodes[children[a].index as int].name,
                )
            }
    }
    &&& forall|j: int|
        0 <= j < nodes.len() && #[trigger] is_child_of(nodes, j, i) ==> {
            &&& node.children matches Some(children)
            &&& exists|k: int| 0 <= k < children.len() && (#[trigger] children[k]).index == j
        }
}

/// Whether the match flag of the node at position `i` has reached its
/// parent: a node that matches, or has a match below it, is a match below
/// its parent.
pub open spec fn carries_match(nodes: Seq<BLineView>, tag: u32, i: int) -> bool {
    nodes[i].has_match ==> (parent_of(nodes, tag, i) matches Some(parent)
        ==> nodes[parent].has_match)
}

/// Whether the nodes form trees: every node is as `node_wf` says, and
/// every match flag has reached the nodes above it.
pub open spec fn well_formed(nodes: Seq<BLineView>, tag: u32) -> bool {
    &&& forall|i: int| 0 <= i < nodes.len() ==> node_wf(nodes, tag, i)
    &&& forall|i: int| 0 <= i < nodes.len() ==> carries_match(nodes, tag, i)
}

/// A node lies above no node allocated before it.
pub proof fn lemma_ancestor_below(nodes: Seq<BLineView>, tag: u32, a: int, d: int)
    requires
        is_ancestor_or_self(nodes, tag, a, d),
    ensures
        a <= d,
    decreases d,
{
    if a != d {
        lemma_ancestor_below(nodes, tag, a, parent_of(nodes, tag, d)->0);
    }
}

/// The nodes above a node lie in one line: of two of them, the one
/// allocated first lies above the parent of the other.
pub proof fn lemma_ancestors_in_line(nodes: Seq<BLineView>, tag: u32, i: int, c: int, d: int)
    requires
        is_ancestor_or_self(nodes, tag, i, d),
        is_ancestor_or_self(nodes, tag, c, d),
        i < c,
    ensures
        parent_of(nodes, tag, c) matches Some(parent) && is_ancestor_or_self(
            nodes,
            tag,
            i,
            parent,
        ),
    decreases d,
{
    if c != d {
        let above = parent_of(nodes, tag, d)->0;
        lemma_ancestor_below(nodes, tag, c, above);
        lemma_ancestors_in_line(nodes, tag, i, c, above);
    }
}

} // verus!
