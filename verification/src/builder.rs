//! Growing the tree: the entries of a directory become the children of its
//! node, and the iteration hands the children out one by one.

use crate::bline::{BId, BLine, BLineView, LinkProbe};
use crate::entry::EntryType;
use crate::listing::{
    entry_views, is_listing_order, lemma_listing_ignores_arrival, lemma_listing_order, listing,
    listing_order, names_distinct, positions, precedes, same_survivors, sort_entries, survives,
    ChildEntry, ChildEntryView,
};
use crate::shape::{
    carries_match, is_ancestor_or_self, is_child_of, lemma_ancestor_below, lemma_ancestor_step,
    lemma_ancestors_in_line, node_wf, parent_of, well_formed,
};
use crate::store::{
    arena_alloc, arena_get, arena_get_mut, arena_len, arena_nodes, arena_own_tag, arena_tag, forest,
    holds, parent_position,
};
use crate::text_order::{lemma_text_lt_asymmetric, lemma_text_lt_irreflexive, text_lt};
use id_arena::Arena;
use vstd::prelude::*;

verus! {

/// Whether an entry becomes a node that carries an error: its type could
/// not be read, or it is a link that was looked into and nothing was found
/// where it points.
pub open spec fn entry_has_error(entry: ChildEntryView) -> bool {
    ||| entry.file_type is None
    ||| {
        &&& entry.file_type == Some(EntryType::Symlink)
        &&& entry.link matches Some(probe)
        &&& probe.found(entry.path) is None
    }
}

/// The ignore chain below a directory: the directory's own, with the rule
/// set found in the directory layered on top.
pub open spec fn child_chain(chain: Seq<usize>, local_rules: Option<usize>) -> Seq<usize> {
    match local_rules {
        Some(file_id) => chain.push(file_id),
        None => chain,
    }
}

/// The node that an entry becomes below `parent`. An entry whose type
/// could not be read counts as a plain file.
pub open spec fn child_node(
    parent: BLineView,
    parent_id: BId,
    local_rules: Option<usize>,
    entry: ChildEntryView,
) -> BLineView {
    BLineView {
        parent_id: Some(parent_id),
        path: entry.path,
        depth: (parent.depth + 1) as u16,
        name: entry.name,
        file_type: match entry.file_type {
            Some(file_type) => file_type,
            None => EntryType::File,
        },
        children: None,
        next_child_idx: 0,
        has_error: entry_has_error(entry),
        has_match: entry.has_match,
        direct_match: entry.direct_match,
        score: entry.score,
        nb_kept_children: 0,
        git_ignore_chain: child_chain(parent.git_ignore_chain, local_rules),
        special_handling: entry.special_handling,
    }
}

/// Whether the node that `parent_id` names can be given children: it is a
/// node of the arena that may be entered, has no children yet, and is not
/// at the greatest depth.
pub open spec fn can_expand(
    nodes: Seq<BLineView>,
    tag: u32,
    parent_id: BId,
    probe: LinkProbe,
) -> bool {
    &&& parent_id.arena_id == tag
    &&& parent_id.index < nodes.len()
    &&& nodes[parent_id.index as int].can_enter(probe)
    &&& nodes[parent_id.index as int].children is None
    &&& nodes[parent_id.index as int].depth < u16::MAX
}

/// The child that the iteration hands out next at `parent_id`, if any.
pub open spec fn pending_child(nodes: Seq<BLineView>, tag: u32, parent_id: BId) -> Option<BId> {
    if parent_id.arena_id == tag && parent_id.index < nodes.len() {
        let parent = nodes[parent_id.index as int];
        match parent.children {
            Some(children) => if parent.next_child_idx < children.len() {
                Some(children[parent.next_child_idx as int])
            } else {
                None
            },
            None => None,
        }
    } else {
        None
    }
}

/// The handles of `count` nodes allocated in a row from position `base`.
pub open spec fn handles_from(tag: u32, base: int, count: nat) -> Seq<BId> {
    Seq::new(count, |k: int| BId { arena_id: tag, index: (base + k) as usize })
}

/// The nodes with the match flag set on the node at `d` and on every node
/// above it.
pub open spec fn with_match_above(nodes: Seq<BLineView>, tag: u32, d: int) -> Seq<BLineView> {
    Seq::new(
        nodes.len(),
        |i: int|
            if is_ancestor_or_self(nodes, tag, i, d) {
                BLineView { has_match: true, ..nodes[i] }
            } else {
                nodes[i]
            },
    )
}

/// Whether one of the entries counts as a match.
pub open spec fn any_match(entries: Seq<ChildEntryView>) -> bool {
    exists|k: int| 0 <= k < entries.len() && (#[trigger] entries[k]).has_match
}

/// The nodes after the node at `parent_id` was given the surviving entries
/// as children, in their listing order; where one of them counts as a
/// match, the node and every node above it has a match below it.
pub open spec fn expanded(
    nodes: Seq<BLineView>,
    tag: u32,
    parent_id: BId,
    local_rules: Option<usize>,
    entries: Seq<ChildEntryView>,
) -> Seq<BLineView> {
    let grown = with_children(nodes, tag, parent_id, local_rules, entries);
    if any_match(listing(entries)) {
        with_match_above(grown, tag, parent_id.index as int)
    } else {
        grown
    }
}

/// The nodes after the node at `parent_id` was given the surviving entries
/// as children, in their listing order, the match flags left as they were.
pub open spec fn with_children(
    nodes: Seq<BLineView>,
    tag: u32,
    parent_id: BId,
    local_rules: Option<usize>,
    entries: Seq<ChildEntryView>,
) -> Seq<BLineView> {
    let kids = listing(entries);
    let parent = nodes[parent_id.index as int];
    nodes.update(
        parent_id.index as int,
        BLineView { children: Some(handles_from(tag, nodes.len() as int, kids.len())), ..parent },
    ) + Seq::new(kids.len(), |k: int| child_node(parent, parent_id, local_rules, kids[k]))
}

/// Building does not depend on the order in which the entries of a
/// directory arrive: two listings of the same surviving entries, no two of
/// them under one name, give the same nodes, with the same scores, in the
/// same order.
pub proof fn lemma_expansion_is_deterministic(
    nodes: Seq<BLineView>,
    tag: u32,
    parent_id: BId,
    local_rules: Option<usize>,
    first: Seq<ChildEntryView>,
    second: Seq<ChildEntryView>,
)
    requires
        names_distinct(first),
        names_distinct(second),
        same_survivors(first, second),
    ensures
        expanded(nodes, tag, parent_id, local_rules, first) == expanded(
            nodes,
            tag,
            parent_id,
            local_rules,
            second,
        ),
{
    lemma_listing_ignores_arrival(first, second);
}

/// The nodes with the match flag set on the nodes that lie at or above `d`
/// and at or behind position `low`.
spec fn marked_from(nodes: Seq<BLineView>, tag: u32, d: int, low: int) -> Seq<BLineView> {
    Seq::new(
        nodes.len(),
        |i: int|
            if low <= i && is_ancestor_or_self(nodes, tag, i, d) {
                BLineView { has_match: true, ..nodes[i] }
            } else {
                nodes[i]
            },
    )
}

/// Sets the match flag of the node at `start` and of every node above it.
fn mark_match_above(blines: &mut Arena<BLine>, tag: u32, start: usize)
    requires
        tag == arena_tag(*old(blines)),
        start < forest(*old(blines)).len(),
    ensures
        arena_tag(*final(blines)) == arena_tag(*old(blines)),
        forest(*final(blines)) == with_match_above(forest(*old(blines)), tag, start as int),
{
    let ghost before = forest(*blines);
    let ghost d = start as int;
    let mut current = start;
    assert(forest(*blines) =~= marked_from(before, tag, d, current + 1)) by {
        assert forall|i: int| current + 1 <= i implies !is_ancestor_or_self(before, tag, i, d) by {
            if is_ancestor_or_self(before, tag, i, d) {
                lemma_ancestor_below(before, tag, i, d);
            }
        }
    }
    loop
        invariant_except_break
            is_ancestor_or_self(before, tag, current as int, d),
            forest(*blines) == marked_from(before, tag, d, current + 1),
        invariant
            tag == arena_tag(*blines),
            current <= start < before.len(),
            d == start,
            forest(*blines).len() == before.len(),
        ensures
            forest(*blines) == with_match_above(before, tag, d),
            tag == arena_tag(*blines),
        decreases current,
    {
        let ghost previous = forest(*blines);
        let node = arena_get_mut(blines, BId { arena_id: tag, index: current });
        node.has_match = true;
        proof {
            let now = forest(*blines);
            assert(now.len() == before.len());
            assert(now[current as int] == (BLineView {
                has_match: true,
                ..previous[current as int]
            }));
            assert forall|i: int| 0 <= i < now.len() && i != current implies now[i]
                == previous[i] by {}
            assert(now =~= marked_from(before, tag, d, current as int));
        }
        assert(parent_of(forest(*blines), tag, current as int) == parent_of(
            before,
            tag,
            current as int,
        ));
        match parent_position(blines, tag, current) {
            Some(parent) => {
                proof {
                    lemma_ancestor_step(before, tag, parent as int, current as int, d);
                    assert forall|i: int| parent < i < current implies !is_ancestor_or_self(
                        before,
                        tag,
                        i,
                        d,
                    ) by {
                        if is_ancestor_or_self(before, tag, i, d) {
                            lemma_ancestors_in_line(before, tag, i, current as int, d);
                            lemma_ancestor_below(before, tag, i, parent as int);
                        }
                    }
                    assert(forest(*blines) =~= marked_from(before, tag, d, parent + 1));
                }
                current = parent;
            },
            None => {
                proof {
                    assert forall|i: int| i < current implies !is_ancestor_or_self(
                        before,
                        tag,
                        i,
                        d,
                    ) by {
                        if is_ancestor_or_self(before, tag, i, d) {
                            lemma_ancestors_in_line(before, tag, i, current as int, d);
                        }
                    }
                    assert(forest(*blines) =~= with_match_above(before, tag, d));
                }
                break ;
            },
        }
    }
}

/// A tree stays a tree when the match flag is set on a node and on every
/// node above it.
proof fn lemma_with_match_above_well_formed(nodes: Seq<BLineView>, tag: u32, d: int)
    requires
        forall|i: int| 0 <= i < nodes.len() ==> node_wf(nodes, tag, i),
        forall|i: int| 0 <= i < nodes.len() && i != d ==> carries_match(nodes, tag, i) || (
        parent_of(nodes, tag, i) == Some(d)),
        0 <= d < nodes.len(),
    ensures
        well_formed(with_match_above(nodes, tag, d), tag),
{
    let after = with_match_above(nodes, tag, d);
    assert forall|i: int| 0 <= i < after.len() implies node_wf(after, tag, i) by {
        assert(node_wf(nodes, tag, i));
        assert(forall|j: int|
            0 <= j < after.len() ==> (is_child_of(after, j, i) <==> is_child_of(nodes, j, i)));
    }
    assert forall|i: int| 0 <= i < after.len() implies carries_match(after, tag, i) by {
        assert(node_wf(nodes, tag, i));
        assert(parent_of(after, tag, i) == parent_of(nodes, tag, i));
        if after[i].has_match && parent_of(nodes, tag, i) is Some {
            let parent = parent_of(nodes, tag, i)->0;
            if is_ancestor_or_self(nodes, tag, i, d) {
                lemma_ancestor_step(nodes, tag, parent, i, d);
            } else if parent == d {
                assert(is_ancestor_or_self(nodes, tag, d, d));
            } else {
                assert(carries_match(nodes, tag, i));
            }
        }
    }
}

/// A tree stays a tree when one of its nodes is given children.
pub proof fn lemma_expanded_well_formed(
    nodes: Seq<BLineView>,
    tag: u32,
    parent_id: BId,
    local_rules: Option<usize>,
    entries: Seq<ChildEntryView>,
)
    requires
        well_formed(nodes, tag),
        parent_id.arena_id == tag,
        parent_id.index < nodes.len(),
        nodes[parent_id.index as int].children is None,
        nodes[parent_id.index as int].depth < u16::MAX,
        listing(entries).len() > 0 ==> nodes.len() + listing(entries).len() - 1 <= usize::MAX,
    ensures
        well_formed(expanded(nodes, tag, parent_id, local_rules, entries), tag),
{
    let after = with_children(nodes, tag, parent_id, local_rules, entries);
    let kids = listing(entries);
    let order = listing_order(entries);
    let base = nodes.len() as int;
    let at = parent_id.index as int;
    let handles = handles_from(tag, base, kids.len());
    lemma_listing_order(entries);
    assert forall|i: int| 0 <= i < after.len() implies node_wf(after, tag, i) by {
        assert(forall|j: int| 0 <= j < base && j != at ==> after[j] == nodes[j]);
        assert(after[at].parent_id == nodes[at].parent_id);
        assert(forall|j: int|
            0 <= j < base ==> (is_child_of(after, j, i) <==> is_child_of(nodes, j, i)));
        assert(forall|j: int| base <= j < after.len() ==> is_child_of(after, j, at));
        assert(forall|k: int| 0 <= k < handles.len() ==> (#[trigger] handles[k]).index == base + k);
        if i < base {
            assert(node_wf(nodes, tag, i));
            assert forall|j: int| 0 <= j < after.len() && #[trigger] is_child_of(
                after,
                j,
                i,
            ) implies {
                &&& after[i].children matches Some(children)
                &&& exists|k: int| 0 <= k < children.len() && (#[trigger] children[k]).index == j
            } by {
                if j < base {
                    assert(is_child_of(nodes, j, i));
                    assert(i != at);
                    assert(after[i].children == nodes[i].children);
                } else {
                    assert(i == at);
                    assert(handles[j - base].index == j);
                }
            }
            if i == at {
                assert(after[i].children == Some(handles));
                assert forall|a: int, b: int| 0 <= a < b < handles.len() implies {
                    &&& (#[trigger] handles[a]).index < (#[trigger] handles[b]).index
                    &&& !text_lt(
                        after[handles[b].index as int].name,
                        after[handles[a].index as int].name,
                    )
                } by {
                    assert(precedes(entries, order[a], order[b]));
                    lemma_text_lt_irreflexive(entries[order[a]].name);
                    if text_lt(entries[order[a]].name, entries[order[b]].name) {
                        lemma_text_lt_asymmetric(entries[order[a]].name, entries[order[b]].name);
                    }
                }
            } else {
                if nodes[i].children is Some {
                    let children = nodes[i].children->0;
                    assert forall|k: int| 0 <= k < children.len() implies {
                        let child = #[trigger] children[k];
                        &&& child.arena_id == tag
                        &&& i < child.index < after.len()
                        &&& is_child_of(after, child.index as int, i)
                    } by {
                        assert(is_child_of(nodes, children[k].index as int, i));
                    }
                }
            }
        } else {
            assert forall|j: int| 0 <= j < after.len() implies !#[trigger] is_child_of(
                after,
                j,
                i,
            ) by {
                if j < base && is_child_of(after, j, i) {
                    assert(node_wf(nodes, tag, j));
                }
            }
        }
    }
    assert forall|i: int|
        0 <= i < after.len() && (i != at || !any_match(kids)) implies carries_match(after, tag, i)
        || (any_match(kids) && parent_of(after, tag, i) == Some(at)) by {
        if i < base {
            assert(carries_match(nodes, tag, i));
            assert(parent_of(after, tag, i) == parent_of(nodes, tag, i));
        } else {
            assert(after[i] == child_node(nodes[at], parent_id, local_rules, kids[i - base]));
            assert(parent_of(after, tag, i) == Some(at));
        }
    }
    if any_match(kids) {
        lemma_with_match_above_well_formed(after, tag, at);
    }
}

/// Gives the node at `parent_id` its children: one node for each entry
/// that no ignore rule excludes, allocated in the order of their names.
/// Nothing is done, and `false` returned, if the handle names no node of
/// the arena, or a node that may not be entered, has its children already
/// or lies at the greatest depth. `probe` is what the filesystem said of
/// the link at the node's path, as for `can_enter`; `local_rules` names
/// the rule set found in the directory itself, if there is one.
pub fn add_children(
    blines: &mut Arena<BLine>,
    parent_id: BId,
    probe: &LinkProbe,
    local_rules: Option<usize>,
    entries: &Vec<ChildEntry>,
) -> (done: bool)
    ensures
        arena_tag(*final(blines)) == arena_tag(*old(blines)),
        done == can_expand(forest(*old(blines)), arena_tag(*old(blines)), parent_id, *probe),
        !done ==> arena_nodes(*final(blines)) == arena_nodes(*old(blines)),
        done ==> forest(*final(blines)) == expanded(
            forest(*old(blines)),
            arena_tag(*old(blines)),
            parent_id,
            local_rules,
            entry_views(entries@),
        ),
        well_formed(forest(*old(blines)), arena_tag(*old(blines))) ==> well_formed(
            forest(*final(blines)),
            arena_tag(*final(blines)),
        ),
{
    let ghost before = forest(*blines);
    let tag = parent_id.arena_id;
    let ghost views = entry_views(entries@);
    let ghost kids = listing(views);
    let (depth, chain) = match arena_get(blines, parent_id) {
        Some(parent) => {
            if !parent.can_enter(probe) || parent.children.is_some() || parent.depth
                == u16::MAX {
                return false;
            }
            let chain = match local_rules {
                Some(file_id) => parent.git_ignore_chain.extended(file_id),
                None => parent.git_ignore_chain.duplicate(),
            };
            (parent.depth + 1, chain)
        },
        None => {
            return false;
        },
    };
    let ghost parent = before[parent_id.index as int];
    let order = sort_entries(entries);
    proof {
        lemma_listing_order(views);
    }
    let mut children: Vec<BId> = Vec::new();
    let mut matched = false;
    let mut k: usize = 0;
    while k < order.len()
        invariant
            k <= order.len(),
            matched == any_match(kids.take(k as int)),
            positions(order@) == listing_order(views),
            is_listing_order(views, views.len() as int, positions(order@)),
            views == entry_views(entries@),
            kids == listing(views),
            arena_tag(*blines) == tag,
            holds(*blines, parent_id),
            parent == before[parent_id.index as int],
            depth == parent.depth + 1,
            chain@ == child_chain(parent.git_ignore_chain, local_rules),
            forest(*blines) == before + Seq::new(
                k as nat,
                |j: int| child_node(parent, parent_id, local_rules, kids[j]),
            ),
            children@ == handles_from(tag, before.len() as int, k as nat),
            k > 0 ==> before.len() + k - 1 <= usize::MAX,
        decreases order.len() - k,
    {
        assert(positions(order@)[k as int] == order[k as int]);
        assert(survives(views, positions(order@)[k as int]));
        let entry = &entries[order[k]];
        assert(entry@ == kids[k as int]);
        let has_error = match entry.file_type {
            Some(EntryType::Symlink) => match &entry.link {
                Some(probe) => probe.type_found(&entry.path).is_none(),
                None => false,
            },
            Some(_) => false,
            None => true,
        };
        let node = BLine {
            parent_id: Some(parent_id),
            path: entry.path.clone(),
            depth,
            name: entry.name.clone(),
            file_type: match entry.file_type {
                Some(file_type) => file_type,
                None => EntryType::File,
            },
            children: None,
            next_child_idx: 0,
            has_error,
            has_match: entry.has_match,
            direct_match: entry.direct_match,
            score: entry.score,
            nb_kept_children: 0,
            git_ignore_chain: chain.duplicate(),
            special_handling: entry.special_handling,
        };
        let ghost grown = forest(*blines);
        let id = arena_alloc(blines, node);
        children.push(id);
        if entry.has_match {
            matched = true;
        }
        k += 1;
        proof {
            let seen = kids.take(k as int);
            assert(seen[k - 1] == kids[k - 1]);
            if any_match(kids.take(k - 1)) {
                let j = choose|j: int|
                    0 <= j < k - 1 && (#[trigger] kids.take(k - 1)[j]).has_match;
                assert(seen[j].has_match);
            }
            if any_match(seen) && !kids[k - 1].has_match {
                let j = choose|j: int| 0 <= j < k && (#[trigger] seen[j]).has_match;
                assert(kids.take(k - 1)[j].has_match);
            }
            assert(node@ == child_node(parent, parent_id, local_rules, kids[k - 1]));
            assert(forest(*blines) =~= grown.push(node@));
            assert(forest(*blines) =~= before + Seq::new(
                k as nat,
                |j: int| child_node(parent, parent_id, local_rules, kids[j]),
            ));
            assert(children@ =~= handles_from(tag, before.len() as int, k as nat));
        }
    }
    let ghost grown = forest(*blines);
    let node = arena_get_mut(blines, parent_id);
    node.children = Some(children);
    proof {
        let at = parent_id.index as int;
        let after = forest(*blines);
        assert(kids.len() == order.len());
        assert(grown[at] == parent);
        assert(after.len() == grown.len());
        assert(after[at] == (BLineView { children: Some(children@), ..parent }));
        assert forall|j: int| 0 <= j < after.len() && j != at implies after[j] == grown[j] by {}
        assert(after =~= with_children(before, tag, parent_id, local_rules, views));
        assert(kids.take(k as int) =~= kids);
    }
    if matched {
        mark_match_above(blines, tag, parent_id.index);
    }
    proof {
        if well_formed(before, tag) {
            lemma_expanded_well_formed(before, tag, parent_id, local_rules, views);
        }
    }
    true
}

/// The node whose turn it is to be explored, for a build that takes the
/// nodes in the order of their allocation and has dealt with those before
/// position `cursor`: the node at `cursor`, as long as there is one and the
/// store holds fewer than `max_nodes` nodes. Beyond that soft cap the
/// exploration ends; what is there is kept.
pub open spec fn next_in_turn(
    nodes: Seq<BLineView>,
    tag: u32,
    cursor: usize,
    max_nodes: usize,
) -> Option<BId> {
    if cursor < nodes.len() && nodes.len() < max_nodes {
        Some(BId { arena_id: tag, index: cursor })
    } else {
        None
    }
}

/// Tells which node is to be explored next, if the exploration goes on.
pub fn next_to_expand(blines: &Arena<BLine>, cursor: usize, max_nodes: usize) -> (next: Option<BId>)
    ensures
        next == next_in_turn(forest(*blines), arena_tag(*blines), cursor, max_nodes),
        next matches Some(id) ==> holds(*blines, id),
{
    let count = arena_len(blines);
    if cursor < count && count < max_nodes {
        Some(BId { arena_id: arena_own_tag(blines), index: cursor })
    } else {
        None
    }
}

/// Hands out the next child of the node at `parent_id` and moves the
/// node's cursor past it. There is none if the handle names no node of
/// the arena, or a node whose children are not listed or are used up.
pub fn next_child(blines: &mut Arena<BLine>, parent_id: BId) -> (child: Option<BId>)
    ensures
        arena_tag(*final(blines)) == arena_tag(*old(blines)),
        child == pending_child(forest(*old(blines)), arena_tag(*old(blines)), parent_id),
        child is None ==> arena_nodes(*final(blines)) == arena_nodes(*old(blines)),
        child is Some ==> forest(*final(blines)) == forest(*old(blines)).update(
            parent_id.index as int,
            BLineView {
                next_child_idx: (forest(*old(blines))[parent_id.index as int].next_child_idx
                    + 1) as usize,
                ..forest(*old(blines))[parent_id.index as int]
            },
        ),
        well_formed(forest(*old(blines)), arena_tag(*old(blines))) ==> well_formed(
            forest(*final(blines)),
            arena_tag(*final(blines)),
        ),
{
    let ghost before = forest(*blines);
    let ghost tag = arena_tag(*blines);
    let found = match arena_get(blines, parent_id) {
        Some(parent) => match &parent.children {
            Some(children) => {
                if parent.next_child_idx < children.len() {
                    Some(children[parent.next_child_idx])
                } else {
                    None
                }
            },
            None => None,
        },
        None => None,
    };
    if found.is_some() {
        let node = arena_get_mut(blines, parent_id);
        node.next_child_idx = node.next_child_idx + 1;
        proof {
            let at = parent_id.index as int;
            let after = forest(*blines);
            assert(after =~= before.update(
                at,
                BLineView {
                    next_child_idx: (before[at].next_child_idx + 1) as usize,
                    ..before[at]
                },
            ));
            if well_formed(before, tag) {
                assert forall|i: int| 0 <= i < after.len() implies node_wf(after, tag, i) by {
                    assert(node_wf(before, tag, i));
                    assert(forall|j: int|
                        0 <= j < after.len() ==> (is_child_of(after, j, i) <==> is_child_of(
                            before,
                            j,
                            i,
                        )));
                }
                assert forall|i: int| 0 <= i < after.len() implies carries_match(
                    after,
                    tag,
                    i,
                ) by {
                    assert(carries_match(before, tag, i));
                }
            }
        }
    }
    found
}

} // verus!
