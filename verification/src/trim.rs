//! Trimming: which nodes of a fully explored tree are kept for display.
//!
//! Every node that matches, or has a match below it, is kept, and with it
//! the chain of its ancestors. What is left of the budget goes to further
//! nodes, one at a time: of the nodes not yet kept whose parent is kept, the
//! one with the highest score; among equal scores the shallowest; among
//! those the one allocated first, which among siblings is the one listed
//! first.

use crate::bline::{BId, BLine, BLineView};
use crate::options::TreeOptions;
use crate::shape::{
    carries_match, is_ancestor_or_self, is_child_of, lemma_ancestor_step, node_wf, parent_of,
    well_formed,
};
use crate::store::{
    arena_get, arena_get_mut, arena_len, arena_own_tag, arena_tag, forest, holds, parent_position,
};
use id_arena::Arena;
use vstd::prelude::*;

verus! {

/// Whether the node's flags say that it matches or has a match below it.
pub open spec fn is_match(node: BLineView) -> bool {
    node.has_match || node.direct_match
}

/// Whether the node at `i` has to be kept whatever the budget: it is, or
/// lies above, a node that matches.
pub open spec fn must_keep(nodes: Seq<BLineView>, tag: u32, i: int) -> bool {
    exists|d: int|
        0 <= d < nodes.len() && is_match(#[trigger] nodes[d]) && is_ancestor_or_self(
            nodes,
            tag,
            i,
            d,
        )
}

/// The nodes that have to be kept, one flag for each position.
pub open spec fn mandatory(nodes: Seq<BLineView>, tag: u32) -> Seq<bool> {
    Seq::new(nodes.len(), |i: int| must_keep(nodes, tag, i))
}

/// How many flags are set.
pub open spec fn count_true(flags: Seq<bool>) -> nat
    decreases flags.len(),
{
    if flags.len() == 0 {
        0
    } else {
        count_true(flags.drop_last()) + if flags.last() {
            1nat
        } else {
            0nat
        }
    }
}

/// Whether the node at `i` may be kept next: it is not kept, and its
/// parent, if it has one, is.
pub open spec fn is_candidate(nodes: Seq<BLineView>, tag: u32, kept: Seq<bool>, i: int) -> bool {
    &&& 0 <= i < nodes.len()
    &&& !kept[i]
    &&& parent_of(nodes, tag, i) matches Some(parent) ==> kept[parent]
}

/// Whether the node at `a` is taken before the node at `b`: for its higher
/// score, else for its lesser depth, else for its earlier position.
pub open spec fn better(nodes: Seq<BLineView>, a: int, b: int) -> bool {
    ||| nodes[a].score > nodes[b].score
    ||| nodes[a].score == nodes[b].score && nodes[a].depth < nodes[b].depth
    ||| nodes[a].score == nodes[b].score && nodes[a].depth == nodes[b].depth && a < b
}

/// Whether the node at `i` is the one to keep next.
pub open spec fn is_best(nodes: Seq<BLineView>, tag: u32, kept: Seq<bool>, i: int) -> bool {
    &&& is_candidate(nodes, tag, kept, i)
    &&& forall|j: int|
        #[trigger] is_candidate(nodes, tag, kept, j) && j != i ==> better(nodes, i, j)
}

/// Whether any node may be kept next.
pub open spec fn has_candidate(nodes: Seq<BLineView>, tag: u32, kept: Seq<bool>) -> bool {
    exists|i: int| is_candidate(nodes, tag, kept, i)
}

/// The position of the node to keep next.
pub open spec fn best(nodes: Seq<BLineView>, tag: u32, kept: Seq<bool>) -> int {
    choose|i: int| is_best(nodes, tag, kept, i)
}

/// The kept set after up to `room` more nodes were taken, best first.
pub open spec fn fill(nodes: Seq<BLineView>, tag: u32, kept: Seq<bool>, room: nat) -> Seq<bool>
    decreases room,
{
    if room == 0 || !has_candidate(nodes, tag, kept) {
        kept
    } else {
        fill(nodes, tag, kept.update(best(nodes, tag, kept), true), (room - 1) as nat)
    }
}

/// The kept set for a budget of `budget` lines: the nodes that have to be
/// kept, and as many more as the budget has room for.
pub open spec fn trimmed(nodes: Seq<BLineView>, tag: u32, budget: nat) -> Seq<bool> {
    let needed = mandatory(nodes, tag);
    if count_true(needed) >= budget {
        needed
    } else {
        fill(nodes, tag, needed, (budget - count_true(needed)) as nat)
    }
}

/// Whether a handle names a kept node.
pub open spec fn is_kept(kept: Seq<bool>, tag: u32, id: BId) -> bool {
    id.arena_id == tag && id.index < kept.len() && kept[id.index as int]
}

/// How many of the children are kept.
pub open spec fn kept_among(kept: Seq<bool>, tag: u32, children: Seq<BId>) -> nat
    decreases children.len(),
{
    if children.len() == 0 {
        0
    } else {
        kept_among(kept, tag, children.drop_last()) + if is_kept(kept, tag, children.last()) {
            1nat
        } else {
            0nat
        }
    }
}

/// A number of children as the counter of a node holds it: the number
/// itself, or the greatest that the counter can hold.
pub open spec fn retained_count(children: nat) -> int {
    if children <= i32::MAX {
        children as int
    } else {
        i32::MAX as int
    }
}

/// The retained-children count of a node: how many of its children are
/// kept.
pub open spec fn retained(node: BLineView, kept: Seq<bool>, tag: u32) -> int {
    match node.children {
        Some(children) => retained_count(kept_among(kept, tag, children)),
        None => 0,
    }
}

/// The nodes with their retained-children counts set for a kept set.
pub open spec fn with_retained(nodes: Seq<BLineView>, tag: u32, kept: Seq<bool>) -> Seq<BLineView> {
    Seq::new(
        nodes.len(),
        |i: int| BLineView { nb_kept_children: retained(nodes[i], kept, tag) as i32, ..nodes[i] },
    )
}

/// A proper ancestor of a node is the parent of a node on the chain.
proof fn lemma_ancestor_child(nodes: Seq<BLineView>, tag: u32, x: int, d: int) -> (c: int)
    requires
        x != d,
        is_ancestor_or_self(nodes, tag, x, d),
    ensures
        x < c <= d,
        parent_of(nodes, tag, c) == Some(x),
        is_ancestor_or_self(nodes, tag, c, d),
    decreases d,
{
    let parent = parent_of(nodes, tag, d)->0;
    if parent == x {
        d
    } else {
        lemma_ancestor_child(nodes, tag, x, parent)
    }
}

/// A node has to be kept exactly if it matches or is the parent of a node
/// that has to be kept.
pub proof fn lemma_must_keep_unfold(nodes: Seq<BLineView>, tag: u32, x: int)
    requires
        0 <= x < nodes.len(),
    ensures
        must_keep(nodes, tag, x) <==> is_match(nodes[x]) || exists|c: int|
            x < c < nodes.len() && parent_of(nodes, tag, c) == Some(x) && #[trigger] must_keep(
                nodes,
                tag,
                c,
            ),
{
    if must_keep(nodes, tag, x) {
        let d = choose|d: int|
            0 <= d < nodes.len() && is_match(#[trigger] nodes[d]) && is_ancestor_or_self(
                nodes,
                tag,
                x,
                d,
            );
        if x != d {
            let c = lemma_ancestor_child(nodes, tag, x, d);
            assert(must_keep(nodes, tag, c));
        }
    }
    if is_match(nodes[x]) {
        assert(is_ancestor_or_self(nodes, tag, x, x));
    }
    if exists|c: int|
        x < c < nodes.len() && parent_of(nodes, tag, c) == Some(x) && #[trigger] must_keep(
            nodes,
            tag,
            c,
        ) {
        let c = choose|c: int|
            x < c < nodes.len() && parent_of(nodes, tag, c) == Some(x) && #[trigger] must_keep(
                nodes,
                tag,
                c,
            );
        let d = choose|d: int|
            0 <= d < nodes.len() && is_match(#[trigger] nodes[d]) && is_ancestor_or_self(
                nodes,
                tag,
                c,
                d,
            );
        lemma_ancestor_step(nodes, tag, x, c, d);
    }
}

/// Setting one more flag raises the count by one.
proof fn lemma_count_set(flags: Seq<bool>, i: int)
    requires
        0 <= i < flags.len(),
        !flags[i],
    ensures
        count_true(flags.update(i, true)) == count_true(flags) + 1,
    decreases flags.len(),
{
    let set = flags.update(i, true);
    if i == flags.len() - 1 {
        assert(set.drop_last() =~= flags.drop_last());
    } else {
        assert(set.drop_last() =~= flags.drop_last().update(i, true));
        lemma_count_set(flags.drop_last(), i);
    }
}

/// No more flags are set than there are.
proof fn lemma_count_bound(flags: Seq<bool>)
    ensures
        count_true(flags) <= flags.len(),
    decreases flags.len(),
{
    if flags.len() > 0 {
        lemma_count_bound(flags.drop_last());
    }
}

/// Where a node may be kept next, one node is the one to keep, and only
/// one.
proof fn lemma_best(nodes: Seq<BLineView>, tag: u32, kept: Seq<bool>, i: int)
    requires
        is_best(nodes, tag, kept, i),
    ensures
        has_candidate(nodes, tag, kept),
        best(nodes, tag, kept) == i,
{
    let other = best(nodes, tag, kept);
    assert(is_best(nodes, tag, kept, other));
    if other != i {
        assert(better(nodes, i, other));
        assert(better(nodes, other, i));
    }
}

/// Among the candidates below a position there is, if any, a best one.
proof fn lemma_best_exists(nodes: Seq<BLineView>, tag: u32, kept: Seq<bool>, upto: int) -> (b: int)
    requires
        0 <= upto <= nodes.len(),
    ensures
        b == -1 ==> forall|j: int| 0 <= j < upto ==> !is_candidate(nodes, tag, kept, j),
        b != -1 ==> ({
            &&& 0 <= b < upto
            &&& is_candidate(nodes, tag, kept, b)
            &&& forall|j: int|
                0 <= j < upto && #[trigger] is_candidate(nodes, tag, kept, j) && j != b ==> better(
                    nodes,
                    b,
                    j,
                )
        }),
    decreases upto,
{
    if upto == 0 {
        -1
    } else {
        let last = upto - 1;
        let before = lemma_best_exists(nodes, tag, kept, last);
        if !is_candidate(nodes, tag, kept, last) {
            before
        } else if before == -1 || better(nodes, last, before) {
            last
        } else {
            before
        }
    }
}

/// Where a node may be kept next, one node is the one to keep.
proof fn lemma_has_best(nodes: Seq<BLineView>, tag: u32, kept: Seq<bool>)
    requires
        has_candidate(nodes, tag, kept),
    ensures
        is_best(nodes, tag, kept, best(nodes, tag, kept)),
{
    let b = lemma_best_exists(nodes, tag, kept, nodes.len() as int);
    assert(is_best(nodes, tag, kept, b));
}

/// Whether a kept set holds the parent of each of its nodes.
pub open spec fn is_connected(nodes: Seq<BLineView>, tag: u32, kept: Seq<bool>) -> bool {
    forall|i: int|
        0 <= i < nodes.len() && #[trigger] kept[i] ==> (parent_of(nodes, tag, i) matches Some(
            parent,
        ) ==> kept[parent])
}

/// Filling keeps what was kept, adds no more than there is room for, and
/// leaves a connected set connected.
proof fn lemma_fill(nodes: Seq<BLineView>, tag: u32, kept: Seq<bool>, room: nat)
    requires
        kept.len() == nodes.len(),
    ensures
        fill(nodes, tag, kept, room).len() == nodes.len(),
        forall|i: int| 0 <= i < nodes.len() && kept[i] ==> fill(nodes, tag, kept, room)[i],
        count_true(fill(nodes, tag, kept, room)) <= count_true(kept) + room,
        is_connected(nodes, tag, kept) ==> is_connected(nodes, tag, fill(nodes, tag, kept, room)),
    decreases room,
{
    if room > 0 && has_candidate(nodes, tag, kept) {
        lemma_has_best(nodes, tag, kept);
        let b = best(nodes, tag, kept);
        let next = kept.update(b, true);
        lemma_count_set(kept, b);
        lemma_fill(nodes, tag, next, (room - 1) as nat);
        assert forall|i: int| 0 <= i < nodes.len() && kept[i] implies fill(
            nodes,
            tag,
            kept,
            room,
        )[i] by {
            assert(next[i]);
        }
        if is_connected(nodes, tag, kept) {
            assert forall|i: int| 0 <= i < nodes.len() && #[trigger] next[i] implies (parent_of(
                nodes,
                tag,
                i,
            ) matches Some(parent) ==> next[parent]) by {
                if i != b {
                    assert(kept[i]);
                }
            }
        }
    }
}

/// Whatever the budget, the kept set has one flag for each node and holds
/// every node that matches.
pub proof fn lemma_trimmed_holds_matches(nodes: Seq<BLineView>, tag: u32, budget: nat)
    ensures
        trimmed(nodes, tag, budget).len() == nodes.len(),
        forall|i: int|
            0 <= i < nodes.len() && is_match(#[trigger] nodes[i]) ==> trimmed(
                nodes,
                tag,
                budget,
            )[i],
{
    let needed = mandatory(nodes, tag);
    lemma_fill(nodes, tag, needed, (budget - count_true(needed)) as nat);
    assert forall|i: int| 0 <= i < nodes.len() && is_match(#[trigger] nodes[i]) implies trimmed(
        nodes,
        tag,
        budget,
    )[i] by {
        assert(is_ancestor_or_self(nodes, tag, i, i));
        assert(needed[i]);
    }
}

/// The nodes that have to be kept hold the parent of each of them.
proof fn lemma_mandatory_connected(nodes: Seq<BLineView>, tag: u32)
    ensures
        is_connected(nodes, tag, mandatory(nodes, tag)),
{
    let needed = mandatory(nodes, tag);
    assert forall|i: int| 0 <= i < nodes.len() && #[trigger] needed[i] implies (parent_of(
        nodes,
        tag,
        i,
    ) matches Some(parent) ==> needed[parent]) by {
        if parent_of(nodes, tag, i) is Some {
            let parent = parent_of(nodes, tag, i)->0;
            assert(must_keep(nodes, tag, i));
            lemma_must_keep_unfold(nodes, tag, parent);
        }
    }
}

/// Whatever the budget, the kept set holds, with each node, the whole
/// chain of its ancestors: what is shown is a connected tree.
pub proof fn lemma_trimmed_holds_ancestors(
    nodes: Seq<BLineView>,
    tag: u32,
    budget: nat,
    a: int,
    d: int,
)
    requires
        0 <= d < nodes.len(),
        trimmed(nodes, tag, budget)[d],
        is_ancestor_or_self(nodes, tag, a, d),
    ensures
        0 <= a <= d,
        trimmed(nodes, tag, budget)[a],
    decreases d,
{
    let needed = mandatory(nodes, tag);
    lemma_mandatory_connected(nodes, tag);
    lemma_fill(nodes, tag, needed, (budget - count_true(needed)) as nat);
    if a != d {
        let parent = parent_of(nodes, tag, d)->0;
        assert(trimmed(nodes, tag, budget)[parent]);
        lemma_trimmed_holds_ancestors(nodes, tag, budget, a, parent);
    }
}

/// The first flag that is not set, where not all are.
proof fn lemma_first_unset(flags: Seq<bool>) -> (i: int)
    requires
        count_true(flags) < flags.len(),
    ensures
        0 <= i < flags.len(),
        !flags[i],
        forall|j: int| 0 <= j < i ==> flags[j],
    decreases flags.len(),
{
    let shorter = flags.drop_last();
    if count_true(shorter) < shorter.len() {
        let i = lemma_first_unset(shorter);
        assert(forall|j: int| 0 <= j <= i ==> shorter[j] == flags[j]);
        i
    } else {
        lemma_count_bound(shorter);
        lemma_all_set(shorter);
        assert(forall|j: int| 0 <= j < shorter.len() ==> shorter[j] == flags[j]);
        flags.len() - 1
    }
}

/// Where as many flags are set as there are, each is.
proof fn lemma_all_set(flags: Seq<bool>)
    requires
        count_true(flags) >= flags.len(),
    ensures
        forall|j: int| 0 <= j < flags.len() ==> flags[j],
    decreases flags.len(),
{
    if flags.len() > 0 {
        let shorter = flags.drop_last();
        lemma_count_bound(shorter);
        lemma_all_set(shorter);
        assert(forall|j: int| 0 <= j < shorter.len() ==> shorter[j] == flags[j]);
    }
}

/// Filling a connected set uses the room it is given, as far as there are
/// nodes left to keep.
proof fn lemma_fill_count(nodes: Seq<BLineView>, tag: u32, kept: Seq<bool>, room: nat)
    requires
        kept.len() == nodes.len(),
        is_connected(nodes, tag, kept),
    ensures
        count_true(fill(nodes, tag, kept, room)) == (if count_true(kept) + room <= nodes.len() {
            count_true(kept) + room
        } else {
            nodes.len()
        }),
    decreases room,
{
    lemma_count_bound(kept);
    if room > 0 {
        if has_candidate(nodes, tag, kept) {
            lemma_has_best(nodes, tag, kept);
            let b = best(nodes, tag, kept);
            let next = kept.update(b, true);
            lemma_count_set(kept, b);
            assert forall|i: int| 0 <= i < nodes.len() && #[trigger] next[i] implies (parent_of(
                nodes,
                tag,
                i,
            ) matches Some(parent) ==> next[parent]) by {
                if i != b {
                    assert(kept[i]);
                }
            }
            lemma_fill_count(nodes, tag, next, (room - 1) as nat);
        } else if count_true(kept) < kept.len() {
            let i = lemma_first_unset(kept);
            assert(is_candidate(nodes, tag, kept, i));
        }
    }
}

/// The kept set holds as many nodes as the budget allows: the nodes that
/// have to be kept if they alone reach the budget, else as many nodes as
/// the budget says, or all of them where there are fewer.
pub proof fn lemma_trimmed_count(nodes: Seq<BLineView>, tag: u32, budget: nat)
    ensures
        count_true(trimmed(nodes, tag, budget)) == (if count_true(mandatory(nodes, tag))
            >= budget {
            count_true(mandatory(nodes, tag))
        } else if budget <= nodes.len() {
            budget
        } else {
            nodes.len()
        }),
{
    let needed = mandatory(nodes, tag);
    lemma_mandatory_connected(nodes, tag);
    if count_true(needed) < budget {
        lemma_fill_count(nodes, tag, needed, (budget - count_true(needed)) as nat);
    }
}

/// Where the nodes that have to be kept fit the budget, the kept set does:
/// it never holds more nodes than the greater of the two.
pub proof fn lemma_trimmed_within_budget(nodes: Seq<BLineView>, tag: u32, budget: nat)
    ensures
        count_true(mandatory(nodes, tag)) <= budget ==> count_true(trimmed(nodes, tag, budget))
            <= budget,
        count_true(mandatory(nodes, tag)) >= budget ==> trimmed(nodes, tag, budget) == mandatory(
            nodes,
            tag,
        ),
{
    let needed = mandatory(nodes, tag);
    lemma_fill(nodes, tag, needed, (budget - count_true(needed)) as nat);
}

/// After trimming, the retained-children count of a node whose children
/// are listed is the number of its children in the kept set, as long as
/// the counter can hold that number; the count of any other node is zero.
pub proof fn lemma_retained_counts_kept_children(
    nodes: Seq<BLineView>,
    tag: u32,
    kept: Seq<bool>,
    i: int,
)
    requires
        0 <= i < nodes.len(),
    ensures
        nodes[i].children matches Some(children) ==> ({
            &&& kept_among(kept, tag, children) <= children.len()
            &&& kept_among(kept, tag, children) <= i32::MAX ==> with_retained(
                nodes,
                tag,
                kept,
            )[i].nb_kept_children == kept_among(kept, tag, children)
        }),
        nodes[i].children is None ==> with_retained(nodes, tag, kept)[i].nb_kept_children == 0,
{
    if nodes[i].children is Some {
        lemma_kept_among_bound(kept, tag, nodes[i].children->0);
    }
}

/// No more children are kept than there are.
proof fn lemma_kept_among_bound(kept: Seq<bool>, tag: u32, children: Seq<BId>)
    ensures
        kept_among(kept, tag, children) <= children.len(),
    decreases children.len(),
{
    if children.len() > 0 {
        lemma_kept_among_bound(kept, tag, children.drop_last());
    }
}

/// One flag for each node: whether it matches.
fn match_flags(blines: &Arena<BLine>, tag: u32) -> (flags: Vec<bool>)
    requires
        tag == arena_tag(*blines),
    ensures
        flags@ == Seq::new(forest(*blines).len(), |i: int| is_match(forest(*blines)[i])),
{
    let n = arena_len(blines);
    let mut flags: Vec<bool> = Vec::new();
    let mut i: usize = 0;
    while i < n
        invariant
            i <= n,
            n == forest(*blines).len(),
            tag == arena_tag(*blines),
            flags@ == Seq::new(i as nat, |j: int| is_match(forest(*blines)[j])),
        decreases n - i,
    {
        let flag = match arena_get(blines, BId { arena_id: tag, index: i }) {
            Some(node) => node.has_match || node.direct_match,
            None => false,
        };
        flags.push(flag);
        i += 1;
        assert(flags@ =~= Seq::new(i as nat, |j: int| is_match(forest(*blines)[j])));
    }
    flags
}

/// What holds of the flags while the matches are carried upwards, once
/// the nodes behind position `done` have handed theirs on.
spec fn carried_above(nodes: Seq<BLineView>, tag: u32, kept: Seq<bool>, done: int) -> bool {
    &&& kept.len() == nodes.len()
    &&& forall|x: int|
        0 <= x < nodes.len() ==> (#[trigger] kept[x] <==> is_match(nodes[x]) || exists|c: int|
            done < c < nodes.len() && parent_of(nodes, tag, c) == Some(x) && #[trigger] must_keep(
                nodes,
                tag,
                c,
            ))
}

/// Sets the flag of every node above a flagged one.
fn carry_upwards(blines: &Arena<BLine>, tag: u32, kept: &mut Vec<bool>)
    requires
        tag == arena_tag(*blines),
        old(kept)@ == Seq::new(forest(*blines).len(), |i: int| is_match(forest(*blines)[i])),
    ensures
        final(kept)@ == mandatory(forest(*blines), tag),
{
    let ghost nodes = forest(*blines);
    let mut i: usize = kept.len();
    assert(carried_above(nodes, tag, kept@, i - 1));
    while i > 0
        invariant
            i <= kept.len(),
            tag == arena_tag(*blines),
            nodes == forest(*blines),
            carried_above(nodes, tag, kept@, i - 1),
        decreases i,
    {
        i -= 1;
        let ghost before = kept@;
        proof {
            lemma_must_keep_unfold(nodes, tag, i as int);
        }
        assert(before[i as int] == must_keep(nodes, tag, i as int));
        if kept[i] {
            if let Some(parent) = parent_position(blines, tag, i) {
                kept.set(parent, true);
            }
        }
        proof {
            let after = kept@;
            let at = i as int;
            assert forall|x: int| 0 <= x < nodes.len() implies (#[trigger] after[x] <==> is_match(
                nodes[x],
            ) || exists|c: int|
                at - 1 < c < nodes.len() && parent_of(nodes, tag, c) == Some(x)
                    && #[trigger] must_keep(nodes, tag, c)) by {
                let wide = exists|c: int|
                    at - 1 < c < nodes.len() && parent_of(nodes, tag, c) == Some(x)
                        && #[trigger] must_keep(nodes, tag, c);
                let narrow = exists|c: int|
                    at < c < nodes.len() && parent_of(nodes, tag, c) == Some(x)
                        && #[trigger] must_keep(nodes, tag, c);
                assert(before[x] <==> is_match(nodes[x]) || narrow);
                if before[at] && parent_of(nodes, tag, at) == Some(x) {
                    assert(must_keep(nodes, tag, at));
                    assert(wide);
                    assert(after[x]);
                } else {
                    assert(after[x] == before[x]);
                    if wide {
                        let c = choose|c: int|
                            at - 1 < c < nodes.len() && parent_of(nodes, tag, c) == Some(x)
                                && #[trigger] must_keep(nodes, tag, c);
                        assert(c != at);
                        assert(narrow);
                    }
                }
            }
        }
    }
    proof {
        assert forall|x: int| 0 <= x < nodes.len() implies kept@[x] == must_keep(
            nodes,
            tag,
            x,
        ) by {
            lemma_must_keep_unfold(nodes, tag, x);
        }
        assert(kept@ =~= mandatory(nodes, tag));
    }
}

/// Counts the flags that are set.
fn count_flags(flags: &Vec<bool>) -> (count: usize)
    ensures
        count == count_true(flags@),
{
    let mut count: usize = 0;
    let mut i: usize = 0;
    while i < flags.len()
        invariant
            i <= flags.len(),
            count == count_true(flags@.take(i as int)),
            count <= i,
        decreases flags.len() - i,
    {
        assert(flags@.take(i + 1).drop_last() =~= flags@.take(i as int));
        if flags[i] {
            count += 1;
        }
        i += 1;
    }
    assert(flags@.take(i as int) =~= flags@);
    count
}

/// Finds the node to keep next, if any node may be kept.
fn find_best(blines: &Arena<BLine>, tag: u32, kept: &Vec<bool>) -> (found: Option<usize>)
    requires
        tag == arena_tag(*blines),
        kept@.len() == forest(*blines).len(),
    ensures
        (match found {
            Some(b) => is_best(forest(*blines), tag, kept@, b as int),
            None => !has_candidate(forest(*blines), tag, kept@),
        }),
{
    let ghost nodes = forest(*blines);
    let n = kept.len();
    let mut found: Option<usize> = None;
    let mut found_score: i32 = 0;
    let mut found_depth: u16 = 0;
    let mut i: usize = 0;
    while i < n
        invariant
            i <= n,
            n == kept@.len(),
            n == nodes.len(),
            tag == arena_tag(*blines),
            nodes == forest(*blines),
            match found {
                Some(b) => {
                    &&& b < i
                    &&& is_candidate(nodes, tag, kept@, b as int)
                    &&& found_score == nodes[b as int].score
                    &&& found_depth == nodes[b as int].depth
                    &&& forall|j: int|
                        0 <= j < i && #[trigger] is_candidate(nodes, tag, kept@, j) && j != b
                            ==> better(nodes, b as int, j)
                },
                None => forall|j: int| 0 <= j < i ==> !is_candidate(nodes, tag, kept@, j),
            },
        decreases n - i,
    {
        if !kept[i] {
            let parent_kept = match parent_position(blines, tag, i) {
                Some(parent) => kept[parent],
                None => true,
            };
            if parent_kept {
                assert(is_candidate(nodes, tag, kept@, i as int));
                match arena_get(blines, BId { arena_id: tag, index: i }) {
                    Some(node) => {
                        let wins = match found {
                            Some(_) => node.score > found_score || (node.score == found_score
                                && node.depth < found_depth),
                            None => true,
                        };
                        if wins {
                            found = Some(i);
                            found_score = node.score;
                            found_depth = node.depth;
                        }
                    },
                    None => {},
                }
            }
        }
        i += 1;
    }
    found
}

/// Counts the children that are kept, as far as the counter can hold it.
fn count_kept_children(children: &Vec<BId>, kept: &Vec<bool>, tag: u32) -> (count: i32)
    ensures
        count == retained_count(kept_among(kept@, tag, children@)),
{
    let mut count: i32 = 0;
    let mut k: usize = 0;
    while k < children.len()
        invariant
            k <= children.len(),
            count == retained_count(kept_among(kept@, tag, children@.take(k as int))),
        decreases children.len() - k,
    {
        assert(children@.take(k + 1).drop_last() =~= children@.take(k as int));
        let child = children[k];
        if child.arena_id == tag && child.index < kept.len() && kept[child.index] {
            if count < i32::MAX {
                count += 1;
            }
        }
        k += 1;
    }
    assert(children@.take(k as int) =~= children@);
    count
}

/// Sets the retained-children count of every node for a kept set.
fn set_retained(blines: &mut Arena<BLine>, tag: u32, kept: &Vec<bool>)
    requires
        tag == arena_tag(*old(blines)),
    ensures
        arena_tag(*final(blines)) == arena_tag(*old(blines)),
        forest(*final(blines)) == with_retained(forest(*old(blines)), tag, kept@),
{
    let ghost before = forest(*blines);
    let n = arena_len(blines);
    let mut i: usize = 0;
    while i < n
        invariant
            i <= n,
            n == before.len(),
            tag == arena_tag(*blines),
            forest(*blines).len() == n,
            forall|x: int|
                0 <= x < i ==> #[trigger] forest(*blines)[x] == with_retained(
                    before,
                    tag,
                    kept@,
                )[x],
            forall|x: int| i <= x < n ==> #[trigger] forest(*blines)[x] == before[x],
        decreases n - i,
    {
        let id = BId { arena_id: tag, index: i };
        let count = match arena_get(blines, id) {
            Some(node) => match &node.children {
                Some(children) => count_kept_children(children, kept, tag),
                None => 0,
            },
            None => 0,
        };
        let ghost previous = forest(*blines);
        assert(holds(*blines, id));
        assert(previous[i as int] == before[i as int]);
        assert(count == retained(previous[i as int], kept@, tag));
        let node = arena_get_mut(blines, id);
        node.nb_kept_children = count;
        proof {
            let now = forest(*blines);
            assert(now.len() == n);
            assert(now[i as int] == with_retained(before, tag, kept@)[i as int]);
            assert forall|x: int| 0 <= x < n && x != i implies now[x] == previous[x] by {}
        }
        i += 1;
    }
    assert(forest(*blines) =~= with_retained(before, tag, kept@));
}

/// A tree stays a tree when the retained-children counts are set.
pub proof fn lemma_with_retained_well_formed(nodes: Seq<BLineView>, tag: u32, kept: Seq<bool>)
    requires
        well_formed(nodes, tag),
    ensures
        well_formed(with_retained(nodes, tag, kept), tag),
{
    let after = with_retained(nodes, tag, kept);
    assert forall|i: int| 0 <= i < after.len() implies node_wf(after, tag, i) by {
        assert(node_wf(nodes, tag, i));
        assert(forall|j: int|
            0 <= j < after.len() ==> (is_child_of(after, j, i) <==> is_child_of(nodes, j, i)));
    }
    assert forall|i: int| 0 <= i < after.len() implies carries_match(after, tag, i) by {
        assert(carries_match(nodes, tag, i));
    }
}

/// Trims the tree to the budget of `options.max_lines` lines. The flags
/// returned say, position by position, which nodes are kept; the
/// retained-children count of every node is set to the number of its
/// children among them.
pub fn trim(blines: &mut Arena<BLine>, options: &TreeOptions) -> (kept: Vec<bool>)
    ensures
        arena_tag(*final(blines)) == arena_tag(*old(blines)),
        kept@.len() == forest(*old(blines)).len(),
        kept@ == trimmed(
            forest(*old(blines)),
            arena_tag(*old(blines)),
            options.max_lines as nat,
        ),
        forest(*final(blines)) == with_retained(
            forest(*old(blines)),
            arena_tag(*old(blines)),
            kept@,
        ),
        well_formed(forest(*old(blines)), arena_tag(*old(blines))) ==> well_formed(
            forest(*final(blines)),
            arena_tag(*final(blines)),
        ),
{
    let ghost nodes = forest(*blines);
    let tag = arena_own_tag(blines);
    let budget = options.max_lines;
    let mut kept = match_flags(blines, tag);
    carry_upwards(blines, tag, &mut kept);
    let mut count = count_flags(&kept);
    let ghost target = trimmed(nodes, tag, budget as nat);
    while count < budget
        invariant
            tag == arena_tag(*blines),
            nodes == forest(*blines),
            kept@.len() == nodes.len(),
            count == count_true(kept@),
            count < budget ==> fill(nodes, tag, kept@, (budget - count) as nat) == target,
            count >= budget ==> kept@ == target,
        ensures
            kept@ == target,
        decreases budget - count,
    {
        match find_best(blines, tag, &kept) {
            Some(b) => {
                proof {
                    lemma_best(nodes, tag, kept@, b as int);
                    lemma_count_set(kept@, b as int);
                    lemma_count_bound(kept@.update(b as int, true));
                    let next = kept@.update(b as int, true);
                    assert(fill(nodes, tag, next, (budget - count - 1) as nat) == target);
                    assert(fill(nodes, tag, next, 0) == next);
                }
                kept.set(b, true);
                count += 1;
            },
            None => {
                break ;
            },
        }
    }
    set_retained(blines, tag, &kept);
    proof {
        if well_formed(nodes, tag) {
            lemma_with_retained_well_formed(nodes, tag, kept@);
        }
    }
    kept
}

} // verus!
