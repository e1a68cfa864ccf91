//! The order in which the entries of a directory become children: by name,
//! and where two entries bear one name, as they were listed. Entries that
//! an ignore rule excludes have no place in it.

use crate::bline::LinkProbe;
use crate::entry::{EntryType, SpecialHandling};
use crate::text_order::{
    lemma_text_lt_asymmetric, lemma_text_lt_connected, lemma_text_lt_irreflexive,
    lemma_text_lt_transitive, text_before, text_lt,
};
use std::path::PathBuf;
use vstd::prelude::*;

verus! {

/// One entry of a directory, with what the collaborators said of it.
#[derive(Clone, Debug)]
pub struct ChildEntry {
    /// The entry's name in its directory.
    pub name: String,
    pub path: PathBuf,
    /// The type read for the entry; nothing, if it could not be read.
    pub file_type: Option<EntryType>,
    /// For a link that was looked into: what was found.
    pub link: Option<LinkProbe>,
    /// Whether an ignore rule excludes the entry.
    pub ignored: bool,
    /// Whether the pattern counts the entry as a match.
    pub has_match: bool,
    /// Whether the entry's own name or subpath matches the pattern.
    pub direct_match: bool,
    /// How well it matches.
    pub score: i32,
    pub special_handling: SpecialHandling,
}

/// An entry as a mathematical value.
pub struct ChildEntryView {
    pub name: Seq<char>,
    pub path: PathBuf,
    pub file_type: Option<EntryType>,
    pub link: Option<LinkProbe>,
    pub ignored: bool,
    pub has_match: bool,
    pub direct_match: bool,
    pub score: i32,
    pub special_handling: SpecialHandling,
}

impl View for ChildEntry {
    type V = ChildEntryView;

    open spec fn view(&self) -> ChildEntryView {
        ChildEntryView {
            name: self.name@,
            path: self.path,
            file_type: self.file_type,
            link: self.link,
            ignored: self.ignored,
            has_match: self.has_match,
            direct_match: self.direct_match,
            score: self.score,
            special_handling: self.special_handling,
        }
    }
}

/// The entries of a listing as mathematical values.
pub open spec fn entry_views(entries: Seq<ChildEntry>) -> Seq<ChildEntryView> {
    entries.map_values(|entry: ChildEntry| entry@)
}

/// Whether position `i` of a listing holds an entry that no rule excludes.
pub open spec fn survives(entries: Seq<ChildEntryView>, i: int) -> bool {
    0 <= i < entries.len() && !entries[i].ignored
}

/// Whether the entry at `i` is placed before the entry at `j`.
pub open spec fn precedes(entries: Seq<ChildEntryView>, i: int, j: int) -> bool {
    text_lt(entries[i].name, entries[j].name) || (entries[i].name == entries[j].name && i < j)
}

/// Whether `order` lists the positions of the surviving entries among the
/// first `n`, each once, every one before those it precedes.
pub open spec fn is_listing_order(entries: Seq<ChildEntryView>, n: int, order: Seq<int>) -> bool {
    &&& forall|k: int|
        0 <= k < order.len() ==> (#[trigger] order[k]) < n && survives(entries, order[k])
    &&& forall|i: int| i < n && #[trigger] survives(entries, i) ==> order.contains(i)
    &&& forall|a: int, b: int|
        0 <= a < b < order.len() ==> precedes(entries, #[trigger] order[a], #[trigger] order[b])
}

/// The positions of the surviving entries in the order in which they become
/// children.
pub open spec fn listing_order(entries: Seq<ChildEntryView>) -> Seq<int> {
    choose|order: Seq<int>| is_listing_order(entries, entries.len() as int, order)
}

/// The surviving entries in the order in which they become children.
pub open spec fn listing(entries: Seq<ChildEntryView>) -> Seq<ChildEntryView> {
    let order = listing_order(entries);
    Seq::new(order.len(), |k: int| entries[order[k]])
}

/// Where position `i` goes into `order`: behind the last position whose
/// name does not come after its own.
pub open spec fn slot(entries: Seq<ChildEntryView>, order: Seq<int>, i: int) -> int
    decreases order.len(),
{
    if order.len() == 0 {
        0
    } else if text_lt(entries[i].name, entries[order.last()].name) {
        slot(entries, order.drop_last(), i)
    } else {
        order.len() as int
    }
}

proof fn lemma_precedes_asymmetric(entries: Seq<ChildEntryView>, i: int, j: int)
    requires
        precedes(entries, i, j),
    ensures
        !precedes(entries, j, i),
{
    lemma_text_lt_irreflexive(entries[i].name);
    if text_lt(entries[i].name, entries[j].name) {
        lemma_text_lt_asymmetric(entries[i].name, entries[j].name);
    }
}

proof fn lemma_precedes_transitive(entries: Seq<ChildEntryView>, i: int, j: int, k: int)
    requires
        precedes(entries, i, j),
        precedes(entries, j, k),
    ensures
        precedes(entries, i, k),
{
    if text_lt(entries[i].name, entries[j].name) && text_lt(entries[j].name, entries[k].name) {
        lemma_text_lt_transitive(entries[i].name, entries[j].name, entries[k].name);
    }
}

proof fn lemma_slot(entries: Seq<ChildEntryView>, order: Seq<int>, i: int)
    ensures
        0 <= slot(entries, order, i) <= order.len(),
        forall|b: int|
            slot(entries, order, i) <= b < order.len() ==> text_lt(
                entries[i].name,
                entries[#[trigger] order[b]].name,
            ),
        slot(entries, order, i) > 0 ==> !text_lt(
            entries[i].name,
            entries[order[slot(entries, order, i) - 1]].name,
        ),
    decreases order.len(),
{
    if order.len() > 0 && text_lt(entries[i].name, entries[order.last()].name) {
        let shorter = order.drop_last();
        lemma_slot(entries, shorter, i);
        assert forall|b: int| slot(entries, order, i) <= b < order.len() implies text_lt(
            entries[i].name,
            entries[#[trigger] order[b]].name,
        ) by {
            if b < shorter.len() {
                assert(shorter[b] == order[b]);
            }
        }
        if slot(entries, order, i) > 0 {
            assert(shorter[slot(entries, order, i) - 1] == order[slot(entries, order, i) - 1]);
        }
    }
}

/// Putting position `n` where it belongs keeps an order an order.
proof fn lemma_insert_keeps_order(
    entries: Seq<ChildEntryView>,
    n: int,
    order: Seq<int>,
    pos: int,
)
    requires
        is_listing_order(entries, n, order),
        survives(entries, n),
        0 <= pos <= order.len(),
        forall|b: int|
            pos <= b < order.len() ==> text_lt(entries[n].name, entries[#[trigger] order[b]].name),
        pos > 0 ==> !text_lt(entries[n].name, entries[order[pos - 1]].name),
    ensures
        is_listing_order(entries, n + 1, order.insert(pos, n)),
{
    let longer = order.insert(pos, n);
    assert forall|i: int| i < n + 1 && #[trigger] survives(entries, i) implies longer.contains(
        i,
    ) by {
        if i == n {
            assert(longer[pos] == i);
        } else {
            let k = choose|k: int| 0 <= k < order.len() && order[k] == i;
            if k < pos {
                assert(longer[k] == i);
            } else {
                assert(longer[k + 1] == i);
            }
        }
    }
    assert forall|a: int, b: int| 0 <= a < b < longer.len() implies precedes(
        entries,
        #[trigger] longer[a],
        #[trigger] longer[b],
    ) by {
        if b == pos {
            // longer[a] is an earlier position whose name does not come after
            let last = order[pos - 1];
            lemma_text_lt_connected(entries[n].name, entries[last].name);
            assert(precedes(entries, last, n));
            if a < pos - 1 {
                assert(precedes(entries, order[a], order[pos - 1]));
                lemma_precedes_transitive(entries, order[a], last, n);
            }
        } else if a == pos {
            assert(longer[b] == order[b - 1]);
        } else if b < pos {
            assert(precedes(entries, order[a], order[b]));
        } else if a < pos {
            assert(longer[b] == order[b - 1]);
            assert(precedes(entries, order[a], order[b - 1]));
        } else {
            assert(longer[a] == order[a - 1]);
            assert(longer[b] == order[b - 1]);
            assert(precedes(entries, order[a - 1], order[b - 1]));
        }
    }
    assert forall|k: int| 0 <= k < longer.len() implies (#[trigger] longer[k]) < n + 1 && survives(
        entries,
        longer[k],
    ) by {
        if k < pos {
            assert(longer[k] == order[k]);
        } else if k > pos {
            assert(longer[k] == order[k - 1]);
        }
    }
}

/// Skipping an excluded entry keeps an order an order.
proof fn lemma_skip_keeps_order(entries: Seq<ChildEntryView>, n: int, order: Seq<int>)
    requires
        is_listing_order(entries, n, order),
        !survives(entries, n),
    ensures
        is_listing_order(entries, n + 1, order),
{
}

proof fn lemma_order_exists(entries: Seq<ChildEntryView>, n: int)
    requires
        0 <= n <= entries.len(),
    ensures
        exists|order: Seq<int>| is_listing_order(entries, n, order),
    decreases n,
{
    if n == 0 {
        assert(is_listing_order(entries, 0, Seq::<int>::empty()));
    } else {
        let m = n - 1;
        lemma_order_exists(entries, m);
        let order = choose|order: Seq<int>| is_listing_order(entries, m, order);
        if survives(entries, m) {
            lemma_slot(entries, order, m);
            let pos = slot(entries, order, m);
            lemma_insert_keeps_order(entries, m, order, pos);
            assert(is_listing_order(entries, n, order.insert(pos, m)));
        } else {
            lemma_skip_keeps_order(entries, m, order);
        }
    }
}

/// Two sequences that rise strictly in an order and hold the same values
/// are one sequence.
pub proof fn lemma_rising_unique<T>(a: Seq<T>, b: Seq<T>, lt: spec_fn(T, T) -> bool)
    requires
        forall|i: int, j: int| 0 <= i < j < a.len() ==> lt(#[trigger] a[i], #[trigger] a[j]),
        forall|i: int, j: int| 0 <= i < j < b.len() ==> lt(#[trigger] b[i], #[trigger] b[j]),
        forall|x: T| a.contains(x) <==> b.contains(x),
        forall|x: T, y: T| #[trigger] lt(x, y) ==> !lt(y, x),
    ensures
        a == b,
    decreases a.len(),
{
    if a.len() == 0 {
        if b.len() > 0 {
            assert(b.contains(b[0]));
        }
        assert(a =~= b);
    } else {
        assert(a.contains(a[0]));
        let j = choose|j: int| 0 <= j < b.len() && b[j] == a[0];
        assert(b.contains(b[0]));
        let i = choose|i: int| 0 <= i < a.len() && a[i] == b[0];
        if j > 0 && i > 0 {
            assert(lt(b[0], b[j]));
            assert(lt(a[0], a[i]));
        }
        assert(a[0] == b[0]);
        let a1 = a.skip(1);
        let b1 = b.skip(1);
        assert forall|x: T| a1.contains(x) <==> b1.contains(x) by {
            if a1.contains(x) {
                let k = choose|k: int| 0 <= k < a1.len() && a1[k] == x;
                assert(a[k + 1] == x);
                assert(lt(a[0], a[k + 1]));
                assert(a.contains(x));
                let m = choose|m: int| 0 <= m < b.len() && b[m] == x;
                assert(m != 0);
                assert(b1[m - 1] == x);
            }
            if b1.contains(x) {
                let k = choose|k: int| 0 <= k < b1.len() && b1[k] == x;
                assert(b[k + 1] == x);
                assert(lt(b[0], b[k + 1]));
                assert(b.contains(x));
                let m = choose|m: int| 0 <= m < a.len() && a[m] == x;
                assert(m != 0);
                assert(a1[m - 1] == x);
            }
        }
        assert forall|i: int, j: int| 0 <= i < j < a1.len() implies lt(
            #[trigger] a1[i],
            #[trigger] a1[j],
        ) by {
            assert(lt(a[i + 1], a[j + 1]));
        }
        assert forall|i: int, j: int| 0 <= i < j < b1.len() implies lt(
            #[trigger] b1[i],
            #[trigger] b1[j],
        ) by {
            assert(lt(b[i + 1], b[j + 1]));
        }
        lemma_rising_unique(a1, b1, lt);
        assert(a =~= seq![a[0]] + a1);
        assert(b =~= seq![b[0]] + b1);
    }
}

/// Every listing has an order,
pub proof fn lemma_listing_order(entries: Seq<ChildEntryView>)
    ensures
        is_listing_order(entries, entries.len() as int, listing_order(entries)),
{
    lemma_order_exists(entries, entries.len() as int);
}

/// and only one.
pub proof fn lemma_listing_order_unique(entries: Seq<ChildEntryView>, order: Seq<int>)
    requires
        is_listing_order(entries, entries.len() as int, order),
    ensures
        order == listing_order(entries),
{
    lemma_listing_order(entries);
    let other = listing_order(entries);
    let lt = |i: int, j: int| precedes(entries, i, j);
    assert forall|x: int, y: int| #[trigger] lt(x, y) implies !lt(y, x) by {
        lemma_precedes_asymmetric(entries, x, y);
    }
    assert forall|x: int| order.contains(x) <==> other.contains(x) by {
        if order.contains(x) {
            let k = choose|k: int| 0 <= k < order.len() && order[k] == x;
            assert(survives(entries, order[k]));
        }
        if other.contains(x) {
            let k = choose|k: int| 0 <= k < other.len() && other[k] == x;
            assert(survives(entries, other[k]));
        }
    }
    lemma_rising_unique(order, other, lt);
}

/// Whether no two surviving entries bear one name.
pub open spec fn names_distinct(entries: Seq<ChildEntryView>) -> bool {
    forall|i: int, j: int|
        #[trigger] survives(entries, i) && #[trigger] survives(entries, j) && i != j
            ==> entries[i].name != entries[j].name
}

/// Whether two listings hold the same surviving entries, in whatever order.
pub open spec fn same_survivors(first: Seq<ChildEntryView>, second: Seq<ChildEntryView>) -> bool {
    forall|entry: ChildEntryView|
        !entry.ignored ==> (#[trigger] first.contains(entry) <==> #[trigger] second.contains(entry))
}

/// The children of a directory do not depend on the order in which its
/// entries arrive: two listings of the same surviving entries, no two of
/// them under one name, give the same children in the same order.
pub proof fn lemma_listing_ignores_arrival(
    first: Seq<ChildEntryView>,
    second: Seq<ChildEntryView>,
)
    requires
        names_distinct(first),
        names_distinct(second),
        same_survivors(first, second),
    ensures
        listing(first) == listing(second),
{
    let lt = |x: ChildEntryView, y: ChildEntryView| text_lt(x.name, y.name);
    assert forall|x: ChildEntryView, y: ChildEntryView| #[trigger] lt(x, y) implies !lt(y, x) by {
        lemma_text_lt_asymmetric(x.name, y.name);
    }
    lemma_listing_rises(first);
    lemma_listing_rises(second);
    assert forall|x: ChildEntryView| listing(first).contains(x) <==> listing(second).contains(
        x,
    ) by {
        lemma_listing_holds(first, x);
        lemma_listing_holds(second, x);
    }
    lemma_rising_unique(listing(first), listing(second), lt);
}

/// Where no two surviving entries bear one name, the names of a listing
/// rise strictly.
proof fn lemma_listing_rises(entries: Seq<ChildEntryView>)
    requires
        names_distinct(entries),
    ensures
        forall|a: int, b: int|
            0 <= a < b < listing(entries).len() ==> text_lt(
                (#[trigger] listing(entries)[a]).name,
                (#[trigger] listing(entries)[b]).name,
            ),
{
    let order = listing_order(entries);
    lemma_listing_order(entries);
    assert forall|a: int, b: int| 0 <= a < b < listing(entries).len() implies text_lt(
        (#[trigger] listing(entries)[a]).name,
        (#[trigger] listing(entries)[b]).name,
    ) by {
        assert(precedes(entries, order[a], order[b]));
        assert(survives(entries, order[a]) && survives(entries, order[b]));
    }
}

/// A listing holds exactly the entries that survive.
proof fn lemma_listing_holds(entries: Seq<ChildEntryView>, entry: ChildEntryView)
    ensures
        listing(entries).contains(entry) <==> entries.contains(entry) && !entry.ignored,
{
    let order = listing_order(entries);
    let kids = listing(entries);
    lemma_listing_order(entries);
    if kids.contains(entry) {
        let k = choose|k: int| 0 <= k < kids.len() && kids[k] == entry;
        assert(survives(entries, order[k]));
        assert(entries[order[k]] == entry);
    }
    if entries.contains(entry) && !entry.ignored {
        let i = choose|i: int| 0 <= i < entries.len() && entries[i] == entry;
        assert(survives(entries, i));
        let k = choose|k: int| 0 <= k < order.len() && order[k] == i;
        assert(kids[k] == entry);
    }
}

/// The positions held in a vector, as integers.
pub open spec fn positions(order: Seq<usize>) -> Seq<int> {
    Seq::new(order.len(), |k: int| order[k] as int)
}

/// Computes the order in which the entries of a listing become children.
pub fn sort_entries(entries: &Vec<ChildEntry>) -> (order: Vec<usize>)
    ensures
        positions(order@) == listing_order(entry_views(entries@)),
{
    let ghost views = entry_views(entries@);
    let mut order: Vec<usize> = Vec::new();
    let mut i: usize = 0;
    assert(is_listing_order(views, 0, positions(order@)));
    while i < entries.len()
        invariant
            i <= entries.len(),
            views == entry_views(entries@),
            is_listing_order(views, i as int, positions(order@)),
            forall|k: int| 0 <= k < order.len() ==> #[trigger] order[k] < i,
        decreases entries.len() - i,
    {
        if entries[i].ignored {
            proof {
                lemma_skip_keeps_order(views, i as int, positions(order@));
            }
        } else {
            let mut pos: usize = order.len();
            while pos > 0 && text_before(&entries[i].name, &entries[order[pos - 1]].name)
                invariant
                    pos <= order.len(),
                    i < entries.len(),
                    views == entry_views(entries@),
                    is_listing_order(views, i as int, positions(order@)),
                    forall|k: int| 0 <= k < order.len() ==> #[trigger] order[k] < i,
                    forall|b: int|
                        pos <= b < order.len() ==> text_lt(
                            views[i as int].name,
                            views[#[trigger] positions(order@)[b]].name,
                        ),
                decreases pos,
            {
                assert(positions(order@)[pos - 1] == order[pos - 1]);
                pos -= 1;
            }
            proof {
                if pos > 0 {
                    assert(positions(order@)[pos - 1] == order[pos - 1]);
                }
                lemma_insert_keeps_order(views, i as int, positions(order@), pos as int);
                assert(positions(order@.insert(pos as int, i)) =~= positions(order@).insert(
                    pos as int,
                    i as int,
                ));
            }
            order.insert(pos, i);
        }
        i += 1;
    }
    proof {
        lemma_listing_order_unique(views, positions(order@));
    }
    order
}

} // verus!
