use id_arena::Arena;
use std::path::PathBuf;
use tree_build::bline::{BId, BLine, LinkProbe};
use tree_build::builder::add_children;
use tree_build::entry::{EntryType, SpecialHandling};
use tree_build::ignore::GitIgnoreChain;
use tree_build::listing::ChildEntry;
use tree_build::options::{Pattern, PatternObject, TreeOptions};
use tree_build::store::{id_at, lookup, new_store, node_count};
use tree_build::trim::trim;

fn budget(max_lines: usize) -> TreeOptions {
    TreeOptions {
        pattern: Pattern { object: PatternObject::FileName, expression: String::from("x") },
        max_lines,
    }
}

fn entry(name: &str, file_type: EntryType, score: i32, direct_match: bool) -> ChildEntry {
    ChildEntry {
        name: String::from(name),
        path: PathBuf::from(name),
        file_type: Some(file_type),
        link: None,
        ignored: false,
        has_match: direct_match,
        direct_match,
        score,
        special_handling: SpecialHandling::Default,
    }
}

fn root(blines: &mut Arena<BLine>) -> BId {
    BLine::from_root(
        blines,
        PathBuf::from("/top"),
        GitIgnoreChain::empty(),
        &budget(0),
        Some(EntryType::Dir),
    )
    .unwrap()
}

fn child(blines: &Arena<BLine>, parent: BId, k: usize) -> BId {
    lookup(blines, parent).unwrap().children.as_ref().unwrap()[k]
}

fn retained(blines: &Arena<BLine>) -> Vec<i32> {
    (0..node_count(blines))
        .map(|index| lookup(blines, id_at(blines, index)).unwrap().nb_kept_children)
        .collect()
}

/// top(0) ─ a(1) ─ a1(4) ─ deep(6)
///        │      └ a2(5)
///        ├ b(2)
///        └ c(3)
fn sample(scores: [i32; 6], matches: [bool; 6]) -> Arena<BLine> {
    let mut blines = new_store();
    let top = root(&mut blines);
    assert!(add_children(&mut blines, top, &LinkProbe::Unreadable, None,
        &vec![
            entry("a", EntryType::Dir, scores[0], matches[0]),
            entry("b", EntryType::File, scores[1], matches[1]),
            entry("c", EntryType::File, scores[2], matches[2]),
        ],
    ));
    let a = child(&blines, top, 0);
    assert!(add_children(&mut blines, a, &LinkProbe::Unreadable, None,
        &vec![
            entry("a1", EntryType::Dir, scores[3], matches[3]),
            entry("a2", EntryType::File, scores[4], matches[4]),
        ],
    ));
    let a1 = child(&blines, a, 0);
    assert!(add_children(&mut blines, a1, &LinkProbe::Unreadable, None,
        &vec![entry("deep", EntryType::File, scores[5], matches[5])],
    ));
    assert_eq!(node_count(&blines), 7);
    blines
}

#[test]
fn a_match_is_kept_with_all_its_ancestors() {
    // only "deep" matches; the root counts as a match from the start
    let mut blines = sample([1, 2, 3, 4, 5, 6], [false, false, false, false, false, true]);
    let kept = trim(&mut blines, &budget(4));
    assert_eq!(kept, vec![true, true, false, false, true, false, true]);
    assert_eq!(kept.iter().filter(|k| **k).count(), 4);
    assert_eq!(retained(&blines), vec![1, 1, 0, 0, 1, 0, 0]);
}

#[test]
fn matches_are_kept_even_beyond_the_budget() {
    let mut blines = sample([1, 2, 3, 4, 5, 6], [false, false, true, false, false, true]);
    for max_lines in [0, 1, 3, 5] {
        let kept = trim(&mut blines, &budget(max_lines));
        assert_eq!(kept, vec![true, true, false, true, true, false, true]);
        assert_eq!(retained(&blines), vec![2, 1, 0, 0, 1, 0, 0]);
    }
}

#[test]
fn a_forest_is_trimmed_to_its_budget() {
    // seven nodes, a budget of five, two matches with three ancestors between them
    let mut blines = sample([10, 20, 30, 40, 50, 60], [false, true, false, false, true, false]);
    let kept = trim(&mut blines, &budget(5));
    assert!(kept.iter().filter(|k| **k).count() <= 5);
    // the matches: b(2) and a2(5); their ancestors: top(0) and a(1)
    assert!(kept[2] && kept[5] && kept[0] && kept[1]);
    // one line was left, for the best of c(3) and a1(4)
    assert_eq!(kept, vec![true, true, true, false, true, true, false]);
    assert_eq!(retained(&blines), vec![2, 2, 0, 0, 0, 0, 0]);
    for index in 0..7 {
        let node = lookup(&blines, id_at(&blines, index)).unwrap();
        let among = match &node.children {
            Some(children) => children.iter().filter(|c| kept[c.index]).count(),
            None => 0,
        };
        assert_eq!(node.nb_kept_children as usize, among);
    }
}

#[test]
fn room_is_given_to_the_highest_scores_first() {
    let order_of_entry = |scores: [i32; 6]| {
        let mut previous = vec![true, false, false, false, false, false, false];
        let mut entered = Vec::new();
        for max_lines in 2..=7 {
            let mut blines = sample(scores, [false; 6]);
            let kept = trim(&mut blines, &budget(max_lines));
            assert_eq!(kept.iter().filter(|k| **k).count(), max_lines);
            for index in 0..7 {
                assert!(kept[index] || !previous[index]);
                if kept[index] && !previous[index] {
                    entered.push(index);
                }
            }
            previous = kept;
        }
        entered
    };
    // by score alone, as far as the parents are there
    assert_eq!(order_of_entry([10, 30, 20, 5, 50, 60]), vec![2, 3, 1, 5, 4, 6]);
    // a high score below a low one waits for its parent
    assert_eq!(order_of_entry([1, 2, 3, 100, 0, 200]), vec![3, 2, 1, 4, 6, 5]);
}

#[test]
fn equal_scores_go_to_the_shallower_node_then_to_the_earlier_one() {
    let mut blines = sample([7, 7, 7, 7, 7, 7], [true, false, false, false, false, false]);
    // top and a are kept for the match; b, c lie at depth 1, a1, a2 at depth 2
    let kept = trim(&mut blines, &budget(3));
    assert_eq!(kept, vec![true, true, true, false, false, false, false]);
    let kept = trim(&mut blines, &budget(4));
    assert_eq!(kept, vec![true, true, true, true, false, false, false]);
    let kept = trim(&mut blines, &budget(5));
    assert_eq!(kept, vec![true, true, true, true, true, false, false]);
    let kept = trim(&mut blines, &budget(6));
    assert_eq!(kept, vec![true, true, true, true, true, true, false]);
    assert_eq!(retained(&blines), vec![3, 2, 0, 0, 0, 0, 0]);
}

#[test]
fn a_budget_beyond_the_forest_keeps_it_whole() {
    let mut blines = sample([1, 2, 3, 4, 5, 6], [false; 6]);
    let kept = trim(&mut blines, &budget(100));
    assert_eq!(kept, vec![true; 7]);
    assert_eq!(retained(&blines), vec![3, 2, 0, 0, 1, 0, 0]);
    let kept = trim(&mut blines, &budget(7));
    assert_eq!(kept, vec![true; 7]);
}

#[test]
fn trimming_changes_nothing_but_the_retained_counts() {
    let mut blines = sample([1, 2, 3, 4, 5, 6], [false, true, false, false, false, false]);
    let before: Vec<BLine> =
        (0..7).map(|index| lookup(&blines, id_at(&blines, index)).unwrap().clone()).collect();
    trim(&mut blines, &budget(3));
    for index in 0..7 {
        let node = lookup(&blines, id_at(&blines, index)).unwrap();
        assert_eq!(node.parent_id, before[index].parent_id);
        assert_eq!(node.children, before[index].children);
        assert_eq!(node.next_child_idx, before[index].next_child_idx);
        assert_eq!(node.name, before[index].name);
        assert_eq!(node.score, before[index].score);
        assert_eq!(node.has_match, before[index].has_match);
        assert_eq!(node.direct_match, before[index].direct_match);
        assert_eq!(node.depth, before[index].depth);
    }
}

#[test]
fn retained_counts_are_set_anew_each_time() {
    let mut blines = sample([1, 2, 3, 4, 5, 6], [false; 6]);
    trim(&mut blines, &budget(7));
    assert_eq!(retained(&blines), vec![3, 2, 0, 0, 1, 0, 0]);
    trim(&mut blines, &budget(1));
    assert_eq!(retained(&blines), vec![0, 0, 0, 0, 0, 0, 0]);
    trim(&mut blines, &budget(2));
    assert_eq!(retained(&blines), vec![1, 0, 0, 0, 0, 0, 0]);
}

#[test]
fn a_directory_is_kept_though_none_of_its_children_is() {
    let mut blines = sample([9, 2, 3, 4, 5, 6], [false; 6]);
    let kept = trim(&mut blines, &budget(2));
    assert_eq!(kept, vec![true, true, false, false, false, false, false]);
    let a = lookup(&blines, id_at(&blines, 1)).unwrap();
    assert_eq!(a.nb_kept_children, 0);
    assert_eq!(a.children.as_ref().unwrap().len(), 2);
}

#[test]
fn an_empty_store_is_trimmed_to_nothing() {
    let mut blines = new_store();
    assert_eq!(trim(&mut blines, &budget(5)), Vec::<bool>::new());
    assert_eq!(node_count(&blines), 0);
}

#[test]
fn a_node_that_matches_only_below_itself_is_kept() {
    let mut blines = sample([1, 2, 3, 4, 5, 6], [false; 6]);
    // a1 is flagged as holding a match without matching itself
    blines.iter_mut().nth(4).unwrap().1.has_match = true;
    let kept = trim(&mut blines, &budget(0));
    assert_eq!(kept, vec![true, true, false, false, true, false, false]);
    // and a node that matches directly, whatever its other flag says
    blines.iter_mut().nth(3).unwrap().1.direct_match = true;
    let kept = trim(&mut blines, &budget(0));
    assert_eq!(kept, vec![true, true, false, true, true, false, false]);
}

#[test]
fn a_parent_handle_that_points_nowhere_is_no_parent() {
    let mut blines = sample([1, 2, 3, 4, 5, 6], [false; 6]);
    let tag = id_at(&blines, 0).arena_id;
    // c claims a parent allocated after it, deep one of another arena
    blines.iter_mut().nth(3).unwrap().1.parent_id = Some(BId { arena_id: tag, index: 5 });
    blines.iter_mut().nth(6).unwrap().1.parent_id =
        Some(BId { arena_id: tag.wrapping_add(1), index: 4 });
    blines.iter_mut().nth(6).unwrap().1.direct_match = true;
    let kept = trim(&mut blines, &budget(3));
    // deep is kept alone, then the best of the nodes without a missing parent
    assert_eq!(kept, vec![true, false, false, true, false, false, true]);
}
