use id_arena::Arena;
use std::path::PathBuf;
use tree_build::bline::{BId, BLine, LinkProbe};
use tree_build::builder::{add_children, next_child, next_to_expand};
use tree_build::entry::{EntryType, SpecialHandling};
use tree_build::ignore::GitIgnoreChain;
use tree_build::listing::{sort_entries, ChildEntry};
use tree_build::options::{Pattern, PatternObject, TreeOptions};
use tree_build::store::{lookup, new_store, node_count};

fn options() -> TreeOptions {
    TreeOptions {
        pattern: Pattern { object: PatternObject::FileName, expression: String::new() },
        max_lines: 10,
    }
}

fn store_with_root(chain: Vec<usize>) -> (Arena<BLine>, BId) {
    let mut blines = new_store();
    let root = BLine::from_root(
        &mut blines,
        PathBuf::from("/top"),
        GitIgnoreChain { file_ids: chain },
        &options(),
        Some(EntryType::Dir),
    )
    .unwrap();
    (blines, root)
}

fn entry(name: &str, file_type: EntryType, score: i32) -> ChildEntry {
    ChildEntry {
        name: String::from(name),
        path: PathBuf::from("/top").join(name),
        file_type: Some(file_type),
        link: None,
        ignored: false,
        has_match: false,
        direct_match: false,
        score,
        special_handling: SpecialHandling::Default,
    }
}

fn names_of(blines: &Arena<BLine>, parent: BId) -> Vec<String> {
    let children = lookup(blines, parent).unwrap().children.clone().unwrap();
    children.iter().map(|id| lookup(blines, *id).unwrap().name.clone()).collect()
}

#[test]
fn children_come_in_the_order_of_their_names() {
    let (mut blines, root) = store_with_root(vec![]);
    let entries = vec![
        entry("pear", EntryType::File, 1),
        entry("apple", EntryType::Dir, 2),
        entry("quince", EntryType::File, 3),
        entry("fig", EntryType::Symlink, 4),
    ];
    assert!(add_children(&mut blines, root, &LinkProbe::Unreadable, None, &entries));
    assert_eq!(names_of(&blines, root), vec!["apple", "fig", "pear", "quince"]);
    assert_eq!(node_count(&blines), 5);
    let children = lookup(&blines, root).unwrap().children.clone().unwrap();
    for (k, id) in children.iter().enumerate() {
        assert_eq!(*id, BId { arena_id: root.arena_id, index: k + 1 });
    }
    let scores: Vec<i32> = children.iter().map(|id| lookup(&blines, *id).unwrap().score).collect();
    assert_eq!(scores, vec![2, 4, 1, 3]);
}

#[test]
fn names_are_ordered_by_code_point() {
    let (mut blines, root) = store_with_root(vec![]);
    let entries = vec![
        entry("abc", EntryType::File, 0),
        entry("b", EntryType::File, 0),
        entry("B", EntryType::File, 0),
        entry("ab", EntryType::File, 0),
        entry("é", EntryType::File, 0),
        entry("", EntryType::File, 0),
        entry("a", EntryType::File, 0),
        entry("_x", EntryType::File, 0),
        entry("10", EntryType::File, 0),
        entry("9", EntryType::File, 0),
    ];
    assert!(add_children(&mut blines, root, &LinkProbe::Unreadable, None, &entries));
    assert_eq!(
        names_of(&blines, root),
        vec!["", "10", "9", "B", "_x", "a", "ab", "abc", "b", "é"]
    );
}

#[test]
fn entries_under_one_name_stay_as_they_arrived() {
    let (mut blines, root) = store_with_root(vec![]);
    let entries = vec![
        entry("same", EntryType::File, 1),
        entry("other", EntryType::File, 2),
        entry("same", EntryType::File, 3),
        entry("same", EntryType::File, 4),
    ];
    assert_eq!(sort_entries(&entries), vec![1, 0, 2, 3]);
    assert!(add_children(&mut blines, root, &LinkProbe::Unreadable, None, &entries));
    let children = lookup(&blines, root).unwrap().children.clone().unwrap();
    let scores: Vec<i32> = children.iter().map(|id| lookup(&blines, *id).unwrap().score).collect();
    assert_eq!(scores, vec![2, 1, 3, 4]);
}

#[test]
fn ignored_entries_get_no_node() {
    let (mut blines, root) = store_with_root(vec![]);
    let mut entries = vec![
        entry("target", EntryType::Dir, 0),
        entry("src", EntryType::Dir, 0),
        entry("notes.tmp", EntryType::File, 0),
        entry("main.rs", EntryType::File, 0),
    ];
    entries[0].ignored = true;
    entries[2].ignored = true;
    assert_eq!(sort_entries(&entries), vec![3, 1]);
    assert!(add_children(&mut blines, root, &LinkProbe::Unreadable, None, &entries));
    assert_eq!(names_of(&blines, root), vec!["main.rs", "src"]);
    assert_eq!(node_count(&blines), 3);
}

#[test]
fn a_directory_without_surviving_entries_is_expanded_to_nothing() {
    let (mut blines, root) = store_with_root(vec![]);
    let mut entries = vec![entry("hidden", EntryType::File, 0)];
    entries[0].ignored = true;
    assert!(add_children(&mut blines, root, &LinkProbe::Unreadable, None, &entries));
    assert_eq!(lookup(&blines, root).unwrap().children, Some(Vec::new()));
    assert_eq!(node_count(&blines), 1);
    let (mut blines, root) = store_with_root(vec![]);
    assert!(add_children(&mut blines, root, &LinkProbe::Unreadable, None, &Vec::new()));
    assert_eq!(lookup(&blines, root).unwrap().children, Some(Vec::new()));
    assert_eq!(sort_entries(&Vec::new()), Vec::<usize>::new());
}

#[test]
fn a_child_is_made_from_its_entry() {
    let (mut blines, root) = store_with_root(vec![7]);
    let mut it = entry("lib.rs", EntryType::File, 321);
    it.has_match = true;
    it.direct_match = true;
    it.special_handling = SpecialHandling::NoEnter;
    assert!(add_children(&mut blines, root, &LinkProbe::Unreadable, None, &vec![it]));
    let id = lookup(&blines, root).unwrap().children.clone().unwrap()[0];
    let child = lookup(&blines, id).unwrap();
    assert_eq!(child.parent_id, Some(root));
    assert_eq!(child.path, PathBuf::from("/top/lib.rs"));
    assert_eq!(child.depth, 1);
    assert_eq!(child.name, "lib.rs");
    assert_eq!(child.file_type, EntryType::File);
    assert_eq!(child.children, None);
    assert_eq!(child.next_child_idx, 0);
    assert!(!child.has_error);
    assert!(child.has_match);
    assert!(child.direct_match);
    assert_eq!(child.score, 321);
    assert_eq!(child.nb_kept_children, 0);
    assert_eq!(child.git_ignore_chain.file_ids, vec![7]);
    assert_eq!(child.special_handling, SpecialHandling::NoEnter);
    // the parent is as it was, but for its children
    let parent = lookup(&blines, root).unwrap();
    assert_eq!(parent.name, "top");
    assert_eq!(parent.depth, 0);
    assert_eq!(parent.next_child_idx, 0);
    assert_eq!(parent.git_ignore_chain.file_ids, vec![7]);
}

#[test]
fn an_entry_that_could_not_be_read_is_kept_with_an_error() {
    let (mut blines, root) = store_with_root(vec![]);
    let mut unreadable = entry("a", EntryType::File, 0);
    unreadable.file_type = None;
    let mut dangling = entry("b", EntryType::Symlink, 0);
    dangling.link =
        Some(LinkProbe::Target { target: PathBuf::from("gone"), target_type: None });
    let mut unread_link = entry("c", EntryType::Symlink, 0);
    unread_link.link = Some(LinkProbe::Unreadable);
    let mut good_link = entry("d", EntryType::Symlink, 0);
    good_link.link = Some(LinkProbe::Target {
        target: PathBuf::from("/srv"),
        target_type: Some(EntryType::Dir),
    });
    let unprobed_link = entry("e", EntryType::Symlink, 0);
    let mut odd_dir = entry("f", EntryType::Dir, 0);
    odd_dir.link = Some(LinkProbe::Unreadable);
    let entries = vec![unreadable, dangling, unread_link, good_link, unprobed_link, odd_dir];
    assert!(add_children(&mut blines, root, &LinkProbe::Unreadable, None, &entries));
    let children = lookup(&blines, root).unwrap().children.clone().unwrap();
    let seen: Vec<(EntryType, bool)> = children
        .iter()
        .map(|id| {
            let node = lookup(&blines, *id).unwrap();
            (node.file_type, node.has_error)
        })
        .collect();
    assert_eq!(
        seen,
        vec![
            (EntryType::File, true),
            (EntryType::Symlink, true),
            (EntryType::Symlink, true),
            (EntryType::Symlink, false),
            (EntryType::Symlink, false),
            (EntryType::Dir, false),
        ]
    );
}

#[test]
fn the_rules_of_a_directory_are_layered_on_those_it_inherits() {
    let (mut blines, root) = store_with_root(vec![3, 1]);
    assert!(add_children(
        &mut blines,
        root,
        &LinkProbe::Unreadable,
        Some(8),
        &vec![entry("sub", EntryType::Dir, 0)],
    ));
    let sub = lookup(&blines, root).unwrap().children.clone().unwrap()[0];
    assert_eq!(lookup(&blines, sub).unwrap().git_ignore_chain.file_ids, vec![3, 1, 8]);
    assert_eq!(lookup(&blines, root).unwrap().git_ignore_chain.file_ids, vec![3, 1]);
    assert!(add_children(
        &mut blines,
        sub,
        &LinkProbe::Unreadable,
        None,
        &vec![entry("leaf", EntryType::File, 0)],
    ));
    let leaf = lookup(&blines, sub).unwrap().children.clone().unwrap()[0];
    assert_eq!(lookup(&blines, leaf).unwrap().git_ignore_chain.file_ids, vec![3, 1, 8]);
    assert_eq!(lookup(&blines, leaf).unwrap().depth, 2);
    assert_eq!(lookup(&blines, leaf).unwrap().parent_id, Some(sub));
}

#[test]
fn a_node_that_may_not_be_entered_gets_no_children() {
    let entries = vec![entry("a", EntryType::File, 0)];
    let to_dir =
        LinkProbe::Target { target: PathBuf::from("/srv"), target_type: Some(EntryType::Dir) };
    let back = LinkProbe::Target { target: PathBuf::from("/"), target_type: Some(EntryType::Dir) };
    let cases = [
        (EntryType::File, SpecialHandling::Default, &to_dir, false),
        (EntryType::Dir, SpecialHandling::NoEnter, &to_dir, false),
        (EntryType::Symlink, SpecialHandling::Default, &to_dir, false),
        (EntryType::Symlink, SpecialHandling::Enter, &back, false),
        (EntryType::Symlink, SpecialHandling::Enter, &to_dir, true),
        (EntryType::Dir, SpecialHandling::Default, &back, true),
    ];
    for (file_type, special_handling, probe, expected) in cases {
        let (mut blines, root) = store_with_root(vec![]);
        let mut kinds = entry("node", file_type, 0);
        kinds.special_handling = special_handling;
        assert!(add_children(&mut blines, root, &LinkProbe::Unreadable, None, &vec![kinds]));
        let node = lookup(&blines, root).unwrap().children.clone().unwrap()[0];
        assert_eq!(add_children(&mut blines, node, probe, None, &entries), expected);
        assert_eq!(lookup(&blines, node).unwrap().children.is_some(), expected);
        assert_eq!(node_count(&blines), if expected { 3 } else { 2 });
    }
}

#[test]
fn a_match_is_told_to_every_node_above_it() {
    let (mut blines, root) = store_with_root(vec![]);
    let top = vec![entry("docs", EntryType::Dir, 0), entry("src", EntryType::Dir, 0)];
    assert!(add_children(&mut blines, root, &LinkProbe::Unreadable, None, &top));
    let docs = lookup(&blines, root).unwrap().children.clone().unwrap()[0];
    let src = lookup(&blines, root).unwrap().children.clone().unwrap()[1];
    assert!(add_children(
        &mut blines,
        src,
        &LinkProbe::Unreadable,
        None,
        &vec![entry("deep", EntryType::Dir, 0), entry("flat", EntryType::Dir, 0)],
    ));
    let deep = lookup(&blines, src).unwrap().children.clone().unwrap()[0];
    let flat = lookup(&blines, src).unwrap().children.clone().unwrap()[1];
    // nothing matches so far, but for the root, which counts as a match from the start
    for id in [docs, src, deep, flat] {
        assert!(!lookup(&blines, id).unwrap().has_match);
    }
    let mut hit = entry("hit.rs", EntryType::File, 90);
    hit.has_match = true;
    hit.direct_match = true;
    let miss = entry("miss.rs", EntryType::File, 0);
    assert!(add_children(&mut blines, deep, &LinkProbe::Unreadable, None, &vec![miss, hit]));
    let hit = lookup(&blines, deep).unwrap().children.clone().unwrap()[0];
    let miss = lookup(&blines, deep).unwrap().children.clone().unwrap()[1];
    assert!(lookup(&blines, hit).unwrap().has_match);
    assert!(lookup(&blines, deep).unwrap().has_match);
    assert!(lookup(&blines, src).unwrap().has_match);
    assert!(lookup(&blines, root).unwrap().has_match);
    assert!(!lookup(&blines, miss).unwrap().has_match);
    assert!(!lookup(&blines, flat).unwrap().has_match);
    assert!(!lookup(&blines, docs).unwrap().has_match);
    // only the node itself matches directly
    assert!(lookup(&blines, hit).unwrap().direct_match);
    for id in [root, docs, src, deep, flat, miss] {
        assert!(!lookup(&blines, id).unwrap().direct_match);
    }
    // children that do not match change nothing above them
    assert!(add_children(
        &mut blines,
        flat,
        &LinkProbe::Unreadable,
        None,
        &vec![entry("other", EntryType::File, 0)],
    ));
    assert!(!lookup(&blines, flat).unwrap().has_match);
    // an excluded entry that matches is not there to be told of
    let mut excluded = entry("secret", EntryType::File, 0);
    excluded.has_match = true;
    excluded.ignored = true;
    assert!(add_children(&mut blines, docs, &LinkProbe::Unreadable, None, &vec![excluded]));
    assert!(!lookup(&blines, docs).unwrap().has_match);
}

#[test]
fn a_node_is_expanded_once() {
    let (mut blines, root) = store_with_root(vec![]);
    assert!(add_children(
        &mut blines,
        root,
        &LinkProbe::Unreadable,
        None,
        &vec![entry("a", EntryType::File, 0)],
    ));
    assert!(!add_children(
        &mut blines,
        root,
        &LinkProbe::Unreadable,
        None,
        &vec![entry("b", EntryType::File, 0)],
    ));
    assert_eq!(names_of(&blines, root), vec!["a"]);
    assert_eq!(node_count(&blines), 2);
}

#[test]
fn a_handle_of_no_node_is_not_expanded() {
    let (mut blines, root) = store_with_root(vec![]);
    let (_other, foreign) = store_with_root(vec![]);
    assert!(root.arena_id != foreign.arena_id);
    let entries = vec![entry("a", EntryType::File, 0)];
    assert!(!add_children(&mut blines, foreign, &LinkProbe::Unreadable, None, &entries));
    let beyond = BId { arena_id: root.arena_id, index: 1 };
    assert!(!add_children(&mut blines, beyond, &LinkProbe::Unreadable, None, &entries));
    assert_eq!(node_count(&blines), 1);
    assert_eq!(lookup(&blines, root).unwrap().children, None);
}

#[test]
fn the_deepest_level_is_not_expanded() {
    let mut blines = new_store();
    let mut deep = BLine {
        parent_id: None,
        path: PathBuf::from("/deep"),
        depth: u16::MAX,
        name: String::from("deep"),
        file_type: EntryType::Dir,
        children: None,
        next_child_idx: 0,
        has_error: false,
        has_match: true,
        direct_match: false,
        score: 0,
        nb_kept_children: 0,
        git_ignore_chain: GitIgnoreChain::empty(),
        special_handling: SpecialHandling::Default,
    };
    let id = blines.alloc(deep.clone());
    let id = BId { arena_id: tree_build::store::id_at(&blines, 0).arena_id, index: id.index() };
    assert!(!add_children(
        &mut blines,
        id,
        &LinkProbe::Unreadable,
        None,
        &vec![entry("a", EntryType::File, 0)],
    ));
    assert_eq!(node_count(&blines), 1);
    deep.depth = u16::MAX - 1;
    let id = blines.alloc(deep);
    let id = BId { arena_id: tree_build::store::id_at(&blines, 0).arena_id, index: id.index() };
    assert!(add_children(
        &mut blines,
        id,
        &LinkProbe::Unreadable,
        None,
        &vec![entry("a", EntryType::File, 0)],
    ));
    assert_eq!(lookup(&blines, BId { arena_id: id.arena_id, index: 2 }).unwrap().depth, u16::MAX);
}

#[test]
fn the_order_of_arrival_does_not_matter() {
    let listing = vec![
        entry("delta", EntryType::File, 40),
        entry("alpha", EntryType::Dir, 10),
        entry("charlie", EntryType::Symlink, 30),
        entry("bravo", EntryType::File, 20),
    ];
    let (mut first, first_root) = store_with_root(vec![]);
    assert!(add_children(&mut first, first_root, &LinkProbe::Unreadable, None, &listing));
    for turn in [[3, 2, 1, 0], [1, 3, 0, 2], [2, 0, 3, 1], [0, 1, 2, 3]] {
        let shuffled: Vec<ChildEntry> = turn.iter().map(|i: &usize| listing[*i].clone()).collect();
        let (mut second, second_root) = store_with_root(vec![]);
        assert!(add_children(&mut second, second_root, &LinkProbe::Unreadable, None, &shuffled));
        assert_eq!(node_count(&second), node_count(&first));
        for index in 1..node_count(&first) {
            let a = lookup(&first, BId { arena_id: first_root.arena_id, index }).unwrap();
            let b = lookup(&second, BId { arena_id: second_root.arena_id, index }).unwrap();
            assert_eq!(a.name, b.name);
            assert_eq!(a.score, b.score);
            assert_eq!(a.file_type, b.file_type);
            assert_eq!(a.path, b.path);
        }
        assert_eq!(names_of(&second, second_root), vec!["alpha", "bravo", "charlie", "delta"]);
    }
}

#[test]
fn building_twice_gives_the_same_tree() {
    let listing = vec![
        entry("zeta", EntryType::File, 5),
        entry("eta", EntryType::Dir, 6),
        entry("theta", EntryType::File, 7),
    ];
    let (mut first, first_root) = store_with_root(vec![]);
    let (mut second, second_root) = store_with_root(vec![]);
    assert!(add_children(&mut first, first_root, &LinkProbe::Unreadable, None, &listing));
    assert!(add_children(&mut second, second_root, &LinkProbe::Unreadable, None, &listing));
    assert_eq!(names_of(&first, first_root), names_of(&second, second_root));
    for index in 0..node_count(&first) {
        let a = lookup(&first, BId { arena_id: first_root.arena_id, index }).unwrap();
        let b = lookup(&second, BId { arena_id: second_root.arena_id, index }).unwrap();
        assert_eq!(a.score, b.score);
        assert_eq!(a.depth, b.depth);
    }
}

#[test]
fn children_are_handed_out_in_order() {
    let (mut blines, root) = store_with_root(vec![]);
    let entries = vec![
        entry("c", EntryType::File, 0),
        entry("a", EntryType::File, 0),
        entry("b", EntryType::File, 0),
    ];
    assert!(add_children(&mut blines, root, &LinkProbe::Unreadable, None, &entries));
    let mut seen = Vec::new();
    let mut cursor = 0;
    while let Some(id) = next_child(&mut blines, root) {
        cursor += 1;
        assert_eq!(lookup(&blines, root).unwrap().next_child_idx, cursor);
        seen.push(lookup(&blines, id).unwrap().name.clone());
    }
    assert_eq!(seen, vec!["a", "b", "c"]);
    assert_eq!(next_child(&mut blines, root), None);
    assert_eq!(lookup(&blines, root).unwrap().next_child_idx, 3);
}

#[test]
fn a_node_without_children_hands_out_none() {
    let (mut blines, root) = store_with_root(vec![]);
    assert_eq!(next_child(&mut blines, root), None);
    assert_eq!(lookup(&blines, root).unwrap().next_child_idx, 0);
    assert_eq!(next_child(&mut blines, BId { arena_id: root.arena_id, index: 5 }), None);
    let (_other, foreign) = store_with_root(vec![]);
    assert_eq!(next_child(&mut blines, foreign), None);
    assert!(add_children(&mut blines, root, &LinkProbe::Unreadable, None, &Vec::new()));
    assert_eq!(next_child(&mut blines, root), None);
}

#[test]
fn exploration_ends_at_the_cap_or_at_the_last_node() {
    let (mut blines, root) = store_with_root(vec![]);
    assert_eq!(next_to_expand(&blines, 0, 10), Some(root));
    assert_eq!(next_to_expand(&blines, 1, 10), None);
    assert_eq!(next_to_expand(&blines, 0, 1), None);
    assert_eq!(next_to_expand(&blines, 0, 0), None);
    let entries = vec![
        entry("a", EntryType::Dir, 0),
        entry("b", EntryType::Dir, 0),
        entry("c", EntryType::File, 0),
    ];
    assert!(add_children(&mut blines, root, &LinkProbe::Unreadable, None, &entries));
    for cursor in 0..4 {
        let expected = BId { arena_id: root.arena_id, index: cursor };
        assert_eq!(next_to_expand(&blines, cursor, 5), Some(expected));
        assert_eq!(next_to_expand(&blines, cursor, usize::MAX), Some(expected));
        // four nodes are there: a cap of four is reached
        assert_eq!(next_to_expand(&blines, cursor, 4), None);
    }
    assert_eq!(next_to_expand(&blines, 4, 5), None);
    assert_eq!(next_to_expand(&blines, usize::MAX, usize::MAX), None);
}
