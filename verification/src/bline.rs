//! The node of a tree under construction, and the three decisions that are
//! taken on a single node: how the root is made, whether a node may be
//! entered, and how a node is shown.

use crate::entry::{EntryType, SpecialHandling};
use crate::errors::TreeBuildError;
use crate::ignore::GitIgnoreChain;
use crate::options::{PatternObject, TreeOptions};
use crate::paths::{
    debug_text_of, file_name_of, is_relative_path, joined, lossy_text_of, parent_of,
    path_debug_text, path_file_name, path_from_text, path_has_prefix,
    path_is_relative, path_join, path_lossy_text, path_of_text, path_parent,
    path_starts_with,
};
use crate::shape::{carries_match, is_child_of, node_wf, well_formed};
use crate::store::{arena_alloc, arena_nodes, arena_tag, forest};
use crate::tree_line::{TreeLine, TreeLineType, TreeLineTypeView, TreeLineView};
use id_arena::Arena;
use std::path::PathBuf;
use vstd::prelude::*;

verus! {

/// The handle of a node: the number of the arena that holds it and its
/// position there.
#[derive(Clone, Copy, Debug, PartialEq, Eq, Structural)]
pub struct BId {
    pub arena_id: u32,
    pub index: usize,
}

/// A tree line with what the build needs to know of it.
#[derive(Clone, Debug)]
pub struct BLine {
    pub parent_id: Option<BId>,
    pub path: PathBuf,
    pub depth: u16,
    pub name: String,
    pub file_type: EntryType,
    /// Sorted and filtered; absent until the node is expanded.
    pub children: Option<Vec<BId>>,
    /// How many of the children the iteration has handed out.
    pub next_child_idx: usize,
    pub has_error: bool,
    pub has_match: bool,
    pub direct_match: bool,
    pub score: i32,
    /// Set by the trimming; zero before it.
    pub nb_kept_children: i32,
    pub git_ignore_chain: GitIgnoreChain,
    pub special_handling: SpecialHandling,
}

/// A node as a mathematical value.
pub struct BLineView {
    pub parent_id: Option<BId>,
    pub path: PathBuf,
    pub depth: u16,
    pub name: Seq<char>,
    pub file_type: EntryType,
    pub children: Option<Seq<BId>>,
    pub next_child_idx: usize,
    pub has_error: bool,
    pub has_match: bool,
    pub direct_match: bool,
    pub score: i32,
    pub nb_kept_children: i32,
    pub git_ignore_chain: Seq<usize>,
    pub special_handling: SpecialHandling,
}

impl View for BLine {
    type V = BLineView;

    open spec fn view(&self) -> BLineView {
        BLineView {
            parent_id: self.parent_id,
            path: self.path,
            depth: self.depth,
            name: self.name@,
            file_type: self.file_type,
            children: match self.children {
                Some(children) => Some(children@),
                None => None,
            },
            next_child_idx: self.next_child_idx,
            has_error: self.has_error,
            has_match: self.has_match,
            direct_match: self.direct_match,
            score: self.score,
            nb_kept_children: self.nb_kept_children,
            git_ignore_chain: self.git_ignore_chain@,
            special_handling: self.special_handling,
        }
    }
}

/// What the filesystem said of the link at a node's path.
#[derive(Clone, Debug, PartialEq, Eq)]
pub enum LinkProbe {
    /// The link could not be read.
    Unreadable,
    /// The link reads `target`; `target_type` is the type found at the
    /// resolved target without following a further link, or nothing if
    /// that could not be read.
    Target { target: PathBuf, target_type: Option<EntryType> },
}

/// Where a link found at `path` points: `target` itself if it is absolute,
/// else `target` taken from the directory that contains `path`. A relative
/// target of a path without a containing directory points nowhere.
pub open spec fn link_target_path(path: PathBuf, target: PathBuf) -> Option<PathBuf> {
    if is_relative_path(target) {
        match parent_of(path) {
            Some(dir) => Some(joined(dir, target)),
            None => None,
        }
    } else {
        Some(target)
    }
}

/// Tells where a link found at `path` that reads `target` points.
pub fn link_target(path: &PathBuf, target: &PathBuf) -> (target_path: Option<PathBuf>)
    ensures
        target_path == link_target_path(*path, *target),
{
    if path_is_relative(target) {
        match path_parent(path) {
            Some(dir) => Some(path_join(&dir, target)),
            None => None,
        }
    } else {
        Some(target.clone())
    }
}

impl LinkProbe {
    /// The type found where the link at `path` points; nothing, where the
    /// link or its target could not be read, or the target leads nowhere.
    pub open spec fn found(self, path: PathBuf) -> Option<EntryType> {
        match self {
            LinkProbe::Target { target, target_type } => if link_target_path(path, target)
                is Some {
                target_type
            } else {
                None
            },
            LinkProbe::Unreadable => None,
        }
    }

    /// The same for the target as its text spells it, which is the target
    /// that a line shows.
    pub open spec fn found_as_shown(self, path: PathBuf) -> Option<EntryType> {
        match self {
            LinkProbe::Target { target, target_type } => if link_target_path(
                path,
                path_of_text(lossy_text_of(target)),
            ) is Some {
                target_type
            } else {
                None
            },
            LinkProbe::Unreadable => None,
        }
    }

    /// Tells the type found where the link at `path` points.
    pub fn type_found(&self, path: &PathBuf) -> (found: Option<EntryType>)
        ensures
            found == self.found(*path),
    {
        match self {
            LinkProbe::Target { target, target_type } => match link_target(path, target) {
                Some(_) => *target_type,
                None => None,
            },
            LinkProbe::Unreadable => None,
        }
    }

    /// Tells the type found where the link at `path` points, the target
    /// taken as its text spells it.
    pub fn type_found_as_shown(&self, path: &PathBuf) -> (found: Option<EntryType>)
        ensures
            found == self.found_as_shown(*path),
    {
        match self {
            LinkProbe::Target { target, target_type } => {
                let shown = path_from_text(&path_lossy_text(target));
                match link_target(path, &shown) {
                    Some(_) => *target_type,
                    None => None,
                }
            },
            LinkProbe::Unreadable => None,
        }
    }
}

/// The name of a root: empty where the pattern is matched against subpaths,
/// so that the root's own segment is not counted; else the last component
/// of its path.
pub open spec fn root_name(path: PathBuf, object: PatternObject) -> Seq<char> {
    if object == PatternObject::FileSubpath {
        Seq::<char>::empty()
    } else {
        match file_name_of(path) {
            Some(name) => name,
            None => "???"@,
        }
    }
}

/// The node that a root starts as.
pub open spec fn root_node(
    path: PathBuf,
    object: PatternObject,
    file_type: EntryType,
    chain: Seq<usize>,
) -> BLineView {
    BLineView {
        parent_id: None,
        path,
        depth: 0,
        name: root_name(path, object),
        file_type,
        children: None,
        next_child_idx: 0,
        has_error: false,
        has_match: true,
        direct_match: false,
        score: 0,
        nb_kept_children: 0,
        git_ignore_chain: chain,
        special_handling: SpecialHandling::Default,
    }
}

impl BLineView {
    /// The cursor has not run past the children.
    pub open spec fn cursor_in_range(self) -> bool {
        self.children matches Some(children) ==> self.next_child_idx <= children.len()
    }

    /// Whether the children of the node are to be listed, given what the
    /// filesystem said of the link at its path.
    pub open spec fn can_enter(self, probe: LinkProbe) -> bool {
        ||| self.file_type == EntryType::Dir && self.special_handling != SpecialHandling::NoEnter
        ||| {
            &&& self.special_handling == SpecialHandling::Enter
            &&& self.file_type == EntryType::Symlink
            &&& probe matches LinkProbe::Target { target, .. }
            &&& probe.found(self.path) == Some(EntryType::Dir)
            &&& link_target_path(self.path, target) matches Some(target_path)
            &&& !path_starts_with(self.path, target_path)
        }
    }

    /// The kind of line the node is shown as.
    pub open spec fn line_type(self, probe: LinkProbe) -> TreeLineTypeView {
        if self.file_type == EntryType::Dir {
            TreeLineTypeView::Dir
        } else if self.file_type == EntryType::Symlink {
            match probe {
                LinkProbe::Target { target, .. } => {
                    if probe.found_as_shown(self.path) == Some(EntryType::Dir) {
                        TreeLineTypeView::SymLinkToDir(lossy_text_of(target))
                    } else {
                        TreeLineTypeView::SymLinkToFile(lossy_text_of(target))
                    }
                },
                LinkProbe::Unreadable => TreeLineTypeView::SymLinkToFile("????"@),
            }
        } else {
            TreeLineTypeView::File
        }
    }

    /// Whether showing the node meets an error: the node carries one
    /// already, or it is a link and nothing was found where it points.
    pub open spec fn line_has_error(self, probe: LinkProbe) -> bool {
        ||| self.has_error
        ||| self.file_type == EntryType::Symlink && probe.found_as_shown(self.path) is None
    }

    /// How many children the iteration has not reached.
    pub open spec fn unlisted(self) -> int {
        match self.children {
            Some(children) => children.len() - self.next_child_idx,
            None => 0,
        }
    }

    /// The line that the node is shown as.
    pub open spec fn tree_line<M>(self, probe: LinkProbe, metadata: M) -> TreeLineView<M> {
        TreeLineView {
            left_branchs: Seq::new(self.depth as nat, |i: int| false),
            depth: self.depth,
            name: self.name,
            path: self.path,
            line_type: self.line_type(probe),
            has_error: self.line_has_error(probe),
            nb_kept_children: self.nb_kept_children as usize,
            unlisted: self.unlisted() as usize,
            score: self.score,
            direct_match: self.direct_match,
            size: None,
            metadata,
            git_status: None,
        }
    }
}

impl BLine {
    /// Makes the root of a tree in `blines`. `file_type` is what reading the
    /// metadata of `path` gave, following links; nothing, if it could not be
    /// read. Then no node is made and the error carries the path.
    pub fn from_root(
        blines: &mut Arena<BLine>,
        path: PathBuf,
        git_ignore_chain: GitIgnoreChain,
        options: &TreeOptions,
        file_type: Option<EntryType>,
    ) -> (res: Result<BId, TreeBuildError>)
        ensures
            arena_tag(*final(blines)) == arena_tag(*old(blines)),
            file_type is None ==> ({
                &&& res matches Err(TreeBuildError::FileNotFound { path: text })
                &&& text@ == debug_text_of(path)
                &&& arena_nodes(*final(blines)) == arena_nodes(*old(blines))
            }),
            file_type matches Some(found) ==> ({
                &&& res == Ok::<BId, TreeBuildError>(
                    BId {
                        arena_id: arena_tag(*old(blines)),
                        index: forest(*old(blines)).len() as usize,
                    },
                )
                &&& forest(*final(blines)) == forest(*old(blines)).push(
                    root_node(path, options.pattern.object, found, git_ignore_chain@),
                )
            }),
            file_type is Some && options.pattern.object == PatternObject::FileSubpath ==> forest(
                *final(blines),
            ).last().name == Seq::<char>::empty(),
            well_formed(forest(*old(blines)), arena_tag(*old(blines))) ==> well_formed(
                forest(*final(blines)),
                arena_tag(*final(blines)),
            ),
    {
        let name = if options.pattern.object() == PatternObject::FileSubpath {
            String::new()
        } else {
            match path_file_name(&path) {
                Some(name) => name,
                None => "???".to_owned(),
            }
        };
        let special_handling = SpecialHandling::Default;
        if let Some(file_type) = file_type {
            let ghost before = forest(*blines);
            let node = BLine {
                parent_id: None,
                path,
                depth: 0,
                name,
                children: None,
                next_child_idx: 0,
                file_type,
                has_error: false,
                has_match: true,
                direct_match: false,
                score: 0,
                nb_kept_children: 0,
                git_ignore_chain,
                special_handling,
            };
            let id = arena_alloc(blines, node);
            proof {
                let after = forest(*blines);
                let tag = arena_tag(*blines);
                assert(after =~= before.push(node@));
                if well_formed(before, tag) {
                    assert forall|i: int| 0 <= i < after.len() implies node_wf(after, tag, i) by {
                        assert(forall|j: int|
                            0 <= j < before.len() ==> (is_child_of(after, j, i) <==> is_child_of(
                                before,
                                j,
                                i,
                            )));
                        if i < before.len() {
                            assert(node_wf(before, tag, i));
                        } else {
                            assert forall|j: int| 0 <= j < before.len() implies !is_child_of(
                                before,
                                j,
                                i,
                            ) by {
                                assert(node_wf(before, tag, j));
                            }
                        }
                    }
                    assert forall|i: int| 0 <= i < after.len() implies carries_match(
                        after,
                        tag,
                        i,
                    ) by {
                        if i < before.len() {
                            assert(carries_match(before, tag, i));
                        }
                    }
                }
            }
            Ok(id)
        } else {
            Err(TreeBuildError::FileNotFound { path: path_debug_text(&path) })
        }
    }

    /// The path at which the target of the link at this node is to be
    /// looked up before asking `can_enter`.
    pub fn resolve_link(&self, target: &PathBuf) -> (target_path: Option<PathBuf>)
        ensures
            target_path == link_target_path(self.path, *target),
    {
        link_target(&self.path, target)
    }

    /// The path at which the target of the link at this node is to be
    /// looked up before showing the node: the target as its text spells it.
    pub fn resolve_shown_link(&self, target: &PathBuf) -> (target_path: Option<PathBuf>)
        ensures
            target_path == link_target_path(self.path, path_of_text(lossy_text_of(*target))),
    {
        let text = path_lossy_text(target);
        let shown = path_from_text(&text);
        self.resolve_link(&shown)
    }

    /// Tells whether `can_enter` depends on what the link at this node
    /// reads: where it does not, the link need not be read, and any probe
    /// will do.
    pub fn wants_link_probe(&self) -> (wanted: bool)
        ensures
            wanted == (self.special_handling == SpecialHandling::Enter && self.file_type
                == EntryType::Symlink),
            !wanted ==> forall|first: LinkProbe, second: LinkProbe|
                self@.can_enter(first) == self@.can_enter(second),
    {
        self.special_handling == SpecialHandling::Enter && self.file_type.is_symlink()
    }

    /// Tells whether the children of this node should be listed.
    pub fn can_enter(&self, probe: &LinkProbe) -> (enter: bool)
        ensures
            enter == self@.can_enter(*probe),
            // a plain file is never entered, nor a node that is not to be
            self.file_type == EntryType::File || self.special_handling == SpecialHandling::NoEnter
                ==> !enter,
            self.file_type == EntryType::Dir && self.special_handling != SpecialHandling::NoEnter
                ==> enter,
            // a link is never followed back to a directory that its own path lies in
            ({
                &&& self.file_type == EntryType::Symlink
                &&& probe matches LinkProbe::Target { target, .. }
                &&& link_target_path(self.path, *target) matches Some(target_path)
                &&& path_starts_with(self.path, target_path)
            }) ==> !enter,
            // and is followed, where that is asked for, to a directory elsewhere
            ({
                &&& self.file_type == EntryType::Symlink
                &&& self.special_handling == SpecialHandling::Enter
                &&& probe matches LinkProbe::Target { target, target_type }
                &&& target_type == Some(EntryType::Dir)
                &&& link_target_path(self.path, *target) matches Some(target_path)
                &&& !path_starts_with(self.path, target_path)
            }) ==> enter,
    {
        if self.file_type.is_dir() && self.special_handling != SpecialHandling::NoEnter {
            return true;
        }
        if self.special_handling == SpecialHandling::Enter {
            if self.file_type.is_symlink() {
                if let LinkProbe::Target { target, target_type } = probe {
                    if let Some(target_path) = self.resolve_link(target) {
                        if let Some(target_type) = target_type {
                            if target_type.is_dir() {
                                if !path_has_prefix(&self.path, &target_path) {
                                    return true;
                                }
                            }
                        }
                    }
                }
            }
        }
        false
    }

    /// Makes the line that this node is shown as. `metadata` is what reading
    /// the metadata of the node's path gave, without following a link; a
    /// failure there is handed back as it is.
    pub fn to_tree_line<M, E>(&self, probe: &LinkProbe, metadata: Result<M, E>) -> (res: Result<
        TreeLine<M>,
        E,
    >)
        requires
            self@.cursor_in_range(),
        ensures
            metadata matches Err(e) ==> res == Err::<TreeLine<M>, E>(e),
            metadata matches Ok(m) ==> res matches Ok(line) && line@ == self@.tree_line(*probe, m),
    {
        let mut has_error = self.has_error;
        let line_type = if self.file_type.is_dir() {
            TreeLineType::Dir
        } else if self.file_type.is_symlink() {
            match probe {
                LinkProbe::Target { target, .. } => {
                    let target = path_lossy_text(target);
                    match probe.type_found_as_shown(&self.path) {
                        Some(target_type) => {
                            if target_type.is_dir() {
                                TreeLineType::SymLinkToDir(target)
                            } else {
                                TreeLineType::SymLinkToFile(target)
                            }
                        },
                        None => {
                            has_error = true;
                            TreeLineType::SymLinkToFile(target)
                        },
                    }
                },
                LinkProbe::Unreadable => {
                    has_error = true;
                    TreeLineType::SymLinkToFile("????".to_owned())
                },
            }
        } else {
            TreeLineType::File
        };
        let unlisted = match &self.children {
            Some(children) => children.len() - self.next_child_idx,
            None => 0,
        };
        let metadata = match metadata {
            Ok(metadata) => metadata,
            Err(e) => {
                return Err(e);
            },
        };
        let mut left_branchs: Vec<bool> = Vec::new();
        let mut level: u16 = 0;
        while level < self.depth
            invariant
                level <= self.depth,
                left_branchs@ == Seq::new(level as nat, |i: int| false),
            decreases self.depth - level,
        {
            left_branchs.push(false);
            level += 1;
            assert(left_branchs@ =~= Seq::new(level as nat, |i: int| false));
        }
        let line = TreeLine {
            left_branchs,
            depth: self.depth,
            name: TreeLine::<M>::make_displayable_name(&self.name),
            path: self.path.clone(),
            line_type,
            has_error,
            nb_kept_children: #[verifier::truncate] (self.nb_kept_children as usize),
            unlisted,
            score: self.score,
            direct_match: self.direct_match,
            size: None,
            metadata,
            git_status: None,
        };
        Ok(line)
    }
}

} // verus!
