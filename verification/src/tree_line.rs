//! The line record that a kept node is shown as.

use std::path::PathBuf;
use vstd::prelude::*;

verus! {

/// What kind of line a node is shown as. A link carries the text of its
/// target.
#[derive(Clone, Debug, PartialEq, Eq)]
pub enum TreeLineType {
    Dir,
    File,
    SymLinkToDir(String),
    SymLinkToFile(String),
}

/// A line type with the target text as a sequence of characters.
pub enum TreeLineTypeView {
    Dir,
    File,
    SymLinkToDir(Seq<char>),
    SymLinkToFile(Seq<char>),
}

impl View for TreeLineType {
    type V = TreeLineTypeView;

    open spec fn view(&self) -> TreeLineTypeView {
        match *self {
            TreeLineType::Dir => TreeLineTypeView::Dir,
            TreeLineType::File => TreeLineTypeView::File,
            TreeLineType::SymLinkToDir(target) => TreeLineTypeView::SymLinkToDir(target@),
            TreeLineType::SymLinkToFile(target) => TreeLineTypeView::SymLinkToFile(target@),
        }
    }
}

/// The version-control status of a line, as a set of status bits.
#[derive(Clone, Copy, Debug, PartialEq, Eq, Structural)]
pub struct LineGitStatus {
    pub status: u32,
}

/// One line of the displayed tree. `M` is the metadata that the caller read
/// for the entry; the line carries it untouched.
#[derive(Clone, Debug)]
pub struct TreeLine<M> {
    /// One flag per level, for drawing the branches; all unset at first.
    pub left_branchs: Vec<bool>,
    pub depth: u16,
    pub name: String,
    pub path: PathBuf,
    pub line_type: TreeLineType,
    pub has_error: bool,
    pub nb_kept_children: usize,
    /// How many children of the node the iteration has not reached.
    pub unlisted: usize,
    pub score: i32,
    pub direct_match: bool,
    pub size: Option<u64>,
    pub metadata: M,
    pub git_status: Option<LineGitStatus>,
}

/// A line as a mathematical value.
pub struct TreeLineView<M> {
    pub left_branchs: Seq<bool>,
    pub depth: u16,
    pub name: Seq<char>,
    pub path: PathBuf,
    pub line_type: TreeLineTypeView,
    pub has_error: bool,
    pub nb_kept_children: usize,
    pub unlisted: usize,
    pub score: i32,
    pub direct_match: bool,
    pub size: Option<u64>,
    pub metadata: M,
    pub git_status: Option<LineGitStatus>,
}

impl<M> View for TreeLine<M> {
    type V = TreeLineView<M>;

    open spec fn view(&self) -> TreeLineView<M> {
        TreeLineView {
            left_branchs: self.left_branchs@,
            depth: self.depth,
            name: self.name@,
            path: self.path,
            line_type: self.line_type@,
            has_error: self.has_error,
            nb_kept_children: self.nb_kept_children,
            unlisted: self.unlisted,
            score: self.score,
            direct_match: self.direct_match,
            size: self.size,
            metadata: self.metadata,
            git_status: self.git_status,
        }
    }
}

impl<M> TreeLine<M> {
    /// The name as it is shown: the node's name, character for character.
    pub fn make_displayable_name(name: &String) -> (shown: String)
        ensures
            shown@ == name@,
    {
        name.clone()
    }
}

} // verus!
