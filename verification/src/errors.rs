//! The one failure that aborts a build.

use vstd::prelude::*;

verus! {

/// Why a tree could not be built at all.
#[derive(Clone, Debug, PartialEq, Eq)]
pub enum TreeBuildError {
    /// The root's metadata could not be read; `path` is the debug rendering
    /// of the path that was tried.
    FileNotFound { path: String },
}

impl TreeBuildError {
    /// The text of the path that the error carries.
    pub fn path_text(&self) -> (text: &String)
        ensures
            *text == self->path,
    {
        match self {
            TreeBuildError::FileNotFound { path } => path,
        }
    }
}

} // verus!
