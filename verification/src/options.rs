//! The configuration of one build.

use vstd::prelude::*;

verus! {

/// What a search pattern is matched against.
#[derive(Clone, Copy, Debug, PartialEq, Eq, Structural)]
pub enum PatternObject {
    /// The last component of each entry's path.
    FileName,
    /// The path of each entry relative to the root.
    FileSubpath,
}

/// A search pattern: the expression and the text it is applied to.
#[derive(Clone, Debug, PartialEq, Eq)]
pub struct Pattern {
    pub object: PatternObject,
    pub expression: String,
}

impl Pattern {
    pub fn object(&self) -> (object: PatternObject)
        ensures
            object == self.object,
    {
        self.object
    }
}

/// The options of a build. They do not change while it runs.
#[derive(Clone, Debug, PartialEq, Eq)]
pub struct TreeOptions {
    /// The active search pattern.
    pub pattern: Pattern,
    /// How many lines the display can show: the trimming budget.
    pub max_lines: usize,
}

} // verus!
