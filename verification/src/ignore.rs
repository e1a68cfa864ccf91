//! The chain of ignore-rule sets that a node inherits.

use vstd::prelude::*;

verus! {

/// The rule sets that apply below a directory, outermost first, each named
/// by the handle under which the rule files are kept. A chain is never
/// changed: extending it makes a new one.
#[derive(Clone, Debug, PartialEq, Eq)]
pub struct GitIgnoreChain {
    pub file_ids: Vec<usize>,
}

impl View for GitIgnoreChain {
    type V = Seq<usize>;

    open spec fn view(&self) -> Seq<usize> {
        self.file_ids@
    }
}

impl GitIgnoreChain {
    /// The chain without any rule set.
    pub fn empty() -> (chain: GitIgnoreChain)
        ensures
            chain@ == Seq::<usize>::empty(),
    {
        GitIgnoreChain { file_ids: Vec::new() }
    }

    /// A copy of the chain.
    pub fn duplicate(&self) -> (chain: GitIgnoreChain)
        ensures
            chain@ == self@,
    {
        let mut file_ids: Vec<usize> = Vec::new();
        let mut i: usize = 0;
        while i < self.file_ids.len()
            invariant
                i <= self.file_ids.len(),
                file_ids@ == self.file_ids@.take(i as int),
            decreases self.file_ids.len() - i,
        {
            file_ids.push(self.file_ids[i]);
            i += 1;
        }
        GitIgnoreChain { file_ids }
    }

    /// The chain with one more rule set layered on top; `self` is left as
    /// it was.
    pub fn extended(&self, file_id: usize) -> (chain: GitIgnoreChain)
        ensures
            chain@ == self@.push(file_id),
    {
        let mut chain = self.duplicate();
        chain.file_ids.push(file_id);
        chain
    }
}

} // verus!
