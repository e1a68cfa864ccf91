//! What a node records about its filesystem entry.

use vstd::prelude::*;

verus! {

/// The type of an entry as captured when it was discovered.
#[derive(Clone, Copy, Debug, PartialEq, Eq, Structural)]
pub enum EntryType {
    /// A directory.
    Dir,
    /// A symbolic link, whatever it points to.
    Symlink,
    /// Anything else: a regular file, a socket, a device.
    File,
}

impl EntryType {
    pub fn is_dir(&self) -> (r: bool)
        ensures
            r == (*self == EntryType::Dir),
    {
        match self {
            EntryType::Dir => true,
            _ => false,
        }
    }

    pub fn is_symlink(&self) -> (r: bool)
        ensures
            r == (*self == EntryType::Symlink),
    {
        match self {
            EntryType::Symlink => true,
            _ => false,
        }
    }
}

/// The traversal policy of a node: whether the builder may descend into it.
#[derive(Clone, Copy, Debug, PartialEq, Eq, Structural)]
pub enum SpecialHandling {
    /// No override: directories are entered, links are not followed.
    Default,
    /// Enter even through a symbolic link.
    Enter,
    /// Never enter.
    NoEnter,
}

} // verus!
