//! Candidate-tree construction and budget-constrained trimming for a
//! filesystem explorer.
//!
//! The nodes of one build live in an [`id_arena::Arena`]; every rule that
//! decides what enters the tree, what is kept for display and how a kept
//! node is shown is stated as a contract and proved.

pub mod bline;
pub mod builder;
pub mod entry;
pub mod errors;
pub mod ignore;
pub mod listing;
pub mod options;
pub mod paths;
pub mod shape;
pub mod store;
pub mod text_order;
pub mod tree_line;
pub mod trim;
