//! Ordering and rebasing of stacked pull requests: the dependency order of
//! a set of pull requests, the index of checked-out worktrees, the tree
//! shown to the operator, and the decisions of the rebase run.

pub mod command;
pub mod descriptor;
pub mod error;
pub mod fetch;
pub mod listing;
pub mod orchestrate;
pub mod palette;
pub mod plan;
pub mod preflight;
pub mod sort;
pub mod text;
pub mod tree;
pub mod worktree;
