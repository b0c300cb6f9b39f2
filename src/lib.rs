//! Intent manifests for commits, and their injection into merge conflicts.
pub mod authoring;
pub mod compact;
pub mod git;
pub mod marker;
pub mod migrate;
pub mod resolver;
pub mod rewrite;
pub mod text;
pub mod types;
