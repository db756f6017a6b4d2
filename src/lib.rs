//! Plumbing of a small version-control tool: a content-addressed object
//! store, the binary index codec, the folding of a flat index into nested
//! trees, and the tree and commit object grammars.

pub mod types;
pub mod parse;
pub mod cache;
pub mod tree;
pub mod index;
pub mod treebuild;
pub mod commit;
pub mod refs;
pub mod worktree;
