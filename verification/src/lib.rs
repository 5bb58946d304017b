//! Sub-hunk splitting ("line-by-line commits"): the hunk-range arithmetic of
//! unified diffs, the row model of a hunk body, and the override store that
//! carves natural hunks into sub-hunks and keeps those splits alive while the
//! worktree changes underneath them.
pub mod hunks;
pub mod lines;
pub mod rows;
pub mod headers;
pub mod partition;
pub mod body;
pub mod external;
pub mod model;
pub mod overrides;
pub mod sorting;
pub mod migrate;
pub mod apply;
pub mod store;
pub mod text;
pub mod persist;
pub mod remap;
pub mod api;
pub mod image;
