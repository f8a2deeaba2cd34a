//! A lazy, pull-based walker over a directory tree.
//!
//! The walker keeps a stack of directories still to be listed and a stack of
//! entries ready to hand out. Listing a directory is left to the caller: the
//! walker says which directory to list next, and the caller hands each child
//! back through `Walk::handle_entry`.
mod entry;
mod filters;
mod walker;
pub mod laws;
pub mod traversal;

pub use entry::{any_ignores, chain_ignores, Entry, EntryFilter, EntryKind};
pub use filters::{path_filter_ignores, path_filters_ignore};
pub use walker::{PathWalker, Step, Walk, WalkConfig, WalkState};
