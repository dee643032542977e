//! Port allocation and worktree-registry core of a worktree manager.
//!
//! The library owns the logic with invariants to protect: reserving
//! contiguous blocks of TCP ports for worktrees, keeping the shared
//! allocation table free of overlapping claims, pruning entries whose
//! worktree has disappeared, and resolving worktree records by name.
//! File and process I/O stays with the calling binary, which hands the
//! library plain values.

pub mod allocator;
pub mod checker;
pub mod paths;
pub mod registry;
pub mod strings;
pub mod terminal;
