//! Reverts a "restore with backup": every preserved original named
//! `<name>.backup.YYYYMMDD` is swapped back into place over the restored copy.
//!
//! - `classify`: the backup-name pattern and the base it names.
//! - `tree`: a directory tree as read from disk, and the symlink policy.
//! - `walk`: the depth-first walk that finds (backup, original) pairs.
//! - `swap`: the three-step swap of a pair, and which pairs are swapped.
//! - `driver`: a whole run, from a tree to the steps to perform.
//! - `laws`, `rerun`: what holds of every run.

pub mod classify;
pub mod tree;
pub mod walk;
pub mod swap;
pub mod driver;
pub mod laws;
pub mod rerun;

pub use classify::classify;
pub use tree::{
    copy_chars, find_name, same_chars, should_classify, should_descend, Entry, EntryKind, Listing,
    Policy, Snapshot,
};
pub use walk::{walk, Fault, Found, Note, NoteKind, Pair};
pub use swap::{plan_outcomes, stash_name, swap_steps, Outcome, Step};
pub use driver::{collect_steps, revert, Run};
