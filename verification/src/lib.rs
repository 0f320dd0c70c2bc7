//! Name search over a directory tree.
//!
//! A search takes a root directory and a pattern and finds the files and
//! directories below the root whose bare name matches the pattern, without
//! regard to case. The library never reads a file system itself: a search
//! asks its caller for one directory listing at a time, so that the caller
//! may run it wherever blocking on a disk does no harm, and hand its one
//! delivery to whoever shows the results.
//!
//! - [`pattern`]: compiling a pattern and matching names against it.
//! - [`tree`]: directory entries, snapshots of a tree, and what a search
//!   finds in a snapshot.
//! - [`scanner`]: the resumable depth-first search.
//! - [`branch`]: what an unreadable directory costs a search.
//! - [`drive`]: a scanner answered from a snapshot agrees with the search of
//!   the snapshot.
//! - [`task`]: one search from request to delivery.
//! - [`consumer`]: the state of the one consumer of deliveries.

pub mod pattern;
pub mod tree;
pub mod scanner;
pub mod branch;
pub mod drive;
pub mod task;
pub mod consumer;
