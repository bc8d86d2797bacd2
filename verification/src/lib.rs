//! An in-memory tree of a file-system subtree: for every file and directory
//! below a path its name, its canonical path, its byte size and, for a
//! directory, the trees of its entries.
//!
//! The library never touches the file system. A build is a [`walk::Walk`]: it
//! asks for one operation at a time, takes what came of it, and ends with a
//! [`node::FileNode`] or with an [`error::FsError`]. Whoever drives the walk
//! performs the operations.
//!
//! - [`path`]: path text, and the canonical form of an entry's path;
//! - [`node`]: the nodes of a tree, and what holds of every one of them;
//! - [`error`]: the failures of a build;
//! - [`walk`]: the build, step by step;
//! - [`model`]: the tree of a path in a file system at rest, and the proof
//!   that a walk builds exactly it;
//! - [`laws`]: what follows for every build.

pub mod error;
pub mod laws;
pub mod model;
pub mod node;
pub mod path;
pub mod walk;
