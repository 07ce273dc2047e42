//! A directory tree held in memory: built once from a snapshot of a file
//! system, then read by path or searched with glob patterns.
//!
//! - [`path`]: the canonical form of a path, on which every comparison of
//!   paths rests.
//! - [`file`], [`dir`], [`entry`]: the tree, what makes it well formed, and
//!   the lookup of files and directories by path.
//! - [`builder`]: the tree built from the steps of a walk through a
//!   directory on disk.
//! - [`pattern`], [`globs`]: glob patterns, and the search of a tree for
//!   the entries that match one.
//! - [`codec`]: the tree written out as bytes and read back.
//! - [`tokens`]: the argument of the macro that embeds a directory.
//! - [`lookup_laws`], [`builder_laws`], [`pattern_laws`]: what is proved of
//!   all trees and all patterns.

pub mod builder;
pub mod builder_laws;
pub mod codec;
pub mod dir;
pub mod entry;
pub mod error;
pub mod file;
pub mod globs;
pub mod lookup_laws;
pub mod path;
pub mod pattern;
pub mod pattern_laws;
pub mod tokens;

pub use crate::builder::load_dir;
pub use crate::builder::Event;
pub use crate::builder::TreeBuilder;
pub use crate::dir::Dir;
pub use crate::entry::DirEntry;
pub use crate::error::Error;
pub use crate::file::File;
pub use crate::file::Metadata;
pub use crate::file::Timestamp;
pub use crate::globs::Globs;
pub use crate::pattern::Pattern;
