//! A file of the tree: its path, its bytes, and what is known of its age.

use vstd::prelude::*;
use crate::path::is_canonical;

verus! {

/// A point in time, counted from the start of 1970 (UTC).
#[derive(Clone, Copy, Debug, PartialEq, Eq)]
pub struct Timestamp {
    /// Whole seconds.
    pub secs: u64,
    /// The rest, in nanoseconds.
    pub nanos: u32,
}

/// What the file system said of a file besides its contents.
#[derive(Clone, Copy, Debug, PartialEq, Eq)]
pub struct Metadata {
    /// When the file was last changed, where that could be read.
    pub modified_at: Option<Timestamp>,
}

/// A file of the tree.
#[derive(Debug, PartialEq, Eq)]
pub struct File {
    pub path: String,
    pub contents: Vec<u8>,
    pub metadata: Option<Metadata>,
}

/// The mathematical value of a [`File`].
pub ghost struct FileView {
    pub path: Seq<char>,
    pub contents: Seq<u8>,
    pub metadata: Option<Metadata>,
}

impl View for File {
    type V = FileView;

    open spec fn view(&self) -> FileView {
        FileView { path: self.path@, contents: self.contents@, metadata: self.metadata }
    }
}

/// The values of a run of files, in order.
pub open spec fn file_views(files: Seq<File>) -> Seq<FileView> {
    files.map_values(|f: File| f@)
}

/// A file is well formed when its path is canonical and names something.
pub open spec fn wf_file(f: FileView) -> bool {
    is_canonical(f.path) && f.path.len() > 0
}

impl File {
    /// The file's path from the root of the tree.
    pub fn path(&self) -> (p: &str)
        ensures
            p@ == self@.path,
    {
        self.path.as_str()
    }

    /// The file's bytes.
    pub fn contents(&self) -> (bytes: &[u8])
        ensures
            bytes@ == self@.contents,
    {
        self.contents.as_slice()
    }

    /// What is known of the file besides its contents.
    pub fn metadata(&self) -> (m: Option<Metadata>)
        ensures
            m == self@.metadata,
    {
        self.metadata
    }
}

} // verus!
