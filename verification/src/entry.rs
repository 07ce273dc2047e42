//! The entries of a tree, files and directories alike, and the order in
//! which a walk through the tree meets them.

use vstd::prelude::*;
use crate::dir::Dir;
use crate::dir::DirView;
use crate::file::File;
use crate::file::FileView;

verus! {

/// A file or a directory of the tree.
#[derive(Clone, Copy, Debug, PartialEq, Eq)]
pub enum DirEntry<'a> {
    /// A file.
    File(&'a File),
    /// A directory.
    Dir(&'a Dir),
}

/// The mathematical value of a [`DirEntry`].
pub ghost enum EntryView {
    File(FileView),
    Dir(DirView),
}

impl EntryView {
    /// The entry's path from the root of the tree.
    pub open spec fn path(self) -> Seq<char> {
        match self {
            EntryView::File(f) => f.path,
            EntryView::Dir(d) => d.path,
        }
    }
}

impl<'a> View for DirEntry<'a> {
    type V = EntryView;

    open spec fn view(&self) -> EntryView {
        match *self {
            DirEntry::File(f) => EntryView::File(f@),
            DirEntry::Dir(d) => EntryView::Dir(d@),
        }
    }
}

impl<'a> DirEntry<'a> {
    /// The entry's path from the root of the tree.
    pub fn path(&self) -> (p: &'a str)
        ensures
            p@ == self@.path(),
    {
        match self {
            DirEntry::File(f) => f.path.as_str(),
            DirEntry::Dir(d) => d.path.as_str(),
        }
    }
}

/// The entries of the tree below and including `d`, in the order of a walk
/// that visits a directory first, then its files as listed, then each of
/// its subdirectories in turn, as listed.
pub open spec fn entries(d: DirView) -> Seq<EntryView>
    decreases d, 1int,
{
    seq![EntryView::Dir(d)] + d.files.map_values(|f: FileView| EntryView::File(f)) + entries_in(
        d.dirs,
    )
}

/// The entries of the trees below and including each of `dirs`, one tree
/// after the other.
pub open spec fn entries_in(dirs: Seq<DirView>) -> Seq<EntryView>
    decreases dirs, 0int,
{
    if dirs.len() == 0 {
        Seq::empty()
    } else {
        entries_in(dirs.drop_last()) + entries(dirs.last())
    }
}

/// Where the entries of one of `dirs` stand among those of all of them.
pub proof fn lemma_entries_in_holds(dirs: Seq<DirView>, m: int, k: int) -> (j: int)
    requires
        0 <= m < dirs.len(),
        0 <= k < entries(dirs[m]).len(),
    ensures
        0 <= j < entries_in(dirs).len(),
        entries_in(dirs)[j] == entries(dirs[m])[k],
    decreases dirs.len(),
{
    if m == dirs.len() - 1 {
        entries_in(dirs.drop_last()).len() + k
    } else {
        lemma_entries_in_holds(dirs.drop_last(), m, k)
    }
}

/// From which of `dirs` an entry among those of all of them comes.
pub proof fn lemma_entries_in_from(dirs: Seq<DirView>, j: int) -> (at: (int, int))
    requires
        0 <= j < entries_in(dirs).len(),
    ensures
        0 <= at.0 < dirs.len(),
        0 <= at.1 < entries(dirs[at.0]).len(),
        entries_in(dirs)[j] == entries(dirs[at.0])[at.1],
    decreases dirs.len(),
{
    let front = entries_in(dirs.drop_last());
    if j < front.len() {
        lemma_entries_in_from(dirs.drop_last(), j)
    } else {
        (dirs.len() - 1, j - front.len())
    }
}

} // verus!
