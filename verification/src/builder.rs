//! Building a tree from what a walk through a directory on disk reports.
//!
//! The walk itself is not done here. Whoever does it reports each step as
//! an [`Event`]; the builder decides where each entry goes, keeps every
//! path relative to the base, and refuses what does not fit.

use vstd::prelude::*;
use vstd::string::StringExecFns;
use crate::builder_laws::lemma_built_tree;
use crate::builder_laws::lemma_built_wf;
use crate::dir::wf_dir;
use crate::dir::dir_views;
use crate::dir::entry_paths;
use crate::dir::is_child;
use crate::dir::is_child_of;
use crate::dir::lemma_dir_views;
use crate::dir::lemma_dir_views_push;
use crate::dir::lemma_dir_views_take;
use crate::dir::Dir;
use crate::dir::DirView;
use crate::error::message_text;
use crate::error::Error;
use crate::error::ErrorView;
use crate::file::file_views;
use crate::file::File;
use crate::file::FileView;
use crate::file::Metadata;
use crate::file::Timestamp;
use crate::path::relative;
use crate::path::relative_to;

verus! {

/// How many directories may be open at once while a tree is built: the
/// root and, below it, one less than this many levels.
pub const MAX_DEPTH: usize = 64;

/// One step of a walk through a directory on disk.
#[derive(Debug, PartialEq, Eq)]
pub enum Event {
    /// A subdirectory of the directory that is open was entered.
    Enter { path: String },
    /// A file of the directory that is open was read. `modified` is when it
    /// was last changed, where the file system could tell.
    File { path: String, contents: Vec<u8>, modified: Option<Timestamp> },
    /// The directory that is open was left.
    Leave,
    /// The path could not be read; `cause` is what the system reported.
    Failed { path: String, cause: String },
    /// The path does not exist.
    Missing { path: String },
}

/// The mathematical value of an [`Event`].
pub ghost enum EventView {
    Enter { path: Seq<char> },
    File { path: Seq<char>, contents: Seq<u8>, modified: Option<Timestamp> },
    Leave,
    Failed { path: Seq<char>, cause: Seq<char> },
    Missing { path: Seq<char> },
}

impl View for Event {
    type V = EventView;

    open spec fn view(&self) -> EventView {
        match *self {
            Event::Enter { path } => EventView::Enter { path: path@ },
            Event::File { path, contents, modified } => EventView::File {
                path: path@,
                contents: contents@,
                modified,
            },
            Event::Leave => EventView::Leave,
            Event::Failed { path, cause } => EventView::Failed { path: path@, cause: cause@ },
            Event::Missing { path } => EventView::Missing { path: path@ },
        }
    }
}

/// The values of a run of events, in order.
pub open spec fn event_views(events: Seq<Event>) -> Seq<EventView> {
    events.map_values(|e: Event| e@)
}

/// A tree in the making: the base that paths are relative to, and the
/// directories that are open, the root first and the innermost last.
#[derive(Debug)]
pub struct TreeBuilder {
    pub base: String,
    pub open: Vec<Dir>,
}

/// The mathematical value of a [`TreeBuilder`].
pub ghost struct BuilderView {
    pub base: Seq<char>,
    pub open: Seq<DirView>,
}

impl View for TreeBuilder {
    type V = BuilderView;

    open spec fn view(&self) -> BuilderView {
        BuilderView { base: self.base@, open: dir_views(self.open@) }
    }
}

/// A directory with nothing in it.
pub open spec fn empty_dir(path: Seq<char>) -> DirView {
    DirView { path, files: Seq::empty(), dirs: Seq::empty() }
}

/// Whether an entry at `rel` can be put into `d`: it lies directly in `d`,
/// and `d` holds no entry of that path yet.
pub open spec fn fits(d: DirView, rel: Seq<char>) -> bool {
    is_child(d.path, rel) && !entry_paths(d).contains(rel)
}

/// The builder at the start: the root is open and empty. Its path is what
/// `root` is called from `base`, so it is empty where the two are the same
/// place.
pub open spec fn start(base: Seq<char>, root: Seq<char>) -> Result<BuilderView, ErrorView> {
    match relative(root, base) {
        Ok(rel) => Ok(BuilderView { base, open: seq![empty_dir(rel)] }),
        Err(e) => Err(e),
    }
}

/// `d` with one more file at its end.
pub open spec fn with_file(d: DirView, f: FileView) -> DirView {
    DirView { path: d.path, files: d.files.push(f), dirs: d.dirs }
}

/// `d` with one more subdirectory at its end.
pub open spec fn with_dir(d: DirView, sub: DirView) -> DirView {
    DirView { path: d.path, files: d.files, dirs: d.dirs.push(sub) }
}

/// What the builder becomes when the walk reports `event`, or the error
/// that ends the build:
/// - a path that cannot be made relative to the base gives the error of
///   [`relative`];
/// - an entry that does not fit the open directory is an `InvalidPath`, and
///   so is a `Leave` that would close the root;
/// - a directory entered while `MAX_DEPTH` are open is `TooDeep`;
/// - `Failed` is `Io`, and `Missing` is `NotFound`.
pub open spec fn step(b: BuilderView, event: EventView) -> Result<BuilderView, ErrorView> {
    match event {
        EventView::Failed { path, cause } => Err(ErrorView::Io { path, cause }),
        EventView::Missing { path } => Err(ErrorView::NotFound { path }),
        EventView::Leave => {
            if b.open.len() < 2 {
                Err(ErrorView::InvalidPath { path: Seq::empty() })
            } else {
                let parent = b.open[b.open.len() - 2];
                Ok(
                    BuilderView {
                        base: b.base,
                        open: b.open.take(b.open.len() - 2).push(with_dir(parent, b.open.last())),
                    },
                )
            }
        },
        EventView::Enter { path } => {
            match relative(path, b.base) {
                Err(e) => Err(e),
                Ok(rel) => {
                    if b.open.len() == 0 || !fits(b.open.last(), rel) {
                        Err(ErrorView::InvalidPath { path })
                    } else if b.open.len() >= MAX_DEPTH {
                        Err(ErrorView::TooDeep { path })
                    } else {
                        Ok(BuilderView { base: b.base, open: b.open.push(empty_dir(rel)) })
                    }
                },
            }
        },
        EventView::File { path, contents, modified } => {
            match relative(path, b.base) {
                Err(e) => Err(e),
                Ok(rel) => {
                    if b.open.len() == 0 || !fits(b.open.last(), rel) {
                        Err(ErrorView::InvalidPath { path })
                    } else {
                        let f = FileView {
                            path: rel,
                            contents,
                            metadata: Some(Metadata { modified_at: modified }),
                        };
                        Ok(
                            BuilderView {
                                base: b.base,
                                open: b.open.drop_last().push(with_file(b.open.last(), f)),
                            },
                        )
                    }
                },
            }
        },
    }
}

/// What the builder becomes when the walk reports `events` one after the
/// other, or the first error on the way.
pub open spec fn run(b: BuilderView, events: Seq<EventView>) -> Result<BuilderView, ErrorView>
    decreases events.len(),
{
    if events.len() == 0 {
        Ok(b)
    } else {
        match run(b, events.drop_last()) {
            Ok(before) => step(before, events.last()),
            Err(e) => Err(e),
        }
    }
}

/// The tree that the builder holds once the walk is over: the root, where
/// every directory below it has been left again.
pub open spec fn finished(b: BuilderView) -> Result<DirView, ErrorView> {
    if b.open.len() == 1 {
        Ok(b.open[0])
    } else {
        Err(ErrorView::InvalidPath { path: Seq::empty() })
    }
}

/// The tree built of the directory `root`, with paths relative to `base`,
/// from the events of a walk through it.
pub open spec fn built(base: Seq<char>, root: Seq<char>, events: Seq<EventView>) -> Result<
    DirView,
    ErrorView,
> {
    match start(base, root) {
        Err(e) => Err(e),
        Ok(b) => match run(b, events) {
            Err(e) => Err(e),
            Ok(after) => finished(after),
        },
    }
}

/// Once a front part of the events has failed, the whole has, with the same
/// error.
pub proof fn lemma_run_failed(b: BuilderView, events: Seq<EventView>, k: int)
    requires
        0 <= k <= events.len(),
        run(b, events.take(k)) is Err,
    ensures
        run(b, events) == run(b, events.take(k)),
    decreases events.len() - k,
{
    if k == events.len() {
        assert(events.take(k) =~= events);
    } else {
        assert(events.take(k + 1).drop_last() =~= events.take(k));
        lemma_run_failed(b, events, k + 1);
    }
}

/// Whether `d` holds an entry, file or directory, at the path `rel`.
fn holds_path(d: &Dir, rel: &String) -> (r: bool)
    ensures
        r == entry_paths(d@).contains(rel@),
{
    let ghost fpaths = d@.files.map_values(|f: FileView| f.path);
    let ghost dpaths = d@.dirs.map_values(|x: DirView| x.path);
    proof {
        lemma_dir_views(d.dirs@);
    }
    let mut i: usize = 0;
    while i < d.files.len()
        invariant
            i <= d.files.len(),
            fpaths == d@.files.map_values(|f: FileView| f.path),
            dpaths == d@.dirs.map_values(|x: DirView| x.path),
            forall|j: int| 0 <= j < i ==> fpaths[j] != rel@,
        decreases d.files.len() - i,
    {
        if d.files[i].path == *rel {
            assert(fpaths[i as int] == rel@);
            assert((fpaths + dpaths)[i as int] == rel@);
            return true;
        }
        i += 1;
    }
    let mut j: usize = 0;
    while j < d.dirs.len()
        invariant
            j <= d.dirs.len(),
            fpaths == d@.files.map_values(|f: FileView| f.path),
            dpaths == d@.dirs.map_values(|x: DirView| x.path),
            d@.dirs.len() == d.dirs.len(),
            forall|k: int| 0 <= k < d.dirs.len() ==> d@.dirs[k] == d.dirs@[k]@,
            forall|k: int| 0 <= k < fpaths.len() ==> fpaths[k] != rel@,
            forall|k: int| 0 <= k < j ==> dpaths[k] != rel@,
        decreases d.dirs.len() - j,
    {
        if d.dirs[j].path == *rel {
            assert(dpaths[j as int] == rel@);
            assert((fpaths + dpaths)[fpaths.len() + j] == rel@);
            return true;
        }
        j += 1;
    }
    proof {
        let all = fpaths + dpaths;
        assert forall|k: int| 0 <= k < all.len() implies all[k] != rel@ by {
            if k >= fpaths.len() {
                assert(all[k] == dpaths[k - fpaths.len()]);
            }
        }
    }
    false
}

fn fits_into(d: &Dir, rel: &String) -> (r: bool)
    ensures
        r == fits(d@, rel@),
{
    is_child_of(d.path.as_str(), rel.as_str()) && !holds_path(d, rel)
}

impl TreeBuilder {
    /// Starts a tree for the directory `root`, whose paths will be relative
    /// to `base`.
    pub fn new(base: &str, root: &str) -> (r: Result<TreeBuilder, Error>)
        ensures
            match start(base@, root@) {
                Ok(b) => r matches Ok(builder) && builder@ == b,
                Err(e) => r matches Err(f) && f@ == e,
            },
    {
        match relative_to(root, base) {
            Err(e) => Err(e),
            Ok(rel) => {
                let top = Dir { path: rel, files: Vec::new(), dirs: Vec::new() };
                let mut open: Vec<Dir> = Vec::new();
                proof {
                    assert(file_views(top.files@) =~= Seq::<FileView>::empty());
                    assert(top@ == empty_dir(rel@));
                    lemma_dir_views_push(open@, top);
                    assert(dir_views(open@).push(top@) =~= seq![top@]);
                }
                open.push(top);
                Ok(TreeBuilder { base: String::from_str(base), open })
            },
        }
    }

    /// Takes in one step of the walk. On an error the builder is left as it
    /// was.
    pub fn step(&mut self, event: Event) -> (r: Result<(), Error>)
        ensures
            match step(old(self)@, event@) {
                Ok(b) => r is Ok && final(self)@ == b,
                Err(e) => r matches Err(f) && f@ == e && final(self)@ == old(self)@,
            },
    {
        let ghost before = self.open@;
        proof {
            lemma_dir_views(before);
        }
        match event {
            Event::Failed { path, cause } => Err(Error::Io { path, cause }),
            Event::Missing { path } => Err(Error::NotFound { path }),
            Event::Leave => {
                if self.open.len() < 2 {
                    return Err(Error::InvalidPath { path: String::new() });
                }
                let top = self.open.pop().unwrap();
                let mut parent = self.open.pop().unwrap();
                let ghost rest = self.open@;
                let ghost parent_before = parent@;
                parent.dirs.push(top);
                proof {
                    lemma_dir_views_push(before[before.len() - 2].dirs@, top);
                    assert(rest =~= before.take(before.len() - 2));
                    lemma_dir_views_take(before, before.len() - 2);
                    assert(parent@ == with_dir(parent_before, top@));
                    lemma_dir_views_push(rest, parent);
                }
                self.open.push(parent);
                Ok(())
            },
            Event::Enter { path } => {
                let rel = match relative_to(path.as_str(), self.base.as_str()) {
                    Err(e) => {
                        return Err(e);
                    },
                    Ok(rel) => rel,
                };
                let n: usize = self.open.len();
                if n == 0 || !fits_into(&self.open[n - 1], &rel) {
                    return Err(Error::InvalidPath { path });
                }
                if n >= MAX_DEPTH {
                    return Err(Error::TooDeep { path });
                }
                let sub = Dir { path: rel, files: Vec::new(), dirs: Vec::new() };
                proof {
                    assert(file_views(sub.files@) =~= Seq::<FileView>::empty());
                    assert(sub@ == empty_dir(rel@));
                    lemma_dir_views_push(before, sub);
                }
                self.open.push(sub);
                Ok(())
            },
            Event::File { path, contents, modified } => {
                let rel = match relative_to(path.as_str(), self.base.as_str()) {
                    Err(e) => {
                        return Err(e);
                    },
                    Ok(rel) => rel,
                };
                let n: usize = self.open.len();
                if n == 0 || !fits_into(&self.open[n - 1], &rel) {
                    return Err(Error::InvalidPath { path });
                }
                let mut top = self.open.pop().unwrap();
                let ghost rest = self.open@;
                let ghost top_before = top@;
                let file = File {
                    path: rel,
                    contents,
                    metadata: Some(Metadata { modified_at: modified }),
                };
                let ghost files_before = top.files@;
                top.files.push(file);
                proof {
                    assert(file_views(top.files@) =~= file_views(files_before).push(file@));
                    assert(top@ == with_file(top_before, file@));
                    assert(rest =~= before.drop_last());
                    lemma_dir_views_take(before, before.len() - 1);
                    assert(before.take(before.len() - 1) =~= before.drop_last());
                    assert(dir_views(before).take(before.len() - 1) =~= dir_views(
                        before,
                    ).drop_last());
                    lemma_dir_views_push(rest, top);
                }
                self.open.push(top);
                Ok(())
            },
        }
    }

    /// Ends the build and hands out the tree. Where a directory below the
    /// root is still open, that is an [`Error::InvalidPath`].
    pub fn finish(self) -> (r: Result<Dir, Error>)
        ensures
            match finished(self@) {
                Ok(d) => r matches Ok(root) && root@ == d,
                Err(e) => r matches Err(f) && f@ == e,
            },
    {
        let mut open = self.open;
        proof {
            lemma_dir_views(open@);
        }
        if open.len() != 1 {
            return Err(Error::InvalidPath { path: String::new() });
        }
        Ok(open.pop().unwrap())
    }
}

/// What [`load_dir`] says in front of the error that ended a build.
pub open spec fn load_failure(e: ErrorView) -> Seq<char> {
    "Couldn't load the directory: "@ + message_text(e)
}

impl Dir {
    /// Builds the tree of the directory `root`, with paths relative to
    /// `base`, from the events of a walk through it. The first event that
    /// is refused ends the build with its error; no part of a tree is
    /// handed out then. The tree that comes of it is a well-formed
    /// directory.
    pub fn from_events(base: &str, root: &str, events: Vec<Event>) -> (r: Result<Dir, Error>)
        ensures
            match built(base@, root@, event_views(events@)) {
                Ok(d) => r matches Ok(tree) && tree@ == d && wf_dir(d),
                Err(e) => r matches Err(f) && f@ == e,
            },
    {
        let ghost all = event_views(events@);
        let ghost given = events@;
        let mut builder = match TreeBuilder::new(base, root) {
            Err(e) => {
                return Err(e);
            },
            Ok(b) => b,
        };
        let ghost first = builder@;
        proof {
            assert(all.take(0) =~= Seq::<EventView>::empty());
        }
        for event in iter: events
            invariant
                iter.seq() == given,
                all == event_views(given),
                start(base@, root@) == Ok::<BuilderView, ErrorView>(first),
                run(first, all.take(iter.index() as int)) == Ok::<BuilderView, ErrorView>(builder@),
        {
            proof {
                let k = iter.index() as int;
                assert(all.take(k + 1).drop_last() =~= all.take(k));
                assert(all.take(k + 1).last() == event@);
            }
            match builder.step(event) {
                Err(e) => {
                    proof {
                        lemma_run_failed(first, all, iter.index() + 1);
                    }
                    return Err(e);
                },
                Ok(()) => {},
            }
        }
        proof {
            assert(all.take(all.len() as int) =~= all);
            if built(base@, root@, all) is Ok {
                lemma_built_wf(base@, root@, all);
            }
        }
        builder.finish()
    }
}

/// Builds the tree of the directory `root` from the events of a walk
/// through it, with paths relative to `root` itself. The tree that comes of
/// it is well formed. A failure is told in words.
pub fn load_dir(root: &str, events: Vec<Event>) -> (r: Result<Dir, String>)
    ensures
        match built(root@, root@, event_views(events@)) {
            Ok(d) => r matches Ok(tree) && tree@ == d && tree.wf(),
            Err(e) => r matches Err(text) && text@ == load_failure(e),
        },
{
    proof {
        if built(root@, root@, event_views(events@)) is Ok {
            lemma_built_tree(root@, event_views(events@));
        }
    }
    match Dir::from_events(root, root, events) {
        Ok(tree) => Ok(tree),
        Err(e) => Err(String::from_str("Couldn't load the directory: ").concat(e.message().as_str())),
    }
}

} // verus!
