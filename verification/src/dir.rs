//! A directory of the tree, and the lookup of entries by path.

use vstd::prelude::*;
use vstd::string::StrSliceExecFns;
use crate::file::file_views;
use crate::file::wf_file;
use crate::file::File;
use crate::file::FileView;
use crate::path::is_canonical;
use crate::path::name_of;
use crate::path::normalize;
use crate::path::stored_spans;
use crate::path::path_segments;
use crate::path::same_text;
use crate::path::segment_spans;
use crate::path::segments;
use crate::path::span_text;
use crate::path::spans_ok;
use crate::path::spans_text;
use crate::path::split_spans;
use crate::path::to_chars;
use crate::path::Span;

verus! {

/// A directory of the tree: its path, its files and its subdirectories,
/// each in the order in which the file system listed them.
#[derive(Debug, PartialEq, Eq)]
pub struct Dir {
    pub path: String,
    pub files: Vec<File>,
    pub dirs: Vec<Dir>,
}

/// The mathematical value of a [`Dir`].
pub ghost struct DirView {
    pub path: Seq<char>,
    pub files: Seq<FileView>,
    pub dirs: Seq<DirView>,
}

/// The value of a directory.
pub open spec fn dir_view(d: Dir) -> DirView
    decreases d, 1int,
{
    DirView { path: d.path@, files: file_views(d.files@), dirs: dir_views(d.dirs@) }
}

/// The values of a run of directories, in order.
pub open spec fn dir_views(dirs: Seq<Dir>) -> Seq<DirView>
    decreases dirs, 0int,
{
    if dirs.len() == 0 {
        Seq::empty()
    } else {
        dir_views(dirs.drop_last()).push(dir_view(dirs.last()))
    }
}

impl View for Dir {
    type V = DirView;

    open spec fn view(&self) -> DirView {
        dir_view(*self)
    }
}

/// `dir_views` goes through the run item by item.
pub proof fn lemma_dir_views(dirs: Seq<Dir>)
    ensures
        dir_views(dirs).len() == dirs.len(),
        forall|i: int| 0 <= i < dirs.len() ==> #[trigger] dir_views(dirs)[i] == dirs[i]@,
    decreases dirs.len(),
{
    if dirs.len() > 0 {
        lemma_dir_views(dirs.drop_last());
    }
}

/// What `dir_views` makes of a run with one more directory at its end.
pub proof fn lemma_dir_views_push(dirs: Seq<Dir>, d: Dir)
    ensures
        dir_views(dirs.push(d)) == dir_views(dirs).push(d@),
{
    assert(dirs.push(d).drop_last() =~= dirs);
}

/// What `dir_views` makes of a front part of a run.
pub proof fn lemma_dir_views_take(dirs: Seq<Dir>, k: int)
    requires
        0 <= k <= dirs.len(),
    ensures
        dir_views(dirs.take(k)) == dir_views(dirs).take(k),
{
    lemma_dir_views(dirs);
    lemma_dir_views(dirs.take(k));
    assert(dir_views(dirs.take(k)) =~= dir_views(dirs).take(k));
}

/// Whether `child` lies directly in the directory at `parent`: its segments
/// are those of `parent` and one more.
pub open spec fn is_child(parent: Seq<char>, child: Seq<char>) -> bool {
    path_segments(child).len() > 0 && path_segments(child).drop_last() == path_segments(parent)
}

/// The paths of all that lies directly in `d`: files first, then
/// directories.
pub open spec fn entry_paths(d: DirView) -> Seq<Seq<char>> {
    d.files.map_values(|f: FileView| f.path) + d.dirs.map_values(|x: DirView| x.path)
}

/// A directory is well formed when every path in it is canonical, every
/// entry lies directly in its parent, and no two entries of one directory
/// share a path.
pub open spec fn wf_dir(d: DirView) -> bool
    decreases d,
{
    &&& is_canonical(d.path)
    &&& forall|i: int|
        0 <= i < d.files.len() ==> wf_file(#[trigger] d.files[i]) && is_child(
            d.path,
            d.files[i].path,
        )
    &&& forall|i: int|
        0 <= i < d.dirs.len() ==> is_child(d.path, (#[trigger] d.dirs[i]).path) && wf_dir(
            d.dirs[i],
        )
    &&& entry_paths(d).no_duplicates()
}

/// A tree is well formed when its root is, and the root's path is empty.
pub open spec fn wf_tree(root: DirView) -> bool {
    root.path.len() == 0 && wf_dir(root)
}

/// The position of the first directory at or after `from` whose name is
/// `name`, or the length of `dirs` where there is none.
pub open spec fn first_dir(dirs: Seq<DirView>, name: Seq<char>, from: int) -> int
    decreases dirs.len() - from,
{
    if from >= dirs.len() {
        dirs.len() as int
    } else if name_of(dirs[from].path) == name {
        from
    } else {
        first_dir(dirs, name, from + 1)
    }
}

/// The position of the first file at or after `from` whose name is `name`,
/// or the length of `files` where there is none.
pub open spec fn first_file(files: Seq<FileView>, name: Seq<char>, from: int) -> int
    decreases files.len() - from,
{
    if from >= files.len() {
        files.len() as int
    } else if name_of(files[from].path) == name {
        from
    } else {
        first_file(files, name, from + 1)
    }
}

/// The directory reached from `d` by going down `segs`, one name at a
/// time, always into the first subdirectory of that name.
pub open spec fn lookup_dir(d: DirView, segs: Seq<Seq<char>>) -> Option<DirView>
    decreases segs.len(),
{
    if segs.len() == 0 {
        Some(d)
    } else {
        let i = first_dir(d.dirs, segs[0], 0);
        if 0 <= i < d.dirs.len() {
            lookup_dir(d.dirs[i], segs.drop_first())
        } else {
            None
        }
    }
}

/// The file reached from `d` by going down all of `segs` but the last into
/// directories, then taking the first file named by the last.
pub open spec fn lookup_file(d: DirView, segs: Seq<Seq<char>>) -> Option<FileView> {
    if segs.len() == 0 {
        None
    } else {
        match lookup_dir(d, segs.drop_last()) {
            None => None,
            Some(parent) => {
                let i = first_file(parent.files, segs.last(), 0);
                if 0 <= i < parent.files.len() {
                    Some(parent.files[i])
                } else {
                    None
                }
            },
        }
    }
}

/// What [`Dir::get_dir`] finds: nothing for a path without canonical form,
/// else what the descent along its segments reaches.
pub open spec fn dir_at(root: DirView, path: Seq<char>) -> Option<DirView> {
    match segments(path) {
        None => None,
        Some(segs) => lookup_dir(root, segs),
    }
}

/// What [`Dir::get_file`] finds: nothing for a path without canonical form,
/// else what the descent along its segments reaches.
pub open spec fn file_at(root: DirView, path: Seq<char>) -> Option<FileView> {
    match segments(path) {
        None => None,
        Some(segs) => lookup_file(root, segs),
    }
}

/// The value of what a lookup handed out.
pub open spec fn found_dir(r: Option<&Dir>) -> Option<DirView> {
    match r {
        Some(d) => Some(d@),
        None => None,
    }
}

/// The value of what a lookup handed out.
pub open spec fn found_file(r: Option<&File>) -> Option<FileView> {
    match r {
        Some(f) => Some(f@),
        None => None,
    }
}

/// Whether the stored path `stored` ends in the name that `sp` covers.
fn name_is(stored: &str, buf: &Vec<char>, sp: Span) -> (r: bool)
    requires
        sp.start <= sp.end <= buf.len(),
    ensures
        r == (name_of(stored@) == span_text(buf@, sp)),
{
    let own = to_chars(stored);
    let pieces = split_spans(&own);
    proof {
        crate::path::lemma_split_len(own@);
    }
    let last = pieces[pieces.len() - 1];
    assert(spans_text(own@, pieces@).last() == span_text(own@, last));
    same_text(&own, last, buf, sp)
}

impl Dir {
    /// The directory's path from the root of the tree; empty for the root.
    pub fn path(&self) -> (p: &str)
        ensures
            p@ == self@.path,
    {
        self.path.as_str()
    }

    /// The files that lie directly in this directory.
    pub fn files(&self) -> (files: &[File])
        ensures
            file_views(files@) == self@.files,
    {
        self.files.as_slice()
    }

    /// The directories that lie directly in this directory.
    pub fn dirs(&self) -> (dirs: &[Dir])
        ensures
            dir_views(dirs@) == self@.dirs,
    {
        self.dirs.as_slice()
    }

    /// Whether the tree is well formed.
    pub open spec fn wf(&self) -> bool {
        wf_tree(self@)
    }

    fn child_dir(&self, buf: &Vec<char>, sp: Span) -> (r: Option<&Dir>)
        requires
            sp.start <= sp.end <= buf.len(),
        ensures
            ({
                let i = first_dir(self@.dirs, span_text(buf@, sp), 0);
                if 0 <= i < self@.dirs.len() {
                    r is Some && r->0@ == self@.dirs[i]
                } else {
                    r is None
                }
            }),
    {
        proof {
            lemma_dir_views(self.dirs@);
        }
        let ghost name = span_text(buf@, sp);
        let mut i: usize = 0;
        while i < self.dirs.len()
            invariant
                i <= self.dirs.len(),
                sp.start <= sp.end <= buf.len(),
                name == span_text(buf@, sp),
                self@.dirs.len() == self.dirs.len(),
                forall|j: int| 0 <= j < self.dirs.len() ==> self@.dirs[j] == self.dirs@[j]@,
                first_dir(self@.dirs, name, 0) == first_dir(self@.dirs, name, i as int),
            decreases self.dirs.len() - i,
        {
            if name_is(self.dirs[i].path.as_str(), buf, sp) {
                return Some(&self.dirs[i]);
            }
            i += 1;
        }
        None
    }

    fn child_file(&self, buf: &Vec<char>, sp: Span) -> (r: Option<&File>)
        requires
            sp.start <= sp.end <= buf.len(),
        ensures
            ({
                let i = first_file(self@.files, span_text(buf@, sp), 0);
                if 0 <= i < self@.files.len() {
                    r is Some && r->0@ == self@.files[i]
                } else {
                    r is None
                }
            }),
    {
        let ghost name = span_text(buf@, sp);
        let mut i: usize = 0;
        while i < self.files.len()
            invariant
                i <= self.files.len(),
                sp.start <= sp.end <= buf.len(),
                name == span_text(buf@, sp),
                self@.files == file_views(self.files@),
                first_file(self@.files, name, 0) == first_file(self@.files, name, i as int),
            decreases self.files.len() - i,
        {
            if name_is(self.files[i].path.as_str(), buf, sp) {
                return Some(&self.files[i]);
            }
            i += 1;
        }
        None
    }

    /// Goes down from this directory along `spans[..upto]`.
    fn descend(&self, buf: &Vec<char>, spans: &Vec<Span>, upto: usize) -> (r: Option<&Dir>)
        requires
            spans_ok(buf@, spans@),
            upto <= spans.len(),
        ensures
            found_dir(r) == lookup_dir(self@, spans_text(buf@, spans@).take(upto as int)),
    {
        let ghost segs = spans_text(buf@, spans@).take(upto as int);
        let mut cur: &Dir = self;
        let mut k: usize = 0;
        proof {
            assert(segs.skip(0) =~= segs);
        }
        while k < upto
            invariant
                k <= upto <= spans.len(),
                spans_ok(buf@, spans@),
                segs == spans_text(buf@, spans@).take(upto as int),
                lookup_dir(self@, segs) == lookup_dir(cur@, segs.skip(k as int)),
            decreases upto - k,
        {
            proof {
                assert(segs.skip(k as int)[0] == span_text(buf@, spans@[k as int]));
                assert(segs.skip(k as int).drop_first() =~= segs.skip(k + 1));
            }
            match cur.child_dir(buf, spans[k]) {
                None => {
                    return None;
                },
                Some(next) => {
                    cur = next;
                },
            }
            k += 1;
        }
        Some(cur)
    }

    /// Finds the directory at `path`. The path is brought into canonical
    /// form first; the empty path and `.` name this directory itself.
    /// A path that leads nowhere, or has no canonical form, finds nothing.
    pub fn get_dir(&self, path: &str) -> (r: Option<&Dir>)
        ensures
            found_dir(r) == dir_at(self@, path@),
    {
        let buf = to_chars(path);
        match segment_spans(&buf) {
            None => None,
            Some(spans) => {
                proof {
                    assert(spans_text(buf@, spans@).take(spans.len() as int) =~= spans_text(
                        buf@,
                        spans@,
                    ));
                }
                self.descend(&buf, &spans, spans.len())
            },
        }
    }

    /// Finds the file at `path`. The path is brought into canonical form
    /// first. A path that leads nowhere, leads to a directory, or has no
    /// canonical form, finds nothing.
    pub fn get_file(&self, path: &str) -> (r: Option<&File>)
        ensures
            found_file(r) == file_at(self@, path@),
    {
        let buf = to_chars(path);
        match segment_spans(&buf) {
            None => None,
            Some(spans) => {
                if spans.len() == 0 {
                    return None;
                }
                let ghost segs = spans_text(buf@, spans@);
                proof {
                    assert(segs.drop_last() =~= segs.take(spans.len() - 1));
                }
                match self.descend(&buf, &spans, spans.len() - 1) {
                    None => None,
                    Some(parent) => parent.child_file(&buf, spans[spans.len() - 1]),
                }
            },
        }
    }

    /// Whether a file or a directory lies at `path`.
    pub fn contains(&self, path: &str) -> (r: bool)
        ensures
            r == (file_at(self@, path@) is Some || dir_at(self@, path@) is Some),
    {
        self.get_file(path).is_some() || self.get_dir(path).is_some()
    }
}

/// Whether the stored path `child` lies directly in the directory at the
/// stored path `parent`.
pub fn is_child_of(parent: &str, child: &str) -> (r: bool)
    ensures
        r == is_child(parent@, child@),
{
    let pb = to_chars(parent);
    let cb = to_chars(child);
    let ps = stored_spans(&pb);
    let cs = stored_spans(&cb);
    let ghost pt = spans_text(pb@, ps@);
    let ghost ct = spans_text(cb@, cs@);
    if cs.len() == 0 || cs.len() - 1 != ps.len() {
        assert(ct.drop_last().len() != pt.len() || ct.len() == 0);
        return false;
    }
    let mut k: usize = 0;
    while k < ps.len()
        invariant
            k <= ps.len(),
            cs.len() == ps.len() + 1,
            spans_ok(pb@, ps@),
            spans_ok(cb@, cs@),
            pt == spans_text(pb@, ps@),
            ct == spans_text(cb@, cs@),
            pt == path_segments(parent@),
            ct == path_segments(child@),
            forall|j: int| 0 <= j < k ==> ct[j] == pt[j],
        decreases ps.len() - k,
    {
        if !same_text(&pb, ps[k], &cb, cs[k]) {
            proof {
                assert(pt[k as int] == span_text(pb@, ps@[k as int]));
                assert(ct[k as int] == span_text(cb@, cs@[k as int]));
                assert(ct.drop_last()[k as int] == ct[k as int]);
                assert(ct.drop_last() != pt);
            }
            return false;
        }
        k += 1;
    }
    assert(ct.drop_last() =~= pt);
    true
}

/// Whether two strings are the same text.
fn same_str(a: &str, b: &str) -> (r: bool)
    ensures
        r == (a@ == b@),
{
    let ab = to_chars(a);
    let bb = to_chars(b);
    let whole_a = Span { start: 0, end: ab.len() };
    let whole_b = Span { start: 0, end: bb.len() };
    proof {
        assert(span_text(ab@, whole_a) =~= a@);
        assert(span_text(bb@, whole_b) =~= b@);
    }
    same_text(&ab, whole_a, &bb, whole_b)
}

/// Whether the stored path `path` is its own canonical form.
fn is_canonical_path(path: &str) -> (r: bool)
    ensures
        r == is_canonical(path@),
{
    match normalize(path) {
        Err(_) => false,
        Ok(form) => same_str(form.as_str(), path),
    }
}

/// The values of a run of paths, in order.
spec fn path_views(paths: Seq<&str>) -> Seq<Seq<char>> {
    paths.map_values(|p: &str| p@)
}

/// Whether no two of `paths` are the same.
fn all_differ(paths: &Vec<&str>) -> (r: bool)
    ensures
        r == path_views(paths@).no_duplicates(),
{
    let ghost texts = path_views(paths@);
    let mut i: usize = 0;
    while i < paths.len()
        invariant
            i <= paths.len(),
            texts == path_views(paths@),
            forall|a: int, b: int| 0 <= a < i && 0 <= b < a ==> texts[a] != texts[b],
        decreases paths.len() - i,
    {
        let mut j: usize = 0;
        while j < i
            invariant
                j <= i < paths.len(),
                texts == path_views(paths@),
                forall|b: int| 0 <= b < j ==> texts[i as int] != texts[b],
            decreases i - j,
        {
            if same_str(paths[i], paths[j]) {
                assert(texts[i as int] == texts[j as int]);
                return false;
            }
            j += 1;
        }
        i += 1;
    }
    proof {
        assert forall|a: int, b: int|
            0 <= a < texts.len() && 0 <= b < texts.len() && a != b implies texts[a]
            != texts[b] by {
            if b < a {
            } else {
                assert(texts[b] != texts[a]);
            }
        }
    }
    true
}

/// Whether the directory, and every directory below it, is well formed.
fn is_wf_dir(d: &Dir) -> (r: bool)
    ensures
        r == wf_dir(d@),
    decreases d,
{
    proof {
        lemma_dir_views(d.dirs@);
    }
    if !is_canonical_path(d.path.as_str()) {
        return false;
    }
    let mut paths: Vec<&str> = Vec::new();
    let ghost fpaths = d@.files.map_values(|f: FileView| f.path);
    let ghost dpaths = d@.dirs.map_values(|x: DirView| x.path);
    let mut i: usize = 0;
    proof {
        assert(path_views(paths@) =~= fpaths.take(0));
    }
    while i < d.files.len()
        invariant
            i <= d.files.len(),
            fpaths == d@.files.map_values(|f: FileView| f.path),
            path_views(paths@) == fpaths.take(i as int),
            forall|k: int|
                0 <= k < i ==> wf_file(#[trigger] d@.files[k]) && is_child(
                    d@.path,
                    d@.files[k].path,
                ),
        decreases d.files.len() - i,
    {
        let f = &d.files[i];
        if !is_canonical_path(f.path.as_str()) || !is_child_of(
            d.path.as_str(),
            f.path.as_str(),
        ) {
            proof {
                assert(d@.files[i as int] == f@);
                if is_child(d@.path, f@.path) {
                    assert(f@.path.len() > 0);
                }
            }
            return false;
        }
        let ghost before = path_views(paths@);
        paths.push(f.path.as_str());
        proof {
            assert(d@.files[i as int] == f@);
            assert(path_views(paths@) =~= before.push(f@.path));
            assert(fpaths.take(i + 1) =~= fpaths.take(i as int).push(f@.path));
        }
        i += 1;
    }
    let mut j: usize = 0;
    proof {
        assert(fpaths.take(i as int) =~= fpaths);
        assert(fpaths + dpaths.take(0) =~= fpaths);
    }
    while j < d.dirs.len()
        invariant
            j <= d.dirs.len(),
            fpaths == d@.files.map_values(|f: FileView| f.path),
            dpaths == d@.dirs.map_values(|x: DirView| x.path),
            d@.dirs.len() == d.dirs.len(),
            forall|k: int| 0 <= k < d.dirs.len() ==> d@.dirs[k] == d.dirs@[k]@,
            path_views(paths@) == fpaths + dpaths.take(j as int),
            forall|k: int|
                0 <= k < d@.files.len() ==> wf_file(#[trigger] d@.files[k]) && is_child(
                    d@.path,
                    d@.files[k].path,
                ),
            forall|k: int|
                0 <= k < j ==> is_child(d@.path, (#[trigger] d@.dirs[k]).path) && wf_dir(
                    d@.dirs[k],
                ),
        decreases d.dirs.len() - j,
    {
        let sub = &d.dirs[j];
        if !is_child_of(d.path.as_str(), sub.path.as_str()) || !is_wf_dir(sub) {
            proof {
                assert(d@.dirs[j as int] == sub@);
            }
            return false;
        }
        let ghost before = path_views(paths@);
        paths.push(sub.path.as_str());
        proof {
            assert(d@.dirs[j as int] == sub@);
            assert(path_views(paths@) =~= before.push(sub@.path));
            assert(fpaths + dpaths.take(j + 1) =~= (fpaths + dpaths.take(j as int)).push(
                sub@.path,
            ));
        }
        j += 1;
    }
    proof {
        assert(dpaths.take(j as int) =~= dpaths);
    }
    all_differ(&paths)
}

impl Dir {
    /// Whether the tree is well formed: the root's path is empty, every
    /// path is canonical, every entry lies directly in its parent, and no
    /// two entries of one directory share a path.
    pub fn is_well_formed(&self) -> (r: bool)
        ensures
            r == self.wf(),
    {
        self.path.as_str().unicode_len() == 0 && is_wf_dir(self)
    }
}

} // verus!
