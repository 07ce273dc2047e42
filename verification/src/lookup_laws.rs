//! What holds of lookups in a well-formed tree: every entry is found by
//! its own path, and nothing is found that is not there.

use vstd::prelude::*;
use crate::dir::dir_at;
use crate::dir::entry_paths;
use crate::dir::file_at;
use crate::dir::first_dir;
use crate::dir::first_file;
use crate::dir::is_child;
use crate::dir::lookup_dir;
use crate::dir::lookup_file;
use crate::dir::wf_dir;
use crate::dir::wf_tree;
use crate::dir::DirView;
use crate::entry::entries;
use crate::entry::entries_in;
use crate::entry::lemma_entries_in_from;
use crate::entry::lemma_entries_in_holds;
use crate::entry::EntryView;
use crate::file::FileView;
use crate::path::canonical;
use crate::path::is_canonical;
use crate::path::lemma_canonical;
use crate::path::name_of;
use crate::path::path_segments;

verus! {

/// The segments of a child are those of its parent, then its own name.
pub proof fn lemma_child_segments(parent: Seq<char>, child: Seq<char>)
    requires
        is_child(parent, child),
    ensures
        child.len() > 0,
        path_segments(child) == path_segments(parent).push(name_of(child)),
{
    let segs = path_segments(child);
    assert(segs.drop_last().push(segs.last()) =~= segs);
}

/// Two canonical paths in one directory that end in the same name are the
/// same path.
pub proof fn lemma_same_name(parent: Seq<char>, a: Seq<char>, b: Seq<char>)
    requires
        is_child(parent, a),
        is_child(parent, b),
        is_canonical(a),
        is_canonical(b),
        name_of(a) == name_of(b),
    ensures
        a == b,
{
    lemma_child_segments(parent, a);
    lemma_child_segments(parent, b);
    lemma_canonical(a);
    lemma_canonical(b);
}

/// The search for a name ends within the run, and on that name where it
/// ends before the run does.
pub proof fn lemma_first_dir(dirs: Seq<DirView>, name: Seq<char>, from: int)
    requires
        0 <= from <= dirs.len(),
    ensures
        from <= first_dir(dirs, name, from) <= dirs.len(),
        first_dir(dirs, name, from) < dirs.len() ==> name_of(
            dirs[first_dir(dirs, name, from)].path,
        ) == name,
        forall|j: int| from <= j < first_dir(dirs, name, from) ==> name_of(dirs[j].path) != name,
    decreases dirs.len() - from,
{
    if from < dirs.len() && name_of(dirs[from].path) != name {
        lemma_first_dir(dirs, name, from + 1);
    }
}

/// The search for a name ends within the run, and on that name where it
/// ends before the run does.
pub proof fn lemma_first_file(files: Seq<FileView>, name: Seq<char>, from: int)
    requires
        0 <= from <= files.len(),
    ensures
        from <= first_file(files, name, from) <= files.len(),
        first_file(files, name, from) < files.len() ==> name_of(
            files[first_file(files, name, from)].path,
        ) == name,
        forall|j: int|
            from <= j < first_file(files, name, from) ==> name_of(files[j].path) != name,
    decreases files.len() - from,
{
    if from < files.len() && name_of(files[from].path) != name {
        lemma_first_file(files, name, from + 1);
    }
}

/// In a well-formed directory the search for a subdirectory's name ends
/// on that subdirectory.
pub proof fn lemma_dir_by_name(d: DirView, m: int)
    requires
        wf_dir(d),
        0 <= m < d.dirs.len(),
    ensures
        first_dir(d.dirs, name_of(d.dirs[m].path), 0) == m,
{
    let name = name_of(d.dirs[m].path);
    lemma_first_dir(d.dirs, name, 0);
    let i = first_dir(d.dirs, name, 0);
    if i != m {
        assert(i < m);
        reveal_with_fuel(wf_dir, 2);
        lemma_same_name(d.path, d.dirs[i].path, d.dirs[m].path);
        let paths = entry_paths(d);
        assert(paths[d.files.len() + i] == d.dirs[i].path);
        assert(paths[d.files.len() + m] == d.dirs[m].path);
    }
}

/// In a well-formed directory the search for a file's name ends on that
/// file.
pub proof fn lemma_file_by_name(d: DirView, m: int)
    requires
        wf_dir(d),
        0 <= m < d.files.len(),
    ensures
        first_file(d.files, name_of(d.files[m].path), 0) == m,
{
    let name = name_of(d.files[m].path);
    lemma_first_file(d.files, name, 0);
    let i = first_file(d.files, name, 0);
    if i != m {
        assert(i < m);
        lemma_same_name(d.path, d.files[i].path, d.files[m].path);
        let paths = entry_paths(d);
        assert(paths[i] == d.files[i].path);
        assert(paths[m] == d.files[m].path);
    }
}

/// What the lookup from `d` along `rel` has to hand out for it to reach
/// `e`.
pub open spec fn reaches(d: DirView, rel: Seq<Seq<char>>, e: EntryView) -> bool {
    match e {
        EntryView::File(f) => lookup_file(d, rel) == Some(f),
        EntryView::Dir(x) => lookup_dir(d, rel) == Some(x),
    }
}

/// Every entry below a well-formed directory has a canonical path that
/// starts with the directory's own segments, and the lookup from the
/// directory along the rest reaches it.
pub proof fn lemma_visit_found(d: DirView, k: int)
    requires
        wf_dir(d),
        0 <= k < entries(d).len(),
    ensures
        is_canonical(entries(d)[k].path()),
        path_segments(d.path).is_prefix_of(path_segments(entries(d)[k].path())),
        reaches(
            d,
            path_segments(entries(d)[k].path()).skip(path_segments(d.path).len() as int),
            entries(d)[k],
        ),
    decreases d,
{
    let e = entries(d)[k];
    let own = path_segments(d.path);
    let files = d.files.map_values(|f: FileView| EntryView::File(f));
    if k == 0 {
        assert(path_segments(e.path()).skip(own.len() as int) =~= Seq::<Seq<char>>::empty());
    } else if k <= d.files.len() {
        let f = d.files[k - 1];
        assert(e == files[k - 1]);
        lemma_child_segments(d.path, f.path);
        lemma_file_by_name(d, k - 1);
        let rel = path_segments(f.path).skip(own.len() as int);
        assert(rel =~= seq![name_of(f.path)]);
        assert(rel.drop_last() =~= Seq::<Seq<char>>::empty());
    } else {
        let j = k - 1 - d.files.len();
        assert(e == entries_in(d.dirs)[j]);
        let (m, kk) = lemma_entries_in_from(d.dirs, j);
        let c = d.dirs[m];
        lemma_visit_found(c, kk);
        lemma_child_segments(d.path, c.path);
        lemma_dir_by_name(d, m);
        let name = name_of(c.path);
        let below = path_segments(c.path);
        let all = path_segments(e.path());
        let rel_c = all.skip(below.len() as int);
        let rel = all.skip(own.len() as int);
        assert(below =~= all.subrange(0, below.len() as int));
        assert(own =~= all.subrange(0, own.len() as int));
        assert(rel =~= seq![name] + rel_c);
        assert(rel[0] == name);
        assert(rel.drop_first() =~= rel_c);
        match e {
            EntryView::Dir(x) => {},
            EntryView::File(f) => {
                assert(rel_c.len() > 0);
                assert(rel.drop_last() =~= seq![name] + rel_c.drop_last());
                assert(rel.drop_last()[0] == name);
                assert(rel.drop_last().drop_first() =~= rel_c.drop_last());
            },
        }
    }
}

/// Every directory of a well-formed tree is found by its own path.
pub proof fn lemma_every_dir_found(root: DirView, k: int)
    requires
        wf_tree(root),
        0 <= k < entries(root).len(),
        entries(root)[k] is Dir,
    ensures
        dir_at(root, entries(root)[k].path()) == Some(entries(root)[k]->Dir_0),
{
    lemma_visit_found(root, k);
    let p = entries(root)[k].path();
    lemma_canonical(p);
    assert(path_segments(p).skip(0) =~= path_segments(p));
}

/// Every file of a well-formed tree is found by its own path, contents and
/// all.
pub proof fn lemma_every_file_found(root: DirView, k: int)
    requires
        wf_tree(root),
        0 <= k < entries(root).len(),
        entries(root)[k] is File,
    ensures
        file_at(root, entries(root)[k].path()) == Some(entries(root)[k]->File_0),
{
    lemma_visit_found(root, k);
    let p = entries(root)[k].path();
    lemma_canonical(p);
    assert(path_segments(p).skip(0) =~= path_segments(p));
}

/// What a lookup from a well-formed directory reaches is a well-formed
/// directory below it, whose segments are those of the start and then
/// those of the lookup; all that lies below it lies below the start.
pub proof fn lemma_lookup_dir_below(d: DirView, segs: Seq<Seq<char>>)
    requires
        wf_dir(d),
        lookup_dir(d, segs) is Some,
    ensures
        wf_dir(lookup_dir(d, segs)->0),
        path_segments(lookup_dir(d, segs)->0.path) == path_segments(d.path) + segs,
        forall|e: EntryView|
            entries(lookup_dir(d, segs)->0).contains(e) ==> entries(d).contains(e),
    decreases segs.len(),
{
    let x = lookup_dir(d, segs)->0;
    if segs.len() == 0 {
        assert(path_segments(d.path) + segs =~= path_segments(d.path));
    } else {
        let m = first_dir(d.dirs, segs[0], 0);
        lemma_first_dir(d.dirs, segs[0], 0);
        let c = d.dirs[m];
        lemma_lookup_dir_below(c, segs.drop_first());
        lemma_child_segments(d.path, c.path);
        assert(path_segments(c.path) + segs.drop_first() =~= path_segments(d.path) + segs);
        assert forall|e: EntryView| entries(x).contains(e) implies entries(d).contains(e) by {
            assert(entries(c).contains(e));
            let k = choose|k: int| 0 <= k < entries(c).len() && entries(c)[k] == e;
            let j = lemma_entries_in_holds(d.dirs, m, k);
            assert(entries(d)[1 + d.files.len() + j] == e);
        }
    }
}

/// What is found in a well-formed tree is an entry of the tree, and the
/// path that was asked for is, in canonical form, that entry's path.
pub proof fn lemma_found_dir_is_there(root: DirView, path: Seq<char>)
    requires
        wf_tree(root),
        dir_at(root, path) is Some,
    ensures
        entries(root).contains(EntryView::Dir(dir_at(root, path)->0)),
        canonical(path) == Some(dir_at(root, path)->0.path),
{
    let segs = crate::path::segments(path)->0;
    let x = dir_at(root, path)->0;
    lemma_lookup_dir_below(root, segs);
    assert(entries(x)[0] == EntryView::Dir(x));
    assert(path_segments(root.path) + segs =~= segs);
    lemma_canonical(x.path);
}

/// What is found in a well-formed tree is an entry of the tree, and the
/// path that was asked for is, in canonical form, that entry's path.
pub proof fn lemma_found_file_is_there(root: DirView, path: Seq<char>)
    requires
        wf_tree(root),
        file_at(root, path) is Some,
    ensures
        entries(root).contains(EntryView::File(file_at(root, path)->0)),
        canonical(path) == Some(file_at(root, path)->0.path),
{
    let segs = crate::path::segments(path)->0;
    let f = file_at(root, path)->0;
    let parent = lookup_dir(root, segs.drop_last())->0;
    lemma_lookup_dir_below(root, segs.drop_last());
    let i = first_file(parent.files, segs.last(), 0);
    lemma_first_file(parent.files, segs.last(), 0);
    assert(f == parent.files[i]);
    let listed = parent.files.map_values(|f: FileView| EntryView::File(f));
    assert(listed[i] == EntryView::File(f));
    assert(entries(parent)[1 + i] == EntryView::File(f));
    assert(entries(parent).contains(EntryView::File(f)));
    lemma_child_segments(parent.path, f.path);
    assert(path_segments(root.path) + segs.drop_last() =~= segs.drop_last());
    assert(segs.drop_last().push(segs.last()) =~= segs);
    lemma_canonical(f.path);
}

/// A path that, in canonical form, is the path of no file of a well-formed
/// tree finds no file.
pub proof fn lemma_missing_file(root: DirView, path: Seq<char>)
    requires
        wf_tree(root),
        forall|k: int|
            0 <= k < entries(root).len() && entries(root)[k] is File ==> canonical(path) != Some(
                #[trigger] entries(root)[k].path(),
            ),
    ensures
        file_at(root, path) is None,
{
    if file_at(root, path) is Some {
        lemma_found_file_is_there(root, path);
        let e = EntryView::File(file_at(root, path)->0);
        let k = choose|k: int| 0 <= k < entries(root).len() && entries(root)[k] == e;
        assert(canonical(path) == Some(entries(root)[k].path()));
    }
}

/// A path that, in canonical form, is the path of no directory of a
/// well-formed tree finds no directory.
pub proof fn lemma_missing_dir(root: DirView, path: Seq<char>)
    requires
        wf_tree(root),
        forall|k: int|
            0 <= k < entries(root).len() && entries(root)[k] is Dir ==> canonical(path) != Some(
                #[trigger] entries(root)[k].path(),
            ),
    ensures
        dir_at(root, path) is None,
{
    if dir_at(root, path) is Some {
        lemma_found_dir_is_there(root, path);
        let e = EntryView::Dir(dir_at(root, path)->0);
        let k = choose|k: int| 0 <= k < entries(root).len() && entries(root)[k] == e;
        assert(canonical(path) == Some(entries(root)[k].path()));
    }
}

} // verus!
