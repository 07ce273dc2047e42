//! What holds of a tree that was built: it is well formed.

use vstd::prelude::*;
use crate::builder::built;
use crate::builder::empty_dir;
use crate::builder::fits;
use crate::builder::run;
use crate::builder::start;
use crate::builder::step;
use crate::builder::with_dir;
use crate::builder::with_file;
use crate::builder::BuilderView;
use crate::builder::MAX_DEPTH;
use crate::builder::EventView;
use crate::dir::entry_paths;
use crate::dir::wf_dir;
use crate::dir::wf_tree;
use crate::dir::DirView;
use crate::file::FileView;
use crate::path::is_canonical;
use crate::path::is_proper;
use crate::path::join;
use crate::path::lemma_join_canonical;
use crate::path::lemma_segments_names;
use crate::path::relative;
use crate::path::segments;

verus! {

/// A builder is well formed when a directory is open, every open
/// directory is well formed, and each but the root fits into the one that
/// was opened before it.
pub open spec fn builder_wf(b: BuilderView) -> bool {
    &&& b.open.len() >= 1
    &&& forall|k: int| 0 <= k < b.open.len() ==> wf_dir(#[trigger] b.open[k])
    &&& forall|k: int| 1 <= k < b.open.len() ==> fits(b.open[k - 1], (#[trigger] b.open[k]).path)
}

/// What a path is called from a base is a canonical path.
pub proof fn lemma_relative_canonical(path: Seq<char>, base: Seq<char>)
    requires
        relative(path, base) is Ok,
    ensures
        is_canonical(relative(path, base)->Ok_0),
{
    let p = segments(path)->0;
    let b = segments(base)->0;
    lemma_segments_names(path);
    let rest = p.skip(b.len() as int);
    assert forall|k: int| 0 <= k < rest.len() implies is_proper(#[trigger] rest[k]) by {
        assert(rest[k] == p[k + b.len()]);
    }
    lemma_join_canonical(rest);
}

/// From itself, a path is called by the empty path.
pub proof fn lemma_relative_self(path: Seq<char>)
    requires
        segments(path) is Some,
    ensures
        relative(path, path) == Ok::<Seq<char>, crate::error::ErrorView>(Seq::<char>::empty()),
{
    let p = segments(path)->0;
    assert(p =~= p.subrange(0, p.len() as int));
    assert(p.skip(p.len() as int) =~= Seq::<Seq<char>>::empty());
    assert(join(Seq::<Seq<char>>::empty()) =~= Seq::<char>::empty());
}

/// An empty directory at a canonical path is well formed.
pub proof fn lemma_empty_dir_wf(path: Seq<char>)
    requires
        is_canonical(path),
    ensures
        wf_dir(empty_dir(path)),
{
    let d = empty_dir(path);
    assert(entry_paths(d) =~= Seq::<Seq<char>>::empty());
}

/// A well-formed directory with one more file that fits is well formed.
pub proof fn lemma_with_file_wf(d: DirView, f: FileView)
    requires
        wf_dir(d),
        fits(d, f.path),
        is_canonical(f.path),
    ensures
        wf_dir(with_file(d, f)),
{
    let after = with_file(d, f);
    let old_paths = entry_paths(d);
    let new_paths = entry_paths(after);
    let n = d.files.len() as int;
    assert(new_paths.len() == old_paths.len() + 1);
    assert forall|i: int| 0 <= i < new_paths.len() implies new_paths[i] == if i < n {
        old_paths[i]
    } else if i == n {
        f.path
    } else {
        old_paths[i - 1]
    } by {}
    assert forall|i: int, j: int|
        0 <= i < new_paths.len() && 0 <= j < new_paths.len() && i != j implies new_paths[i]
        != new_paths[j] by {
        let oi = if i < n {
            i
        } else {
            i - 1
        };
        let oj = if j < n {
            j
        } else {
            j - 1
        };
        if i != n && j != n {
            assert(old_paths[oi] != old_paths[oj]);
        } else if i == n {
            assert(old_paths[oj] != f.path);
        } else {
            assert(old_paths[oi] != f.path);
        }
    }
    crate::lookup_laws::lemma_child_segments(d.path, f.path);
}

/// A well-formed directory with one more well-formed subdirectory that
/// fits is well formed.
pub proof fn lemma_with_dir_wf(d: DirView, sub: DirView)
    requires
        wf_dir(d),
        wf_dir(sub),
        fits(d, sub.path),
    ensures
        wf_dir(with_dir(d, sub)),
{
    let after = with_dir(d, sub);
    let old_paths = entry_paths(d);
    let new_paths = entry_paths(after);
    assert(new_paths =~= old_paths.push(sub.path));
    assert forall|i: int, j: int|
        0 <= i < new_paths.len() && 0 <= j < new_paths.len() && i != j implies new_paths[i]
        != new_paths[j] by {
        if i < old_paths.len() && j < old_paths.len() {
            assert(old_paths[i] != old_paths[j]);
        } else if i < old_paths.len() {
            assert(old_paths[i] != sub.path);
        } else {
            assert(old_paths[j] != sub.path);
        }
    }
}

/// The builder starts out well formed, with the root at the path that it
/// has from the base.
pub proof fn lemma_start_wf(base: Seq<char>, root: Seq<char>)
    requires
        start(base, root) is Ok,
    ensures
        builder_wf(start(base, root)->Ok_0),
        start(base, root)->Ok_0.open[0].path == relative(root, base)->Ok_0,
{
    lemma_relative_canonical(root, base);
    lemma_empty_dir_wf(relative(root, base)->Ok_0);
}

/// A step that is taken keeps the builder well formed, and the root at its
/// path.
pub proof fn lemma_step_wf(b: BuilderView, event: EventView)
    requires
        builder_wf(b),
        step(b, event) is Ok,
    ensures
        builder_wf(step(b, event)->Ok_0),
        step(b, event)->Ok_0.open[0].path == b.open[0].path,
{
    let after = step(b, event)->Ok_0;
    let n = b.open.len() as int;
    match event {
        EventView::Enter { path } => {
            let rel = relative(path, b.base)->Ok_0;
            lemma_relative_canonical(path, b.base);
            lemma_empty_dir_wf(rel);
            assert forall|k: int| 0 <= k < after.open.len() implies wf_dir(
                #[trigger] after.open[k],
            ) by {
                if k < n {
                    assert(after.open[k] == b.open[k]);
                }
            }
            assert forall|k: int| 1 <= k < after.open.len() implies fits(
                after.open[k - 1],
                (#[trigger] after.open[k]).path,
            ) by {
                if k < n {
                    assert(after.open[k] == b.open[k]);
                    assert(after.open[k - 1] == b.open[k - 1]);
                }
            }
        },
        EventView::File { path, contents, modified } => {
            let rel = relative(path, b.base)->Ok_0;
            lemma_relative_canonical(path, b.base);
            let f = FileView {
                path: rel,
                contents,
                metadata: Some(crate::file::Metadata { modified_at: modified }),
            };
            lemma_with_file_wf(b.open.last(), f);
            assert forall|k: int| 0 <= k < after.open.len() implies wf_dir(
                #[trigger] after.open[k],
            ) by {
                if k < n - 1 {
                    assert(after.open[k] == b.open[k]);
                }
            }
            assert forall|k: int| 1 <= k < after.open.len() implies fits(
                after.open[k - 1],
                (#[trigger] after.open[k]).path,
            ) by {
                assert(after.open[k].path == b.open[k].path);
                assert(after.open[k - 1] == b.open[k - 1]);
            }
        },
        EventView::Leave => {
            let parent = b.open[n - 2];
            let top = b.open[n - 1];
            assert(fits(b.open[n - 1 - 1], b.open[n - 1].path));
            lemma_with_dir_wf(parent, top);
            assert forall|k: int| 0 <= k < after.open.len() implies wf_dir(
                #[trigger] after.open[k],
            ) by {
                if k < n - 2 {
                    assert(after.open[k] == b.open[k]);
                }
            }
            assert forall|k: int| 1 <= k < after.open.len() implies fits(
                after.open[k - 1],
                (#[trigger] after.open[k]).path,
            ) by {
                assert(after.open[k].path == b.open[k].path);
                assert(after.open[k - 1] == b.open[k - 1]);
            }
        },
        _ => {},
    }
}

/// A run of steps that are all taken keeps the builder well formed, and
/// the root at its path.
pub proof fn lemma_run_wf(b: BuilderView, events: Seq<EventView>)
    requires
        builder_wf(b),
        run(b, events) is Ok,
    ensures
        builder_wf(run(b, events)->Ok_0),
        run(b, events)->Ok_0.open[0].path == b.open[0].path,
    decreases events.len(),
{
    if events.len() > 0 {
        lemma_run_wf(b, events.drop_last());
        lemma_step_wf(run(b, events.drop_last())->Ok_0, events.last());
    }
}

/// A tree that was built is a well-formed directory at the path that the
/// root has from the base.
pub proof fn lemma_built_wf(base: Seq<char>, root: Seq<char>, events: Seq<EventView>)
    requires
        built(base, root, events) is Ok,
    ensures
        wf_dir(built(base, root, events)->Ok_0),
        built(base, root, events)->Ok_0.path == relative(root, base)->Ok_0,
{
    lemma_start_wf(base, root);
    lemma_run_wf(start(base, root)->Ok_0, events);
}

/// A tree that was built with the root as its base is a well-formed tree.
pub proof fn lemma_built_tree(root: Seq<char>, events: Seq<EventView>)
    requires
        built(root, root, events) is Ok,
    ensures
        wf_tree(built(root, root, events)->Ok_0),
{
    lemma_built_wf(root, root, events);
    lemma_relative_self(root);
}

/// How many levels a directory has: itself, and the levels of the tallest
/// of its subdirectories.
pub open spec fn height(d: DirView) -> nat
    decreases d, 1int,
{
    1 + tallest(d.dirs)
}

/// The levels of the tallest of `dirs`, or none where there is no
/// directory.
pub open spec fn tallest(dirs: Seq<DirView>) -> nat
    decreases dirs, 0int,
{
    if dirs.len() == 0 {
        0
    } else {
        let before = tallest(dirs.drop_last());
        let last = height(dirs.last());
        if last > before {
            last
        } else {
            before
        }
    }
}

/// Whether every open directory has room for its levels: the one that was
/// opened as the `k`th below the root has at most `MAX_DEPTH - k`.
pub open spec fn within_depth(b: BuilderView) -> bool {
    forall|k: int| 0 <= k < b.open.len() ==> height(#[trigger] b.open[k]) + k <= MAX_DEPTH
}

/// A step that is taken keeps every open directory within its levels.
pub proof fn lemma_step_depth(b: BuilderView, event: EventView)
    requires
        within_depth(b),
        step(b, event) is Ok,
    ensures
        within_depth(step(b, event)->Ok_0),
{
    let after = step(b, event)->Ok_0;
    let n = b.open.len() as int;
    match event {
        EventView::Enter { path } => {
            let sub = after.open[n];
            assert(tallest(sub.dirs) == 0);
            assert forall|k: int| 0 <= k < after.open.len() implies height(
                #[trigger] after.open[k],
            ) + k <= MAX_DEPTH by {
                if k < n {
                    assert(after.open[k] == b.open[k]);
                }
            }
        },
        EventView::File { path, contents, modified } => {
            assert forall|k: int| 0 <= k < after.open.len() implies height(
                #[trigger] after.open[k],
            ) + k <= MAX_DEPTH by {
                assert(after.open[k].dirs == b.open[k].dirs);
                assert(height(after.open[k]) == height(b.open[k]));
            }
        },
        EventView::Leave => {
            let parent = b.open[n - 2];
            let top = b.open[n - 1];
            assert(parent.dirs.push(top).drop_last() =~= parent.dirs);
            assert(height(with_dir(parent, top)) <= MAX_DEPTH - (n - 2)) by {
                assert(height(b.open[n - 2]) + (n - 2) <= MAX_DEPTH);
                assert(height(b.open[n - 1]) + (n - 1) <= MAX_DEPTH);
            }
            assert forall|k: int| 0 <= k < after.open.len() implies height(
                #[trigger] after.open[k],
            ) + k <= MAX_DEPTH by {
                if k < n - 2 {
                    assert(after.open[k] == b.open[k]);
                }
            }
        },
        _ => {},
    }
}

/// A run of steps that are all taken keeps every open directory within its
/// levels.
pub proof fn lemma_run_depth(b: BuilderView, events: Seq<EventView>)
    requires
        within_depth(b),
        run(b, events) is Ok,
    ensures
        within_depth(run(b, events)->Ok_0),
    decreases events.len(),
{
    if events.len() > 0 {
        lemma_run_depth(b, events.drop_last());
        lemma_step_depth(run(b, events.drop_last())->Ok_0, events.last());
    }
}

/// A tree that was built has at most `MAX_DEPTH` levels.
pub proof fn lemma_built_depth(base: Seq<char>, root: Seq<char>, events: Seq<EventView>)
    requires
        built(base, root, events) is Ok,
    ensures
        height(built(base, root, events)->Ok_0) <= MAX_DEPTH,
{
    let first = start(base, root)->Ok_0;
    assert(tallest(first.open[0].dirs) == 0);
    assert(within_depth(first));
    lemma_run_depth(first, events);
    let last = run(first, events)->Ok_0;
    assert(height(last.open[0]) + 0 <= MAX_DEPTH);
}

} // verus!
