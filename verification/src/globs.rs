//! The search of a tree for the entries whose paths match a glob pattern.

use vstd::prelude::*;
use crate::dir::lemma_dir_views;
use crate::dir::Dir;
use crate::dir::DirView;
use crate::entry::entries;
use crate::entry::entries_in;
use crate::entry::DirEntry;
use crate::entry::EntryView;
use crate::error::Error;
use crate::error::ErrorView;
use crate::file::FileView;
use crate::pattern::pattern_matches;
use crate::pattern::parse;
use crate::pattern::ComponentView;
use crate::pattern::Pattern;

verus! {

/// Those of `all` whose paths the pattern matches, in the order of `all`.
pub open spec fn matching(pattern: Seq<ComponentView>, all: Seq<EntryView>) -> Seq<EntryView>
    decreases all.len(),
{
    if all.len() == 0 {
        Seq::empty()
    } else {
        let front = matching(pattern, all.drop_last());
        if pattern_matches(pattern, all.last().path()) {
            front.push(all.last())
        } else {
            front
        }
    }
}

/// What a search of the tree at `root` for the pattern written in `text`
/// yields: the matching entries in the order of the walk, or the error for
/// a malformed pattern.
pub open spec fn found(root: DirView, text: Seq<char>) -> Result<Seq<EntryView>, ErrorView> {
    match parse(text) {
        Some(pattern) => Ok(matching(pattern, entries(root))),
        None => Err(ErrorView::BadPattern { pattern: text }),
    }
}

/// The values of a run of entries, in order.
pub open spec fn entry_views(found: Seq<DirEntry>) -> Seq<EntryView> {
    found.map_values(|e: DirEntry| e@)
}

/// Matching goes through a run part by part.
pub proof fn lemma_matching_add(pattern: Seq<ComponentView>, a: Seq<EntryView>, b: Seq<EntryView>)
    ensures
        matching(pattern, a + b) == matching(pattern, a) + matching(pattern, b),
    decreases b.len(),
{
    if b.len() == 0 {
        assert(a + b =~= a);
        assert(matching(pattern, a) + matching(pattern, b) =~= matching(pattern, a));
    } else {
        lemma_matching_add(pattern, a, b.drop_last());
        assert((a + b).drop_last() =~= a + b.drop_last());
        assert((a + b).last() == b.last());
        if pattern_matches(pattern, b.last().path()) {
            assert(matching(pattern, a + b) =~= matching(pattern, a) + matching(pattern, b));
        }
    }
}

/// Matching a run of one entry keeps it or drops it.
pub proof fn lemma_matching_one(pattern: Seq<ComponentView>, e: EntryView)
    ensures
        matching(pattern, seq![e]) == if pattern_matches(pattern, e.path()) {
            seq![e]
        } else {
            Seq::empty()
        },
{
    let none = Seq::<EntryView>::empty();
    assert(seq![e].drop_last() =~= none);
    assert(seq![e].last() == e);
    assert(matching(pattern, none) =~= none);
    assert(none.push(e) =~= seq![e]);
}

/// Puts what matches below and including `d` behind what `out` holds.
fn collect<'a>(d: &'a Dir, pattern: &Pattern, out: &mut Vec<DirEntry<'a>>)
    ensures
        entry_views(final(out)@) == entry_views(old(out)@) + matching(pattern@, entries(d@)),
    decreases d,
{
    let ghost p = pattern@;
    let ghost start = entry_views(out@);
    let ghost own = seq![EntryView::Dir(d@)];
    proof {
        lemma_matching_one(p, EntryView::Dir(d@));
    }
    if pattern.matches(d.path.as_str()) {
        let ghost before = out@;
        out.push(DirEntry::Dir(d));
        proof {
            assert(entry_views(out@) =~= entry_views(before).push(EntryView::Dir(d@)));
            assert(start.push(EntryView::Dir(d@)) =~= start + seq![EntryView::Dir(d@)]);
        }
    } else {
        proof {
            assert(start + Seq::<EntryView>::empty() =~= start);
        }
    }
    let ghost listed = d@.files.map_values(|f: FileView| EntryView::File(f));
    let mut i: usize = 0;
    proof {
        assert(own + listed.take(0) =~= own);
    }
    while i < d.files.len()
        invariant
            i <= d.files.len(),
            p == pattern@,
            own == seq![EntryView::Dir(d@)],
            listed == d@.files.map_values(|f: FileView| EntryView::File(f)),
            entry_views(out@) == start + matching(p, own + listed.take(i as int)),
        decreases d.files.len() - i,
    {
        let f = &d.files[i];
        let ghost e = EntryView::File(f@);
        let ghost seen = own + listed.take(i as int);
        proof {
            assert(listed[i as int] == e);
            assert(own + listed.take(i + 1) =~= seen + seq![e]);
            lemma_matching_add(p, seen, seq![e]);
            lemma_matching_one(p, e);
        }
        if pattern.matches(f.path.as_str()) {
            let ghost before = out@;
            out.push(DirEntry::File(f));
            proof {
                assert(entry_views(out@) =~= entry_views(before).push(e));
                assert((start + matching(p, seen)).push(e) =~= start + (matching(p, seen)
                    + seq![e]));
            }
        } else {
            proof {
                assert(matching(p, seen) + Seq::<EntryView>::empty() =~= matching(p, seen));
            }
        }
        i += 1;
    }
    let ghost flat = own + listed;
    let ghost subs = d@.dirs;
    let mut j: usize = 0;
    proof {
        assert(listed.take(i as int) =~= listed);
        lemma_dir_views(d.dirs@);
        assert(subs.take(0) =~= Seq::<DirView>::empty());
        assert(flat + entries_in(subs.take(0)) =~= flat);
    }
    while j < d.dirs.len()
        invariant
            j <= d.dirs.len(),
            p == pattern@,
            subs == d@.dirs,
            subs.len() == d.dirs.len(),
            forall|k: int| 0 <= k < d.dirs.len() ==> subs[k] == d.dirs@[k]@,
            entry_views(out@) == start + matching(p, flat + entries_in(subs.take(j as int))),
        decreases d.dirs.len() - j,
    {
        let sub = &d.dirs[j];
        let ghost seen = flat + entries_in(subs.take(j as int));
        proof {
            assert(subs.take(j + 1).drop_last() =~= subs.take(j as int));
            assert(subs.take(j + 1).last() == sub@);
            assert(flat + entries_in(subs.take(j + 1)) =~= seen + entries(sub@));
            lemma_matching_add(p, seen, entries(sub@));
            assert(start + (matching(p, seen) + matching(p, entries(sub@))) =~= start + matching(
                p,
                seen,
            ) + matching(p, entries(sub@)));
        }
        collect(sub, pattern, out);
        j += 1;
    }
    proof {
        assert(subs.take(j as int) =~= subs);
    }
}

impl Dir {
    /// Lists what the compiled pattern matches below and including this
    /// directory, in the order of a walk that visits a directory first,
    /// then its files, then its subdirectories.
    pub fn find_pattern<'a>(&'a self, pattern: &Pattern) -> (found: Vec<DirEntry<'a>>)
        ensures
            entry_views(found@) == matching(pattern@, entries(self@)),
    {
        let mut found: Vec<DirEntry<'a>> = Vec::new();
        proof {
            assert(entry_views(found@) =~= Seq::<EntryView>::empty());
            assert(Seq::<EntryView>::empty() + matching(pattern@, entries(self@)) =~= matching(
                pattern@,
                entries(self@),
            ));
        }
        collect(self, pattern, &mut found);
        found
    }

    /// Searches the tree for the entries, files and directories alike,
    /// whose paths match the glob pattern written in `text`. A malformed
    /// pattern is an [`Error::BadPattern`], found before the walk begins.
    pub fn find<'a>(&'a self, text: &str) -> (r: Result<Vec<DirEntry<'a>>, Error>)
        ensures
            match found(self@, text@) {
                Ok(all) => r matches Ok(v) && entry_views(v@) == all,
                Err(e) => r matches Err(f) && f@ == e,
            },
    {
        match Pattern::new(text) {
            Err(e) => Err(e),
            Ok(pattern) => Ok(self.find_pattern(&pattern)),
        }
    }
}

/// A search in progress, which hands out one match at a time and walks
/// no further into the tree than it has to for the next one.
#[derive(Debug)]
pub struct Globs<'a> {
    /// The pattern that is searched for.
    pub pattern: Pattern,
    /// What is yet to be visited; the last is visited next, and all below a
    /// directory right after it.
    pub stack: Vec<DirEntry<'a>>,
}

/// What a visit to `e` goes through: a file itself, a directory and all
/// below it.
pub open spec fn below(e: EntryView) -> Seq<EntryView> {
    match e {
        EntryView::File(_) => seq![e],
        EntryView::Dir(d) => entries(d),
    }
}

/// What is yet to be gone through, in order, with `stack` yet to be
/// visited from its end to its start.
pub open spec fn pending(stack: Seq<EntryView>) -> Seq<EntryView>
    decreases stack.len(),
{
    if stack.len() == 0 {
        Seq::empty()
    } else {
        below(stack.last()) + pending(stack.drop_last())
    }
}

/// The entries of a run of directories are those of the first, then those
/// of the rest.
pub proof fn lemma_entries_in_front(dirs: Seq<DirView>)
    requires
        dirs.len() > 0,
    ensures
        entries_in(dirs) == entries(dirs[0]) + entries_in(dirs.drop_first()),
    decreases dirs.len(),
{
    let none = Seq::<EntryView>::empty();
    if dirs.len() == 1 {
        assert(dirs.drop_last() =~= Seq::<DirView>::empty());
        assert(dirs.drop_first() =~= Seq::<DirView>::empty());
        assert(entries_in(dirs.drop_last()) =~= none);
        assert(entries_in(dirs) =~= entries(dirs[0]) + none);
    } else {
        lemma_entries_in_front(dirs.drop_last());
        assert(dirs.drop_first().drop_last() =~= dirs.drop_last().drop_first());
        assert(dirs.drop_first().last() == dirs.last());
        assert(dirs.drop_last()[0] == dirs[0]);
        assert(entries_in(dirs) =~= entries(dirs[0]) + entries_in(dirs.drop_first()));
    }
}

/// With one more entry to visit next, what is yet to be gone through is
/// what its visit goes through, then what it was.
pub proof fn lemma_pending_push(stack: Seq<EntryView>, e: EntryView)
    ensures
        pending(stack.push(e)) == below(e) + pending(stack),
{
    assert(stack.push(e).drop_last() =~= stack);
}

impl<'a> Globs<'a> {
    /// The matches that are yet to be handed out, in order.
    pub open spec fn remaining(&self) -> Seq<EntryView> {
        matching(self.pattern@, pending(entry_views(self.stack@)))
    }

    /// Puts what lies directly in `d` on the stack, so that the files are
    /// visited first and in order, then the subdirectories in order.
    fn push_children(&mut self, d: &'a Dir)
        ensures
            final(self).pattern == old(self).pattern,
            pending(entry_views(final(self).stack@)) == d@.files.map_values(
                |f: FileView| EntryView::File(f),
            ) + entries_in(d@.dirs) + pending(entry_views(old(self).stack@)),
    {
        let ghost rest = pending(entry_views(self.stack@));
        let ghost subs = d@.dirs;
        let ghost listed = d@.files.map_values(|f: FileView| EntryView::File(f));
        proof {
            lemma_dir_views(d.dirs@);
        }
        let mut j: usize = d.dirs.len();
        proof {
            assert(subs.skip(j as int) =~= Seq::<DirView>::empty());
            assert(entries_in(subs.skip(j as int)) + rest =~= rest);
        }
        while j > 0
            invariant
                j <= d.dirs.len(),
                self.pattern == old(self).pattern,
                subs == d@.dirs,
                subs.len() == d.dirs.len(),
                forall|k: int| 0 <= k < d.dirs.len() ==> subs[k] == d.dirs@[k]@,
                pending(entry_views(self.stack@)) == entries_in(subs.skip(j as int)) + rest,
            decreases j,
        {
            j -= 1;
            let sub = &d.dirs[j];
            let ghost before = self.stack@;
            self.stack.push(DirEntry::Dir(sub));
            proof {
                let e = EntryView::Dir(sub@);
                assert(entry_views(self.stack@) =~= entry_views(before).push(e));
                lemma_pending_push(entry_views(before), e);
                lemma_entries_in_front(subs.skip(j as int));
                assert(subs.skip(j as int).drop_first() =~= subs.skip(j + 1));
                assert(entries(sub@) + (entries_in(subs.skip(j + 1)) + rest) =~= entries_in(
                    subs.skip(j as int),
                ) + rest);
            }
        }
        let ghost tail = entries_in(subs) + rest;
        let mut i: usize = d.files.len();
        proof {
            assert(subs.skip(0) =~= subs);
            assert(listed.skip(i as int) + tail =~= tail);
        }
        while i > 0
            invariant
                i <= d.files.len(),
                self.pattern == old(self).pattern,
                listed == d@.files.map_values(|f: FileView| EntryView::File(f)),
                listed.len() == d.files.len(),
                pending(entry_views(self.stack@)) == listed.skip(i as int) + tail,
            decreases i,
        {
            i -= 1;
            let f = &d.files[i];
            let ghost before = self.stack@;
            self.stack.push(DirEntry::File(f));
            proof {
                let e = EntryView::File(f@);
                assert(listed[i as int] == e);
                assert(entry_views(self.stack@) =~= entry_views(before).push(e));
                lemma_pending_push(entry_views(before), e);
                assert(seq![e] + (listed.skip(i + 1) + tail) =~= listed.skip(i as int) + tail);
            }
        }
        proof {
            assert(listed.skip(0) =~= listed);
            assert(listed + (entries_in(subs) + rest) =~= listed + entries_in(subs) + rest);
        }
    }

    /// Hands out the next match, or nothing once the tree is exhausted.
    pub fn next_entry(&mut self) -> (r: Option<DirEntry<'a>>)
        ensures
            final(self).pattern == old(self).pattern,
            old(self).remaining().len() == 0 ==> r is None && final(self).remaining().len() == 0,
            old(self).remaining().len() > 0 ==> r is Some && r->0@ == old(self).remaining()[0]
                && final(self).remaining() == old(self).remaining().drop_first(),
    {
        let ghost p = self.pattern@;
        loop
            invariant
                self.pattern == old(self).pattern,
                p == self.pattern@,
                self.remaining() == old(self).remaining(),
            decreases pending(entry_views(self.stack@)).len(),
        {
            let ghost before = self.stack@;
            let e = match self.stack.pop() {
                None => {
                    proof {
                        assert(entry_views(self.stack@) =~= Seq::<EntryView>::empty());
                    }
                    return None;
                },
                Some(e) => e,
            };
            let ghost rest = pending(entry_views(self.stack@));
            proof {
                assert(entry_views(self.stack@) =~= entry_views(before).drop_last());
                assert(entry_views(before).last() == e@);
                assert(pending(entry_views(before)) == below(e@) + rest);
            }
            match e {
                DirEntry::File(_) => {},
                DirEntry::Dir(d) => {
                    self.push_children(d);
                },
            }
            let ghost tail = pending(entry_views(self.stack@));
            proof {
                assert(pending(entry_views(before)) =~= seq![e@] + tail);
                lemma_matching_add(p, seq![e@], tail);
                lemma_matching_one(p, e@);
            }
            if self.pattern.matches(e.path()) {
                proof {
                    assert((seq![e@] + matching(p, tail)).drop_first() =~= matching(p, tail));
                }
                return Some(e);
            }
            proof {
                assert(Seq::<EntryView>::empty() + matching(p, tail) =~= matching(p, tail));
            }
        }
    }
}

impl Dir {
    /// Starts a search of the tree for the entries whose paths match the
    /// glob pattern written in `text`; the matches are then handed out one
    /// by one. A malformed pattern is an [`Error::BadPattern`], found
    /// before the walk begins. Every search starts anew.
    pub fn globs<'a>(&'a self, text: &str) -> (r: Result<Globs<'a>, Error>)
        ensures
            match found(self@, text@) {
                Ok(all) => r matches Ok(search) && search.remaining() == all,
                Err(e) => r matches Err(f) && f@ == e,
            },
    {
        match Pattern::new(text) {
            Err(e) => Err(e),
            Ok(pattern) => {
                let mut stack: Vec<DirEntry<'a>> = Vec::new();
                stack.push(DirEntry::Dir(self));
                proof {
                    let one = seq![EntryView::Dir(self@)];
                    assert(entry_views(stack@) =~= one);
                    assert(one.drop_last() =~= Seq::<EntryView>::empty());
                    assert(pending(one.drop_last()) =~= Seq::<EntryView>::empty());
                    assert(pending(one) =~= entries(self@));
                }
                Ok(Globs { pattern, stack })
            },
        }
    }
}

} // verus!
