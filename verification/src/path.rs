//! Paths relative to the root of a tree, and their canonical form.
//!
//! A canonical path is a run of segments joined by `/`: no leading
//! separator, no empty segment, no `.` and no `..`. The empty path has no
//! segments and names the root.

use vstd::prelude::*;
use vstd::std_specs::iter::IteratorSpec;
use vstd::string::StrSliceExecFns;
use vstd::string::StringExecFns;
use crate::error::Error;
use crate::error::ErrorView;

verus! {

/// Whether `c` separates two segments of a path. Both the forward slash and
/// the backslash do, so that a path reads the same on every platform.
pub open spec fn is_separator(c: char) -> bool {
    c == '/' || c == '\\'
}

/// The pieces of `s` that lie between separators, empty ones included.
/// There is always at least one piece.
pub open spec fn split(s: Seq<char>) -> Seq<Seq<char>>
    decreases s.len(),
{
    if s.len() == 0 {
        seq![Seq::<char>::empty()]
    } else {
        let before = split(s.drop_last());
        if is_separator(s.last()) {
            before.push(Seq::<char>::empty())
        } else {
            before.drop_last().push(before.last().push(s.last()))
        }
    }
}

/// What the segments kept so far become when `piece` follows them: `.` is
/// dropped, `..` takes the last segment away, an empty piece and a `..`
/// with nothing left to take away are refused.
pub open spec fn resolve_step(kept: Seq<Seq<char>>, piece: Seq<char>) -> Option<Seq<Seq<char>>> {
    if piece.len() == 0 {
        None
    } else if piece == seq!['.'] {
        Some(kept)
    } else if piece == seq!['.', '.'] {
        if kept.len() == 0 {
            None
        } else {
            Some(kept.drop_last())
        }
    } else {
        Some(kept.push(piece))
    }
}

/// The segments that remain of `pieces` once every `.` and `..` is resolved,
/// or `None` where a piece is refused.
pub open spec fn resolve(pieces: Seq<Seq<char>>) -> Option<Seq<Seq<char>>>
    decreases pieces.len(),
{
    if pieces.len() == 0 {
        Some(Seq::empty())
    } else {
        match resolve(pieces.drop_last()) {
            None => None,
            Some(kept) => resolve_step(kept, pieces.last()),
        }
    }
}

/// The pieces of `path` that are resolved: all of them, but for the empty
/// piece in front of one leading separator.
pub open spec fn body_pieces(path: Seq<char>) -> Seq<Seq<char>> {
    let pieces = split(path);
    if pieces.len() > 1 && pieces[0].len() == 0 {
        pieces.drop_first()
    } else {
        pieces
    }
}

/// The canonical segments of `path`, or `None` where it has no canonical
/// form: it holds a NUL, an empty segment, or a `..` that leaves the root.
pub open spec fn segments(path: Seq<char>) -> Option<Seq<Seq<char>>> {
    let body = body_pieces(path);
    if path.contains('\0') {
        None
    } else if body.len() == 1 && body[0].len() == 0 {
        Some(Seq::empty())
    } else {
        resolve(body)
    }
}

/// The segments written out with one `/` between neighbours.
pub open spec fn join(segs: Seq<Seq<char>>) -> Seq<char>
    decreases segs.len(),
{
    if segs.len() == 0 {
        Seq::empty()
    } else if segs.len() == 1 {
        segs[0]
    } else {
        join(segs.drop_last()) + seq!['/'] + segs.last()
    }
}

/// The canonical form of `path`, where it has one.
pub open spec fn canonical(path: Seq<char>) -> Option<Seq<char>> {
    match segments(path) {
        Some(segs) => Some(join(segs)),
        None => None,
    }
}

/// Whether `path` is its own canonical form.
pub open spec fn is_canonical(path: Seq<char>) -> bool {
    canonical(path) == Some(path)
}

/// The last piece of a stored path: the name of the entry it leads to.
pub open spec fn name_of(path: Seq<char>) -> Seq<char> {
    split(path).last()
}

/// The segments of a stored path, read off as it stands: none for the empty
/// path, else its pieces.
pub open spec fn path_segments(path: Seq<char>) -> Seq<Seq<char>> {
    if path.len() == 0 {
        Seq::empty()
    } else {
        split(path)
    }
}

/// What `path` is called from `base`, where `path` lies at or below
/// `base`: the canonical segments of `path` that follow those of `base`,
/// joined.
pub open spec fn relative(path: Seq<char>, base: Seq<char>) -> Result<Seq<char>, ErrorView> {
    match (segments(path), segments(base)) {
        (Some(p), Some(b)) => {
            if b.is_prefix_of(p) {
                Ok(join(p.skip(b.len() as int)))
            } else {
                Err(ErrorView::StripPrefix { path, base })
            }
        },
        (None, _) => Err(ErrorView::InvalidPath { path }),
        (_, None) => Err(ErrorView::InvalidPath { path: base }),
    }
}

/// A stretch of a buffer of characters, from `start` up to `end`.
#[derive(Clone, Copy, Debug)]
pub struct Span {
    pub start: usize,
    pub end: usize,
}

/// The characters that `sp` covers in `buf`.
pub open spec fn span_text(buf: Seq<char>, sp: Span) -> Seq<char> {
    buf.subrange(sp.start as int, sp.end as int)
}

/// Whether every span lies within `buf`.
pub open spec fn spans_ok(buf: Seq<char>, spans: Seq<Span>) -> bool {
    forall|i: int| 0 <= i < spans.len() ==> (#[trigger] spans[i]).start <= spans[i].end <= buf.len()
}

/// The texts that the spans cover in `buf`, in order.
pub open spec fn spans_text(buf: Seq<char>, spans: Seq<Span>) -> Seq<Seq<char>> {
    Seq::new(spans.len(), |i: int| span_text(buf, spans[i]))
}

/// Reads a string into its characters.
pub fn to_chars(s: &str) -> (out: Vec<char>)
    ensures
        out@ == s@,
{
    let mut out: Vec<char> = Vec::new();
    for c in iter: s.chars()
        invariant
            iter.seq() == s@,
            out@ == s@.take(iter.index() as int),
    {
        out.push(c);
    }
    out
}

/// The character at position `i`.
pub fn char_at(buf: &Vec<char>, i: usize) -> (c: char)
    requires
        i < buf.len(),
    ensures
        c == buf@[i as int],
{
    buf[i]
}

fn is_sep(c: char) -> (r: bool)
    ensures
        r == is_separator(c),
{
    c == '/' || c == '\\'
}

/// Cuts `buf` at its separators.
pub fn split_spans(buf: &Vec<char>) -> (spans: Vec<Span>)
    ensures
        spans_ok(buf@, spans@),
        spans_text(buf@, spans@) == split(buf@),
{
    let mut spans: Vec<Span> = Vec::new();
    let mut start: usize = 0;
    let mut i: usize = 0;
    proof {
        assert(buf@.take(0).len() == 0);
        assert(buf@.subrange(0, 0) =~= Seq::<char>::empty());
        assert(spans_text(buf@, spans@).push(buf@.subrange(0, 0)) =~= seq![Seq::<char>::empty()]);
    }
    while i < buf.len()
        invariant
            start <= i <= buf.len(),
            spans_ok(buf@, spans@),
            spans_text(buf@, spans@).push(buf@.subrange(start as int, i as int)) == split(
                buf@.take(i as int),
            ),
        decreases buf.len() - i,
    {
        let ghost before = split(buf@.take(i as int));
        let ghost texts = spans_text(buf@, spans@);
        proof {
            assert(buf@.take(i + 1).drop_last() =~= buf@.take(i as int));
            assert(buf@.take(i + 1).last() == buf@[i as int]);
            assert(before.drop_last() =~= texts);
            assert(before.last() == buf@.subrange(start as int, i as int));
        }
        if is_sep(buf[i]) {
            spans.push(Span { start, end: i });
            start = i + 1;
            proof {
                assert(spans_text(buf@, spans@) =~= before);
                assert(buf@.subrange(start as int, i + 1) =~= Seq::<char>::empty());
            }
        } else {
            proof {
                assert(buf@.subrange(start as int, i + 1) =~= buf@.subrange(
                    start as int,
                    i as int,
                ).push(buf@[i as int]));
            }
        }
        i += 1;
    }
    proof {
        assert(buf@.take(i as int) =~= buf@);
    }
    let ghost texts = spans_text(buf@, spans@);
    spans.push(Span { start, end: i });
    proof {
        assert(spans_text(buf@, spans@) =~= texts.push(buf@.subrange(start as int, i as int)));
    }
    spans
}

/// A string always splits into at least one piece.
pub proof fn lemma_split_len(s: Seq<char>)
    ensures
        split(s).len() >= 1,
    decreases s.len(),
{
    if s.len() > 0 {
        lemma_split_len(s.drop_last());
    }
}

/// Once a front part of `pieces` is refused, the whole is.
pub proof fn lemma_resolve_refused(pieces: Seq<Seq<char>>, k: int)
    requires
        0 <= k <= pieces.len(),
        resolve(pieces.take(k)) is None,
    ensures
        resolve(pieces) is None,
    decreases pieces.len() - k,
{
    if k == pieces.len() {
        assert(pieces.take(k) =~= pieces);
    } else {
        assert(pieces.take(k + 1).drop_last() =~= pieces.take(k));
        lemma_resolve_refused(pieces, k + 1);
    }
}

fn has_nul(buf: &Vec<char>) -> (r: bool)
    ensures
        r == buf@.contains('\0'),
{
    let mut i: usize = 0;
    while i < buf.len()
        invariant
            i <= buf.len(),
            forall|j: int| 0 <= j < i ==> buf@[j] != '\0',
        decreases buf.len() - i,
    {
        if buf[i] == '\0' {
            return true;
        }
        i += 1;
    }
    false
}

/// Whether two spans cover the same text, each in its own buffer.
pub fn same_text(a: &Vec<char>, sa: Span, b: &Vec<char>, sb: Span) -> (r: bool)
    requires
        sa.start <= sa.end <= a.len(),
        sb.start <= sb.end <= b.len(),
    ensures
        r == (span_text(a@, sa) == span_text(b@, sb)),
{
    if sa.end - sa.start != sb.end - sb.start {
        assert(span_text(a@, sa).len() != span_text(b@, sb).len());
        return false;
    }
    let n: usize = sa.end - sa.start;
    let mut i: usize = 0;
    while i < n
        invariant
            i <= n,
            n == sa.end - sa.start,
            n == sb.end - sb.start,
            sa.end <= a.len(),
            sb.end <= b.len(),
            forall|j: int| 0 <= j < i ==> span_text(a@, sa)[j] == span_text(b@, sb)[j],
        decreases n - i,
    {
        if a[sa.start + i] != b[sb.start + i] {
            assert(span_text(a@, sa)[i as int] != span_text(b@, sb)[i as int]);
            return false;
        }
        i += 1;
    }
    assert(span_text(a@, sa) =~= span_text(b@, sb));
    true
}

/// Cuts the stored path held in `buf` into its segments.
pub fn stored_spans(buf: &Vec<char>) -> (spans: Vec<Span>)
    ensures
        spans_ok(buf@, spans@),
        spans_text(buf@, spans@) == path_segments(buf@),
{
    if buf.len() == 0 {
        let spans: Vec<Span> = Vec::new();
        proof {
            assert(spans_text(buf@, spans@) =~= Seq::<Seq<char>>::empty());
        }
        spans
    } else {
        split_spans(buf)
    }
}

fn resolve_spans(buf: &Vec<char>, pieces: &Vec<Span>, from: usize) -> (r: Option<Vec<Span>>)
    requires
        spans_ok(buf@, pieces@),
        from <= pieces.len(),
    ensures
        match resolve(spans_text(buf@, pieces@).skip(from as int)) {
            None => r is None,
            Some(segs) => r is Some && spans_ok(buf@, r->0@) && spans_text(buf@, r->0@) == segs,
        },
{
    let ghost body = spans_text(buf@, pieces@).skip(from as int);
    let mut kept: Vec<Span> = Vec::new();
    let mut j: usize = from;
    proof {
        assert(body.take(0) =~= Seq::<Seq<char>>::empty());
        assert(spans_text(buf@, kept@) =~= Seq::<Seq<char>>::empty());
    }
    while j < pieces.len()
        invariant
            from <= j <= pieces.len(),
            spans_ok(buf@, pieces@),
            spans_ok(buf@, kept@),
            body == spans_text(buf@, pieces@).skip(from as int),
            resolve(body.take(j - from)) == Some(spans_text(buf@, kept@)),
        decreases pieces.len() - j,
    {
        let piece = pieces[j];
        let ghost text = span_text(buf@, piece);
        let ghost before = spans_text(buf@, kept@);
        proof {
            assert(body.take(j - from + 1).drop_last() =~= body.take(j - from));
            assert(body.take(j - from + 1).last() == text);
        }
        let n: usize = piece.end - piece.start;
        if n == 0 {
            proof {
                lemma_resolve_refused(body, j - from + 1);
            }
            return None;
        } else if n == 1 && buf[piece.start] == '.' {
            proof {
                assert(text =~= seq!['.']);
            }
        } else if n == 2 && buf[piece.start] == '.' && buf[piece.start + 1] == '.' {
            proof {
                assert(text =~= seq!['.', '.']);
            }
            if kept.len() == 0 {
                proof {
                    lemma_resolve_refused(body, j - from + 1);
                }
                return None;
            }
            kept.pop();
            proof {
                assert(spans_text(buf@, kept@) =~= before.drop_last());
            }
        } else {
            proof {
                if text == seq!['.'] {
                    assert(text.len() == 1 && text[0] == '.');
                }
                if text == seq!['.', '.'] {
                    assert(text.len() == 2 && text[0] == '.' && text[1] == '.');
                }
            }
            kept.push(piece);
            proof {
                assert(spans_text(buf@, kept@) =~= before.push(text));
            }
        }
        j += 1;
    }
    proof {
        assert(body.take(j - from) =~= body);
    }
    Some(kept)
}

/// Finds the canonical segments of the path held in `buf`.
pub fn segment_spans(buf: &Vec<char>) -> (r: Option<Vec<Span>>)
    ensures
        match segments(buf@) {
            None => r is None,
            Some(segs) => r is Some && spans_ok(buf@, r->0@) && spans_text(buf@, r->0@) == segs,
        },
{
    if has_nul(buf) {
        return None;
    }
    let pieces = split_spans(buf);
    let ghost texts = spans_text(buf@, pieces@);
    let from: usize = if pieces.len() > 1 && pieces[0].end == pieces[0].start {
        1
    } else {
        0
    };
    proof {
        assert(texts.drop_first() =~= texts.skip(1));
        assert(texts =~= texts.skip(0));
        assert(body_pieces(buf@) == texts.skip(from as int));
    }
    if pieces.len() - from == 1 && pieces[from].end == pieces[from].start {
        let none: Vec<Span> = Vec::new();
        proof {
            assert(spans_text(buf@, none@) =~= Seq::<Seq<char>>::empty());
        }
        return Some(none);
    }
    resolve_spans(buf, &pieces, from)
}

/// Writes out the texts of `spans[from..]` with one `/` between neighbours.
pub fn join_spans(path: &str, spans: &Vec<Span>, from: usize) -> (out: String)
    requires
        spans_ok(path@, spans@),
        from <= spans.len(),
    ensures
        out@ == join(spans_text(path@, spans@).skip(from as int)),
{
    let ghost body = spans_text(path@, spans@).skip(from as int);
    let mut out = String::new();
    let mut k: usize = from;
    proof {
        assert(body.take(0) =~= Seq::<Seq<char>>::empty());
    }
    while k < spans.len()
        invariant
            from <= k <= spans.len(),
            spans_ok(path@, spans@),
            body == spans_text(path@, spans@).skip(from as int),
            out@ == join(body.take(k - from)),
        decreases spans.len() - k,
    {
        let sp = spans[k];
        proof {
            assert(body.take(k - from + 1).drop_last() =~= body.take(k - from));
            assert(body.take(k - from + 1).last() == span_text(path@, sp));
            reveal_strlit("/");
            assert("/"@ =~= seq!['/']);
            if k == from {
                assert(out@ + span_text(path@, sp) =~= span_text(path@, sp));
            }
        }
        if k > from {
            out.append("/");
        }
        out.append(path.substring_char(sp.start, sp.end));
        k += 1;
    }
    proof {
        assert(body.take(k - from) =~= body);
    }
    out
}

/// Brings `path` into canonical form: `/` between segments, no leading
/// separator, `.` dropped and `..` resolved. A path with a NUL, an empty
/// segment or a `..` that leaves the root is an [`Error::InvalidPath`].
pub fn normalize(path: &str) -> (r: Result<String, Error>)
    ensures
        match canonical(path@) {
            Some(c) => r matches Ok(s) && s@ == c,
            None => r matches Err(e) && e@ == (ErrorView::InvalidPath { path: path@ }),
        },
{
    let buf = to_chars(path);
    match segment_spans(&buf) {
        None => Err(Error::InvalidPath { path: String::from_str(path) }),
        Some(spans) => {
            proof {
                assert(spans_text(path@, spans@).skip(0) =~= spans_text(path@, spans@));
            }
            Ok(join_spans(path, &spans, 0))
        },
    }
}

/// Whether two paths name the same place: both have a canonical form, and
/// it is the same. Separators of either kind, a leading separator and `.`
/// segments make no difference.
pub fn same_path(a: &str, b: &str) -> (r: bool)
    ensures
        r == (canonical(a@) is Some && canonical(a@) == canonical(b@)),
{
    match normalize(a) {
        Err(_) => false,
        Ok(first) => match normalize(b) {
            Err(_) => false,
            Ok(second) => first == second,
        },
    }
}

/// Says what `path` is called from `base`: both are brought into canonical
/// form, and the segments of `base` are taken off the front of `path`.
/// Where `path` does not start with them, that is an
/// [`Error::StripPrefix`].
pub fn relative_to(path: &str, base: &str) -> (r: Result<String, Error>)
    ensures
        match relative(path@, base@) {
            Ok(rel) => r matches Ok(s) && s@ == rel,
            Err(e) => r matches Err(f) && f@ == e,
        },
{
    let pbuf = to_chars(path);
    let bbuf = to_chars(base);
    let p = match segment_spans(&pbuf) {
        Some(p) => p,
        None => {
            return Err(Error::InvalidPath { path: String::from_str(path) });
        },
    };
    let b = match segment_spans(&bbuf) {
        Some(b) => b,
        None => {
            return Err(Error::InvalidPath { path: String::from_str(base) });
        },
    };
    let ghost pt = spans_text(pbuf@, p@);
    let ghost bt = spans_text(bbuf@, b@);
    if b.len() > p.len() {
        return Err(
            Error::StripPrefix { path: String::from_str(path), base: String::from_str(base) },
        );
    }
    let mut k: usize = 0;
    while k < b.len()
        invariant
            k <= b.len() <= p.len(),
            spans_ok(pbuf@, p@),
            spans_ok(bbuf@, b@),
            pt == spans_text(pbuf@, p@),
            bt == spans_text(bbuf@, b@),
            segments(path@) == Some(pt),
            segments(base@) == Some(bt),
            forall|j: int| 0 <= j < k ==> bt[j] == pt[j],
        decreases b.len() - k,
    {
        if !same_text(&bbuf, b[k], &pbuf, p[k]) {
            proof {
                assert(bt[k as int] == span_text(bbuf@, b@[k as int]));
                assert(pt[k as int] == span_text(pbuf@, p@[k as int]));
                assert(pt.subrange(0, bt.len() as int)[k as int] == pt[k as int]);
                assert(!bt.is_prefix_of(pt));
            }
            return Err(
                Error::StripPrefix { path: String::from_str(path), base: String::from_str(base) },
            );
        }
        k += 1;
    }
    proof {
        assert(bt =~= pt.subrange(0, bt.len() as int));
    }
    Ok(join_spans(path, &p, b.len()))
}

/// Whether `name` can be a segment: not empty, and free of separators.
pub open spec fn is_name(name: Seq<char>) -> bool {
    name.len() > 0 && forall|i: int| 0 <= i < name.len() ==> !is_separator(#[trigger] name[i])
}

/// Whether `name` can be a segment of a canonical path: a name that is
/// neither `.` nor `..` and holds no NUL.
pub open spec fn is_proper(name: Seq<char>) -> bool {
    is_name(name) && name != seq!['.'] && name != seq!['.', '.'] && !name.contains('\0')
}

/// Whether `piece` holds neither a separator nor a NUL.
pub open spec fn is_clean(piece: Seq<char>) -> bool {
    forall|i: int| 0 <= i < piece.len() ==> !is_separator(#[trigger] piece[i]) && piece[i] != '\0'
}

/// No piece of a split holds a separator, and none holds a NUL where the
/// whole holds none.
pub proof fn lemma_split_pieces(s: Seq<char>)
    ensures
        split(s).len() >= 1,
        forall|k: int, i: int|
            0 <= k < split(s).len() && 0 <= i < split(s)[k].len() ==> !is_separator(
                #[trigger] split(s)[k][i],
            ),
        !s.contains('\0') ==> forall|k: int| 0 <= k < split(s).len() ==> is_clean(#[trigger] split(s)[k]),
    decreases s.len(),
{
    if s.len() > 0 {
        lemma_split_pieces(s.drop_last());
        if !s.contains('\0') {
            let front = s.drop_last();
            assert(!front.contains('\0')) by {
                if front.contains('\0') {
                    let i = choose|i: int| 0 <= i < front.len() && front[i] == '\0';
                    assert(s[i] == '\0');
                }
            }
            assert(s[s.len() - 1] != '\0');
            assert forall|k: int| 0 <= k < split(s).len() implies is_clean(#[trigger] split(s)[k]) by {
                if k < split(front).len() - 1 {
                    assert(split(s)[k] == split(front)[k]);
                    assert(is_clean(split(front)[k]));
                } else if k == split(front).len() - 1 {
                    assert(is_clean(split(front)[k]));
                }
            }
        }
    } else {
        assert forall|k: int| 0 <= k < split(s).len() implies is_clean(#[trigger] split(s)[k]) by {
            assert(split(s)[k].len() == 0);
        }
    }
}

/// Characters without a separator, put behind `s`, lengthen its last piece.
pub proof fn lemma_split_append(s: Seq<char>, tail: Seq<char>)
    requires
        forall|i: int| 0 <= i < tail.len() ==> !is_separator(#[trigger] tail[i]),
    ensures
        split(s).len() >= 1,
        split(s + tail) == split(s).drop_last().push(split(s).last() + tail),
    decreases tail.len(),
{
    lemma_split_len(s);
    if tail.len() == 0 {
        assert(s + tail =~= s);
        assert(split(s).last() + tail =~= split(s).last());
        assert(split(s).drop_last().push(split(s).last()) =~= split(s));
    } else {
        let init = tail.drop_last();
        lemma_split_append(s, init);
        assert((s + tail).drop_last() =~= s + init);
        assert((s + tail).last() == tail.last());
        assert(split(s).last() + tail =~= (split(s).last() + init).push(tail.last()));
        assert(split(s + tail) =~= split(s).drop_last().push(split(s).last() + tail));
    }
}

/// What resolving keeps of clean pieces are proper names.
pub proof fn lemma_resolve_names(pieces: Seq<Seq<char>>)
    requires
        forall|k: int| 0 <= k < pieces.len() ==> is_clean(#[trigger] pieces[k]),
        resolve(pieces) is Some,
    ensures
        forall|k: int|
            0 <= k < resolve(pieces)->0.len() ==> is_proper(#[trigger] resolve(pieces)->0[k]),
    decreases pieces.len(),
{
    if pieces.len() > 0 {
        let front = pieces.drop_last();
        assert forall|k: int| 0 <= k < front.len() implies is_clean(#[trigger] front[k]) by {
            assert(front[k] == pieces[k]);
        }
        lemma_resolve_names(front);
        let last = pieces.last();
        assert(is_clean(last));
        if last.len() > 0 && last != seq!['.'] && last != seq!['.', '.'] {
            assert(!last.contains('\0')) by {
                if last.contains('\0') {
                    let i = choose|i: int| 0 <= i < last.len() && last[i] == '\0';
                    assert(last[i] != '\0');
                }
            }
            assert(is_proper(last));
        }
    }
}

/// Names joined and split again are the same names.
pub proof fn lemma_split_join(segs: Seq<Seq<char>>)
    requires
        forall|k: int| 0 <= k < segs.len() ==> is_name(#[trigger] segs[k]),
    ensures
        path_segments(join(segs)) == segs,
        segs.len() > 0 ==> join(segs).len() > 0,
    decreases segs.len(),
{
    if segs.len() == 0 {
    } else if segs.len() == 1 {
        let name = segs[0];
        lemma_split_append(Seq::<char>::empty(), name);
        assert(Seq::<char>::empty() + name =~= name);
        assert(split(name) =~= seq![name]);
        assert(seq![name] =~= segs);
    } else {
        let init = segs.drop_last();
        let name = segs.last();
        lemma_split_join(init);
        let front = join(init);
        let cut = front.push('/');
        assert(cut.drop_last() =~= front);
        assert(split(cut) == split(front).push(Seq::<char>::empty()));
        lemma_split_append(cut, name);
        assert(front + seq!['/'] + name =~= cut + name);
        assert(Seq::<char>::empty() + name =~= name);
        assert(split(cut).drop_last() =~= split(front));
        assert(init.push(name) =~= segs);
    }
}

/// The segments of a path's canonical form are proper names.
pub proof fn lemma_segments_names(path: Seq<char>)
    requires
        segments(path) is Some,
    ensures
        forall|k: int|
            0 <= k < segments(path)->0.len() ==> is_proper(#[trigger] segments(path)->0[k]),
{
    lemma_split_pieces(path);
    let body = body_pieces(path);
    if body.len() == 1 && body[0].len() == 0 {
    } else {
        assert forall|k: int| 0 <= k < body.len() implies is_clean(#[trigger] body[k]) by {
            if body.len() == split(path).len() {
                assert(body[k] == split(path)[k]);
            } else {
                assert(body[k] == split(path)[k + 1]);
            }
        }
        lemma_resolve_names(body);
    }
}

/// A canonical path is the join of its own pieces, and bringing it into
/// canonical form finds exactly those.
pub proof fn lemma_canonical(path: Seq<char>)
    requires
        is_canonical(path),
    ensures
        segments(path) == Some(path_segments(path)),
        join(path_segments(path)) == path,
        forall|k: int|
            0 <= k < path_segments(path).len() ==> is_proper(#[trigger] path_segments(path)[k]),
{
    lemma_segments_names(path);
    lemma_split_join(segments(path)->0);
}

/// Proper names, joined, are a canonical path with those names as its
/// segments.
pub proof fn lemma_join_canonical(segs: Seq<Seq<char>>)
    requires
        forall|k: int| 0 <= k < segs.len() ==> is_proper(#[trigger] segs[k]),
    ensures
        segments(join(segs)) == Some(segs),
        is_canonical(join(segs)),
{
    lemma_split_join(segs);
    let path = join(segs);
    if segs.len() == 0 {
        assert(split(path) =~= seq![Seq::<char>::empty()]);
        assert(!path.contains('\0'));
    } else {
        assert(split(path) == segs);
        assert(body_pieces(path) == segs);
        lemma_resolve_clean(segs);
        lemma_join_chars(segs);
    }
}

/// Resolving leaves a run of proper names as it is.
pub proof fn lemma_resolve_clean(segs: Seq<Seq<char>>)
    requires
        forall|k: int| 0 <= k < segs.len() ==> (#[trigger] segs[k]).len() > 0 && segs[k] != seq!['.']
            && segs[k] != seq!['.', '.'],
    ensures
        resolve(segs) == Some(segs),
    decreases segs.len(),
{
    if segs.len() > 0 {
        lemma_resolve_clean(segs.drop_last());
        assert(segs.drop_last().push(segs.last()) =~= segs);
    } else {
        assert(segs =~= Seq::<Seq<char>>::empty());
    }
}

/// A character of a join is a `/` or a character of one of the segments.
pub proof fn lemma_join_chars(segs: Seq<Seq<char>>)
    ensures
        forall|i: int|
            0 <= i < join(segs).len() ==> #[trigger] join(segs)[i] == '/' || exists|k: int, j: int|
                0 <= k < segs.len() && 0 <= j < segs[k].len() && segs[k][j] == join(segs)[i],
    decreases segs.len(),
{
    if segs.len() >= 2 {
        let init = segs.drop_last();
        lemma_join_chars(init);
        let front = join(init);
        assert forall|i: int| 0 <= i < join(segs).len() implies #[trigger] join(segs)[i] == '/'
            || exists|k: int, j: int|
            0 <= k < segs.len() && 0 <= j < segs[k].len() && segs[k][j] == join(segs)[i] by {
            if i < front.len() {
                assert(join(segs)[i] == front[i]);
                if front[i] != '/' {
                    let (k, j) = choose|k: int, j: int|
                        0 <= k < init.len() && 0 <= j < init[k].len() && init[k][j] == front[i];
                    assert(segs[k][j] == join(segs)[i]);
                }
            } else if i == front.len() {
            } else {
                let j = i - front.len() - 1;
                assert(segs[segs.len() - 1][j] == join(segs)[i]);
            }
        }
    } else if segs.len() == 1 {
        assert forall|i: int| 0 <= i < join(segs).len() implies #[trigger] join(segs)[i] == '/'
            || exists|k: int, j: int|
            0 <= k < segs.len() && 0 <= j < segs[k].len() && segs[k][j] == join(segs)[i] by {
            assert(segs[0][i] == join(segs)[i]);
        }
    }
}

/// The canonical form of a path is canonical: bringing it into canonical
/// form once more changes nothing.
pub proof fn lemma_canonical_once(path: Seq<char>)
    requires
        canonical(path) is Some,
    ensures
        is_canonical(canonical(path)->0),
{
    lemma_segments_names(path);
    lemma_join_canonical(segments(path)->0);
}

} // verus!
