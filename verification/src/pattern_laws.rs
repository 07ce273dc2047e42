//! What holds of patterns: `**` stands for any number of segments, none
//! included, and `*` for a run of characters within one segment.

use vstd::prelude::*;
use crate::path::is_name;
use crate::path::join;
use crate::path::lemma_split_join;
use crate::path::path_segments;
use crate::pattern::class_end;
use crate::pattern::lemma_class_end;
use crate::pattern::parse;
use crate::pattern::parse_component;
use crate::pattern::parse_components;
use crate::pattern::parse_tokens;
use crate::pattern::pattern_matches;
use crate::pattern::segment_matches;
use crate::pattern::segments_match;
use crate::pattern::ComponentView;
use crate::pattern::TokenView;

verus! {

/// The tokens that stand for the characters of `name`, each for itself.
pub open spec fn literal(name: Seq<char>) -> Seq<TokenView>
    decreases name.len(),
{
    if name.len() == 0 {
        Seq::empty()
    } else {
        literal(name.drop_last()).push(TokenView::Char(name.last()))
    }
}

/// Hands a character back. A character that was taken out of a sequence
/// is known to the solver as a character only once it has passed through
/// here.
proof fn as_char(c: char) -> (d: char)
    ensures
        d == c,
{
    c
}

/// The literal tokens of a name are as many as its characters, each the
/// token of the character in its place.
pub proof fn lemma_literal(name: Seq<char>)
    ensures
        literal(name).len() == name.len(),
        forall|i: int| 0 <= i < name.len() ==> #[trigger] literal(name)[i] == TokenView::Char(name[i]),
    decreases name.len(),
{
    if name.len() > 0 {
        lemma_literal(name.drop_last());
        let last = as_char(name.last());
    }
}

/// Whether `name` is a segment in which no character has a meaning of its
/// own in a pattern.
pub open spec fn is_plain(name: Seq<char>) -> bool {
    is_name(name) && forall|i: int|
        0 <= i < name.len() ==> #[trigger] name[i] != '?' && name[i] != '*' && name[i] != '['
}

/// A lone `*` matches whatever is left of a segment.
pub proof fn lemma_star_matches_rest(text: Seq<char>, ci: int)
    requires
        0 <= ci <= text.len(),
    ensures
        segment_matches(seq![TokenView::AnySequence], 0, text, ci),
    decreases text.len() - ci,
{
    let tokens = seq![TokenView::AnySequence];
    assert(tokens[0] is AnySequence);
    if ci < text.len() {
        lemma_star_matches_rest(text, ci + 1);
    } else {
        assert(segment_matches(tokens, 1, text, ci));
    }
}

/// Literal tokens match the text that they spell, and no other.
pub proof fn lemma_literal_matches(name: Seq<char>, text: Seq<char>, i: int)
    requires
        0 <= i <= name.len(),
        i <= text.len(),
    ensures
        segment_matches(literal(name), i, text, i) <==> text.skip(i) == name.skip(i),
    decreases name.len() - i,
{
    lemma_literal(name);
    if i < name.len() {
        if i < text.len() {
            lemma_literal_matches(name, text, i + 1);
            if text.skip(i) == name.skip(i) {
                assert(text.skip(i)[0] == name.skip(i)[0]);
                assert(text.skip(i + 1) =~= text.skip(i).skip(1));
                assert(name.skip(i + 1) =~= name.skip(i).skip(1));
            }
            if text[i] == name[i] && text.skip(i + 1) == name.skip(i + 1) {
                assert(text.len() == name.len()) by {
                    assert(text.skip(i + 1).len() == name.skip(i + 1).len());
                }
                assert forall|k: int| 0 <= k < text.skip(i).len() implies text.skip(i)[k]
                    == name.skip(i)[k] by {
                    if k > 0 {
                        assert(text.skip(i + 1)[k - 1] == name.skip(i + 1)[k - 1]);
                    }
                }
                assert(text.skip(i) =~= name.skip(i));
            }
        } else {
            assert(text.skip(i).len() != name.skip(i).len());
        }
    } else {
        if text.len() == i {
            assert(text.skip(i) =~= name.skip(i));
        } else {
            assert(text.skip(i).len() != name.skip(i).len());
        }
    }
}

/// A plain name is read as the literal tokens of its characters.
pub proof fn lemma_parse_plain(name: Seq<char>, i: int)
    requires
        is_plain(name),
        0 <= i <= name.len(),
    ensures
        parse_tokens(name, i) == Some(literal(name).skip(i)),
    decreases name.len() - i,
{
    lemma_literal(name);
    if i < name.len() {
        lemma_parse_plain(name, i + 1);
        let c = as_char(name[i]);
        assert(seq![TokenView::Char(name[i])] + literal(name).skip(i + 1) =~= literal(name).skip(
            i,
        ));
    } else {
        assert(literal(name).skip(i) =~= Seq::<TokenView>::empty());
    }
}

/// A `**` at the end of a pattern matches whatever segments are left.
pub proof fn lemma_recursive_matches_rest(
    pattern: Seq<ComponentView>,
    segs: Seq<Seq<char>>,
    si: int,
)
    requires
        pattern.len() > 0,
        pattern.last() is Recursive,
        0 <= si <= segs.len(),
    ensures
        segments_match(pattern, pattern.len() - 1, segs, si),
    decreases segs.len() - si,
{
    if si < segs.len() {
        lemma_recursive_matches_rest(pattern, segs, si + 1);
    } else {
        assert(segments_match(pattern, pattern.len() as int, segs, si));
    }
}

/// The pattern `**` matches every path.
pub proof fn lemma_recursive_matches_all(path: Seq<char>)
    ensures
        parse(seq!['*', '*']) == Some(seq![ComponentView::Recursive]),
        pattern_matches(seq![ComponentView::Recursive], path),
{
    let stars = seq!['*', '*'];
    lemma_split_join(seq![stars]);
    assert(seq![stars].drop_last() =~= Seq::<Seq<char>>::empty());
    assert(parse_components(Seq::<Seq<char>>::empty()) == Some(Seq::<ComponentView>::empty()));
    assert(Seq::<ComponentView>::empty().push(ComponentView::Recursive) =~= seq![
        ComponentView::Recursive,
    ]);
    lemma_recursive_matches_rest(seq![ComponentView::Recursive], path_segments(path), 0);
}

/// What a plain name, a separator and one more component are read as: the
/// name's literal tokens, then what the component is read as.
proof fn lemma_parse_pair(name: Seq<char>, last: Seq<char>)
    requires
        is_plain(name),
        is_name(last),
        parse_component(last) is Some,
    ensures
        parse(name + seq!['/'] + last) == Some(
            seq![ComponentView::Segment(literal(name)), parse_component(last)->0],
        ),
{
    let pieces = seq![name, last];
    let text = name + seq!['/'] + last;
    assert(pieces.drop_last() =~= seq![name]);
    assert(join(seq![name]) == name);
    assert(join(pieces) == text);
    lemma_split_join(pieces);
    lemma_parse_plain(name, 0);
    assert(literal(name).skip(0) =~= literal(name));
    assert(name != seq!['*', '*']) by {
        if name == seq!['*', '*'] {
            assert(name[0] == '*');
        }
    }
    assert(seq![name].drop_last() =~= Seq::<Seq<char>>::empty());
    assert(parse_components(Seq::<Seq<char>>::empty()) == Some(Seq::<ComponentView>::empty()));
    let first = ComponentView::Segment(literal(name));
    assert(Seq::<ComponentView>::empty().push(first) =~= seq![first]);
    assert(parse_components(seq![name]) == Some(seq![first]));
    assert(seq![first].push(parse_component(last)->0) =~= seq![first, parse_component(last)->0]);
}

/// A name followed by `/**` matches the path of that name and every path
/// below it, and no other.
pub proof fn lemma_recursive_below(name: Seq<char>, path: Seq<char>)
    requires
        is_plain(name),
    ensures
        parse(name + seq!['/'] + seq!['*', '*']) is Some,
        pattern_matches(parse(name + seq!['/'] + seq!['*', '*'])->0, path) <==> path_segments(
            path,
        ).len() >= 1 && path_segments(path)[0] == name,
{
    let stars = seq!['*', '*'];
    lemma_parse_pair(name, stars);
    let pattern = seq![ComponentView::Segment(literal(name)), ComponentView::Recursive];
    let segs = path_segments(path);
    if segs.len() >= 1 {
        lemma_literal_matches(name, segs[0], 0);
        assert(segs[0].skip(0) =~= segs[0]);
        assert(name.skip(0) =~= name);
        lemma_recursive_matches_rest(pattern, segs, 1);
    }
}

/// A name followed by `/*` matches the paths that lie directly in the
/// directory of that name, and no other: not the directory itself, and
/// nothing further down.
pub proof fn lemma_star_directly_below(name: Seq<char>, path: Seq<char>)
    requires
        is_plain(name),
    ensures
        parse(name + seq!['/'] + seq!['*']) is Some,
        pattern_matches(parse(name + seq!['/'] + seq!['*'])->0, path) <==> path_segments(
            path,
        ).len() == 2 && path_segments(path)[0] == name,
{
    let star = seq!['*'];
    assert(parse_tokens(star, 1) == Some(Seq::<TokenView>::empty()));
    assert(seq![TokenView::AnySequence] + Seq::<TokenView>::empty() =~= seq![
        TokenView::AnySequence,
    ]);
    assert(parse_tokens(star, 0) == Some(seq![TokenView::AnySequence]));
    assert(star != seq!['*', '*']) by {
        assert(star.len() == 1);
    }
    lemma_parse_pair(name, star);
    let any = ComponentView::Segment(seq![TokenView::AnySequence]);
    let pattern = seq![ComponentView::Segment(literal(name)), any];
    let segs = path_segments(path);
    if segs.len() >= 1 {
        lemma_literal_matches(name, segs[0], 0);
        assert(segs[0].skip(0) =~= segs[0]);
        assert(name.skip(0) =~= name);
        if segs.len() >= 2 {
            lemma_star_matches_rest(segs[1], 0);
            assert(segments_match(pattern, 2, segs, 2) <==> segs.len() == 2);
            assert(segments_match(pattern, 1, segs, 1) <==> segs.len() == 2);
        } else {
            assert(!segments_match(pattern, 1, segs, 1));
        }
    }
}

/// Where a `[` stands at `at` and no `]` follows it, the tokens cannot be
/// read from any place up to it.
proof fn lemma_open_class_from(text: Seq<char>, at: int, from: int)
    requires
        0 <= from <= at < text.len(),
        text[at] == '[',
        forall|j: int| at < j < text.len() ==> text[j] != ']',
    ensures
        parse_tokens(text, from) is None,
    decreases at - from,
{
    if text[from] == '[' {
        let negated = from + 1 < text.len() && text[from + 1] == '!';
        let body = if negated {
            from + 2
        } else {
            from + 1
        };
        let end = class_end(text, body + 1);
        lemma_class_end(text, body + 1);
        if end < text.len() {
            assert(end < at) by {
                if end > at {
                    assert(text[end] != ']');
                }
            }
            lemma_open_class_from(text, at, end + 1);
        }
    } else if text[from] == '*' && from + 1 < text.len() && text[from + 1] == '*' {
    } else {
        lemma_open_class_from(text, at, from + 1);
    }
}

/// A component with a `[` that no `]` follows is malformed.
pub proof fn lemma_open_class_refused(text: Seq<char>, at: int)
    requires
        0 <= at < text.len(),
        text[at] == '[',
        forall|j: int| at < j < text.len() ==> text[j] != ']',
    ensures
        parse_component(text) is None,
{
    lemma_open_class_from(text, at, 0);
    if text == seq!['*', '*'] {
        assert(text[at] == '*');
    }
}

/// A pattern with a malformed component is malformed.
pub proof fn lemma_bad_component_refused(pieces: Seq<Seq<char>>, k: int)
    requires
        0 <= k < pieces.len(),
        parse_component(pieces[k]) is None,
    ensures
        parse_components(pieces) is None,
    decreases pieces.len(),
{
    if k < pieces.len() - 1 {
        lemma_bad_component_refused(pieces.drop_last(), k);
    }
}

} // verus!
