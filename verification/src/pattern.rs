//! Glob patterns over canonical paths.
//!
//! A pattern is cut at its separators into components, as a path is cut
//! into segments. The component `**` stands for any run of whole segments,
//! none included. Every other component stands for one segment, and is
//! made of literal characters, `?` for any one character, `*` for any run
//! of characters, and classes such as `[abc]`, `[a-z]` or `[!0-9]` for one
//! character in, or not in, the class.

use vstd::prelude::*;
use crate::error::Error;
use crate::error::ErrorView;
use crate::path::char_at;
use crate::path::path_segments;
use crate::path::span_text;
use crate::path::spans_ok;
use crate::path::spans_text;
use crate::path::stored_spans;
use crate::path::to_chars;
use crate::path::Span;
use vstd::string::StringExecFns;

verus! {

/// One member of a character class.
#[derive(Clone, Copy, Debug, PartialEq, Eq)]
pub enum CharSpec {
    /// This character.
    Single(char),
    /// Every character from the first to the second, both included.
    Range(char, char),
}

/// One step of a component.
#[derive(Debug, PartialEq, Eq)]
pub enum Token {
    /// This character.
    Char(char),
    /// `?`: any one character.
    AnyChar,
    /// `*`: any run of characters.
    AnySequence,
    /// `[...]`: one character of the class.
    AnyWithin(Vec<CharSpec>),
    /// `[!...]`: one character that is not of the class.
    AnyExcept(Vec<CharSpec>),
}

/// The mathematical value of a [`Token`].
pub ghost enum TokenView {
    Char(char),
    AnyChar,
    AnySequence,
    AnyWithin(Seq<CharSpec>),
    AnyExcept(Seq<CharSpec>),
}

impl View for Token {
    type V = TokenView;

    open spec fn view(&self) -> TokenView {
        match *self {
            Token::Char(c) => TokenView::Char(c),
            Token::AnyChar => TokenView::AnyChar,
            Token::AnySequence => TokenView::AnySequence,
            Token::AnyWithin(specs) => TokenView::AnyWithin(specs@),
            Token::AnyExcept(specs) => TokenView::AnyExcept(specs@),
        }
    }
}

/// The values of a run of tokens, in order.
pub open spec fn token_views(tokens: Seq<Token>) -> Seq<TokenView> {
    tokens.map_values(|t: Token| t@)
}

/// One component of a pattern.
#[derive(Debug, PartialEq, Eq)]
pub enum Component {
    /// `**`: any run of whole segments.
    Recursive,
    /// Anything else: one segment that the tokens match.
    Segment(Vec<Token>),
}

/// The mathematical value of a [`Component`].
pub ghost enum ComponentView {
    Recursive,
    Segment(Seq<TokenView>),
}

impl View for Component {
    type V = ComponentView;

    open spec fn view(&self) -> ComponentView {
        match *self {
            Component::Recursive => ComponentView::Recursive,
            Component::Segment(tokens) => ComponentView::Segment(token_views(tokens@)),
        }
    }
}

/// The values of a run of components, in order.
pub open spec fn component_views(components: Seq<Component>) -> Seq<ComponentView> {
    components.map_values(|c: Component| c@)
}

/// A compiled glob pattern.
#[derive(Debug, PartialEq, Eq)]
pub struct Pattern {
    pub components: Vec<Component>,
}

impl View for Pattern {
    type V = Seq<ComponentView>;

    open spec fn view(&self) -> Seq<ComponentView> {
        component_views(self.components@)
    }
}

/// The members of the class written in `s[from..to]`: three characters
/// with `-` in the middle are a range, any other character is itself.
pub open spec fn parse_specs(s: Seq<char>, from: int, to: int) -> Seq<CharSpec>
    decreases to - from,
{
    if from >= to {
        Seq::empty()
    } else if from + 3 <= to && s[from + 1] == '-' {
        seq![CharSpec::Range(s[from], s[from + 2])] + parse_specs(s, from + 3, to)
    } else {
        seq![CharSpec::Single(s[from])] + parse_specs(s, from + 1, to)
    }
}

/// The position of the first `]` at or after `from`, or the length of `s`
/// where there is none.
pub open spec fn class_end(s: Seq<char>, from: int) -> int
    decreases s.len() - from,
{
    if from >= s.len() {
        s.len() as int
    } else if s[from] == ']' {
        from
    } else {
        class_end(s, from + 1)
    }
}

/// A class ends at or after the place where the search for its end starts,
/// on a `]` where it ends within `s`.
pub proof fn lemma_class_end(s: Seq<char>, from: int)
    requires
        0 <= from,
    ensures
        class_end(s, from) <= s.len(),
        class_end(s, from) < s.len() ==> from <= class_end(s, from) && s[class_end(s, from)] == ']',
        forall|j: int| from <= j < class_end(s, from) ==> s[j] != ']',
    decreases s.len() - from,
{
    if from < s.len() && s[from] != ']' {
        lemma_class_end(s, from + 1);
    }
}

/// `t` in front of the tokens that follow, where those could be read.
pub open spec fn token_then(t: TokenView, rest: Option<Seq<TokenView>>) -> Option<Seq<TokenView>> {
    match rest {
        Some(r) => Some(seq![t] + r),
        None => None,
    }
}

/// The tokens written in `s` from `from` on, or `None` where they are
/// malformed: a `*` directly after a `*`, or a `[` whose class is not
/// closed. A class holds at least one character, so a `]` that comes first
/// in it is a member and does not close it.
pub open spec fn parse_tokens(s: Seq<char>, from: int) -> Option<Seq<TokenView>>
    decreases s.len() - from,
{
    if from >= s.len() || from < 0 {
        Some(Seq::empty())
    } else if s[from] == '?' {
        token_then(TokenView::AnyChar, parse_tokens(s, from + 1))
    } else if s[from] == '*' {
        if from + 1 < s.len() && s[from + 1] == '*' {
            None
        } else {
            token_then(TokenView::AnySequence, parse_tokens(s, from + 1))
        }
    } else if s[from] == '[' {
        let negated = from + 1 < s.len() && s[from + 1] == '!';
        let body = if negated {
            from + 2
        } else {
            from + 1
        };
        let end = class_end(s, body + 1);
        if end >= s.len() {
            None
        } else if negated {
            proof {
                lemma_class_end(s, body + 1);
            }
            token_then(
                TokenView::AnyExcept(parse_specs(s, body, end)),
                parse_tokens(s, end + 1),
            )
        } else {
            proof {
                lemma_class_end(s, body + 1);
            }
            token_then(
                TokenView::AnyWithin(parse_specs(s, body, end)),
                parse_tokens(s, end + 1),
            )
        }
    } else {
        token_then(TokenView::Char(s[from]), parse_tokens(s, from + 1))
    }
}

/// The component written in `text`: `**` alone is the recursive one, all
/// else is read as tokens.
pub open spec fn parse_component(text: Seq<char>) -> Option<ComponentView> {
    if text == seq!['*', '*'] {
        Some(ComponentView::Recursive)
    } else {
        match parse_tokens(text, 0) {
            Some(tokens) => Some(ComponentView::Segment(tokens)),
            None => None,
        }
    }
}

/// The components written in `pieces`, or `None` where one is malformed.
pub open spec fn parse_components(pieces: Seq<Seq<char>>) -> Option<Seq<ComponentView>>
    decreases pieces.len(),
{
    if pieces.len() == 0 {
        Some(Seq::empty())
    } else {
        match (parse_components(pieces.drop_last()), parse_component(pieces.last())) {
            (Some(front), Some(c)) => Some(front.push(c)),
            _ => None,
        }
    }
}

/// The pattern written in `text`, or `None` where it is malformed. The
/// empty text is the pattern without components.
pub open spec fn parse(text: Seq<char>) -> Option<Seq<ComponentView>> {
    parse_components(path_segments(text))
}

/// Whether `c` is the character, or in the range, that `spec` names.
pub open spec fn spec_holds(spec: CharSpec, c: char) -> bool {
    match spec {
        CharSpec::Single(x) => c == x,
        CharSpec::Range(lo, hi) => lo <= c <= hi,
    }
}

/// Whether `c` is in the class.
pub open spec fn in_class(specs: Seq<CharSpec>, c: char) -> bool {
    exists|i: int| 0 <= i < specs.len() && spec_holds(#[trigger] specs[i], c)
}

/// Whether `t` matches the one character `c`. A `*` is no match for one
/// character: it stands for a run.
pub open spec fn token_accepts(t: TokenView, c: char) -> bool {
    match t {
        TokenView::Char(x) => c == x,
        TokenView::AnyChar => true,
        TokenView::AnySequence => false,
        TokenView::AnyWithin(specs) => in_class(specs, c),
        TokenView::AnyExcept(specs) => !in_class(specs, c),
    }
}

/// Whether `tokens[ti..]` match `text[ci..]`, all of it.
pub open spec fn segment_matches(tokens: Seq<TokenView>, ti: int, text: Seq<char>, ci: int) -> bool
    decreases tokens.len() - ti, text.len() - ci,
{
    if ti >= tokens.len() {
        ci >= text.len()
    } else if tokens[ti] is AnySequence {
        segment_matches(tokens, ti + 1, text, ci) || (ci < text.len() && segment_matches(
            tokens,
            ti,
            text,
            ci + 1,
        ))
    } else {
        ci < text.len() && token_accepts(tokens[ti], text[ci]) && segment_matches(
            tokens,
            ti + 1,
            text,
            ci + 1,
        )
    }
}

/// Whether `pattern[pi..]` match `segs[si..]`, all of them: `**` takes any
/// number of segments, every other component takes one.
pub open spec fn segments_match(
    pattern: Seq<ComponentView>,
    pi: int,
    segs: Seq<Seq<char>>,
    si: int,
) -> bool
    decreases pattern.len() - pi, segs.len() - si,
{
    if pi >= pattern.len() {
        si >= segs.len()
    } else {
        match pattern[pi] {
            ComponentView::Recursive => segments_match(pattern, pi + 1, segs, si) || (si
                < segs.len() && segments_match(pattern, pi, segs, si + 1)),
            ComponentView::Segment(tokens) => si < segs.len() && segment_matches(
                tokens,
                0,
                segs[si],
                0,
            ) && segments_match(pattern, pi + 1, segs, si + 1),
        }
    }
}

/// Whether the pattern matches the stored path `path`, all of it.
pub open spec fn pattern_matches(pattern: Seq<ComponentView>, path: Seq<char>) -> bool {
    segments_match(pattern, 0, path_segments(path), 0)
}

/// The tokens read so far, in front of those that follow, where those
/// could be read.
spec fn tokens_after(front: Seq<TokenView>, rest: Option<Seq<TokenView>>) -> Option<
    Seq<TokenView>,
> {
    match rest {
        Some(r) => Some(front + r),
        None => None,
    }
}

proof fn lemma_tokens_after(front: Seq<TokenView>, t: TokenView, rest: Option<Seq<TokenView>>)
    ensures
        tokens_after(front, token_then(t, rest)) == tokens_after(front.push(t), rest),
{
    if rest is Some {
        assert(front + (seq![t] + rest->0) =~= front.push(t) + rest->0);
    }
}

fn copy_span(buf: &Vec<char>, sp: Span) -> (text: Vec<char>)
    requires
        sp.start <= sp.end <= buf.len(),
    ensures
        text@ == span_text(buf@, sp),
{
    let mut text: Vec<char> = Vec::new();
    let mut i: usize = sp.start;
    while i < sp.end
        invariant
            sp.start <= i <= sp.end <= buf.len(),
            text@ == buf@.subrange(sp.start as int, i as int),
        decreases sp.end - i,
    {
        text.push(buf[i]);
        proof {
            assert(buf@.subrange(sp.start as int, i + 1) =~= buf@.subrange(
                sp.start as int,
                i as int,
            ).push(buf@[i as int]));
        }
        i += 1;
    }
    text
}

fn read_specs(text: &Vec<char>, from: usize, to: usize) -> (specs: Vec<CharSpec>)
    requires
        from <= to <= text.len(),
    ensures
        specs@ == parse_specs(text@, from as int, to as int),
{
    let mut specs: Vec<CharSpec> = Vec::new();
    let mut i: usize = from;
    proof {
        assert(specs@ + parse_specs(text@, i as int, to as int) =~= parse_specs(
            text@,
            from as int,
            to as int,
        ));
    }
    while i < to
        invariant
            from <= i <= to <= text.len(),
            specs@ + parse_specs(text@, i as int, to as int) == parse_specs(
                text@,
                from as int,
                to as int,
            ),
        decreases to - i,
    {
        let ghost before = specs@;
        if to - i >= 3 && text[i + 1] == '-' {
            let one = CharSpec::Range(char_at(text, i), char_at(text, i + 2));
            specs.push(one);
            proof {
                assert(before + (seq![one] + parse_specs(text@, i + 3, to as int)) =~= specs@
                    + parse_specs(text@, i + 3, to as int));
            }
            i += 3;
        } else {
            let one = CharSpec::Single(char_at(text, i));
            specs.push(one);
            proof {
                assert(before + (seq![one] + parse_specs(text@, i + 1, to as int)) =~= specs@
                    + parse_specs(text@, i + 1, to as int));
            }
            i += 1;
        }
    }
    proof {
        assert(specs@ + Seq::<CharSpec>::empty() =~= specs@);
    }
    specs
}

fn find_class_end(text: &Vec<char>, from: usize) -> (end: usize)
    requires
        from <= text.len(),
    ensures
        end == class_end(text@, from as int),
{
    let mut j: usize = from;
    while j < text.len() && text[j] != ']'
        invariant
            from <= j <= text.len(),
            class_end(text@, from as int) == class_end(text@, j as int),
        decreases text.len() - j,
    {
        j += 1;
    }
    j
}

fn read_tokens(text: &Vec<char>) -> (r: Option<Vec<Token>>)
    ensures
        match parse_tokens(text@, 0) {
            Some(tokens) => r is Some && token_views(r->0@) == tokens,
            None => r is None,
        },
{
    let ghost s = text@;
    let mut tokens: Vec<Token> = Vec::new();
    let mut i: usize = 0;
    proof {
        assert(token_views(tokens@) =~= Seq::<TokenView>::empty());
        if parse_tokens(s, 0) is Some {
            assert(Seq::<TokenView>::empty() + parse_tokens(s, 0)->0 =~= parse_tokens(s, 0)->0);
        }
    }
    while i < text.len()
        invariant
            i <= text.len(),
            s == text@,
            parse_tokens(s, 0) == tokens_after(token_views(tokens@), parse_tokens(s, i as int)),
        decreases text.len() - i,
    {
        let ghost front = token_views(tokens@);
        let c = char_at(text, i);
        if c == '?' {
            tokens.push(Token::AnyChar);
            proof {
                lemma_tokens_after(front, TokenView::AnyChar, parse_tokens(s, i + 1));
                assert(token_views(tokens@) =~= front.push(TokenView::AnyChar));
            }
            i += 1;
        } else if c == '*' {
            if i + 1 < text.len() && text[i + 1] == '*' {
                return None;
            }
            tokens.push(Token::AnySequence);
            proof {
                lemma_tokens_after(front, TokenView::AnySequence, parse_tokens(s, i + 1));
                assert(token_views(tokens@) =~= front.push(TokenView::AnySequence));
            }
            i += 1;
        } else if c == '[' {
            let negated = i + 1 < text.len() && text[i + 1] == '!';
            let body: usize = if negated {
                i + 2
            } else {
                i + 1
            };
            if body >= text.len() {
                return None;
            }
            let end = find_class_end(text, body + 1);
            if end >= text.len() {
                return None;
            }
            proof {
                lemma_class_end(s, body + 1);
            }
            let specs = read_specs(text, body, end);
            if negated {
                let ghost tv = TokenView::AnyExcept(specs@);
                tokens.push(Token::AnyExcept(specs));
                proof {
                    lemma_tokens_after(front, tv, parse_tokens(s, end + 1));
                    assert(token_views(tokens@) =~= front.push(tv));
                }
            } else {
                let ghost tv = TokenView::AnyWithin(specs@);
                tokens.push(Token::AnyWithin(specs));
                proof {
                    lemma_tokens_after(front, tv, parse_tokens(s, end + 1));
                    assert(token_views(tokens@) =~= front.push(tv));
                }
            }
            i = end + 1;
        } else {
            tokens.push(Token::Char(c));
            proof {
                lemma_tokens_after(front, TokenView::Char(c), parse_tokens(s, i + 1));
                assert(token_views(tokens@) =~= front.push(TokenView::Char(c)));
            }
            i += 1;
        }
    }
    proof {
        assert(token_views(tokens@) + Seq::<TokenView>::empty() =~= token_views(tokens@));
    }
    Some(tokens)
}

fn read_component(text: &Vec<char>) -> (r: Option<Component>)
    ensures
        match parse_component(text@) {
            Some(c) => r is Some && r->0@ == c,
            None => r is None,
        },
{
    if text.len() == 2 && text[0] == '*' && text[1] == '*' {
        proof {
            assert(text@ =~= seq!['*', '*']);
        }
        return Some(Component::Recursive);
    }
    proof {
        if text@ == seq!['*', '*'] {
            assert(text@.len() == 2 && text@[0] == '*' && text@[1] == '*');
        }
    }
    match read_tokens(text) {
        Some(tokens) => Some(Component::Segment(tokens)),
        None => None,
    }
}

/// Once a front part of `pieces` is malformed, the whole is.
proof fn lemma_parse_refused(pieces: Seq<Seq<char>>, k: int)
    requires
        0 <= k <= pieces.len(),
        parse_components(pieces.take(k)) is None,
    ensures
        parse_components(pieces) is None,
    decreases pieces.len() - k,
{
    if k == pieces.len() {
        assert(pieces.take(k) =~= pieces);
    } else {
        assert(pieces.take(k + 1).drop_last() =~= pieces.take(k));
        lemma_parse_refused(pieces, k + 1);
    }
}

fn class_holds(specs: &Vec<CharSpec>, c: char) -> (r: bool)
    ensures
        r == in_class(specs@, c),
{
    let mut i: usize = 0;
    while i < specs.len()
        invariant
            i <= specs.len(),
            forall|j: int| 0 <= j < i ==> !spec_holds(#[trigger] specs@[j], c),
        decreases specs.len() - i,
    {
        let hit = match specs[i] {
            CharSpec::Single(x) => c == x,
            CharSpec::Range(lo, hi) => lo <= c && c <= hi,
        };
        if hit {
            assert(spec_holds(specs@[i as int], c));
            return true;
        }
        i += 1;
    }
    false
}

fn accepts(t: &Token, c: char) -> (r: bool)
    ensures
        r == token_accepts(t@, c),
{
    match t {
        Token::Char(x) => c == *x,
        Token::AnyChar => true,
        Token::AnySequence => false,
        Token::AnyWithin(specs) => class_holds(specs, c),
        Token::AnyExcept(specs) => !class_holds(specs, c),
    }
}

fn match_segment(tokens: &Vec<Token>, ti: usize, buf: &Vec<char>, sp: Span, ci: usize) -> (r:
    bool)
    requires
        ti <= tokens.len(),
        sp.start <= sp.end <= buf.len(),
        ci <= sp.end - sp.start,
    ensures
        r == segment_matches(token_views(tokens@), ti as int, span_text(buf@, sp), ci as int),
    decreases tokens.len() - ti, sp.end - sp.start - ci,
{
    let n: usize = sp.end - sp.start;
    if ti >= tokens.len() {
        return ci >= n;
    }
    assert(token_views(tokens@)[ti as int] == tokens@[ti as int]@);
    match &tokens[ti] {
        Token::AnySequence => {
            if match_segment(tokens, ti + 1, buf, sp, ci) {
                return true;
            }
            ci < n && match_segment(tokens, ti, buf, sp, ci + 1)
        },
        t => {
            if ci >= n {
                return false;
            }
            assert(span_text(buf@, sp)[ci as int] == buf@[sp.start + ci]);
            accepts(t, buf[sp.start + ci]) && match_segment(tokens, ti + 1, buf, sp, ci + 1)
        },
    }
}

fn match_segments(
    components: &Vec<Component>,
    pi: usize,
    buf: &Vec<char>,
    spans: &Vec<Span>,
    si: usize,
) -> (r: bool)
    requires
        pi <= components.len(),
        spans_ok(buf@, spans@),
        si <= spans.len(),
    ensures
        r == segments_match(
            component_views(components@),
            pi as int,
            spans_text(buf@, spans@),
            si as int,
        ),
    decreases components.len() - pi, spans.len() - si,
{
    if pi >= components.len() {
        return si >= spans.len();
    }
    assert(component_views(components@)[pi as int] == components@[pi as int]@);
    match &components[pi] {
        Component::Recursive => {
            if match_segments(components, pi + 1, buf, spans, si) {
                return true;
            }
            si < spans.len() && match_segments(components, pi, buf, spans, si + 1)
        },
        Component::Segment(tokens) => {
            if si >= spans.len() {
                return false;
            }
            assert(spans_text(buf@, spans@)[si as int] == span_text(buf@, spans@[si as int]));
            match_segment(tokens, 0, buf, spans[si], 0) && match_segments(
                components,
                pi + 1,
                buf,
                spans,
                si + 1,
            )
        },
    }
}

impl Pattern {
    /// Compiles the pattern written in `text`. A pattern that is malformed
    /// is an [`Error::BadPattern`]: a class that is not closed, or `**`
    /// that is not a component of its own.
    pub fn new(text: &str) -> (r: Result<Pattern, Error>)
        ensures
            match parse(text@) {
                Some(p) => r matches Ok(pattern) && pattern@ == p,
                None => r matches Err(e) && e@ == (ErrorView::BadPattern { pattern: text@ }),
            },
    {
        let buf = to_chars(text);
        let pieces = stored_spans(&buf);
        let ghost texts = spans_text(buf@, pieces@);
        let mut components: Vec<Component> = Vec::new();
        let mut k: usize = 0;
        proof {
            assert(texts.take(0) =~= Seq::<Seq<char>>::empty());
            assert(component_views(components@) =~= Seq::<ComponentView>::empty());
        }
        while k < pieces.len()
            invariant
                k <= pieces.len(),
                spans_ok(buf@, pieces@),
                texts == spans_text(buf@, pieces@),
                texts == path_segments(text@),
                parse_components(texts.take(k as int)) == Some(component_views(components@)),
            decreases pieces.len() - k,
        {
            let piece = copy_span(&buf, pieces[k]);
            let ghost front = component_views(components@);
            proof {
                assert(texts.take(k + 1).drop_last() =~= texts.take(k as int));
                assert(texts.take(k + 1).last() == piece@);
            }
            match read_component(&piece) {
                None => {
                    proof {
                        lemma_parse_refused(texts, k + 1);
                    }
                    return Err(Error::BadPattern { pattern: String::from_str(text) });
                },
                Some(c) => {
                    let ghost cv = c@;
                    components.push(c);
                    proof {
                        assert(component_views(components@) =~= front.push(cv));
                    }
                },
            }
            k += 1;
        }
        proof {
            assert(texts.take(k as int) =~= texts);
        }
        Ok(Pattern { components })
    }

    /// Whether the pattern matches `path`, taken as it stands: `path` is
    /// cut at its separators and not brought into canonical form.
    pub fn matches(&self, path: &str) -> (r: bool)
        ensures
            r == pattern_matches(self@, path@),
    {
        let buf = to_chars(path);
        let spans = stored_spans(&buf);
        match_segments(&self.components, 0, &buf, &spans, 0)
    }
}

} // verus!
