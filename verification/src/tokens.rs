//! The argument of the embedding macro: a single string literal, bare or
//! wrapped in groups, that names the directory to embed.

use vstd::prelude::*;
use vstd::string::StrSliceExecFns;
use vstd::string::StringExecFns;
use crate::path::char_at;
use crate::path::to_chars;

verus! {

/// One token of the macro's argument, as far as the macro looks at it.
#[derive(Debug, PartialEq, Eq)]
pub enum TokenTree {
    /// A literal, as it is written in the source: a string literal starts
    /// and ends with a double quote.
    Literal(String),
    /// Tokens between delimiters, or grouped by an earlier expansion.
    Group(Vec<TokenTree>),
    /// Any other token: a name or a punctuation mark.
    Other,
}

/// The mathematical value of a [`TokenTree`].
pub ghost enum TokenTreeView {
    Literal(Seq<char>),
    Group(Seq<TokenTreeView>),
    Other,
}

/// The value of a token.
pub open spec fn token_tree_view(t: TokenTree) -> TokenTreeView
    decreases t, 1int,
{
    match t {
        TokenTree::Literal(repr) => TokenTreeView::Literal(repr@),
        TokenTree::Group(inner) => TokenTreeView::Group(token_tree_views(inner@)),
        TokenTree::Other => TokenTreeView::Other,
    }
}

/// The values of a run of tokens, in order.
pub open spec fn token_tree_views(tokens: Seq<TokenTree>) -> Seq<TokenTreeView>
    decreases tokens, 0int,
{
    if tokens.len() == 0 {
        Seq::empty()
    } else {
        token_tree_views(tokens.drop_last()).push(token_tree_view(tokens.last()))
    }
}

impl View for TokenTree {
    type V = TokenTreeView;

    open spec fn view(&self) -> TokenTreeView {
        token_tree_view(*self)
    }
}

/// `token_tree_views` goes through the run item by item.
pub proof fn lemma_token_tree_views(tokens: Seq<TokenTree>)
    ensures
        token_tree_views(tokens).len() == tokens.len(),
        forall|i: int|
            0 <= i < tokens.len() ==> #[trigger] token_tree_views(tokens)[i] == tokens[i]@,
    decreases tokens.len(),
{
    if tokens.len() > 0 {
        lemma_token_tree_views(tokens.drop_last());
    }
}

/// What the macro says of an argument that it does not take.
pub open spec fn usage() -> Seq<char> {
    "This macro only accepts a single, non-empty string argument"@
}

/// What stands between the quotes of the literal written as `repr`, or
/// `None` where `repr` does not start and end with a double quote.
pub open spec fn unquoted(repr: Seq<char>) -> Option<Seq<char>> {
    if repr.len() >= 1 && repr[0] == '"' && repr.last() == '"' {
        if repr.len() >= 2 {
            Some(repr.subrange(1, repr.len() - 1))
        } else {
            Some(Seq::empty())
        }
    } else {
        None
    }
}

/// The path that the tokens name: they are one string literal, or one
/// group of tokens that name a path.
pub open spec fn named_path(tokens: Seq<TokenTreeView>) -> Option<Seq<char>>
    decreases tokens,
{
    if tokens.len() == 1 {
        match tokens[0] {
            TokenTreeView::Literal(repr) => unquoted(repr),
            TokenTreeView::Group(inner) => named_path(inner),
            TokenTreeView::Other => None,
        }
    } else {
        None
    }
}

/// Takes the quotes off the literal written as `repr`.
pub fn unwrap_string_literal(repr: &str) -> (r: Result<String, &'static str>)
    ensures
        match unquoted(repr@) {
            Some(inner) => r matches Ok(s) && s@ == inner,
            None => r matches Err(text) && text@ == usage(),
        },
{
    let buf = to_chars(repr);
    let n: usize = buf.len();
    if n == 0 || char_at(&buf, 0) != '"' || char_at(&buf, n - 1) != '"' {
        return Err("This macro only accepts a single, non-empty string argument");
    }
    if n < 2 {
        return Ok(String::new());
    }
    Ok(String::from_str(repr.substring_char(1, n - 1)))
}

/// Finds the path that the macro's argument names.
pub fn match_path(tokens: &Vec<TokenTree>) -> (r: Result<String, &'static str>)
    ensures
        match named_path(token_tree_views(tokens@)) {
            Some(path) => r matches Ok(s) && s@ == path,
            None => r matches Err(text) && text@ == usage(),
        },
    decreases tokens,
{
    proof {
        lemma_token_tree_views(tokens@);
    }
    if tokens.len() != 1 {
        return Err("This macro only accepts a single, non-empty string argument");
    }
    match &tokens[0] {
        TokenTree::Literal(repr) => unwrap_string_literal(repr.as_str()),
        TokenTree::Group(inner) => match_path(inner),
        TokenTree::Other => Err("This macro only accepts a single, non-empty string argument"),
    }
}

} // verus!
