use include_dir::tokens::match_path;
use include_dir::tokens::unwrap_string_literal;
use include_dir::tokens::TokenTree;

const USAGE: &str = "This macro only accepts a single, non-empty string argument";

fn literal(repr: &str) -> TokenTree {
    TokenTree::Literal(repr.to_string())
}

#[test]
fn unwrap_string_literal_takes_the_quotes_off() {
    assert_eq!(unwrap_string_literal("\"assets\""), Ok("assets".to_string()));
    assert_eq!(unwrap_string_literal("\"a b/c\""), Ok("a b/c".to_string()));
    assert_eq!(unwrap_string_literal("\"été\""), Ok("été".to_string()));
}

#[test]
fn unwrap_string_literal_of_empty_quotes_is_empty() {
    assert_eq!(unwrap_string_literal("\"\""), Ok(String::new()));
    assert_eq!(unwrap_string_literal("\""), Ok(String::new()));
}

#[test]
fn unwrap_string_literal_refuses_what_is_not_quoted() {
    assert_eq!(unwrap_string_literal("assets"), Err(USAGE));
    assert_eq!(unwrap_string_literal("\"assets"), Err(USAGE));
    assert_eq!(unwrap_string_literal("assets\""), Err(USAGE));
    assert_eq!(unwrap_string_literal("42"), Err(USAGE));
    assert_eq!(unwrap_string_literal(""), Err(USAGE));
}

#[test]
fn match_path_takes_a_single_string_literal() {
    assert_eq!(match_path(&vec![literal("\"assets\"")]), Ok("assets".to_string()));
}

#[test]
fn match_path_looks_into_groups() {
    let wrapped = TokenTree::Group(vec![TokenTree::Group(vec![literal("\"static/www\"")])]);
    assert_eq!(match_path(&vec![wrapped]), Ok("static/www".to_string()));
}

#[test]
fn match_path_refuses_anything_else() {
    assert_eq!(match_path(&vec![]), Err(USAGE));
    assert_eq!(match_path(&vec![TokenTree::Other]), Err(USAGE));
    assert_eq!(match_path(&vec![literal("\"a\""), literal("\"b\"")]), Err(USAGE));
    assert_eq!(match_path(&vec![literal("7")]), Err(USAGE));
    assert_eq!(match_path(&vec![TokenTree::Group(vec![])]), Err(USAGE));
    assert_eq!(
        match_path(&vec![TokenTree::Group(vec![literal("\"a\""), TokenTree::Other])]),
        Err(USAGE)
    );
}
