use include_dir::Dir;
use include_dir::DirEntry;
use include_dir::Error;
use include_dir::File;
use include_dir::Pattern;

fn text_file(path: &str, contents: &str) -> File {
    File { path: path.to_string(), contents: contents.as_bytes().to_vec(), metadata: None }
}

fn leaf(path: &str) -> Dir {
    Dir { path: path.to_string(), files: vec![], dirs: vec![] }
}

fn small_tree() -> Dir {
    Dir {
        path: String::new(),
        files: vec![text_file("a.txt", "hi")],
        dirs: vec![Dir {
            path: "sub".to_string(),
            files: vec![text_file("sub/b.txt", "yo")],
            dirs: vec![],
        }],
    }
}

fn source_tree() -> Dir {
    Dir {
        path: String::new(),
        files: vec![text_file("Cargo.toml", ""), text_file("src.rs", "")],
        dirs: vec![
            Dir {
                path: "src".to_string(),
                files: vec![text_file("src/lib.rs", ""), text_file("src/main.rs", "")],
                dirs: vec![
                    Dir {
                        path: "src/bin".to_string(),
                        files: vec![text_file("src/bin/tool.rs", "")],
                        dirs: vec![leaf("src/bin/empty")],
                    },
                ],
            },
            Dir { path: "tests".to_string(), files: vec![text_file("tests/it.rs", "")], dirs: vec![] },
        ],
    }
}

fn paths(found: &[DirEntry<'_>]) -> Vec<String> {
    found.iter().map(|e| e.path().to_string()).collect()
}

fn good(text: &str) -> Pattern {
    Pattern::new(text).unwrap()
}

#[test]
fn find_lists_text_files_in_the_order_of_the_walk() {
    let tree = small_tree();
    let found = tree.find("**/*.txt").unwrap();
    assert_eq!(paths(&found), vec!["a.txt", "sub/b.txt"]);
    assert!(matches!(found[0], DirEntry::File(f) if f.contents() == b"hi"));
    assert!(matches!(found[1], DirEntry::File(f) if f.contents() == b"yo"));
}

#[test]
fn find_star_in_an_empty_root_finds_nothing() {
    let root = leaf("");
    assert!(root.files().is_empty());
    assert!(root.dirs().is_empty());
    assert_eq!(root.find("*").unwrap().len(), 0);
}

#[test]
fn find_refuses_an_unterminated_class() {
    let tree = small_tree();
    assert_eq!(
        tree.find("[abc").unwrap_err(),
        Error::BadPattern { pattern: "[abc".to_string() }
    );
    assert!(tree.globs("[abc").is_err());
}

#[test]
fn find_twice_gives_the_same_sequence() {
    let tree = source_tree();
    let first = tree.find("**/*.rs").unwrap();
    let second = tree.find("**/*.rs").unwrap();
    assert_eq!(first, second);
    assert_eq!(
        paths(&first),
        vec!["src.rs", "src/lib.rs", "src/main.rs", "src/bin/tool.rs", "tests/it.rs"]
    );
}

#[test]
fn recursive_wildcard_matches_the_directory_and_all_below_it() {
    let tree = source_tree();
    let found = tree.find("src/**").unwrap();
    assert_eq!(
        paths(&found),
        vec!["src", "src/lib.rs", "src/main.rs", "src/bin", "src/bin/tool.rs", "src/bin/empty"]
    );
}

#[test]
fn star_matches_direct_children_only() {
    let tree = source_tree();
    let found = tree.find("src/*").unwrap();
    assert_eq!(paths(&found), vec!["src/lib.rs", "src/main.rs", "src/bin"]);
}

#[test]
fn recursive_wildcard_alone_matches_every_entry_root_first() {
    let tree = small_tree();
    let found = tree.find("**").unwrap();
    assert_eq!(paths(&found), vec!["", "a.txt", "sub", "sub/b.txt"]);
    assert!(matches!(found[0], DirEntry::Dir(d) if d == &tree));
}

#[test]
fn a_literal_pattern_matches_a_directory_like_a_file() {
    let tree = source_tree();
    assert_eq!(paths(&tree.find("src").unwrap()), vec!["src"]);
    assert_eq!(paths(&tree.find("src/bin/tool.rs").unwrap()), vec!["src/bin/tool.rs"]);
}

#[test]
fn the_empty_pattern_matches_the_root_alone() {
    let tree = small_tree();
    assert_eq!(paths(&tree.find("").unwrap()), vec![""]);
}

#[test]
fn star_does_not_cross_a_separator() {
    assert!(good("*.rs").matches("lib.rs"));
    assert!(!good("*.rs").matches("src/lib.rs"));
    assert!(good("src/*.rs").matches("src/lib.rs"));
    assert!(!good("src/*.rs").matches("src/bin/tool.rs"));
    assert!(good("*").matches("anything"));
    assert!(!good("*").matches(""));
}

#[test]
fn star_matches_an_empty_run() {
    assert!(good("a*.txt").matches("a.txt"));
    assert!(good("a*b*c").matches("abc"));
    assert!(good("a*b*c").matches("aXbYYc"));
    assert!(!good("a*b*c").matches("acb"));
}

#[test]
fn question_mark_matches_exactly_one_character() {
    assert!(good("?.txt").matches("a.txt"));
    assert!(!good("?.txt").matches(".txt"));
    assert!(!good("?.txt").matches("ab.txt"));
    assert!(!good("a?b").matches("a/b"));
    assert!(good("?").matches("é"));
}

#[test]
fn classes_match_one_character_of_the_set_or_range() {
    assert!(good("[abc].rs").matches("b.rs"));
    assert!(!good("[abc].rs").matches("d.rs"));
    assert!(good("v[0-9]").matches("v7"));
    assert!(!good("v[0-9]").matches("vx"));
    assert!(good("[a-cx-z]").matches("y"));
    assert!(!good("[a-cx-z]").matches("m"));
    assert!(good("[!0-9]").matches("a"));
    assert!(!good("[!0-9]").matches("5"));
}

#[test]
fn a_bracket_first_in_a_class_is_a_member() {
    assert!(good("[]]").matches("]"));
    assert!(good("[!]]").matches("a"));
    assert!(!good("[!]]").matches("]"));
    assert!(good("[?]").matches("?"));
    assert!(!good("[?]").matches("a"));
    assert!(good("[a-]").matches("-"));
}

#[test]
fn recursive_wildcard_spans_zero_or_more_segments() {
    assert!(good("a/**/b").matches("a/b"));
    assert!(good("a/**/b").matches("a/x/b"));
    assert!(good("a/**/b").matches("a/x/y/b"));
    assert!(!good("a/**/b").matches("a/x"));
    assert!(good("**/b").matches("b"));
    assert!(good("**/**").matches("a"));
    assert!(good("**").matches(""));
}

#[test]
fn malformed_patterns_are_refused() {
    for text in ["[abc", "[", "[!", "[!]", "a**", "**a", "***", "a/**b/c", "x[a/b]"] {
        assert_eq!(
            Pattern::new(text),
            Err(Error::BadPattern { pattern: text.to_string() }),
            "{}",
            text
        );
    }
}

#[test]
fn well_formed_patterns_are_accepted() {
    for text in ["", "a", "*", "**", "a/**", "**/a", "[a]", "[]]", "a]b", "!x", "a-b"] {
        assert!(Pattern::new(text).is_ok(), "{}", text);
    }
}

#[test]
fn the_lazy_search_hands_out_what_find_lists() {
    let tree = source_tree();
    let listed = tree.find("**/*.rs").unwrap();
    let mut search = tree.globs("**/*.rs").unwrap();
    let mut handed = Vec::new();
    while let Some(entry) = search.next_entry() {
        handed.push(entry);
    }
    assert_eq!(handed, listed);
    assert_eq!(search.next_entry(), None);
}

#[test]
fn the_lazy_search_starts_anew_each_time() {
    let tree = source_tree();
    let mut first = tree.globs("src/*").unwrap();
    assert_eq!(first.next_entry().unwrap().path(), "src/lib.rs");
    let mut second = tree.globs("src/*").unwrap();
    assert_eq!(second.next_entry().unwrap().path(), "src/lib.rs");
    assert_eq!(first.next_entry().unwrap().path(), "src/main.rs");
    assert_eq!(first.next_entry().unwrap().path(), "src/bin");
    assert_eq!(first.next_entry(), None);
}

#[test]
fn find_pattern_uses_a_compiled_pattern() {
    let tree = source_tree();
    let pattern = good("tests/*");
    assert_eq!(paths(&tree.find_pattern(&pattern)), vec!["tests/it.rs"]);
}
