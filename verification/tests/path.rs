use include_dir::path::normalize;
use include_dir::path::relative_to;
use include_dir::path::same_path;
use include_dir::Error;

fn invalid(path: &str) -> Error {
    Error::InvalidPath { path: path.to_string() }
}

#[test]
fn normalize_keeps_a_canonical_path() {
    assert_eq!(normalize("a/b/c.txt"), Ok("a/b/c.txt".to_string()));
    assert_eq!(normalize("a"), Ok("a".to_string()));
}

#[test]
fn normalize_drops_one_leading_separator() {
    assert_eq!(normalize("/a/b"), Ok("a/b".to_string()));
    assert_eq!(normalize("\\a"), Ok("a".to_string()));
}

#[test]
fn normalize_turns_backslashes_into_slashes() {
    assert_eq!(normalize("a\\b\\c"), Ok("a/b/c".to_string()));
    assert_eq!(normalize("a\\b/c"), Ok("a/b/c".to_string()));
}

#[test]
fn normalize_drops_dot_segments() {
    assert_eq!(normalize("./a/./b/."), Ok("a/b".to_string()));
}

#[test]
fn normalize_resolves_dot_dot_inside_the_tree() {
    assert_eq!(normalize("a/b/../c"), Ok("a/c".to_string()));
    assert_eq!(normalize("a/b/../../c"), Ok("c".to_string()));
    assert_eq!(normalize("a/.."), Ok(String::new()));
}

#[test]
fn normalize_names_the_root_by_the_empty_path() {
    assert_eq!(normalize(""), Ok(String::new()));
    assert_eq!(normalize("."), Ok(String::new()));
    assert_eq!(normalize("/"), Ok(String::new()));
}

#[test]
fn normalize_refuses_a_path_that_leaves_the_root() {
    assert_eq!(normalize(".."), Err(invalid("..")));
    assert_eq!(normalize("../a"), Err(invalid("../a")));
    assert_eq!(normalize("a/../../b"), Err(invalid("a/../../b")));
}

#[test]
fn normalize_refuses_an_empty_segment() {
    assert_eq!(normalize("a//b"), Err(invalid("a//b")));
    assert_eq!(normalize("a/"), Err(invalid("a/")));
    assert_eq!(normalize("//a"), Err(invalid("//a")));
}

#[test]
fn normalize_refuses_a_nul() {
    assert_eq!(normalize("a\0b"), Err(invalid("a\0b")));
}

#[test]
fn normalize_keeps_characters_beyond_ascii() {
    assert_eq!(normalize("données/été.txt"), Ok("données/été.txt".to_string()));
}

#[test]
fn normalize_twice_is_normalize_once() {
    for path in ["a/b/../c", "/x/./y", "a\\b", "", "plain"] {
        let once = normalize(path).unwrap();
        assert_eq!(normalize(&once), Ok(once.clone()));
    }
}

#[test]
fn relative_to_takes_the_base_off_the_front() {
    assert_eq!(relative_to("/root/dir/sub/f.txt", "/root/dir"), Ok("sub/f.txt".to_string()));
    assert_eq!(relative_to("/root/dir/f.txt", "/root/./dir"), Ok("f.txt".to_string()));
}

#[test]
fn relative_to_itself_is_the_empty_path() {
    assert_eq!(relative_to("/root/dir", "/root/dir"), Ok(String::new()));
}

#[test]
fn relative_to_refuses_a_path_outside_the_base() {
    assert_eq!(
        relative_to("/root/other/f.txt", "/root/dir"),
        Err(Error::StripPrefix {
            path: "/root/other/f.txt".to_string(),
            base: "/root/dir".to_string(),
        })
    );
    assert_eq!(
        relative_to("/root", "/root/dir"),
        Err(Error::StripPrefix { path: "/root".to_string(), base: "/root/dir".to_string() })
    );
}

#[test]
fn relative_to_refuses_what_has_no_canonical_form() {
    assert_eq!(relative_to("/root//f", "/root"), Err(invalid("/root//f")));
    assert_eq!(relative_to("/root/f", "/root/../.."), Err(invalid("/root/../..")));
}

#[test]
fn same_path_goes_by_the_canonical_form() {
    assert!(same_path("a/b", "a\\b"));
    assert!(same_path("/a/./b", "a/c/../b"));
    assert!(same_path("", "."));
    assert!(!same_path("a/b", "a/c"));
    assert!(!same_path("a", "a/b"));
    assert!(!same_path("../a", "../a"));
}
