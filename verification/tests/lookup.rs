use include_dir::Dir;
use include_dir::DirEntry;
use include_dir::File;

fn plain_file(path: &str, contents: &str) -> File {
    File { path: path.to_string(), contents: contents.as_bytes().to_vec(), metadata: None }
}

fn two_file_tree() -> Dir {
    Dir {
        path: String::new(),
        files: vec![plain_file("a.txt", "hi")],
        dirs: vec![Dir {
            path: "sub".to_string(),
            files: vec![plain_file("sub/b.txt", "yo")],
            dirs: vec![Dir { path: "sub/deep".to_string(), files: vec![], dirs: vec![] }],
        }],
    }
}

#[test]
fn get_file_finds_a_nested_file_with_its_contents() {
    let tree = two_file_tree();
    let f = tree.get_file("sub/b.txt").unwrap();
    assert_eq!(f.contents(), b"yo");
    assert_eq!(f.path(), "sub/b.txt");
    assert_eq!(f.metadata(), None);
}

#[test]
fn get_file_finds_a_file_in_the_root() {
    let tree = two_file_tree();
    assert_eq!(tree.get_file("a.txt").unwrap().contents(), b"hi");
}

#[test]
fn get_file_finds_nothing_at_a_missing_path() {
    let tree = two_file_tree();
    assert!(tree.get_file("missing.txt").is_none());
    assert!(tree.get_file("sub/missing.txt").is_none());
    assert!(tree.get_file("nope/b.txt").is_none());
}

#[test]
fn get_file_finds_nothing_at_a_directory_or_the_root() {
    let tree = two_file_tree();
    assert!(tree.get_file("sub").is_none());
    assert!(tree.get_file("").is_none());
}

#[test]
fn get_file_brings_the_path_into_canonical_form() {
    let tree = two_file_tree();
    assert_eq!(tree.get_file("sub\\b.txt").unwrap().contents(), b"yo");
    assert_eq!(tree.get_file("/sub/./b.txt").unwrap().contents(), b"yo");
    assert_eq!(tree.get_file("sub/../a.txt").unwrap().contents(), b"hi");
}

#[test]
fn lookups_of_paths_without_canonical_form_find_nothing() {
    let tree = two_file_tree();
    assert!(tree.get_file("../a.txt").is_none());
    assert!(tree.get_file("sub//b.txt").is_none());
    assert!(tree.get_dir("sub/").is_none());
    assert!(tree.get_dir("..").is_none());
    assert!(tree.get_file("a.txt\0").is_none());
}

#[test]
fn get_dir_finds_the_root_by_the_empty_path_and_by_dot() {
    let tree = two_file_tree();
    assert_eq!(tree.get_dir("").unwrap(), &tree);
    assert_eq!(tree.get_dir(".").unwrap(), &tree);
}

#[test]
fn get_dir_finds_nested_directories() {
    let tree = two_file_tree();
    let sub = tree.get_dir("sub").unwrap();
    assert_eq!(sub.path(), "sub");
    assert_eq!(sub.files().len(), 1);
    assert_eq!(sub.dirs().len(), 1);
    assert_eq!(tree.get_dir("sub/deep").unwrap().path(), "sub/deep");
}

#[test]
fn get_dir_finds_nothing_at_a_file_or_a_missing_path() {
    let tree = two_file_tree();
    assert!(tree.get_dir("a.txt").is_none());
    assert!(tree.get_dir("sub/b.txt").is_none());
    assert!(tree.get_dir("other").is_none());
}

#[test]
fn contains_tells_files_and_directories() {
    let tree = two_file_tree();
    assert!(tree.contains("a.txt"));
    assert!(tree.contains("sub"));
    assert!(tree.contains("sub/deep"));
    assert!(tree.contains(""));
    assert!(!tree.contains("b.txt"));
}

#[test]
fn every_entry_is_found_by_its_own_path() {
    let tree = two_file_tree();
    let all = tree.find("**").unwrap();
    assert_eq!(all.len(), 5);
    for entry in all {
        match entry {
            DirEntry::File(f) => assert_eq!(tree.get_file(f.path()), Some(f)),
            DirEntry::Dir(d) => assert_eq!(tree.get_dir(d.path()), Some(d)),
        }
    }
}

#[test]
fn the_first_of_two_entries_with_one_name_is_found() {
    let tree = Dir {
        path: String::new(),
        files: vec![plain_file("x", "first"), plain_file("x", "second")],
        dirs: vec![],
    };
    assert_eq!(tree.get_file("x").unwrap().contents(), b"first");
}
