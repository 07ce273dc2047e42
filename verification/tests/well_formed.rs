use include_dir::load_dir;
use include_dir::Dir;
use include_dir::Event;
use include_dir::File;

fn empty_file(path: &str) -> File {
    File { path: path.to_string(), contents: vec![], metadata: None }
}

fn dir_of(path: &str, files: Vec<File>, dirs: Vec<Dir>) -> Dir {
    Dir { path: path.to_string(), files, dirs }
}

#[test]
fn a_tree_that_was_built_is_well_formed() {
    let events = vec![
        Event::File { path: "/r/a".to_string(), contents: vec![], modified: None },
        Event::Enter { path: "/r/d".to_string() },
        Event::File { path: "/r/d/a".to_string(), contents: vec![], modified: None },
        Event::Leave,
    ];
    let tree = load_dir("/r", events).unwrap();
    assert!(tree.is_well_formed());
    assert!(Dir::from_bytes(&tree.to_bytes()).unwrap().is_well_formed());
}

#[test]
fn an_empty_root_is_well_formed() {
    assert!(dir_of("", vec![], vec![]).is_well_formed());
}

#[test]
fn a_root_with_a_path_of_its_own_is_no_well_formed_tree() {
    assert!(!dir_of("assets", vec![empty_file("assets/a")], vec![]).is_well_formed());
}

#[test]
fn two_entries_at_one_path_are_not_well_formed() {
    assert!(!dir_of("", vec![empty_file("a"), empty_file("a")], vec![]).is_well_formed());
    assert!(!dir_of("", vec![empty_file("a")], vec![dir_of("a", vec![], vec![])]).is_well_formed());
    assert!(dir_of("", vec![empty_file("a"), empty_file("b")], vec![]).is_well_formed());
}

#[test]
fn an_entry_outside_its_parent_is_not_well_formed() {
    assert!(!dir_of("", vec![empty_file("d/a")], vec![]).is_well_formed());
    assert!(!dir_of("", vec![], vec![dir_of("d", vec![empty_file("e/a")], vec![])]).is_well_formed());
    assert!(!dir_of("", vec![], vec![dir_of("d", vec![], vec![dir_of("x", vec![], vec![])])])
        .is_well_formed());
    assert!(dir_of("", vec![], vec![dir_of("d", vec![empty_file("d/a")], vec![])]).is_well_formed());
}

#[test]
fn a_path_that_is_not_canonical_is_not_well_formed() {
    assert!(!dir_of("", vec![empty_file("./a")], vec![]).is_well_formed());
    assert!(!dir_of("", vec![empty_file("/a")], vec![]).is_well_formed());
    assert!(!dir_of("", vec![], vec![dir_of("d", vec![empty_file("d\\a")], vec![])])
        .is_well_formed());
    assert!(!dir_of("", vec![empty_file("")], vec![]).is_well_formed());
}
