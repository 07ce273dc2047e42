use include_dir::load_dir;
use include_dir::Dir;
use include_dir::Error;
use include_dir::Event;
use include_dir::File;
use include_dir::Metadata;
use include_dir::Timestamp;
use include_dir::TreeBuilder;

fn enter(path: &str) -> Event {
    Event::Enter { path: path.to_string() }
}

fn read(path: &str, contents: &str) -> Event {
    Event::File { path: path.to_string(), contents: contents.as_bytes().to_vec(), modified: None }
}

fn walk_of_two_files() -> Vec<Event> {
    vec![
        read("/work/assets/a.txt", "hi"),
        enter("/work/assets/sub"),
        read("/work/assets/sub/b.txt", "yo"),
        Event::Leave,
    ]
}

fn no_time() -> Option<Metadata> {
    Some(Metadata { modified_at: None })
}

#[test]
fn load_dir_builds_the_tree_of_a_walk() {
    let tree = load_dir("/work/assets", walk_of_two_files()).unwrap();
    let expected = Dir {
        path: String::new(),
        files: vec![File {
            path: "a.txt".to_string(),
            contents: b"hi".to_vec(),
            metadata: no_time(),
        }],
        dirs: vec![Dir {
            path: "sub".to_string(),
            files: vec![File {
                path: "sub/b.txt".to_string(),
                contents: b"yo".to_vec(),
                metadata: no_time(),
            }],
            dirs: vec![],
        }],
    };
    assert_eq!(tree, expected);
    assert_eq!(tree.get_file("sub/b.txt").unwrap().contents(), b"yo");
    assert!(tree.get_file("missing.txt").is_none());
}

#[test]
fn load_dir_of_an_empty_directory_is_an_empty_root() {
    let tree = load_dir("/work/assets", vec![]).unwrap();
    assert_eq!(tree.path(), "");
    assert!(tree.files().is_empty());
    assert!(tree.dirs().is_empty());
    assert_eq!(tree.find("*").unwrap().len(), 0);
}

#[test]
fn load_dir_keeps_the_order_of_the_walk() {
    let events = vec![
        read("/r/z", ""),
        read("/r/a", ""),
        enter("/r/y"),
        Event::Leave,
        enter("/r/b"),
        Event::Leave,
    ];
    let tree = load_dir("/r", events).unwrap();
    let files: Vec<&str> = tree.files().iter().map(|f| f.path()).collect();
    let dirs: Vec<&str> = tree.dirs().iter().map(|d| d.path()).collect();
    assert_eq!(files, vec!["z", "a"]);
    assert_eq!(dirs, vec!["y", "b"]);
}

#[test]
fn load_dir_records_when_a_file_was_changed() {
    let when = Timestamp { secs: 1_700_000_000, nanos: 250 };
    let events = vec![Event::File {
        path: "/r/f".to_string(),
        contents: vec![1, 2, 3],
        modified: Some(when),
    }];
    let tree = load_dir("/r", events).unwrap();
    assert_eq!(tree.get_file("f").unwrap().metadata(), Some(Metadata { modified_at: Some(when) }));
}

#[test]
fn load_dir_tells_a_missing_root_in_words() {
    let events = vec![Event::Missing { path: "/nope".to_string() }];
    assert_eq!(
        load_dir("/nope", events),
        Err("Couldn't load the directory: \"/nope\" doesn't exist".to_string())
    );
}

#[test]
fn load_dir_tells_a_read_failure_with_path_and_cause() {
    let events = vec![
        read("/r/ok", ""),
        Event::Failed { path: "/r/secret".to_string(), cause: "permission denied".to_string() },
        read("/r/later", ""),
    ];
    assert_eq!(
        load_dir("/r", events),
        Err("Couldn't load the directory: /r/secret: permission denied".to_string())
    );
}

#[test]
fn from_events_gives_the_error_of_the_first_step_that_fails() {
    let events = vec![
        Event::Failed { path: "/r/x".to_string(), cause: "broken".to_string() },
        Event::Missing { path: "/r/y".to_string() },
    ];
    assert_eq!(
        Dir::from_events("/r", "/r", events),
        Err(Error::Io { path: "/r/x".to_string(), cause: "broken".to_string() })
    );
    assert_eq!(
        Dir::from_events("/r", "/r", vec![Event::Missing { path: "/r".to_string() }]),
        Err(Error::NotFound { path: "/r".to_string() })
    );
}

#[test]
fn from_events_refuses_an_entry_outside_the_base() {
    assert_eq!(
        Dir::from_events("/r", "/r", vec![read("/elsewhere/f", "")]),
        Err(Error::StripPrefix { path: "/elsewhere/f".to_string(), base: "/r".to_string() })
    );
}

#[test]
fn from_events_refuses_an_entry_that_is_not_in_the_open_directory() {
    assert_eq!(
        Dir::from_events("/r", "/r", vec![read("/r/sub/f", "")]),
        Err(Error::InvalidPath { path: "/r/sub/f".to_string() })
    );
    assert_eq!(
        Dir::from_events("/r", "/r", vec![enter("/r")]),
        Err(Error::InvalidPath { path: "/r".to_string() })
    );
}

#[test]
fn from_events_refuses_a_second_entry_at_one_path() {
    assert_eq!(
        Dir::from_events("/r", "/r", vec![read("/r/f", "1"), read("/r/f", "2")]),
        Err(Error::InvalidPath { path: "/r/f".to_string() })
    );
    assert_eq!(
        Dir::from_events("/r", "/r", vec![read("/r/f", "1"), enter("/r/f")]),
        Err(Error::InvalidPath { path: "/r/f".to_string() })
    );
}

#[test]
fn from_events_refuses_a_path_without_canonical_form() {
    assert_eq!(
        Dir::from_events("/r", "/r", vec![read("/r//f", "")]),
        Err(Error::InvalidPath { path: "/r//f".to_string() })
    );
    assert_eq!(
        Dir::from_events("/r/..//x", "/r", vec![]),
        Err(Error::InvalidPath { path: "/r/..//x".to_string() })
    );
}

#[test]
fn from_events_refuses_unbalanced_walks() {
    assert_eq!(
        Dir::from_events("/r", "/r", vec![Event::Leave]),
        Err(Error::InvalidPath { path: String::new() })
    );
    assert_eq!(
        Dir::from_events("/r", "/r", vec![enter("/r/d")]),
        Err(Error::InvalidPath { path: String::new() })
    );
}

#[test]
fn from_events_bounds_the_depth_of_the_tree() {
    let mut path = "/r".to_string();
    let mut events = Vec::new();
    let mut balanced = Vec::new();
    for _ in 0..63 {
        path.push_str("/d");
        events.push(enter(&path));
        balanced.push(enter(&path));
    }
    for _ in 0..63 {
        balanced.push(Event::Leave);
    }
    assert!(Dir::from_events("/r", "/r", balanced).is_ok());
    path.push_str("/d");
    events.push(enter(&path));
    assert_eq!(Dir::from_events("/r", "/r", events), Err(Error::TooDeep { path }));
}

#[test]
fn from_events_with_a_base_above_the_root_keeps_the_roots_path() {
    let tree = Dir::from_events("/work", "/work/assets", vec![read("/work/assets/f", "x")]).unwrap();
    assert_eq!(tree.path(), "assets");
    assert_eq!(tree.files()[0].path(), "assets/f");
    assert_eq!(tree.get_file("f").unwrap().contents(), b"x");
}

#[test]
fn a_builder_is_left_as_it_was_by_a_step_that_fails() {
    let mut builder = TreeBuilder::new("/r", "/r").unwrap();
    assert_eq!(builder.step(read("/r/f", "1")), Ok(()));
    assert!(builder.step(read("/r/f", "2")).is_err());
    assert!(builder.step(Event::Leave).is_err());
    assert_eq!(builder.step(read("/r/g", "3")), Ok(()));
    let tree = builder.finish().unwrap();
    let files: Vec<&str> = tree.files().iter().map(|f| f.path()).collect();
    assert_eq!(files, vec!["f", "g"]);
    assert_eq!(tree.files()[0].contents(), b"1");
}
