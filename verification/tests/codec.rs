use include_dir::Dir;
use include_dir::File;
use include_dir::Metadata;
use include_dir::Timestamp;

fn stamped(path: &str, contents: &[u8], metadata: Option<Metadata>) -> File {
    File { path: path.to_string(), contents: contents.to_vec(), metadata }
}

fn mixed_tree() -> Dir {
    let when = Timestamp { secs: 1_700_000_000, nanos: 999_999_999 };
    Dir {
        path: String::new(),
        files: vec![
            stamped("z.bin", &[0, 255, 10, 13, 0], None),
            stamped("a.txt", b"hi", Some(Metadata { modified_at: None })),
            stamped("été.txt", "déjà".as_bytes(), Some(Metadata { modified_at: Some(when) })),
        ],
        dirs: vec![
            Dir {
                path: "sub".to_string(),
                files: vec![stamped("sub/b.txt", b"yo", None)],
                dirs: vec![Dir { path: "sub/deep".to_string(), files: vec![], dirs: vec![] }],
            },
            Dir { path: "empty".to_string(), files: vec![], dirs: vec![] },
        ],
    }
}

#[test]
fn a_tree_written_out_and_read_back_is_the_same_tree() {
    let tree = mixed_tree();
    let bytes = tree.to_bytes();
    assert_eq!(Dir::from_bytes(&bytes), Some(tree));
}

#[test]
fn an_empty_root_is_three_zero_lengths() {
    let root = Dir { path: String::new(), files: vec![], dirs: vec![] };
    assert_eq!(root.to_bytes(), vec![0u8; 24]);
    assert_eq!(Dir::from_bytes(&[0u8; 24]), Some(root));
}

#[test]
fn a_file_is_written_as_path_contents_and_age() {
    let root = Dir {
        path: String::new(),
        files: vec![stamped("a", b"hi", Some(Metadata {
            modified_at: Some(Timestamp { secs: 258, nanos: 3 }),
        }))],
        dirs: vec![],
    };
    let mut expected: Vec<u8> = Vec::new();
    expected.extend([0, 0, 0, 0, 0, 0, 0, 0]);
    expected.extend([1, 0, 0, 0, 0, 0, 0, 0]);
    expected.extend([1, 0, 0, 0, 0, 0, 0, 0]);
    expected.push(b'a');
    expected.extend([2, 0, 0, 0, 0, 0, 0, 0]);
    expected.extend(*b"hi");
    expected.push(2);
    expected.extend([2, 1, 0, 0, 0, 0, 0, 0]);
    expected.extend([3, 0, 0, 0]);
    expected.extend([0, 0, 0, 0, 0, 0, 0, 0]);
    assert_eq!(root.to_bytes(), expected);
}

#[test]
fn reading_back_keeps_paths_beyond_ascii() {
    let tree = mixed_tree();
    let back = Dir::from_bytes(&tree.to_bytes()).unwrap();
    assert_eq!(back.files()[2].path(), "été.txt");
    assert_eq!(back.get_file("été.txt").unwrap().contents(), "déjà".as_bytes());
}

#[test]
fn bytes_that_are_cut_short_are_no_tree() {
    let bytes = mixed_tree().to_bytes();
    for cut in [0, 1, 7, 8, 23, bytes.len() / 2, bytes.len() - 1] {
        assert_eq!(Dir::from_bytes(&bytes[..cut]), None, "{}", cut);
    }
}

#[test]
fn bytes_with_something_behind_the_tree_are_no_tree() {
    let mut bytes = mixed_tree().to_bytes();
    bytes.push(0);
    assert_eq!(Dir::from_bytes(&bytes), None);
}

#[test]
fn a_path_that_is_not_utf8_is_no_tree() {
    let mut bytes: Vec<u8> = Vec::new();
    bytes.extend([2, 0, 0, 0, 0, 0, 0, 0]);
    bytes.extend([0xC3, 0x28]);
    bytes.extend([0u8; 16]);
    assert_eq!(Dir::from_bytes(&bytes), None);
    bytes[8] = 0xC3;
    bytes[9] = 0xA9;
    assert_eq!(Dir::from_bytes(&bytes).unwrap().path(), "é");
}

#[test]
fn an_unknown_age_tag_is_no_tree() {
    let root = Dir { path: String::new(), files: vec![stamped("a", b"", None)], dirs: vec![] };
    let mut bytes = root.to_bytes();
    let tag = 8 + 8 + 8 + 1 + 8;
    assert_eq!(bytes[tag], 0);
    bytes[tag] = 3;
    assert_eq!(Dir::from_bytes(&bytes), None);
    bytes[tag] = 1;
    assert_eq!(
        Dir::from_bytes(&bytes).unwrap().files()[0].metadata(),
        Some(Metadata { modified_at: None })
    );
}

#[test]
fn a_length_beyond_the_bytes_is_no_tree() {
    let mut bytes = vec![0u8; 24];
    bytes[0] = 200;
    assert_eq!(Dir::from_bytes(&bytes), None);
    let mut many = vec![0u8; 24];
    many[8..16].copy_from_slice(&[255; 8]);
    assert_eq!(Dir::from_bytes(&many), None);
}
