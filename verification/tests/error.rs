use include_dir::Error;

#[test]
fn message_of_not_found_quotes_the_path() {
    let e = Error::NotFound { path: "/work/nope".to_string() };
    assert_eq!(e.message(), "\"/work/nope\" doesn't exist");
}

#[test]
fn message_of_io_holds_path_and_cause() {
    let e = Error::Io { path: "/work/f".to_string(), cause: "permission denied".to_string() };
    assert_eq!(e.message(), "/work/f: permission denied");
}

#[test]
fn message_of_strip_prefix_holds_path_and_base() {
    let e = Error::StripPrefix { path: "/other/f".to_string(), base: "/work".to_string() };
    assert_eq!(e.message(), "/other/f: not below /work");
}

#[test]
fn message_of_invalid_path_holds_the_path() {
    let e = Error::InvalidPath { path: "a//b".to_string() };
    assert_eq!(e.message(), "a//b: invalid path");
}

#[test]
fn message_of_too_deep_holds_the_path() {
    let e = Error::TooDeep { path: "/r/d".to_string() };
    assert_eq!(e.message(), "/r/d: nested too deep");
}

#[test]
fn message_of_bad_pattern_holds_the_pattern() {
    let e = Error::BadPattern { pattern: "[abc".to_string() };
    assert_eq!(e.message(), "[abc: bad pattern");
}
