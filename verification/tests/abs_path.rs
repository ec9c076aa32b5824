use abs_path::{AbsPath, AbsPathBuf, NodeName, NormalizeError};

fn path<'a>(s: &'a str) -> AbsPath<'a> {
    AbsPath::from_str(s).unwrap()
}

#[test]
fn components_empty() {
    let path = AbsPath::root();
    assert!(path.components().next().is_none());
    assert!(path.components().next_back().is_none());
}

#[test]
fn components_1() {
    let path = path("/baz.txt");
    let mut components = path.components();
    assert_eq!(components.next().unwrap().as_str(), "baz.txt");
    assert!(components.next().is_none());
}

#[test]
fn components_2() {
    let path = path("/foo/bar/baz.txt");
    let mut components = path.components();
    assert_eq!(components.next().unwrap().as_str(), "foo");
    assert_eq!(components.next().unwrap().as_str(), "bar");
    assert_eq!(components.next().unwrap().as_str(), "baz.txt");
    assert!(components.next().is_none());
}

#[test]
fn components_rev_1() {
    let path = path("/baz.txt");
    let mut components = path.components();
    assert_eq!(components.next_back().unwrap().as_str(), "baz.txt");
    assert!(components.next().is_none());
}

#[test]
fn components_rev_2() {
    let path = path("/foo/bar/baz.txt");
    let mut components = path.components();
    assert_eq!(components.next_back().unwrap().as_str(), "baz.txt");
    assert_eq!(components.next_back().unwrap().as_str(), "bar");
    assert_eq!(components.next_back().unwrap().as_str(), "foo");
    assert!(components.next_back().is_none());
}

#[test]
fn from_iter_empty() {
    let segments: Vec<NodeName> = Vec::new();
    let path = AbsPathBuf::from_segments(&segments);
    assert_eq!(path.as_str(), AbsPath::root().as_str());
}

#[test]
fn from_single_separator() {
    assert_eq!(AbsPath::from_str("/").unwrap().as_str(), AbsPath::root().as_str());
}

#[test]
fn from_iter_1() {
    let segments: Vec<NodeName> = ["foo", "bar", "baz.txt"]
        .into_iter()
        .map(|s| NodeName::from_str(s).unwrap())
        .collect();
    let path = AbsPathBuf::from_segments(&segments);

    assert_eq!(path.as_str(), "/foo/bar/baz.txt");
}

#[test]
fn normalize_1() {
    let p = "/foo/..";
    let r = AbsPath::normalize(p).unwrap();
    assert!(r.is_borrowed());
    assert_eq!(r.as_str(), "/");
}

#[test]
fn normalize_2() {
    let p = "/foo/.";
    let r = AbsPath::normalize(p).unwrap();
    assert!(r.is_borrowed());
    assert_eq!(r.as_str(), "/foo");
}

#[test]
fn normalize_3() {
    let p = "/foo//bar";
    assert_eq!(AbsPath::normalize(p).unwrap().as_str(), "/foo/bar");
}

#[test]
fn normalize_4() {
    let p = "/foo/bar/../baz/";
    assert_eq!(AbsPath::normalize(p).unwrap().as_str(), "/foo/baz");
}

#[test]
fn normalize_5() {
    let p = "/.";
    assert_eq!(AbsPath::normalize(p).unwrap().as_str(), "/");
}

#[test]
fn normalize_6() {
    let p = "/foo/../bar/.//baz";
    assert_eq!(AbsPath::normalize(p).unwrap().as_str(), "/bar/baz");
}

#[test]
fn normalize_7() {
    let p = "/../foo";
    assert_eq!(AbsPath::normalize(p).unwrap_err(), NormalizeError::EscapesRoot);
}

#[test]
fn normalize_8() {
    let p = "/foo//";
    let r = AbsPath::normalize(p).unwrap();
    assert!(r.is_borrowed());
    assert_eq!(r.as_str(), "/foo");
}

#[test]
fn normalize_9() {
    let p = "/.";
    let r = AbsPath::normalize(p).unwrap();
    assert!(r.is_borrowed());
    assert_eq!(r.as_str(), "/");
}

#[test]
fn normalize_10() {
    let p = "//foo/bar";
    let r = AbsPath::normalize(p).unwrap();
    assert!(r.is_borrowed());
    assert_eq!(r.as_str(), "/foo/bar");
}

#[test]
fn normalize_11() {
    let p = "/./foo/bar";
    let r = AbsPath::normalize(p).unwrap();
    assert!(r.is_borrowed());
    assert_eq!(r.as_str(), "/foo/bar");
}

#[test]
fn normalize_12() {
    let p = "/foo/../bar/baz";
    let r = AbsPath::normalize(p).unwrap();
    assert!(r.is_borrowed());
    assert_eq!(r.as_str(), "/bar/baz");
}

#[test]
fn starts_with() {
    let p = path("/foo/bar");
    assert!(p.starts_with(&AbsPath::root()));
    assert!(p.starts_with(&path("/foo")));
    assert!(p.starts_with(&path("/foo/bar")));
    assert!(!p.starts_with(&path("/foo/bar.rs")));
    assert!(!p.starts_with(&path("/foo/bar/baz")));
}

#[test]
fn strip_prefix_root() {
    let p = path("/foo/bar");
    assert_eq!(p.strip_prefix(&AbsPath::root()).unwrap().as_str(), "/foo/bar");
}
