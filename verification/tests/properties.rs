use abs_path::{
    AbsPath, AbsPathBuf, InvalidNodeNameError, NodeName, NodeNameBuf, NormalizeError, PathCow,
};

fn path<'a>(s: &'a str) -> AbsPath<'a> {
    AbsPath::from_str(s).unwrap()
}

#[test]
fn normalize_idempotent() {
    let first = AbsPath::normalize("/foo/./bar//").unwrap();
    assert_eq!(first.as_str(), "/foo/bar");
    let owned = first.as_str().to_string();
    let second = AbsPath::normalize(&owned).unwrap();
    assert!(second.is_borrowed());
    assert_eq!(second.as_str(), first.as_str());
}

#[test]
fn normalize_zero_copy_on_canonical() {
    let raw = "/foo/bar/baz.txt";
    assert!(AbsPath::from_str(raw).is_ok());
    let r = AbsPath::normalize(raw).unwrap();
    assert!(matches!(r, PathCow::Borrowed(_)));
    assert_eq!(r.as_str(), raw);
}

#[test]
fn normalize_allocates_when_rewriting() {
    let r = AbsPath::normalize("/foo/./bar").unwrap();
    assert!(!r.is_borrowed());
    assert_eq!(r.as_str(), "/foo/bar");
}

#[test]
fn join_components_round_trip() {
    let names = ["alpha", "beta", "gamma"];
    let mut buf = AbsPathBuf::root();
    for name in names {
        buf = buf.join(&NodeName::from_str(name).unwrap());
    }
    assert_eq!(buf.as_str(), "/alpha/beta/gamma");

    let p = buf.as_path();
    let mut forward = Vec::new();
    let mut components = p.components();
    while let Some(n) = components.next() {
        forward.push(n.as_str().to_string());
    }
    assert_eq!(forward, names.map(String::from).to_vec());

    let mut backward = Vec::new();
    let mut components = p.components();
    while let Some(n) = components.next_back() {
        backward.push(n.as_str().to_string());
    }
    let mut reversed = names.map(String::from).to_vec();
    reversed.reverse();
    assert_eq!(backward, reversed);
}

#[test]
fn components_both_ends() {
    let p = path("/a/b/c/d");
    let mut components = p.components();
    assert_eq!(components.next().unwrap().as_str(), "a");
    assert_eq!(components.next_back().unwrap().as_str(), "d");
    assert_eq!(components.as_path().as_str(), "/b/c");
    assert_eq!(components.next().unwrap().as_str(), "b");
    assert_eq!(components.next_back().unwrap().as_str(), "c");
    assert!(components.next().is_none());
    assert!(components.next_back().is_none());
}

#[test]
fn starts_with_root_always() {
    let root = AbsPath::root();
    for s in ["/", "/a", "/a/b", "/x.y/z"] {
        assert!(path(s).starts_with(&root));
    }
}

#[test]
fn strip_prefix_self_is_root() {
    for s in ["/", "/a", "/foo/bar"] {
        let p = path(s);
        assert_eq!(p.strip_prefix(&p).unwrap().as_str(), "/");
    }
}

#[test]
fn strip_prefix_alignment() {
    let p = path("/foo/bar.rs");
    assert!(p.strip_prefix(&path("/foo/bar")).is_none());
    assert_eq!(p.strip_prefix(&path("/foo")).unwrap().as_str(), "/bar.rs");
}

#[test]
fn parent_and_split_last() {
    let p = path("/foo/bar/baz");
    assert_eq!(p.parent().unwrap().as_str(), "/foo/bar");
    let (par, last) = p.split_last().unwrap();
    assert_eq!(par.as_str(), "/foo/bar");
    assert_eq!(last.as_str(), "baz");
    assert_eq!(p.node_name().unwrap().as_str(), "baz");

    let root = AbsPath::root();
    assert!(root.parent().is_none());
    assert!(root.split_last().is_none());
    assert!(root.node_name().is_none());
    assert_eq!(path("/one").parent().unwrap().as_str(), "/");
}

#[test]
fn pop_to_parent() {
    let mut buf = path("/foo/bar").to_owned();
    assert!(buf.pop());
    assert_eq!(buf.as_str(), "/foo");
    assert!(buf.pop());
    assert_eq!(buf.as_str(), "/");
    assert!(!buf.pop());
    assert_eq!(buf.as_str(), "/");
}

#[test]
fn concat_borrows_from_root() {
    let root = AbsPath::root();
    let p = path("/x/y");
    let r = root.concat(&p);
    assert!(r.is_borrowed());
    assert_eq!(r.as_str(), "/x/y");
}

#[test]
fn concat_owns_otherwise() {
    let p = path("/a");
    let q = path("/b/c");
    let r = p.concat(&q);
    assert!(!r.is_borrowed());
    assert_eq!(r.as_str(), "/a/b/c");

    let mut buf = p.to_owned();
    buf.concat(&AbsPath::root());
    assert_eq!(buf.as_str(), "/a");
}

#[test]
fn clone_keeps_content() {
    let buf = path("/keep/me").to_owned();
    let copy = buf.clone();
    assert_eq!(copy.as_str(), "/keep/me");
    assert_eq!(buf.as_str(), "/keep/me");
}

#[test]
fn node_name_validation() {
    assert_eq!(NodeName::from_str("ok.txt").unwrap().as_str(), "ok.txt");
    assert_eq!(NodeName::from_str("").unwrap_err(), InvalidNodeNameError::Empty);
    assert_eq!(NodeName::from_str(".").unwrap_err(), InvalidNodeNameError::SingleDot);
    assert_eq!(NodeName::from_str("..").unwrap_err(), InvalidNodeNameError::DoubleDot);
    assert_eq!(NodeName::from_str("...").unwrap().as_str(), "...");
    assert_eq!(
        NodeName::from_str("a/b").unwrap_err(),
        InvalidNodeNameError::ContainsInvalidCharacter('/')
    );
    assert_eq!(
        NodeName::from_str("a\\b").unwrap_err(),
        InvalidNodeNameError::ContainsInvalidCharacter('\\')
    );
    assert_eq!(
        NodeName::from_str("a\0b").unwrap_err(),
        InvalidNodeNameError::ContainsInvalidCharacter('\0')
    );
    assert_eq!(
        NodeName::from_str("a\nb").unwrap_err(),
        InvalidNodeNameError::ContainsInvalidCharacter('\n')
    );
    assert_eq!(
        NodeName::from_str("x\r\n").unwrap_err(),
        InvalidNodeNameError::ContainsInvalidCharacter('\r')
    );
}

#[test]
fn node_name_buf_round_trip() {
    let owned = NodeNameBuf::from_str("file.rs").unwrap();
    assert_eq!(owned.as_str(), "file.rs");
    assert_eq!(owned.as_node_name().as_str(), "file.rs");
    assert_eq!(NodeNameBuf::from_str("..").unwrap_err(), InvalidNodeNameError::DoubleDot);
}

#[test]
fn strict_parse_rejections() {
    assert!(AbsPath::from_str("").is_err());
    assert!(AbsPath::from_str("foo").is_err());
    assert!(AbsPath::from_str("foo/bar").is_err());
    assert!(AbsPath::from_str("//").is_err());
    assert!(AbsPath::from_str("/foo/").is_err());
    assert!(AbsPath::from_str("/foo//bar").is_err());
    assert!(AbsPath::from_str("/foo/./bar").is_err());
    assert!(AbsPath::from_str("/foo/../bar").is_err());
    assert!(AbsPath::from_str("/foo\nbar").is_err());
    assert!(AbsPath::from_str("/foo/bar").is_ok());
    assert!(AbsPath::from_str("/...").is_ok());
}

#[test]
fn normalize_not_absolute() {
    assert_eq!(AbsPath::normalize("").unwrap_err(), NormalizeError::NotAbsolute);
    assert_eq!(AbsPath::normalize("foo/bar").unwrap_err(), NormalizeError::NotAbsolute);
}

#[test]
fn normalize_invalid_character_offsets() {
    assert_eq!(
        AbsPath::normalize("/a\\b").unwrap_err(),
        NormalizeError::InvalidCharacter { byte_offset: 1, ch: '\\' }
    );
    // The offset is in bytes of the original input, at the start of the
    // offending component; `é` is two bytes long.
    assert_eq!(
        AbsPath::normalize("/é/x\0y").unwrap_err(),
        NormalizeError::InvalidCharacter { byte_offset: 4, ch: '\0' }
    );
}

#[test]
fn normalize_escapes_root_late() {
    assert_eq!(AbsPath::normalize("/a/../..").unwrap_err(), NormalizeError::EscapesRoot);
    assert_eq!(AbsPath::normalize("/a/b/../../..").unwrap_err(), NormalizeError::EscapesRoot);
    assert_eq!(AbsPath::normalize("/a/b/../..").unwrap().as_str(), "/");
}

#[test]
fn path_buf_from_str() {
    let buf = AbsPathBuf::from_str("/a/b").unwrap();
    assert_eq!(buf.as_str(), "/a/b");
    assert!(AbsPathBuf::from_str("relative").is_err());
}

#[test]
fn node_name_to_owned() {
    let p = path("/dir/leaf");
    let owned = p.node_name().unwrap().to_owned();
    assert_eq!(owned.as_str(), "leaf");
}

#[test]
fn is_root_checks() {
    assert!(AbsPath::root().is_root());
    assert!(!path("/a").is_root());
    assert!(AbsPathBuf::root().is_root());
}

#[test]
fn join_from_borrowed() {
    let p = path("/foo");
    let joined = p.join(&NodeName::from_str("bar").unwrap());
    assert_eq!(joined.as_str(), "/foo/bar");
    let from_root = AbsPath::root().join(&NodeName::from_str("bar").unwrap());
    assert_eq!(from_root.as_str(), "/bar");
}

#[test]
fn non_ascii_segments() {
    let p = path("/déjà/vu");
    assert_eq!(p.node_name().unwrap().as_str(), "vu");
    assert_eq!(p.parent().unwrap().as_str(), "/déjà");
    let r = AbsPath::normalize("/déjà//vu").unwrap();
    assert_eq!(r.as_str(), "/déjà/vu");
}
