use std::path::Path;

use file_service::path::{file_name, join, parent, strip_prefix};

const SAMPLES: &[&str] = &[
    "", "/", "//", ".", "./", "..", "../", "a", "a/", "a//", "/a", "/a/", "a/b", "a/b/", "a//b",
    "a/./b", "a/b/.", "a/b/./", "./a", "./a/b", "/a/b/c", "a/..", "/..", "a/../b", ".a", "a.b",
    "/usr/bin/", "tmp/foo.txt", "foo.txt/.", "foo.txt/.//", "foo.txt/..", "/./a", "a/.", "././a",
    ".//a", "...", "a/...",
];

fn text(v: Option<Vec<u8>>) -> Option<String> {
    v.map(|b| String::from_utf8(b).unwrap())
}

#[test]
fn file_name_agrees_with_std() {
    for s in SAMPLES {
        let expected = Path::new(s).file_name().map(|n| n.to_str().unwrap().to_string());
        assert_eq!(text(file_name(s.as_bytes())), expected, "file_name of {:?}", s);
    }
}

#[test]
fn parent_agrees_with_std() {
    for s in SAMPLES {
        let expected = Path::new(s).parent().map(|n| n.to_str().unwrap().to_string());
        assert_eq!(text(parent(s.as_bytes())), expected, "parent of {:?}", s);
    }
}

#[test]
fn join_agrees_with_std() {
    for a in SAMPLES {
        for b in SAMPLES {
            let expected = Path::new(a).join(b).to_str().unwrap().to_string();
            let got = String::from_utf8(join(a.as_bytes(), b.as_bytes())).unwrap();
            assert_eq!(got, expected, "join of {:?} and {:?}", a, b);
        }
    }
}

#[test]
fn strip_prefix_agrees_with_std() {
    for a in SAMPLES {
        for b in SAMPLES {
            let expected = Path::new(a)
                .strip_prefix(b)
                .ok()
                .map(|p| p.to_str().unwrap().to_string());
            assert_eq!(text(strip_prefix(a.as_bytes(), b.as_bytes())), expected, "{:?} strip {:?}", a, b);
        }
    }
}

#[test]
fn documented_examples() {
    assert_eq!(text(file_name(b"/usr/bin/")), Some("bin".to_string()));
    assert_eq!(text(file_name(b"tmp/foo.txt")), Some("foo.txt".to_string()));
    assert_eq!(text(file_name(b"foo.txt/.")), Some("foo.txt".to_string()));
    assert_eq!(text(file_name(b"foo.txt/.//")), Some("foo.txt".to_string()));
    assert_eq!(file_name(b"foo.txt/.."), None);
    assert_eq!(file_name(b"/"), None);
    assert_eq!(text(parent(b"/foo/bar")), Some("/foo".to_string()));
    assert_eq!(text(parent(b"/foo")), Some("/".to_string()));
    assert_eq!(parent(b"/"), None);
    assert_eq!(text(parent(b"foo")), Some("".to_string()));
    assert_eq!(parent(b""), None);
    assert_eq!(join(b"/etc", b"passwd"), b"/etc/passwd".to_vec());
    assert_eq!(join(b"/etc", b"/bin/sh"), b"/bin/sh".to_vec());
    assert_eq!(text(strip_prefix(b"/test/haha/foo.txt", b"/test")), Some("haha/foo.txt".to_string()));
    assert_eq!(text(strip_prefix(b"/test/haha/foo.txt", b"/test/")), Some("haha/foo.txt".to_string()));
    assert_eq!(strip_prefix(b"/test/haha/foo.txt", b"test"), None);
    assert_eq!(strip_prefix(b"/test/haha/foo.txt", b"/te"), None);
}

#[test]
fn join_then_file_name_and_parent() {
    for dir in ["", "/", "a", "/srv/data", "./x", "."] {
        let p = join(dir.as_bytes(), b"part.3");
        assert_eq!(text(file_name(&p)), Some("part.3".to_string()));
        assert_eq!(text(parent(&p)), Some(dir.to_string()));
    }
}

#[test]
fn non_utf8_bytes_are_components() {
    let p: Vec<u8> = vec![b'd', b'/', 0xff, 0xfe];
    assert_eq!(file_name(&p), Some(vec![0xff, 0xfe]));
    assert_eq!(parent(&p), Some(vec![b'd']));
}

#[test]
fn joined_name_is_relative_to_its_directory() {
    for dir in ["", "/", ".", "/srv/data", "a/b", "./x"] {
        let p = join(dir.as_bytes(), b"entry.txt");
        assert_eq!(text(strip_prefix(&p, dir.as_bytes())), Some("entry.txt".to_string()), "dir {:?}", dir);
    }
}
