use nix_user_chroot::path::{
    bytes_equal, copy_bytes, copy_names, is_cur_part, is_name_part, is_root_part, is_up_part,
    HostPath,
};
use std::path::{Path, PathBuf};

fn path(text: &str) -> HostPath {
    HostPath::from_bytes(text.as_bytes())
}

fn text(p: &HostPath) -> String {
    String::from_utf8(p.to_bytes()).unwrap()
}

/// The text of a std path, spelled from its components.
fn canonical(p: &Path) -> String {
    p.components().collect::<PathBuf>().to_str().unwrap().to_string()
}

const SAMPLES: [&str; 22] = [
    "",
    "/",
    ".",
    "..",
    "a",
    "/a",
    "a/b",
    "/a/b",
    "/nix",
    "/nix/store",
    "/nix/store/abc-hello/bin/hello",
    "/nixos",
    "nix",
    "./a",
    "a/./b",
    "a//b/",
    "//a",
    "/a/../b",
    "../lib",
    "/dev/null",
    "/./a",
    "./.",
];

#[test]
fn parses_and_renders() {
    assert_eq!(path("/nix/store").to_bytes(), b"/nix/store".to_vec());
    assert_eq!(path("/nix//store/").to_bytes(), b"/nix/store".to_vec());
    assert_eq!(path("/").to_bytes(), b"/".to_vec());
    assert_eq!(path("").to_bytes(), b"".to_vec());
    assert_eq!(path("./a/./b").to_bytes(), b"./a/b".to_vec());
    assert_eq!(path("a/../b").to_bytes(), b"a/../b".to_vec());
    assert_eq!(path("/./a").to_bytes(), b"/a".to_vec());
}

#[test]
fn parse_counts_components() {
    assert_eq!(path("").len(), 0);
    assert_eq!(path("/").len(), 1);
    assert_eq!(path("/nix/store").len(), 3);
    assert_eq!(path("/nix/store").part(0), &b"/".to_vec());
    assert_eq!(path("/nix/store").part(1), &b"nix".to_vec());
    assert_eq!(path("/nix/store").part(2), &b"store".to_vec());
    assert_eq!(path("a//b").len(), 2);
}

#[test]
fn parse_agrees_with_std() {
    for s in SAMPLES {
        assert_eq!(text(&path(s)), canonical(Path::new(s)), "for {:?}", s);
    }
}

#[test]
fn render_then_parse_is_the_same_path() {
    for s in SAMPLES {
        let p = path(s);
        assert_eq!(HostPath::from_bytes(&p.to_bytes()), p, "for {:?}", s);
    }
}

#[test]
fn equal_paths_have_equal_components() {
    for a in SAMPLES {
        for b in SAMPLES {
            assert_eq!(path(a).same(&path(b)), Path::new(a) == Path::new(b), "{:?} {:?}", a, b);
            assert_eq!(path(a) == path(b), Path::new(a) == Path::new(b), "{:?} {:?}", a, b);
        }
    }
}

#[test]
fn is_absolute_agrees_with_std() {
    for s in SAMPLES {
        assert_eq!(path(s).is_absolute(), Path::new(s).is_absolute(), "for {:?}", s);
    }
    assert!(path("/nix").is_absolute());
    assert!(!path("nix").is_absolute());
    assert!(!path("").is_absolute());
}

#[test]
fn join_agrees_with_std() {
    for a in SAMPLES {
        for b in SAMPLES {
            assert_eq!(
                text(&path(a).join(&path(b))),
                canonical(&Path::new(a).join(b)),
                "{:?} joined with {:?}",
                a,
                b
            );
        }
    }
}

#[test]
fn join_examples() {
    assert_eq!(path("/store").join(&path("etc/nix")), path("/store/etc/nix"));
    assert_eq!(path("/store").join(&path("/etc")), path("/etc"));
    assert_eq!(path("").join(&path("etc")), path("etc"));
    assert_eq!(path("/").join(&path("usr")), path("/usr"));
    assert_eq!(path("/store").join(&path("")), path("/store"));
    assert_eq!(path("/store").join(&path("./x")), path("/store/x"));
}

#[test]
fn starts_with_agrees_with_std() {
    for a in SAMPLES {
        for b in SAMPLES {
            assert_eq!(
                path(a).starts_with(&path(b)),
                Path::new(a).starts_with(b),
                "{:?} starts with {:?}",
                a,
                b
            );
        }
    }
    assert!(path("/nix/store").starts_with(&path("/nix")));
    assert!(!path("/nixos").starts_with(&path("/nix")));
    assert!(!path("nix/store").starts_with(&path("/nix")));
}

#[test]
fn strip_prefix_agrees_with_std() {
    for a in SAMPLES {
        for b in SAMPLES {
            let ours = path(a).strip_prefix(&path(b)).map(|p| text(&p));
            let theirs = Path::new(a).strip_prefix(b).ok().map(canonical);
            assert_eq!(ours, theirs, "{:?} without {:?}", a, b);
        }
    }
    assert_eq!(path("/nix/store/x").strip_prefix(&path("/nix")), Some(path("store/x")));
    assert_eq!(path("/nix").strip_prefix(&path("/nix")), Some(path("")));
    assert_eq!(path("/etc").strip_prefix(&path("/nix")), None);
}

#[test]
fn parent_agrees_with_std() {
    for s in SAMPLES {
        let ours = path(s).parent().map(|p| text(&p));
        let theirs = Path::new(s).parent().map(canonical);
        assert_eq!(ours, theirs, "parent of {:?}", s);
    }
    assert_eq!(path("/a/b").parent(), Some(path("/a")));
    assert_eq!(path("/a").parent(), Some(path("/")));
    assert_eq!(path("/").parent(), None);
    assert_eq!(path("").parent(), None);
    assert_eq!(path("a").parent(), Some(path("")));
}

#[test]
fn file_name_agrees_with_std() {
    for s in SAMPLES {
        let ours = path(s).file_name();
        let theirs = Path::new(s).file_name().map(|n| n.to_str().unwrap().as_bytes().to_vec());
        assert_eq!(ours, theirs, "file name of {:?}", s);
    }
    assert_eq!(path("/etc/group").file_name(), Some(b"group".to_vec()));
    assert_eq!(path("/").file_name(), None);
    assert_eq!(path("a/..").file_name(), None);
    assert_eq!(path(".").file_name(), None);
}

#[test]
fn child_adds_one_name() {
    assert_eq!(path("/tmp/root").child(&b"usr".to_vec()), path("/tmp/root/usr"));
    assert_eq!(path("/").child(&b"usr".to_vec()), path("/usr"));
}

#[test]
fn take_skip_and_concat() {
    let p = path("/a/b/c");
    assert_eq!(p.take(2), path("/a"));
    assert_eq!(p.skip(2), path("b/c"));
    assert_eq!(p.take(2).concat(&p.skip(2)), p);
    assert_eq!(HostPath::empty(), path(""));
    assert_eq!(HostPath::root(), path("/"));
    assert_eq!(HostPath::from_name(Some(&b"x".to_vec())), path("x"));
    assert_eq!(HostPath::from_name(None), path(""));
    assert_eq!(HostPath::from_parts(vec![b"/".to_vec(), b"x".to_vec()]), path("/x"));
    assert_eq!(p.clone(), p);
}

#[test]
fn paths_need_not_be_text() {
    let raw = [b'/', 0xff, 0xfe, b'/', b'x'];
    let p = HostPath::from_bytes(&raw);
    assert_eq!(p.len(), 3);
    assert_eq!(p.part(1), &vec![0xff, 0xfe]);
    assert_eq!(p.to_bytes(), raw.to_vec());
    assert_eq!(p.file_name(), Some(b"x".to_vec()));
}

#[test]
fn bytes_are_compared_and_copied() {
    assert!(bytes_equal(b"abc", b"abc"));
    assert!(!bytes_equal(b"abc", b"abd"));
    assert!(!bytes_equal(b"abc", b"ab"));
    assert!(bytes_equal(b"", b""));
    assert_eq!(copy_bytes(b"abc"), b"abc".to_vec());
    assert_eq!(copy_names(&vec![b"a".to_vec(), b"".to_vec()]), vec![b"a".to_vec(), b"".to_vec()]);
    assert!(is_root_part(b"/") && !is_root_part(b"//") && !is_root_part(b"a"));
    assert!(is_cur_part(b".") && !is_cur_part(b"..") && !is_cur_part(b""));
    assert!(is_up_part(b"..") && !is_up_part(b".") && !is_up_part(b"..."));
    assert!(is_name_part(b"a") && is_name_part(b".."));
    assert!(!is_name_part(b"") && !is_name_part(b"a/b"));
}
