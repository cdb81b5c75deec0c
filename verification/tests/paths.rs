use std::path::{Component as StdComponent, Path, PathBuf};

use dfm::order::{compare_bytes, Order};
use dfm::path::{parent, path_components, push_path, starts_with, Component};

fn comps(s: &str) -> Vec<String> {
    path_components(s.as_bytes())
        .iter()
        .map(|c| match c {
            Component::RootDir => "/".to_string(),
            Component::CurDir => ".".to_string(),
            Component::ParentDir => "..".to_string(),
            Component::Normal(n) => String::from_utf8(n.clone()).unwrap(),
        })
        .collect()
}

fn std_comps(s: &str) -> Vec<String> {
    Path::new(s)
        .components()
        .map(|c| match c {
            StdComponent::RootDir => "/".to_string(),
            StdComponent::CurDir => ".".to_string(),
            StdComponent::ParentDir => "..".to_string(),
            StdComponent::Normal(n) => n.to_str().unwrap().to_string(),
            StdComponent::Prefix(_) => unreachable!(),
        })
        .collect()
}

const SAMPLES: &[&str] = &[
    "", "/", "a", "a/b", "/a/b", "a//b", "a/b/", "./a", ".", "./", "a/./b", "a/.", "..", "../a",
    "a/../b", "//a", ".a", "a/.b", "/.", "./.", "a/b/c/", "///",
];

#[test]
fn components_agree_with_std() {
    for s in SAMPLES {
        assert_eq!(comps(s), std_comps(s), "components of {:?}", s);
    }
}

#[test]
fn components_of_absolute_path() {
    assert_eq!(comps("/home/user/.df"), vec!["/", "home", "user", ".df"]);
}

#[test]
fn starts_with_agrees_with_std() {
    for a in SAMPLES {
        for b in SAMPLES {
            assert_eq!(
                starts_with(a.as_bytes(), b.as_bytes()),
                Path::new(a).starts_with(b),
                "{:?} starts with {:?}",
                a,
                b
            );
        }
    }
}

#[test]
fn starts_with_is_by_whole_components() {
    assert!(starts_with(b"/home/u/.config/dfm/tree/x", b"/home/u/.config/dfm/tree"));
    assert!(!starts_with(b"/home/u/.config/dfm/treehouse", b"/home/u/.config/dfm/tree"));
    assert!(starts_with(b"/a/b", b"/a/b/"));
}

#[test]
fn push_agrees_with_std() {
    for a in SAMPLES {
        for b in SAMPLES {
            let mut expected = PathBuf::from(a);
            expected.push(b);
            let got = push_path(a.as_bytes(), b.as_bytes());
            assert_eq!(got, expected.to_str().unwrap().as_bytes(), "{:?} pushed {:?}", a, b);
        }
    }
}

#[test]
fn push_examples() {
    assert_eq!(push_path(b"/home/u", b".df"), b"/home/u/.df".to_vec());
    assert_eq!(push_path(b"/home/u/", b".df"), b"/home/u/.df".to_vec());
    assert_eq!(push_path(b"/home/u", b"/etc/df"), b"/etc/df".to_vec());
    assert_eq!(push_path(b"", b"a"), b"a".to_vec());
}

#[test]
fn parent_examples() {
    assert_eq!(parent(b"/a/b"), Some(b"/a".to_vec()));
    assert_eq!(parent(b"/a"), Some(b"/".to_vec()));
    assert_eq!(parent(b"/"), None);
    assert_eq!(parent(b""), None);
    assert_eq!(parent(b"a"), Some(b"".to_vec()));
    assert_eq!(parent(b"a/b/"), Some(b"a".to_vec()));
    assert_eq!(parent(b"./a"), Some(b".".to_vec()));
    assert_eq!(parent(b"a//b"), Some(b"a".to_vec()));
    assert_eq!(parent(b"a//b/c"), Some(b"a//b".to_vec()));
    assert_eq!(parent(b"a/./b/c"), Some(b"a/./b".to_vec()));
}

#[test]
fn parent_gives_the_std_parent_bytes() {
    let extra = ["a/./b/c", "a//b/c", "/a/b/./", "./a/b", "./", "a/b/..", "/a//", ".//a", "a/.", "//"];
    for s in SAMPLES.iter().chain(extra.iter()) {
        let ours = parent(s.as_bytes()).map(|p| String::from_utf8(p).unwrap());
        let theirs = Path::new(s).parent().map(|p| p.to_str().unwrap().to_string());
        assert_eq!(ours, theirs, "parent of {:?}", s);
    }
}

#[test]
fn climb_ends_at_the_root() {
    let mut path = b"/home/u/.config/dfm/tree/a/b".to_vec();
    let mut steps = 0;
    while let Some(p) = parent(&path) {
        assert!(path_components(&p).len() + 1 == path_components(&path).len());
        path = p;
        steps += 1;
    }
    assert_eq!(path, b"/".to_vec());
    assert_eq!(steps, 7);
}

#[test]
fn bytes_compare_lexicographically() {
    assert_eq!(compare_bytes(b"a", b"b"), Order::Less);
    assert_eq!(compare_bytes(b"b", b"a"), Order::Greater);
    assert_eq!(compare_bytes(b"ab", b"ab"), Order::Equal);
    assert_eq!(compare_bytes(b"a", b"ab"), Order::Less);
    assert_eq!(compare_bytes(b"", b""), Order::Equal);
    assert_eq!(compare_bytes(b"Z", b"a"), Order::Less);
    assert_eq!(compare_bytes(b"ab", b"a"), Order::Greater);
}
