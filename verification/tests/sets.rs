use dfm::fileset::FileSet;
use dfm::filter::Filter;
use dfm::order::Order;
use dfm::relpath::RelPath;

fn rp(s: &str) -> RelPath {
    RelPath::from_parts(s.split('/').map(|n| n.as_bytes().to_vec()).collect())
}

fn set(paths: &[&str]) -> FileSet {
    let mut s = FileSet::new();
    for p in paths {
        s.insert(rp(p));
    }
    s
}

fn names(s: &FileSet) -> Vec<String> {
    s.paths()
        .iter()
        .map(|p| {
            p.parts()
                .iter()
                .map(|n| String::from_utf8(n.clone()).unwrap())
                .collect::<Vec<_>>()
                .join("/")
        })
        .collect()
}

#[test]
fn relpath_join_and_parent() {
    let p = RelPath::new().join(b"a").join(b"b");
    assert_eq!(p.parts(), &vec![b"a".to_vec(), b"b".to_vec()]);
    let q = p.parent().unwrap();
    assert_eq!(q.parts(), &vec![b"a".to_vec()]);
    assert_eq!(q.parent().unwrap().len(), 0);
    assert!(RelPath::new().parent().is_none());
}

#[test]
fn relpaths_order_by_component() {
    assert_eq!(rp("a/b").compare(&rp("a/b")), Order::Equal);
    assert_eq!(rp("a/b").compare(&rp("a/c")), Order::Less);
    assert_eq!(rp("a").compare(&rp("a/b")), Order::Less);
    // A path sorts before a longer name that shares its start: "a/z" < "a-b".
    assert_eq!(rp("a/z").compare(&rp("a-b")), Order::Less);
    assert_eq!(rp("b").compare(&rp("a/z")), Order::Greater);
}

#[test]
fn fileset_keeps_order_without_repeats() {
    let s = set(&["b", "a/c", "a", "b", "a/c"]);
    assert_eq!(names(&s), vec!["a", "a/c", "b"]);
    assert_eq!(s.len(), 3);
    assert!(s.contains(&rp("a/c")));
    assert!(!s.contains(&rp("a/b")));
}

#[test]
fn fileset_order_matches_pathbuf_order() {
    let items = ["x/y", "x-y", "x", ".bashrc", ".config/nvim/init.lua", ".config/a", "Z", "z"];
    let s = set(&items);
    let mut expected: Vec<std::path::PathBuf> = items.iter().map(std::path::PathBuf::from).collect();
    expected.sort();
    expected.dedup();
    let expected: Vec<String> = expected.iter().map(|p| p.to_str().unwrap().to_string()).collect();
    assert_eq!(names(&s), expected);
}

#[test]
fn fileset_difference_intersect_extend() {
    let a = set(&["a", "b", "c/d"]);
    let b = set(&["b", "e"]);
    assert_eq!(names(&a.difference(&b)), vec!["a", "c/d"]);
    assert_eq!(names(&a.intersect(&b)), vec!["b"]);
    let mut u = a.clone_set();
    u.extend(&b);
    assert_eq!(names(&u), vec!["a", "b", "c/d", "e"]);
}

#[test]
fn filter_matches_whole_components() {
    let s = set(&[".config/nvim/init.lua", ".config/nvimrc", ".bashrc", ".config"]);
    let f = Filter::parse(".config/nvim");
    assert_eq!(names(&s.filter_by(&f)), vec![".config/nvim/init.lua"]);
    assert_eq!(names(&s.filtered(&Some(".config".to_string()))), vec![".config", ".config/nvim/init.lua", ".config/nvimrc"]);
    assert_eq!(names(&s.filtered(&Some(".config/".to_string()))).len(), 3);
    assert_eq!(names(&s.filtered(&Some(".config//nvim/./".to_string()))), vec![".config/nvim/init.lua"]);
}

#[test]
fn filter_edge_cases() {
    let s = set(&["a/b", "c"]);
    assert_eq!(names(&s.filtered(&None)), vec!["a/b", "c"]);
    assert_eq!(names(&s.filtered(&Some(String::new()))), vec!["a/b", "c"]);
    assert_eq!(names(&s.filtered(&Some("/a".to_string()))).len(), 0);
    assert_eq!(names(&s.filtered(&Some("./a".to_string()))).len(), 0);
    assert_eq!(names(&s.filtered(&Some("a/..".to_string()))).len(), 0);
    assert_eq!(names(&s.filtered(&Some("a/b/c".to_string()))).len(), 0);
}

#[test]
fn filter_agrees_with_std_starts_with() {
    let files = ["a/b", "a/bc", "ab/c", "a", ".x/y"];
    let filters = ["a", "a/", "a/b", "ab", "", ".", "./a", "/a", ".x", "a/./b", "a/../a"];
    for f in filters {
        let got = names(&set(&files).filtered(&Some(f.to_string())));
        let mut want: Vec<String> = files
            .iter()
            .filter(|p| std::path::Path::new(p).starts_with(f))
            .map(|p| p.to_string())
            .collect();
        want.sort_by(|x, y| std::path::Path::new(x).cmp(std::path::Path::new(y)));
        assert_eq!(got, want, "filter {:?}", f);
    }
}

#[test]
fn filter_passes_exactly_the_paths_that_start_with_it() {
    let files = ["a/b", "a/bc", "ab/c", "a", ".x/y", "a/b/c/d"];
    let filters = ["a", "a/", "a/b", "ab", "", ".", "./a", "/a", ".x", "a/./b", "a/../a", "a//b"];
    for f in filters {
        let filter = Filter::parse(f);
        for x in files {
            let p = rp(x);
            assert_eq!(
                filter.allows(&p),
                dfm::path::starts_with(&p.to_bytes(), f.as_bytes()),
                "{:?} against {:?}",
                x,
                f
            );
        }
    }
}
