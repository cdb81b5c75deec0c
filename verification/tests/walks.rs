use dfm::context::build_context;
use dfm::fileset::FileSet;
use dfm::listing::{Entry, EntryKind, IoError, IoErrorKind, Listing};
use dfm::utils::{get_tree_files, remove_dir_if_empty, DirStep};

fn names(s: &FileSet) -> Vec<String> {
    s.paths()
        .iter()
        .map(|p| {
            p.parts()
                .iter()
                .map(|n| String::from_utf8(n.clone()).unwrap())
                .collect::<Vec<_>>()
                .join("/")
        })
        .collect()
}

fn err(kind: IoErrorKind, m: &str) -> IoError {
    IoError { kind, message: m.to_string() }
}

fn file(n: &str) -> Entry {
    Entry { name: n.as_bytes().to_vec(), kind: EntryKind::File }
}

fn dir(n: &str, l: Listing) -> Entry {
    Entry { name: n.as_bytes().to_vec(), kind: EntryKind::Dir(l) }
}

fn read(entries: Vec<Entry>) -> Listing {
    Listing::Read(entries, None)
}

fn ctx() -> dfm::context::Context {
    build_context(b".df", b"/home/u", b"/home/u/.cache/dfm", b"/home/u/.config/dfm")
}

#[test]
fn walk_finds_nested_files_and_skips_git() {
    let tree = read(vec![
        file(".bashrc"),
        dir(".git", read(vec![file("HEAD"), dir("objects", read(vec![file("x")]))])),
        dir(".config", read(vec![dir("nvim", read(vec![file("init.lua")])), file("starship.toml")])),
        Entry { name: b"link".to_vec(), kind: EntryKind::Other },
        dir("empty", read(vec![])),
    ]);
    let files = get_tree_files(&ctx(), &tree).unwrap();
    assert_eq!(names(&files), vec![".bashrc", ".config/nvim/init.lua", ".config/starship.toml"]);
}

#[test]
fn walk_skips_a_file_named_like_an_ignored_dir() {
    let tree = read(vec![file(".git"), file("a")]);
    assert_eq!(names(&get_tree_files(&ctx(), &tree).unwrap()), vec!["a"]);
}

#[test]
fn walk_passes_over_unreadable_dir_when_permission_is_denied() {
    let tree = read(vec![
        file("a"),
        dir("secret", Listing::Unreadable(err(IoErrorKind::PermissionDenied, "denied"))),
    ]);
    assert_eq!(names(&get_tree_files(&ctx(), &tree).unwrap()), vec!["a"]);
    let root = Listing::Unreadable(err(IoErrorKind::PermissionDenied, "denied"));
    assert_eq!(get_tree_files(&ctx(), &root).unwrap().len(), 0);
}

#[test]
fn walk_fails_on_other_read_errors() {
    let tree = read(vec![
        file("a"),
        dir("gone", Listing::Unreadable(err(IoErrorKind::NotFound, "gone"))),
        dir("bad", Listing::Unreadable(err(IoErrorKind::Other, "bad"))),
    ]);
    let e = get_tree_files(&ctx(), &tree).unwrap_err();
    assert_eq!(e.kind, IoErrorKind::NotFound);
    assert_eq!(e.message, "gone");
}

#[test]
fn walk_fails_when_the_kind_of_an_entry_is_unknown() {
    let tree = read(vec![
        file("a"),
        Entry { name: b".git".to_vec(), kind: EntryKind::Unknown(err(IoErrorKind::Other, "stat")) },
    ]);
    let e = get_tree_files(&ctx(), &tree).unwrap_err();
    assert_eq!(e.message, "stat");
}

#[test]
fn walk_keeps_what_was_read_before_a_broken_listing() {
    let tree = Listing::Read(vec![file("a"), file("b")], Some(err(IoErrorKind::Other, "eio")));
    assert_eq!(names(&get_tree_files(&ctx(), &tree).unwrap()), vec!["a", "b"]);
}

#[test]
fn strict_walk_fails_on_any_error() {
    let ok = read(vec![file("a"), dir(".git", read(vec![file("x")])), dir("d", read(vec![file("b")]))]);
    assert_eq!(names(&dfm::tree::get_tree_files(&ok).unwrap()), vec!["a", "d/b"]);
    let denied = read(vec![file("a"), dir("d", Listing::Unreadable(err(IoErrorKind::PermissionDenied, "p")))]);
    assert!(dfm::tree::get_tree_files(&denied).is_err());
    let broken = Listing::Read(vec![file("a")], Some(err(IoErrorKind::Other, "eio")));
    assert!(dfm::tree::get_tree_files(&broken).is_err());
    let git_error = read(vec![dir(".git", Listing::Unreadable(err(IoErrorKind::Other, "x")))]);
    assert_eq!(dfm::tree::get_tree_files(&git_error).unwrap().len(), 0);
}

#[test]
fn remove_dir_climb_steps() {
    match remove_dir_if_empty(b"/home/u/.config/nvim", true) {
        DirStep::RemoveThenVisit(p) => assert_eq!(p, b"/home/u/.config".to_vec()),
        other => panic!("{:?}", other),
    }
    assert!(matches!(remove_dir_if_empty(b"/home/u/.config/nvim", false), DirStep::Stop));
    assert!(matches!(remove_dir_if_empty(b"/", true), DirStep::RemoveAndStop));
    match remove_dir_if_empty(b"/a", true) {
        DirStep::RemoveThenVisit(p) => assert_eq!(p, b"/".to_vec()),
        other => panic!("{:?}", other),
    }
}

#[test]
fn context_takes_relative_repo_from_home() {
    let c = ctx();
    assert_eq!(c.source_dir, b"/home/u/.df".to_vec());
    assert_eq!(c.build_dir, b"/home/u/.cache/dfm/tree".to_vec());
    assert_eq!(c.install_dir, b"/home/u/.config/dfm/tree".to_vec());
    assert_eq!(c.link_dir, b"/home/u".to_vec());
    assert_eq!(c.ignored_dirs, vec![".git".to_string()]);
    let abs = build_context(b"/srv/dots", b"/home/u", b"/c", b"/f");
    assert_eq!(abs.source_dir, b"/srv/dots".to_vec());
    assert!(abs.is_ignored(b".git"));
    assert!(!abs.is_ignored(b".github"));
}

#[test]
fn both_walks_agree_on_a_readable_tree() {
    let make = || {
        read(vec![
            file("z"),
            dir(".git", read(vec![file("HEAD")])),
            dir("d", read(vec![file("y"), dir("e", read(vec![file("x")]))])),
            file(".git"),
        ])
    };
    let a = get_tree_files(&ctx(), &make()).unwrap();
    let b = dfm::tree::get_tree_files(&make()).unwrap();
    assert_eq!(names(&a), names(&b));
    assert_eq!(names(&a), vec!["d/e/x", "d/y", "z"]);
}

fn sample_tree() -> Listing {
    read(vec![
        file("a"),
        dir("d", read(vec![file("x"), dir("e", read(vec![file("y")])), file("skip")])),
        dir("skip", read(vec![file("z")])),
    ])
}

#[test]
fn walking_a_subdirectory_gives_its_files_without_the_prefix() {
    let root = get_tree_files(&ctx(), &sample_tree()).unwrap();
    let sub = match sample_tree() {
        Listing::Read(mut v, _) => match v.remove(1).kind {
            EntryKind::Dir(l) => l,
            _ => unreachable!(),
        },
        _ => unreachable!(),
    };
    let below: Vec<String> = names(&get_tree_files(&ctx(), &sub).unwrap())
        .into_iter()
        .map(|n| format!("d/{}", n))
        .collect();
    let from_root: Vec<String> = names(&root).into_iter().filter(|n| n.starts_with("d/")).collect();
    assert_eq!(below, from_root);
    assert_eq!(below, vec!["d/e/y", "d/skip", "d/x"]);
}

#[test]
fn ignoring_more_names_drops_the_files_that_pass_them() {
    let all = names(&get_tree_files(&ctx(), &sample_tree()).unwrap());
    let mut more = ctx();
    more.ignored_dirs.push("skip".to_string());
    let fewer = names(&get_tree_files(&more, &sample_tree()).unwrap());
    let expected: Vec<String> =
        all.iter().filter(|p| !p.split('/').any(|n| n == "skip")).cloned().collect();
    assert_eq!(fewer, expected);
    assert_eq!(fewer, vec!["a", "d/e/y", "d/x"]);
}

#[test]
fn strict_walk_of_unreadable_root_gives_its_error() {
    let root = Listing::Unreadable(err(IoErrorKind::PermissionDenied, "root denied"));
    let e = dfm::tree::get_tree_files(&root).unwrap_err();
    assert_eq!(e.kind, IoErrorKind::PermissionDenied);
    assert_eq!(e.message, "root denied");
}

#[test]
fn strict_walk_reports_the_listing_own_error_before_subdirectories() {
    let tree = read(vec![
        dir("d1", Listing::Unreadable(err(IoErrorKind::Other, "deep"))),
        Entry { name: b"x".to_vec(), kind: EntryKind::Unknown(err(IoErrorKind::Other, "stat x")) },
    ]);
    assert_eq!(dfm::tree::get_tree_files(&tree).unwrap_err().message, "stat x");
    let stopped = Listing::Read(
        vec![dir("d1", Listing::Unreadable(err(IoErrorKind::Other, "deep"))), file("a")],
        Some(err(IoErrorKind::Other, "next entry")),
    );
    assert_eq!(dfm::tree::get_tree_files(&stopped).unwrap_err().message, "next entry");
    // The walk that reads directory by directory meets the subdirectory first.
    let tree = read(vec![
        dir("d1", Listing::Unreadable(err(IoErrorKind::Other, "deep"))),
        Entry { name: b"x".to_vec(), kind: EntryKind::Unknown(err(IoErrorKind::Other, "stat x")) },
    ]);
    assert_eq!(get_tree_files(&ctx(), &tree).unwrap_err().message, "deep");
}
