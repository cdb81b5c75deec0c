use dfm::apply::{apply, link_step, LinkStep};
use dfm::build_tree::build;
use dfm::check::{check_tree, common_files, FileContents};
use dfm::cleanup::{cleanup, points_into_install, split_lines};
use dfm::context::build_context;
use dfm::diff::{diff, diff_job, DiffKind};
use dfm::fileset::FileSet;
use dfm::install::install;
use dfm::link::link_tree;
use dfm::relpath::RelPath;

fn rp(s: &str) -> RelPath {
    RelPath::from_parts(s.split('/').map(|n| n.as_bytes().to_vec()).collect())
}

fn set(paths: &[&str]) -> FileSet {
    let mut s = FileSet::new();
    for p in paths {
        s.insert(rp(p));
    }
    s
}

fn name(p: &RelPath) -> String {
    p.parts().iter().map(|n| String::from_utf8(n.clone()).unwrap()).collect::<Vec<_>>().join("/")
}

fn names(s: &FileSet) -> Vec<String> {
    s.paths().iter().map(name).collect()
}

/// Carries out a plan on a set of names: remove, then copy.
fn carry_out(target: &FileSet, copies: &FileSet, removals: &FileSet) -> Vec<String> {
    let mut after = target.difference(removals);
    after.extend(copies);
    names(&after)
}

#[test]
fn build_copies_sources_and_removes_stale_files() {
    let source = set(&[".bashrc", ".config/nvim/init.lua"]);
    let built = set(&[".bashrc", ".old", ".config/nvim/old.lua"]);
    let plan = build(&source, &built);
    assert_eq!(names(&plan.copies), vec![".bashrc", ".config/nvim/init.lua"]);
    assert_eq!(names(&plan.removals), vec![".config/nvim/old.lua", ".old"]);
    assert_eq!(carry_out(&built, &plan.copies, &plan.removals), names(&source));
}

#[test]
fn install_follows_the_build_tree() {
    let built = set(&["a", "b/c"]);
    let installed = set(&["a", "d"]);
    let plan = install(&built, &installed);
    assert_eq!(names(&plan.copies), vec!["a", "b/c"]);
    assert_eq!(names(&plan.removals), vec!["d"]);
    assert_eq!(carry_out(&installed, &plan.copies, &plan.removals), names(&built));
}

#[test]
fn apply_without_filter_is_install() {
    let built = set(&["a", "b/c"]);
    let installed = set(&["a", "d"]);
    let plan = apply(&built, &installed, &None, true);
    let inst = install(&built, &installed);
    assert_eq!(names(&plan.copies), names(&inst.copies));
    assert_eq!(names(&plan.removals), names(&inst.removals));
    assert!(plan.link);
}

#[test]
fn apply_with_filter_touches_only_matching_files() {
    let built = set(&[".config/nvim/init.lua", ".config/nvimrc", ".bashrc"]);
    let installed = set(&[".config/nvim/old.lua", ".zshrc", ".config/nvim/init.lua"]);
    let plan = apply(&built, &installed, &Some(".config/nvim".to_string()), false);
    assert_eq!(names(&plan.copies), vec![".config/nvim/init.lua"]);
    assert_eq!(names(&plan.removals), vec![".config/nvim/old.lua"]);
    assert!(!plan.link);
    let after = carry_out(&installed, &plan.copies, &plan.removals);
    assert_eq!(after, vec![".config/nvim/init.lua", ".zshrc"]);
}

#[test]
fn link_step_refuses_to_replace_a_real_file() {
    assert_eq!(link_step(true, false), LinkStep::Refuse);
    assert_eq!(link_step(true, true), LinkStep::Replace);
    assert_eq!(link_step(false, false), LinkStep::Create);
    assert_eq!(link_step(false, true), LinkStep::Create);
}

#[test]
fn diff_lists_every_file_once_in_order() {
    let built = set(&["b", "a/x", "c"]);
    let installed = set(&["c", "d", "a/x"]);
    let entries = diff(&built, &installed, &None);
    let got: Vec<(String, DiffKind)> = entries.iter().map(|e| (name(&e.file), e.kind)).collect();
    assert_eq!(
        got,
        vec![
            ("a/x".to_string(), DiffKind::Both),
            ("b".to_string(), DiffKind::Added),
            ("c".to_string(), DiffKind::Both),
            ("d".to_string(), DiffKind::Removed),
        ]
    );
    let filtered = diff(&built, &installed, &Some("a".to_string()));
    assert_eq!(filtered.len(), 1);
    assert_eq!(name(&filtered[0].file), "a/x");
    assert!(diff(&FileSet::new(), &FileSet::new(), &None).is_empty());
}

fn contents(p: &str, b: &str, i: &str) -> FileContents {
    FileContents { file: rp(p), built: b.as_bytes().to_vec(), installed: i.as_bytes().to_vec() }
}

#[test]
fn check_tree_sorts_files_into_added_changed_deleted() {
    let source = set(&["a", "b", "c"]);
    let installed = set(&["b", "c", "d"]);
    assert_eq!(names(&common_files(&source, &installed)), vec!["b", "c"]);
    let read = vec![contents("b", "one", "one"), contents("c", "new", "old")];
    let changes = check_tree(&source, &installed, &read);
    assert_eq!(names(&changes.added), vec!["a"]);
    assert_eq!(names(&changes.changed), vec!["c"]);
    assert_eq!(names(&changes.deleted), vec!["d"]);
    let plan = link_tree(&changes);
    assert_eq!(names(&plan.link), vec!["a", "c"]);
    assert_eq!(names(&plan.unlink), vec!["d"]);
}

#[test]
fn check_tree_ignores_contents_of_files_not_in_both_trees() {
    let source = set(&["a"]);
    let installed = set(&["b"]);
    let read = vec![contents("a", "x", "y"), contents("b", "x", "y")];
    let changes = check_tree(&source, &installed, &read);
    assert!(names(&changes.changed).is_empty());
}

#[test]
fn lines_like_a_buffered_reader() {
    let text = b"a\nb\r\n\nlast\r";
    let ours = split_lines(text);
    let std_lines: Vec<Vec<u8>> = std::io::BufRead::lines(&text[..])
        .map(|l| l.unwrap().into_bytes())
        .collect();
    assert_eq!(ours, std_lines);
    assert_eq!(split_lines(b""), Vec::<Vec<u8>>::new());
    assert_eq!(split_lines(b"x\n"), vec![b"x".to_vec()]);
}

#[test]
fn cleanup_candidates_skip_invalid_utf8_lines() {
    let ctx = build_context(b".df", b"/home/u", b"/c", b"/home/u/.config/dfm");
    let out = b"/home/u/.bashrc\n/home/u/\xff\xfe\nrel/link\n";
    let c = cleanup(&ctx, out);
    assert_eq!(c, vec![b"/home/u/.bashrc".to_vec(), b"/home/u/rel/link".to_vec()]);
    assert!(points_into_install(&ctx, b"/home/u/.config/dfm/tree/.bashrc"));
    assert!(!points_into_install(&ctx, b"/home/u/.config/dfm/treehouse"));
    assert!(!points_into_install(&ctx, b"/etc/passwd"));
}

#[test]
fn second_build_removes_nothing() {
    let source = set(&["a", "b/c"]);
    let built = set(&["a", "x", "b/d"]);
    let plan = build(&source, &built);
    let mut after = built.difference(&plan.removals);
    after.extend(&plan.copies);
    let again = build(&source, &after);
    assert!(names(&again.removals).is_empty());
    assert_eq!(names(&again.copies), names(&source));
}

#[test]
fn apply_never_removes_what_it_copies() {
    let built = set(&["a", "b"]);
    let installed = set(&["a", "c"]);
    let plan = apply(&built, &installed, &Some("a".to_string()), true);
    for p in plan.removals.paths() {
        assert!(!plan.copies.contains(p));
    }
    assert_eq!(names(&plan.copies), vec!["a"]);
    assert!(names(&plan.removals).is_empty());
}

#[test]
fn diff_jobs_pick_the_sides() {
    let ctx = build_context(b".df", b"/h", b"/c", b"/f");
    let built = set(&["a/x", "b"]);
    let installed = set(&["a/x", "d"]);
    let entries = diff(&built, &installed, &None);
    let jobs: Vec<(Vec<u8>, Vec<u8>, Vec<u8>)> = entries
        .iter()
        .map(|e| {
            let j = diff_job(&ctx, e);
            (j.workdir, j.old, j.new)
        })
        .collect();
    assert_eq!(
        jobs,
        vec![
            (b"/c/tree".to_vec(), b"/f/tree/a/x".to_vec(), b"a/x".to_vec()),
            (b"/c/tree".to_vec(), b"/dev/null".to_vec(), b"b".to_vec()),
            (b"/f/tree".to_vec(), b"d".to_vec(), b"/dev/null".to_vec()),
        ]
    );
    assert_eq!(rp("a/b/c").to_bytes(), b"a/b/c".to_vec());
}
