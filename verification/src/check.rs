//! Checking: which files of the repository tree the installed tree lacks,
//! which installed files differ from their built copy, and which installed
//! files the repository no longer has.
use vstd::prelude::*;

use crate::fileset::FileSet;
use crate::order::{compare_bytes, Order};
use crate::relpath::RelPath;

verus! {

/// The contents of a file in the build tree and in the installed tree.
#[derive(Debug)]
pub struct FileContents {
    pub file: RelPath,
    pub built: Vec<u8>,
    pub installed: Vec<u8>,
}

/// The three kinds of change between the trees.
#[derive(Debug)]
pub struct TreeChanges {
    pub added: FileSet,
    pub changed: FileSet,
    pub deleted: FileSet,
}

/// Whether the contents read for `p` differ between the two trees.
pub open spec fn differs(contents: Seq<FileContents>, p: Seq<Seq<u8>>) -> bool {
    exists|k: int|
        0 <= k < contents.len() && (#[trigger] contents[k]).file@ == p && contents[k].built@
            != contents[k].installed@
}

/// The installed files that the repository still has: those whose contents
/// must be read to tell whether they changed.
pub fn common_files(source_files: &FileSet, installed_files: &FileSet) -> (r: FileSet)
    requires
        source_files.wf(),
        installed_files.wf(),
    ensures
        r.wf(),
        r@ == installed_files@.intersect(source_files@),
{
    installed_files.intersect(source_files)
}

fn any_differs(contents: &Vec<FileContents>, p: &RelPath) -> (r: bool)
    ensures
        r == differs(contents@, p@),
{
    let mut i: usize = 0;
    while i < contents.len()
        invariant
            i <= contents.len(),
            forall|k: int|
                0 <= k < i ==> !((#[trigger] contents@[k]).file@ == p@ && contents@[k].built@
                    != contents@[k].installed@),
        decreases contents.len() - i,
    {
        let c = &contents[i];
        let same_file = match c.file.compare(p) {
            Order::Equal => true,
            _ => false,
        };
        if same_file {
            let same = match compare_bytes(c.built.as_slice(), c.installed.as_slice()) {
                Order::Equal => true,
                _ => false,
            };
            if !same {
                assert(contents@[i as int].file@ == p@);
                return true;
            }
        }
        i = i + 1;
    }
    false
}

/// The changes between the trees, given the files of the repository, those
/// of the installed tree, and the contents read for the installed files that
/// the repository still has.
pub fn check_tree(
    source_files: &FileSet,
    installed_files: &FileSet,
    contents: &Vec<FileContents>,
) -> (r: TreeChanges)
    requires
        source_files.wf(),
        installed_files.wf(),
    ensures
        r.added.wf(),
        r.changed.wf(),
        r.deleted.wf(),
        r.added@ == source_files@.difference(installed_files@),
        r.deleted@ == installed_files@.difference(source_files@),
        r.changed@ == installed_files@.intersect(source_files@).filter(
            |p: Seq<Seq<u8>>| differs(contents@, p),
        ),
{
    let common = common_files(source_files, installed_files);
    let n = common.len();
    let mut keep: Vec<bool> = Vec::new();
    let mut i: usize = 0;
    while i < n
        invariant
            common.wf(),
            n == common.items().len(),
            i <= n,
            keep.len() == i,
            forall|j: int|
                0 <= j < i ==> #[trigger] keep@[j] == differs(contents@, common.items()[j]),
        decreases n - i,
    {
        let d = any_differs(contents, common.get(i));
        keep.push(d);
        i = i + 1;
    }
    let changed = common.select(&keep);
    proof {
        common.lemma_items();
    }
    assert(changed@ =~= installed_files@.intersect(source_files@).filter(
        |p: Seq<Seq<u8>>| differs(contents@, p),
    ));
    let added = source_files.difference(installed_files);
    let deleted = installed_files.difference(source_files);
    TreeChanges { added, changed, deleted }
}

/// The contents read for each file with the two sides exchanged: what was
/// built is taken as installed, and what is installed as built.
pub open spec fn sides_swapped(contents: Seq<FileContents>) -> Seq<FileContents> {
    Seq::new(
        contents.len(),
        |i: int|
            FileContents {
                file: contents[i].file,
                built: contents[i].installed,
                installed: contents[i].built,
            },
    )
}

/// A file whose built bytes are not its installed bytes has changed, in
/// whichever order the two byte strings sort.
pub proof fn law_differing_bytes_mean_changed(contents: Seq<FileContents>, k: int)
    requires
        0 <= k < contents.len(),
        contents[k].built@ != contents[k].installed@,
    ensures
        differs(contents, contents[k].file@),
{
}

/// A file whose every read gave the same bytes on both sides has not changed.
pub proof fn law_equal_bytes_mean_unchanged(contents: Seq<FileContents>, p: Seq<Seq<u8>>)
    requires
        forall|k: int|
            0 <= k < contents.len() && (#[trigger] contents[k]).file@ == p ==> contents[k].built@
                == contents[k].installed@,
    ensures
        !differs(contents, p),
{
}

/// For a file read once, it has changed exactly when its built bytes are not
/// its installed bytes.
pub proof fn law_single_read_changed_iff_bytes_differ(c: FileContents)
    ensures
        differs(seq![c], c.file@) <==> c.built@ != c.installed@,
{
    if c.built@ != c.installed@ {
        law_differing_bytes_mean_changed(seq![c], 0);
    }
}

/// Whether a file has changed does not depend on which side is the build and
/// which the installed copy.
pub proof fn law_changed_is_symmetric(contents: Seq<FileContents>, p: Seq<Seq<u8>>)
    ensures
        differs(sides_swapped(contents), p) == differs(contents, p),
{
    let w = sides_swapped(contents);
    if differs(contents, p) {
        let k = choose|k: int|
            0 <= k < contents.len() && (#[trigger] contents[k]).file@ == p && contents[k].built@
                != contents[k].installed@;
        assert(w[k].file@ == p);
    }
    if differs(w, p) {
        let k = choose|k: int|
            0 <= k < w.len() && (#[trigger] w[k]).file@ == p && w[k].built@ != w[k].installed@;
        assert(contents[k].file@ == p);
    }
}

/// A file held by both trees is reported changed exactly when some read of it
/// gave different bytes on the two sides.
pub proof fn law_changed_iff_some_read_differs(
    source: Set<Seq<Seq<u8>>>,
    installed: Set<Seq<Seq<u8>>>,
    contents: Seq<FileContents>,
    p: Seq<Seq<u8>>,
)
    requires
        source.contains(p),
        installed.contains(p),
    ensures
        installed.intersect(source).filter(|q: Seq<Seq<u8>>| differs(contents, q)).contains(p)
            <==> exists|k: int|
            0 <= k < contents.len() && (#[trigger] contents[k]).file@ == p && contents[k].built@
                != contents[k].installed@,
{
}

/// Every file of the repository is added, changed, or installed unchanged;
/// no deleted file is one of the repository's.
pub proof fn law_check_covers_source(
    source: Set<Seq<Seq<u8>>>,
    installed: Set<Seq<Seq<u8>>>,
    contents: Seq<FileContents>,
)
    ensures
        source == source.difference(installed).union(
            installed.intersect(source).filter(|p: Seq<Seq<u8>>| differs(contents, p)),
        ).union(installed.intersect(source).filter(|p: Seq<Seq<u8>>| !differs(contents, p))),
        installed.difference(source).disjoint(source),
{
    assert(source =~= source.difference(installed).union(
        installed.intersect(source).filter(|p: Seq<Seq<u8>>| differs(contents, p)),
    ).union(installed.intersect(source).filter(|p: Seq<Seq<u8>>| !differs(contents, p))));
}

} // verus!
