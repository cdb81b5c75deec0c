//! Linking: copy and link each added or changed file, and remove the links
//! of deleted files.
use vstd::prelude::*;

use crate::check::TreeChanges;
use crate::fileset::FileSet;

verus! {

/// The files to copy into the installed tree and link, and the files whose
/// links to remove.
#[derive(Debug)]
pub struct LinkPlan {
    pub link: FileSet,
    pub unlink: FileSet,
}

/// The plan for the changes that a check found.
pub fn link_tree(changes: &TreeChanges) -> (r: LinkPlan)
    requires
        changes.added.wf(),
        changes.changed.wf(),
        changes.deleted.wf(),
    ensures
        r.link.wf(),
        r.unlink.wf(),
        r.link@ == changes.added@.union(changes.changed@),
        r.unlink@ == changes.deleted@,
{
    let mut link = changes.added.clone_set();
    link.extend(&changes.changed);
    let unlink = changes.deleted.clone_set();
    LinkPlan { link, unlink }
}

/// After a check and the linking it calls for, every file of the repository
/// is either linked anew or was installed unchanged, and no link of a file of
/// the repository is removed.
pub proof fn law_link_after_check_covers_source(
    source: Set<Seq<Seq<u8>>>,
    installed: Set<Seq<Seq<u8>>>,
    changed: Set<Seq<Seq<u8>>>,
)
    requires
        changed.subset_of(installed.intersect(source)),
    ensures
        source.difference(installed).union(changed).union(
            installed.intersect(source).difference(changed),
        ) == source,
        installed.difference(source).disjoint(source),
{
    assert(source.difference(installed).union(changed).union(
        installed.intersect(source).difference(changed),
    ) =~= source);
}

} // verus!
