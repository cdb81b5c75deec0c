//! Making one tree hold what another holds: copy every file of the source
//! tree into the target tree, and remove the files of the target tree that
//! the source tree does not have.
use vstd::prelude::*;

use crate::fileset::FileSet;

verus! {

/// The files to copy so that a target follows `source`: all of them.
pub open spec fn sync_copies(source: Set<Seq<Seq<u8>>>, target: Set<Seq<Seq<u8>>>) -> Set<
    Seq<Seq<u8>>,
> {
    source
}

/// The files to remove from `target` so that it follows `source`.
pub open spec fn sync_removals(source: Set<Seq<Seq<u8>>>, target: Set<Seq<Seq<u8>>>) -> Set<
    Seq<Seq<u8>>,
> {
    target.difference(source)
}

/// The files that a tree holding `target` holds once `removals` are removed
/// and `copies` are copied into it.
pub open spec fn after_sync(
    target: Set<Seq<Seq<u8>>>,
    copies: Set<Seq<Seq<u8>>>,
    removals: Set<Seq<Seq<u8>>>,
) -> Set<Seq<Seq<u8>>> {
    target.difference(removals).union(copies)
}

/// The files to copy and the files to remove.
#[derive(Debug)]
pub struct SyncPlan {
    pub copies: FileSet,
    pub removals: FileSet,
}

/// The plan that makes a tree holding `target` hold what `source` holds.
pub fn sync_plan(source: &FileSet, target: &FileSet) -> (r: SyncPlan)
    requires
        source.wf(),
        target.wf(),
    ensures
        r.copies.wf(),
        r.removals.wf(),
        r.copies@ == sync_copies(source@, target@),
        r.removals@ == sync_removals(source@, target@),
{
    let copies = source.clone_set();
    let removals = target.difference(source);
    SyncPlan { copies, removals }
}

/// Carrying out the plan leaves the target holding exactly the source files.
pub proof fn law_sync_target_matches_source(source: Set<Seq<Seq<u8>>>, target: Set<Seq<Seq<u8>>>)
    ensures
        after_sync(target, sync_copies(source, target), sync_removals(source, target)) == source,
{
    assert(after_sync(target, sync_copies(source, target), sync_removals(source, target)) =~= source);
}

/// The plan never removes a file that it copies.
pub proof fn law_sync_removes_no_copy(source: Set<Seq<Seq<u8>>>, target: Set<Seq<Seq<u8>>>)
    ensures
        sync_copies(source, target).disjoint(sync_removals(source, target)),
{
}

/// Once the target follows the source, a second plan removes nothing.
pub proof fn law_sync_second_run_removes_nothing(
    source: Set<Seq<Seq<u8>>>,
    target: Set<Seq<Seq<u8>>>,
)
    ensures
        sync_removals(
            source,
            after_sync(target, sync_copies(source, target), sync_removals(source, target)),
        ) == Set::<Seq<Seq<u8>>>::empty(),
{
    law_sync_target_matches_source(source, target);
    assert(source.difference(source) =~= Set::<Seq<Seq<u8>>>::empty());
}

/// The plan removes only files that the target holds.
pub proof fn law_sync_removes_only_present(source: Set<Seq<Seq<u8>>>, target: Set<Seq<Seq<u8>>>)
    ensures
        sync_removals(source, target).subset_of(target),
{
}

} // verus!
