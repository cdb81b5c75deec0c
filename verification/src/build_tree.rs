//! Building: the build tree follows the repository of dotfiles.
use vstd::prelude::*;

use crate::fileset::FileSet;
use crate::sync::{SyncPlan, sync_copies, sync_plan, sync_removals};

verus! {

/// What a build does, given the files of the repository and those of the
/// build tree: copy every repository file into the build tree, then remove
/// each built file that the repository no longer has.
pub fn build(source_files: &FileSet, build_files: &FileSet) -> (r: SyncPlan)
    requires
        source_files.wf(),
        build_files.wf(),
    ensures
        r.copies.wf(),
        r.removals.wf(),
        r.copies@ == sync_copies(source_files@, build_files@),
        r.removals@ == sync_removals(source_files@, build_files@),
{
    sync_plan(source_files, build_files)
}

} // verus!
