//! Installing: the installed tree follows the build tree, and every
//! installed file gets a link.
use vstd::prelude::*;

use crate::fileset::FileSet;
use crate::sync::{SyncPlan, sync_copies, sync_plan, sync_removals};

verus! {

/// What an install does, given the files of the build tree and those of the
/// installed tree: copy and link every built file, then remove the link and
/// the installed copy of each installed file that is no longer built.
pub fn install(built_files: &FileSet, installed_files: &FileSet) -> (r: SyncPlan)
    requires
        built_files.wf(),
        installed_files.wf(),
    ensures
        r.copies.wf(),
        r.removals.wf(),
        r.copies@ == sync_copies(built_files@, installed_files@),
        r.removals@ == sync_removals(built_files@, installed_files@),
{
    sync_plan(built_files, installed_files)
}

} // verus!
