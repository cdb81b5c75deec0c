//! Applying: the installed tree follows the build tree on the files that
//! pass the filter, and each copied file may be linked.
use vstd::prelude::*;

use crate::fileset::FileSet;
use crate::filter::{filter_of, passes};
use crate::path::{Comp, components};
use crate::sync::{after_sync, sync_copies, sync_removals};

verus! {

/// The files of `s` that pass an optional filter.
pub open spec fn filtered(s: Set<Seq<Seq<u8>>>, f: Option<Seq<Comp>>) -> Set<Seq<Seq<u8>>> {
    s.filter(|p: Seq<Seq<u8>>| passes(f, p))
}

/// The files of `s` that do not pass a filter.
pub open spec fn filtered_out(s: Set<Seq<Seq<u8>>>, f: Option<Seq<Comp>>) -> Set<Seq<Seq<u8>>> {
    s.filter(|p: Seq<Seq<u8>>| !passes(f, p))
}

/// What an apply does: copy the built files that pass the filter into the
/// installed tree (and link each of them when `link` holds), then remove the
/// installed files that pass the filter and are no longer built.
#[derive(Debug)]
pub struct ApplyPlan {
    pub copies: FileSet,
    pub removals: FileSet,
    pub link: bool,
}

/// The plan of an apply, given the files of the build tree and those of the
/// installed tree.
pub fn apply(built_files: &FileSet, installed_files: &FileSet, filter: &Option<String>, link: bool) -> (r:
    ApplyPlan)
    requires
        built_files.wf(),
        installed_files.wf(),
    ensures
        r.copies.wf(),
        r.removals.wf(),
        r.copies@ == filtered(built_files@, filter_of(*filter)),
        r.removals@ == filtered(installed_files@, filter_of(*filter)).difference(
            filtered(built_files@, filter_of(*filter)),
        ),
        r.link == link,
{
    let built = built_files.filtered(filter);
    let installed = installed_files.filtered(filter);
    let removals = installed.difference(&built);
    ApplyPlan { copies: built, removals, link }
}

/// What to do about the place where a link to an installed file goes.
#[derive(Debug, PartialEq, Eq, Structural)]
pub enum LinkStep {
    /// Something that is not a link is there: leave it and report it.
    Refuse,
    /// A link is there: remove it, then link.
    Replace,
    /// Nothing is there: link.
    Create,
}

/// Decides about the place of a link from whether something is there and
/// whether that is itself a link.
pub fn link_step(target_exists: bool, target_is_symlink: bool) -> (r: LinkStep)
    ensures
        target_exists && !target_is_symlink ==> r == LinkStep::Refuse,
        target_exists && target_is_symlink ==> r == LinkStep::Replace,
        !target_exists ==> r == LinkStep::Create,
{
    if target_exists && !target_is_symlink {
        LinkStep::Refuse
    } else if target_exists {
        LinkStep::Replace
    } else {
        LinkStep::Create
    }
}

/// After an apply, the installed files that pass the filter are exactly the
/// built files that pass it.
pub proof fn law_apply_matches_within_filter(
    built: Set<Seq<Seq<u8>>>,
    installed: Set<Seq<Seq<u8>>>,
    f: Option<Seq<Comp>>,
)
    ensures
        filtered(
            after_sync(
                installed,
                filtered(built, f),
                filtered(installed, f).difference(filtered(built, f)),
            ),
            f,
        ) == filtered(built, f),
{
    assert(filtered(
        after_sync(installed, filtered(built, f), filtered(installed, f).difference(filtered(built, f))),
        f,
    ) =~= filtered(built, f));
}

/// An apply leaves the installed files that do not pass the filter as they were.
pub proof fn law_apply_keeps_outside_filter(
    built: Set<Seq<Seq<u8>>>,
    installed: Set<Seq<Seq<u8>>>,
    f: Option<Seq<Comp>>,
)
    ensures
        filtered_out(
            after_sync(
                installed,
                filtered(built, f),
                filtered(installed, f).difference(filtered(built, f)),
            ),
            f,
        ) == filtered_out(installed, f),
{
    assert(filtered_out(
        after_sync(installed, filtered(built, f), filtered(installed, f).difference(filtered(built, f))),
        f,
    ) =~= filtered_out(installed, f));
}

/// An apply never removes a file that it copies.
pub proof fn law_apply_removes_no_copy(
    built: Set<Seq<Seq<u8>>>,
    installed: Set<Seq<Seq<u8>>>,
    f: Option<Seq<Comp>>,
)
    ensures
        filtered(built, f).disjoint(filtered(installed, f).difference(filtered(built, f))),
{
}

/// Without a filter, an apply copies and removes what an install does.
pub proof fn law_apply_without_filter_is_install(
    built: Set<Seq<Seq<u8>>>,
    installed: Set<Seq<Seq<u8>>>,
)
    ensures
        filtered(built, None) == sync_copies(built, installed),
        filtered(installed, None).difference(filtered(built, None)) == sync_removals(
            built,
            installed,
        ),
{
    assert(filtered(built, None) =~= built);
    assert(filtered(installed, None) =~= installed);
}

/// The empty filter lets every file pass.
pub proof fn law_empty_filter_passes_all(p: Seq<Seq<u8>>)
    ensures
        passes(Some(components(Seq::<u8>::empty())), p),
{
    let e = Seq::<u8>::empty();
    let segs = crate::path::split_on(e, crate::path::slash());
    assert(segs == seq![Seq::<u8>::empty()]);
    assert(segs.drop_last() =~= Seq::<Seq<u8>>::empty());
    assert(crate::path::normalize(segs.drop_last()) == Seq::<Comp>::empty());
    assert(crate::path::normalize(segs) == Seq::<Comp>::empty());
    assert(components(e) =~= Seq::<Comp>::empty());
}

} // verus!
