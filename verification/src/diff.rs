//! Diffing: every file that the build tree or the installed tree holds and
//! that passes the filter, in ascending order, with how the two trees differ
//! on it.
use vstd::prelude::*;

use crate::apply::filtered;
use crate::fileset::{FileSet, sorted_paths};
use crate::filter::filter_of;
use crate::context::Context;
use crate::path::{push_bytes, push_path};
use crate::relpath::{RelPath, rel_bytes};

verus! {

/// How a file stands between the build tree and the installed tree.
#[derive(Clone, Copy, Debug, PartialEq, Eq, Structural)]
pub enum DiffKind {
    /// Only the build tree holds it.
    Added,
    /// Only the installed tree holds it.
    Removed,
    /// Both trees hold it.
    Both,
}

/// One file to show a difference for.
#[derive(Debug)]
pub struct DiffEntry {
    pub file: RelPath,
    pub kind: DiffKind,
}

/// How `p` stands between the sets of built and installed files.
pub open spec fn diff_kind(
    built: Set<Seq<Seq<u8>>>,
    installed: Set<Seq<Seq<u8>>>,
    p: Seq<Seq<u8>>,
) -> DiffKind {
    if built.contains(p) && !installed.contains(p) {
        DiffKind::Added
    } else if !built.contains(p) && installed.contains(p) {
        DiffKind::Removed
    } else {
        DiffKind::Both
    }
}

/// The files of a list of entries.
pub open spec fn entry_files(v: Seq<DiffEntry>) -> Seq<Seq<Seq<u8>>> {
    Seq::new(v.len(), |i: int| v[i].file@)
}

/// The files to diff, given the files of the build tree and those of the
/// installed tree: all that pass the filter, in ascending order, each once.
pub fn diff(built_files: &FileSet, installed_files: &FileSet, filter: &Option<String>) -> (r: Vec<
    DiffEntry,
>)
    requires
        built_files.wf(),
        installed_files.wf(),
    ensures
        sorted_paths(entry_files(r@)),
        entry_files(r@).to_set() == filtered(built_files@, filter_of(*filter)).union(
            filtered(installed_files@, filter_of(*filter)),
        ),
        forall|k: int|
            0 <= k < r@.len() ==> (#[trigger] r@[k]).kind == diff_kind(
                filtered(built_files@, filter_of(*filter)),
                filtered(installed_files@, filter_of(*filter)),
                r@[k].file@,
            ),
{
    let built = built_files.filtered(filter);
    let installed = installed_files.filtered(filter);
    let mut all = built.clone_set();
    all.extend(&installed);
    let n = all.len();
    let mut out: Vec<DiffEntry> = Vec::new();
    let mut i: usize = 0;
    while i < n
        invariant
            all.wf(),
            built.wf(),
            installed.wf(),
            n == all.items().len(),
            i <= n,
            entry_files(out@) == all.items().take(i as int),
            forall|k: int|
                0 <= k < out@.len() ==> (#[trigger] out@[k]).kind == diff_kind(
                    built@,
                    installed@,
                    out@[k].file@,
                ),
        decreases n - i,
    {
        let p = all.get(i);
        let in_built = built.contains(p);
        let in_installed = installed.contains(p);
        let kind = if in_built && !in_installed {
            DiffKind::Added
        } else if !in_built && in_installed {
            DiffKind::Removed
        } else {
            DiffKind::Both
        };
        let ghost before = entry_files(out@);
        out.push(DiffEntry { file: p.clone_path(), kind });
        assert(entry_files(out@) =~= before.push(all.items()[i as int]));
        assert(all.items().take(i + 1) =~= all.items().take(i as int).push(all.items()[i as int]));
        i = i + 1;
    }
    proof {
        all.lemma_items();
        assert(all.items().take(n as int) =~= all.items());
    }
    out
}

/// The path `/dev/null` as bytes.
pub open spec fn dev_null() -> Seq<u8> {
    seq![0x2fu8, 0x64u8, 0x65u8, 0x76u8, 0x2fu8, 0x6eu8, 0x75u8, 0x6cu8, 0x6cu8]
}

/// How to show the difference for one file: the directory to work in, the
/// old side and the new side.
#[derive(Debug)]
pub struct DiffJob {
    pub workdir: Vec<u8>,
    pub old: Vec<u8>,
    pub new: Vec<u8>,
}

fn dev_null_exec() -> (r: Vec<u8>)
    ensures
        r@ == dev_null(),
{
    let mut v: Vec<u8> = Vec::new();
    v.push(0x2f);
    v.push(0x64);
    v.push(0x65);
    v.push(0x76);
    v.push(0x2f);
    v.push(0x6e);
    v.push(0x75);
    v.push(0x6c);
    v.push(0x6c);
    assert(v@ =~= dev_null());
    v
}

/// The job for one entry: an added file is shown against `/dev/null` from
/// the build tree, a removed file against `/dev/null` from the installed
/// tree, and a file both trees hold from the build tree against its
/// installed copy.
pub fn diff_job(context: &Context, entry: &DiffEntry) -> (r: DiffJob)
    ensures
        entry.kind == DiffKind::Added ==> r.workdir@ == context.build_dir@ && r.old@ == dev_null()
            && r.new@ == rel_bytes(entry.file@),
        entry.kind == DiffKind::Removed ==> r.workdir@ == context.install_dir@ && r.old@
            == rel_bytes(entry.file@) && r.new@ == dev_null(),
        entry.kind == DiffKind::Both ==> r.workdir@ == context.build_dir@ && r.old@ == push_bytes(
            context.install_dir@,
            rel_bytes(entry.file@),
        ) && r.new@ == rel_bytes(entry.file@),
{
    let file = entry.file.to_bytes();
    match entry.kind {
        DiffKind::Added => DiffJob {
            workdir: crate::path::copy_bytes(context.build_dir.as_slice()),
            old: dev_null_exec(),
            new: file,
        },
        DiffKind::Removed => DiffJob {
            workdir: crate::path::copy_bytes(context.install_dir.as_slice()),
            old: file,
            new: dev_null_exec(),
        },
        DiffKind::Both => {
            let installed = push_path(context.install_dir.as_slice(), file.as_slice());
            DiffJob {
                workdir: crate::path::copy_bytes(context.build_dir.as_slice()),
                old: installed,
                new: file,
            }
        },
    }
}

} // verus!
