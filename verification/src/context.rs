//! Where the trees live: the repository of dotfiles, the tree built from it,
//! the installed copy, and the directory where links to the installed files go.
use vstd::prelude::*;

use crate::order::{compare_bytes, Order};
use crate::path::{push_bytes, push_path};
#[allow(unused_imports)]
use vstd::string::StringExecFns;
use vstd::utf8::encode_utf8;

verus! {

/// The directories that the commands work on, as paths written in bytes,
/// and the names of the directories that a walk of a tree passes over.
#[derive(Debug)]
pub struct Context {
    pub source_dir: Vec<u8>,
    pub build_dir: Vec<u8>,
    pub install_dir: Vec<u8>,
    pub link_dir: Vec<u8>,
    pub ignored_dirs: Vec<String>,
}

/// The bytes of each name in a list of names.
pub open spec fn ignored_names(ign: Seq<String>) -> Seq<Seq<u8>> {
    Seq::new(ign.len(), |i: int| encode_utf8(ign[i]@))
}

/// The name `.git` as bytes.
pub open spec fn git_name() -> Seq<u8> {
    seq![0x2eu8, 0x67u8, 0x69u8, 0x74u8]
}

/// The name of the directory that holds a tree inside the cache and
/// configuration directories: `tree`.
pub open spec fn tree_dir_name() -> Seq<u8> {
    seq![0x74u8, 0x72u8, 0x65u8, 0x65u8]
}

impl Context {
    /// Whether a walk passes over entries named `name`.
    pub fn is_ignored(&self, name: &[u8]) -> (r: bool)
        ensures
            r == ignored_names(self.ignored_dirs@).contains(name@),
    {
        let ghost ign = ignored_names(self.ignored_dirs@);
        let mut i: usize = 0;
        while i < self.ignored_dirs.len()
            invariant
                i <= self.ignored_dirs.len(),
                ign == ignored_names(self.ignored_dirs@),
                forall|j: int| 0 <= j < i ==> ign[j] != name@,
            decreases self.ignored_dirs.len() - i,
        {
            let o = compare_bytes(self.ignored_dirs[i].as_str().as_bytes(), name);
            match o {
                Order::Equal => {
                    assert(ign[i as int] == name@);
                    return true;
                },
                _ => {},
            }
            i = i + 1;
        }
        false
    }
}

/// The context for a repository at `repo_path`: a relative repository path
/// is taken from the home directory; the built tree and the installed tree
/// are the directories named `tree` in the cache and configuration
/// directories; links go into the home directory; walks pass over `.git`.
pub fn build_context(repo_path: &[u8], home_dir: &[u8], cache_dir: &[u8], config_dir: &[u8]) -> (r:
    Context)
    ensures
        r.source_dir@ == push_bytes(home_dir@, repo_path@),
        r.build_dir@ == push_bytes(cache_dir@, tree_dir_name()),
        r.install_dir@ == push_bytes(config_dir@, tree_dir_name()),
        r.link_dir@ == home_dir@,
        ignored_names(r.ignored_dirs@) == seq![git_name()],
{
    let mut tree: Vec<u8> = Vec::new();
    tree.push(0x74);
    tree.push(0x72);
    tree.push(0x65);
    tree.push(0x65);
    assert(tree@ =~= tree_dir_name());
    let source_dir = push_path(home_dir, repo_path);
    let build_dir = push_path(cache_dir, tree.as_slice());
    let install_dir = push_path(config_dir, tree.as_slice());
    let link_dir = crate::path::copy_bytes(home_dir);
    let mut ignored_dirs: Vec<String> = Vec::new();
    let git = String::from_str(".git");
    proof {
        reveal_strlit(".git");
        assert(vstd::utf8::is_ascii_chars(git@));
        vstd::utf8::is_ascii_chars_encode_utf8(git@);
        assert(encode_utf8(git@) =~= git_name());
    }
    ignored_dirs.push(git);
    assert(ignored_names(ignored_dirs@) =~= seq![git_name()]);
    Context { source_dir, build_dir, install_dir, link_dir, ignored_dirs }
}

} // verus!
