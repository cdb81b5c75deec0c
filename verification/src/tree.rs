//! The files of a tree read all at once, where any error fails the whole
//! read and only entries named `.git` are passed over.
use vstd::prelude::*;

use crate::fileset::FileSet;
use crate::listing::{Entry, EntryKind, IoError, Listing, entry_count};
use crate::relpath::RelPath;
use crate::utils::{
    entries_of, found_under, lemma_shifted_empty, lemma_shifted_insert, lemma_shifted_union, shifted,
    walk_entries, walk_listing, with_other_at,
};
use crate::context::git_name;

verus! {

/// The files found under a directory whose path in the tree is `prefix`, or
/// `None` when any read under it (outside `.git`) failed.
pub open spec fn strict_walk(l: Listing, prefix: Seq<Seq<u8>>) -> Option<Set<Seq<Seq<u8>>>>
    decreases l, entry_count(l) + 1,
{
    match l {
        Listing::Unreadable(_) => None,
        Listing::Read(v, stop) => match strict_entries(l, v.len() as nat, prefix) {
            Some(s) => if stop is Some {
                None
            } else {
                Some(s)
            },
            None => None,
        },
    }
}

/// The files found under the first `n` entries of a directory, or `None`
/// when a read under them failed.
pub open spec fn strict_entries(l: Listing, n: nat, prefix: Seq<Seq<u8>>) -> Option<
    Set<Seq<Seq<u8>>>,
>
    decreases l, n,
{
    match l {
        Listing::Read(v, _) => if n == 0 || n > v.len() {
            Some(Set::empty())
        } else {
            match strict_entries(l, (n - 1) as nat, prefix) {
                None => None,
                Some(s) => {
                    let entry = v[n - 1];
                    match entry.kind {
                        EntryKind::Unknown(_) => None,
                        EntryKind::Dir(sub) => if entry.name@ == git_name() {
                            Some(s)
                        } else {
                            match strict_walk(sub, prefix.push(entry.name@)) {
                                None => None,
                                Some(t) => Some(s.union(t)),
                            }
                        },
                        EntryKind::File => if entry.name@ == git_name() {
                            Some(s)
                        } else {
                            Some(s.insert(prefix.push(entry.name@)))
                        },
                        EntryKind::Other => Some(s),
                    }
                },
            }
        },
        Listing::Unreadable(_) => Some(Set::empty()),
    }
}

proof fn lemma_strict_entries_none(l: Listing, n: nat, m: nat, prefix: Seq<Seq<u8>>)
    requires
        n <= m <= entry_count(l),
        strict_entries(l, n, prefix) is None,
    ensures
        strict_entries(l, m, prefix) is None,
    decreases m - n,
{
    if m > n {
        lemma_strict_entries_none(l, n, (m - 1) as nat, prefix);
    }
}

proof fn lemma_found_under_git_child(p: Seq<Seq<u8>>, prefix: Seq<Seq<u8>>, name: Seq<u8>)
    requires
        found_under(p, prefix.push(name), seq![git_name()]),
        name != git_name(),
    ensures
        found_under(p, prefix, seq![git_name()]),
{
    let n = prefix.len() as int;
    assert(p.take(n + 1)[n] == name);
    assert(p[n] == name);
    assert(!seq![git_name()].contains(name)) by {
        if seq![git_name()].contains(name) {
            let k = choose|k: int| 0 <= k < 1 && seq![git_name()][k] == name;
        }
    }
    assert(p.take(n) =~= p.take(n + 1).take(n));
    assert(prefix.push(name).take(n) =~= prefix);
}

/// Every file that a read of the whole tree finds lies below the directory
/// read, and no directory or file on its path below it is named `.git`.
pub proof fn law_strict_walk_skips_git(l: Listing, prefix: Seq<Seq<u8>>)
    ensures
        strict_walk(l, prefix) matches Some(s) ==> forall|p: Seq<Seq<u8>>|
            #[trigger] s.contains(p) ==> found_under(p, prefix, seq![git_name()]),
    decreases l, entry_count(l) + 1,
{
    match l {
        Listing::Read(v, _) => {
            lemma_strict_entries_skip_git(l, v.len() as nat, prefix);
        },
        Listing::Unreadable(_) => {},
    }
}

proof fn lemma_strict_entries_skip_git(l: Listing, n: nat, prefix: Seq<Seq<u8>>)
    ensures
        strict_entries(l, n, prefix) matches Some(s) ==> forall|p: Seq<Seq<u8>>|
            #[trigger] s.contains(p) ==> found_under(p, prefix, seq![git_name()]),
    decreases l, n,
{
    match l {
        Listing::Read(v, _) => {
            if n == 0 || n > v.len() {
            } else {
                lemma_strict_entries_skip_git(l, (n - 1) as nat, prefix);
                let entry = v[n - 1];
                match entry.kind {
                    EntryKind::Dir(sub) => {
                        if entry.name@ != git_name() {
                            law_strict_walk_skips_git(sub, prefix.push(entry.name@));
                            if strict_entries(l, n, prefix) is Some {
                                let t = strict_walk(sub, prefix.push(entry.name@))->Some_0;
                                assert forall|p: Seq<Seq<u8>>| #[trigger] t.contains(p) implies found_under(
                                    p,
                                    prefix,
                                    seq![git_name()],
                                ) by {
                                    lemma_found_under_git_child(p, prefix, entry.name@);
                                }
                            }
                        }
                    },
                    EntryKind::File => {
                        let q = prefix.push(entry.name@);
                        assert(q.take(prefix.len() as int) =~= prefix);
                        if entry.name@ != git_name() {
                            assert(!seq![git_name()].contains(entry.name@)) by {
                                if seq![git_name()].contains(entry.name@) {
                                    let k = choose|k: int|
                                        0 <= k < 1 && seq![git_name()][k] == entry.name@;
                                }
                            }
                        }
                    },
                    _ => {},
                }
            }
        },
        Listing::Unreadable(_) => {},
    }
}

proof fn lemma_only_git(name: Seq<u8>)
    ensures
        seq![git_name()].contains(name) <==> name == git_name(),
{
    if name == git_name() {
        assert(seq![git_name()][0] == name);
    }
}

/// Where a read of the whole tree succeeds, it finds the same files as the
/// walk that passes over `.git` and tolerates unreadable directories.
pub proof fn law_strict_walk_agrees_with_walk(l: Listing, prefix: Seq<Seq<u8>>)
    ensures
        strict_walk(l, prefix) matches Some(s) ==> walk_listing(l, prefix, seq![git_name()]) == Ok::<
            Set<Seq<Seq<u8>>>,
            IoError,
        >(s),
    decreases l, entry_count(l) + 1,
{
    match l {
        Listing::Read(v, _) => {
            lemma_strict_entries_agree(l, v.len() as nat, prefix);
        },
        Listing::Unreadable(_) => {},
    }
}

proof fn lemma_strict_entries_agree(l: Listing, n: nat, prefix: Seq<Seq<u8>>)
    ensures
        strict_entries(l, n, prefix) matches Some(s) ==> walk_entries(
            l,
            n,
            prefix,
            seq![git_name()],
        ) == Ok::<Set<Seq<Seq<u8>>>, IoError>(s),
    decreases l, n,
{
    match l {
        Listing::Read(v, _) => {
            if n == 0 || n > v.len() {
            } else {
                lemma_strict_entries_agree(l, (n - 1) as nat, prefix);
                let entry = v[n - 1];
                lemma_only_git(entry.name@);
                match entry.kind {
                    EntryKind::Dir(sub) => {
                        law_strict_walk_agrees_with_walk(sub, prefix.push(entry.name@));
                    },
                    _ => {},
                }
            }
        },
        Listing::Unreadable(_) => {},
    }
}

/// The outcome of a whole read with `p` put in front of every file found.
pub open spec fn shifted_some(r: Option<Set<Seq<Seq<u8>>>>, p: Seq<Seq<u8>>) -> Option<
    Set<Seq<Seq<u8>>>,
> {
    match r {
        Some(s) => Some(shifted(s, p)),
        None => None,
    }
}

/// Reading a directory below `p + q` finds the files that reading it below
/// `q` finds, each with `p` put in front, and fails exactly when that fails.
pub proof fn lemma_strict_shift(l: Listing, p: Seq<Seq<u8>>, q: Seq<Seq<u8>>)
    ensures
        strict_walk(l, p + q) == shifted_some(strict_walk(l, q), p),
    decreases l, entry_count(l) + 1,
{
    match l {
        Listing::Read(v, _) => {
            lemma_strict_entries_shift(l, v.len() as nat, p, q);
        },
        Listing::Unreadable(_) => {},
    }
}

proof fn lemma_strict_entries_shift(l: Listing, n: nat, p: Seq<Seq<u8>>, q: Seq<Seq<u8>>)
    ensures
        strict_entries(l, n, p + q) == shifted_some(strict_entries(l, n, q), p),
    decreases l, n,
{
    match l {
        Listing::Read(v, _) => {
            if n == 0 || n > v.len() {
                lemma_shifted_empty(p);
            } else {
                lemma_strict_entries_shift(l, (n - 1) as nat, p, q);
                let entry = v[n - 1];
                assert((p + q).push(entry.name@) =~= p + q.push(entry.name@));
                if let Some(s) = strict_entries(l, (n - 1) as nat, q) {
                    match entry.kind {
                        EntryKind::Dir(sub) => {
                            if entry.name@ != git_name() {
                                lemma_strict_shift(sub, p, q.push(entry.name@));
                                if let Some(t) = strict_walk(sub, q.push(entry.name@)) {
                                    lemma_shifted_union(s, t, p);
                                }
                            }
                        },
                        EntryKind::File => {
                            lemma_shifted_insert(s, q.push(entry.name@), p);
                        },
                        _ => {},
                    }
                }
            }
        },
        Listing::Unreadable(_) => {
            lemma_shifted_empty(p);
        },
    }
}

/// Reading a directory below `prefix` finds exactly the files that reading
/// it from the root of a tree finds, each with `prefix` put in front, and
/// fails exactly when that read fails.
pub proof fn law_strict_walk_below_prefix(l: Listing, prefix: Seq<Seq<u8>>)
    ensures
        strict_walk(l, prefix) == shifted_some(strict_walk(l, Seq::empty()), prefix),
{
    lemma_strict_shift(l, prefix, Seq::empty());
    assert(prefix + Seq::<Seq<u8>>::empty() =~= prefix);
}

proof fn lemma_strict_entries_other(l: Listing, l2: Listing, k: int, n: nat, prefix: Seq<Seq<u8>>)
    requires
        with_other_at(l, l2, k),
        n <= entries_of(l2).len(),
    ensures
        n <= k ==> strict_entries(l2, n, prefix) == strict_entries(l, n, prefix),
        n > k ==> strict_entries(l2, n, prefix) == strict_entries(l, (n - 1) as nat, prefix),
    decreases n,
{
    if n > 0 {
        lemma_strict_entries_other(l, l2, k, (n - 1) as nat, prefix);
        let v = entries_of(l);
        let v2 = entries_of(l2);
        if n - 1 < k {
            assert(v2[n - 1] == v[n - 1]);
        } else if n - 1 > k {
            assert(v2[n - 1] == v[n - 2]);
        }
    }
}

/// An entry that is neither a file nor a directory, such as a symbolic link,
/// changes nothing about a read of the whole tree, wherever it was read: the
/// read finds the same files, and fails exactly when it fails without it.
pub proof fn law_strict_walk_passes_over_other(
    l: Listing,
    l2: Listing,
    k: int,
    prefix: Seq<Seq<u8>>,
)
    requires
        with_other_at(l, l2, k),
    ensures
        strict_walk(l2, prefix) == strict_walk(l, prefix),
{
    lemma_strict_entries_other(l, l2, k, entries_of(l2).len(), prefix);
}

/// Whether the files `s` that a read of the whole tree found hold what the
/// entry `e` of the directory at `prefix` gives: a file not named `.git` is
/// found, and a directory not named `.git` is read with success and all it
/// holds is found.
pub open spec fn strict_entry_found(e: Entry, s: Set<Seq<Seq<u8>>>, prefix: Seq<Seq<u8>>) -> bool {
    &&& (e.kind is File && e.name@ != git_name()) ==> s.contains(prefix.push(e.name@))
    &&& (e.kind is Dir && e.name@ != git_name()) ==> (strict_walk(
        e.kind->Dir_0,
        prefix.push(e.name@),
    ) matches Some(t) && t.subset_of(s))
}

proof fn lemma_strict_entries_grow(l: Listing, m: nat, n: nat, prefix: Seq<Seq<u8>>)
    requires
        m <= n <= entries_of(l).len(),
    ensures
        strict_entries(l, n, prefix) matches Some(s) ==> (strict_entries(l, m, prefix) matches Some(
            r,
        ) && r.subset_of(s)),
    decreases n - m,
{
    if m < n {
        lemma_strict_entries_grow(l, m, (n - 1) as nat, prefix);
    }
}

/// Where a read of the whole tree succeeds, it finds every file of the
/// directory read that is not named `.git`, and everything under each of its
/// directories not named `.git`, whatever other entries it holds.
pub proof fn law_strict_walk_finds_every_entry(l: Listing, prefix: Seq<Seq<u8>>)
    ensures
        strict_walk(l, prefix) matches Some(s) ==> forall|i: int|
            0 <= i < entries_of(l).len() ==> strict_entry_found(
                #[trigger] entries_of(l)[i],
                s,
                prefix,
            ),
{
    if l is Read {
        let v = entries_of(l);
        if strict_walk(l, prefix) is Some {
            let s = strict_walk(l, prefix)->Some_0;
            assert forall|i: int| 0 <= i < v.len() implies strict_entry_found(
                #[trigger] v[i],
                s,
                prefix,
            ) by {
                lemma_strict_entries_grow(l, (i + 1) as nat, v.len(), prefix);
            }
        }
    }
}

/// Whether everything under a directory can be read: it can be opened, its
/// entries are read to the end, the kind of each entry is known, and each
/// directory in it not named `.git` can be read in turn.
pub open spec fn strict_readable(l: Listing) -> bool
    decreases l,
{
    match l {
        Listing::Unreadable(_) => false,
        Listing::Read(v, stop) => stop is None && forall|i: int|
            0 <= i < v.len() ==> match (#[trigger] v[i]).kind {
                EntryKind::Unknown(_) => false,
                EntryKind::Dir(sub) => v[i].name@ == git_name() || strict_readable(sub),
                _ => true,
            },
    }
}

proof fn lemma_strict_entries_readable(l: Listing, n: nat, prefix: Seq<Seq<u8>>)
    requires
        l is Read,
        n <= entries_of(l).len(),
    ensures
        strict_entries(l, n, prefix) is Some <==> forall|i: int|
            0 <= i < n ==> match (#[trigger] entries_of(l)[i]).kind {
                EntryKind::Unknown(_) => false,
                EntryKind::Dir(sub) => entries_of(l)[i].name@ == git_name() || strict_readable(sub),
                _ => true,
            },
    decreases l, n,
{
    if n > 0 {
        lemma_strict_entries_readable(l, (n - 1) as nat, prefix);
        let e = entries_of(l)[n - 1];
        if let EntryKind::Dir(sub) = e.kind {
            law_strict_walk_readable(sub, prefix.push(e.name@));
        }
    }
}

/// A read of the whole tree succeeds exactly when everything under it can be
/// read (see `strict_readable`): entries that are neither files nor
/// directories never make it fail.
pub proof fn law_strict_walk_readable(l: Listing, prefix: Seq<Seq<u8>>)
    ensures
        strict_walk(l, prefix) is Some <==> strict_readable(l),
    decreases l, entry_count(l) + 1,
{
    if l is Read {
        lemma_strict_entries_readable(l, entries_of(l).len(), prefix);
    }
}

/// The error of the first entry from position `j` on whose kind could not be read.
pub open spec fn first_unknown(s: Seq<Entry>, j: int) -> Option<IoError>
    decreases s.len() - j,
{
    if j < 0 || j >= s.len() {
        None
    } else {
        match s[j].kind {
            EntryKind::Unknown(e) => Some(e),
            _ => first_unknown(s, j + 1),
        }
    }
}

/// The error that reading a directory itself gave, before any directory below
/// it is read: the directory could not be opened, the kind of one of its
/// entries could not be read (the first such entry), or reading its entries
/// stopped on an error.
pub open spec fn own_error(l: Listing) -> Option<IoError> {
    match l {
        Listing::Unreadable(e) => Some(e),
        Listing::Read(v, stop) => match first_unknown(v@, 0) {
            Some(e) => Some(e),
            None => stop,
        },
    }
}

fn is_git(name: &Vec<u8>) -> (r: bool)
    ensures
        r == (name@ == git_name()),
{
    let r = name.len() == 4 && name[0] == 0x2e && name[1] == 0x67 && name[2] == 0x69 && name[3]
        == 0x74;
    if r {
        assert(name@ =~= git_name());
    }
    r
}

fn strict_into(l: &Listing, rel: &RelPath, files: &mut FileSet) -> (r: Result<(), IoError>)
    requires
        old(files).wf(),
    ensures
        final(files).wf(),
        r is Ok <==> strict_walk(*l, rel@) is Some,
        r is Ok ==> final(files)@ == old(files)@.union(strict_walk(*l, rel@)->Some_0),
        own_error(*l) matches Some(e) ==> r == Err::<(), IoError>(e),
    decreases l,
{
    match l {
        Listing::Unreadable(e) => Err(e.clone_error()),
        Listing::Read(v, stop) => {
            let mut j: usize = 0;
            while j < v.len()
                invariant
                    j <= v.len(),
                    files.wf(),
                    *l == Listing::Read(*v, *stop),
                    first_unknown(v@, 0) == first_unknown(v@, j as int),
                decreases v.len() - j,
            {
                if let EntryKind::Unknown(e) = &v[j].kind {
                    proof {
                        lemma_strict_entries_none(*l, (j + 1) as nat, v.len() as nat, rel@);
                    }
                    return Err(e.clone_error());
                }
                j = j + 1;
            }
            if let Some(e) = stop {
                return Err(e.clone_error());
            }
            assert(own_error(*l) is None);
            let ghost start = files@;
            assert(start.union(Set::empty()) =~= start);
            let mut i: usize = 0;
            while i < v.len()
                invariant
                    i <= v.len(),
                    files.wf(),
                    *l == Listing::Read(*v, *stop),
                    own_error(*l) is None,
                    strict_entries(*l, i as nat, rel@) matches Some(s) && files@ == start.union(s),
                decreases v.len() - i,
            {
                let entry: &Entry = &v[i];
                let ghost s = strict_entries(*l, i as nat, rel@)->Some_0;
                match &entry.kind {
                    EntryKind::Unknown(e) => {
                        proof {
                            lemma_strict_entries_none(*l, (i + 1) as nat, v.len() as nat, rel@);
                        }
                        return Err(e.clone_error());
                    },
                    EntryKind::Dir(sub) => {
                        if !is_git(&entry.name) {
                            let child = rel.join(entry.name.as_slice());
                            let res = strict_into(sub, &child, files);
                            match res {
                                Ok(_) => {
                                    let ghost t = strict_walk(*sub, child@)->Some_0;
                                    assert(files@ =~= start.union(s.union(t)));
                                },
                                Err(e) => {
                                    proof {
                                        lemma_strict_entries_none(
                                            *l,
                                            (i + 1) as nat,
                                            v.len() as nat,
                                            rel@,
                                        );
                                    }
                                    return Err(e);
                                },
                            }
                        }
                    },
                    EntryKind::File => {
                        if !is_git(&entry.name) {
                            let child = rel.join(entry.name.as_slice());
                            files.insert(child);
                            assert(files@ =~= start.union(s.insert(rel@.push(entry.name@))));
                        }
                    },
                    EntryKind::Other => {},
                }
                i = i + 1;
            }
            match stop {
                Some(e) => Err(e.clone_error()),
                None => Ok(()),
            }
        },
    }
}

/// The files of the tree whose reading gave `tree`, as paths relative to its
/// root (see `strict_walk`). Any failed read fails the whole call; which of
/// several errors comes back is not promised, except that an error of the
/// root directory's own reading (see `own_error`) comes back before any
/// directory below it is read.
pub fn get_tree_files(tree: &Listing) -> (r: Result<FileSet, IoError>)
    ensures
        r is Ok <==> strict_walk(*tree, Seq::empty()) is Some,
        r matches Ok(s) ==> s.wf() && Some(s@) == strict_walk(*tree, Seq::empty()),
        own_error(*tree) matches Some(e) ==> (r matches Err(f) && f == e),
{
    let mut files = FileSet::new();
    let root = RelPath::new();
    match strict_into(tree, &root, &mut files) {
        Ok(_) => {
            let ghost s = strict_walk(*tree, Seq::empty())->Some_0;
            assert(Set::<Seq<Seq<u8>>>::empty().union(s) =~= s);
            Ok(files)
        },
        Err(e) => Err(e),
    }
}

} // verus!
