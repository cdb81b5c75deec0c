//! The files of a tree, and the climb that removes directories left empty.
use vstd::prelude::*;

use crate::context::{Context, ignored_names};
use crate::fileset::FileSet;
use crate::listing::{Entry, EntryKind, IoError, IoErrorKind, Listing, entry_count};
use crate::path::{parent, parent_spec};
use crate::relpath::RelPath;

verus! {

/// The files found under a directory whose path in the tree is `prefix`:
/// a directory that may not be read holds nothing, any other error ends the
/// walk, and entries named in `ign` are passed over.
pub open spec fn walk_listing(l: Listing, prefix: Seq<Seq<u8>>, ign: Seq<Seq<u8>>) -> Result<
    Set<Seq<Seq<u8>>>,
    IoError,
>
    decreases l, entry_count(l) + 1,
{
    match l {
        Listing::Unreadable(e) => if e.kind == IoErrorKind::PermissionDenied {
            Ok(Set::empty())
        } else {
            Err(e)
        },
        Listing::Read(v, _) => walk_entries(l, v.len() as nat, prefix, ign),
    }
}

/// The files found under the first `n` entries of a directory.
pub open spec fn walk_entries(l: Listing, n: nat, prefix: Seq<Seq<u8>>, ign: Seq<Seq<u8>>) -> Result<
    Set<Seq<Seq<u8>>>,
    IoError,
>
    decreases l, n,
{
    match l {
        Listing::Read(v, _) => if n == 0 || n > v.len() {
            Ok(Set::empty())
        } else {
            match walk_entries(l, (n - 1) as nat, prefix, ign) {
                Err(e) => Err(e),
                Ok(s) => {
                    let entry = v[n - 1];
                    match entry.kind {
                        EntryKind::Unknown(e) => Err(e),
                        EntryKind::Dir(sub) => if ign.contains(entry.name@) {
                            Ok(s)
                        } else {
                            match walk_listing(sub, prefix.push(entry.name@), ign) {
                                Err(e) => Err(e),
                                Ok(t) => Ok(s.union(t)),
                            }
                        },
                        EntryKind::File => if ign.contains(entry.name@) {
                            Ok(s)
                        } else {
                            Ok(s.insert(prefix.push(entry.name@)))
                        },
                        EntryKind::Other => Ok(s),
                    }
                },
            }
        },
        Listing::Unreadable(_) => Ok(Set::empty()),
    }
}

/// Once the walk of the entries fails, it fails with the same error.
proof fn lemma_walk_entries_err(l: Listing, n: nat, m: nat, prefix: Seq<Seq<u8>>, ign: Seq<Seq<u8>>)
    requires
        n <= m <= entry_count(l),
        walk_entries(l, n, prefix, ign) is Err,
    ensures
        walk_entries(l, m, prefix, ign) == walk_entries(l, n, prefix, ign),
    decreases m - n,
{
    if m > n {
        lemma_walk_entries_err(l, n, (m - 1) as nat, prefix, ign);
    }
}

/// Whether `p` lies below the directory at `prefix` and has no name from
/// `ign` past it.
pub open spec fn found_under(p: Seq<Seq<u8>>, prefix: Seq<Seq<u8>>, ign: Seq<Seq<u8>>) -> bool {
    &&& p.len() > prefix.len()
    &&& p.take(prefix.len() as int) == prefix
    &&& forall|i: int| prefix.len() <= i < p.len() ==> !ign.contains(#[trigger] p[i])
}

proof fn lemma_found_under_child(p: Seq<Seq<u8>>, prefix: Seq<Seq<u8>>, name: Seq<u8>, ign: Seq<Seq<u8>>)
    requires
        found_under(p, prefix.push(name), ign),
        !ign.contains(name),
    ensures
        found_under(p, prefix, ign),
{
    let n = prefix.len() as int;
    assert(p.take(n + 1)[n] == name);
    assert(p[n] == name);
    assert(p.take(n) =~= p.take(n + 1).take(n));
    assert(prefix.push(name).take(n) =~= prefix);
}

/// Every file that a walk finds lies below the directory walked, and no name
/// on its path below that directory is one the walk passes over.
pub proof fn law_walk_skips_ignored(l: Listing, prefix: Seq<Seq<u8>>, ign: Seq<Seq<u8>>)
    ensures
        walk_listing(l, prefix, ign) matches Ok(s) ==> forall|p: Seq<Seq<u8>>|
            #[trigger] s.contains(p) ==> found_under(p, prefix, ign),
    decreases l, entry_count(l) + 1,
{
    match l {
        Listing::Read(v, _) => {
            lemma_walk_entries_skip_ignored(l, v.len() as nat, prefix, ign);
        },
        Listing::Unreadable(_) => {},
    }
}

proof fn lemma_walk_entries_skip_ignored(
    l: Listing,
    n: nat,
    prefix: Seq<Seq<u8>>,
    ign: Seq<Seq<u8>>,
)
    ensures
        walk_entries(l, n, prefix, ign) matches Ok(s) ==> forall|p: Seq<Seq<u8>>|
            #[trigger] s.contains(p) ==> found_under(p, prefix, ign),
    decreases l, n,
{
    match l {
        Listing::Read(v, _) => {
            if n == 0 || n > v.len() {
            } else {
                lemma_walk_entries_skip_ignored(l, (n - 1) as nat, prefix, ign);
                let entry = v[n - 1];
                match entry.kind {
                    EntryKind::Dir(sub) => {
                        if !ign.contains(entry.name@) {
                            law_walk_skips_ignored(sub, prefix.push(entry.name@), ign);
                            if walk_entries(l, n, prefix, ign) is Ok {
                                let t = walk_listing(sub, prefix.push(entry.name@), ign)->Ok_0;
                                assert forall|p: Seq<Seq<u8>>| #[trigger] t.contains(p) implies found_under(
                                    p,
                                    prefix,
                                    ign,
                                ) by {
                                    lemma_found_under_child(p, prefix, entry.name@, ign);
                                }
                            }
                        }
                    },
                    EntryKind::File => {
                        let q = prefix.push(entry.name@);
                        assert(q.take(prefix.len() as int) =~= prefix);
                    },
                    _ => {},
                }
            }
        },
        Listing::Unreadable(_) => {},
    }
}

/// The paths of `s`, each with `p` put in front.
pub open spec fn shifted(s: Set<Seq<Seq<u8>>>, p: Seq<Seq<u8>>) -> Set<Seq<Seq<u8>>> {
    Set::new(|x: Seq<Seq<u8>>| exists|q: Seq<Seq<u8>>| s.contains(q) && x == p + q)
}

/// The outcome of a walk with `p` put in front of every file found.
pub open spec fn shifted_result(r: Result<Set<Seq<Seq<u8>>>, IoError>, p: Seq<Seq<u8>>) -> Result<
    Set<Seq<Seq<u8>>>,
    IoError,
> {
    match r {
        Ok(s) => Ok(shifted(s, p)),
        Err(e) => Err(e),
    }
}

/// Nothing put in front of nothing.
pub proof fn lemma_shifted_empty(p: Seq<Seq<u8>>)
    ensures
        shifted(Set::empty(), p) == Set::<Seq<Seq<u8>>>::empty(),
{
    assert(shifted(Set::empty(), p) =~= Set::<Seq<Seq<u8>>>::empty());
}

/// Putting a prefix in front distributes over union.
pub proof fn lemma_shifted_union(s: Set<Seq<Seq<u8>>>, t: Set<Seq<Seq<u8>>>, p: Seq<Seq<u8>>)
    ensures
        shifted(s.union(t), p) == shifted(s, p).union(shifted(t, p)),
{
    assert forall|x: Seq<Seq<u8>>| shifted(s.union(t), p).contains(x) implies shifted(s, p).union(
        shifted(t, p),
    ).contains(x) by {
        let q = choose|q: Seq<Seq<u8>>| s.union(t).contains(q) && x == p + q;
        if s.contains(q) {
            assert(shifted(s, p).contains(x));
        } else {
            assert(shifted(t, p).contains(x));
        }
    }
    assert forall|x: Seq<Seq<u8>>| shifted(s, p).union(shifted(t, p)).contains(x) implies shifted(
        s.union(t),
        p,
    ).contains(x) by {
        if shifted(s, p).contains(x) {
            let q = choose|q: Seq<Seq<u8>>| s.contains(q) && x == p + q;
            assert(s.union(t).contains(q));
        } else {
            let q = choose|q: Seq<Seq<u8>>| t.contains(q) && x == p + q;
            assert(s.union(t).contains(q));
        }
    }
    assert(shifted(s.union(t), p) =~= shifted(s, p).union(shifted(t, p)));
}

/// Putting a prefix in front of one more path.
pub proof fn lemma_shifted_insert(s: Set<Seq<Seq<u8>>>, y: Seq<Seq<u8>>, p: Seq<Seq<u8>>)
    ensures
        shifted(s.insert(y), p) == shifted(s, p).insert(p + y),
{
    assert forall|x: Seq<Seq<u8>>| shifted(s.insert(y), p).contains(x) implies shifted(s, p).insert(
        p + y,
    ).contains(x) by {
        let q = choose|q: Seq<Seq<u8>>| s.insert(y).contains(q) && x == p + q;
        if q != y {
            assert(shifted(s, p).contains(x));
        }
    }
    assert forall|x: Seq<Seq<u8>>| shifted(s, p).insert(p + y).contains(x) implies shifted(
        s.insert(y),
        p,
    ).contains(x) by {
        if x == p + y {
            assert(s.insert(y).contains(y));
        } else {
            let q = choose|q: Seq<Seq<u8>>| s.contains(q) && x == p + q;
            assert(s.insert(y).contains(q));
        }
    }
    assert(shifted(s.insert(y), p) =~= shifted(s, p).insert(p + y));
}

/// Walking a directory below `p + q` finds the files that walking it below
/// `q` finds, each with `p` put in front, and fails with the same error.
pub proof fn lemma_walk_shift(l: Listing, p: Seq<Seq<u8>>, q: Seq<Seq<u8>>, ign: Seq<Seq<u8>>)
    ensures
        walk_listing(l, p + q, ign) == shifted_result(walk_listing(l, q, ign), p),
    decreases l, entry_count(l) + 1,
{
    match l {
        Listing::Read(v, _) => {
            lemma_walk_entries_shift(l, v.len() as nat, p, q, ign);
        },
        Listing::Unreadable(e) => {
            lemma_shifted_empty(p);
        },
    }
}

proof fn lemma_walk_entries_shift(
    l: Listing,
    n: nat,
    p: Seq<Seq<u8>>,
    q: Seq<Seq<u8>>,
    ign: Seq<Seq<u8>>,
)
    ensures
        walk_entries(l, n, p + q, ign) == shifted_result(walk_entries(l, n, q, ign), p),
    decreases l, n,
{
    match l {
        Listing::Read(v, _) => {
            if n == 0 || n > v.len() {
                lemma_shifted_empty(p);
            } else {
                lemma_walk_entries_shift(l, (n - 1) as nat, p, q, ign);
                let entry = v[n - 1];
                assert((p + q).push(entry.name@) =~= p + q.push(entry.name@));
                if let Ok(s) = walk_entries(l, (n - 1) as nat, q, ign) {
                    match entry.kind {
                        EntryKind::Dir(sub) => {
                            if !ign.contains(entry.name@) {
                                lemma_walk_shift(sub, p, q.push(entry.name@), ign);
                                if let Ok(t) = walk_listing(sub, q.push(entry.name@), ign) {
                                    lemma_shifted_union(s, t, p);
                                }
                            }
                        },
                        EntryKind::File => {
                            lemma_shifted_insert(s, q.push(entry.name@), p);
                        },
                        _ => {},
                    }
                }
            }
        },
        Listing::Unreadable(_) => {
            lemma_shifted_empty(p);
        },
    }
}

/// Walking a directory below `prefix` finds exactly the files that walking it
/// from the root of a tree finds, each with `prefix` put in front, and fails
/// exactly when that walk fails, with the same error.
pub proof fn law_walk_below_prefix(l: Listing, prefix: Seq<Seq<u8>>, ign: Seq<Seq<u8>>)
    ensures
        walk_listing(l, prefix, ign) == shifted_result(
            walk_listing(l, Seq::empty(), ign),
            prefix,
        ),
{
    lemma_walk_shift(l, prefix, Seq::empty(), ign);
    assert(prefix + Seq::<Seq<u8>>::empty() =~= prefix);
}

/// Whether no name of `p` past `prefix` is in `ign`.
pub open spec fn clear_of(p: Seq<Seq<u8>>, prefix: Seq<Seq<u8>>, ign: Seq<Seq<u8>>) -> bool {
    forall|i: int| prefix.len() <= i < p.len() ==> !ign.contains(#[trigger] p[i])
}

/// The files of `s` that pass no name of `ign` past `prefix`.
pub open spec fn clear_files(s: Set<Seq<Seq<u8>>>, prefix: Seq<Seq<u8>>, ign: Seq<Seq<u8>>) -> Set<
    Seq<Seq<u8>>,
> {
    s.filter(|p: Seq<Seq<u8>>| clear_of(p, prefix, ign))
}

/// Whether every name of `ign` is a name of `ign2`.
pub open spec fn names_subset(ign: Seq<Seq<u8>>, ign2: Seq<Seq<u8>>) -> bool {
    forall|n: Seq<u8>| ign.contains(n) ==> ign2.contains(n)
}

/// Passing over more names: where a walk succeeds, a walk that passes over a
/// larger set of names succeeds too, and finds the files of the first walk
/// whose path below the walked directory passes none of the names it ignores.
pub proof fn law_walk_ignoring_more(
    l: Listing,
    prefix: Seq<Seq<u8>>,
    ign: Seq<Seq<u8>>,
    ign2: Seq<Seq<u8>>,
)
    requires
        names_subset(ign, ign2),
    ensures
        walk_listing(l, prefix, ign) matches Ok(s) ==> walk_listing(l, prefix, ign2) == Ok::<
            Set<Seq<Seq<u8>>>,
            IoError,
        >(clear_files(s, prefix, ign2)),
    decreases l, entry_count(l) + 1,
{
    match l {
        Listing::Read(v, _) => {
            lemma_walk_entries_ignoring_more(l, v.len() as nat, prefix, ign, ign2);
        },
        Listing::Unreadable(_) => {
            assert(clear_files(Set::empty(), prefix, ign2) =~= Set::<Seq<Seq<u8>>>::empty());
        },
    }
}

proof fn lemma_walk_entries_ignoring_more(
    l: Listing,
    n: nat,
    prefix: Seq<Seq<u8>>,
    ign: Seq<Seq<u8>>,
    ign2: Seq<Seq<u8>>,
)
    requires
        names_subset(ign, ign2),
    ensures
        walk_entries(l, n, prefix, ign) matches Ok(s) ==> walk_entries(l, n, prefix, ign2) == Ok::<
            Set<Seq<Seq<u8>>>,
            IoError,
        >(clear_files(s, prefix, ign2)),
    decreases l, n,
{
    match l {
        Listing::Read(v, _) => {
            if n == 0 || n > v.len() {
                assert(clear_files(Set::empty(), prefix, ign2) =~= Set::<Seq<Seq<u8>>>::empty());
            } else {
                lemma_walk_entries_ignoring_more(l, (n - 1) as nat, prefix, ign, ign2);
                let entry = v[n - 1];
                let name = entry.name@;
                let x = prefix.push(name);
                let k = prefix.len() as int;
                if let Ok(s) = walk_entries(l, (n - 1) as nat, prefix, ign) {
                    let cs = clear_files(s, prefix, ign2);
                    match entry.kind {
                        EntryKind::Dir(sub) => {
                            if !ign.contains(name) {
                                law_walk_skips_ignored(sub, x, ign);
                                if let Ok(t) = walk_listing(sub, x, ign) {
                                    assert forall|y: Seq<Seq<u8>>| #[trigger] t.contains(y) implies y[k]
                                        == name && y.len() > k by {
                                        assert(found_under(y, x, ign));
                                        assert(y.take(k + 1)[k] == x[k]);
                                    }
                                    if ign2.contains(name) {
                                        assert(clear_files(s.union(t), prefix, ign2) =~= cs) by {
                                            assert forall|y: Seq<Seq<u8>>| #[trigger] t.contains(y)
                                                implies !clear_of(y, prefix, ign2) by {
                                                assert(ign2.contains(y[k]));
                                            }
                                        }
                                    } else {
                                        law_walk_ignoring_more(sub, x, ign, ign2);
                                        let ct = clear_files(t, x, ign2);
                                        assert forall|y: Seq<Seq<u8>>| #[trigger] t.contains(y)
                                            implies (clear_of(y, x, ign2) == clear_of(
                                            y,
                                            prefix,
                                            ign2,
                                        )) by {
                                            if clear_of(y, x, ign2) {
                                                assert forall|i: int|
                                                    prefix.len() <= i < y.len() implies !ign2.contains(
                                                    #[trigger] y[i],
                                                ) by {
                                                    if i == k {
                                                    } else {
                                                        assert(x.len() <= i);
                                                    }
                                                }
                                            }
                                        }
                                        assert(clear_files(s.union(t), prefix, ign2) =~= cs.union(
                                            ct,
                                        ));
                                    }
                                }
                            } else {
                                assert(ign2.contains(name));
                            }
                        },
                        EntryKind::File => {
                            if !ign.contains(name) {
                                assert(x[k] == name);
                                if ign2.contains(name) {
                                    assert(!clear_of(x, prefix, ign2));
                                    assert(clear_files(s.insert(x), prefix, ign2) =~= cs);
                                } else {
                                    assert(clear_of(x, prefix, ign2));
                                    assert(clear_files(s.insert(x), prefix, ign2) =~= cs.insert(x));
                                }
                            } else {
                                assert(ign2.contains(name));
                            }
                        },
                        _ => {},
                    }
                }
            }
        },
        Listing::Unreadable(_) => {
            assert(clear_files(Set::empty(), prefix, ign2) =~= Set::<Seq<Seq<u8>>>::empty());
        },
    }
}

/// The entries read from a directory, in order.
pub open spec fn entries_of(l: Listing) -> Seq<Entry> {
    match l {
        Listing::Read(v, _) => v@,
        Listing::Unreadable(_) => Seq::empty(),
    }
}

/// Whether `l2` is the reading `l` of a directory with one more entry, one
/// that is neither a file nor a directory (such as a symbolic link), read at
/// position `k`.
pub open spec fn with_other_at(l: Listing, l2: Listing, k: int) -> bool {
    &&& l is Read
    &&& l2 is Read
    &&& l2->Read_1 == l->Read_1
    &&& 0 <= k <= entries_of(l).len()
    &&& k < entries_of(l2).len()
    &&& entries_of(l2)[k].kind is Other
    &&& entries_of(l2) == entries_of(l).insert(k, entries_of(l2)[k])
}

proof fn lemma_walk_entries_other(
    l: Listing,
    l2: Listing,
    k: int,
    n: nat,
    prefix: Seq<Seq<u8>>,
    ign: Seq<Seq<u8>>,
)
    requires
        with_other_at(l, l2, k),
        n <= entries_of(l2).len(),
    ensures
        n <= k ==> walk_entries(l2, n, prefix, ign) == walk_entries(l, n, prefix, ign),
        n > k ==> walk_entries(l2, n, prefix, ign) == walk_entries(l, (n - 1) as nat, prefix, ign),
    decreases n,
{
    if n > 0 {
        lemma_walk_entries_other(l, l2, k, (n - 1) as nat, prefix, ign);
        let v = entries_of(l);
        let v2 = entries_of(l2);
        if n - 1 < k {
            assert(v2[n - 1] == v[n - 1]);
        } else if n - 1 > k {
            assert(v2[n - 1] == v[n - 2]);
        }
    }
}

/// An entry that is neither a file nor a directory, such as a symbolic link,
/// changes nothing about a walk, wherever it was read: the walk finds the
/// same files, or fails with the same error, as without it.
pub proof fn law_walk_passes_over_other(
    l: Listing,
    l2: Listing,
    k: int,
    prefix: Seq<Seq<u8>>,
    ign: Seq<Seq<u8>>,
)
    requires
        with_other_at(l, l2, k),
    ensures
        walk_listing(l2, prefix, ign) == walk_listing(l, prefix, ign),
{
    lemma_walk_entries_other(l, l2, k, entries_of(l2).len(), prefix, ign);
}

/// Whether the files `s` that a walk found hold what the entry `e` of the
/// walked directory at `prefix` gives: a file not passed over is found, and
/// a directory not passed over is walked with success and all it holds is
/// found.
pub open spec fn entry_found(
    e: Entry,
    s: Set<Seq<Seq<u8>>>,
    prefix: Seq<Seq<u8>>,
    ign: Seq<Seq<u8>>,
) -> bool {
    &&& (e.kind is File && !ign.contains(e.name@)) ==> s.contains(prefix.push(e.name@))
    &&& (e.kind is Dir && !ign.contains(e.name@)) ==> (walk_listing(
        e.kind->Dir_0,
        prefix.push(e.name@),
        ign,
    ) matches Ok(t) && t.subset_of(s))
}

proof fn lemma_walk_entries_grow(
    l: Listing,
    m: nat,
    n: nat,
    prefix: Seq<Seq<u8>>,
    ign: Seq<Seq<u8>>,
)
    requires
        m <= n <= entries_of(l).len(),
    ensures
        walk_entries(l, n, prefix, ign) matches Ok(s) ==> (walk_entries(l, m, prefix, ign) matches Ok(
            r,
        ) && r.subset_of(s)),
    decreases n - m,
{
    if m < n {
        lemma_walk_entries_grow(l, m, (n - 1) as nat, prefix, ign);
    }
}

/// Where a walk succeeds, it finds every file of the walked directory that
/// it does not pass over, and everything under each directory it goes into,
/// whatever other entries the directory holds and wherever they stand.
pub proof fn law_walk_finds_every_entry(l: Listing, prefix: Seq<Seq<u8>>, ign: Seq<Seq<u8>>)
    ensures
        walk_listing(l, prefix, ign) matches Ok(s) ==> forall|i: int|
            0 <= i < entries_of(l).len() ==> entry_found(
                #[trigger] entries_of(l)[i],
                s,
                prefix,
                ign,
            ),
{
    if l is Read {
        let v = entries_of(l);
        if walk_listing(l, prefix, ign) is Ok {
            let s = walk_listing(l, prefix, ign)->Ok_0;
            assert forall|i: int| 0 <= i < v.len() implies entry_found(
                #[trigger] v[i],
                s,
                prefix,
                ign,
            ) by {
                lemma_walk_entries_grow(l, (i + 1) as nat, v.len(), prefix, ign);
            }
        }
    }
}

/// Whether a walk that passes over the names of `ign` can read all it goes
/// into: a directory it may not open is one it is denied, and in each
/// directory it reads, the kind of every entry is known and every directory
/// it does not pass over can be walked in turn.
pub open spec fn walk_readable(l: Listing, ign: Seq<Seq<u8>>) -> bool
    decreases l,
{
    match l {
        Listing::Unreadable(e) => e.kind == IoErrorKind::PermissionDenied,
        Listing::Read(v, _) => forall|i: int|
            0 <= i < v.len() ==> match (#[trigger] v[i]).kind {
                EntryKind::Unknown(_) => false,
                EntryKind::Dir(sub) => ign.contains(v[i].name@) || walk_readable(sub, ign),
                _ => true,
            },
    }
}

proof fn lemma_walk_entries_readable(l: Listing, n: nat, prefix: Seq<Seq<u8>>, ign: Seq<Seq<u8>>)
    requires
        l is Read,
        n <= entries_of(l).len(),
    ensures
        walk_entries(l, n, prefix, ign) is Ok <==> forall|i: int|
            0 <= i < n ==> match (#[trigger] entries_of(l)[i]).kind {
                EntryKind::Unknown(_) => false,
                EntryKind::Dir(sub) => ign.contains(entries_of(l)[i].name@) || walk_readable(
                    sub,
                    ign,
                ),
                _ => true,
            },
    decreases l, n,
{
    if n > 0 {
        lemma_walk_entries_readable(l, (n - 1) as nat, prefix, ign);
        let v = entries_of(l);
        let e = v[n - 1];
        if let EntryKind::Dir(sub) = e.kind {
            law_walk_readable(sub, prefix.push(e.name@), ign);
        }
    }
}

/// A walk succeeds exactly when all it goes into can be read (see
/// `walk_readable`): entries that are neither files nor directories never
/// make it fail.
pub proof fn law_walk_readable(l: Listing, prefix: Seq<Seq<u8>>, ign: Seq<Seq<u8>>)
    ensures
        walk_listing(l, prefix, ign) is Ok <==> walk_readable(l, ign),
    decreases l, entry_count(l) + 1,
{
    if l is Read {
        lemma_walk_entries_readable(l, entries_of(l).len(), prefix, ign);
    }
}

/// Whether the outcome of a walk is the given result, with the files added to `before`.
pub open spec fn walk_outcome(
    r: Result<(), IoError>,
    w: Result<Set<Seq<Seq<u8>>>, IoError>,
    before: Set<Seq<Seq<u8>>>,
    after: Set<Seq<Seq<u8>>>,
) -> bool {
    match r {
        Ok(_) => w matches Ok(s) && after == before.union(s),
        Err(e) => w == Err::<Set<Seq<Seq<u8>>>, IoError>(e),
    }
}

/// Adds to `files` the files found under the directory at `rel`.
fn walk_into(context: &Context, l: &Listing, rel: &RelPath, files: &mut FileSet) -> (r: Result<
    (),
    IoError,
>)
    requires
        old(files).wf(),
    ensures
        final(files).wf(),
        walk_outcome(
            r,
            walk_listing(*l, rel@, ignored_names(context.ignored_dirs@)),
            old(files)@,
            final(files)@,
        ),
    decreases l,
{
    let ghost ign = ignored_names(context.ignored_dirs@);
    match l {
        Listing::Unreadable(e) => {
            if e.kind == IoErrorKind::PermissionDenied {
                assert(files@.union(Set::empty()) =~= files@);
                Ok(())
            } else {
                Err(e.clone_error())
            }
        },
        Listing::Read(v, _) => {
            let ghost start = files@;
            assert(start.union(Set::empty()) =~= start);
            let mut i: usize = 0;
            while i < v.len()
                invariant
                    i <= v.len(),
                    files.wf(),
                    ign == ignored_names(context.ignored_dirs@),
                    *l == Listing::Read(*v, l->Read_1),
                    walk_entries(*l, i as nat, rel@, ign) matches Ok(s) && files@ == start.union(s),
                decreases v.len() - i,
            {
                let entry: &Entry = &v[i];
                let ghost s = walk_entries(*l, i as nat, rel@, ign)->Ok_0;
                let ghost before = files@;
                match &entry.kind {
                    EntryKind::Unknown(e) => {
                        proof {
                            lemma_walk_entries_err(*l, (i + 1) as nat, v.len() as nat, rel@, ign);
                        }
                        return Err(e.clone_error());
                    },
                    EntryKind::Dir(sub) => {
                        if !context.is_ignored(entry.name.as_slice()) {
                            let child = rel.join(entry.name.as_slice());
                            let res = walk_into(context, sub, &child, files);
                            match res {
                                Ok(_) => {
                                    let ghost t = walk_listing(*sub, child@, ign)->Ok_0;
                                    assert(files@ =~= start.union(s.union(t)));
                                },
                                Err(e) => {
                                    proof {
                                        lemma_walk_entries_err(
                                            *l,
                                            (i + 1) as nat,
                                            v.len() as nat,
                                            rel@,
                                            ign,
                                        );
                                    }
                                    return Err(e);
                                },
                            }
                        }
                    },
                    EntryKind::File => {
                        if !context.is_ignored(entry.name.as_slice()) {
                            let child = rel.join(entry.name.as_slice());
                            files.insert(child);
                            assert(files@ =~= start.union(s.insert(rel@.push(entry.name@))));
                        }
                    },
                    EntryKind::Other => {},
                }
                i = i + 1;
            }
            Ok(())
        },
    }
}

/// The files of the tree whose reading gave `tree`, as paths relative to its
/// root: what `walk_listing` finds from the root, passing over the
/// directories that the context ignores.
pub fn get_tree_files(context: &Context, tree: &Listing) -> (r: Result<FileSet, IoError>)
    ensures
        match r {
            Ok(s) => s.wf() && walk_listing(*tree, Seq::empty(), ignored_names(context.ignored_dirs@))
                == Ok::<Set<Seq<Seq<u8>>>, IoError>(s@),
            Err(e) => walk_listing(*tree, Seq::empty(), ignored_names(context.ignored_dirs@)) == Err::<
                Set<Seq<Seq<u8>>>,
                IoError,
            >(e),
        },
{
    let mut files = FileSet::new();
    let root = RelPath::new();
    match walk_into(context, tree, &root, &mut files) {
        Ok(_) => {
            let ghost s = walk_listing(*tree, Seq::empty(), ignored_names(context.ignored_dirs@))->Ok_0;
            assert(Set::<Seq<Seq<u8>>>::empty().union(s) =~= s);
            Ok(files)
        },
        Err(e) => Err(e),
    }
}

/// What to do with a directory on the climb that removes empty directories.
#[derive(Debug)]
pub enum DirStep {
    /// The directory holds something: leave it, and stop.
    Stop,
    /// Remove the directory; it has no parent to go on to.
    RemoveAndStop,
    /// Remove the directory, then go on to its parent.
    RemoveThenVisit(Vec<u8>),
}

/// One step of removing the directory at `path` if it is empty, and then its
/// parent in turn: whether `path` is empty decides whether it goes, and its
/// parent (see `parent_spec`) is where the climb goes on.
pub fn remove_dir_if_empty(path: &[u8], is_empty: bool) -> (r: DirStep)
    ensures
        !is_empty ==> r is Stop,
        is_empty && parent_spec(path@) is None ==> r is RemoveAndStop,
        is_empty && parent_spec(path@) is Some ==> (r matches DirStep::RemoveThenVisit(q) && Some(q@)
            == parent_spec(path@)),
{
    if !is_empty {
        return DirStep::Stop;
    }
    let p = parent(path);
    match p {
        Some(q) => DirStep::RemoveThenVisit(q),
        None => DirStep::RemoveAndStop,
    }
}

} // verus!
