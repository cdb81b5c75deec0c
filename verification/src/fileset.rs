//! A set of relative paths, kept in ascending order without repeats.
use vstd::prelude::*;

use crate::order::{
    Order, path_lt, lemma_path_lt_irreflexive, lemma_path_lt_total, lemma_path_lt_transitive,
};
use crate::relpath::RelPath;
use crate::filter::{Filter, filter_allows, filter_of, passes};

verus! {

/// Whether a list of paths ascends strictly.
pub open spec fn sorted_paths(s: Seq<Seq<Seq<u8>>>) -> bool {
    forall|i: int, j: int| 0 <= i < j < s.len() ==> path_lt(s[i], s[j])
}

/// The paths that a list of relative paths holds.
pub open spec fn paths_view(v: Seq<RelPath>) -> Seq<Seq<Seq<u8>>> {
    Seq::new(v.len(), |i: int| v[i]@)
}

/// A set of relative paths.
#[derive(Debug)]
pub struct FileSet {
    paths: Vec<RelPath>,
}

impl View for FileSet {
    type V = Set<Seq<Seq<u8>>>;

    closed spec fn view(&self) -> Set<Seq<Seq<u8>>> {
        self.items().to_set()
    }
}

/// A strictly ascending list holds no path twice.
pub proof fn lemma_sorted_no_duplicates(s: Seq<Seq<Seq<u8>>>)
    requires
        sorted_paths(s),
    ensures
        s.no_duplicates(),
{
    assert forall|i: int, j: int| 0 <= i < s.len() && 0 <= j < s.len() && i != j implies s[i]
        != s[j] by {
        if i < j {
            assert(path_lt(s[i], s[j]));
        } else {
            assert(path_lt(s[j], s[i]));
        }
        lemma_path_lt_irreflexive(s[i]);
    }
}

impl FileSet {
    /// The paths of the set in ascending order.
    pub closed spec fn items(&self) -> Seq<Seq<Seq<u8>>> {
        paths_view(self.paths@)
    }

    /// The paths ascend strictly.
    pub closed spec fn wf(&self) -> bool {
        sorted_paths(self.items())
    }

    /// What the ordered list of a well-formed set is.
    pub proof fn lemma_items(&self)
        requires
            self.wf(),
        ensures
            sorted_paths(self.items()),
            self.items().no_duplicates(),
            self.items().to_set() == self@,
            self@.finite(),
            self@.len() == self.items().len(),
    {
        lemma_sorted_no_duplicates(self.items());
        self.items().unique_seq_to_set();
    }

    /// The empty set.
    pub fn new() -> (r: FileSet)
        ensures
            r.wf(),
            r@ == Set::<Seq<Seq<u8>>>::empty(),
            r.items() == Seq::<Seq<Seq<u8>>>::empty(),
    {
        let r = FileSet { paths: Vec::new() };
        assert(r.items() =~= Seq::<Seq<Seq<u8>>>::empty());
        assert(r@ =~= Set::<Seq<Seq<u8>>>::empty());
        r
    }

    /// The number of paths in the set.
    pub fn len(&self) -> (r: usize)
        requires
            self.wf(),
        ensures
            r == self@.len(),
            r == self.items().len(),
    {
        proof {
            self.lemma_items();
        }
        self.paths.len()
    }

    /// The path at position `i` in ascending order.
    pub fn get(&self, i: usize) -> (r: &RelPath)
        requires
            i < self.items().len(),
        ensures
            r@ == self.items()[i as int],
    {
        &self.paths[i]
    }

    /// The paths of the set in ascending order.
    pub fn paths(&self) -> (r: &Vec<RelPath>)
        ensures
            paths_view(r@) == self.items(),
    {
        &self.paths
    }

    /// Where `p` is, or where it would go.
    fn search(&self, p: &RelPath) -> (r: (bool, usize))
        requires
            self.wf(),
        ensures
            r.1 <= self.items().len(),
            r.0 ==> r.1 < self.items().len() && self.items()[r.1 as int] == p@,
            !r.0 ==> forall|k: int| 0 <= k < r.1 ==> path_lt(#[trigger] self.items()[k], p@),
            !r.0 ==> forall|k: int|
                r.1 <= k < self.items().len() ==> path_lt(p@, #[trigger] self.items()[k]),
    {
        let ghost s = self.items();
        let mut lo: usize = 0;
        let mut hi: usize = self.paths.len();
        while lo < hi
            invariant
                s == self.items(),
                sorted_paths(s),
                lo <= hi <= s.len(),
                s.len() == self.paths.len(),
                forall|k: int| 0 <= k < lo ==> path_lt(#[trigger] s[k], p@),
                forall|k: int| hi <= k < s.len() ==> path_lt(p@, #[trigger] s[k]),
            decreases hi - lo,
        {
            let mid = lo + (hi - lo) / 2;
            let o = self.paths[mid].compare(p);
            assert(self.paths@[mid as int]@ == s[mid as int]);
            match o {
                Order::Equal => {
                    return (true, mid);
                },
                Order::Less => {
                    assert forall|k: int| 0 <= k < mid + 1 implies path_lt(#[trigger] s[k], p@) by {
                        if k < mid {
                            lemma_path_lt_transitive(s[k], s[mid as int], p@);
                        }
                    }
                    lo = mid + 1;
                },
                Order::Greater => {
                    proof {
                        lemma_path_lt_total(s[mid as int], p@);
                    }
                    assert forall|k: int| mid <= k < s.len() implies path_lt(p@, #[trigger] s[k]) by {
                        if k > mid {
                            lemma_path_lt_transitive(p@, s[mid as int], s[k]);
                        }
                    }
                    hi = mid;
                },
            }
        }
        (false, lo)
    }

    /// Whether the set holds `p`.
    pub fn contains(&self, p: &RelPath) -> (r: bool)
        requires
            self.wf(),
        ensures
            r == self@.contains(p@),
    {
        let (found, at) = self.search(p);
        let ghost s = self.items();
        if found {
            assert(s.contains(p@)) by {
                assert(s[at as int] == p@);
            }
        } else {
            assert(!s.contains(p@)) by {
                if s.contains(p@) {
                    let k = choose|k: int| 0 <= k < s.len() && s[k] == p@;
                    lemma_path_lt_irreflexive(p@);
                    if k < at {
                        assert(path_lt(s[k], p@));
                    } else {
                        assert(path_lt(p@, s[k]));
                    }
                }
            }
        }
        found
    }

    /// The paths at the positions that `keep` marks, in the same order.
    pub fn select(&self, keep: &Vec<bool>) -> (r: FileSet)
        requires
            self.wf(),
            keep.len() == self.items().len(),
        ensures
            r.wf(),
            r@ == Set::new(
                |x: Seq<Seq<u8>>|
                    exists|i: int| 0 <= i < keep.len() && keep@[i] && self.items()[i] == x,
            ),
    {
        let ghost s = self.items();
        let mut out: Vec<RelPath> = Vec::new();
        let ghost mut idx: Seq<int> = Seq::empty();
        let mut i: usize = 0;
        while i < self.paths.len()
            invariant
                s == self.items(),
                sorted_paths(s),
                keep.len() == s.len(),
                s.len() == self.paths.len(),
                i <= s.len(),
                idx.len() == out.len(),
                forall|k: int| 0 <= k < idx.len() ==> 0 <= #[trigger] idx[k] < i,
                forall|k: int| 0 <= k < idx.len() ==> keep@[#[trigger] idx[k]],
                forall|k: int|
                    0 <= k < idx.len() ==> #[trigger] paths_view(out@)[k] == s[idx[k]],
                forall|a: int, b: int| 0 <= a < b < idx.len() ==> idx[a] < idx[b],
                forall|j: int|
                    0 <= j < i && keep@[j] ==> exists|k: int|
                        0 <= k < idx.len() && #[trigger] idx[k] == j,
            decreases s.len() - i,
        {
            if keep[i] {
                let q = self.paths[i].clone_path();
                assert(q@ == s[i as int]);
                let ghost before = paths_view(out@);
                out.push(q);
                assert(paths_view(out@) =~= before.push(s[i as int]));
                proof {
                    let old_idx = idx;
                    idx = idx.push(i as int);
                    assert forall|j: int| 0 <= j < i + 1 && keep@[j] implies exists|k: int|
                        0 <= k < idx.len() && #[trigger] idx[k] == j by {
                        if j == i {
                            assert(idx[old_idx.len() as int] == j);
                        } else {
                            let k = choose|k: int| 0 <= k < old_idx.len() && #[trigger] old_idx[k] == j;
                            assert(idx[k] == j);
                        }
                    }
                }
            }
            i = i + 1;
        }
        let r = FileSet { paths: out };
        let ghost v = r.items();
        assert forall|a: int, b: int| 0 <= a < b < v.len() implies path_lt(v[a], v[b]) by {
            assert(v[a] == s[idx[a]]);
            assert(v[b] == s[idx[b]]);
        }
        assert forall|x: Seq<Seq<u8>>| v.contains(x) <==> exists|i: int|
            0 <= i < keep.len() && keep@[i] && s[i] == x by {
            if v.contains(x) {
                let k = choose|k: int| 0 <= k < v.len() && v[k] == x;
                assert(s[idx[k]] == x && keep@[idx[k]]);
            }
            if exists|i: int| 0 <= i < keep.len() && keep@[i] && s[i] == x {
                let i = choose|i: int| 0 <= i < keep.len() && keep@[i] && s[i] == x;
                let k = choose|k: int| 0 <= k < idx.len() && #[trigger] idx[k] == i;
                assert(v[k] == x);
            }
        }
        assert(r@ =~= Set::new(
            |x: Seq<Seq<u8>>| exists|i: int| 0 <= i < keep.len() && keep@[i] && s[i] == x,
        ));
        r
    }

    /// A copy of the set.
    pub fn clone_set(&self) -> (r: FileSet)
        requires
            self.wf(),
        ensures
            r.wf(),
            r@ == self@,
            r.items() == self.items(),
    {
        let mut out: Vec<RelPath> = Vec::new();
        let mut i: usize = 0;
        while i < self.paths.len()
            invariant
                i <= self.paths.len(),
                paths_view(out@) == self.items().take(i as int),
            decreases self.paths.len() - i,
        {
            let ghost before = paths_view(out@);
            let q = self.paths[i].clone_path();
            assert(q@ == self.items()[i as int]);
            out.push(q);
            assert(paths_view(out@) =~= before.push(self.items()[i as int]));
            assert(self.items().take(i + 1) =~= self.items().take(i as int).push(
                self.items()[i as int],
            ));
            i = i + 1;
        }
        assert(self.items().take(self.paths.len() as int) =~= self.items());
        FileSet { paths: out }
    }

    /// The paths of this set that `other` does not hold.
    pub fn difference(&self, other: &FileSet) -> (r: FileSet)
        requires
            self.wf(),
            other.wf(),
        ensures
            r.wf(),
            r@ == self@.difference(other@),
    {
        let mut keep: Vec<bool> = Vec::new();
        let mut i: usize = 0;
        while i < self.paths.len()
            invariant
                i <= self.paths.len(),
                other.wf(),
                keep.len() == i,
                forall|j: int|
                    0 <= j < i ==> #[trigger] keep@[j] == !other@.contains(self.items()[j]),
            decreases self.paths.len() - i,
        {
            let c = other.contains(&self.paths[i]);
            keep.push(!c);
            i = i + 1;
        }
        let r = self.select(&keep);
        proof {
            self.lemma_items();
        }
        assert(r@ =~= self@.difference(other@));
        r
    }

    /// The paths of this set that `other` holds too.
    pub fn intersect(&self, other: &FileSet) -> (r: FileSet)
        requires
            self.wf(),
            other.wf(),
        ensures
            r.wf(),
            r@ == self@.intersect(other@),
    {
        let mut keep: Vec<bool> = Vec::new();
        let mut i: usize = 0;
        while i < self.paths.len()
            invariant
                i <= self.paths.len(),
                other.wf(),
                keep.len() == i,
                forall|j: int|
                    0 <= j < i ==> #[trigger] keep@[j] == other@.contains(self.items()[j]),
            decreases self.paths.len() - i,
        {
            let c = other.contains(&self.paths[i]);
            keep.push(c);
            i = i + 1;
        }
        let r = self.select(&keep);
        proof {
            self.lemma_items();
        }
        assert(r@ =~= self@.intersect(other@));
        r
    }

    /// The paths of this set that pass the filter.
    pub fn filter_by(&self, f: &Filter) -> (r: FileSet)
        requires
            self.wf(),
        ensures
            r.wf(),
            r@ == self@.filter(|p: Seq<Seq<u8>>| filter_allows(f@, p)),
    {
        let mut keep: Vec<bool> = Vec::new();
        let mut i: usize = 0;
        while i < self.paths.len()
            invariant
                i <= self.paths.len(),
                keep.len() == i,
                forall|j: int|
                    0 <= j < i ==> #[trigger] keep@[j] == filter_allows(f@, self.items()[j]),
            decreases self.paths.len() - i,
        {
            let a = f.allows(&self.paths[i]);
            keep.push(a);
            i = i + 1;
        }
        let r = self.select(&keep);
        proof {
            self.lemma_items();
        }
        assert(r@ =~= self@.filter(|p: Seq<Seq<u8>>| filter_allows(f@, p)));
        r
    }

    /// The paths of this set that pass an optional filter written as a path.
    pub fn filtered(&self, filter: &Option<String>) -> (r: FileSet)
        requires
            self.wf(),
        ensures
            r.wf(),
            r@ == self@.filter(|p: Seq<Seq<u8>>| passes(filter_of(*filter), p)),
    {
        match filter {
            Some(text) => {
                let f = Filter::parse(text.as_str());
                let r = self.filter_by(&f);
                assert(r@ =~= self@.filter(|p: Seq<Seq<u8>>| passes(filter_of(*filter), p)));
                r
            },
            None => {
                let r = self.clone_set();
                assert(r@ =~= self@.filter(|p: Seq<Seq<u8>>| passes(filter_of(*filter), p)));
                r
            },
        }
    }

    /// Adds every path of `other` to this set.
    pub fn extend(&mut self, other: &FileSet)
        requires
            old(self).wf(),
            other.wf(),
        ensures
            final(self).wf(),
            final(self)@ == old(self)@.union(other@),
    {
        let ghost start = self@;
        let ghost o = other.items();
        let mut i: usize = 0;
        while i < other.paths.len()
            invariant
                i <= other.paths.len(),
                o == other.items(),
                self.wf(),
                self@ == start.union(o.take(i as int).to_set()),
            decreases other.paths.len() - i,
        {
            let q = other.paths[i].clone_path();
            self.insert(q);
            proof {
                let t0 = o.take(i as int);
                let t1 = o.take(i + 1);
                assert forall|x| t1.to_set().contains(x) implies t0.to_set().insert(
                    o[i as int],
                ).contains(x) by {
                    let k = choose|k: int| 0 <= k < t1.len() && t1[k] == x;
                    if k < i {
                        assert(t0[k] == x);
                    }
                }
                assert forall|x| t0.to_set().insert(o[i as int]).contains(x) implies t1.to_set().contains(
                    x,
                ) by {
                    if x == o[i as int] {
                        assert(t1[i as int] == x);
                    } else {
                        let k = choose|k: int| 0 <= k < t0.len() && t0[k] == x;
                        assert(t1[k] == x);
                    }
                }
                assert(t1.to_set() =~= t0.to_set().insert(o[i as int]));
            }
            assert(self@ =~= start.union(o.take(i + 1).to_set()));
            i = i + 1;
        }
        proof {
            other.lemma_items();
        }
        assert(o.take(other.paths.len() as int) =~= o);
    }

    /// Adds `p` to the set.
    pub fn insert(&mut self, p: RelPath)
        requires
            old(self).wf(),
        ensures
            final(self).wf(),
            final(self)@ == old(self)@.insert(p@),
    {
        let (found, at) = self.search(&p);
        let ghost s = self.items();
        let ghost pv = p@;
        if found {
            assert(s.to_set().insert(pv) =~= s.to_set()) by {
                assert(s[at as int] == pv);
            }
            return;
        }
        self.paths.insert(at, p);
        let ghost t = self.items();
        assert(t =~= s.insert(at as int, pv));
        assert forall|i: int, j: int| 0 <= i < j < t.len() implies path_lt(t[i], t[j]) by {
            if j < at {
                assert(t[i] == s[i] && t[j] == s[j]);
            } else if j == at {
                assert(t[i] == s[i]);
            } else if i < at {
                assert(t[i] == s[i] && t[j] == s[j - 1]);
                lemma_path_lt_transitive(s[i], pv, s[j - 1]);
            } else if i == at {
                assert(t[j] == s[j - 1]);
            } else {
                assert(t[i] == s[i - 1] && t[j] == s[j - 1]);
            }
        }
        assert(t.to_set() =~= s.to_set().insert(pv)) by {
            assert forall|x| t.to_set().contains(x) implies s.to_set().insert(pv).contains(x) by {
                let k = choose|k: int| 0 <= k < t.len() && t[k] == x;
                if k < at {
                    assert(s[k] == x);
                } else if k > at {
                    assert(s[k - 1] == x);
                }
            }
            assert forall|x| s.to_set().insert(pv).contains(x) implies t.to_set().contains(x) by {
                if x == pv {
                    assert(t[at as int] == pv);
                } else {
                    let k = choose|k: int| 0 <= k < s.len() && s[k] == x;
                    if k < at {
                        assert(t[k] == x);
                    } else {
                        assert(t[k + 1] == x);
                    }
                }
            }
        }
    }
}

} // verus!
