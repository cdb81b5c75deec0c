//! Paths relative to the root of a tree: a list of file names.
use vstd::prelude::*;

use crate::order::{compare_bytes, path_lt, path_order, Order, lemma_path_lt_total};
use crate::path::{copy_bytes, push_bytes, push_path};

verus! {

/// A path relative to the root of a tree, held as the list of its names.
#[derive(Debug)]
pub struct RelPath {
    parts: Vec<Vec<u8>>,
}

/// The bytes of each name in a list of names.
pub open spec fn parts_view(parts: Seq<Vec<u8>>) -> Seq<Seq<u8>> {
    Seq::new(parts.len(), |i: int| parts[i]@)
}

/// The path written from a list of names, each pushed onto the path so far.
pub open spec fn rel_bytes(p: Seq<Seq<u8>>) -> Seq<u8>
    decreases p.len(),
{
    if p.len() == 0 {
        Seq::empty()
    } else {
        push_bytes(rel_bytes(p.drop_last()), p.last())
    }
}

impl View for RelPath {
    type V = Seq<Seq<u8>>;

    closed spec fn view(&self) -> Seq<Seq<u8>> {
        parts_view(self.parts@)
    }
}

impl RelPath {
    /// The empty path: the root of the tree itself.
    pub fn new() -> (r: RelPath)
        ensures
            r@ == Seq::<Seq<u8>>::empty(),
    {
        let r = RelPath { parts: Vec::new() };
        assert(r@ =~= Seq::<Seq<u8>>::empty());
        r
    }

    /// The path made of the given names.
    pub fn from_parts(parts: Vec<Vec<u8>>) -> (r: RelPath)
        ensures
            r@ == parts_view(parts@),
    {
        RelPath { parts }
    }

    /// The names of the path.
    pub fn parts(&self) -> (r: &Vec<Vec<u8>>)
        ensures
            parts_view(r@) == self@,
    {
        &self.parts
    }

    /// The number of names in the path.
    pub fn len(&self) -> (r: usize)
        ensures
            r == self@.len(),
    {
        self.parts.len()
    }

    /// The path written as bytes (see `rel_bytes`).
    pub fn to_bytes(&self) -> (r: Vec<u8>)
        ensures
            r@ == rel_bytes(self@),
    {
        let ghost v = self@;
        let mut out: Vec<u8> = Vec::new();
        assert(v.take(0) =~= Seq::<Seq<u8>>::empty());
        let mut i: usize = 0;
        while i < self.parts.len()
            invariant
                i <= self.parts.len(),
                v == self@,
                v == parts_view(self.parts@),
                out@ == rel_bytes(v.take(i as int)),
            decreases self.parts.len() - i,
        {
            out = push_path(out.as_slice(), self.parts[i].as_slice());
            assert(v.take(i + 1).drop_last() =~= v.take(i as int));
            i = i + 1;
        }
        assert(v.take(self.parts.len() as int) =~= v);
        out
    }

    /// A copy of the path.
    pub fn clone_path(&self) -> (r: RelPath)
        ensures
            r@ == self@,
    {
        let mut parts: Vec<Vec<u8>> = Vec::new();
        let mut i: usize = 0;
        while i < self.parts.len()
            invariant
                i <= self.parts.len(),
                parts_view(parts@) == parts_view(self.parts@).take(i as int),
            decreases self.parts.len() - i,
        {
            let ghost before = parts_view(parts@);
            parts.push(copy_bytes(self.parts[i].as_slice()));
            assert(parts_view(parts@) =~= before.push(self.parts@[i as int]@));
            assert(parts_view(self.parts@).take(i + 1) =~= parts_view(self.parts@).take(
                i as int,
            ).push(self.parts@[i as int]@));
            i = i + 1;
        }
        assert(parts_view(self.parts@).take(self.parts.len() as int) =~= parts_view(
            self.parts@,
        ));
        RelPath { parts }
    }

    /// The path with one more name at its end.
    pub fn join(&self, name: &[u8]) -> (r: RelPath)
        ensures
            r@ == self@.push(name@),
    {
        let mut r = self.clone_path();
        let ghost before = r@;
        r.parts.push(copy_bytes(name));
        assert(r@ =~= before.push(name@));
        r
    }

    /// The path without its last name; `None` for the empty path.
    pub fn parent(&self) -> (r: Option<RelPath>)
        ensures
            self@.len() == 0 ==> r is None,
            self@.len() > 0 ==> (r matches Some(p) && p@ == self@.drop_last()),
    {
        if self.parts.len() == 0 {
            None
        } else {
            let mut p = self.clone_path();
            let ghost before = p@;
            p.parts.pop();
            assert(p@ =~= before.drop_last());
            Some(p)
        }
    }

    /// Compares two paths name by name.
    pub fn compare(&self, other: &RelPath) -> (r: Order)
        ensures
            r == path_order(self@, other@),
    {
        let a = &self.parts;
        let b = &other.parts;
        let ghost av = self@;
        let ghost bv = other@;
        proof {
            lemma_path_lt_total(av, bv);
        }
        assert(av.skip(0) =~= av);
        assert(bv.skip(0) =~= bv);
        let mut i: usize = 0;
        while i < a.len() && i < b.len()
            invariant
                i <= a.len(),
                i <= b.len(),
                av == parts_view(a@),
                bv == parts_view(b@),
                av == self@,
                bv == other@,
                forall|j: int| 0 <= j < i ==> av[j] == bv[j],
                path_lt(av, bv) == path_lt(av.skip(i as int), bv.skip(i as int)),
                (av == bv) == (av.skip(i as int) == bv.skip(i as int)),
            decreases a.len() - i,
        {
            let o = compare_bytes(a[i].as_slice(), b[i].as_slice());
            let ghost sa = av.skip(i as int);
            let ghost sb = bv.skip(i as int);
            assert(sa[0] == av[i as int]);
            assert(sb[0] == bv[i as int]);
            assert(sa.len() > 0 && sb.len() > 0);
            match o {
                Order::Less => {
                    assert(sa[0] != sb[0]);
                    assert(path_lt(sa, sb) == crate::order::bytes_lt(sa[0], sb[0]));
                    assert(sa != sb);
                    return Order::Less;
                },
                Order::Greater => {
                    proof {
                        crate::order::lemma_bytes_lt_total(sa[0], sb[0]);
                    }
                    assert(sa[0] != sb[0]);
                    assert(path_lt(sa, sb) == crate::order::bytes_lt(sa[0], sb[0]));
                    assert(sa != sb);
                    assert(av != bv);
                    return Order::Greater;
                },
                Order::Equal => {},
            }
            assert(sa.drop_first() =~= av.skip(i + 1));
            assert(sb.drop_first() =~= bv.skip(i + 1));
            proof {
                if sa.drop_first() == sb.drop_first() {
                    crate::order::lemma_seq_eq_from_first(sa, sb);
                }
            }
            i = i + 1;
        }
        let ghost sa = av.skip(i as int);
        let ghost sb = bv.skip(i as int);
        if a.len() == b.len() {
            assert(sa =~= sb);
            Order::Equal
        } else if i == a.len() {
            assert(sa.len() == 0);
            assert(sa != sb);
            Order::Less
        } else {
            assert(sb.len() == 0);
            assert(sa != sb);
            Order::Greater
        }
    }
}

} // verus!
