//! The filter that selects files by the start of their path: a file passes
//! when the components of the filter come first in its path. A filter with a
//! root, a leading `./` or a `..` names no file of a tree; an empty filter
//! lets every file pass.
use vstd::prelude::*;

use crate::path::{
    Comp, Component, comps_prefix, comps_view, components, path_components, path_starts_with, render,
    valid_name, wf_comps, lemma_render_components,
};
use crate::relpath::{RelPath, rel_bytes};
#[allow(unused_imports)]
use vstd::string::StringSliceAdditionalSpecFns;
use vstd::utf8::encode_utf8;

verus! {

/// The components of a file's path: each name is a normal component.
pub open spec fn rel_comps(p: Seq<Seq<u8>>) -> Seq<Comp> {
    Seq::new(p.len(), |i: int| Comp::Normal(p[i]))
}

/// Whether a file passes a filter with the given components.
pub open spec fn filter_allows(filter: Seq<Comp>, p: Seq<Seq<u8>>) -> bool {
    comps_prefix(filter, rel_comps(p))
}

/// The components of an optional filter given as text.
pub open spec fn filter_of(filter: Option<String>) -> Option<Seq<Comp>> {
    match filter {
        Some(f) => Some(components(encode_utf8(f@))),
        None => None,
    }
}

/// Whether a file passes an optional filter; every file passes no filter.
pub open spec fn passes(filter: Option<Seq<Comp>>, p: Seq<Seq<u8>>) -> bool {
    match filter {
        Some(f) => filter_allows(f, p),
        None => true,
    }
}

proof fn lemma_rel_bytes_render(p: Seq<Seq<u8>>)
    ensures
        rel_bytes(p) == render(rel_comps(p)),
    decreases p.len(),
{
    if p.len() > 0 {
        lemma_rel_bytes_render(p.drop_last());
        assert(rel_comps(p).drop_last() =~= rel_comps(p.drop_last()));
        assert(rel_comps(p).last() == Comp::Normal(p.last()));
    } else {
        assert(rel_comps(p) =~= Seq::<Comp>::empty());
    }
}

/// A file passes a filter exactly when its path, written out, starts with
/// the filter read as a path: component by component, as paths compare.
/// This holds for files whose names are valid names, as directories list them.
pub proof fn law_filter_is_path_prefix(p: Seq<Seq<u8>>, filter: Seq<u8>)
    requires
        forall|i: int| 0 <= i < p.len() ==> valid_name(#[trigger] p[i]),
    ensures
        filter_allows(components(filter), p) == path_starts_with(rel_bytes(p), filter),
{
    lemma_rel_bytes_render(p);
    let cs = rel_comps(p);
    assert(wf_comps(cs)) by {
        assert forall|i: int| 0 <= i < cs.len() implies (#[trigger] cs[i] matches Comp::Normal(n)
            ==> valid_name(n)) by {
            assert(cs[i] == Comp::Normal(p[i]));
        }
    }
    lemma_render_components(cs);
}

/// A filter on the paths of files.
#[derive(Debug)]
pub struct Filter {
    comps: Vec<Component>,
}

impl View for Filter {
    type V = Seq<Comp>;

    closed spec fn view(&self) -> Seq<Comp> {
        comps_view(self.comps@)
    }
}

impl Filter {
    /// The filter written as the path `filter`.
    pub fn parse(filter: &str) -> (r: Filter)
        ensures
            r@ == components(filter.spec_bytes()),
    {
        let comps = path_components(filter.as_bytes());
        Filter { comps }
    }

    /// Whether the file at `p` passes the filter.
    pub fn allows(&self, p: &RelPath) -> (r: bool)
        ensures
            r == filter_allows(self@, p@),
    {
        let parts = p.parts();
        let ghost pv = p@;
        if self.comps.len() > parts.len() {
            return false;
        }
        let mut i: usize = 0;
        while i < self.comps.len()
            invariant
                i <= self.comps.len() <= parts.len(),
                pv == crate::relpath::parts_view(parts@),
                pv == p@,
                forall|j: int| 0 <= j < i ==> self@[j] == rel_comps(pv)[j],
            decreases self.comps.len() - i,
        {
            let same = match &self.comps[i] {
                Component::Normal(n) => {
                    let o = crate::order::compare_bytes(n.as_slice(), parts[i].as_slice());
                    match o {
                        crate::order::Order::Equal => true,
                        _ => false,
                    }
                },
                _ => false,
            };
            if !same {
                assert(self@[i as int] != rel_comps(pv)[i as int]);
                return false;
            }
            i = i + 1;
        }
        true
    }
}

} // verus!
