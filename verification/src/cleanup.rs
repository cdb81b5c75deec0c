//! Cleaning up: the links that point into the installed tree are removed.
//! The candidates are the lines that `find <link dir> -type l` prints, each
//! taken from the link directory; a candidate goes when the path it resolves
//! to lies in the installed tree.
use vstd::prelude::*;

use crate::context::Context;
use crate::path::{lemma_split_nonempty, lemma_split_take_step, path_starts_with, push_bytes,
    push_path, split_on, starts_with};
use vstd::utf8::valid_utf8;

verus! {

/// The line feed that ends a line.
pub open spec fn newline() -> u8 {
    0x0a
}

/// A line without the carriage return that ends it, if it has one.
pub open spec fn strip_cr(l: Seq<u8>) -> Seq<u8> {
    if l.len() > 0 && l.last() == 0x0d {
        l.drop_last()
    } else {
        l
    }
}

/// The lines of a text, as a buffered reader yields them: each line ended by
/// a line feed loses it and a carriage return before it; a last line without
/// a line feed is kept as it is unless it is empty.
pub open spec fn lines_of(out: Seq<u8>) -> Seq<Seq<u8>> {
    let pieces = split_on(out, newline());
    let done = Seq::new((pieces.len() - 1) as nat, |i: int| strip_cr(pieces[i]));
    if pieces.last().len() == 0 {
        done
    } else {
        done.push(pieces.last())
    }
}

/// The paths named by the lines that are well-formed UTF-8, each taken from
/// the link directory.
pub open spec fn link_candidates(link_dir: Seq<u8>, lines: Seq<Seq<u8>>) -> Seq<Seq<u8>>
    decreases lines.len(),
{
    if lines.len() == 0 {
        Seq::empty()
    } else {
        let r = link_candidates(link_dir, lines.drop_last());
        if valid_utf8(lines.last()) {
            r.push(push_bytes(link_dir, lines.last()))
        } else {
            r
        }
    }
}

/// The candidates are the lines that are well-formed UTF-8, kept in order,
/// each taken from the link directory.
pub proof fn law_candidates_are_valid_lines(link_dir: Seq<u8>, lines: Seq<Seq<u8>>)
    ensures
        link_candidates(link_dir, lines) == lines.filter(|l: Seq<u8>| valid_utf8(l)).map_values(
            |l: Seq<u8>| push_bytes(link_dir, l),
        ),
    decreases lines.len(),
{
    reveal(Seq::filter);
    if lines.len() > 0 {
        law_candidates_are_valid_lines(link_dir, lines.drop_last());
        let f = lines.drop_last().filter(|l: Seq<u8>| valid_utf8(l));
        if valid_utf8(lines.last()) {
            assert(f.push(lines.last()).map_values(|l: Seq<u8>| push_bytes(link_dir, l))
                =~= f.map_values(|l: Seq<u8>| push_bytes(link_dir, l)).push(
                push_bytes(link_dir, lines.last()),
            ));
        }
    } else {
        assert(lines.filter(|l: Seq<u8>| valid_utf8(l)).map_values(
            |l: Seq<u8>| push_bytes(link_dir, l),
        ) =~= Seq::<Seq<u8>>::empty());
    }
}

/// A single line yields its candidate exactly when it is well-formed UTF-8,
/// whatever bytes it holds.
pub proof fn law_candidate_of_one_line(link_dir: Seq<u8>, line: Seq<u8>)
    ensures
        valid_utf8(line) ==> link_candidates(link_dir, seq![line]) == seq![
            push_bytes(link_dir, line),
        ],
        !valid_utf8(line) ==> link_candidates(link_dir, seq![line]) == Seq::<Seq<u8>>::empty(),
{
    assert(seq![line].drop_last() =~= Seq::<Seq<u8>>::empty());
    assert(seq![line].last() == line);
    assert(link_candidates(link_dir, Seq::<Seq<u8>>::empty()) == Seq::<Seq<u8>>::empty());
    assert(Seq::<Seq<u8>>::empty().push(push_bytes(link_dir, line)) =~= seq![
        push_bytes(link_dir, line),
    ]);
}

/// The candidates of two runs of lines, one after the other, are those of the
/// first run followed by those of the second.
pub proof fn law_candidates_concat(link_dir: Seq<u8>, a: Seq<Seq<u8>>, b: Seq<Seq<u8>>)
    ensures
        link_candidates(link_dir, a + b) == link_candidates(link_dir, a) + link_candidates(
            link_dir,
            b,
        ),
    decreases b.len(),
{
    if b.len() == 0 {
        assert(a + b =~= a);
        assert(link_candidates(link_dir, a) + Seq::<Seq<u8>>::empty() =~= link_candidates(
            link_dir,
            a,
        ));
    } else {
        law_candidates_concat(link_dir, a, b.drop_last());
        assert((a + b).drop_last() =~= a + b.drop_last());
        assert((a + b).last() == b.last());
        let ca = link_candidates(link_dir, a);
        let cb = link_candidates(link_dir, b.drop_last());
        assert((ca + cb).push(push_bytes(link_dir, b.last())) =~= ca + cb.push(
            push_bytes(link_dir, b.last()),
        ));
    }
}

/// The bytes of each byte string of a list.
pub open spec fn bytes_view(v: Seq<Vec<u8>>) -> Seq<Seq<u8>> {
    Seq::new(v.len(), |i: int| v[i]@)
}

/// Whether `bytes` is well-formed UTF-8, as `std::str::from_utf8` tells.
#[verifier::external_body]
fn is_utf8(bytes: &[u8]) -> (r: bool)
    ensures
        r == valid_utf8(bytes@),
{
    std::str::from_utf8(bytes).is_ok()
}

fn strip_cr_exec(l: Vec<u8>) -> (r: Vec<u8>)
    ensures
        r@ == strip_cr(l@),
{
    let mut l = l;
    if l.len() > 0 && l[l.len() - 1] == 0x0d {
        let ghost before = l@;
        l.pop();
        assert(l@ =~= before.drop_last());
    }
    l
}

/// The lines of a text (see `lines_of`).
pub fn split_lines(out: &[u8]) -> (r: Vec<Vec<u8>>)
    ensures
        bytes_view(r@) == lines_of(out@),
{
    let mut done: Vec<Vec<u8>> = Vec::new();
    let mut cur: Vec<u8> = Vec::new();
    assert(out@.take(0) =~= Seq::<u8>::empty());
    assert(bytes_view(done@) =~= Seq::new(
        (split_on(out@.take(0), newline()).len() - 1) as nat,
        |j: int| strip_cr(split_on(out@.take(0), newline())[j]),
    ));
    let mut i: usize = 0;
    while i < out.len()
        invariant
            i <= out.len(),
            split_on(out@.take(i as int), newline()).len() >= 1,
            bytes_view(done@) == Seq::new(
                (split_on(out@.take(i as int), newline()).len() - 1) as nat,
                |j: int| strip_cr(split_on(out@.take(i as int), newline())[j]),
            ),
            cur@ == split_on(out@.take(i as int), newline()).last(),
        decreases out.len() - i,
    {
        proof {
            lemma_split_take_step(out@, i as int, newline());
            lemma_split_nonempty(out@.take(i + 1), newline());
        }
        let ghost s = split_on(out@.take(i as int), newline());
        let ghost t = split_on(out@.take(i + 1), newline());
        if out[i] == 0x0a {
            let line = strip_cr_exec(cur);
            cur = Vec::new();
            let ghost before = bytes_view(done@);
            let ghost lv = line@;
            done.push(line);
            assert(bytes_view(done@) =~= before.push(lv));
            assert(bytes_view(done@) =~= Seq::new(
                (t.len() - 1) as nat,
                |j: int| strip_cr(t[j]),
            )) by {
                assert forall|j: int| 0 <= j < t.len() - 1 implies t[j] == s[j] by {}
            }
        } else {
            cur.push(out[i]);
            assert(t.drop_last().len() == s.drop_last().len());
            assert(bytes_view(done@) =~= Seq::new(
                (t.len() - 1) as nat,
                |j: int| strip_cr(t[j]),
            )) by {
                assert forall|j: int| 0 <= j < t.len() - 1 implies t[j] == s[j] by {
                    assert(t.drop_last()[j] == s.drop_last()[j]);
                }
            }
        }
        i = i + 1;
        proof {
            lemma_split_nonempty(out@.take(i as int), newline());
        }
    }
    assert(out@.take(out.len() as int) =~= out@);
    if cur.len() > 0 {
        let ghost before = bytes_view(done@);
        let ghost last = cur@;
        done.push(cur);
        assert(bytes_view(done@) =~= before.push(last));
    }
    done
}

/// The paths of the links to look at, given the output of
/// `find <link dir> -type l`.
pub fn cleanup(context: &Context, find_output: &[u8]) -> (r: Vec<Vec<u8>>)
    ensures
        bytes_view(r@) == link_candidates(context.link_dir@, lines_of(find_output@)),
{
    let lines = split_lines(find_output);
    let ghost ls = bytes_view(lines@);
    let mut out: Vec<Vec<u8>> = Vec::new();
    let mut i: usize = 0;
    assert(ls.take(0) =~= Seq::<Seq<u8>>::empty());
    while i < lines.len()
        invariant
            i <= lines.len(),
            ls == bytes_view(lines@),
            bytes_view(out@) == link_candidates(context.link_dir@, ls.take(i as int)),
        decreases lines.len() - i,
    {
        assert(ls.take(i + 1).drop_last() =~= ls.take(i as int));
        assert(ls.take(i + 1).last() == lines@[i as int]@);
        if is_utf8(lines[i].as_slice()) {
            let p = push_path(context.link_dir.as_slice(), lines[i].as_slice());
            let ghost before = bytes_view(out@);
            let ghost pv = p@;
            out.push(p);
            assert(bytes_view(out@) =~= before.push(pv));
        }
        i = i + 1;
    }
    assert(ls.take(lines.len() as int) =~= ls);
    out
}

/// Whether a link whose target resolves to `target` points into the
/// installed tree, so that a cleanup removes it.
pub fn points_into_install(context: &Context, target: &[u8]) -> (r: bool)
    ensures
        r == path_starts_with(target@, context.install_dir@),
{
    starts_with(target, context.install_dir.as_slice())
}

} // verus!
