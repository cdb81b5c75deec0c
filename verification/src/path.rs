//! Paths as byte strings, read the way Unix paths are read: split at `/`,
//! with empty and `.` segments dropped past the start, `..` kept as a step
//! to the parent, a leading `/` for the root and a leading `./` for the
//! current directory.
use vstd::prelude::*;

use crate::order::{compare_bytes, Order};

verus! {

/// What a component of a path means, as seen in specifications.
pub enum Comp {
    RootDir,
    CurDir,
    ParentDir,
    Normal(Seq<u8>),
}

/// One component of a path.
#[derive(Debug)]
pub enum Component {
    RootDir,
    CurDir,
    ParentDir,
    Normal(Vec<u8>),
}

impl View for Component {
    type V = Comp;

    open spec fn view(&self) -> Comp {
        match self {
            Component::RootDir => Comp::RootDir,
            Component::CurDir => Comp::CurDir,
            Component::ParentDir => Comp::ParentDir,
            Component::Normal(n) => Comp::Normal(n@),
        }
    }
}

/// The meaning of each component of a list of components.
pub open spec fn comps_view(v: Seq<Component>) -> Seq<Comp> {
    Seq::new(v.len(), |i: int| v[i]@)
}

pub open spec fn slash() -> u8 {
    0x2f
}

pub open spec fn dot() -> u8 {
    0x2e
}

pub open spec fn is_dot(s: Seq<u8>) -> bool {
    s.len() == 1 && s[0] == dot()
}

pub open spec fn is_dot_dot(s: Seq<u8>) -> bool {
    s.len() == 2 && s[0] == dot() && s[1] == dot()
}

/// The pieces of `b` between the separators `sep`; there is always at least one.
pub open spec fn split_on(b: Seq<u8>, sep: u8) -> Seq<Seq<u8>>
    decreases b.len(),
{
    if b.len() == 0 {
        seq![Seq::<u8>::empty()]
    } else {
        let s = split_on(b.drop_last(), sep);
        if b.last() == sep {
            s.push(Seq::<u8>::empty())
        } else {
            s.update(s.len() - 1, s.last().push(b.last()))
        }
    }
}

/// Appends what one piece between separators contributes to the components.
pub open spec fn normalize_step(r: Seq<Comp>, s: Seq<u8>) -> Seq<Comp> {
    if s.len() == 0 || is_dot(s) {
        r
    } else if is_dot_dot(s) {
        r.push(Comp::ParentDir)
    } else {
        r.push(Comp::Normal(s))
    }
}

/// The components that a list of pieces contributes.
pub open spec fn normalize(segs: Seq<Seq<u8>>) -> Seq<Comp>
    decreases segs.len(),
{
    if segs.len() == 0 {
        Seq::empty()
    } else {
        normalize_step(normalize(segs.drop_last()), segs.last())
    }
}

pub open spec fn has_root(b: Seq<u8>) -> bool {
    b.len() > 0 && b[0] == slash()
}

/// Whether the path starts with the current directory: `.` alone or `./`.
pub open spec fn starts_with_cur_dir(b: Seq<u8>) -> bool {
    (b.len() == 1 && b[0] == dot()) || (b.len() >= 2 && b[0] == dot() && b[1] == slash())
}

/// The components of a path.
pub open spec fn components(b: Seq<u8>) -> Seq<Comp> {
    let head = if has_root(b) {
        seq![Comp::RootDir]
    } else if starts_with_cur_dir(b) {
        seq![Comp::CurDir]
    } else {
        Seq::<Comp>::empty()
    };
    head + normalize(split_slash(b))
}

/// Whether the components of `prefix` come first in those of `path`.
pub open spec fn comps_prefix(prefix: Seq<Comp>, path: Seq<Comp>) -> bool {
    prefix.len() <= path.len() && forall|i: int| 0 <= i < prefix.len() ==> prefix[i] == path[i]
}

/// Whether the path `path` starts with the path `base`, component by component.
pub open spec fn path_starts_with(path: Seq<u8>, base: Seq<u8>) -> bool {
    comps_prefix(components(base), components(path))
}

/// The bytes that stand for a component that is not the root.
pub open spec fn comp_bytes(c: Comp) -> Seq<u8> {
    match c {
        Comp::RootDir => seq![slash()],
        Comp::CurDir => seq![dot()],
        Comp::ParentDir => seq![dot(), dot()],
        Comp::Normal(n) => n,
    }
}

/// Appends `p` to the path `base`: a path with a root replaces `base`, and a
/// separator goes between the two unless `base` is empty or ends in one.
pub open spec fn push_bytes(base: Seq<u8>, p: Seq<u8>) -> Seq<u8> {
    if has_root(p) {
        p
    } else if base.len() > 0 && base.last() != slash() {
        base + seq![slash()] + p
    } else {
        base + p
    }
}

/// The path written from a list of components.
pub open spec fn render(cs: Seq<Comp>) -> Seq<u8>
    decreases cs.len(),
{
    if cs.len() == 0 {
        Seq::empty()
    } else {
        push_bytes(render(cs.drop_last()), comp_bytes(cs.last()))
    }
}

/// Where the components start: past a leading `/` or a leading `.` that
/// stands for the current directory.
pub open spec fn body_start(b: Seq<u8>) -> int {
    if has_root(b) || starts_with_cur_dir(b) {
        1
    } else {
        0
    }
}

/// Where the last piece of `b.take(k)` past `bs` starts: just past its last
/// separator, or at `bs` when there is none.
pub open spec fn piece_start(b: Seq<u8>, bs: int, k: int) -> int
    decreases k - bs,
{
    if k <= bs {
        bs
    } else if b[k - 1] == slash() {
        k
    } else {
        piece_start(b, bs, k - 1)
    }
}

/// The length left once the last piece of `b.take(k)` and the separator
/// before it are cut off.
pub open spec fn cut_piece(b: Seq<u8>, bs: int, k: int) -> int {
    let st = piece_start(b, bs, k);
    if st > bs {
        st - 1
    } else {
        bs
    }
}

/// Where the last piece starts, and what cutting it leaves.
pub proof fn lemma_piece_start_bounds(b: Seq<u8>, bs: int, k: int)
    ensures
        k >= bs ==> bs <= piece_start(b, bs, k) <= k,
        k > bs ==> cut_piece(b, bs, k) < k,
        k >= bs ==> bs <= cut_piece(b, bs, k),
    decreases k - bs,
{
    if k > bs {
        lemma_piece_start_bounds(b, bs, k - 1);
    }
}

/// The length left once trailing pieces that are empty or `.` are cut off.
pub open spec fn trim_back(b: Seq<u8>, bs: int, k: int) -> int
    decreases k,
{
    if k <= bs || bs < 0 {
        k
    } else {
        let st = piece_start(b, bs, k);
        let piece = b.subrange(st, k);
        if piece.len() == 0 || is_dot(piece) {
            proof {
                lemma_piece_start_bounds(b, bs, k);
            }
            trim_back(b, bs, cut_piece(b, bs, k))
        } else {
            k
        }
    }
}

/// The parent of a path: the bytes up to its last component, with the
/// separators and `.` pieces before that component trimmed off; the empty
/// path for a path that is only the current directory; `None` for the root
/// and for a path without components.
pub open spec fn parent_spec(b: Seq<u8>) -> Option<Seq<u8>> {
    let bs = body_start(b);
    let k1 = trim_back(b, bs, b.len() as int);
    if k1 > bs {
        Some(b.take(trim_back(b, bs, cut_piece(b, bs, k1))))
    } else if !has_root(b) && starts_with_cur_dir(b) {
        Some(Seq::empty())
    } else {
        None
    }
}

/// The pieces of `b` between the separators `/`.
pub open spec fn split_slash(b: Seq<u8>) -> Seq<Seq<u8>> {
    split_on(b, slash())
}

/// There is always at least one piece.
pub proof fn lemma_split_nonempty(b: Seq<u8>, sep: u8)
    ensures
        split_on(b, sep).len() >= 1,
    decreases b.len(),
{
    if b.len() > 0 {
        lemma_split_nonempty(b.drop_last(), sep);
    }
}

/// How the pieces change when one more byte is read.
pub proof fn lemma_split_take_step(b: Seq<u8>, i: int, sep: u8)
    requires
        0 <= i < b.len(),
    ensures
        split_on(b.take(i), sep).len() >= 1,
        b[i] == sep ==> split_on(b.take(i + 1), sep) == split_on(b.take(i), sep).push(
            Seq::<u8>::empty(),
        ),
        b[i] != sep ==> split_on(b.take(i + 1), sep).drop_last() == split_on(
            b.take(i),
            sep,
        ).drop_last(),
        b[i] != sep ==> split_on(b.take(i + 1), sep).last() == split_on(b.take(i), sep).last().push(
            b[i],
        ),
{
    lemma_split_nonempty(b.take(i), sep);
    assert(b.take(i + 1).drop_last() =~= b.take(i));
    let s = split_on(b.take(i), sep);
    if b[i] != sep {
        assert(s.update(s.len() - 1, s.last().push(b[i])).drop_last() =~= s.drop_last());
    }
}

proof fn lemma_normalize_push(segs: Seq<Seq<u8>>, s: Seq<u8>)
    ensures
        normalize(segs.push(s)) == normalize_step(normalize(segs), s),
{
    assert(segs.push(s).drop_last() =~= segs);
}

fn is_dot_exec(s: &Vec<u8>) -> (r: bool)
    ensures
        r == is_dot(s@),
{
    s.len() == 1 && s[0] == 0x2e
}

fn is_dot_dot_exec(s: &Vec<u8>) -> (r: bool)
    ensures
        r == is_dot_dot(s@),
{
    s.len() == 2 && s[0] == 0x2e && s[1] == 0x2e
}

/// Appends to `comps` what the piece `seg` contributes.
fn push_segment(comps: &mut Vec<Component>, seg: Vec<u8>)
    ensures
        comps_view(final(comps)@) == normalize_step(comps_view(old(comps)@), seg@),
{
    let ghost before = comps_view(comps@);
    if seg.len() == 0 || is_dot_exec(&seg) {
    } else if is_dot_dot_exec(&seg) {
        comps.push(Component::ParentDir);
        assert(comps_view(comps@) =~= before.push(Comp::ParentDir));
    } else {
        let ghost n = seg@;
        comps.push(Component::Normal(seg));
        assert(comps_view(comps@) =~= before.push(Comp::Normal(n)));
    }
}

/// Splits a path into its components.
pub fn path_components(b: &[u8]) -> (r: Vec<Component>)
    ensures
        comps_view(r@) == components(b@),
{
    let mut comps: Vec<Component> = Vec::new();
    if b.len() > 0 && b[0] == 0x2f {
        comps.push(Component::RootDir);
    } else if (b.len() == 1 && b[0] == 0x2e) || (b.len() >= 2 && b[0] == 0x2e && b[1] == 0x2f) {
        comps.push(Component::CurDir);
    }
    let ghost head = comps_view(comps@);
    assert(b@.take(0) =~= Seq::<u8>::empty());
    assert(head + normalize(Seq::<Seq<u8>>::empty()) =~= head);
    let mut cur: Vec<u8> = Vec::new();
    let mut i: usize = 0;
    while i < b.len()
        invariant
            i <= b.len(),
            split_slash(b@.take(i as int)).len() >= 1,
            comps_view(comps@) == head + normalize(split_slash(b@.take(i as int)).drop_last()),
            cur@ == split_slash(b@.take(i as int)).last(),
        decreases b.len() - i,
    {
        proof {
            lemma_split_take_step(b@, i as int, slash());
        }
        let ghost s = split_slash(b@.take(i as int));
        if b[i] == 0x2f {
            let seg = cur;
            cur = Vec::new();
            let ghost prev = comps_view(comps@);
            push_segment(&mut comps, seg);
            proof {
                lemma_normalize_push(s.drop_last(), s.last());
                assert(s.drop_last().push(s.last()) =~= s);
                assert(split_slash(b@.take(i + 1)).drop_last() =~= s);
                assert(prev == head + normalize(s.drop_last()));
                assert(head + normalize(s) =~= head + normalize_step(normalize(s.drop_last()), s.last()));
                let r = normalize(s.drop_last());
                if s.last().len() == 0 || is_dot(s.last()) {
                } else if is_dot_dot(s.last()) {
                    assert(head + r.push(Comp::ParentDir) =~= (head + r).push(Comp::ParentDir));
                } else {
                    assert(head + r.push(Comp::Normal(s.last())) =~= (head + r).push(
                        Comp::Normal(s.last()),
                    ));
                }
            }
        } else {
            cur.push(b[i]);
        }
        i = i + 1;
        proof {
            lemma_split_nonempty(b@.take(i as int), slash());
        }
    }
    assert(b@.take(b.len() as int) =~= b@);
    let ghost s = split_slash(b@);
    let ghost prev = comps_view(comps@);
    proof {
        lemma_split_nonempty(b@, slash());
        lemma_normalize_push(s.drop_last(), s.last());
        assert(s.drop_last().push(s.last()) =~= s);
    }
    push_segment(&mut comps, cur);
    proof {
        let r = normalize(s.drop_last());
        if s.last().len() == 0 || is_dot(s.last()) {
        } else if is_dot_dot(s.last()) {
            assert(head + r.push(Comp::ParentDir) =~= (head + r).push(Comp::ParentDir));
        } else {
            assert(head + r.push(Comp::Normal(s.last())) =~= (head + r).push(
                Comp::Normal(s.last()),
            ));
        }
    }
    comps
}

/// Whether two components are the same.
pub fn same_component(a: &Component, b: &Component) -> (r: bool)
    ensures
        r == (a@ == b@),
{
    match (a, b) {
        (Component::RootDir, Component::RootDir) => true,
        (Component::CurDir, Component::CurDir) => true,
        (Component::ParentDir, Component::ParentDir) => true,
        (Component::Normal(x), Component::Normal(y)) => {
            let o = compare_bytes(x.as_slice(), y.as_slice());
            match o {
                Order::Equal => true,
                _ => false,
            }
        },
        _ => false,
    }
}

/// Whether the first components of `path` are those of `prefix`.
pub fn components_start_with(path: &Vec<Component>, prefix: &Vec<Component>) -> (r: bool)
    ensures
        r == comps_prefix(comps_view(prefix@), comps_view(path@)),
{
    if prefix.len() > path.len() {
        return false;
    }
    let mut i: usize = 0;
    while i < prefix.len()
        invariant
            i <= prefix.len() <= path.len(),
            forall|j: int| 0 <= j < i ==> comps_view(prefix@)[j] == comps_view(path@)[j],
        decreases prefix.len() - i,
    {
        if !same_component(&prefix[i], &path[i]) {
            assert(comps_view(prefix@)[i as int] != comps_view(path@)[i as int]);
            return false;
        }
        i = i + 1;
    }
    true
}

/// Whether the path `path` starts with the path `base`, component by component.
pub fn starts_with(path: &[u8], base: &[u8]) -> (r: bool)
    ensures
        r == path_starts_with(path@, base@),
{
    let pc = path_components(path);
    let bc = path_components(base);
    components_start_with(&pc, &bc)
}

/// The bytes that an optional path holds.
pub open spec fn opt_bytes(o: Option<Vec<u8>>) -> Option<Seq<u8>> {
    match o {
        Some(v) => Some(v@),
        None => None,
    }
}

/// Appends the bytes of `s` to `v`.
pub fn append_bytes(v: &mut Vec<u8>, s: &[u8])
    ensures
        final(v)@ == old(v)@ + s@,
{
    let ghost start = v@;
    let mut i: usize = 0;
    while i < s.len()
        invariant
            i <= s.len(),
            v@ == start + s@.take(i as int),
        decreases s.len() - i,
    {
        v.push(s[i]);
        i = i + 1;
        assert(v@ =~= start + s@.take(i as int));
    }
    assert(s@.take(s.len() as int) =~= s@);
}

/// A fresh copy of a byte string.
pub fn copy_bytes(s: &[u8]) -> (r: Vec<u8>)
    ensures
        r@ == s@,
{
    let mut v: Vec<u8> = Vec::new();
    append_bytes(&mut v, s);
    assert(v@ =~= s@);
    v
}

/// Appends `p` to the path `base` (see `push_bytes`).
pub fn push_path(base: &[u8], p: &[u8]) -> (r: Vec<u8>)
    ensures
        r@ == push_bytes(base@, p@),
{
    if p.len() > 0 && p[0] == 0x2f {
        copy_bytes(p)
    } else {
        let mut v = copy_bytes(base);
        if base.len() > 0 && base[base.len() - 1] != 0x2f {
            v.push(0x2f);
        }
        append_bytes(&mut v, p);
        v
    }
}

fn piece_start_exec(b: &[u8], bs: usize, k: usize) -> (r: usize)
    requires
        bs <= k <= b.len(),
    ensures
        r == piece_start(b@, bs as int, k as int),
{
    let mut i = k;
    while i > bs && b[i - 1] != 0x2f
        invariant
            bs <= i <= k <= b.len(),
            piece_start(b@, bs as int, k as int) == piece_start(b@, bs as int, i as int),
        decreases i,
    {
        i = i - 1;
    }
    i
}

fn cut_piece_exec(b: &[u8], bs: usize, k: usize) -> (r: usize)
    requires
        bs <= k <= b.len(),
    ensures
        r == cut_piece(b@, bs as int, k as int),
        bs <= r <= k,
{
    proof {
        lemma_piece_start_bounds(b@, bs as int, k as int);
    }
    let st = piece_start_exec(b, bs, k);
    if st > bs {
        st - 1
    } else {
        bs
    }
}

fn trim_back_exec(b: &[u8], bs: usize, k: usize) -> (r: usize)
    requires
        bs <= k <= b.len(),
    ensures
        r == trim_back(b@, bs as int, k as int),
        bs <= r <= k,
{
    let mut j = k;
    while j > bs
        invariant
            bs <= j <= k <= b.len(),
            trim_back(b@, bs as int, k as int) == trim_back(b@, bs as int, j as int),
        decreases j,
    {
        proof {
            lemma_piece_start_bounds(b@, bs as int, j as int);
        }
        let st = piece_start_exec(b, bs, j);
        let ghost piece = b@.subrange(st as int, j as int);
        let empty_or_dot = st == j || (j - st == 1 && b[st] == 0x2e);
        assert(empty_or_dot == (piece.len() == 0 || is_dot(piece)));
        if !empty_or_dot {
            return j;
        }
        j = cut_piece_exec(b, bs, j);
    }
    j
}

/// The parent of a path (see `parent_spec`).
pub fn parent(b: &[u8]) -> (r: Option<Vec<u8>>)
    ensures
        opt_bytes(r) == parent_spec(b@),
{
    let root = b.len() > 0 && b[0] == 0x2f;
    let cur = (b.len() == 1 && b[0] == 0x2e) || (b.len() >= 2 && b[0] == 0x2e && b[1] == 0x2f);
    let bs: usize = if root || cur {
        1
    } else {
        0
    };
    let k1 = trim_back_exec(b, bs, b.len());
    if k1 > bs {
        let k2 = trim_back_exec(b, bs, cut_piece_exec(b, bs, k1));
        let mut v: Vec<u8> = Vec::new();
        append_bytes(&mut v, b.split_at(k2).0);
        assert(v@ =~= b@.take(k2 as int));
        Some(v)
    } else if !root && cur {
        let v: Vec<u8> = Vec::new();
        assert(v@ =~= Seq::<u8>::empty());
        Some(v)
    } else {
        None
    }
}

/// A name that can stand as a normal component: not empty, without `/`,
/// and neither `.` nor `..`.
pub open spec fn valid_name(n: Seq<u8>) -> bool {
    &&& n.len() > 0
    &&& !n.contains(slash())
    &&& !is_dot(n)
    &&& !is_dot_dot(n)
}

/// A list of components as reading a path gives it: the root or the current
/// directory only first, and normal components with valid names.
pub open spec fn wf_comps(cs: Seq<Comp>) -> bool {
    &&& forall|i: int| 0 < i < cs.len() ==> #[trigger] cs[i] != Comp::RootDir && cs[i] != Comp::CurDir
    &&& forall|i: int| 0 <= i < cs.len() ==> (#[trigger] cs[i] matches Comp::Normal(n) ==> valid_name(n))
}

proof fn lemma_normalize_split_empty()
    ensures
        normalize(split_on(Seq::<u8>::empty(), slash())) == Seq::<Comp>::empty(),
        components(Seq::<u8>::empty()) == Seq::<Comp>::empty(),
{
    let e = Seq::<u8>::empty();
    let segs = split_on(e, slash());
    assert(segs == seq![Seq::<u8>::empty()]);
    assert(segs.drop_last() =~= Seq::<Seq<u8>>::empty());
    assert(normalize(segs.drop_last()) == Seq::<Comp>::empty());
    assert(normalize(segs) == Seq::<Comp>::empty());
    assert(components(e) =~= Seq::<Comp>::empty());
}

proof fn lemma_split_concat(a: Seq<u8>, b: Seq<u8>, sep: u8)
    ensures
        split_on(a + seq![sep] + b, sep) == split_on(a, sep) + split_on(b, sep),
    decreases b.len(),
{
    let y = a + seq![sep] + b;
    if b.len() == 0 {
        assert(y.drop_last() =~= a);
        assert(split_on(a, sep).push(Seq::<u8>::empty()) =~= split_on(a, sep) + split_on(b, sep));
    } else {
        lemma_split_concat(a, b.drop_last(), sep);
        assert(y.drop_last() =~= a + seq![sep] + b.drop_last());
        lemma_split_nonempty(b.drop_last(), sep);
        let sa = split_on(a, sep);
        let sb = split_on(b.drop_last(), sep);
        if b.last() == sep {
            assert((sa + sb).push(Seq::<u8>::empty()) =~= sa + sb.push(Seq::<u8>::empty()));
        } else {
            assert((sa + sb).update(
                (sa + sb).len() - 1,
                (sa + sb).last().push(b.last()),
            ) =~= sa + sb.update(sb.len() - 1, sb.last().push(b.last())));
        }
    }
}

proof fn lemma_split_no_sep(b: Seq<u8>, sep: u8)
    requires
        !b.contains(sep),
    ensures
        split_on(b, sep) == seq![b],
    decreases b.len(),
{
    if b.len() > 0 {
        assert(!b.drop_last().contains(sep)) by {
            if b.drop_last().contains(sep) {
                let j = choose|j: int| 0 <= j < b.drop_last().len() && b.drop_last()[j] == sep;
                assert(b[j] == sep);
            }
        }
        lemma_split_no_sep(b.drop_last(), sep);
        assert(b.last() != sep) by {
            assert(b[b.len() - 1] == b.last());
        }
        assert(b.drop_last().push(b.last()) =~= b);
        assert(seq![b.drop_last()].update(0, b.drop_last().push(b.last())) =~= seq![b]);
    } else {
        assert(b =~= Seq::<u8>::empty());
    }
}

/// The bytes of a component that stands past the start of a path.
proof fn lemma_piece_of_comp(c: Comp)
    requires
        c matches Comp::Normal(n) ==> valid_name(n),
        c != Comp::RootDir,
        c != Comp::CurDir,
    ensures
        !comp_bytes(c).contains(slash()),
        comp_bytes(c).len() > 0,
        comp_bytes(c)[0] != slash(),
        normalize(seq![comp_bytes(c)]) == seq![c],
{
    let p = comp_bytes(c);
    assert(seq![p].drop_last() =~= Seq::<Seq<u8>>::empty());
    assert(seq![p].last() == p);
    assert(normalize(Seq::<Seq<u8>>::empty()) == Seq::<Comp>::empty());
    assert(normalize(seq![p]) == normalize_step(Seq::<Comp>::empty(), p));
    match c {
        Comp::ParentDir => {
            assert(!p.contains(slash())) by {
                if p.contains(slash()) {
                    let j = choose|j: int| 0 <= j < p.len() && p[j] == slash();
                }
            }
        },
        Comp::Normal(n) => {
            assert(n[0] != slash()) by {
                if n[0] == slash() {
                    assert(n.contains(slash()));
                }
            }
        },
        _ => {},
    }
}

proof fn lemma_normalize_concat(s1: Seq<Seq<u8>>, s2: Seq<Seq<u8>>)
    ensures
        normalize(s1 + s2) == normalize(s1) + normalize(s2),
    decreases s2.len(),
{
    if s2.len() == 0 {
        assert(s1 + s2 =~= s1);
        assert(normalize(s1) + normalize(s2) =~= normalize(s1));
    } else {
        lemma_normalize_concat(s1, s2.drop_last());
        assert((s1 + s2).drop_last() =~= s1 + s2.drop_last());
        assert((s1 + s2).last() == s2.last());
        let r1 = normalize(s1);
        let r2 = normalize(s2.drop_last());
        let x = s2.last();
        if x.len() == 0 || is_dot(x) {
        } else if is_dot_dot(x) {
            assert((r1 + r2).push(Comp::ParentDir) =~= r1 + r2.push(Comp::ParentDir));
        } else {
            assert((r1 + r2).push(Comp::Normal(x)) =~= r1 + r2.push(Comp::Normal(x)));
        }
    }
}

/// Writing one component that may not start a path after a path that does
/// not end in `/` adds that component to the components read.
proof fn lemma_components_push(x: Seq<u8>, c: Comp)
    requires
        x.len() > 0,
        c matches Comp::Normal(n) ==> valid_name(n),
        c != Comp::RootDir,
        c != Comp::CurDir,
    ensures
        components(x + seq![slash()] + comp_bytes(c)) == components(x).push(c),
{
    let p = comp_bytes(c);
    let y = x + seq![slash()] + p;
    lemma_piece_of_comp(c);
    lemma_split_concat(x, p, slash());
    lemma_split_no_sep(p, slash());
    lemma_normalize_concat(split_on(x, slash()), seq![p]);
    assert(y[0] == x[0]);
    if x.len() >= 2 {
        assert(y[1] == x[1]);
    } else {
        assert(y[1] == slash());
    }
    assert(has_root(y) == has_root(x));
    assert(starts_with_cur_dir(y) == starts_with_cur_dir(x));
    let head = if has_root(x) {
        seq![Comp::RootDir]
    } else if starts_with_cur_dir(x) {
        seq![Comp::CurDir]
    } else {
        Seq::<Comp>::empty()
    };
    assert(head + (normalize(split_on(x, slash())) + seq![c]) =~= (head + normalize(
        split_on(x, slash()),
    )).push(c));
}

/// Reading the path written from a well-formed list of components gives the
/// same list back.
pub proof fn lemma_render_components(cs: Seq<Comp>)
    requires
        wf_comps(cs),
    ensures
        components(render(cs)) == cs,
        cs.len() > 0 ==> render(cs).len() > 0,
        cs.len() > 0 && cs != seq![Comp::RootDir] ==> render(cs).last() != slash(),
        cs == seq![Comp::RootDir] ==> render(cs) == seq![slash()],
    decreases cs.len(),
{
    if cs.len() == 0 {
        assert(render(cs) == Seq::<u8>::empty());
        lemma_normalize_split_empty();
        assert(cs =~= Seq::<Comp>::empty());
    } else {
        let rest = cs.drop_last();
        let c = cs.last();
        assert(wf_comps(rest)) by {
            assert forall|i: int| 0 < i < rest.len() implies #[trigger] rest[i] != Comp::RootDir
                && rest[i] != Comp::CurDir by {
                assert(rest[i] == cs[i]);
            }
            assert forall|i: int| 0 <= i < rest.len() implies (#[trigger] rest[i] matches Comp::Normal(
                n,
            ) ==> valid_name(n)) by {
                assert(rest[i] == cs[i]);
            }
        }
        lemma_render_components(rest);
        let x = render(rest);
        let p = comp_bytes(c);
        assert(cs[cs.len() - 1] == c);
        if rest.len() == 0 {
            assert(cs =~= seq![c]);
            assert(render(cs) == push_bytes(x, p));
            assert(x + p =~= p);
            match c {
                Comp::RootDir => {
                    assert(split_on(p, slash()) =~= seq![Seq::<u8>::empty(), Seq::<u8>::empty()]) by {
                        assert(p.drop_last() =~= Seq::<u8>::empty());
                        assert(split_on(p.drop_last(), slash()) == seq![Seq::<u8>::empty()]);
                    }
                    assert(normalize(split_on(p, slash())) =~= Seq::<Comp>::empty()) by {
                        let s2 = seq![Seq::<u8>::empty(), Seq::<u8>::empty()];
                        assert(s2.drop_last() =~= seq![Seq::<u8>::empty()]);
                        assert(s2.drop_last().drop_last() =~= Seq::<Seq<u8>>::empty());
                    }
                    assert(components(p) =~= seq![Comp::RootDir]);
                },
                Comp::CurDir => {
                    lemma_split_no_sep(p, slash());
                    assert(!p.contains(slash())) by {
                        if p.contains(slash()) {
                            let j = choose|j: int| 0 <= j < p.len() && p[j] == slash();
                        }
                    }
                    assert(seq![p].drop_last() =~= Seq::<Seq<u8>>::empty());
                    assert(seq![p].last() == p);
                    assert(normalize(Seq::<Seq<u8>>::empty()) == Seq::<Comp>::empty());
                    assert(is_dot(p));
                    assert(normalize(seq![p]) == Seq::<Comp>::empty());
                    assert(starts_with_cur_dir(p));
                    assert(components(p) =~= seq![Comp::CurDir]);
                },
                _ => {
                    lemma_piece_of_comp(c);
                    lemma_split_no_sep(p, slash());
                    if p.len() == 1 {
                        assert(p[0] != dot());
                    }
                    assert(!has_root(p));
                    assert(!starts_with_cur_dir(p));
                    assert(components(p) =~= seq![c]);
                },
            }
        } else if rest == seq![Comp::RootDir] {
            assert(c != Comp::RootDir && c != Comp::CurDir);
            lemma_piece_of_comp(c);
            assert(render(cs) == push_bytes(x, p));
            assert(x == seq![slash()]);
            assert(push_bytes(x, p) == x + p);
            let e = Seq::<u8>::empty();
            assert(x + p =~= e + seq![slash()] + p);
            lemma_split_concat(e, p, slash());
            lemma_split_no_sep(p, slash());
            lemma_normalize_concat(split_on(e, slash()), seq![p]);
            lemma_normalize_split_empty();
            assert(has_root(x + p));
            assert(components(x + p) =~= seq![Comp::RootDir, c]);
            assert(cs =~= seq![Comp::RootDir, c]);
        } else {
            assert(c != Comp::RootDir && c != Comp::CurDir);
            lemma_piece_of_comp(c);
            assert(render(cs) == push_bytes(x, p));
            assert(push_bytes(x, p) == x + seq![slash()] + p);
            lemma_components_push(x, c);
            assert(cs =~= rest.push(c));
        }
        let r = render(cs);
        if cs != seq![Comp::RootDir] {
            assert(r.last() == p.last());
            assert(p.last() != slash()) by {
                if c == Comp::RootDir {
                    assert(cs =~= seq![Comp::RootDir]);
                } else if c == Comp::CurDir {
                } else {
                    lemma_piece_of_comp(c);
                    assert(p[p.len() - 1] == p.last());
                }
            }
        }
    }
}

proof fn lemma_trim_back_bounds(b: Seq<u8>, bs: int, k: int)
    requires
        bs >= 0,
    ensures
        k >= bs ==> bs <= trim_back(b, bs, k) <= k,
    decreases k,
{
    if k > bs {
        lemma_piece_start_bounds(b, bs, k);
        let st = piece_start(b, bs, k);
        let piece = b.subrange(st, k);
        if piece.len() == 0 || is_dot(piece) {
            lemma_trim_back_bounds(b, bs, cut_piece(b, bs, k));
        }
    }
}

/// The parent of a path is a shorter start of the path itself, so the climb
/// from a directory to its parents ends.
pub proof fn law_parent_is_shorter_prefix(b: Seq<u8>)
    ensures
        parent_spec(b) matches Some(q) ==> q.len() < b.len() && q == b.take(q.len() as int),
{
    let bs = body_start(b);
    lemma_trim_back_bounds(b, bs, b.len() as int);
    let k1 = trim_back(b, bs, b.len() as int);
    if k1 > bs {
        lemma_piece_start_bounds(b, bs, k1);
        lemma_trim_back_bounds(b, bs, cut_piece(b, bs, k1));
        let q = b.take(trim_back(b, bs, cut_piece(b, bs, k1)));
        assert(q =~= b.take(q.len() as int));
    } else if !has_root(b) && starts_with_cur_dir(b) {
        assert(Seq::<u8>::empty() =~= b.take(0));
    }
}

} // verus!
