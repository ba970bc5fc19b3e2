//! Unix paths held as their raw bytes.
//!
//! A path is split into pieces by the separator `/`.  A path that starts with
//! `/` has a root; a relative path that starts with `.` followed by `/` (or
//! that is just `.`) starts with the current directory.  The pieces after that
//! leading part that are neither empty nor `.` are the path's components in
//! its body.  `file_name`, `parent`, `join` and `strip_prefix` are defined on
//! these components.

use vstd::prelude::*;
use vstd::slice::slice_to_vec;

verus! {

/// The separator `/`.
pub const SEP: u8 = 47;

/// The byte `.`.
pub const DOT: u8 = 46;

pub open spec fn has_root(p: Seq<u8>) -> bool {
    p.len() > 0 && p[0] == SEP
}

pub open spec fn has_cur_dir(p: Seq<u8>) -> bool {
    &&& !has_root(p)
    &&& p.len() > 0
    &&& p[0] == DOT
    &&& (p.len() == 1 || p[1] == SEP)
}

/// Where the body of a path begins: after its root or its leading `.`.
pub open spec fn body_start(p: Seq<u8>) -> int {
    if has_root(p) || has_cur_dir(p) {
        1
    } else {
        0
    }
}

/// The index of the first separator at or after `i`, or the length of `p`.
pub open spec fn piece_end(p: Seq<u8>, i: int) -> int
    decreases p.len() - i,
{
    if i >= p.len() || p[i] == SEP {
        i
    } else {
        piece_end(p, i + 1)
    }
}

/// A piece counts as a component unless it is empty or `.`.
pub open spec fn is_component(piece: Seq<u8>) -> bool {
    piece.len() > 0 && !(piece.len() == 1 && piece[0] == DOT)
}

pub open spec fn is_parent_dir(piece: Seq<u8>) -> bool {
    piece.len() == 2 && piece[0] == DOT && piece[1] == DOT
}

/// The positions `(start, end)` of the components among the pieces that
/// begin with the piece starting at `i`.
pub open spec fn pieces_from(p: Seq<u8>, i: int) -> Seq<(int, int)>
    decreases p.len() - i,
{
    if i < 0 || i >= p.len() {
        Seq::empty()
    } else {
        let e = piece_end(p, i);
        let rest = if i <= e < p.len() {
            pieces_from(p, e + 1)
        } else {
            Seq::empty()
        };
        if is_component(p.subrange(i, e)) {
            seq![(i, e)] + rest
        } else {
            rest
        }
    }
}

/// The positions of the components of the body of `p`, in order.
pub open spec fn body_pieces(p: Seq<u8>) -> Seq<(int, int)> {
    pieces_from(p, body_start(p))
}

pub proof fn lemma_piece_end(p: Seq<u8>, i: int)
    requires
        0 <= i <= p.len(),
    ensures
        i <= piece_end(p, i) <= p.len(),
        piece_end(p, i) < p.len() ==> p[piece_end(p, i)] == SEP,
        forall|k: int| i <= k < piece_end(p, i) ==> p[k] != SEP,
    decreases p.len() - i,
{
    if i < p.len() && p[i] != SEP {
        lemma_piece_end(p, i + 1);
    }
}

/// Every position that `pieces_from` gives is a component lying inside `p`,
/// the positions increase, and each lies at or after `i`.
pub proof fn lemma_pieces_from(p: Seq<u8>, i: int)
    requires
        0 <= i <= p.len(),
    ensures
        forall|k: int|
            #![trigger pieces_from(p, i)[k]]
            0 <= k < pieces_from(p, i).len() ==> {
                let (s, e) = pieces_from(p, i)[k];
                &&& i <= s < e <= p.len()
                &&& (s == i || p[s - 1] == SEP)
                &&& (e == p.len() || p[e] == SEP)
                &&& is_component(p.subrange(s, e))
                &&& e == piece_end(p, s)
            },
        forall|k: int, m: int|
            0 <= k < m < pieces_from(p, i).len() ==> pieces_from(p, i)[k].1
                < pieces_from(p, i)[m].0,
        pieces_from(p, i).len() <= p.len() - i,
    decreases p.len() - i,
{
    if i < p.len() {
        lemma_piece_end(p, i);
        let e = piece_end(p, i);
        let rest = if e < p.len() {
            pieces_from(p, e + 1)
        } else {
            Seq::<(int, int)>::empty()
        };
        if e < p.len() {
            lemma_pieces_from(p, e + 1);
        }
        let ps = pieces_from(p, i);
        let lead: int = if is_component(p.subrange(i, e)) {
            1
        } else {
            0
        };
        assert(ps.len() == rest.len() + lead);
        assert(forall|k: int| 0 <= k < rest.len() ==> #[trigger] ps[k + lead] == rest[k]);
        assert forall|k: int| #![trigger ps[k]] 0 <= k < ps.len() implies {
            let (s, e2) = ps[k];
            &&& i <= s < e2 <= p.len()
            &&& (s == i || p[s - 1] == SEP)
            &&& (e2 == p.len() || p[e2] == SEP)
            &&& is_component(p.subrange(s, e2))
            &&& e2 == piece_end(p, s)
        } by {
            if k >= lead {
                assert(ps[k] == rest[k - lead]);
            }
        }
        assert forall|k: int, m: int| 0 <= k < m < ps.len() implies ps[k].1 < ps[m].0 by {
            if k >= lead {
                assert(ps[k] == rest[k - lead]);
            }
            assert(ps[m] == rest[m - lead]);
        }
    }
}

/// The file name of `p`: its last component, unless that is `..`.
pub open spec fn spec_file_name(p: Seq<u8>) -> Option<Seq<u8>> {
    let ps = body_pieces(p);
    if ps.len() == 0 {
        None
    } else {
        let last = p.subrange(ps.last().0, ps.last().1);
        if is_parent_dir(last) {
            None
        } else {
            Some(last)
        }
    }
}

/// The parent of `p`: `p` without its last component, up to the end of the
/// component before it.  A path that is only `.` has the empty parent; a
/// root or an empty path has none.
pub open spec fn spec_parent(p: Seq<u8>) -> Option<Seq<u8>> {
    let ps = body_pieces(p);
    if ps.len() > 0 {
        let end = if ps.len() >= 2 {
            ps[ps.len() - 2].1
        } else {
            body_start(p)
        };
        Some(p.subrange(0, end))
    } else if has_cur_dir(p) {
        Some(Seq::empty())
    } else {
        None
    }
}

/// `path` appended to `base`: an absolute `path` replaces `base`; otherwise
/// a separator is put between them where `base` is not empty and does not
/// already end with one.
pub open spec fn spec_join(base: Seq<u8>, path: Seq<u8>) -> Seq<u8> {
    if has_root(path) {
        path
    } else if base.len() > 0 && base.last() != SEP {
        base + seq![SEP] + path
    } else {
        base + path
    }
}

pub open spec fn int_pairs(v: Seq<(usize, usize)>) -> Seq<(int, int)> {
    v.map_values(|x: (usize, usize)| (x.0 as int, x.1 as int))
}

pub open spec fn opt_bytes(r: Option<Vec<u8>>) -> Option<Seq<u8>> {
    match r {
        Some(v) => Some(v@),
        None => None,
    }
}

fn body_start_exec(p: &[u8]) -> (r: usize)
    ensures
        r == body_start(p@),
{
    if p.len() > 0 && p[0] == SEP {
        1
    } else if p.len() > 0 && p[0] == DOT && (p.len() == 1 || p[1] == SEP) {
        1
    } else {
        0
    }
}

fn piece_end_exec(p: &[u8], i: usize) -> (e: usize)
    requires
        i <= p@.len(),
    ensures
        e == piece_end(p@, i as int),
{
    let mut j = i;
    while j < p.len() && p[j] != SEP
        invariant
            i <= j <= p@.len(),
            piece_end(p@, j as int) == piece_end(p@, i as int),
        decreases p@.len() - j,
    {
        j = j + 1;
    }
    j
}

fn is_component_exec(p: &[u8], s: usize, e: usize) -> (r: bool)
    requires
        s <= e <= p@.len(),
    ensures
        r == is_component(p@.subrange(s as int, e as int)),
{
    e > s && !(e - s == 1 && p[s] == DOT)
}

fn is_parent_dir_exec(p: &[u8], s: usize, e: usize) -> (r: bool)
    requires
        s <= e <= p@.len(),
    ensures
        r == is_parent_dir(p@.subrange(s as int, e as int)),
{
    e - s == 2 && p[s] == DOT && p[s + 1] == DOT
}

/// The positions of the components of the body of `p`.
pub fn component_positions(p: &[u8]) -> (r: Vec<(usize, usize)>)
    ensures
        int_pairs(r@) == body_pieces(p@),
{
    let start = body_start_exec(p);
    let mut r: Vec<(usize, usize)> = Vec::new();
    let mut i = start;
    assert(int_pairs(r@) + pieces_from(p@, i as int) =~= pieces_from(p@, start as int));
    while i < p.len()
        invariant
            start <= i <= p@.len(),
            start == body_start(p@),
            int_pairs(r@) + pieces_from(p@, i as int) == pieces_from(p@, start as int),
        decreases p@.len() - i,
    {
        let e = piece_end_exec(p, i);
        proof {
            lemma_piece_end(p@, i as int);
        }
        let ghost old_r = r@;
        let ghost rest = if e < p@.len() {
            pieces_from(p@, e + 1)
        } else {
            Seq::<(int, int)>::empty()
        };
        if is_component_exec(p, i, e) {
            r.push((i, e));
            assert(int_pairs(r@) =~= int_pairs(old_r) + seq![(i as int, e as int)]);
            assert(int_pairs(r@) + rest =~= int_pairs(old_r) + pieces_from(p@, i as int));
        } else {
            assert(int_pairs(r@) + rest =~= int_pairs(old_r) + pieces_from(p@, i as int));
        }
        if e < p.len() {
            i = e + 1;
        } else {
            i = p.len();
            assert(pieces_from(p@, i as int) =~= rest);
        }
    }
    assert(int_pairs(r@) =~= int_pairs(r@) + pieces_from(p@, i as int));
    r
}

/// The file name of `p`, as `std::path::Path::file_name` gives it on Unix.
pub fn file_name(p: &[u8]) -> (r: Option<Vec<u8>>)
    ensures
        opt_bytes(r) == spec_file_name(p@),
{
    let ps = component_positions(p);
    proof {
        lemma_pieces_from(p@, body_start(p@));
    }
    if ps.len() == 0 {
        return None;
    }
    let (s, e) = ps[ps.len() - 1];
    assert(int_pairs(ps@)[ps@.len() - 1] == (s as int, e as int));
    if is_parent_dir_exec(p, s, e) {
        None
    } else {
        Some(slice_to_vec(&p[s..e]))
    }
}

/// The parent of `p`, as `std::path::Path::parent` gives it on Unix.
pub fn parent(p: &[u8]) -> (r: Option<Vec<u8>>)
    ensures
        opt_bytes(r) == spec_parent(p@),
{
    let ps = component_positions(p);
    proof {
        lemma_pieces_from(p@, body_start(p@));
    }
    let n = ps.len();
    if n > 0 {
        let end = if n >= 2 {
            let (_, e) = ps[n - 2];
            assert(int_pairs(ps@)[n - 2].1 == e);
            e
        } else {
            body_start_exec(p)
        };
        Some(slice_to_vec(&p[0..end]))
    } else if body_start_exec(p) == 1 && p[0] == DOT {
        Some(Vec::new())
    } else {
        None
    }
}

/// `path` joined onto `base`, as `std::path::Path::join` does it on Unix.
pub fn join(base: &[u8], path: &[u8]) -> (r: Vec<u8>)
    ensures
        r@ == spec_join(base@, path@),
{
    if path.len() > 0 && path[0] == SEP {
        return slice_to_vec(path);
    }
    let mut r = slice_to_vec(base);
    if base.len() > 0 && base[base.len() - 1] != SEP {
        r.push(SEP);
    }
    let mut i: usize = 0;
    let ghost head = r@;
    while i < path.len()
        invariant
            i <= path@.len(),
            r@ == head + path@.subrange(0, i as int),
        decreases path@.len() - i,
    {
        r.push(path[i]);
        i = i + 1;
        assert(r@ =~= head + path@.subrange(0, i as int));
    }
    assert(path@.subrange(0, path@.len() as int) =~= path@);
    r
}

/// One component of a path.
pub enum Component {
    RootDir,
    CurDir,
    ParentDir,
    Normal(Seq<u8>),
}

/// The root or the leading `.` of `p`, where it has one.
pub open spec fn lead_components(p: Seq<u8>) -> Seq<Component> {
    if has_root(p) {
        seq![Component::RootDir]
    } else if has_cur_dir(p) {
        seq![Component::CurDir]
    } else {
        Seq::empty()
    }
}

pub open spec fn piece_component(p: Seq<u8>, pos: (int, int)) -> Component {
    let piece = p.subrange(pos.0, pos.1);
    if is_parent_dir(piece) {
        Component::ParentDir
    } else {
        Component::Normal(piece)
    }
}

/// The components of `p`, in order.
pub open spec fn components(p: Seq<u8>) -> Seq<Component> {
    lead_components(p) + body_pieces(p).map_values(|pos: (int, int)| piece_component(p, pos))
}

/// What is left of `p` once its first `k` components are taken away, without
/// the separators and `.` pieces at either end.
pub open spec fn rest_after(p: Seq<u8>, k: int) -> Seq<u8> {
    let ps = body_pieces(p);
    let lead = lead_components(p).len() as int;
    let end = if ps.len() > 0 {
        ps.last().1
    } else {
        body_start(p)
    };
    if k == 0 {
        p.subrange(0, end)
    } else if k < lead + ps.len() {
        p.subrange(ps[k - lead].0, end)
    } else {
        Seq::empty()
    }
}

/// `p` relative to `base`: defined when the components of `base` are the
/// first components of `p`.
pub open spec fn spec_strip_prefix(p: Seq<u8>, base: Seq<u8>) -> Option<Seq<u8>> {
    let cp = components(p);
    let cb = components(base);
    if cb.len() <= cp.len() && cp.subrange(0, cb.len() as int) == cb {
        Some(rest_after(p, cb.len() as int))
    } else {
        None
    }
}

proof fn lemma_component_at(p: Seq<u8>, j: int)
    requires
        0 <= j < components(p).len(),
    ensures
        components(p)[j] == if j < lead_components(p).len() {
            lead_components(p)[j]
        } else {
            piece_component(p, body_pieces(p)[j - lead_components(p).len()])
        },
{
}

proof fn lemma_piece_component_eq(p: Seq<u8>, a: (int, int), q: Seq<u8>, b: (int, int))
    ensures
        (piece_component(p, a) == piece_component(q, b)) <==> (p.subrange(a.0, a.1) == q.subrange(
            b.0,
            b.1,
        )),
{
    let x = p.subrange(a.0, a.1);
    let y = q.subrange(b.0, b.1);
    if is_parent_dir(x) && is_parent_dir(y) {
        assert(x =~= y);
    }
}

/// 0: no lead component, 1: a root, 2: a leading `.`.
fn lead_kind(p: &[u8]) -> (r: u8)
    ensures
        r == 0 <==> lead_components(p@).len() == 0,
        r == 1 <==> has_root(p@),
        r == 2 <==> has_cur_dir(p@),
        r <= 2,
{
    if p.len() > 0 && p[0] == SEP {
        1
    } else if p.len() > 0 && p[0] == DOT && (p.len() == 1 || p[1] == SEP) {
        2
    } else {
        0
    }
}

/// Whether two byte strings are equal.
pub fn bytes_eq(a: &[u8], b: &[u8]) -> (r: bool)
    ensures
        r == (a@ == b@),
{
    if a.len() != b.len() {
        return false;
    }
    let mut i: usize = 0;
    while i < a.len()
        invariant
            a@.len() == b@.len(),
            i <= a@.len(),
            forall|k: int| 0 <= k < i ==> a@[k] == b@[k],
        decreases a@.len() - i,
    {
        if a[i] != b[i] {
            return false;
        }
        i = i + 1;
    }
    assert(a@ =~= b@);
    true
}

/// `p` relative to `base`, as `std::path::Path::strip_prefix` gives it on Unix.
pub fn strip_prefix(p: &[u8], base: &[u8]) -> (r: Option<Vec<u8>>)
    ensures
        opt_bytes(r) == spec_strip_prefix(p@, base@),
{
    let pp = component_positions(p);
    let pb = component_positions(base);
    proof {
        lemma_pieces_from(p@, body_start(p@));
        lemma_pieces_from(base@, body_start(base@));
    }
    let kp = lead_kind(p);
    let kb = lead_kind(base);
    let lp: usize = if kp == 0 { 0 } else { 1 };
    let lb: usize = if kb == 0 { 0 } else { 1 };
    let ghost cp = components(p@);
    let ghost cb = components(base@);
    let ghost mp = body_pieces(p@).map_values(|pos: (int, int)| piece_component(p@, pos));
    let ghost mb = body_pieces(base@).map_values(|pos: (int, int)| piece_component(base@, pos));
    assert(cp == lead_components(p@) + mp);
    assert(cb == lead_components(base@) + mb);
    assert(cp.len() == lp + pp@.len());
    assert(cb.len() == lb + pb@.len());
    let np = p.len();
    let nbase = base.len();
    assert(lp + pp@.len() <= np);
    assert(lb + pb@.len() <= nbase);
    if lb + pb.len() > lp + pp.len() {
        return None;
    }
    let nb = lb + pb.len();
    let mut j: usize = 0;
    while j < nb
        invariant
            j <= nb,
            nb == cb.len(),
            cb.len() <= cp.len(),
            cp.len() == lp + pp@.len(),
            cb.len() == lb + pb@.len(),
            cp == components(p@),
            cb == components(base@),
            cp == lead_components(p@) + mp,
            cb == lead_components(base@) + mb,
            lp == lead_components(p@).len(),
            lb == lead_components(base@).len(),
            kp == 0 <==> lp == 0,
            kb == 0 <==> lb == 0,
            kp == 1 <==> has_root(p@),
            kp == 2 <==> has_cur_dir(p@),
            kb == 1 <==> has_root(base@),
            kb == 2 <==> has_cur_dir(base@),
            kp <= 2,
            kb <= 2,
            int_pairs(pp@) == body_pieces(p@),
            int_pairs(pb@) == body_pieces(base@),
            mp.len() == pp@.len(),
            mb.len() == pb@.len(),
            forall|k: int| 0 <= k < j ==> cp[k] == cb[k],
        decreases nb - j,
    {
        proof {
            lemma_component_at(p@, j as int);
            lemma_component_at(base@, j as int);
            lemma_pieces_from(p@, body_start(p@));
            lemma_pieces_from(base@, body_start(base@));
        }
        let same = if j < lp && j < lb {
            proof {
                assert(j == 0);
                assert(cp[0] == lead_components(p@)[0]);
                assert(cb[0] == lead_components(base@)[0]);
                if has_root(p@) {
                    assert(lead_components(p@)[0] == Component::RootDir);
                } else {
                    assert(lead_components(p@)[0] == Component::CurDir);
                }
                if has_root(base@) {
                    assert(lead_components(base@)[0] == Component::RootDir);
                } else {
                    assert(lead_components(base@)[0] == Component::CurDir);
                }
            }
            kp == kb
        } else if j < lp || j < lb {
            proof {
                if j < lp {
                    assert(cp[j as int] == lead_components(p@)[j as int]);
                    assert(lead_components(p@)[j as int] is RootDir || lead_components(
                        p@,
                    )[j as int] is CurDir);
                } else {
                    assert(cb[j as int] == lead_components(base@)[j as int]);
                    assert(lead_components(base@)[j as int] is RootDir || lead_components(
                        base@,
                    )[j as int] is CurDir);
                }
            }
            false
        } else {
            let (sp, ep) = pp[j - lp];
            let (sb, eb) = pb[j - lb];
            assert(int_pairs(pp@)[j - lp] == (sp as int, ep as int));
            assert(int_pairs(pb@)[j - lb] == (sb as int, eb as int));
            assert(body_pieces(p@)[j - lp] == (sp as int, ep as int));
            assert(body_pieces(base@)[j - lb] == (sb as int, eb as int));
            proof {
                lemma_piece_component_eq(p@, (sp as int, ep as int), base@, (sb as int, eb as int));
            }
            let r = bytes_eq(&p[sp..ep], &base[sb..eb]);
            assert(j as int >= lead_components(p@).len());
            assert(cp[j as int] == piece_component(p@, body_pieces(p@)[j - lp]));
            assert(cp[j as int] == piece_component(p@, (sp as int, ep as int)));
            assert(cb[j as int] == piece_component(base@, (sb as int, eb as int)));
            r
        };
        assert(same == (cp[j as int] == cb[j as int]));
        if !same {
            assert(cp[j as int] != cb[j as int]);
            assert(cp.subrange(0, cb.len() as int)[j as int] != cb[j as int]);
            return None;
        }
        j = j + 1;
    }
    assert(cp.subrange(0, cb.len() as int) =~= cb);
    let ghost ps = body_pieces(p@);
    let end = if pp.len() > 0 {
        let (_, e) = pp[pp.len() - 1];
        assert(int_pairs(pp@)[pp@.len() - 1].1 == e);
        e
    } else {
        body_start_exec(p)
    };
    if nb == 0 {
        Some(slice_to_vec(&p[0..end]))
    } else if nb < lp + pp.len() {
        let (s, _) = pp[nb - lp];
        assert(int_pairs(pp@)[nb - lp].0 == s);
        Some(slice_to_vec(&p[s..end]))
    } else {
        Some(Vec::new())
    }
}

/// A name that is a single ordinary component: not empty, without a
/// separator, and neither `.` nor `..`.
pub open spec fn is_plain_name(n: Seq<u8>) -> bool {
    &&& is_component(n)
    &&& !is_parent_dir(n)
    &&& forall|k: int| 0 <= k < n.len() ==> n[k] != SEP
}

/// A directory path that ends in one of its components, with no separator
/// or `.` piece after it.
pub open spec fn ends_with_component(d: Seq<u8>) -> bool {
    body_pieces(d).len() > 0 && body_pieces(d).last().1 == d.len()
}

/// What a parent can look like: empty, the root, `.`, or a path that ends in
/// one of its components.
pub open spec fn is_parent_shape(d: Seq<u8>) -> bool {
    d.len() == 0 || d == seq![SEP] || d == seq![DOT] || ends_with_component(d)
}

/// The components found from `i` on are those found before the piece that
/// starts at `s`, followed by those found from `s` on.
proof fn lemma_pieces_split(p: Seq<u8>, i: int, s: int) -> (pre: Seq<(int, int)>)
    requires
        0 <= i <= s <= p.len(),
        s == i || p[s - 1] == SEP,
    ensures
        pieces_from(p, i) == pre + pieces_from(p, s),
    decreases s - i,
{
    if i == s {
        assert(pieces_from(p, i) =~= Seq::<(int, int)>::empty() + pieces_from(p, s));
        Seq::empty()
    } else {
        lemma_piece_end(p, i);
        let e = piece_end(p, i);
        assert(e <= s - 1) by {
            if e > s - 1 {
                assert(p[s - 1] != SEP);
            }
        }
        let pre2 = lemma_pieces_split(p, e + 1, s);
        if is_component(p.subrange(i, e)) {
            let pre = seq![(i, e)] + pre2;
            assert(pieces_from(p, i) =~= pre + pieces_from(p, s));
            pre
        } else {
            pre2
        }
    }
}

/// A final piece without separators that is a component is the only
/// component found from its start.
proof fn lemma_final_piece(p: Seq<u8>, s: int)
    requires
        0 <= s < p.len(),
        forall|k: int| s <= k < p.len() ==> p[k] != SEP,
        is_component(p.subrange(s, p.len() as int)),
    ensures
        pieces_from(p, s) == seq![(s, p.len() as int)],
{
    lemma_piece_end(p, s);
    assert(piece_end(p, s) == p.len());
    assert(pieces_from(p, s) =~= seq![(s, p.len() as int)] + Seq::<(int, int)>::empty());
}

proof fn lemma_piece_end_prefix(d: Seq<u8>, r: Seq<u8>, i: int)
    requires
        0 <= i <= d.len(),
        r.len() > 0,
        r[0] == SEP,
    ensures
        piece_end(d + r, i) == piece_end(d, i),
    decreases d.len() - i,
{
    if i < d.len() && d[i] != SEP {
        assert((d + r)[i] == d[i]);
        lemma_piece_end_prefix(d, r, i + 1);
    } else if i == d.len() {
        assert((d + r)[i] == r[0]);
    } else {
        assert((d + r)[i] == d[i]);
    }
}

/// Before a separator that follows `d`, the components of `d + r` are those
/// of `d`.
proof fn lemma_pieces_prefix(d: Seq<u8>, r: Seq<u8>, i: int)
    requires
        0 <= i <= d.len(),
        r.len() > 0,
        r[0] == SEP,
    ensures
        pieces_from(d + r, i) == pieces_from(d, i) + pieces_from(d + r, d.len() as int + 1),
    decreases d.len() - i,
{
    let p = d + r;
    lemma_piece_end_prefix(d, r, i);
    lemma_piece_end(d, i);
    let e = piece_end(d, i);
    if i == d.len() {
        assert(p[i] == SEP);
        assert(p.subrange(i, i) =~= Seq::<u8>::empty());
        assert(pieces_from(p, i) =~= pieces_from(d, i) + pieces_from(p, d.len() as int + 1));
    } else {
        assert(p.subrange(i, e) =~= d.subrange(i, e));
        if e < d.len() {
            lemma_pieces_prefix(d, r, e + 1);
        }
        assert(pieces_from(p, i) =~= pieces_from(d, i) + pieces_from(p, d.len() as int + 1));
    }
}

/// Joining a plain name onto a directory gives a path whose file name is
/// that name.
pub proof fn law_join_file_name(dir: Seq<u8>, name: Seq<u8>)
    requires
        is_plain_name(name),
    ensures
        spec_file_name(spec_join(dir, name)) == Some(name),
{
    let p = spec_join(dir, name);
    let s = p.len() - name.len();
    assert(!has_root(name));
    assert(p.subrange(s, p.len() as int) =~= name);
    assert forall|k: int| s <= k < p.len() implies p[k] != SEP by {
        assert(p[k] == name[k - s]);
    }
    lemma_final_piece(p, s);
    let bs = body_start(p);
    if s == 0 {
        assert(p =~= name);
        assert(!has_cur_dir(p)) by {
            if p.len() > 1 {
                assert(p[1] != SEP);
            }
        }
        assert(bs == 0);
    } else {
        assert(p[s - 1] == SEP);
    }
    let pre = lemma_pieces_split(p, bs, s);
    assert(body_pieces(p).last() == (s, p.len() as int));
}

/// Joining a plain name onto a directory that ends in a component (or onto
/// the root, or the empty path) gives a path whose parent is that directory.
pub proof fn law_join_parent(dir: Seq<u8>, name: Seq<u8>)
    requires
        is_plain_name(name),
        is_parent_shape(dir),
    ensures
        spec_parent(spec_join(dir, name)) == Some(dir),
{
    lemma_join_pieces(dir, name);
    let p = spec_join(dir, name);
    let ps = body_pieces(p);
    if ps.len() >= 2 {
        lemma_pieces_from(dir, body_start(dir));
        assert(ps[ps.len() - 2] == body_pieces(dir).last());
    } else {
        assert(body_pieces(dir).len() == 0);
        if dir.len() == 0 {
            assert(p.subrange(0, 0) =~= dir);
        } else if dir == seq![SEP] {
            assert(p.subrange(0, 1) =~= dir);
        } else if dir == seq![DOT] {
            assert(p.subrange(0, 1) =~= dir);
        }
    }
}

/// A file name is always a plain name.
pub proof fn lemma_file_name_is_plain(p: Seq<u8>)
    requires
        spec_file_name(p) is Some,
    ensures
        is_plain_name(spec_file_name(p)->Some_0),
{
    lemma_pieces_from(p, body_start(p));
    let ps = body_pieces(p);
    let last = ps.last();
    assert(ps[ps.len() - 1] == last);
    lemma_piece_end(p, last.0);
    let n = p.subrange(last.0, last.1);
    assert forall|k: int| 0 <= k < n.len() implies n[k] != SEP by {
        assert(n[k] == p[last.0 + k]);
    }
}

/// Every parent has the shape of a parent.
pub proof fn lemma_parent_shape(p: Seq<u8>)
    requires
        spec_parent(p) is Some,
    ensures
        is_parent_shape(spec_parent(p)->Some_0),
        body_pieces(p).len() > 0 ==> {
            let d = spec_parent(p)->Some_0;
            &&& d.len() <= p.len()
            &&& p.subrange(0, d.len() as int) == d
            &&& lead_components(p) == lead_components(d)
            &&& body_pieces(p) == body_pieces(d) + seq![body_pieces(p).last()]
        },
{
    let ps = body_pieces(p);
    let bs = body_start(p);
    lemma_pieces_from(p, bs);
    let d = spec_parent(p)->Some_0;
    if ps.len() == 0 {
        assert(d =~= Seq::<u8>::empty());
    } else if ps.len() == 1 {
        if bs == 0 {
            assert(d =~= Seq::<u8>::empty());
        } else if has_root(p) {
            assert(d =~= seq![SEP]);
        } else {
            assert(d =~= seq![DOT]);
        }
        assert(body_pieces(d) =~= Seq::<(int, int)>::empty());
        assert(p.subrange(0, d.len() as int) =~= d);
        assert(body_pieces(p) =~= body_pieces(d) + seq![body_pieces(p).last()]);
    } else {
        let n = ps.len();
        let prev = ps[n - 2];
        let last = ps[n - 1];
        let e = prev.1;
        assert(e < last.0);
        assert(p[e] == SEP);
        assert(d == p.subrange(0, e));
        let r = p.subrange(e, p.len() as int);
        assert(p =~= d + r);
        assert(r[0] == SEP);
        assert(body_start(d) == bs) by {
            assert(d[0] == p[0]);
            if d.len() > 1 {
                assert(d[1] == p[1]);
            }
        }
        lemma_pieces_prefix(d, r, bs);
        let pd = body_pieces(d);
        let rest = pieces_from(p, e + 1);
        assert(ps == pd + rest);
        lemma_pieces_from(d, bs);
        lemma_pieces_from(p, e + 1);
        if pd.len() > n - 1 {
            assert(ps[n - 1] == pd[n - 1]);
            assert(pd[n - 1].1 <= d.len());
            assert(false);
        }
        if pd.len() < n - 1 {
            assert(ps[n - 2] == rest[n - 2 - pd.len()]);
            assert(rest[n - 2 - pd.len()].0 >= e + 1);
            assert(false);
        }
        assert(pd.len() == n - 1);
        assert(pd.last() == ps[n - 2]);
        assert(rest.len() == 1);
        assert(ps =~= pd + seq![ps.last()]);
        assert(p.subrange(0, d.len() as int) =~= d);
        assert(lead_components(p) == lead_components(d)) by {
            assert(d[0] == p[0]);
            if d.len() > 1 {
                assert(d[1] == p[1]);
            }
        }
    }
}

/// When `p` begins with `d`, has the same root or leading `.`, and its body
/// components are those of `d` followed by `more`, then its components are
/// those of `d` followed by the components at `more`.
proof fn lemma_components_extend(d: Seq<u8>, p: Seq<u8>, more: Seq<(int, int)>)
    requires
        d.len() <= p.len(),
        p.subrange(0, d.len() as int) == d,
        lead_components(p) == lead_components(d),
        body_pieces(p) == body_pieces(d) + more,
    ensures
        components(p) == components(d) + more.map_values(
            |pos: (int, int)| piece_component(p, pos),
        ),
{
    let pd = body_pieces(d);
    let pp = body_pieces(p);
    lemma_pieces_from(d, body_start(d));
    let md = pd.map_values(|pos: (int, int)| piece_component(d, pos));
    let mp = pp.map_values(|pos: (int, int)| piece_component(p, pos));
    let mm = more.map_values(|pos: (int, int)| piece_component(p, pos));
    assert forall|j: int| 0 <= j < pd.len() implies #[trigger] mp[j] == md[j] by {
        let pos = pd[j];
        assert(pp[j] == pos);
        assert(p.subrange(pos.0, pos.1) =~= d.subrange(pos.0, pos.1)) by {
            assert forall|k: int| pos.0 <= k < pos.1 implies p[k] == d[k] by {
                assert(p.subrange(0, d.len() as int)[k] == d[k]);
            }
        }
    }
    assert forall|j: int| 0 <= j < more.len() implies #[trigger] mp[pd.len() + j] == mm[j] by {
        assert(pp[pd.len() + j] == more[j]);
    }
    assert(mp =~= md + mm);
    assert(components(p) =~= components(d) + mm);
}

/// Joining a plain name onto a parent-shaped directory adds exactly one
/// component after those of the directory.
#[verifier::spinoff_prover]
#[verifier::rlimit(40)]
proof fn lemma_join_pieces(dir: Seq<u8>, name: Seq<u8>)
    requires
        is_plain_name(name),
        is_parent_shape(dir),
    ensures
        ({
            let p = spec_join(dir, name);
            &&& has_root(p) == has_root(dir)
            &&& has_cur_dir(p) == has_cur_dir(dir)
            &&& body_pieces(p) == body_pieces(dir) + seq![(p.len() - name.len(), p.len() as int)]
            &&& p.subrange(0, dir.len() as int) == dir
            &&& p.subrange(p.len() - name.len(), p.len() as int) == name
        }),
{
    let p = spec_join(dir, name);
    let s = p.len() - name.len();
    assert(!has_root(name));
    assert(p.subrange(s, p.len() as int) =~= name);
    assert forall|k: int| s <= k < p.len() implies p[k] != SEP by {
        assert(p[k] == name[k - s]);
    }
    lemma_final_piece(p, s);
    assert(p.subrange(0, dir.len() as int) =~= dir);
    if dir.len() == 0 {
        assert(p =~= name);
        assert(!has_cur_dir(p)) by {
            if p.len() > 1 {
                assert(p[1] != SEP);
            }
        }
        assert(body_pieces(dir) =~= Seq::<(int, int)>::empty());
        assert(body_pieces(p) =~= body_pieces(dir) + seq![(s, p.len() as int)]);
    } else if dir == seq![SEP] {
        assert(p =~= seq![SEP] + name);
        assert(body_pieces(dir) =~= Seq::<(int, int)>::empty());
        assert(body_pieces(p) =~= body_pieces(dir) + seq![(s, p.len() as int)]);
    } else if dir == seq![DOT] {
        assert(p =~= seq![DOT, SEP] + name);
        assert(p[1] == SEP);
        assert(p.subrange(1, 1) =~= Seq::<u8>::empty());
        assert(pieces_from(p, 1) == pieces_from(p, 2));
        assert(body_pieces(dir) =~= Seq::<(int, int)>::empty());
        assert(body_pieces(p) =~= body_pieces(dir) + seq![(s, p.len() as int)]);
    } else {
        lemma_pieces_from(dir, body_start(dir));
        let last = body_pieces(dir).last();
        assert(body_pieces(dir)[body_pieces(dir).len() - 1] == last);
        lemma_piece_end(dir, last.0);
        assert(dir.last() != SEP);
        let r = seq![SEP] + name;
        assert(p =~= dir + r);
        assert(has_root(p) == has_root(dir) && has_cur_dir(p) == has_cur_dir(dir)) by {
            assert(p[0] == dir[0]);
            if dir.len() > 1 {
                assert(p[1] == dir[1]);
            } else {
                assert(p[1] == SEP);
            }
        }
        lemma_pieces_prefix(dir, r, body_start(dir));
        assert(s == dir.len() + 1);
    }
}

/// Joining a relative path onto `root` keeps the components of `root` as
/// the first components of the result.
pub proof fn law_join_keeps_components(root: Seq<u8>, t: Seq<u8>)
    requires
        !has_root(t),
    ensures
        components(root).len() <= components(spec_join(root, t)).len(),
        components(spec_join(root, t)).subrange(0, components(root).len() as int) == components(
            root,
        ),
{
    let p = spec_join(root, t);
    if root.len() == 0 {
        assert(body_pieces(root) =~= Seq::<(int, int)>::empty());
        assert(components(root) =~= Seq::<Component>::empty());
        assert(components(p).subrange(0, 0) =~= components(root));
    } else if root.len() == 1 && root[0] == SEP {
        assert(root =~= seq![SEP]);
        assert(p =~= seq![SEP] + t);
        assert(body_pieces(root) =~= Seq::<(int, int)>::empty());
        assert(components(root) =~= seq![Component::RootDir]);
        assert(has_root(p));
        assert(components(p)[0] == Component::RootDir);
        assert(components(p).subrange(0, 1) =~= components(root));
    } else {
        let bs = body_start(root);
        let (d, r) = if root.last() != SEP {
            (root, seq![SEP] + t)
        } else {
            (root.drop_last(), seq![SEP] + t)
        };
        assert(p =~= d + r);
        assert(d.len() >= 1);
        assert(p.subrange(0, root.len() as int) =~= root);
        assert(has_root(p) == has_root(root) && has_cur_dir(p) == has_cur_dir(root)
            && has_root(d) == has_root(root) && has_cur_dir(d) == has_cur_dir(root)) by {
            assert(p[0] == root[0] && d[0] == root[0]);
            if d.len() > 1 {
                assert(p[1] == root[1] && d[1] == root[1]);
            } else if root.last() != SEP {
                assert(p[1] == SEP);
            } else {
                assert(root[1] == SEP && p[1] == SEP);
            }
        }
        lemma_pieces_prefix(d, r, bs);
        if root.last() == SEP {
            assert(root =~= d + seq![SEP]);
            lemma_pieces_prefix(d, seq![SEP], bs);
            assert(pieces_from(root, d.len() as int + 1) =~= Seq::<(int, int)>::empty());
            assert(body_pieces(root) =~= body_pieces(d) + Seq::<(int, int)>::empty());
        }
        let more = pieces_from(p, d.len() as int + 1);
        assert(body_pieces(p) == body_pieces(root) + more);
        lemma_components_extend(root, p, more);
        assert(components(p).subrange(0, components(root).len() as int) =~= components(root));
    }
}

/// A path made by joining a plain name onto a parent-shaped directory is,
/// relative to that directory, just the name.
pub proof fn law_strip_joined_name(dir: Seq<u8>, name: Seq<u8>)
    requires
        is_plain_name(name),
        is_parent_shape(dir),
    ensures
        spec_strip_prefix(spec_join(dir, name), dir) == Some(name),
{
    let p = spec_join(dir, name);
    lemma_join_pieces(dir, name);
    let s = p.len() - name.len();
    let pd = body_pieces(dir);
    let pp = body_pieces(p);
    lemma_pieces_from(dir, body_start(dir));
    assert(lead_components(p) == lead_components(dir));
    let md = pd.map_values(|pos: (int, int)| piece_component(dir, pos));
    let mp = pp.map_values(|pos: (int, int)| piece_component(p, pos));
    assert forall|j: int| 0 <= j < pd.len() implies #[trigger] mp[j] == md[j] by {
        let pos = pd[j];
        assert(pp[j] == pos);
        assert(p.subrange(pos.0, pos.1) =~= dir.subrange(pos.0, pos.1)) by {
            assert forall|k: int| pos.0 <= k < pos.1 implies p[k] == dir[k] by {
                assert(p.subrange(0, dir.len() as int)[k] == dir[k]);
            }
        }
    }
    assert(mp[pd.len() as int] == piece_component(p, (s, p.len() as int)));
    assert(!is_parent_dir(name));
    assert(components(p) =~= components(dir) + seq![Component::Normal(name)]);
    let k = components(dir).len();
    assert(components(p).subrange(0, k as int) =~= components(dir));
    let lead = lead_components(p).len() as int;
    assert(pp.last() == (s, p.len() as int));
    if k == 0 {
        assert(lead == 0 && pd.len() == 0);
        assert(s == 0);
        assert(p.subrange(0, p.len() as int) =~= name);
    } else {
        assert(k - lead == pd.len());
        assert(pp[k - lead] == (s, p.len() as int));
    }
}


/// A path's parent joined with its file name has the path's components.
pub proof fn law_parent_and_name_rejoin(p: Seq<u8>)
    requires
        spec_parent(p) is Some,
        spec_file_name(p) is Some,
    ensures
        components(spec_join(spec_parent(p)->Some_0, spec_file_name(p)->Some_0)) == components(p),
{
    let d = spec_parent(p)->Some_0;
    let n = spec_file_name(p)->Some_0;
    lemma_file_name_is_plain(p);
    lemma_parent_shape(p);
    let last = body_pieces(p).last();
    lemma_components_extend(d, p, seq![last]);
    assert(seq![last].map_values(|pos: (int, int)| piece_component(p, pos)) =~= seq![
        Component::Normal(n),
    ]);
    let q = spec_join(d, n);
    lemma_join_pieces(d, n);
    lemma_components_extend(d, q, seq![(q.len() - n.len(), q.len() as int)]);
    assert(seq![(q.len() - n.len(), q.len() as int)].map_values(
        |pos: (int, int)| piece_component(q, pos),
    ) =~= seq![Component::Normal(n)]);
}

} // verus!
