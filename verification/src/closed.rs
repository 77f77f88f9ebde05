//! Closed surfaces, stated over the vertex loops of faces: every directed
//! edge occurs once, and the same edge run backwards occurs too, so each
//! edge is shared by exactly two faces that traverse it in opposite
//! directions.
use vstd::prelude::*;

use crate::extrude::{lemma_next_index, wall_quad};
use crate::ids::VertId;
use crate::solids::{box_index_loops, box_loops, cylinder_loops, north_fan, pick, south_fan, sphere_loops, strip_quad, strips};

verus! {

/// The edge of loop `l` that leaves its `k`-th vertex.
pub open spec fn dedge(l: Seq<VertId>, k: int) -> (VertId, VertId) {
    (l[k], l[(k + 1) % (l.len() as int)])
}

/// `(i, k)` names the `k`-th edge of the `i`-th loop of `s`.
pub open spec fn is_slot(s: Seq<Seq<VertId>>, i: int, k: int) -> bool {
    0 <= i < s.len() && 0 <= k < s[i].len()
}

/// No directed edge occurs twice among the loops `s`.
pub open spec fn edges_unique(s: Seq<Seq<VertId>>) -> bool {
    forall|i: int, k: int, j: int, l: int|
        is_slot(s, i, k) && is_slot(s, j, l) && #[trigger] dedge(s[i], k) == #[trigger] dedge(s[j], l) ==> i == j && k == l
}

/// Every directed edge among the loops `s` is also run backwards by a loop.
pub open spec fn edges_paired(s: Seq<Seq<VertId>>) -> bool {
    forall|i: int, k: int|
        #[trigger] is_slot(s, i, k) ==> exists|j: int, l: int|
            #[trigger] is_slot(s, j, l) && dedge(s[j], l) == (dedge(s[i], k).1, dedge(s[i], k).0)
}

/// The loops `s` bound a closed, consistently oriented surface.
pub open spec fn closed_surface(s: Seq<Seq<VertId>>) -> bool {
    edges_unique(s) && edges_paired(s)
}

/// No vertex of a loop of `s1` is a vertex of a loop of `s2`.
pub open spec fn vertex_disjoint(s1: Seq<Seq<VertId>>, s2: Seq<Seq<VertId>>) -> bool {
    forall|i: int, k: int, j: int, l: int|
        is_slot(s1, i, k) && is_slot(s2, j, l) ==> #[trigger] s1[i][k] != #[trigger] s2[j][l]
}

/// Two closed surfaces without a common vertex together form a closed
/// surface.
pub proof fn lemma_closed_union(s1: Seq<Seq<VertId>>, s2: Seq<Seq<VertId>>)
    requires
        closed_surface(s1),
        closed_surface(s2),
        vertex_disjoint(s1, s2),
    ensures
        closed_surface(s1 + s2),
{
    let s = s1 + s2;
    let n1 = s1.len() as int;
    assert forall|i: int, k: int, j: int, l: int|
        is_slot(s, i, k) && is_slot(s, j, l) && #[trigger] dedge(s[i], k) == #[trigger] dedge(s[j], l) implies i == j && k
        == l by {
        if i < n1 && j < n1 {
            assert(s[i] == s1[i] && s[j] == s1[j]);
            assert(is_slot(s1, i, k) && is_slot(s1, j, l));
            assert(dedge(s1[i], k) == dedge(s1[j], l));
        } else if i >= n1 && j >= n1 {
            assert(s[i] == s2[i - n1] && s[j] == s2[j - n1]);
            assert(is_slot(s2, i - n1, k) && is_slot(s2, j - n1, l));
            assert(dedge(s2[i - n1], k) == dedge(s2[j - n1], l));
        } else if i < n1 {
            assert(s[i] == s1[i] && s[j] == s2[j - n1]);
            assert(is_slot(s1, i, k) && is_slot(s2, j - n1, l));
            assert(s1[i][k] != s2[j - n1][l]);
        } else {
            assert(s[i] == s2[i - n1] && s[j] == s1[j]);
            assert(is_slot(s2, i - n1, k) && is_slot(s1, j, l));
            assert(s1[j][l] != s2[i - n1][k]);
        }
    }
    assert forall|i: int, k: int| #[trigger] is_slot(s, i, k) implies exists|j: int, l: int|
        #[trigger] is_slot(s, j, l) && dedge(s[j], l) == (dedge(s[i], k).1, dedge(s[i], k).0) by {
        if i < n1 {
            assert(s[i] == s1[i]);
            assert(is_slot(s1, i, k));
            let (j, l) = choose|j: int, l: int|
                #[trigger] is_slot(s1, j, l) && dedge(s1[j], l) == (dedge(s1[i], k).1, dedge(s1[i], k).0);
            assert(s[j] == s1[j]);
            assert(is_slot(s, j, l));
        } else {
            assert(s[i] == s2[i - n1]);
            assert(is_slot(s2, i - n1, k));
            let (j, l) = choose|j: int, l: int|
                #[trigger] is_slot(s2, j, l) && dedge(s2[j], l) == (dedge(s2[i - n1], k).1, dedge(s2[i - n1], k).0);
            assert(s[j + n1] == s2[j]);
            assert(is_slot(s, j + n1, l));
        }
    }
}

/// The position after `i` on a loop of `n`.
pub open spec fn nx(i: int, n: int) -> int {
    if i + 1 < n {
        i + 1
    } else {
        0
    }
}

/// The position before `i` on a loop of `n`.
pub open spec fn pv(i: int, n: int) -> int {
    if i == 0 {
        n - 1
    } else {
        i - 1
    }
}

/// The edges of the loops of a prism over `b` with copy `t`: the reversed
/// `b`, then `t`, then the walls.
proof fn lemma_prism_edge(b: Seq<VertId>, t: Seq<VertId>, i: int, k: int)
    requires
        b.len() >= 3,
        t.len() == b.len(),
        is_slot(cylinder_loops(b, t), i, k),
    ensures
        ({
            let s = cylinder_loops(b, t);
            let n = b.len() as int;
            let w = i - 2;
            &&& s.len() == n + 2
            &&& i == 0 ==> s[i].len() == n && dedge(s[i], k) == (b[n - 1 - k], b[pv(n - 1 - k, n)])
            &&& i == 1 ==> s[i].len() == n && dedge(s[i], k) == (t[k], t[nx(k, n)])
            &&& i >= 2 ==> s[i].len() == 4 && 0 <= w < n
            &&& i >= 2 && k == 0 ==> dedge(s[i], k) == (b[w], b[nx(w, n)])
            &&& i >= 2 && k == 1 ==> dedge(s[i], k) == (b[nx(w, n)], t[nx(w, n)])
            &&& i >= 2 && k == 2 ==> dedge(s[i], k) == (t[nx(w, n)], t[w])
            &&& i >= 2 && k == 3 ==> dedge(s[i], k) == (t[w], b[w])
        }),
{
    let s = cylinder_loops(b, t);
    let n = b.len() as int;
    let walls = Seq::new(b.len(), |q: int| wall_quad(b, t, q));
    assert(s.len() == n + 2);
    if i == 0 {
        assert(s[0] == b.reverse());
        lemma_next_index(k, n);
    } else if i == 1 {
        assert(s[1] == t);
        lemma_next_index(k, n);
    } else {
        let w = i - 2;
        assert(s[i] == walls[w]);
        lemma_next_index(w, n);
        assert(s[i] == seq![b[w], b[nx(w, n)], t[nx(w, n)], t[w]]);
        assert((k + 1) % 4 == if k == 3 { 0 } else { k + 1 });
    }
}

/// A prism over a loop `b` of at least three distinct vertices, with a copy
/// `t` of distinct vertices none of which is in `b`, is closed: the reversed
/// `b` (the base, facing away), `t` (the top) and the quad walls of
/// `wall_quad` share every edge in opposite directions, once.
pub proof fn lemma_prism_closed(b: Seq<VertId>, t: Seq<VertId>)
    requires
        b.len() >= 3,
        t.len() == b.len(),
        b.no_duplicates(),
        t.no_duplicates(),
        forall|x: int, y: int| 0 <= x < b.len() && 0 <= y < t.len() ==> #[trigger] b[x] != #[trigger] t[y],
    ensures
        closed_surface(cylinder_loops(b, t)),
{
    let s = cylinder_loops(b, t);
    let n = b.len() as int;
    assert forall|i: int, k: int, j: int, l: int|
        is_slot(s, i, k) && is_slot(s, j, l) && #[trigger] dedge(s[i], k) == #[trigger] dedge(s[j], l) implies i == j && k
        == l by {
        lemma_prism_edge(b, t, i, k);
        lemma_prism_edge(b, t, j, l);
    }
    assert forall|i: int, k: int| #[trigger] is_slot(s, i, k) implies exists|j: int, l: int|
        #[trigger] is_slot(s, j, l) && dedge(s[j], l) == (dedge(s[i], k).1, dedge(s[i], k).0) by {
        lemma_prism_edge(b, t, i, k);
        if i == 0 {
            let x = n - 1 - k;
            let w = pv(x, n);
            lemma_prism_edge(b, t, w + 2, 0);
            assert(is_slot(s, w + 2, 0));
        } else if i == 1 {
            lemma_prism_edge(b, t, k + 2, 2);
            assert(is_slot(s, k + 2, 2));
        } else {
            let w = i - 2;
            if k == 0 {
                let x = nx(w, n);
                lemma_prism_edge(b, t, 0, n - 1 - x);
                assert(is_slot(s, 0, n - 1 - x));
            } else if k == 1 {
                lemma_prism_edge(b, t, nx(w, n) + 2, 3);
                assert(is_slot(s, nx(w, n) + 2, 3));
            } else if k == 2 {
                lemma_prism_edge(b, t, 1, w);
                assert(is_slot(s, 1, w));
            } else {
                lemma_prism_edge(b, t, pv(w, n) + 2, 1);
                assert(is_slot(s, pv(w, n) + 2, 1));
            }
        }
    }
}

/// No vertex occurs twice among the loops `ls`, within a loop or across
/// loops.
pub open spec fn loops_distinct(ls: Seq<Seq<VertId>>) -> bool {
    forall|p: int, x: int, q: int, y: int|
        0 <= p < ls.len() && 0 <= x < ls[p].len() && 0 <= q < ls.len() && 0 <= y < ls[q].len() && (p != q || x != y)
            ==> #[trigger] ls[p][x] != #[trigger] ls[q][y]
}

/// The prisms over the loops `ls` with their copies `cs`, loop by loop.
pub open spec fn prisms(ls: Seq<Seq<VertId>>, cs: Seq<Seq<VertId>>) -> Seq<Seq<VertId>>
    decreases ls.len(),
{
    if ls.len() == 0 {
        Seq::empty()
    } else {
        prisms(ls.drop_last(), cs.drop_last()) + cylinder_loops(ls.last(), cs.last())
    }
}

/// Every vertex of the prisms is a vertex of one of the loops or copies.
proof fn lemma_prisms_vertex(ls: Seq<Seq<VertId>>, cs: Seq<Seq<VertId>>, i: int, k: int) -> (px: (int, int))
    requires
        cs.len() == ls.len(),
        forall|q: int| 0 <= q < ls.len() ==> (#[trigger] ls[q]).len() >= 3 && cs[q].len() == ls[q].len(),
        is_slot(prisms(ls, cs), i, k),
    ensures
        0 <= px.0 < ls.len(),
        0 <= px.1 < ls[px.0].len(),
        prisms(ls, cs)[i][k] == ls[px.0][px.1] || prisms(ls, cs)[i][k] == cs[px.0][px.1],
    decreases ls.len(),
{
    let m = ls.len() as int;
    let ls1 = ls.drop_last();
    let cs1 = cs.drop_last();
    let p1 = prisms(ls1, cs1);
    let cyl = cylinder_loops(ls.last(), cs.last());
    assert(prisms(ls, cs) == p1 + cyl);
    if i < p1.len() {
        assert(prisms(ls, cs)[i] == p1[i]);
        assert forall|q: int| 0 <= q < ls1.len() implies (#[trigger] ls1[q]).len() >= 3 && cs1[q].len() == ls1[q].len() by {
            assert(ls1[q] == ls[q] && cs1[q] == cs[q]);
        }
        let r = lemma_prisms_vertex(ls1, cs1, i, k);
        assert(ls1[r.0] == ls[r.0] && cs1[r.0] == cs[r.0]);
        r
    } else {
        let j = i - p1.len();
        assert(prisms(ls, cs)[i] == cyl[j]);
        assert(ls[m - 1].len() >= 3);
        lemma_prism_edge(ls.last(), cs.last(), j, k);
        let n = ls.last().len() as int;
        if j == 0 {
            (m - 1, n - 1 - k)
        } else if j == 1 {
            (m - 1, k)
        } else if k == 0 || k == 3 {
            (m - 1, j - 2)
        } else {
            (m - 1, nx(j - 2, n))
        }
    }
}

/// Prisms over vertex-distinct loops of at least three vertices, each with
/// a copy as long, all vertices distinct, are closed together. This is the
/// surface a Push/Pull that creates faces leaves: the base face's loops
/// reversed (the base flipped to face away), the top face's loops (the
/// copies) and a wall on every edge.
pub proof fn lemma_prisms_closed(ls: Seq<Seq<VertId>>, cs: Seq<Seq<VertId>>)
    requires
        cs.len() == ls.len(),
        forall|q: int| 0 <= q < ls.len() ==> (#[trigger] ls[q]).len() >= 3 && cs[q].len() == ls[q].len(),
        loops_distinct(ls + cs),
    ensures
        closed_surface(prisms(ls, cs)),
    decreases ls.len(),
{
    if ls.len() > 0 {
        let m = ls.len() as int;
        let ls1 = ls.drop_last();
        let cs1 = cs.drop_last();
        let b = ls.last();
        let t = cs.last();
        let all = ls + cs;
        let all1 = ls1 + cs1;
        assert forall|q: int| 0 <= q < ls1.len() implies (#[trigger] ls1[q]).len() >= 3 && cs1[q].len() == ls1[q].len() by {
            assert(ls1[q] == ls[q] && cs1[q] == cs[q]);
        }
        assert forall|p: int, x: int, q: int, y: int|
            0 <= p < all1.len() && 0 <= x < all1[p].len() && 0 <= q < all1.len() && 0 <= y < all1[q].len() && (p != q || x
                != y) implies #[trigger] all1[p][x] != #[trigger] all1[q][y] by {
            let p2 = if p < m - 1 { p } else { p + 1 };
            let q2 = if q < m - 1 { q } else { q + 1 };
            assert(all1[p] == all[p2]);
            assert(all1[q] == all[q2]);
            assert(all[p2][x] != all[q2][y]);
        }
        lemma_prisms_closed(ls1, cs1);
        assert(all[m - 1] == b && all[2 * m - 1] == t);
        assert(b.len() >= 3 && t.len() == b.len());
        assert forall|x: int, y: int| 0 <= x < b.len() && 0 <= y < b.len() && x != y implies b[x] != b[y] by {
            assert(all[m - 1][x] != all[m - 1][y]);
        }
        assert forall|x: int, y: int| 0 <= x < t.len() && 0 <= y < t.len() && x != y implies t[x] != t[y] by {
            assert(all[2 * m - 1][x] != all[2 * m - 1][y]);
        }
        assert forall|x: int, y: int| 0 <= x < b.len() && 0 <= y < t.len() implies #[trigger] b[x] != #[trigger] t[y] by {
            assert(all[m - 1][x] != all[2 * m - 1][y]);
        }
        lemma_prism_closed(b, t);
        let p1 = prisms(ls1, cs1);
        let cyl = cylinder_loops(b, t);
        assert forall|i: int, k: int, j: int, l: int| is_slot(p1, i, k) && is_slot(cyl, j, l) implies #[trigger] p1[i][k]
            != #[trigger] cyl[j][l] by {
            let r = lemma_prisms_vertex(ls1, cs1, i, k);
            assert(ls1[r.0] == all[r.0] && cs1[r.0] == all[m + r.0]);
            lemma_prism_edge(b, t, j, l);
            let n = b.len() as int;
            let z = if j == 0 {
                n - 1 - l
            } else if j == 1 {
                l
            } else if l == 0 || l == 3 {
                j - 2
            } else {
                nx(j - 2, n)
            };
            assert(cyl[j][l] == b[z] || cyl[j][l] == t[z]);
            assert(all[r.0][r.1] != all[m - 1][z]);
            assert(all[r.0][r.1] != all[2 * m - 1][z]);
            assert(all[m + r.0][r.1] != all[m - 1][z]);
            assert(all[m + r.0][r.1] != all[2 * m - 1][z]);
        }
        lemma_closed_union(p1, cyl);
        assert(prisms(ls, cs) == p1 + cyl);
    }
}

/// The corner indices of the edge leaving the `k`-th corner of box face `i`.
spec fn box_pair(i: int, k: int) -> (int, int) {
    (box_index_loops()[i][k], box_index_loops()[i][(k + 1) % 4])
}

/// For each edge of each box face, the face and position of the edge run
/// the other way.
spec fn box_twins() -> Seq<Seq<(int, int)>> {
    seq![
        seq![(5int, 3int), (3, 3), (4, 0), (2, 0)],
        seq![(2int, 2int), (4, 2), (3, 1), (5, 1)],
        seq![(0int, 3int), (4, 3), (1, 0), (5, 0)],
        seq![(5int, 2int), (1, 2), (4, 1), (0, 1)],
        seq![(0int, 2int), (3, 2), (1, 1), (2, 1)],
        seq![(2int, 3int), (1, 3), (3, 0), (0, 0)],
    ]
}

/// The corner pairs of the box faces, spelled out.
proof fn lemma_box_pairs()
    ensures
        box_pair(0, 0) == (0int, 3int) && box_pair(0, 1) == (3int, 2int) && box_pair(0, 2) == (2int, 1int) && box_pair(0, 3) == (1int, 0int),
        box_pair(1, 0) == (4int, 5int) && box_pair(1, 1) == (5int, 6int) && box_pair(1, 2) == (6int, 7int) && box_pair(1, 3) == (7int, 4int),
        box_pair(2, 0) == (0int, 1int) && box_pair(2, 1) == (1int, 5int) && box_pair(2, 2) == (5int, 4int) && box_pair(2, 3) == (4int, 0int),
        box_pair(3, 0) == (3int, 7int) && box_pair(3, 1) == (7int, 6int) && box_pair(3, 2) == (6int, 2int) && box_pair(3, 3) == (2int, 3int),
        box_pair(4, 0) == (1int, 2int) && box_pair(4, 1) == (2int, 6int) && box_pair(4, 2) == (6int, 5int) && box_pair(4, 3) == (5int, 1int),
        box_pair(5, 0) == (0int, 4int) && box_pair(5, 1) == (4int, 7int) && box_pair(5, 2) == (7int, 3int) && box_pair(5, 3) == (3int, 0int),
{
    let t = box_index_loops();
    assert(t[0] == seq![0int, 3, 2, 1]);
    assert(t[1] == seq![4int, 5, 6, 7]);
    assert(t[2] == seq![0int, 1, 5, 4]);
    assert(t[3] == seq![3int, 7, 6, 2]);
    assert(t[4] == seq![1int, 2, 6, 5]);
    assert(t[5] == seq![0int, 4, 7, 3]);
}

/// A box over eight distinct corners is closed: its six faces share every
/// edge in opposite directions, once.
pub proof fn lemma_box_closed(v: Seq<VertId>)
    requires
        v.len() == 8,
        v.no_duplicates(),
    ensures
        closed_surface(box_loops(v)),
{
    let s = box_loops(v);
    lemma_box_pairs();
    let tw = box_twins();
    assert(tw[0] == seq![(5int, 3int), (3, 3), (4, 0), (2, 0)]);
    assert(tw[1] == seq![(2int, 2int), (4, 2), (3, 1), (5, 1)]);
    assert(tw[2] == seq![(0int, 3int), (4, 3), (1, 0), (5, 0)]);
    assert(tw[3] == seq![(5int, 2int), (1, 2), (4, 1), (0, 1)]);
    assert(tw[4] == seq![(0int, 2int), (3, 2), (1, 1), (2, 1)]);
    assert(tw[5] == seq![(2int, 3int), (1, 3), (3, 0), (0, 0)]);
    assert forall|i: int, k: int| 0 <= i < 6 && 0 <= k < 4 implies {
        &&& s[i].len() == 4
        &&& #[trigger] dedge(s[i], k) == (v[box_pair(i, k).0], v[box_pair(i, k).1])
        &&& 0 <= box_pair(i, k).0 < 8
        &&& 0 <= box_pair(i, k).1 < 8
    } by {
        assert(s[i] == pick(v, box_index_loops()[i]));
        assert(i == 0 || i == 1 || i == 2 || i == 3 || i == 4 || i == 5);
        assert(k == 0 || k == 1 || k == 2 || k == 3);
    }
    assert forall|i: int, k: int, j: int, l: int|
        is_slot(s, i, k) && is_slot(s, j, l) && #[trigger] dedge(s[i], k) == #[trigger] dedge(s[j], l) implies i == j && k
        == l by {
        assert(s.len() == 6 && s[i].len() == 4 && s[j].len() == 4);
        assert(v[box_pair(i, k).0] == v[box_pair(j, l).0]);
        assert(v[box_pair(i, k).1] == v[box_pair(j, l).1]);
        assert(box_pair(i, k) == box_pair(j, l));
        assert(i == 0 || i == 1 || i == 2 || i == 3 || i == 4 || i == 5);
        assert(k == 0 || k == 1 || k == 2 || k == 3);
        assert(j == 0 || j == 1 || j == 2 || j == 3 || j == 4 || j == 5);
        assert(l == 0 || l == 1 || l == 2 || l == 3);
    }
    assert forall|i: int, k: int| #[trigger] is_slot(s, i, k) implies exists|j: int, l: int|
        #[trigger] is_slot(s, j, l) && dedge(s[j], l) == (dedge(s[i], k).1, dedge(s[i], k).0) by {
        assert(s.len() == 6 && s[i].len() == 4);
        let (j, l) = tw[i][k];
        assert(i == 0 || i == 1 || i == 2 || i == 3 || i == 4 || i == 5);
        assert(k == 0 || k == 1 || k == 2 || k == 3);
        assert(0 <= j < 6 && 0 <= l < 4);
        assert(box_pair(j, l) == (box_pair(i, k).1, box_pair(i, k).0));
        assert(is_slot(s, j, l));
    }
}

/// The edge of ring `r` leaving its `u`-th vertex.
pub open spec fn ring_edge(r: Seq<VertId>, u: int) -> (VertId, VertId) {
    (r[u], r[nx(u, r.len() as int)])
}

/// No loop of `s` has the vertex `x`.
pub open spec fn avoids(s: Seq<Seq<VertId>>, x: VertId) -> bool {
    forall|i: int, k: int| is_slot(s, i, k) ==> #[trigger] s[i][k] != x
}

/// Some loop of `s` has the directed edge `e`.
pub open spec fn has_edge(s: Seq<Seq<VertId>>, e: (VertId, VertId)) -> bool {
    exists|i: int, k: int| #[trigger] is_slot(s, i, k) && dedge(s[i], k) == e
}

/// The loops `s` bound a surface whose only open edges are those of the
/// ring `r`: no directed edge occurs twice; every edge is run backwards by
/// a loop or is an edge of `r`; every edge of `r` occurs; no edge of `r`
/// occurs run backwards.
pub open spec fn open_cap(s: Seq<Seq<VertId>>, r: Seq<VertId>) -> bool {
    &&& edges_unique(s)
    &&& forall|i: int, k: int|
        #[trigger] is_slot(s, i, k) ==> (exists|j: int, l: int|
            #[trigger] is_slot(s, j, l) && dedge(s[j], l) == (dedge(s[i], k).1, dedge(s[i], k).0)) || (exists|u: int|
            0 <= u < r.len() && dedge(s[i], k) == #[trigger] ring_edge(r, u))
    &&& forall|u: int| 0 <= u < r.len() ==> #[trigger] has_edge(s, ring_edge(r, u))
    &&& forall|i: int, k: int, u: int|
        is_slot(s, i, k) && 0 <= u < r.len() ==> #[trigger] dedge(s[i], k) != (#[trigger] ring_edge(r, u).1, ring_edge(r, u).0)
}

/// The quads between ring `r` and the next ring `t`, as in a sphere strip.
pub open spec fn row(r: Seq<VertId>, t: Seq<VertId>) -> Seq<Seq<VertId>> {
    Seq::new(r.len(), |u: int| seq![r[u], t[u], t[nx(u, r.len() as int)], r[nx(u, r.len() as int)]])
}

/// `nx` and `pv` undo each other, and `nx` is the `%` step.
pub(crate) proof fn lemma_nx_pv(u: int, n: int)
    requires
        0 <= u < n,
        n >= 3,
    ensures
        0 <= nx(u, n) < n,
        0 <= pv(u, n) < n,
        nx(pv(u, n), n) == u,
        pv(nx(u, n), n) == u,
        nx(u, n) != u,
        nx(nx(u, n), n) != u,
        (u + 1) % n == nx(u, n),
{
    lemma_next_index(u, n);
}

/// The edges of the fan of triangles `c, r[u], r[u + 1]`.
proof fn lemma_north_edge(c: VertId, r: Seq<VertId>, nu: int, i: int, k: int)
    requires
        nu >= 3,
        r.len() == nu,
        is_slot(north_fan(c, r, nu), i, k),
    ensures
        north_fan(c, r, nu).len() == nu,
        north_fan(c, r, nu)[i].len() == 3,
        0 <= i < nu,
        k == 0 ==> dedge(north_fan(c, r, nu)[i], k) == (c, r[i]),
        k == 1 ==> dedge(north_fan(c, r, nu)[i], k) == ring_edge(r, i),
        k == 2 ==> dedge(north_fan(c, r, nu)[i], k) == (r[nx(i, nu)], c),
{
    lemma_nx_pv(i, nu);
    assert(north_fan(c, r, nu)[i] == seq![c, r[i], r[nx(i, nu)]]);
}

/// The edges of the fan of triangles `r[u + 1], r[u], c`.
proof fn lemma_south_edge(c: VertId, r: Seq<VertId>, nu: int, i: int, k: int)
    requires
        nu >= 3,
        r.len() == nu,
        is_slot(south_fan(c, r, nu), i, k),
    ensures
        south_fan(c, r, nu).len() == nu,
        south_fan(c, r, nu)[i].len() == 3,
        0 <= i < nu,
        k == 0 ==> dedge(south_fan(c, r, nu)[i], k) == (ring_edge(r, i).1, ring_edge(r, i).0),
        k == 1 ==> dedge(south_fan(c, r, nu)[i], k) == (r[i], c),
        k == 2 ==> dedge(south_fan(c, r, nu)[i], k) == (c, r[nx(i, nu)]),
{
    lemma_nx_pv(i, nu);
    assert(south_fan(c, r, nu)[i] == seq![r[nx(i, nu)], r[i], c]);
}

/// The edges of the quads between rings `r` and `t`.
proof fn lemma_row_edge(r: Seq<VertId>, t: Seq<VertId>, i: int, k: int)
    requires
        r.len() >= 3,
        t.len() == r.len(),
        is_slot(row(r, t), i, k),
    ensures
        row(r, t).len() == r.len(),
        row(r, t)[i].len() == 4,
        0 <= i < r.len(),
        k == 0 ==> dedge(row(r, t)[i], k) == (r[i], t[i]),
        k == 1 ==> dedge(row(r, t)[i], k) == ring_edge(t, i),
        k == 2 ==> dedge(row(r, t)[i], k) == (t[nx(i, r.len() as int)], r[nx(i, r.len() as int)]),
        k == 3 ==> dedge(row(r, t)[i], k) == (ring_edge(r, i).1, ring_edge(r, i).0),
{
    lemma_nx_pv(i, r.len() as int);
    assert((k + 1) % 4 == if k == 3 { 0 } else { k + 1 });
}

/// A fan around `c` over a ring `r` of distinct vertices, none of them `c`,
/// is open exactly along `r`.
proof fn lemma_north_cap(c: VertId, r: Seq<VertId>, nu: int)
    requires
        nu >= 3,
        r.len() == nu,
        r.no_duplicates(),
        forall|y: int| 0 <= y < nu ==> #[trigger] r[y] != c,
    ensures
        open_cap(north_fan(c, r, nu), r),
{
    let s = north_fan(c, r, nu);
    assert forall|i: int, k: int, j: int, l: int|
        is_slot(s, i, k) && is_slot(s, j, l) && #[trigger] dedge(s[i], k) == #[trigger] dedge(s[j], l) implies i == j && k
        == l by {
        lemma_north_edge(c, r, nu, i, k);
        lemma_north_edge(c, r, nu, j, l);
        lemma_nx_pv(i, nu);
        lemma_nx_pv(j, nu);
    }
    assert forall|i: int, k: int| #[trigger] is_slot(s, i, k) implies (exists|j: int, l: int|
        #[trigger] is_slot(s, j, l) && dedge(s[j], l) == (dedge(s[i], k).1, dedge(s[i], k).0)) || (exists|u: int|
        0 <= u < r.len() && dedge(s[i], k) == #[trigger] ring_edge(r, u)) by {
        lemma_north_edge(c, r, nu, i, k);
        lemma_nx_pv(i, nu);
        if k == 0 {
            lemma_north_edge(c, r, nu, pv(i, nu), 2);
            assert(is_slot(s, pv(i, nu), 2));
        } else if k == 1 {
            assert(dedge(s[i], k) == ring_edge(r, i));
        } else {
            lemma_north_edge(c, r, nu, nx(i, nu), 0);
            assert(is_slot(s, nx(i, nu), 0));
        }
    }
    assert forall|u: int| 0 <= u < r.len() implies #[trigger] has_edge(s, ring_edge(r, u)) by {
        lemma_north_edge(c, r, nu, u, 1);
        assert(is_slot(s, u, 1));
    }
    assert forall|i: int, k: int, u: int|
        is_slot(s, i, k) && 0 <= u < r.len() implies #[trigger] dedge(s[i], k) != (#[trigger] ring_edge(r, u).1, ring_edge(r, u).0) by {
        lemma_north_edge(c, r, nu, i, k);
        lemma_nx_pv(i, nu);
        lemma_nx_pv(u, nu);
    }
}

/// Adding the quads between the open ring `r` of a cap and a next ring `t`
/// of new distinct vertices leaves a cap open exactly along `t`.
proof fn lemma_cap_row(s: Seq<Seq<VertId>>, r: Seq<VertId>, t: Seq<VertId>)
    requires
        open_cap(s, r),
        r.len() >= 3,
        t.len() == r.len(),
        r.no_duplicates(),
        t.no_duplicates(),
        forall|x: int, y: int| 0 <= x < r.len() && 0 <= y < t.len() ==> #[trigger] r[x] != #[trigger] t[y],
        forall|y: int| 0 <= y < t.len() ==> avoids(s, #[trigger] t[y]),
    ensures
        open_cap(s + row(r, t), t),
{
    let w = row(r, t);
    let s2 = s + w;
    let m = s.len() as int;
    let nu = r.len() as int;
    assert forall|i: int, k: int, j: int, l: int|
        is_slot(s2, i, k) && is_slot(s2, j, l) && #[trigger] dedge(s2[i], k) == #[trigger] dedge(s2[j], l) implies i == j && k
        == l by {
        if i < m && j < m {
            assert(s2[i] == s[i] && s2[j] == s[j]);
            assert(is_slot(s, i, k) && is_slot(s, j, l));
            assert(dedge(s[i], k) == dedge(s[j], l));
        } else if i >= m && j >= m {
            assert(s2[i] == w[i - m] && s2[j] == w[j - m]);
            lemma_row_edge(r, t, i - m, k);
            lemma_row_edge(r, t, j - m, l);
            lemma_nx_pv(i - m, nu);
            lemma_nx_pv(j - m, nu);
        } else {
            let (a, ka, b, kb) = if i < m { (i, k, j - m, l) } else { (j, l, i - m, k) };
            assert(s2[a] == s[a] && s2[b + m] == w[b]);
            assert(is_slot(s, a, ka));
            lemma_row_edge(r, t, b, kb);
            lemma_nx_pv(b, nu);
            assert(dedge(s[a], ka) == dedge(w[b], kb));
            assert(s[a][ka] == dedge(s[a], ka).0);
            let ka1 = (ka + 1) % (s[a].len() as int);
            assert(0 <= ka1 < s[a].len());
            assert(is_slot(s, a, ka1));
            assert(avoids(s, t[b]));
            assert(avoids(s, t[nx(b, nu)]));
            assert(s[a][ka1] == dedge(s[a], ka).1);
            if kb == 3 {
                assert(dedge(s[a], ka) != (ring_edge(r, b).1, ring_edge(r, b).0));
            }
        }
    }
    assert forall|i: int, k: int| #[trigger] is_slot(s2, i, k) implies (exists|j: int, l: int|
        #[trigger] is_slot(s2, j, l) && dedge(s2[j], l) == (dedge(s2[i], k).1, dedge(s2[i], k).0)) || (exists|u: int|
        0 <= u < t.len() && dedge(s2[i], k) == #[trigger] ring_edge(t, u)) by {
        if i < m {
            assert(s2[i] == s[i]);
            assert(is_slot(s, i, k));
            if exists|j: int, l: int| #[trigger] is_slot(s, j, l) && dedge(s[j], l) == (dedge(s[i], k).1, dedge(s[i], k).0) {
                let (j, l) = choose|j: int, l: int| #[trigger] is_slot(s, j, l) && dedge(s[j], l) == (dedge(s[i], k).1, dedge(s[i], k).0);
                assert(s2[j] == s[j]);
                assert(is_slot(s2, j, l));
            } else {
                let u = choose|u: int| 0 <= u < r.len() && dedge(s[i], k) == #[trigger] ring_edge(r, u);
                lemma_row_edge(r, t, u, 3);
                assert(s2[u + m] == w[u]);
                assert(is_slot(s2, u + m, 3));
            }
        } else {
            let b = i - m;
            assert(s2[i] == w[b]);
            lemma_row_edge(r, t, b, k);
            lemma_nx_pv(b, nu);
            if k == 0 {
                lemma_row_edge(r, t, pv(b, nu), 2);
                assert(s2[pv(b, nu) + m] == w[pv(b, nu)]);
                assert(is_slot(s2, pv(b, nu) + m, 2));
            } else if k == 1 {
                assert(dedge(s2[i], k) == ring_edge(t, b));
            } else if k == 2 {
                lemma_row_edge(r, t, nx(b, nu), 0);
                assert(s2[nx(b, nu) + m] == w[nx(b, nu)]);
                assert(is_slot(s2, nx(b, nu) + m, 0));
            } else {
                assert(has_edge(s, ring_edge(r, b)));
                let (j, l) = choose|j: int, l: int| #[trigger] is_slot(s, j, l) && dedge(s[j], l) == ring_edge(r, b);
                assert(s2[j] == s[j]);
                assert(is_slot(s2, j, l));
            }
        }
    }
    assert forall|u: int| 0 <= u < t.len() implies #[trigger] has_edge(s2, ring_edge(t, u)) by {
        lemma_row_edge(r, t, u, 1);
        assert(s2[u + m] == w[u]);
        assert(is_slot(s2, u + m, 1));
    }
    assert forall|i: int, k: int, u: int|
        is_slot(s2, i, k) && 0 <= u < t.len() implies #[trigger] dedge(s2[i], k) != (#[trigger] ring_edge(t, u).1, ring_edge(t, u).0) by {
        lemma_nx_pv(u, nu);
        if i < m {
            assert(s2[i] == s[i]);
            assert(is_slot(s, i, k));
            assert(avoids(s, t[nx(u, nu)]));
            assert(s[i][k] == dedge(s[i], k).0);
        } else {
            assert(s2[i] == w[i - m]);
            lemma_row_edge(r, t, i - m, k);
            lemma_nx_pv(i - m, nu);
        }
    }
}

/// A cap open along ring `r`, closed off by the fan of triangles
/// `r[u + 1], r[u], c` around a vertex `c` it does not have, is closed.
proof fn lemma_cap_close(s: Seq<Seq<VertId>>, r: Seq<VertId>, c: VertId, nu: int)
    requires
        open_cap(s, r),
        nu >= 3,
        r.len() == nu,
        r.no_duplicates(),
        forall|y: int| 0 <= y < nu ==> #[trigger] r[y] != c,
        avoids(s, c),
    ensures
        closed_surface(s + south_fan(c, r, nu)),
{
    let w = south_fan(c, r, nu);
    let s2 = s + w;
    let m = s.len() as int;
    assert forall|i: int, k: int, j: int, l: int|
        is_slot(s2, i, k) && is_slot(s2, j, l) && #[trigger] dedge(s2[i], k) == #[trigger] dedge(s2[j], l) implies i == j && k
        == l by {
        if i < m && j < m {
            assert(s2[i] == s[i] && s2[j] == s[j]);
            assert(is_slot(s, i, k) && is_slot(s, j, l));
            assert(dedge(s[i], k) == dedge(s[j], l));
        } else if i >= m && j >= m {
            assert(s2[i] == w[i - m] && s2[j] == w[j - m]);
            lemma_south_edge(c, r, nu, i - m, k);
            lemma_south_edge(c, r, nu, j - m, l);
            lemma_nx_pv(i - m, nu);
            lemma_nx_pv(j - m, nu);
        } else {
            let (a, ka, b, kb) = if i < m { (i, k, j - m, l) } else { (j, l, i - m, k) };
            assert(s2[a] == s[a] && s2[b + m] == w[b]);
            assert(is_slot(s, a, ka));
            lemma_south_edge(c, r, nu, b, kb);
            assert(dedge(s[a], ka) == dedge(w[b], kb));
            assert(s[a][ka] == dedge(s[a], ka).0);
            let ka1 = (ka + 1) % (s[a].len() as int);
            assert(is_slot(s, a, ka1));
            assert(s[a][ka1] == dedge(s[a], ka).1);
            if kb == 0 {
                assert(dedge(s[a], ka) != (ring_edge(r, b).1, ring_edge(r, b).0));
            }
        }
    }
    assert forall|i: int, k: int| #[trigger] is_slot(s2, i, k) implies exists|j: int, l: int|
        #[trigger] is_slot(s2, j, l) && dedge(s2[j], l) == (dedge(s2[i], k).1, dedge(s2[i], k).0) by {
        if i < m {
            assert(s2[i] == s[i]);
            assert(is_slot(s, i, k));
            if exists|j: int, l: int| #[trigger] is_slot(s, j, l) && dedge(s[j], l) == (dedge(s[i], k).1, dedge(s[i], k).0) {
                let (j, l) = choose|j: int, l: int| #[trigger] is_slot(s, j, l) && dedge(s[j], l) == (dedge(s[i], k).1, dedge(s[i], k).0);
                assert(s2[j] == s[j]);
                assert(is_slot(s2, j, l));
            } else {
                let u = choose|u: int| 0 <= u < r.len() && dedge(s[i], k) == #[trigger] ring_edge(r, u);
                lemma_south_edge(c, r, nu, u, 0);
                assert(s2[u + m] == w[u]);
                assert(is_slot(s2, u + m, 0));
            }
        } else {
            let b = i - m;
            assert(s2[i] == w[b]);
            lemma_south_edge(c, r, nu, b, k);
            lemma_nx_pv(b, nu);
            if k == 0 {
                assert(has_edge(s, ring_edge(r, b)));
                let (j, l) = choose|j: int, l: int| #[trigger] is_slot(s, j, l) && dedge(s[j], l) == ring_edge(r, b);
                assert(s2[j] == s[j]);
                assert(is_slot(s2, j, l));
            } else if k == 1 {
                lemma_south_edge(c, r, nu, pv(b, nu), 2);
                assert(s2[pv(b, nu) + m] == w[pv(b, nu)]);
                assert(is_slot(s2, pv(b, nu) + m, 2));
            } else {
                lemma_south_edge(c, r, nu, nx(b, nu), 1);
                assert(s2[nx(b, nu) + m] == w[nx(b, nu)]);
                assert(is_slot(s2, nx(b, nu) + m, 1));
            }
        }
    }
}

/// The pole and ring vertices of a sphere, all distinct, spelled out.
proof fn lemma_sphere_distinct(n: VertId, s: VertId, g: Seq<Seq<VertId>>)
    requires
        loops_distinct(seq![seq![n, s]] + g),
    ensures
        n != s,
        forall|k: int, x: int| 0 <= k < g.len() && 0 <= x < g[k].len() ==> #[trigger] g[k][x] != n && g[k][x] != s,
        forall|k: int, x: int, k2: int, y: int|
            0 <= k < g.len() && 0 <= x < g[k].len() && 0 <= k2 < g.len() && 0 <= y < g[k2].len() && (k != k2 || x != y)
                ==> #[trigger] g[k][x] != #[trigger] g[k2][y],
{
    let l = seq![seq![n, s]] + g;
    assert(l[0] == seq![n, s]);
    assert(l[0][0] != l[0][1]);
    assert forall|k: int, x: int| 0 <= k < g.len() && 0 <= x < g[k].len() implies #[trigger] g[k][x] != n && g[k][x] != s by {
        assert(l[k + 1] == g[k]);
        assert(l[k + 1][x] != l[0][0]);
        assert(l[k + 1][x] != l[0][1]);
    }
    assert forall|k: int, x: int, k2: int, y: int|
        0 <= k < g.len() && 0 <= x < g[k].len() && 0 <= k2 < g.len() && 0 <= y < g[k2].len() && (k != k2 || x != y)
            implies #[trigger] g[k][x] != #[trigger] g[k2][y] by {
        assert(l[k + 1] == g[k] && l[k2 + 1] == g[k2]);
        assert(l[k + 1][x] != l[k2 + 1][y]);
    }
}

/// The north cap of a sphere down to ring `v`: open exactly along ring
/// `v`, and without the south pole or any vertex of a later ring.
proof fn lemma_sphere_caps(n: VertId, s: VertId, g: Seq<Seq<VertId>>, nu: int, v: int)
    requires
        nu >= 3,
        forall|k: int| 0 <= k < g.len() ==> (#[trigger] g[k]).len() == nu,
        loops_distinct(seq![seq![n, s]] + g),
        0 <= v < g.len(),
    ensures
        open_cap(north_fan(n, g[0], nu) + strips(g, nu, v), g[v]),
        avoids(north_fan(n, g[0], nu) + strips(g, nu, v), s),
        forall|k: int, y: int| v < k < g.len() && 0 <= y < nu ==> avoids(north_fan(n, g[0], nu) + strips(g, nu, v), #[trigger] g[k][y]),
    decreases v,
{
    lemma_sphere_distinct(n, s, g);
    let cap = north_fan(n, g[0], nu) + strips(g, nu, v);
    if v == 0 {
        assert(strips(g, nu, 0) =~= Seq::<Seq<VertId>>::empty());
        assert(cap =~= north_fan(n, g[0], nu));
        assert(g[0].len() == nu);
        lemma_north_cap(n, g[0], nu);
        assert forall|i: int, k: int| is_slot(cap, i, k) implies #[trigger] cap[i][k] != s && forall|k2: int, y: int|
            0 < k2 < g.len() && 0 <= y < nu ==> cap[i][k] != #[trigger] g[k2][y] by {
            lemma_north_edge(n, g[0], nu, i, k);
            lemma_nx_pv(i, nu);
            assert(cap[i][k] == dedge(cap[i], k).0);
        }
    } else {
        lemma_sphere_caps(n, s, g, nu, v - 1);
        let prev = north_fan(n, g[0], nu) + strips(g, nu, v - 1);
        let r = g[v - 1];
        let t = g[v];
        assert(Seq::new(nu as nat, |u: int| strip_quad(g, nu, v - 1, u)) =~= row(r, t)) by {
            assert forall|u: int| 0 <= u < nu implies strip_quad(g, nu, v - 1, u) == #[trigger] row(r, t)[u] by {
                lemma_nx_pv(u, nu);
            }
        }
        assert(cap =~= prev + row(r, t));
        assert(r.len() == nu && t.len() == nu);
        assert forall|x: int, y: int| 0 <= x < r.len() && 0 <= y < r.len() && x != y implies r[x] != r[y] by {
            assert(g[v - 1][x] != g[v - 1][y]);
        }
        assert forall|x: int, y: int| 0 <= x < t.len() && 0 <= y < t.len() && x != y implies t[x] != t[y] by {
            assert(g[v][x] != g[v][y]);
        }
        assert forall|x: int, y: int| 0 <= x < r.len() && 0 <= y < t.len() implies #[trigger] r[x] != #[trigger] t[y] by {
            assert(g[v - 1][x] != g[v][y]);
        }
        assert forall|y: int| 0 <= y < t.len() implies avoids(prev, #[trigger] t[y]) by {
            assert(avoids(prev, g[v][y]));
        }
        lemma_cap_row(prev, r, t);
        let w = row(r, t);
        let m = prev.len() as int;
        assert forall|i: int, k: int| is_slot(cap, i, k) implies #[trigger] cap[i][k] != s && forall|k2: int, y: int|
            v < k2 < g.len() && 0 <= y < nu ==> cap[i][k] != #[trigger] g[k2][y] by {
            if i < m {
                assert(cap[i] == prev[i]);
                assert(is_slot(prev, i, k));
                assert forall|k2: int, y: int| v < k2 < g.len() && 0 <= y < nu implies cap[i][k] != #[trigger] g[k2][y] by {
                    assert(avoids(prev, g[k2][y]));
                }
            } else {
                assert(cap[i] == w[i - m]);
                lemma_row_edge(r, t, i - m, k);
                lemma_nx_pv(i - m, nu);
                assert(cap[i][k] == dedge(cap[i], k).0);
            }
        }
    }
}

/// A sphere with distinct poles and rings of at least three distinct
/// vertices is closed: its north fan, quad strips and south fan share
/// every edge in opposite directions, once.
pub proof fn lemma_sphere_closed(n: VertId, s: VertId, g: Seq<Seq<VertId>>, nu: int)
    requires
        nu >= 3,
        g.len() >= 1,
        forall|k: int| 0 <= k < g.len() ==> (#[trigger] g[k]).len() == nu,
        loops_distinct(seq![seq![n, s]] + g),
    ensures
        closed_surface(sphere_loops(n, s, g, nu)),
{
    let last = g.len() - 1;
    lemma_sphere_distinct(n, s, g);
    lemma_sphere_caps(n, s, g, nu, last);
    let r = g[last];
    assert(r.len() == nu);
    assert forall|x: int, y: int| 0 <= x < r.len() && 0 <= y < r.len() && x != y implies r[x] != r[y] by {
        assert(g[last][x] != g[last][y]);
    }
    assert forall|y: int| 0 <= y < nu implies #[trigger] r[y] != s by {
        assert(g[last][y] != s);
    }
    lemma_cap_close(north_fan(n, g[0], nu) + strips(g, nu, last), r, s, nu);
}

} // verus!
