//! Orient faces: reverse face windings so that neighbouring faces agree.
//!
//! A face is flipped by negating its stored normal and reversing every one of
//! its loops. `orient_faces` floods each connected component breadth-first
//! and flips a neighbour whose loop runs along a shared edge in the same
//! direction as the face it was reached from.
use vstd::prelude::*;

use crate::ids::{FaceId, HeId, VertId, NULL_RAW};
use crate::mesh::{
    closes_at, cyc_prev, dsts_of, edge_refs_ok, loop_consistent, loop_owned, face_refs_ok, has_loop, he_refs_ok, is_loop_of, lemma_loop_distinct,
    lemma_loop_of_is_loop_seq, lemma_walk_add, lemma_walk_in_range, loop_len, loop_ref_ok, loop_seq, neg_bits, walk, Face,
    HalfEdge, Mesh, MeshError, edge_joins, faces_met, rad_steps, walk_rad, lemma_walk_rad_in_range,
};

verus! {

/// Result of `orient_faces`.
pub struct OrientResult {
    /// Number of faces that were flipped.
    pub flipped: usize,
    /// Number of faces visited.
    pub visited: usize,
}

// ───────────────────────── neighbour direction test ─────────────────────────

/// Position `i` of the cyclic list `nb` runs `a -> b`.
pub open spec fn runs(nb: Seq<VertId>, i: int, a: VertId, b: VertId) -> bool {
    nb[i] == a && nb[(i + 1) % (nb.len() as int)] == b
}

/// The first position of `nb` that runs along edge `{v0, v1}` (either way)
/// runs `v0 -> v1`.
pub open spec fn first_run_same_dir(nb: Seq<VertId>, v0: VertId, v1: VertId) -> bool {
    exists|i: int|
        0 <= i < nb.len() && runs(nb, i, v0, v1) && forall|j: int|
            0 <= j < i ==> !runs(nb, j, v0, v1) && !runs(nb, j, v1, v0)
}

/// Whether a neighbour whose loop is `nb` must be flipped so that it runs
/// along the shared edge opposite to a face that runs `v0 -> v1`: true when
/// the first occurrence of the edge in `nb` has the same direction, false
/// when it has the opposite direction or the edge does not occur.
pub fn check_needs_flip(v0: VertId, v1: VertId, nb_boundary: &[VertId]) -> (res: bool)
    ensures
        res == first_run_same_dir(nb_boundary@, v0, v1),
{
    let n = nb_boundary.len();
    let mut i: usize = 0;
    while i < n
        invariant
            n == nb_boundary@.len(),
            0 <= i <= n,
            forall|j: int| 0 <= j < i ==> !runs(nb_boundary@, j, v0, v1) && !runs(nb_boundary@, j, v1, v0),
        decreases n - i,
    {
        let a = nb_boundary[i];
        let b = if i + 1 == n { nb_boundary[0] } else { nb_boundary[i + 1] };
        assert(b == nb_boundary@[(i + 1) % (n as int)]) by {
            if i + 1 < n {
                vstd::arithmetic::div_mod::lemma_small_mod((i + 1) as nat, n as nat);
            } else {
                vstd::arithmetic::div_mod::lemma_mod_self_0(n as int);
            }
        }
        if a == v0 && b == v1 {
            assert(runs(nb_boundary@, i as int, v0, v1));
            return true;
        }
        if a == v1 && b == v0 {
            assert(runs(nb_boundary@, i as int, v1, v0));
            assert(!first_run_same_dir(nb_boundary@, v0, v1)) by {
                if first_run_same_dir(nb_boundary@, v0, v1) {
                    let w = choose|w: int|
                        0 <= w < nb_boundary@.len() && runs(nb_boundary@, w, v0, v1) && forall|j: int|
                            0 <= j < w ==> !runs(nb_boundary@, j, v0, v1) && !runs(nb_boundary@, j, v1, v0);
                    if w < i {
                    } else if w > i {
                        assert(!runs(nb_boundary@, i as int, v1, v0));
                    } else {
                        assert(v0 == v1);
                    }
                }
            }
            return false;
        }
        i = i + 1;
    }
    false
}

// ───────────────────────── loop reversal ─────────────────────────

/// Same half-edge apart from its destination.
pub open spec fn same_but_dst(a: HalfEdge, b: HalfEdge) -> bool {
    &&& a.next == b.next
    &&& a.prev == b.prev
    &&& a.edge == b.edge
    &&& a.face == b.face
    &&& a.next_rad == b.next_rad
}

/// Half-edge index `j` is on the loop `v`.
pub open spec fn in_loop(v: Seq<HeId>, j: int) -> bool {
    exists|k: int| 0 <= k < v.len() && v[k].id as int == j
}

/// `d` is the destination of some half-edge of loop `v` in `hes`.
pub open spec fn is_loop_dst(hes: Seq<HalfEdge>, v: Seq<HeId>, d: VertId) -> bool {
    exists|k: int| 0 <= k < v.len() && hes[v[k].id as int].dst == d
}


/// `h1` is `h0` with the loop that starts at `s` reversed: on the loop,
/// `next` and `prev` are exchanged and each half-edge takes the destination
/// of its old predecessor (exactly so when the loop is owned by a face;
/// otherwise some destination of the loop). Off the loop only destinations
/// change, and only on free half-edges (twins), to destinations of the loop.
/// Loops of fewer than three half-edges are left alone.
pub open spec fn reversed(h0: Seq<HalfEdge>, h1: Seq<HalfEdge>, s: int) -> bool {
    let v = loop_seq(h0, s);
    let n = v.len() as int;
    &&& h1.len() == h0.len()
    &&& if n < 3 {
        h1 == h0
    } else {
        &&& forall|k: int|
            0 <= k < n ==> {
                let a = #[trigger] h0[v[k].id as int];
                let b = h1[v[k].id as int];
                &&& b.next == a.prev
                &&& b.prev == a.next
                &&& b.edge == a.edge
                &&& b.face == a.face
                &&& b.next_rad == a.next_rad
                &&& is_loop_dst(h0, v, b.dst)
            }
        &&& loop_owned(h0, v) ==> forall|k: int|
            0 <= k < n ==> #[trigger] h1[v[k].id as int].dst == h0[v[cyc_prev(k, n)].id as int].dst
        &&& forall|j: int|
            0 <= j < h0.len() && !in_loop(v, j) ==> same_but_dst(#[trigger] h1[j], h0[j]) && (h1[j].dst
                == h0[j].dst || (h0[j].face.id == NULL_RAW && is_loop_dst(h0, v, h1[j].dst)))
    }
}

/// Mesh arrays other than the half-edges are untouched.
pub open spec fn only_hes_changed(a: &Mesh, b: &Mesh) -> bool {
    &&& b.verts@ == a.verts@
    &&& b.edges@ == a.edges@
    &&& b.faces@ == a.faces@
    &&& b.sphere_path_b == a.sphere_path_b
    &&& b.cylinder_path_b == a.cylinder_path_b
    &&& b.cone_path_b == a.cone_path_b
}

/// Replacing half-edge `j` by one with the same links and an in-range
/// destination keeps the mesh well-formed.
proof fn lemma_wf_set_he(m0: &Mesh, m1: &Mesh, j: int)
    requires
        m0.wf(),
        0 <= j < m0.nh(),
        only_hes_changed(m0, m1),
        m1.hes@ == m0.hes@.update(j, m1.hes@[j]),
        same_but_dst(m1.hes@[j], m0.hes@[j]),
        (m1.hes@[j].dst.id as int) < m0.nv(),
    ensures
        m1.wf(),
{
    assert forall|i: int| 0 <= i < m1.nh() implies #[trigger] he_refs_ok(m1.hes@[i], m1.nv(), m1.nh(), m1.ne(), m1.nf()) by {
        assert(he_refs_ok(m0.hes@[i], m0.nv(), m0.nh(), m0.ne(), m0.nf()));
    }
    assert forall|i: int| 0 <= i < m1.ne() implies #[trigger] edge_refs_ok(m1.edges@[i], m1.nv(), m1.nh()) by {
        assert(edge_refs_ok(m0.edges@[i], m0.nv(), m0.nh()));
    }
    assert forall|i: int| 0 <= i < m1.nf() && (#[trigger] m1.faces@[i]).is_some() implies face_refs_ok(m1.faces@[i].unwrap(), m1.nh()) by {
        assert(face_refs_ok(m0.faces@[i].unwrap(), m0.nh()));
    }
}

/// The half-edge `update_twin_dst` treats as the twin of `h`: the
/// representative of `h`'s edge, or, when that is `h` itself, the next one
/// on its radial list (`h` again when it is alone).
pub open spec fn rad_twin(m: &Mesh, h: HeId) -> HeId {
    let any = m.edges@[m.hes@[h.id as int].edge.id as int].any_he;
    if any != h {
        any
    } else {
        m.hes@[h.id as int].next_rad
    }
}

/// Half-edge `x` with its destination replaced by `d`.
pub open spec fn with_dst(x: HalfEdge, d: VertId) -> HalfEdge {
    HalfEdge { next: x.next, prev: x.prev, dst: d, edge: x.edge, face: x.face, next_rad: x.next_rad }
}

/// The half-edges after pointing the twin of `h` at `d`: the twin changes
/// only when it is not `h` and is free.
pub open spec fn twin_pointed(m: &Mesh, h: HeId, d: VertId) -> Seq<HalfEdge> {
    let t = rad_twin(m, h);
    if t != h && m.hes@[t.id as int].face.id == NULL_RAW {
        m.hes@.update(t.id as int, with_dst(m.hes@[t.id as int], d))
    } else {
        m.hes@
    }
}

impl Mesh {
    /// Point the twin of half-edge `h` at `d`: walk the radial list of
    /// `h`'s edge from its representative for at most 16 half-edges; the
    /// first one other than `h` is the twin, and it is updated only if it is
    /// free (no face), since a claimed twin belongs to another face's loop.
    fn update_twin_dst(&mut self, h: HeId, d: VertId)
        requires
            old(self).wf(),
            (h.id as int) < old(self).nh(),
            (d.id as int) < old(self).nv(),
        ensures
            final(self).wf(),
            only_hes_changed(old(self), final(self)),
            final(self).hes@.len() == old(self).hes@.len(),
            forall|j: int|
                0 <= j < old(self).nh() ==> same_but_dst(#[trigger] final(self).hes@[j], old(self).hes@[j]) && (
                final(self).hes@[j].dst == old(self).hes@[j].dst || (j != h.id as int
                    && old(self).hes@[j].face.id == NULL_RAW && final(self).hes@[j].dst == d)),
            final(self).hes@ == twin_pointed(old(self), h, d),
    {
        let ghost m0 = *self;
        assert(he_refs_ok(self.hes@[h.id as int], self.nv(), self.nh(), self.ne(), self.nf()));
        let e = self.hes[h.id as usize].edge;
        assert(edge_refs_ok(self.edges@[e.id as int], self.nv(), self.nh()));
        let any = self.edges[e.id as usize].any_he;
        let mut tw = any;
        let mut guard: usize = 0;
        while guard < 16
            invariant
                *self == m0,
                m0 == *old(self),
                m0.wf(),
                (tw.id as int) < m0.nh(),
                (d.id as int) < m0.nv(),
                (h.id as int) < m0.nh(),
                0 <= guard <= 1,
                guard == 0 ==> tw == m0.edges@[m0.hes@[h.id as int].edge.id as int].any_he,
                any == m0.edges@[m0.hes@[h.id as int].edge.id as int].any_he,
                guard == 1 ==> any == h && tw == m0.hes@[h.id as int].next_rad && tw != h,
            decreases 16 - guard,
        {
            guard = guard + 1;
            if tw.id != h.id {
                let mut x = self.hes[tw.id as usize];
                proof {
                    assert(rad_twin(&m0, h) == tw);
                }
                if x.face.id == NULL_RAW {
                    x.dst = d;
                    self.hes.set(tw.id as usize, x);
                    proof {
                        lemma_wf_set_he(&m0, self, tw.id as int);
                        assert(self.hes@ =~= twin_pointed(&m0, h, d));
                    }
                }
                return;
            }
            assert(he_refs_ok(self.hes@[tw.id as int], self.nv(), self.nh(), self.ne(), self.nf()));
            tw = self.hes[tw.id as usize].next_rad;
            if tw.id == any.id {
                return;
            }
        }
    }

    /// Reverse the loop that starts at `start` in place: exchange `next` and
    /// `prev` on every half-edge of the loop, give each half-edge the
    /// destination of its old predecessor, and point each free twin the other
    /// way. Loops of fewer than three half-edges are left alone.
    #[verifier::rlimit(100)]
    pub fn reverse_loop(&mut self, start: HeId) -> (res: Result<(), MeshError>)
        requires
            old(self).wf(),
        ensures
            final(self).wf(),
            only_hes_changed(old(self), final(self)),
            match res {
                Ok(()) => has_loop(old(self).hes@, start.id as int) && reversed(
                    old(self).hes@,
                    final(self).hes@,
                    start.id as int,
                ),
                Err(_) => !has_loop(old(self).hes@, start.id as int) && final(self).hes@ == old(
                    self,
                ).hes@,
            },
    {
        let ghost m0 = *self;
        let ghost s = start.id as int;
        let hv = self.collect_loop_hes(start)?;
        let n = hv.len();
        if n < 3 {
            return Ok(());
        }
        proof {
            lemma_loop_distinct(m0.hes@, s, hv@);
            assert forall|k: int| 0 <= k < n implies (#[trigger] hv@[k]).id < m0.nh() by {
                if k > 0 {
                    lemma_walk_in_range(&m0, s, (k - 1) as nat);
                    let p = walk(m0.hes@, s, (k - 1) as nat);
                    assert(he_refs_ok(m0.hes@[p], m0.nv(), m0.nh(), m0.ne(), m0.nf()));
                }
            }
        }
        // exchange next and prev
        let mut i: usize = 0;
        while i < n
            invariant
                m0.wf(),
                n == hv@.len(),
                hv@ == loop_seq(m0.hes@, s),
                forall|a: int, b: int| 0 <= a < b < n ==> hv@[a].id != hv@[b].id,
                forall|k: int| 0 <= k < n ==> (#[trigger] hv@[k]).id < m0.nh(),
                0 <= i <= n,
                only_hes_changed(&m0, self),
                self.hes@.len() == m0.hes@.len(),
                forall|k: int| 0 <= k < i ==> {
                    let a = #[trigger] m0.hes@[hv@[k].id as int];
                    let b = self.hes@[hv@[k].id as int];
                    b.next == a.prev && b.prev == a.next && b.edge == a.edge && b.face == a.face
                        && b.next_rad == a.next_rad && b.dst == a.dst
                },
                forall|j: int| 0 <= j < m0.nh() && !(exists|k: int| 0 <= k < i && hv@[k].id as int == j)
                    ==> #[trigger] self.hes@[j] == m0.hes@[j],
            decreases n - i,
        {
            let h = hv[i];
            let mut x = self.hes[h.id as usize];
            let nx = x.next;
            x.next = x.prev;
            x.prev = nx;
            self.hes.set(h.id as usize, x);
            i = i + 1;
            proof {
                assert forall|k: int| 0 <= k < i implies {
                    let a = #[trigger] m0.hes@[hv@[k].id as int];
                    let b = self.hes@[hv@[k].id as int];
                    b.next == a.prev && b.prev == a.next && b.edge == a.edge && b.face == a.face
                        && b.next_rad == a.next_rad && b.dst == a.dst
                } by {
                    if k < i - 1 {
                        assert(hv@[k].id != hv@[i - 1].id);
                    }
                }
                assert forall|j: int| 0 <= j < m0.nh() && !(exists|k: int| 0 <= k < i && hv@[k].id as int == j)
                    implies #[trigger] self.hes@[j] == m0.hes@[j] by {
                    assert(hv@[i - 1].id as int != j);
                }
            }
        }
        let ghost m1 = *self;
        proof {
            lemma_wf_swap(&m0, &m1, hv@);
        }
        // destinations of the loop, in loop order
        let mut dsts: Vec<VertId> = Vec::new();
        let mut i: usize = 0;
        while i < n
            invariant
                n == hv@.len(),
                *self == m1,
                forall|k: int| 0 <= k < n ==> (#[trigger] hv@[k]).id < m0.nh(),
                self.hes@.len() == m0.hes@.len(),
                0 <= i <= n,
                dsts@.len() == i,
                forall|k: int| 0 <= k < i ==> #[trigger] dsts@[k] == self.hes@[hv@[k].id as int].dst,
            decreases n - i,
        {
            dsts.push(self.hes[hv[i].id as usize].dst);
            i = i + 1;
        }
        proof {
            assert forall|k: int| 0 <= k < n implies #[trigger] dsts@[k] == m0.hes@[hv@[k].id as int].dst by {
                assert(dsts@[k] == m1.hes@[hv@[k].id as int].dst);
            }
        }
        proof {
            reveal(rev_inv);
            assert forall|j: int| 0 <= j < m0.nh() && !in_loop(hv@, j) implies #[trigger] m1.hes@[j] == m0.hes@[j] by {
            }
        }
        let mut i: usize = 0;
        while i < n
            invariant
                m0.wf(),
                self.wf(),
                n == hv@.len(),
                n >= 3,
                hv@ == loop_seq(m0.hes@, s),
                forall|a: int, b: int| 0 <= a < b < n ==> hv@[a].id != hv@[b].id,
                forall|k: int| 0 <= k < n ==> (#[trigger] hv@[k]).id < m0.nh(),
                forall|k: int| 0 <= k < n ==> #[trigger] dsts@[k] == m0.hes@[hv@[k].id as int].dst,
                dsts@.len() == n,
                0 <= i <= n,
                only_hes_changed(&m0, self),
                self.hes@.len() == m0.hes@.len(),
                rev_inv(m0.hes@, self.hes@, hv@, dsts@, i as int),
            decreases n - i,
        {
            let pi = if i == 0 { n - 1 } else { i - 1 };
            let new_dst = dsts[pi];
            let old_dst = dsts[i];
            let h = hv[i];
            let ghost pre = *self;
            let mut x = self.hes[h.id as usize];
            x.dst = new_dst;
            self.hes.set(h.id as usize, x);
            proof {
                assert((new_dst.id as int) < m0.nv()) by {
                    assert(he_refs_ok(m0.hes@[hv@[pi as int].id as int], m0.nv(), m0.nh(), m0.ne(), m0.nf()));
                }
                lemma_wf_set_he(&pre, self, h.id as int);
            }
            let ghost mid = *self;
            assert((old_dst.id as int) < m0.nv()) by {
                assert(he_refs_ok(m0.hes@[hv@[i as int].id as int], m0.nv(), m0.nh(), m0.ne(), m0.nf()));
            }
            self.update_twin_dst(h, old_dst);
            proof {
                lemma_rev_step(m0.hes@, pre.hes@, mid.hes@, self.hes@, hv@, dsts@, i as int, pi as int);
            }
            i = i + 1;
        }
        proof {
            reveal(rev_inv);
            assert forall|k: int| 0 <= k < n implies {
                let a = #[trigger] m0.hes@[hv@[k].id as int];
                let b = self.hes@[hv@[k].id as int];
                &&& b.next == a.prev
                &&& b.prev == a.next
                &&& b.edge == a.edge
                &&& b.face == a.face
                &&& b.next_rad == a.next_rad
                &&& is_loop_dst(m0.hes@, hv@, b.dst)
            } by {
                assert(rev_loop_he(m0.hes@[hv@[k].id as int], self.hes@[hv@[k].id as int], m0.hes@, hv@));
            }
        }
        proof {
            assert(reversed(m0.hes@, self.hes@, s));
        }
        Ok(())
    }
}

/// Half-edge `b` is loop half-edge `a` with `next` and `prev` exchanged and
/// a destination taken from the loop.
pub open spec fn rev_loop_he(a: HalfEdge, b: HalfEdge, h0: Seq<HalfEdge>, hv: Seq<HeId>) -> bool {
    &&& b.next == a.prev
    &&& b.prev == a.next
    &&& b.edge == a.edge
    &&& b.face == a.face
    &&& b.next_rad == a.next_rad
    &&& is_loop_dst(h0, hv, b.dst)
}

/// State of the destination pass of `reverse_loop` after `i` half-edges.
#[verifier::opaque]
pub open spec fn rev_inv(h0: Seq<HalfEdge>, cur: Seq<HalfEdge>, hv: Seq<HeId>, dsts: Seq<VertId>, i: int) -> bool {
    let n = hv.len() as int;
    &&& cur.len() == h0.len()
    &&& forall|k: int| 0 <= k < n ==> #[trigger] rev_loop_he(h0[hv[k].id as int], cur[hv[k].id as int], h0, hv)
    &&& loop_owned(h0, hv) ==> forall|k: int| 0 <= k < i ==> #[trigger] cur[hv[k].id as int].dst == dsts[cyc_prev(k, n)]
    &&& loop_owned(h0, hv) ==> forall|k: int| i <= k < n ==> #[trigger] cur[hv[k].id as int].dst == dsts[k]
    &&& forall|j: int| 0 <= j < h0.len() && !in_loop(hv, j) ==> same_but_dst(#[trigger] cur[j], h0[j])
        && (cur[j].dst == h0[j].dst || (h0[j].face.id == NULL_RAW && is_loop_dst(h0, hv, cur[j].dst)))
}

/// One step of the destination pass keeps `rev_inv`.
proof fn lemma_rev_step(
    h0: Seq<HalfEdge>,
    pre: Seq<HalfEdge>,
    mid: Seq<HalfEdge>,
    post: Seq<HalfEdge>,
    hv: Seq<HeId>,
    dsts: Seq<VertId>,
    i: int,
    pi: int,
)
    requires
        hv.len() >= 3,
        0 <= i < hv.len(),
        pi == if i == 0 { hv.len() - 1 } else { i - 1 },
        forall|a: int, b: int| 0 <= a < b < hv.len() ==> hv[a].id != hv[b].id,
        forall|k: int| 0 <= k < hv.len() ==> (#[trigger] hv[k]).id < h0.len(),
        forall|k: int| 0 <= k < hv.len() ==> #[trigger] dsts[k] == h0[hv[k].id as int].dst,
        dsts.len() == hv.len(),
        rev_inv(h0, pre, hv, dsts, i),
        mid == pre.update(hv[i].id as int, mid[hv[i].id as int]),
        same_but_dst(mid[hv[i].id as int], pre[hv[i].id as int]),
        mid[hv[i].id as int].dst == dsts[pi],
        post.len() == mid.len(),
        forall|j: int| 0 <= j < mid.len() ==> same_but_dst(#[trigger] post[j], mid[j]) && (post[j].dst
            == mid[j].dst || (j != hv[i].id as int && mid[j].face.id == NULL_RAW && post[j].dst
            == dsts[i])),
    ensures
        rev_inv(h0, post, hv, dsts, i + 1),
{
    reveal(rev_inv);
    let n = hv.len() as int;
    let hi = hv[i].id as int;
    assert(is_loop_dst(h0, hv, dsts[pi])) by {
        assert(h0[hv[pi].id as int].dst == dsts[pi]);
    }
    assert(is_loop_dst(h0, hv, dsts[i])) by {
        assert(h0[hv[i].id as int].dst == dsts[i]);
    }
    if i == 0 {
        assert(cyc_prev(i, n) == n - 1) by {
            vstd::arithmetic::div_mod::lemma_small_mod((n - 1) as nat, n as nat);
        }
    } else {
        assert(cyc_prev(i, n) == i - 1) by {
            vstd::arithmetic::div_mod::lemma_mod_add_multiples_vanish(i - 1, n);
            vstd::arithmetic::div_mod::lemma_small_mod((i - 1) as nat, n as nat);
        }
    }
    assert forall|k: int| 0 <= k < n implies #[trigger] rev_loop_he(h0[hv[k].id as int], post[hv[k].id as int], h0, hv) by {
        let j = hv[k].id as int;
        assert(rev_loop_he(h0[j], pre[j], h0, hv));
        if k != i {
            assert(hv[k].id != hv[i].id);
            assert(mid[j] == pre[j]);
        }
    }
    if loop_owned(h0, hv) {
        assert forall|k: int| 0 <= k < i + 1 implies #[trigger] post[hv[k].id as int].dst == dsts[cyc_prev(k, n)] by {
            let j = hv[k].id as int;
            assert(h0[hv[k].id as int].face.id != NULL_RAW);
            assert(rev_loop_he(h0[j], pre[j], h0, hv));
            if k != i {
                assert(hv[k].id != hv[i].id);
                assert(mid[j] == pre[j]);
            }
        }
        assert forall|k: int| i + 1 <= k < n implies #[trigger] post[hv[k].id as int].dst == dsts[k] by {
            let j = hv[k].id as int;
            assert(h0[hv[k].id as int].face.id != NULL_RAW);
            assert(rev_loop_he(h0[j], pre[j], h0, hv));
            assert(hv[k].id != hv[i].id);
            assert(mid[j] == pre[j]);
        }
    }
    assert forall|j: int| 0 <= j < h0.len() && !in_loop(hv, j) implies same_but_dst(#[trigger] post[j], h0[j])
        && (post[j].dst == h0[j].dst || (h0[j].face.id == NULL_RAW && is_loop_dst(h0, hv, post[j].dst))) by {
        assert(j != hi);
        assert(mid[j] == pre[j]);
        assert(same_but_dst(pre[j], h0[j]));
    }
}

/// After exchanging `next` and `prev` along a loop the mesh is still
/// well-formed.
proof fn lemma_wf_swap(m0: &Mesh, m1: &Mesh, hv: Seq<HeId>)
    requires
        m0.wf(),
        only_hes_changed(m0, m1),
        m1.hes@.len() == m0.hes@.len(),
        forall|k: int| 0 <= k < hv.len() ==> (#[trigger] hv[k]).id < m0.nh(),
        forall|k: int| 0 <= k < hv.len() ==> {
            let a = #[trigger] m0.hes@[hv[k].id as int];
            let b = m1.hes@[hv[k].id as int];
            b.next == a.prev && b.prev == a.next && b.edge == a.edge && b.face == a.face
                && b.next_rad == a.next_rad && b.dst == a.dst
        },
        forall|j: int| 0 <= j < m0.nh() && !in_loop(hv, j) ==> #[trigger] m1.hes@[j] == m0.hes@[j],
    ensures
        m1.wf(),
        forall|j: int| 0 <= j < m0.nh() && !in_loop(hv, j) ==> same_but_dst(#[trigger] m1.hes@[j], m0.hes@[j]),
{
    assert forall|i: int| 0 <= i < m1.nh() implies #[trigger] he_refs_ok(m1.hes@[i], m1.nv(), m1.nh(), m1.ne(), m1.nf()) by {
        assert(he_refs_ok(m0.hes@[i], m0.nv(), m0.nh(), m0.ne(), m0.nf()));
        if in_loop(hv, i) {
            let k = choose|k: int| 0 <= k < hv.len() && hv[k].id as int == i;
            assert(m0.hes@[hv[k].id as int] == m0.hes@[i]);
        }
    }
    assert forall|i: int| 0 <= i < m1.ne() implies #[trigger] edge_refs_ok(m1.edges@[i], m1.nv(), m1.nh()) by {
        assert(edge_refs_ok(m0.edges@[i], m0.nv(), m0.nh()));
    }
    assert forall|i: int| 0 <= i < m1.nf() && (#[trigger] m1.faces@[i]).is_some() implies face_refs_ok(m1.faces@[i].unwrap(), m1.nh()) by {
        assert(face_refs_ok(m0.faces@[i].unwrap(), m0.nh()));
    }
}


// ───────────────────────── face flips ─────────────────────────

/// The loop starts of a face: the outer loop first, then each hole.
pub open spec fn loop_starts(fc: Face) -> Seq<HeId> {
    seq![fc.outer] + fc.inners@
}

/// Walking on from a half-edge of a loop stays on the loop.
proof fn lemma_walk_stays_in_loop(h: Seq<HalfEdge>, s: int, x: int, m: nat)
    requires
        has_loop(h, s),
        in_loop(loop_seq(h, s), x),
    ensures
        in_loop(loop_seq(h, s), walk(h, x, m)),
    decreases m,
{
    let v = loop_seq(h, s);
    let n = loop_len(h, s);
    assert(n <= h.len() && closes_at(h, s, n));
    if m > 0 {
        lemma_walk_stays_in_loop(h, s, x, (m - 1) as nat);
        let w = walk(h, x, (m - 1) as nat);
        let j = choose|j: int| 0 <= j < v.len() && v[j].id as int == w;
        assert(w == walk(h, s, j as nat));
        assert(walk(h, x, m) == walk(h, s, (j + 1) as nat));
        if j + 1 < n {
            assert(v[j + 1].id as int == walk(h, s, (j + 1) as nat));
        } else {
            assert(walk(h, s, n) == s);
            assert(v[0].id as int == walk(h, s, 0));
        }
    }
}

/// Reversing one loop leaves any other closing loop as it was: a loop that
/// does not start on the reversed one never meets it.
proof fn lemma_other_loop_kept(m: &Mesh, h1: Seq<HalfEdge>, s: int, t: int)
    requires
        m.wf(),
        has_loop(m.hes@, s),
        reversed(m.hes@, h1, s),
        has_loop(m.hes@, t),
        !in_loop(loop_seq(m.hes@, s), t),
    ensures
        has_loop(h1, t),
        loop_seq(h1, t) == loop_seq(m.hes@, t),
{
    let h0 = m.hes@;
    let v = loop_seq(h0, s);
    let big_l = loop_len(h0, t);
    assert(big_l <= h0.len() && closes_at(h0, t, big_l));
    assert forall|k: nat| k <= big_l implies !in_loop(v, #[trigger] walk(h0, t, k)) by {
        if in_loop(v, walk(h0, t, k)) {
            lemma_walk_stays_in_loop(h0, s, walk(h0, t, k), (big_l - k) as nat);
            lemma_walk_add(h0, t, k, (big_l - k) as nat);
            assert(walk(h0, t, big_l) == t);
        }
    }
    assert forall|k: nat| k <= big_l implies #[trigger] walk(h1, t, k) == walk(h0, t, k) by {
        lemma_walk_keep(m, h1, s, t, k, big_l);
    }
    assert(closes_at(h1, t, big_l));
    assert(h1.len() == h0.len());
    let k1 = loop_len(h1, t);
    assert(k1 <= h1.len() && closes_at(h1, t, k1));
    crate::mesh::lemma_closes_unique(h1, t, k1, big_l);
    assert(loop_seq(h1, t) =~= loop_seq(h0, t));
}

/// Step by step, a walk that avoids the reversed loop is unchanged.
proof fn lemma_walk_keep(m: &Mesh, h1: Seq<HalfEdge>, s: int, t: int, k: nat, big_l: nat)
    requires
        m.wf(),
        has_loop(m.hes@, s),
        reversed(m.hes@, h1, s),
        0 <= t < m.nh(),
        k <= big_l,
        forall|j: nat| j <= big_l ==> !in_loop(loop_seq(m.hes@, s), #[trigger] walk(m.hes@, t, j)),
    ensures
        walk(h1, t, k) == walk(m.hes@, t, k),
    decreases k,
{
    if k > 0 {
        lemma_walk_keep(m, h1, s, t, (k - 1) as nat, big_l);
        let w = walk(m.hes@, t, (k - 1) as nat);
        lemma_walk_in_range(m, t, (k - 1) as nat);
        assert(!in_loop(loop_seq(m.hes@, s), w));
        if loop_seq(m.hes@, s).len() < 3 {
            assert(h1 == m.hes@);
        } else {
            assert(same_but_dst(h1[w], m.hes@[w]));
        }
    }
}

/// Every non-null loop start of face `f` closes, and none of them lies on
/// the loop of another.
pub open spec fn loops_close(m: &Mesh, f: FaceId) -> bool {
    let st = loop_starts(m.face(f));
    &&& forall|q: int| 0 <= q < st.len() && (#[trigger] st[q]).id != NULL_RAW ==> has_loop(m.hes@, st[q].id as int)
    &&& forall|q1: int, q2: int|
        0 <= q1 < st.len() && 0 <= q2 < st.len() && q1 != q2 && (#[trigger] st[q1]).id != NULL_RAW && (#[trigger] st[q2]).id != NULL_RAW
            ==> !in_loop(loop_seq(m.hes@, st[q1].id as int), st[q2].id as int)
}

/// One loop of a flip: a null start is skipped, any other loop is reversed.
pub open spec fn flip_step(a: Seq<HalfEdge>, b: Seq<HalfEdge>, st: HeId) -> bool {
    if st.id == NULL_RAW {
        b == a
    } else {
        has_loop(a, st.id as int) && reversed(a, b, st.id as int)
    }
}

/// `states` reverses the loops `starts` one after another.
pub open spec fn reversal_chain(states: Seq<Seq<HalfEdge>>, starts: Seq<HeId>) -> bool {
    &&& states.len() == starts.len() + 1
    &&& forall|j: int| 0 <= j < starts.len() ==> #[trigger] flip_step(states[j], states[j + 1], starts[j])
}

/// Face `b` is face `a` with the normal replaced by `n`.
pub open spec fn face_renormal(a: Face, b: Face, n: crate::mesh::Vec3Bits) -> bool {
    &&& b.outer == a.outer
    &&& b.inners@ == a.inners@
    &&& b.material == a.material
    &&& b.surface == a.surface
    &&& b.active == a.active
    &&& b.normal == n
}

/// Only face `f`'s normal changed among the faces, to `n`.
pub open spec fn faces_renormal(m0: &Mesh, m1: &Mesh, f: FaceId, n: crate::mesh::Vec3Bits) -> bool {
    &&& m1.faces@.len() == m0.faces@.len()
    &&& m1.has_face(f)
    &&& face_renormal(m0.face(f), m1.face(f), n)
    &&& forall|j: int| 0 <= j < m0.nf() && j != f.id as int ==> #[trigger] m1.faces@[j] == m0.faces@[j]
}

/// `m1` is `m0` with face `f` flipped: its normal negated and each of its
/// loops reversed in turn (outer loop first); nothing else changes apart
/// from the destinations of free twins.
pub open spec fn flipped(m0: &Mesh, m1: &Mesh, f: FaceId) -> bool {
    &&& m0.has_face(f)
    &&& m1.verts@ == m0.verts@
    &&& m1.edges@ == m0.edges@
    &&& m1.sphere_path_b == m0.sphere_path_b
    &&& m1.cylinder_path_b == m0.cylinder_path_b
    &&& m1.cone_path_b == m0.cone_path_b
    &&& faces_renormal(m0, m1, f, neg_bits(m0.face(f).normal))
    &&& exists|states: Seq<Seq<HalfEdge>>|
        #![trigger reversal_chain(states, loop_starts(m0.face(f)))]
        reversal_chain(states, loop_starts(m0.face(f))) && states[0] == m0.hes@ && states.last()
            == m1.hes@
}

impl Mesh {
    /// Replace the normal of face `f`.
    pub fn set_face_normal(&mut self, f: FaceId, n: crate::mesh::Vec3Bits)
        requires
            old(self).wf(),
            old(self).has_face(f),
        ensures
            final(self).wf(),
            final(self).verts@ == old(self).verts@,
            final(self).hes@ == old(self).hes@,
            final(self).edges@ == old(self).edges@,
            final(self).sphere_path_b == old(self).sphere_path_b,
            final(self).cylinder_path_b == old(self).cylinder_path_b,
            final(self).cone_path_b == old(self).cone_path_b,
            faces_renormal(old(self), final(self), f, n),
    {
        let ghost m0 = *self;
        let idx = f.id as usize;
        match &mut self.faces[idx] {
            Some(fc) => {
                fc.normal = n;
            },
            None => {},
        }
        proof {
            assert forall|i: int| 0 <= i < self.nh() implies #[trigger] he_refs_ok(self.hes@[i], self.nv(), self.nh(), self.ne(), self.nf()) by {
                assert(he_refs_ok(m0.hes@[i], m0.nv(), m0.nh(), m0.ne(), m0.nf()));
            }
            assert forall|i: int| 0 <= i < self.ne() implies #[trigger] edge_refs_ok(self.edges@[i], self.nv(), self.nh()) by {
                assert(edge_refs_ok(m0.edges@[i], m0.nv(), m0.nh()));
            }
            assert forall|i: int| 0 <= i < self.nf() && (#[trigger] self.faces@[i]).is_some() implies face_refs_ok(self.faces@[i].unwrap(), self.nh()) by {
                assert(face_refs_ok(m0.faces@[i].unwrap(), m0.nh()));
                let a = m0.faces@[i].unwrap();
                let b = self.faces@[i].unwrap();
                assert forall|q: int| 0 <= q < b.inners@.len() implies #[trigger] loop_ref_ok(b.inners@[q], self.nh()) by {
                    assert(loop_ref_ok(a.inners@[q], m0.nh()));
                }
            }
        }
    }

    /// The loop starts of face `f`, outer loop first.
    fn face_loop_starts(&self, f: FaceId) -> (res: Vec<HeId>)
        requires
            self.has_face(f),
        ensures
            res@ == loop_starts(self.face(f)),
    {
        let idx = f.id as usize;
        let mut out: Vec<HeId> = Vec::new();
        match &self.faces[idx] {
            Some(fc) => {
                out.push(fc.outer);
                let mut i: usize = 0;
                while i < fc.inners.len()
                    invariant
                        0 <= i <= fc.inners@.len(),
                        out@ == seq![fc.outer] + fc.inners@.subrange(0, i as int),
                    decreases fc.inners@.len() - i,
                {
                    out.push(fc.inners[i]);
                    i = i + 1;
                    assert(out@ =~= seq![fc.outer] + fc.inners@.subrange(0, i as int));
                }
                assert(fc.inners@.subrange(0, fc.inners@.len() as int) =~= fc.inners@);
            },
            None => {},
        }
        out
    }

    /// Negate the normal of face `f` and reverse each of its loops, outer
    /// loop first, holes after. No validation beyond the loops themselves;
    /// an error from a loop is returned as soon as it occurs, leaving the
    /// face partly flipped.
    pub fn flip_face(&mut self, face_id: FaceId) -> (res: Result<(), MeshError>)
        requires
            old(self).wf(),
            old(self).has_face(face_id),
        ensures
            final(self).wf(),
            faces_kept(old(self), final(self)),
            final(self).hes@.len() == old(self).hes@.len(),
            res is Ok ==> flipped(old(self), final(self), face_id),
            (res is Err && old(self).face(face_id).inners@.len() == 0) ==> !has_loop(
                old(self).hes@,
                old(self).face(face_id).outer.id as int,
            ),
            old(self).face(face_id).inners@.len() == 0 ==> (res is Ok <==> (old(self).face(
                face_id,
            ).outer.id == NULL_RAW || has_loop(old(self).hes@, old(self).face(face_id).outer.id as int))),
            loops_close(old(self), face_id) ==> res is Ok,
    {
        let ghost m0 = *self;
        let starts = self.face_loop_starts(face_id);
        let idx = face_id.id as usize;
        let normal = match &self.faces[idx] {
            Some(fc) => fc.normal,
            None => crate::mesh::Vec3Bits { x: 0, y: 0, z: 0 },
        };
        self.set_face_normal(face_id, normal.neg());
        let ghost m1 = *self;
        assert(faces_kept(&m0, &m1)) by {
            assert forall|j: int| 0 <= j < m0.nf() implies (#[trigger] m1.faces@[j]).is_some() == m0.faces@[j].is_some() by {
                if j != face_id.id as int {
                    assert(m1.faces@[j] == m0.faces@[j]);
                }
            }
        }
        let ghost mut states: Seq<Seq<HalfEdge>> = seq![m1.hes@];
        let mut i: usize = 0;
        while i < starts.len()
            invariant
                self.wf(),
                m0 == *old(self),
                m0.has_face(face_id),
                starts@ == loop_starts(m0.face(face_id)),
                0 <= i <= starts@.len(),
                self.verts@ == m0.verts@,
                self.edges@ == m0.edges@,
                self.faces@ == m1.faces@,
                self.sphere_path_b == m0.sphere_path_b,
                self.cylinder_path_b == m0.cylinder_path_b,
                self.cone_path_b == m0.cone_path_b,
                faces_renormal(&m0, &m1, face_id, neg_bits(m0.face(face_id).normal)),
                m1.hes@ == m0.hes@,
                faces_kept(&m0, &m1),
                self.hes@.len() == m0.hes@.len(),
                states.len() == i + 1,
                states[0] == m0.hes@,
                states[i as int] == self.hes@,
                forall|j: int| 0 <= j < i ==> #[trigger] flip_step(states[j], states[j + 1], starts@[j]),
                loops_close(&m0, face_id) ==> forall|q: int|
                    i <= q < starts@.len() && (#[trigger] starts@[q]).id != NULL_RAW ==> has_loop(self.hes@, starts@[q].id as int)
                        && loop_seq(self.hes@, starts@[q].id as int) == loop_seq(m0.hes@, starts@[q].id as int),
            decreases starts@.len() - i,
        {
            let st = starts[i];
            let ghost pre_m = *self;
            if st.id != NULL_RAW {
                let ghost pre = self.hes@;
                let r = self.reverse_loop(st);
                match r {
                    Ok(()) => {},
                    Err(e) => {
                        proof {
                            if i == 0 {
                                assert(starts@[0] == m0.face(face_id).outer);
                            }
                        }
                        return Err(e);
                    },
                }
            }
            proof {
                if loops_close(&m0, face_id) {
                    assert forall|q: int|
                        i + 1 <= q < starts@.len() && (#[trigger] starts@[q]).id != NULL_RAW implies has_loop(self.hes@, starts@[q].id as int)
                            && loop_seq(self.hes@, starts@[q].id as int) == loop_seq(m0.hes@, starts@[q].id as int) by {
                        if st.id != NULL_RAW {
                            assert(starts@[i as int] == st);
                            assert(has_loop(pre_m.hes@, st.id as int));
                            assert(loop_seq(pre_m.hes@, st.id as int) == loop_seq(m0.hes@, st.id as int));
                            assert(!in_loop(loop_seq(m0.hes@, starts@[i as int].id as int), starts@[q].id as int));
                            lemma_other_loop_kept(&pre_m, self.hes@, st.id as int, starts@[q].id as int);
                        }
                    }
                }
                let ghost old_states = states;
                states = states.push(self.hes@);
                assert forall|j: int| 0 <= j < i + 1 implies #[trigger] flip_step(states[j], states[j + 1], starts@[j]) by {
                    if j < i {
                        assert(states[j] == old_states[j]);
                        assert(states[j + 1] == old_states[j + 1]);
                    }
                }
            }
            i = i + 1;
        }
        proof {
            assert(reversal_chain(states, loop_starts(m0.face(face_id))));
            if m0.face(face_id).inners@.len() == 0 {
                assert(starts@.len() == 1);
                assert(starts@[0] == m0.face(face_id).outer);
                assert(flip_step(states[0], states[1], starts@[0]));
            }
        }
        Ok(())
    }
}

/// The same face slots are occupied.
pub open spec fn faces_kept(a: &Mesh, b: &Mesh) -> bool {
    &&& b.faces@.len() == a.faces@.len()
    &&& forall|j: int| 0 <= j < a.nf() ==> (#[trigger] b.faces@[j]).is_some() == a.faces@[j].is_some()
}

/// Two meshes are identical.
pub open spec fn unchanged(a: &Mesh, b: &Mesh) -> bool {
    &&& b.verts@ == a.verts@
    &&& b.hes@ == a.hes@
    &&& b.edges@ == a.edges@
    &&& b.faces@ == a.faces@
    &&& b.sphere_path_b == a.sphere_path_b
    &&& b.cylinder_path_b == a.cylinder_path_b
    &&& b.cone_path_b == a.cone_path_b
}

/// Face `f` is stored and its outer loop has at least three half-edges:
/// what `flip_face_safe` checks before flipping.
pub open spec fn flippable(m: &Mesh, f: FaceId) -> bool {
    &&& m.has_face(f)
    &&& has_loop(m.hes@, m.face(f).outer.id as int)
    &&& loop_len(m.hes@, m.face(f).outer.id as int) >= 3
}

/// The number of ids in `ids` that name a stored face of `m`.
pub open spec fn count_stored(m: &Mesh, ids: Seq<FaceId>) -> nat
    decreases ids.len(),
{
    if ids.len() == 0 {
        0
    } else {
        count_stored(m, ids.drop_last()) + if m.has_face(ids.last()) { 1nat } else { 0nat }
    }
}

/// What a failed `flip_face_safe` on face `f` leaves: a well-formed mesh
/// with the same face slots; nothing changed when the face was not
/// flippable; and a flippable face without holes, or whose loops all close
/// on distinct loops, never fails.
pub open spec fn flip_failed(a: &Mesh, b: &Mesh, f: FaceId) -> bool {
    &&& b.wf()
    &&& faces_kept(a, b)
    &&& b.hes@.len() == a.hes@.len()
    &&& !flippable(a, f) ==> unchanged(a, b)
    &&& !(flippable(a, f) && a.face(f).inners@.len() == 0)
    &&& !(flippable(a, f) && loops_close(a, f))
}

/// One call of `flip_face_safe` on `f` took `a` to `b`, succeeding (`ok`)
/// by flipping the face or failing as `flip_failed` says.
pub open spec fn flip_outcome(a: Mesh, b: Mesh, f: FaceId, ok: bool) -> bool {
    if ok {
        flippable(&a, f) && flipped(&a, &b, f)
    } else {
        flip_failed(&a, &b, f)
    }
}

/// `ms` are the meshes before and after each flip of `ids`, in order, and
/// `oks` which flips succeeded.
pub open spec fn flip_run(ms: Seq<Mesh>, oks: Seq<bool>, ids: Seq<FaceId>) -> bool {
    &&& ms.len() == ids.len() + 1
    &&& oks.len() == ids.len()
    &&& forall|j: int| 0 <= j < ids.len() ==> #[trigger] flip_outcome(ms[j], ms[j + 1], ids[j], oks[j])
}

impl Mesh {
    /// Flip face `face_id` after checking that it is stored and that its
    /// outer loop has at least three vertices: negate its normal and reverse
    /// its outer loop and every hole loop.
    pub fn flip_face_safe(&mut self, face_id: FaceId) -> (res: Result<(), MeshError>)
        requires
            old(self).wf(),
        ensures
            final(self).wf(),
            faces_kept(old(self), final(self)),
            final(self).hes@.len() == old(self).hes@.len(),
            res == Err::<(), MeshError>(MeshError::FaceNotFound) <==> !old(self).has_face(face_id),
            !old(self).has_face(face_id) ==> unchanged(old(self), final(self)),
            old(self).has_face(face_id) && !has_loop(old(self).hes@, old(self).face(face_id).outer.id as int)
                ==> unchanged(old(self), final(self)) && (res == Err::<(), MeshError>(MeshError::HalfEdgeNotFound)
                || res == Err::<(), MeshError>(MeshError::BrokenLoop)),
            res == Err::<(), MeshError>(MeshError::Degenerate) <==> old(self).has_face(face_id) && has_loop(
                old(self).hes@,
                old(self).face(face_id).outer.id as int,
            ) && loop_len(old(self).hes@, old(self).face(face_id).outer.id as int) < 3,
            res == Err::<(), MeshError>(MeshError::Degenerate) ==> unchanged(old(self), final(self)),
            res is Ok ==> flippable(old(self), face_id) && flipped(old(self), final(self), face_id),
            flippable(old(self), face_id) && old(self).face(face_id).inners@.len() == 0 ==> res is Ok,
            flippable(old(self), face_id) && loops_close(old(self), face_id) ==> res is Ok,
    {
        let idx = face_id.id as usize;
        if idx >= self.faces.len() {
            return Err(MeshError::FaceNotFound);
        }
        let outer = match &self.faces[idx] {
            Some(fc) => fc.outer,
            None => {
                return Err(MeshError::FaceNotFound);
            },
        };
        let verts = self.collect_loop_verts(outer)?;
        if verts.len() < 3 {
            return Err(MeshError::Degenerate);
        }
        assert(flippable(self, face_id));
        let r = self.flip_face(face_id);
        match r {
            Ok(()) => Ok(()),
            Err(e) => {
                if e == MeshError::Degenerate || e == MeshError::FaceNotFound {
                    Err(MeshError::BrokenLoop)
                } else {
                    Err(e)
                }
            },
        }
    }

    /// Flip each listed face with `flip_face_safe`; a failure on one face
    /// does not stop the others. Returns how many flips succeeded.
    pub fn flip_faces(&mut self, face_ids: &[FaceId]) -> (flipped_count: usize)
        requires
            old(self).wf(),
        ensures
            final(self).wf(),
            flipped_count <= count_stored(old(self), face_ids@),
            forall|j: int| 0 <= j < old(self).nf() ==> (#[trigger] final(self).faces@[j]).is_some() == old(self).faces@[j].is_some(),
            final(self).faces@.len() == old(self).faces@.len(),
            exists|ms: Seq<Mesh>, oks: Seq<bool>|
                #[trigger] flip_run(ms, oks, face_ids@) && ms[0] == *old(self) && ms.last() == *final(self) && flipped_count
                    == count_true(oks),
    {
        let mut count: usize = 0;
        let ghost mut ms: Seq<Mesh> = seq![*self];
        let ghost mut oks: Seq<bool> = Seq::empty();
        let mut i: usize = 0;
        while i < face_ids.len()
            invariant
                self.wf(),
                0 <= i <= face_ids@.len(),
                count <= i,
                count <= count_stored(old(self), face_ids@.subrange(0, i as int)),
                self.faces@.len() == old(self).faces@.len(),
                forall|j: int| 0 <= j < old(self).nf() ==> (#[trigger] self.faces@[j]).is_some() == old(self).faces@[j].is_some(),
                ms.len() == i + 1,
                oks.len() == i,
                ms[0] == *old(self),
                ms[i as int] == *self,
                forall|j: int| 0 <= j < i ==> #[trigger] flip_outcome(ms[j], ms[j + 1], face_ids@[j], oks[j]),
                count == count_true(oks),
            decreases face_ids@.len() - i,
        {
            let fid = face_ids[i];
            let ghost pre = *self;
            let r = self.flip_face_safe(fid);
            proof {
                let ok = r.is_ok();
                let ms0 = ms;
                let oks0 = oks;
                assert(flip_outcome(pre, *self, fid, ok));
                ms = ms.push(*self);
                oks = oks.push(ok);
                assert(oks.drop_last() =~= oks0);
                assert forall|j: int| 0 <= j < i + 1 implies #[trigger] flip_outcome(ms[j], ms[j + 1], face_ids@[j], oks[j]) by {
                    if j < i {
                        assert(ms[j] == ms0[j] && ms[j + 1] == ms0[j + 1] && oks[j] == oks0[j]);
                    }
                }
            }
            proof {
                let sub = face_ids@.subrange(0, i as int + 1);
                assert(sub.drop_last() =~= face_ids@.subrange(0, i as int));
                assert(sub.last() == fid);
                assert(pre.has_face(fid) == old(self).has_face(fid));
                assert forall|j: int| 0 <= j < old(self).nf() implies (#[trigger] self.faces@[j]).is_some() == old(self).faces@[j].is_some() by {
                    assert(self.faces@[j].is_some() == pre.faces@[j].is_some());
                }
            }
            if r.is_ok() {
                count = count + 1;
            }
            i = i + 1;
        }
        assert(face_ids@.subrange(0, face_ids@.len() as int) =~= face_ids@);
        assert(flip_run(ms, oks, face_ids@));
        count
    }
}

// ───────────────────────── orient_faces ─────────────────────────

/// The number of `true` entries.
pub open spec fn count_true(s: Seq<bool>) -> nat
    decreases s.len(),
{
    if s.len() == 0 {
        0
    } else {
        count_true(s.drop_last()) + if s.last() { 1nat } else { 0nat }
    }
}

/// Which face slots hold an active face.
pub open spec fn active_flags(m: &Mesh) -> Seq<bool> {
    Seq::new(m.faces@.len(), |j: int| m.face_active(FaceId { id: j as u32 }))
}

/// The number of active faces.
pub open spec fn active_count(m: &Mesh) -> nat {
    count_true(active_flags(m))
}

proof fn lemma_count_true_le(s: Seq<bool>)
    ensures
        count_true(s) <= s.len(),
    decreases s.len(),
{
    if s.len() > 0 {
        lemma_count_true_le(s.drop_last());
    }
}

proof fn lemma_count_true_set(s: Seq<bool>, j: int)
    requires
        0 <= j < s.len(),
        !s[j],
    ensures
        count_true(s.update(j, true)) == count_true(s) + 1,
    decreases s.len(),
{
    let t = s.update(j, true);
    if j == s.len() - 1 {
        assert(t.drop_last() =~= s.drop_last());
    } else {
        assert(t.drop_last() =~= s.drop_last().update(j, true));
        lemma_count_true_set(s.drop_last(), j);
    }
}

proof fn lemma_count_true_all_false(n: nat)
    ensures
        count_true(Seq::new(n, |j: int| false)) == 0,
    decreases n,
{
    if n > 0 {
        assert(Seq::new(n, |j: int| false).drop_last() =~= Seq::new((n - 1) as nat, |j: int| false));
        lemma_count_true_all_false((n - 1) as nat);
    }
}

/// Breadth-first orientation state: `vis` marks the faces reached so far,
/// all of them active; the queue holds reached faces; the visit count plus
/// the queue length is the number of reached faces; face slots and activity
/// are as in `m0`; vertices and edges are untouched.
pub open spec fn bfs_inv(m0: &Mesh, m: &Mesh, vis: Seq<bool>, q: Seq<FaceId>, total: nat, flipped: nat) -> bool {
    &&& m.wf()
    &&& m0.wf()
    &&& faces_kept(m0, m)
    &&& m.verts@ == m0.verts@
    &&& m.edges@ == m0.edges@
    &&& forall|j: int| 0 <= j < m0.nf() ==> (#[trigger] active_flags(m)[j]) == active_flags(&m0)[j]
    &&& vis.len() == m0.nf()
    &&& forall|j: int| 0 <= j < vis.len() && #[trigger] vis[j] ==> active_flags(&m0)[j]
    &&& forall|k: int| 0 <= k < q.len() ==> (#[trigger] q[k]).id < m0.nf() && vis[q[k].id as int]
    &&& total + q.len() == count_true(vis)
    &&& flipped <= count_true(vis)
}

/// The vertices of the outer loop of face `f` (meaningful when it closes).
pub open spec fn outer_dsts(m: &Mesh, f: FaceId) -> Seq<VertId> {
    dsts_of(m.hes@, loop_seq(m.hes@, m.face(f).outer.id as int))
}

/// No active face has a hole loop.
pub open spec fn no_hole_faces(m: &Mesh) -> bool {
    forall|f: FaceId| #[trigger] m.face_active(f) ==> m.face(f).inners@.len() == 0
}

/// No active face runs along an edge of another active face's outer loop
/// in the same direction (first occurrence), where both loops close.
pub open spec fn consistently_oriented(m: &Mesh) -> bool {
    forall|f: FaceId, g: FaceId, i: int|
        #![trigger first_run_same_dir(outer_dsts(m, g), outer_dsts(m, f)[i], outer_dsts(m, f)[(i + 1) % (outer_dsts(m, f).len() as int)])]
        m.face_active(f) && m.face_active(g) && f != g && has_loop(m.hes@, m.face(f).outer.id as int) && has_loop(
            m.hes@,
            m.face(g).outer.id as int,
        ) && 0 <= i < outer_dsts(m, f).len() ==> !first_run_same_dir(
            outer_dsts(m, g),
            outer_dsts(m, f)[i],
            outer_dsts(m, f)[(i + 1) % (outer_dsts(m, f).len() as int)],
        )
}

impl Mesh {
    /// Whether face slot `j` holds an active face.
    fn slot_active(&self, j: usize) -> (b: bool)
        requires
            j < self.faces@.len(),
            self.faces@.len() < NULL_RAW,
        ensures
            b == active_flags(self)[j as int],
    {
        match &self.faces[j] {
            Some(fc) => fc.active,
            None => false,
        }
    }

    /// Make face windings consistent across shared edges. Each connected
    /// component is flooded breadth-first from its lowest-numbered active
    /// face; a newly reached neighbour across edge `{v0, v1}` (where the
    /// current face runs `v0 -> v1`) is flipped when its outer loop runs
    /// along that edge in the same direction. Returns how many faces were
    /// flipped and how many were visited; an error from a flip is returned
    /// at once. A flip only fails on a face with hole loops, so on a mesh
    /// whose active faces have none this always succeeds, and on a mesh
    /// already consistently wound it succeeds without flipping anything.
    /// On a tidy mesh (every active face without holes, its outer loop
    /// consistent, owned by it and without repeated vertices, as `add_face`
    /// builds them) the result is an orientation forest: every face is a
    /// tree root or is wound against the face it was reached from across
    /// their shared edge, and faces across an edge share a tree.
    pub fn orient_faces(&mut self) -> (res: Result<OrientResult, MeshError>)
        requires
            old(self).wf(),
        ensures
            final(self).wf(),
            match res {
                Ok(r) => {
                    &&& r.visited == active_count(old(self))
                    &&& r.flipped <= r.visited
                    &&& faces_kept(old(self), final(self))
                    &&& active_flags(final(self)) == active_flags(old(self))
                    &&& final(self).verts@ == old(self).verts@
                    &&& final(self).edges@ == old(self).edges@
                },
                Err(_) => true,
            },
            consistently_oriented(old(self)) ==> res is Ok && res->Ok_0.flipped == 0 && *final(self) == *old(self),
            no_hole_faces(old(self)) ==> res is Ok,
            tidy_mesh(old(self)) ==> res is Ok && exists|par: Seq<Option<(FaceId, VertId, VertId)>>, root: Seq<int>, ord: Seq<int>|
                #[trigger] orient_forest(final(self), par, root, ord),
    {
        let ghost m0 = *self;
        let nf = self.faces.len();
        let mut vis: Vec<bool> = Vec::new();
        let mut j: usize = 0;
        while j < nf
            invariant
                0 <= j <= nf,
                vis@ == Seq::new(j as nat, |q: int| false),
            decreases nf - j,
        {
            vis.push(false);
            j = j + 1;
            assert(vis@ =~= Seq::new(j as nat, |q: int| false));
        }
        proof {
            lemma_count_true_all_false(nf as nat);
        }
        let ghost tidy = tidy_mesh(&m0);
        let ghost mut done: Seq<bool> = Seq::new(nf as nat, |j: int| false);
        let ghost mut par: Seq<Option<(FaceId, VertId, VertId)>> = Seq::new(nf as nat, |j: int| None);
        let ghost mut root: Seq<int> = Seq::new(nf as nat, |j: int| 0);
        let ghost mut ord: Seq<int> = Seq::new(nf as nat, |j: int| 0);
        proof {
            assert(same_rings(&m0, self));
        }
        let mut n_flipped: usize = 0;
        let mut total: usize = 0;
        let mut seed: usize = 0;
        while seed < nf
            invariant
                nf == m0.nf(),
                0 <= seed <= nf,
                bfs_inv(&m0, self, vis@, Seq::empty(), total as nat, n_flipped as nat),
                forall|j: int| 0 <= j < seed && #[trigger] active_flags(&m0)[j] ==> vis@[j],
                m0 == *old(self),
                consistently_oriented(&m0) ==> *self == m0 && n_flipped == 0,
                no_hole_faces(&m0) ==> no_hole_faces(self),
                tidy == tidy_mesh(&m0),
                tidy ==> forest_state(self, vis@, Seq::empty(), done, par, root, ord, seed as int, -1) && same_rings(&m0, self),
            decreases nf - seed,
        {
            if !self.slot_active(seed) || vis[seed] {
                proof {
                    if tidy {
                        lemma_forest_next_seed(self, vis@, done, par, root, ord, seed as int);
                    }
                }
                seed = seed + 1;
                continue;
            }
            let mut queue: std::collections::VecDeque<FaceId> = std::collections::VecDeque::new();
            let ghost pre_vis = vis@;
            vis.set(seed, true);
            queue.push_back(FaceId { id: seed as u32 });
            proof {
                if tidy {
                    lemma_forest_seed(self, pre_vis, done, par, root, ord, seed as int);
                    assert(queue@ =~= seq![FaceId { id: seed as u32 }]);
                }
                par = par.update(seed as int, None);
                root = root.update(seed as int, seed as int);
                ord = ord.update(seed as int, count_true(pre_vis) as int);
                lemma_count_true_set(pre_vis, seed as int);
                lemma_count_true_le(vis@);
            }
            loop
                invariant
                    nf == m0.nf(),
                    0 <= seed < nf,
                    bfs_inv(&m0, self, vis@, queue@, total as nat, n_flipped as nat),
                    forall|j: int| 0 <= j <= seed && #[trigger] active_flags(&m0)[j] ==> vis@[j],
                    m0 == *old(self),
                    count_true(vis@) <= nf,
                    consistently_oriented(&m0) ==> *self == m0 && n_flipped == 0,
                no_hole_faces(&m0) ==> no_hole_faces(self),
                    tidy == tidy_mesh(&m0),
                    tidy ==> forest_state(self, vis@, queue@, done, par, root, ord, seed as int, -1) && same_rings(&m0, self),
                ensures
                    queue@.len() == 0,
                decreases nf - count_true(vis@), queue@.len(),
            {
                let ghost q_before = queue@;
                let face_id = match queue.pop_front() {
                    Some(f) => f,
                    None => {
                        break;
                    },
                };
                proof {
                    if tidy {
                        lemma_forest_pop(self, vis@, q_before, done, par, root, ord, seed as int);
                        assert(queue@ == q_before.drop_first());
                    }
                }
                let ghost c0 = count_true(vis@);
                let ghost q0 = queue@.len();
                total = total + 1;
                assert(active_flags(&m0)[face_id.id as int]);
                assert(active_flags(self)[face_id.id as int]);
                let outer = match &self.faces[face_id.id as usize] {
                    Some(fc) => fc.outer,
                    None => HeId::null(),
                };
                let boundary = match self.collect_loop_verts(outer) {
                    Ok(b) => b,
                    Err(_) => {
                        proof {
                            if tidy {
                                assert(self.face_active(face_id));
                                assert(tidy_face(self, face_id));
                                assert(false);
                            }
                        }
                        continue;
                    },
                };
                let n = boundary.len();
                proof {
                    if tidy {
                        assert(tidy_face(self, face_id));
                    }
                }
                let mut i: usize = 0;
                while i < n
                    invariant
                        nf == m0.nf(),
                        0 <= seed < nf,
                        n == boundary@.len(),
                        0 <= i <= n,
                        bfs_inv(&m0, self, vis@, queue@, total as nat, n_flipped as nat),
                        forall|j: int| 0 <= j <= seed && #[trigger] active_flags(&m0)[j] ==> vis@[j],
                        m0 == *old(self),
                        count_true(vis@) <= nf,
                        count_true(vis@) >= c0,
                        count_true(vis@) == c0 ==> queue@.len() == q0,
                        consistently_oriented(&m0) ==> *self == m0 && n_flipped == 0,
                no_hole_faces(&m0) ==> no_hole_faces(self),
                        consistently_oriented(&m0) ==> self.face_active(face_id) && has_loop(self.hes@, self.face(face_id).outer.id as int)
                            && boundary@ == outer_dsts(self, face_id),
                        tidy == tidy_mesh(&m0),
                        tidy ==> forest_state(self, vis@, queue@, done, par, root, ord, seed as int, face_id.id as int) && same_rings(&m0, self)
                            && 0 <= face_id.id < nf && vis@[face_id.id as int] && root[face_id.id as int] == seed as int
                            && self.face_active(face_id) && boundary@ == outer_dsts(self, face_id),
                        tidy ==> forall|k: int| 0 <= k < i ==> #[trigger] pair_ok(&m0, boundary@[k], boundary@[(k + 1) % (n as int)], face_id, vis@, root, seed as int),
                    decreases n - i,
                {
                    let v0 = boundary[i];
                    let v1 = if i + 1 == n { boundary[0] } else { boundary[i + 1] };
                    proof {
                        crate::extrude::lemma_next_index(i as int, n as int);
                    }
                    i = i + 1;
                    let edge_id = match self.find_edge(v0, v1) {
                        Some(e) => e,
                        None => {
                            proof {
                                if tidy {
                                    lemma_pair_none(&m0, v0, v1, face_id, vis@, root, seed as int);
                                    assert forall|k: int| 0 <= k < i implies #[trigger] pair_ok(&m0, boundary@[k], boundary@[(k + 1) % (n as int)], face_id, vis@, root, seed as int) by {
                                        if k == i - 1 {
                                            assert(boundary@[k] == v0 && boundary@[(k + 1) % (n as int)] == v1);
                                        }
                                    }
                                }
                            }
                            continue;
                        },
                    };
                    assert(edge_refs_ok(self.edges@[edge_id.id as int], self.nv(), self.nh()));
                    let start_he = self.edges[edge_id.id as usize].any_he;
                    let mut he_id = start_he;
                    let nh = self.hes.len();
                    let mut steps: usize = 0;
                    let ghost s = start_he.id as int;
                    let ghost mut ret = false;
                    proof {
                        if tidy {
                            assert(self.edges@ == m0.edges@);
                            assert(first_edge(&m0, edge_id.id as int, v0, v1));
                        }
                    }
                    while steps < nh
                        invariant_except_break
                            !ret,
                        invariant
                            s == start_he.id as int,
                            nf == m0.nf(),
                            0 <= seed < nf,
                            bfs_inv(&m0, self, vis@, queue@, total as nat, n_flipped as nat),
                            forall|j: int| 0 <= j <= seed && #[trigger] active_flags(&m0)[j] ==> vis@[j],
                            m0 == *old(self),
                            nh == self.nh(),
                            (he_id.id as int) < nh,
                            (start_he.id as int) < nh,
                            0 <= steps <= nh,
                            count_true(vis@) <= nf,
                            count_true(vis@) >= c0,
                            count_true(vis@) == c0 ==> queue@.len() == q0,
                            consistently_oriented(&m0) ==> *self == m0 && n_flipped == 0,
                no_hole_faces(&m0) ==> no_hole_faces(self),
                            consistently_oriented(&m0) ==> self.face_active(face_id) && has_loop(self.hes@, self.face(face_id).outer.id as int)
                                && boundary@ == outer_dsts(self, face_id),
                            0 < i <= n,
                            n == boundary@.len(),
                            v0 == boundary@[i - 1 as int],
                            v1 == boundary@[(i as int) % (n as int)],
                            tidy == tidy_mesh(&m0),
                            tidy ==> forest_state(self, vis@, queue@, done, par, root, ord, seed as int, face_id.id as int) && same_rings(&m0, self)
                            && 0 <= face_id.id < nf && vis@[face_id.id as int] && root[face_id.id as int] == seed as int
                            && self.face_active(face_id) && boundary@ == outer_dsts(self, face_id),
                            tidy ==> forall|k: int| 0 <= k < i - 1 ==> #[trigger] pair_ok(&m0, boundary@[k], boundary@[(k + 1) % (n as int)], face_id, vis@, root, seed as int),
                            tidy ==> first_edge(&m0, edge_id.id as int, v0, v1) && s == m0.edges@[edge_id.id as int].any_he.id as int
                                && nh == m0.nh() && 0 <= s < nh,
                            tidy ==> he_id.id as int == walk_rad(m0.hes@, s, steps as nat),
                            tidy ==> forall|q: nat| 1 <= q < steps ==> walk_rad(m0.hes@, s, q) != s,
                            tidy && ret ==> steps >= 1 && walk_rad(m0.hes@, s, steps as nat) == s,
                            tidy && !ret ==> steps == 0 || walk_rad(m0.hes@, s, steps as nat) != s,
                            tidy ==> forall|t: nat| t < steps ==> #[trigger] seen_at(&m0, s, t, face_id, vis@, root, seed as int),
                        ensures
                            tidy && !ret ==> steps == nh,
                        decreases nh - steps,
                    {
                        let ghost t = steps as nat;
                        let ghost q_head = queue@;
                        let ghost vis_head = vis@;
                        let ghost root_head = root;
                        let ghost mut visited_now = false;
                        steps = steps + 1;
                        assert(he_refs_ok(self.hes@[he_id.id as int], self.nv(), self.nh(), self.ne(), self.nf()));
                        let nb = self.hes[he_id.id as usize].face;
                        proof {
                            if tidy {
                                lemma_walk_rad_in_range(&m0, s, t);
                                assert(nb == m0.hes@[walk_rad(m0.hes@, s, t)].face);
                            }
                        }
                        if nb.id != NULL_RAW && nb.id != face_id.id && (nb.id as usize) < nf
                            && self.slot_active(nb.id as usize) && !vis[nb.id as usize] {
                            let ghost pre_vis = vis@;
                            let ghost mesh_pre = *self;
                            proof {
                                visited_now = true;
                            }
                            vis.set(nb.id as usize, true);
                            proof {
                                lemma_count_true_set(pre_vis, nb.id as int);
                                lemma_count_true_le(vis@);
                            }
                            let nb_outer = match &self.faces[nb.id as usize] {
                                Some(fc) => fc.outer,
                                None => HeId::null(),
                            };
                            match self.collect_loop_verts(nb_outer) {
                                Ok(nb_boundary) => {
                                    let needs_flip = check_needs_flip(v0, v1, nb_boundary.as_slice());
                                    proof {
                                        if consistently_oriented(&m0) {
                                            let bf = outer_dsts(self, face_id);
                                            let k = (i - 1) as int;
                                            assert(self.face_active(nb));
                                            assert(nb_boundary@ == outer_dsts(self, nb));
                                            assert((k + 1) % (bf.len() as int) == (i as int) % (n as int));
                                            assert(!first_run_same_dir(outer_dsts(self, nb), bf[k], bf[(k + 1) % (bf.len() as int)]));
                                            assert(!needs_flip);
                                        }
                                    }
                                    if needs_flip {
                                        let ghost pre = *self;
                                        proof {
                                            if no_hole_faces(&m0) {
                                                assert(self.face_active(nb));
                                                assert(self.face(nb).outer == nb_outer);
                                            }
                                        }
                                        self.flip_face(nb)?;
                                        proof {
                                            assert(flipped(&pre, self, nb));
                                            if no_hole_faces(&m0) {
                                                assert forall|f: FaceId| #[trigger] self.face_active(f) implies self.face(f).inners@.len() == 0 by {
                                                    assert(faces_renormal(&pre, self, nb, neg_bits(pre.face(nb).normal)));
                                                    if f != nb {
                                                        assert(self.faces@[f.id as int] == pre.faces@[f.id as int]);
                                                        assert(pre.face_active(f));
                                                    } else {
                                                        assert(pre.face_active(nb));
                                                        assert(self.face(nb).inners@ == pre.face(nb).inners@);
                                                    }
                                                }
                                            }
                                            assert forall|j: int| 0 <= j < m0.nf() implies (#[trigger] active_flags(self)[j]) == active_flags(&m0)[j] by {
                                                assert(active_flags(&pre)[j] == active_flags(&m0)[j]);
                                                if j != nb.id as int {
                                                    assert(self.faces@[j] == pre.faces@[j]);
                                                }
                                            }
                                        }
                                        n_flipped = n_flipped + 1;
                                    }
                                    proof {
                                        if tidy {
                                            visit_step(&m0, &mesh_pre, self, pre_vis, q_head, done, par, root, ord, seed as int,
                                                face_id, nb, v0, v1, boundary@, (i - 1) as int, s, t, edge_id.id as int,
                                                needs_flip, nb_boundary@);
                                        }
                                    }
                                    queue.push_back(nb);
                                    proof {
                                        par = par.update(nb.id as int, Some((FaceId { id: face_id.id as int as u32 }, v0, v1)));
                                        root = root.update(nb.id as int, seed as int);
                                        ord = ord.update(nb.id as int, count_true(pre_vis) as int);
                                        if tidy {
                                            assert(FaceId { id: face_id.id as int as u32 } == face_id);
                                            assert(vis@ == pre_vis.update(nb.id as int, true));
                                            assert(queue@ == q_head.push(nb));
                                            lemma_grow_facts(&m0, boundary@, n as int, (i - 1) as int, s, t, face_id, pre_vis, root_head, seed as int, nb);
                                        }
                                    }
                                },
                                Err(_) => {
                                    proof {
                                        if tidy {
                                            assert(tidy_face(self, nb));
                                            assert(false);
                                        }
                                    }
                                    queue.push_back(nb);
                                    break;
                                },
                            }
                        }
                        proof {
                            if tidy && !visited_now {
                                let g = m0.hes@[walk_rad(m0.hes@, s, t)].face;
                                assert(g == nb);
                                if nb.id != NULL_RAW && nb != face_id && m0.face_active(nb) {
                                    assert(self.face_active(nb) == m0.face_active(nb));
                                    assert(active_flags(self)[nb.id as int]);
                                    assert(vis@[nb.id as int]);
                                }
                                assert(seen_at(&m0, s, t, face_id, vis@, root, seed as int));
                                assert forall|t2: nat| t2 < steps implies #[trigger] seen_at(&m0, s, t2, face_id, vis@, root, seed as int) by {
                                    if t2 < t {
                                        assert(seen_at(&m0, s, t2, face_id, vis_head, root_head, seed as int));
                                    }
                                }
                            }
                        }
                        assert(he_refs_ok(self.hes@[he_id.id as int], self.nv(), self.nh(), self.ne(), self.nf()));
                        let ghost prev_he = he_id.id as int;
                        he_id = self.hes[he_id.id as usize].next_rad;
                        proof {
                            if tidy {
                                assert(self.hes@[prev_he].next_rad == m0.hes@[prev_he].next_rad);
                                assert(he_id.id as int == walk_rad(m0.hes@, s, steps as nat));
                            }
                        }
                        if he_id.id == start_he.id {
                            proof {
                                ret = true;
                                if tidy {
                                    assert(he_id.id as int == s);
                                    assert(he_id.id as int == walk_rad(m0.hes@, s, steps as nat));
                                    assert(walk_rad(m0.hes@, s, steps as nat) == s);
                                }
                            }
                            break;
                        }
                        proof {
                            if tidy {
                                assert(walk_rad(m0.hes@, s, steps as nat) != s);
                            }
                        }
                    }
                    proof {
                        if tidy {
                            lemma_ring_exit(m0.hes@, s, nh as nat, steps as nat, ret);
                            lemma_pair_done(&m0, edge_id.id as int, v0, v1, steps as nat, face_id, vis@, root, seed as int);
                            assert forall|k: int| 0 <= k < i implies #[trigger] pair_ok(&m0, boundary@[k], boundary@[(k + 1) % (n as int)], face_id, vis@, root, seed as int) by {
                                if k == i - 1 {
                                    assert(boundary@[k] == v0 && boundary@[(k + 1) % (n as int)] == v1);
                                }
                            }
                        }
                    }
                }
                proof {
                    if tidy {
                        lemma_face_reach(&m0, self, face_id, vis@, root, seed as int);
                        lemma_forest_finish(self, vis@, queue@, done, par, root, ord, seed as int, face_id.id as int);
                    }
                    done = done.update(face_id.id as int, true);
                }
            }
            assert(queue@ =~= Seq::<FaceId>::empty());
            proof {
                if tidy {
                    lemma_forest_next_seed(self, vis@, done, par, root, ord, seed as int);
                }
            }
            seed = seed + 1;
        }
        proof {
            assert(vis@ =~= active_flags(&m0)) by {
                assert forall|j: int| 0 <= j < nf implies vis@[j] == active_flags(&m0)[j] by {
                    if active_flags(&m0)[j] {
                        assert(vis@[j]);
                    }
                }
            }
            assert(active_flags(self) =~= active_flags(&m0)) by {
                assert forall|j: int| 0 <= j < nf implies active_flags(self)[j] == active_flags(&m0)[j] by {
                    assert(active_flags(self)[j] == active_flags(&m0)[j]);
                }
            }
        }
        proof {
            if tidy {
                assert(vis@ == active_flags(self));
                lemma_forest_final(self, vis@, done, par, root, ord, seed as int);
            }
        }
        Ok(OrientResult { flipped: n_flipped, visited: total })
    }
}

// ───────────────────────── flipping twice ─────────────────────────


proof fn lemma_cyc_prev(t: int, n: int)
    requires
        0 <= t < n,
    ensures
        cyc_prev(t, n) == if t == 0 { n - 1 } else { t - 1 },
{
    if t == 0 {
        vstd::arithmetic::div_mod::lemma_small_mod((n - 1) as nat, n as nat);
    } else {
        vstd::arithmetic::div_mod::lemma_mod_add_multiples_vanish(t - 1, n);
        vstd::arithmetic::div_mod::lemma_small_mod((t - 1) as nat, n as nat);
    }
}

/// The reversed listing of a loop, starting at the same half-edge.
pub open spec fn rev_listing(v: Seq<HeId>) -> Seq<HeId> {
    Seq::new(v.len(), |t: int| if t == 0 { v[0] } else { v[v.len() - t] })
}

/// After reversing a consistent loop, walking `next` from the start visits
/// the loop backwards.
#[verifier::spinoff_prover]
proof fn lemma_walk_reversed(h0: Seq<HalfEdge>, h1: Seq<HalfEdge>, s: int, t: nat)
    requires
        has_loop(h0, s),
        loop_len(h0, s) >= 3,
        reversed(h0, h1, s),
        loop_consistent(h0, loop_seq(h0, s)),
        t <= loop_len(h0, s),
    ensures
        walk(h1, s, t) == if t == 0 || t == loop_len(h0, s) { s } else { loop_seq(h0, s)[loop_len(h0, s) - t].id as int },
    decreases t,
{
    let v = loop_seq(h0, s);
    let n = v.len() as int;
    if t > 0 {
        lemma_walk_reversed(h0, h1, s, (t - 1) as nat);
        let tp = (t - 1) as int;
        // index in v of the half-edge reached after t - 1 steps
        let k = if tp == 0 { 0 } else { n - tp };
        assert(0 <= k < n);
        assert(walk(h1, s, (t - 1) as nat) == v[k].id as int) by {
            assert(v[0].id as int == walk(h0, s, 0));
        }
        assert(h1[v[k].id as int].next == h0[v[k].id as int].prev);
        assert(h0[v[k].id as int].prev == v[cyc_prev(k, n)]);
        lemma_cyc_prev(k, n);
        if t as int == n {
            assert(k == 1);
            assert(v[0].id as int == s) by {
                assert(v[0].id as int == walk(h0, s, 0));
            }
        }
    }
}

/// Flipping a face twice gives back its normal and, when its outer loop is
/// consistent (each `prev` is the loop predecessor), owned by faces and has
/// no holes, every half-edge of that loop exactly as it was.
#[verifier::spinoff_prover]
pub proof fn lemma_flip_twice_restores(m0: &Mesh, m1: &Mesh, m2: &Mesh, f: FaceId)
    requires
        m0.wf(),
        flipped(m0, m1, f),
        flipped(m1, m2, f),
        m0.face(f).inners@.len() == 0,
        flippable(m0, f),
        loop_consistent(m0.hes@, loop_seq(m0.hes@, m0.face(f).outer.id as int)),
        loop_owned(m0.hes@, loop_seq(m0.hes@, m0.face(f).outer.id as int)),
    ensures
        m2.has_face(f),
        m2.face(f).normal == m0.face(f).normal,
        m2.face(f).outer == m0.face(f).outer,
        m2.face(f).inners@ == m0.face(f).inners@,
        m2.face(f).material == m0.face(f).material,
        m2.face(f).active == m0.face(f).active,
        forall|j: int| 0 <= j < m0.nf() && j != f.id as int ==> #[trigger] m2.faces@[j] == m0.faces@[j],
        forall|k: int|
            0 <= k < loop_len(m0.hes@, m0.face(f).outer.id as int) ==> #[trigger] m2.hes@[loop_seq(
                m0.hes@,
                m0.face(f).outer.id as int,
            )[k].id as int] == m0.hes@[loop_seq(m0.hes@, m0.face(f).outer.id as int)[k].id as int],
{
    let s = m0.face(f).outer.id as int;
    let h0 = m0.hes@;
    let h1 = m1.hes@;
    let h2 = m2.hes@;
    lemma_neg_neg_face(m0.face(f).normal);
    // first flip
    let st1 = choose|states: Seq<Seq<HalfEdge>>|
        #![trigger reversal_chain(states, loop_starts(m0.face(f)))]
        reversal_chain(states, loop_starts(m0.face(f))) && states[0] == m0.hes@ && states.last() == m1.hes@;
    assert(loop_starts(m0.face(f)) =~= seq![m0.face(f).outer]);
    assert(flip_step(st1[0], st1[1], loop_starts(m0.face(f))[0]));
    assert(reversed(h0, h1, s));
    // second flip
    assert(m1.face(f).outer == m0.face(f).outer);
    assert(m1.face(f).inners@.len() == 0);
    let st2 = choose|states: Seq<Seq<HalfEdge>>|
        #![trigger reversal_chain(states, loop_starts(m1.face(f)))]
        reversal_chain(states, loop_starts(m1.face(f))) && states[0] == m1.hes@ && states.last() == m2.hes@;
    assert(loop_starts(m1.face(f)) =~= seq![m0.face(f).outer]);
    assert(flip_step(st2[0], st2[1], loop_starts(m1.face(f))[0]));
    assert(reversed(h1, h2, s));
    // the loop after the first flip
    let v = loop_seq(h0, s);
    let n = v.len() as int;
    assert(n == loop_len(h0, s));
    assert(is_loop_of(h0, s, v)) by {
        let k = loop_len(h0, s);
        assert(k <= h0.len() && closes_at(h0, s, k));
    }
    lemma_loop_distinct(h0, s, v);
    let w = rev_listing(v);
    assert(is_loop_of(h1, s, w)) by {
        lemma_walk_reversed(h0, h1, s, n as nat);
        assert forall|m: nat| 1 <= m < n implies walk(h1, s, m) != s by {
            lemma_walk_reversed(h0, h1, s, m);
            assert(v[0].id as int == walk(h0, s, 0));
            assert(v[n - m].id != v[0].id);
        }
        assert forall|t: int| 0 <= t < w.len() implies (#[trigger] w[t]).id as int == walk(h1, s, t as nat) by {
            lemma_walk_reversed(h0, h1, s, t as nat);
            assert(v[0].id as int == walk(h0, s, 0));
        }
        assert(0 <= s < h1.len());
    }
    assert(w.len() <= h1.len()) by {
        let k = loop_len(h0, s);
        assert(k <= h0.len());
    }
    lemma_loop_of_is_loop_seq(h1, s, w);
    assert(loop_seq(h1, s) == w);
    assert(loop_owned(h1, w)) by {
        assert forall|t: int| 0 <= t < w.len() implies h1[(#[trigger] w[t]).id as int].face.id != NULL_RAW by {
            let k = if t == 0 { 0 } else { n - t };
            assert(w[t] == v[k]);
            assert(h0[v[k].id as int] == h0[v[k].id as int]);
        }
    }
    assert forall|k: int| 0 <= k < n implies #[trigger] h2[v[k].id as int] == h0[v[k].id as int] by {
        let t = if k == 0 { 0 } else { n - k };
        assert(w[t] == v[k]);
        assert(h0[v[k].id as int] == h0[v[k].id as int]);
        assert(h1[w[t].id as int] == h1[w[t].id as int]);
        lemma_cyc_prev(t, n);
        lemma_cyc_prev(k, n);
        let tp = cyc_prev(t, n);
        assert(h2[w[t].id as int].dst == h1[w[tp].id as int].dst);
        if k == 0 {
            assert(w[tp] == v[1]);
            lemma_cyc_prev(1, n);
            assert(h1[v[1].id as int].dst == h0[v[cyc_prev(1, n)].id as int].dst);
        } else if k == n - 1 {
            assert(tp == 0);
            assert(w[tp] == v[0]);
            assert(h1[v[0].id as int].dst == h0[v[cyc_prev(0, n)].id as int].dst);
        } else {
            assert(w[tp] == v[k + 1]);
            lemma_cyc_prev(k + 1, n);
            assert(h1[v[k + 1].id as int].dst == h0[v[cyc_prev(k + 1, n)].id as int].dst);
        }
    }
    assert forall|j: int| 0 <= j < m0.nf() && j != f.id as int implies #[trigger] m2.faces@[j] == m0.faces@[j] by {
        assert(m1.faces@[j] == m0.faces@[j]);
    }
}

/// Flipping a face whose outer loop is consistent (each `prev` is the loop
/// predecessor), owned by faces and without holes reverses the order of its
/// boundary vertices: walking from the same start visits them backwards.
#[verifier::spinoff_prover]
#[verifier::rlimit(40)]
pub proof fn lemma_flip_reverses_boundary(m0: &Mesh, m1: &Mesh, f: FaceId)
    requires
        m0.wf(),
        flipped(m0, m1, f),
        m0.face(f).inners@.len() == 0,
        flippable(m0, f),
        loop_consistent(m0.hes@, loop_seq(m0.hes@, m0.face(f).outer.id as int)),
        loop_owned(m0.hes@, loop_seq(m0.hes@, m0.face(f).outer.id as int)),
    ensures
        m1.face(f).outer == m0.face(f).outer,
        has_loop(m1.hes@, m0.face(f).outer.id as int),
        dsts_of(m1.hes@, loop_seq(m1.hes@, m0.face(f).outer.id as int)) == dsts_of(
            m0.hes@,
            loop_seq(m0.hes@, m0.face(f).outer.id as int),
        ).reverse(),
        loop_seq(m1.hes@, m0.face(f).outer.id as int) == rev_listing(loop_seq(m0.hes@, m0.face(f).outer.id as int)),
{
    let s = m0.face(f).outer.id as int;
    let h0 = m0.hes@;
    let h1 = m1.hes@;
    let st1 = choose|states: Seq<Seq<HalfEdge>>|
        #![trigger reversal_chain(states, loop_starts(m0.face(f)))]
        reversal_chain(states, loop_starts(m0.face(f))) && states[0] == m0.hes@ && states.last() == m1.hes@;
    assert(loop_starts(m0.face(f)) =~= seq![m0.face(f).outer]);
    assert(flip_step(st1[0], st1[1], loop_starts(m0.face(f))[0]));
    assert(reversed(h0, h1, s));
    let v = loop_seq(h0, s);
    let n = v.len() as int;
    assert(n == loop_len(h0, s));
    assert(is_loop_of(h0, s, v)) by {
        let k = loop_len(h0, s);
        assert(k <= h0.len() && closes_at(h0, s, k));
    }
    lemma_loop_distinct(h0, s, v);
    let w = rev_listing(v);
    assert(is_loop_of(h1, s, w)) by {
        lemma_walk_reversed(h0, h1, s, n as nat);
        assert forall|m: nat| 1 <= m < n implies walk(h1, s, m) != s by {
            lemma_walk_reversed(h0, h1, s, m);
            assert(v[0].id as int == walk(h0, s, 0));
            assert(v[n - m].id != v[0].id);
        }
        assert forall|t: int| 0 <= t < w.len() implies (#[trigger] w[t]).id as int == walk(h1, s, t as nat) by {
            lemma_walk_reversed(h0, h1, s, t as nat);
            assert(v[0].id as int == walk(h0, s, 0));
        }
        assert(0 <= s < h1.len());
    }
    assert(w.len() <= h1.len()) by {
        let k = loop_len(h0, s);
        assert(k <= h0.len());
    }
    lemma_loop_of_is_loop_seq(h1, s, w);
    let d0 = dsts_of(h0, v);
    let d1 = dsts_of(h1, w);
    assert forall|t: int| 0 <= t < n implies #[trigger] d1[t] == d0.reverse()[t] by {
        let k = if t == 0 { 0 } else { n - t };
        assert(w[t] == v[k]);
        lemma_cyc_prev(k, n);
        assert(h1[v[k].id as int].dst == h0[v[cyc_prev(k, n)].id as int].dst);
    }
    assert(d1 =~= d0.reverse());
    assert(m1.face(f).outer == m0.face(f).outer);
}

proof fn lemma_neg_neg_face(n: crate::mesh::Vec3Bits)
    ensures
        neg_bits(neg_bits(n)) == n,
{
    crate::mesh::lemma_neg_neg(n);
}

// ───────────────────────── orientation forest ─────────────────────────

/// Face `f` has no holes and a tidy outer loop: it closes, has at least
/// three half-edges, each half-edge's `prev` is its loop predecessor, each
/// is owned by `f`, and no vertex occurs twice on it.
pub open spec fn tidy_face(m: &Mesh, f: FaceId) -> bool {
    let s = m.face(f).outer.id as int;
    &&& m.face(f).inners@.len() == 0
    &&& has_loop(m.hes@, s)
    &&& loop_len(m.hes@, s) >= 3
    &&& loop_consistent(m.hes@, loop_seq(m.hes@, s))
    &&& forall|k: int| 0 <= k < loop_seq(m.hes@, s).len() ==> m.hes@[(#[trigger] loop_seq(m.hes@, s)[k]).id as int].face == f
    &&& outer_dsts(m, f).no_duplicates()
}

/// Every active face is tidy (as faces built by `add_face` with distinct
/// vertices are).
pub open spec fn tidy_mesh(m: &Mesh) -> bool {
    forall|f: FaceId| #[trigger] m.face_active(f) ==> tidy_face(m, f)
}

/// Radial links, half-edge owners, edges and active faces agree.
pub open spec fn same_rings(a: &Mesh, b: &Mesh) -> bool {
    &&& b.hes@.len() == a.hes@.len()
    &&& forall|j: int| 0 <= j < a.nh() ==> (#[trigger] b.hes@[j]).next_rad == a.hes@[j].next_rad && b.hes@[j].face == a.hes@[j].face
    &&& b.edges@ == a.edges@
    &&& b.faces@.len() == a.faces@.len()
    &&& forall|f: FaceId| #[trigger] b.face_active(f) == a.face_active(f)
}

/// Flipping a face without holes reverses its outer loop in one step.
proof fn lemma_flip_one_loop(m0: &Mesh, m1: &Mesh, nb: FaceId)
    requires
        flipped(m0, m1, nb),
        m0.face(nb).inners@.len() == 0,
        m0.face(nb).outer.id != NULL_RAW,
    ensures
        reversed(m0.hes@, m1.hes@, m0.face(nb).outer.id as int),
{
    let st1 = choose|states: Seq<Seq<HalfEdge>>|
        #![trigger reversal_chain(states, loop_starts(m0.face(nb)))]
        reversal_chain(states, loop_starts(m0.face(nb))) && states[0] == m0.hes@ && states.last() == m1.hes@;
    assert(loop_starts(m0.face(nb)) =~= seq![m0.face(nb).outer]);
    assert(flip_step(st1[0], st1[1], loop_starts(m0.face(nb))[0]));
}

/// The reversal of a loop of at least three half-edges is consistent: each
/// `prev` is the predecessor along the reversed loop.
proof fn lemma_rev_consistent(h0: Seq<HalfEdge>, h1: Seq<HalfEdge>, s: int)
    requires
        has_loop(h0, s),
        loop_len(h0, s) >= 3,
        reversed(h0, h1, s),
        loop_seq(h1, s) == rev_listing(loop_seq(h0, s)),
    ensures
        loop_consistent(h1, loop_seq(h1, s)),
{
    let v = loop_seq(h0, s);
    let n = v.len() as int;
    assert(is_loop_of(h0, s, v)) by {
        let k = loop_len(h0, s);
        assert(k <= h0.len() && closes_at(h0, s, k));
    }
    let w = rev_listing(v);
    assert forall|t: int| 0 <= t < w.len() implies #[trigger] h1[w[t].id as int].prev == w[cyc_prev(t, n)] by {
        let k = if t == 0 { 0 } else { n - t };
        assert(w[t] == v[k]);
        assert(h1[v[k].id as int].prev == h0[v[k].id as int].next);
        lemma_cyc_prev(t, n);
        assert(v[k].id as int == walk(h0, s, k as nat));
        assert(h0[v[k].id as int].next.id as int == walk(h0, s, (k + 1) as nat));
        if k + 1 < n {
            assert(v[k + 1].id as int == walk(h0, s, (k + 1) as nat));
            assert(w[cyc_prev(t, n)] == v[k + 1]);
            assert(h0[v[k].id as int].next == v[k + 1]);
        } else {
            assert(walk(h0, s, n as nat) == s);
            assert(v[0].id as int == walk(h0, s, 0));
            assert(w[cyc_prev(t, n)] == v[0]);
            assert(h0[v[k].id as int].next == v[0]);
        }
    }
}

/// Flipping an active tidy face leaves radial links, owners, edges and
/// active faces as they were.
#[verifier::spinoff_prover]
proof fn lemma_flip_rings(m0: &Mesh, m1: &Mesh, nb: FaceId)
    requires
        m0.wf(),
        flipped(m0, m1, nb),
        m0.face_active(nb),
        tidy_face(m0, nb),
    ensures
        same_rings(m0, m1),
{
    let s = m0.face(nb).outer.id as int;
    let h0 = m0.hes@;
    let h1 = m1.hes@;
    lemma_flip_one_loop(m0, m1, nb);
    let v = loop_seq(h0, s);
    assert forall|j: int| 0 <= j < m0.nh() implies (#[trigger] h1[j]).next_rad == h0[j].next_rad && h1[j].face == h0[j].face by {
        if in_loop(v, j) {
            let k = choose|k: int| 0 <= k < v.len() && v[k].id as int == j;
            assert(h0[v[k].id as int] == h0[j]);
        }
    }
    assert forall|f: FaceId| #[trigger] m1.face_active(f) == m0.face_active(f) by {
        if f.id != nb.id && (f.id as int) < m0.nf() {
            assert(m1.faces@[f.id as int] == m0.faces@[f.id as int]);
        }
    }
}

/// The reversal of a loop owned by `f` with distinct destinations keeps
/// those properties.
proof fn lemma_rev_tidy_seq(h0: Seq<HalfEdge>, h1: Seq<HalfEdge>, s: int, f: FaceId)
    requires
        has_loop(h0, s),
        loop_len(h0, s) >= 3,
        reversed(h0, h1, s),
        loop_seq(h1, s) == rev_listing(loop_seq(h0, s)),
        dsts_of(h1, loop_seq(h1, s)) == dsts_of(h0, loop_seq(h0, s)).reverse(),
        forall|k: int| 0 <= k < loop_seq(h0, s).len() ==> h0[(#[trigger] loop_seq(h0, s)[k]).id as int].face == f,
        dsts_of(h0, loop_seq(h0, s)).no_duplicates(),
    ensures
        loop_len(h1, s) >= 3,
        loop_consistent(h1, loop_seq(h1, s)),
        forall|k: int| 0 <= k < loop_seq(h1, s).len() ==> h1[(#[trigger] loop_seq(h1, s)[k]).id as int].face == f,
        dsts_of(h1, loop_seq(h1, s)).no_duplicates(),
{
    let v = loop_seq(h0, s);
    let n = v.len() as int;
    let w = rev_listing(v);
    assert(loop_len(h1, s) == w.len()) by {
        assert(loop_seq(h1, s).len() == loop_len(h1, s));
    }
    lemma_rev_consistent(h0, h1, s);
    assert forall|t: int| 0 <= t < w.len() implies h1[(#[trigger] w[t]).id as int].face == f by {
        let k = if t == 0 { 0 } else { n - t };
        assert(w[t] == v[k]);
        assert(h0[v[k].id as int].face == f);
    }
    let d = dsts_of(h0, v);
    assert forall|a: int, b: int| 0 <= a < b < d.len() implies d.reverse()[a] != d.reverse()[b] by {
        assert(d.reverse()[a] == d[d.len() - 1 - a]);
        assert(d.reverse()[b] == d[d.len() - 1 - b]);
    }
}

/// Flipping an active tidy face keeps it tidy and reverses its boundary.
#[verifier::spinoff_prover]
proof fn lemma_flip_self_tidy(m0: &Mesh, m1: &Mesh, nb: FaceId)
    requires
        m0.wf(),
        flipped(m0, m1, nb),
        m0.face_active(nb),
        tidy_face(m0, nb),
    ensures
        m1.face_active(nb),
        tidy_face(m1, nb),
        m1.face(nb).outer == m0.face(nb).outer,
        outer_dsts(m1, nb) == outer_dsts(m0, nb).reverse(),
{
    let s = m0.face(nb).outer.id as int;
    let h0 = m0.hes@;
    let h1 = m1.hes@;
    lemma_flip_one_loop(m0, m1, nb);
    let v = loop_seq(h0, s);
    assert(loop_owned(h0, v)) by {
        assert forall|k: int| 0 <= k < v.len() implies h0[(#[trigger] v[k]).id as int].face.id != NULL_RAW by {
            assert(h0[v[k].id as int].face == nb);
        }
    }
    lemma_flip_reverses_boundary(m0, m1, nb);
    lemma_rev_tidy_seq(h0, h1, s, nb);
    assert(m1.face(nb).inners@ == m0.face(nb).inners@);
}

/// Flipping an active tidy face `nb` leaves every other tidy face's outer
/// loop, and so its boundary and tidiness, as they were.
#[verifier::spinoff_prover]
#[verifier::rlimit(40)]
proof fn lemma_flip_other_tidy(m0: &Mesh, m1: &Mesh, nb: FaceId, f: FaceId)
    requires
        m0.wf(),
        flipped(m0, m1, nb),
        m0.face_active(nb),
        tidy_face(m0, nb),
        m0.face_active(f),
        tidy_face(m0, f),
        f != nb,
    ensures
        outer_dsts(m1, f) == outer_dsts(m0, f),
        tidy_face(m1, f),
{
    let s = m0.face(nb).outer.id as int;
    let h0 = m0.hes@;
    let h1 = m1.hes@;
    lemma_flip_one_loop(m0, m1, nb);
    let v = loop_seq(h0, s);
    assert(m1.faces@[f.id as int] == m0.faces@[f.id as int]);
    let t = m0.face(f).outer.id as int;
    let u = loop_seq(h0, t);
    assert(u[0].id as int == walk(h0, t, 0));
    assert(h0[u[0].id as int].face == f);
    if in_loop(v, t) {
        let k = choose|k: int| 0 <= k < v.len() && v[k].id as int == t;
        assert(h0[v[k].id as int].face == nb);
    }
    lemma_other_loop_kept(m0, h1, s, t);
    assert(loop_seq(h1, t) == u);
    assert forall|k: int| 0 <= k < u.len() implies #[trigger] h1[u[k].id as int] == h0[u[k].id as int] by {
        let j = u[k].id as int;
        assert(h0[j].face == f);
        if in_loop(v, j) {
            let q = choose|q: int| 0 <= q < v.len() && v[q].id as int == j;
            assert(h0[v[q].id as int].face == nb);
        }
        assert(0 <= j < h0.len()) by {
            crate::mesh::lemma_walk_in_range(m0, t, k as nat);
        }
        assert(same_but_dst(h1[j], h0[j]));
        assert(h1[j].dst == h0[j].dst);
    }
    assert(dsts_of(h1, u) =~= dsts_of(h0, u));
}

/// Flipping an active face of a tidy mesh keeps it tidy: the face's
/// boundary is reversed, every other face's boundary stays, and radial
/// links, owners, edges and active faces are untouched.
pub proof fn lemma_flip_tidy(m0: &Mesh, m1: &Mesh, nb: FaceId)
    requires
        m0.wf(),
        flipped(m0, m1, nb),
        tidy_mesh(m0),
        m0.face_active(nb),
    ensures
        tidy_mesh(m1),
        same_rings(m0, m1),
        m1.face(nb).outer == m0.face(nb).outer,
        outer_dsts(m1, nb) == outer_dsts(m0, nb).reverse(),
        forall|f: FaceId| m0.face_active(f) && f != nb ==> #[trigger] outer_dsts(m1, f) == outer_dsts(m0, f),
{
    assert(tidy_face(m0, nb));
    lemma_flip_rings(m0, m1, nb);
    lemma_flip_self_tidy(m0, m1, nb);
    assert forall|f: FaceId| m0.face_active(f) && f != nb implies #[trigger] outer_dsts(m1, f) == outer_dsts(m0, f) && tidy_face(m1, f) by {
        lemma_flip_other_tidy(m0, m1, nb, f);
    }
    assert forall|f: FaceId| #[trigger] m1.face_active(f) implies tidy_face(m1, f) by {
        if f != nb {
            assert(m0.face_active(f));
            lemma_flip_other_tidy(m0, m1, nb, f);
        }
    }
}

/// Edge `e` is the first active edge joining `a` and `b` (the one
/// `find_edge` returns).
pub open spec fn first_edge(m: &Mesh, e: int, a: VertId, b: VertId) -> bool {
    &&& 0 <= e < m.ne()
    &&& edge_joins(m.edges@[e], a, b)
    &&& forall|j: int| 0 <= j < e ==> !edge_joins(#[trigger] m.edges@[j], a, b)
}

/// The distinct active faces on the radial ring of edge `e`, walked from its
/// representative half-edge up to the first return.
pub open spec fn ring_faces(m: &Mesh, e: int) -> Seq<FaceId> {
    faces_met(m, m.edges@[e].any_he.id as int, rad_steps(m.hes@, m.edges@[e].any_he.id as int, m.nh() as nat))
}

/// Face `g` lies across `a -> b`: on the ring of the first edge joining them.
pub open spec fn across(m: &Mesh, a: VertId, b: VertId, g: FaceId) -> bool {
    exists|e: int| #[trigger] first_edge(m, e, a, b) && ring_faces(m, e).contains(g)
}

/// The outer loop of face `f` runs `a -> b` somewhere.
pub open spec fn runs_edge(m: &Mesh, f: FaceId, a: VertId, b: VertId) -> bool {
    exists|i: int| 0 <= i < outer_dsts(m, f).len() && #[trigger] runs(outer_dsts(m, f), i, a, b)
}

/// The first active edge joining two vertices is unique.
proof fn lemma_first_edge_unique(m: &Mesh, e1: int, e2: int, a: VertId, b: VertId)
    requires
        first_edge(m, e1, a, b),
        first_edge(m, e2, a, b),
    ensures
        e1 == e2,
{
    if e1 < e2 {
        assert(!edge_joins(m.edges@[e1], a, b));
    } else if e2 < e1 {
        assert(!edge_joins(m.edges@[e2], a, b));
    }
}

/// The first return of a radial walk is its number of steps.
proof fn lemma_rad_steps_first(hes: Seq<HalfEdge>, s: int, bound: nat, k: nat)
    requires
        1 <= k <= bound,
        walk_rad(hes, s, k) == s,
        forall|q: nat| 1 <= q < k ==> walk_rad(hes, s, q) != s,
    ensures
        rad_steps(hes, s, bound) == k,
{
    let c = rad_steps(hes, s, bound);
    assert(exists|q: nat| 1 <= q <= bound && walk_rad(hes, s, q) == s);
    assert(1 <= c <= bound && walk_rad(hes, s, c) == s && forall|q: nat| 1 <= q < c ==> walk_rad(hes, s, q) != s);
    if c < k {
        assert(walk_rad(hes, s, c) != s);
    } else if k < c {
        assert(walk_rad(hes, s, k) != s);
    }
}

/// A face met at step `t` of a walk is among the faces met in `k > t` steps.
proof fn lemma_faces_met_has(m: &Mesh, s: int, k: nat, t: nat)
    requires
        t < k,
        m.hes@[walk_rad(m.hes@, s, t)].face.id != NULL_RAW,
        m.face_active(m.hes@[walk_rad(m.hes@, s, t)].face),
    ensures
        faces_met(m, s, k).contains(m.hes@[walk_rad(m.hes@, s, t)].face),
    decreases k,
{
    let g = m.hes@[walk_rad(m.hes@, s, t)].face;
    let prev = faces_met(m, s, (k - 1) as nat);
    if t < k - 1 {
        lemma_faces_met_has(m, s, (k - 1) as nat, t);
        let q = choose|q: int| 0 <= q < prev.len() && prev[q] == g;
        assert(faces_met(m, s, k)[q] == prev[q]);
    } else {
        if prev.contains(g) {
            let q = choose|q: int| 0 <= q < prev.len() && prev[q] == g;
            assert(faces_met(m, s, k)[q] == prev[q]);
        } else {
            assert(faces_met(m, s, k) == prev.push(g));
            assert(faces_met(m, s, k)[prev.len() as int] == g);
        }
    }
}

/// A face among those met in `k` steps is the face of some step before `k`.
proof fn lemma_faces_met_from(m: &Mesh, s: int, k: nat, g: FaceId)
    requires
        faces_met(m, s, k).contains(g),
    ensures
        exists|t: nat| t < k && #[trigger] m.hes@[walk_rad(m.hes@, s, t)].face == g && g.id != NULL_RAW && m.face_active(g),
    decreases k,
{
    let prev = faces_met(m, s, (k - 1) as nat);
    let f = m.hes@[walk_rad(m.hes@, s, (k - 1) as nat)].face;
    if prev.contains(g) {
        lemma_faces_met_from(m, s, (k - 1) as nat, g);
    } else {
        let q = choose|q: int| 0 <= q < faces_met(m, s, k).len() && faces_met(m, s, k)[q] == g;
        if f.id != NULL_RAW && m.face_active(f) && !prev.contains(f) {
            assert(faces_met(m, s, k) == prev.push(f));
            if q < prev.len() {
                assert(prev[q] == g);
            }
        } else {
            assert(faces_met(m, s, k) == prev);
        }
        assert(m.hes@[walk_rad(m.hes@, s, (k - 1) as nat)].face == g);
    }
}

/// Radial walks agree in meshes with the same rings.
proof fn lemma_walk_rad_same(a: &Mesh, b: &Mesh, s: int, k: nat)
    requires
        a.wf(),
        same_rings(a, b),
        0 <= s < a.nh(),
    ensures
        walk_rad(a.hes@, s, k) == walk_rad(b.hes@, s, k),
    decreases k,
{
    if k > 0 {
        lemma_walk_rad_same(a, b, s, (k - 1) as nat);
        lemma_walk_rad_in_range(a, s, (k - 1) as nat);
    }
}

/// The faces met on a radial walk agree in meshes with the same rings.
proof fn lemma_faces_met_same(a: &Mesh, b: &Mesh, s: int, k: nat)
    requires
        a.wf(),
        same_rings(a, b),
        0 <= s < a.nh(),
    ensures
        faces_met(a, s, k) == faces_met(b, s, k),
    decreases k,
{
    if k > 0 {
        lemma_faces_met_same(a, b, s, (k - 1) as nat);
        lemma_walk_rad_same(a, b, s, (k - 1) as nat);
        lemma_walk_rad_in_range(a, s, (k - 1) as nat);
        let w = walk_rad(a.hes@, s, (k - 1) as nat);
        assert(b.hes@[w].face == a.hes@[w].face);
        assert(b.face_active(a.hes@[w].face) == a.face_active(a.hes@[w].face));
    }
}

/// A radial walk that returns within `n` steps has a first return.
proof fn lemma_first_return(h: Seq<HalfEdge>, s: int, n: nat, q: nat)
    requires
        1 <= q <= n,
        walk_rad(h, s, q) == s,
    ensures
        exists|k: nat| 1 <= k <= n && walk_rad(h, s, k) == s && forall|m: nat| 1 <= m < k ==> walk_rad(h, s, m) != s,
    decreases q,
{
    if exists|m: nat| 1 <= m < q && walk_rad(h, s, m) == s {
        let m = choose|m: nat| 1 <= m < q && walk_rad(h, s, m) == s;
        lemma_first_return(h, s, n, m);
    } else {
        assert(1 <= q <= n && walk_rad(h, s, q) == s && forall|m: nat| 1 <= m < q ==> walk_rad(h, s, m) != s);
    }
}

/// Radial walks that agree step for step take as many steps.
#[verifier::spinoff_prover]
proof fn lemma_rad_steps_same(ha: Seq<HalfEdge>, hb: Seq<HalfEdge>, s: int, n: nat)
    requires
        forall|q: nat| #[trigger] walk_rad(ha, s, q) == walk_rad(hb, s, q),
    ensures
        rad_steps(ha, s, n) == rad_steps(hb, s, n),
{
    if exists|q: nat| 1 <= q <= n && walk_rad(ha, s, q) == s {
        let q0 = choose|q: nat| 1 <= q <= n && walk_rad(ha, s, q) == s;
        lemma_first_return(ha, s, n, q0);
        let c = rad_steps(ha, s, n);
        assert(1 <= c <= n && walk_rad(ha, s, c) == s && forall|q: nat| 1 <= q < c ==> walk_rad(ha, s, q) != s);
        assert(walk_rad(hb, s, c) == s);
        assert forall|q: nat| 1 <= q < c implies walk_rad(hb, s, q) != s by {
            assert(walk_rad(ha, s, q) != s);
        }
        lemma_rad_steps_first(hb, s, n, c);
    } else {
        assert forall|q: nat| 1 <= q <= n implies walk_rad(hb, s, q) != s by {
            assert(walk_rad(ha, s, q) != s);
        }
    }
}

/// Meshes with the same rings have the same faces on the ring of each edge.
#[verifier::spinoff_prover]
proof fn lemma_ring_faces_same(a: &Mesh, b: &Mesh, e: int)
    requires
        a.wf(),
        same_rings(a, b),
        0 <= e < a.ne(),
    ensures
        ring_faces(a, e) == ring_faces(b, e),
{
    assert(edge_refs_ok(a.edges@[e], a.nv(), a.nh()));
    let s = a.edges@[e].any_he.id as int;
    assert forall|q: nat| #[trigger] walk_rad(a.hes@, s, q) == walk_rad(b.hes@, s, q) by {
        lemma_walk_rad_same(a, b, s, q);
    }
    lemma_rad_steps_same(a.hes@, b.hes@, s, a.nh() as nat);
    lemma_faces_met_same(a, b, s, rad_steps(a.hes@, s, a.nh() as nat));
}

/// Meshes with the same rings have the same faces across every pair of
/// vertices.
proof fn lemma_across_same(a: &Mesh, b: &Mesh, x: VertId, y: VertId, g: FaceId)
    requires
        a.wf(),
        same_rings(a, b),
    ensures
        across(a, x, y, g) == across(b, x, y, g),
{
    if across(a, x, y, g) {
        let e = choose|e: int| #[trigger] first_edge(a, e, x, y) && ring_faces(a, e).contains(g);
        lemma_ring_faces_same(a, b, e);
        assert(first_edge(b, e, x, y));
    }
    if across(b, x, y, g) {
        let e = choose|e: int| #[trigger] first_edge(b, e, x, y) && ring_faces(b, e).contains(g);
        assert(first_edge(a, e, x, y));
        lemma_ring_faces_same(a, b, e);
    }
}

/// A face across an edge is active.
proof fn lemma_across_active(m: &Mesh, a: VertId, b: VertId, g: FaceId)
    requires
        across(m, a, b, g),
    ensures
        m.face_active(g),
        0 <= g.id < m.nf(),
{
    let e = choose|e: int| #[trigger] first_edge(m, e, a, b) && ring_faces(m, e).contains(g);
    let s = m.edges@[e].any_he.id as int;
    let k = rad_steps(m.hes@, s, m.nh() as nat);
    crate::mesh::lemma_faces_met_active(m, s, k);
    let i = choose|i: int| 0 <= i < faces_met(m, s, k).len() && faces_met(m, s, k)[i] == g;
}

/// Reversing a boundary without repeated vertices, of at least three, that
/// runs `a -> b` leaves no place running `a -> b`.
proof fn lemma_rev_not_same_dir(d: Seq<VertId>, a: VertId, b: VertId)
    requires
        d.no_duplicates(),
        d.len() >= 3,
        first_run_same_dir(d, a, b),
    ensures
        !first_run_same_dir(d.reverse(), a, b),
{
    let n = d.len() as int;
    let i = choose|i: int| 0 <= i < n && runs(d, i, a, b) && forall|j: int| 0 <= j < i ==> !runs(d, j, a, b) && !runs(d, j, b, a);
    let r = d.reverse();
    assert forall|p: int| 0 <= p < n implies !runs(r, p, a, b) by {
        if runs(r, p, a, b) {
            assert(r[p] == d[n - 1 - p]);
            assert(n - 1 - p == i);
            crate::extrude::lemma_next_index(p, n);
            crate::extrude::lemma_next_index(i, n);
            if p + 1 < n {
                assert(r[p + 1] == d[i - 1]);
                if i + 1 < n {
                    assert(d[i - 1] == d[i + 1]);
                } else {
                    assert(d[i - 1] == d[0]);
                }
            } else {
                assert(i == 0);
                assert(r[0] == d[n - 1]);
                assert(d[n - 1] == d[1]);
            }
        }
    }
}

/// How face `j` joined the orientation forest: a root (`par[j]` none) is its
/// own root; otherwise it was reached from an active face `f` of the same
/// tree, earlier in visiting order, whose outer loop runs `a -> b`; `j` lies
/// across `a -> b` and does not first run it the same way.
pub open spec fn tree_link(m: &Mesh, par: Seq<Option<(FaceId, VertId, VertId)>>, root: Seq<int>, ord: Seq<int>, j: int) -> bool {
    match par[j] {
        None => root[j] == j,
        Some(p) => {
            &&& m.face_active(p.0)
            &&& p.0.id as int != j
            &&& root[p.0.id as int] == root[j]
            &&& ord[p.0.id as int] < ord[j]
            &&& runs_edge(m, p.0, p.1, p.2)
            &&& across(m, p.1, p.2, FaceId { id: j as u32 })
            &&& !first_run_same_dir(outer_dsts(m, FaceId { id: j as u32 }), p.1, p.2)
        },
    }
}

/// Every other face across an edge of face `j`'s outer loop has a root no
/// later than `j`'s.
pub open spec fn roots_reach(m: &Mesh, root: Seq<int>, j: int) -> bool {
    let d = outer_dsts(m, FaceId { id: j as u32 });
    forall|i: int, g: FaceId|
        0 <= i < d.len() && #[trigger] across(m, d[i], d[(i + 1) % (d.len() as int)], g) && g.id as int != j ==> root[g.id
            as int] <= root[j]
}

/// Every other face across an edge of face `j`'s outer loop is visited.
pub open spec fn reach_visited(m: &Mesh, vis: Seq<bool>, j: int) -> bool {
    let d = outer_dsts(m, FaceId { id: j as u32 });
    forall|i: int, g: FaceId|
        0 <= i < d.len() && #[trigger] across(m, d[i], d[(i + 1) % (d.len() as int)], g) && g.id as int != j ==> vis[g.id
            as int]
}

/// An orientation forest of the active faces: each is a root or is linked,
/// consistently wound, to an earlier face of its tree; and faces across an
/// edge share a tree (each root is no later than the other's).
pub open spec fn orient_forest(m: &Mesh, par: Seq<Option<(FaceId, VertId, VertId)>>, root: Seq<int>, ord: Seq<int>) -> bool {
    &&& par.len() == m.nf()
    &&& root.len() == m.nf()
    &&& ord.len() == m.nf()
    &&& forall|j: int| 0 <= j < m.nf() && #[trigger] active_flags(m)[j] ==> tree_link(m, par, root, ord, j) && roots_reach(m, root, j)
}

/// The forest being built by the breadth-first orientation: visited faces
/// are linked (to visited parents), with roots up to the current seed;
/// finished faces reach only earlier roots; queued faces belong to the
/// current seed; every visited face but the one in hand is finished or
/// queued.
pub open spec fn forest_state(
    m: &Mesh,
    vis: Seq<bool>,
    q: Seq<FaceId>,
    done: Seq<bool>,
    par: Seq<Option<(FaceId, VertId, VertId)>>,
    root: Seq<int>,
    ord: Seq<int>,
    seed: int,
    cur: int,
) -> bool {
    &&& tidy_mesh(m)
    &&& vis.len() == m.nf()
    &&& par.len() == m.nf()
    &&& root.len() == m.nf()
    &&& ord.len() == m.nf()
    &&& done.len() == m.nf()
    &&& forall|j: int|
        0 <= j < m.nf() && #[trigger] vis[j] ==> active_flags(m)[j] && tree_link(m, par, root, ord, j) && 0 <= root[j] <= seed
            && ord[j] < count_true(vis)
            && (par[j] matches Some(p) ==> 0 <= p.0.id < m.nf() && vis[p.0.id as int])
    &&& forall|j: int| 0 <= j < m.nf() && #[trigger] done[j] ==> vis[j] && roots_reach(m, root, j) && reach_visited(m, vis, j)
    &&& forall|k: int|
        0 <= k < q.len() ==> 0 <= (#[trigger] q[k]).id < m.nf() && root[q[k].id as int] == seed && vis[q[k].id as int] && !done[q[k].id as int]
            && q[k].id as int != cur
    &&& forall|k1: int, k2: int| 0 <= k1 < k2 < q.len() ==> (#[trigger] q[k1]).id != (#[trigger] q[k2]).id
    &&& forall|j: int|
        0 <= j < m.nf() && vis[j] && !done[j] && j != cur ==> exists|k: int| 0 <= k < q.len() && (#[trigger] q[k]).id as int == j
}

/// Flipping a face not yet visited keeps the forest state.
#[verifier::spinoff_prover]
#[verifier::rlimit(60)]
proof fn lemma_forest_flip(
    m0: &Mesh,
    m1: &Mesh,
    nb: FaceId,
    vis: Seq<bool>,
    q: Seq<FaceId>,
    done: Seq<bool>,
    par: Seq<Option<(FaceId, VertId, VertId)>>,
    root: Seq<int>,
    ord: Seq<int>,
    seed: int,
    cur: int,
)
    requires
        m0.wf(),
        flipped(m0, m1, nb),
        m0.face_active(nb),
        forest_state(m0, vis, q, done, par, root, ord, seed, cur),
        !vis[nb.id as int],
    ensures
        forest_state(m1, vis, q, done, par, root, ord, seed, cur),
        tidy_mesh(m1),
        same_rings(m0, m1),
        outer_dsts(m1, nb) == outer_dsts(m0, nb).reverse(),
        forall|f: FaceId| m0.face_active(f) && f != nb ==> #[trigger] outer_dsts(m1, f) == outer_dsts(m0, f),
{
    lemma_flip_tidy(m0, m1, nb);
    assert(m1.nf() == m0.nf());
    assert forall|j: int| 0 <= j < m1.nf() && #[trigger] vis[j] implies tree_link(m1, par, root, ord, j) by {
        assert(tree_link(m0, par, root, ord, j));
        let fj = FaceId { id: j as u32 };
        assert(active_flags(m0)[j]);
        assert(m0.face_active(fj));
        assert(fj != nb);
        assert(active_flags(m1)[j]) by {
            assert(m1.face_active(fj) == m0.face_active(fj));
        }
        assert(outer_dsts(m1, fj) == outer_dsts(m0, fj));
        if let Some(p) = par[j] {
            assert(vis[p.0.id as int]);
            assert(p.0 != nb);
            assert(outer_dsts(m1, p.0) == outer_dsts(m0, p.0));
            lemma_across_same(m0, m1, p.1, p.2, fj);
            assert(runs_edge(m0, p.0, p.1, p.2));
            let i = choose|i: int| 0 <= i < outer_dsts(m0, p.0).len() && #[trigger] runs(outer_dsts(m0, p.0), i, p.1, p.2);
            assert(runs(outer_dsts(m1, p.0), i, p.1, p.2));
        }
    }
    assert forall|j: int| 0 <= j < m1.nf() && #[trigger] done[j] implies roots_reach(m1, root, j) && reach_visited(m1, vis, j) by {
        assert(roots_reach(m0, root, j));
        assert(reach_visited(m0, vis, j));
        let fj = FaceId { id: j as u32 };
        assert(vis[j]);
        assert(active_flags(m0)[j]);
        assert(fj != nb);
        let d = outer_dsts(m0, fj);
        assert(outer_dsts(m1, fj) == d);
        assert forall|i: int, g: FaceId|
            0 <= i < d.len() && #[trigger] across(m1, d[i], d[(i + 1) % (d.len() as int)], g) && g.id as int != j implies root[g.id
            as int] <= root[j] && vis[g.id as int] by {
            lemma_across_same(m0, m1, d[i], d[(i + 1) % (d.len() as int)], g);
        }
    }
}

/// Starting a new tree at an unvisited active face `seed`.
#[verifier::spinoff_prover]
proof fn lemma_forest_seed(
    m: &Mesh,
    vis: Seq<bool>,
    done: Seq<bool>,
    par: Seq<Option<(FaceId, VertId, VertId)>>,
    root: Seq<int>,
    ord: Seq<int>,
    seed: int,
)
    requires
        m.wf(),
        forest_state(m, vis, Seq::empty(), done, par, root, ord, seed, -1),
        0 <= seed < m.nf(),
        active_flags(m)[seed],
        !vis[seed],
    ensures
        forest_state(
            m,
            vis.update(seed, true),
            seq![FaceId { id: seed as u32 }],
            done,
            par.update(seed, None),
            root.update(seed, seed),
            ord.update(seed, count_true(vis) as int),
            seed,
            -1,
        ),
{
    let vis2 = vis.update(seed, true);
    let par2 = par.update(seed, None::<(FaceId, VertId, VertId)>);
    let root2 = root.update(seed, seed);
    let ord2 = ord.update(seed, count_true(vis) as int);
    let q = seq![FaceId { id: seed as u32 }];
    lemma_count_true_set(vis, seed);
    assert forall|j: int| 0 <= j < m.nf() && #[trigger] vis2[j] implies active_flags(m)[j] && tree_link(m, par2, root2, ord2, j)
        && 0 <= root2[j] <= seed && ord2[j] < count_true(vis2) && (par2[j] matches Some(p) ==> 0 <= p.0.id < m.nf()
        && vis2[p.0.id as int]) by {
        if j != seed {
            assert(vis[j]);
            assert(tree_link(m, par, root, ord, j));
            if let Some(p) = par[j] {
                assert(vis[p.0.id as int]);
                assert(p.0.id as int != seed);
            }
        }
    }
    assert forall|j: int| 0 <= j < m.nf() && #[trigger] done[j] implies vis2[j] && roots_reach(m, root2, j) && reach_visited(m, vis2, j) by {
        assert(roots_reach(m, root, j) && reach_visited(m, vis, j));
        assert(vis[j] && j != seed);
        let d = outer_dsts(m, FaceId { id: j as u32 });
        assert forall|i: int, g: FaceId|
            0 <= i < d.len() && #[trigger] across(m, d[i], d[(i + 1) % (d.len() as int)], g) && g.id as int != j implies root2[g.id
            as int] <= root2[j] && vis2[g.id as int] by {
            lemma_across_active(m, d[i], d[(i + 1) % (d.len() as int)], g);
            assert(vis[g.id as int]);
        }
    }
    assert forall|j: int| 0 <= j < m.nf() && vis2[j] && !done[j] && j != -1 implies exists|k: int| 0 <= k < q.len() && (#[trigger] q[k]).id as int == j by {
        if j != seed {
            assert(vis[j]);
        } else {
            assert(q[0].id as int == j);
        }
    }
}

/// Taking the first queued face in hand.
#[verifier::spinoff_prover]
proof fn lemma_forest_pop(
    m: &Mesh,
    vis: Seq<bool>,
    q: Seq<FaceId>,
    done: Seq<bool>,
    par: Seq<Option<(FaceId, VertId, VertId)>>,
    root: Seq<int>,
    ord: Seq<int>,
    seed: int,
)
    requires
        m.wf(),
        forest_state(m, vis, q, done, par, root, ord, seed, -1),
        q.len() > 0,
    ensures
        forest_state(m, vis, q.drop_first(), done, par, root, ord, seed, q[0].id as int),
        0 <= q[0].id < m.nf(),
        vis[q[0].id as int],
        root[q[0].id as int] == seed,
        !done[q[0].id as int],
{
    let c = q[0].id as int;
    let q2 = q.drop_first();
    assert forall|k: int| 0 <= k < q2.len() implies 0 <= (#[trigger] q2[k]).id < m.nf() && root[q2[k].id as int] == seed
        && vis[q2[k].id as int] && !done[q2[k].id as int] && q2[k].id as int != c by {
        assert(q2[k] == q[k + 1]);
        assert(q[0].id != q[k + 1].id);
    }
    assert forall|k1: int, k2: int| 0 <= k1 < k2 < q2.len() implies (#[trigger] q2[k1]).id != (#[trigger] q2[k2]).id by {
        assert(q2[k1] == q[k1 + 1] && q2[k2] == q[k2 + 1]);
    }
    assert forall|j: int| 0 <= j < m.nf() && vis[j] && !done[j] && j != c implies exists|k: int| 0 <= k < q2.len() && (#[trigger] q2[k]).id as int == j by {
        assert(j != -1);
        let k = choose|k: int| 0 <= k < q.len() && (#[trigger] q[k]).id as int == j;
        assert(k != 0);
        assert(q2[k - 1] == q[k]);
    }
}

/// Visiting the unvisited active face `nb` from face `cur` across
/// `v0 -> v1`, with `nb` wound the other way.
#[verifier::spinoff_prover]
#[verifier::rlimit(40)]
proof fn lemma_forest_visit(
    m: &Mesh,
    vis: Seq<bool>,
    q: Seq<FaceId>,
    done: Seq<bool>,
    par: Seq<Option<(FaceId, VertId, VertId)>>,
    root: Seq<int>,
    ord: Seq<int>,
    seed: int,
    cur: int,
    nb: FaceId,
    v0: VertId,
    v1: VertId,
)
    requires
        m.wf(),
        forest_state(m, vis, q, done, par, root, ord, seed, cur),
        0 <= cur < m.nf(),
        vis[cur],
        root[cur] == seed,
        m.face_active(nb),
        !vis[nb.id as int],
        nb.id as int != cur,
        runs_edge(m, FaceId { id: cur as u32 }, v0, v1),
        across(m, v0, v1, nb),
        !first_run_same_dir(outer_dsts(m, nb), v0, v1),
    ensures
        forest_state(
            m,
            vis.update(nb.id as int, true),
            q.push(nb),
            done,
            par.update(nb.id as int, Some((FaceId { id: cur as u32 }, v0, v1))),
            root.update(nb.id as int, seed),
            ord.update(nb.id as int, count_true(vis) as int),
            seed,
            cur,
        ),
{
    let b = nb.id as int;
    let vis2 = vis.update(b, true);
    let par2 = par.update(b, Some((FaceId { id: cur as u32 }, v0, v1)));
    let root2 = root.update(b, seed);
    let ord2 = ord.update(b, count_true(vis) as int);
    let q2 = q.push(nb);
    lemma_count_true_set(vis, b);
    assert(active_flags(m)[cur]);
    assert(FaceId { id: b as u32 } == nb);
    assert forall|j: int| 0 <= j < m.nf() && #[trigger] vis2[j] implies active_flags(m)[j] && tree_link(m, par2, root2, ord2, j)
        && 0 <= root2[j] <= seed && ord2[j] < count_true(vis2) && (par2[j] matches Some(p) ==> 0 <= p.0.id < m.nf()
        && vis2[p.0.id as int]) by {
        if j != b {
            assert(vis[j]);
            assert(tree_link(m, par, root, ord, j));
            if let Some(p) = par[j] {
                assert(vis[p.0.id as int]);
                assert(p.0.id as int != b);
            }
        } else {
            assert(active_flags(m)[j]);
        }
    }
    assert forall|j: int| 0 <= j < m.nf() && #[trigger] done[j] implies vis2[j] && roots_reach(m, root2, j) && reach_visited(m, vis2, j) by {
        assert(roots_reach(m, root, j) && reach_visited(m, vis, j));
        assert(vis[j] && j != b);
        let d = outer_dsts(m, FaceId { id: j as u32 });
        assert forall|i: int, g: FaceId|
            0 <= i < d.len() && #[trigger] across(m, d[i], d[(i + 1) % (d.len() as int)], g) && g.id as int != j implies root2[g.id
            as int] <= root2[j] && vis2[g.id as int] by {
            lemma_across_active(m, d[i], d[(i + 1) % (d.len() as int)], g);
            assert(vis[g.id as int]);
        }
    }
    assert forall|k: int| 0 <= k < q2.len() implies 0 <= (#[trigger] q2[k]).id < m.nf() && root2[q2[k].id as int] == seed
        && vis2[q2[k].id as int] && !done[q2[k].id as int] && q2[k].id as int != cur by {
        if k < q.len() {
            assert(q2[k] == q[k]);
            assert(vis[q[k].id as int]);
        } else {
            assert(q2[k] == nb);
            if done[b] {
                assert(vis[b]);
            }
        }
    }
    assert forall|k1: int, k2: int| 0 <= k1 < k2 < q2.len() implies (#[trigger] q2[k1]).id != (#[trigger] q2[k2]).id by {
        assert(q2[k1] == q[k1]);
        if k2 < q.len() {
            assert(q2[k2] == q[k2]);
        } else {
            assert(vis[q[k1].id as int]);
        }
    }
    assert forall|j: int| 0 <= j < m.nf() && vis2[j] && !done[j] && j != cur implies exists|k: int| 0 <= k < q2.len() && (#[trigger] q2[k]).id as int == j by {
        if j != b {
            assert(vis[j]);
            let k = choose|k: int| 0 <= k < q.len() && (#[trigger] q[k]).id as int == j;
            assert(q2[k] == q[k]);
        } else {
            assert(q2[q.len() as int] == nb);
        }
    }
}

/// Finishing the face in hand once every face across its edges is
/// visited, with a root no later than its own.
#[verifier::spinoff_prover]
proof fn lemma_forest_finish(
    m: &Mesh,
    vis: Seq<bool>,
    q: Seq<FaceId>,
    done: Seq<bool>,
    par: Seq<Option<(FaceId, VertId, VertId)>>,
    root: Seq<int>,
    ord: Seq<int>,
    seed: int,
    cur: int,
)
    requires
        m.wf(),
        forest_state(m, vis, q, done, par, root, ord, seed, cur),
        0 <= cur < m.nf(),
        vis[cur],
        roots_reach(m, root, cur),
        reach_visited(m, vis, cur),
    ensures
        forest_state(m, vis, q, done.update(cur, true), par, root, ord, seed, -1),
{
    let done2 = done.update(cur, true);
    assert forall|j: int| 0 <= j < m.nf() && #[trigger] done2[j] implies vis[j] && roots_reach(m, root, j) && reach_visited(m, vis, j) by {
        if j != cur {
            assert(done[j]);
        }
    }
    assert forall|k: int| 0 <= k < q.len() implies 0 <= (#[trigger] q[k]).id < m.nf() && root[q[k].id as int] == seed
        && vis[q[k].id as int] && !done2[q[k].id as int] && q[k].id as int != -1 by {}
    assert forall|j: int| 0 <= j < m.nf() && vis[j] && !done2[j] && j != -1 implies exists|k: int| 0 <= k < q.len() && (#[trigger] q[k]).id as int == j by {
        assert(j != cur);
    }
}

/// Step `t` of the radial walk from `s` in `m0` met no active face other
/// than `face` that is unvisited or rooted after `seed`.
pub open spec fn seen_at(m0: &Mesh, s: int, t: nat, face: FaceId, vis: Seq<bool>, root: Seq<int>, seed: int) -> bool {
    let g = m0.hes@[walk_rad(m0.hes@, s, t)].face;
    (g.id != NULL_RAW && g != face && m0.face_active(g)) ==> vis[g.id as int] && root[g.id as int] <= seed
}

/// Every active face other than `face` across `a -> b` in `m0` is visited
/// and rooted no later than `seed`.
pub open spec fn pair_ok(m0: &Mesh, a: VertId, b: VertId, face: FaceId, vis: Seq<bool>, root: Seq<int>, seed: int) -> bool {
    forall|g: FaceId| #[trigger] across(m0, a, b, g) && g.id != face.id ==> vis[g.id as int] && root[g.id as int] <= seed
}

/// A walk with no return in its first `t` steps, `t < n`, takes more than
/// `t` steps.
proof fn lemma_rad_steps_gt(h: Seq<HalfEdge>, s: int, n: nat, t: nat)
    requires
        t < n,
        forall|m: nat| 1 <= m <= t ==> walk_rad(h, s, m) != s,
    ensures
        rad_steps(h, s, n) > t,
{
    if exists|q: nat| 1 <= q <= n && walk_rad(h, s, q) == s {
        let q0 = choose|q: nat| 1 <= q <= n && walk_rad(h, s, q) == s;
        lemma_first_return(h, s, n, q0);
        let c = choose|k: nat| 1 <= k <= n && walk_rad(h, s, k) == s && forall|m: nat| 1 <= m < k ==> walk_rad(h, s, m) != s;
        lemma_rad_steps_first(h, s, n, c);
        if c <= t {
            assert(walk_rad(h, s, c) != s);
        }
    }
}

/// The walk's step count once it returned (`ret`) or ran `n` steps.
proof fn lemma_ring_exit(h: Seq<HalfEdge>, s: int, n: nat, steps: nat, ret: bool)
    requires
        n >= 1,
        steps <= n,
        forall|m: nat| 1 <= m < steps ==> walk_rad(h, s, m) != s,
        ret ==> steps >= 1 && walk_rad(h, s, steps) == s,
        !ret ==> steps == n && (steps == 0 || walk_rad(h, s, steps) != s),
    ensures
        rad_steps(h, s, n) == steps,
{
    if ret {
        lemma_rad_steps_first(h, s, n, steps);
    } else {
        assert(!(exists|q: nat| 1 <= q <= n && walk_rad(h, s, q) == s)) by {
            if exists|q: nat| 1 <= q <= n && walk_rad(h, s, q) == s {
                let q = choose|q: nat| 1 <= q <= n && walk_rad(h, s, q) == s;
                if q < steps {
                    assert(walk_rad(h, s, q) != s);
                }
            }
        }
    }
}

/// Once the ring of the first edge joining `a` and `b` is walked to its
/// end, every face across `a -> b` is accounted for.
proof fn lemma_pair_done(
    m0: &Mesh,
    e: int,
    a: VertId,
    b: VertId,
    steps: nat,
    face: FaceId,
    vis: Seq<bool>,
    root: Seq<int>,
    seed: int,
)
    requires
        first_edge(m0, e, a, b),
        rad_steps(m0.hes@, m0.edges@[e].any_he.id as int, m0.nh() as nat) == steps,
        forall|t: nat| t < steps ==> #[trigger] seen_at(m0, m0.edges@[e].any_he.id as int, t, face, vis, root, seed),
    ensures
        pair_ok(m0, a, b, face, vis, root, seed),
{
    let s = m0.edges@[e].any_he.id as int;
    assert forall|g: FaceId| #[trigger] across(m0, a, b, g) && g.id != face.id implies vis[g.id as int] && root[g.id as int] <= seed by {
        let e2 = choose|e2: int| #[trigger] first_edge(m0, e2, a, b) && ring_faces(m0, e2).contains(g);
        lemma_first_edge_unique(m0, e, e2, a, b);
        lemma_faces_met_from(m0, s, steps, g);
        let t = choose|t: nat| t < steps && #[trigger] m0.hes@[walk_rad(m0.hes@, s, t)].face == g && g.id != NULL_RAW && m0.face_active(g);
        assert(seen_at(m0, s, t, face, vis, root, seed));
    }
}

/// When no active edge joins `a` and `b`, nothing lies across them.
proof fn lemma_pair_none(m0: &Mesh, a: VertId, b: VertId, face: FaceId, vis: Seq<bool>, root: Seq<int>, seed: int)
    requires
        forall|j: int| 0 <= j < m0.ne() ==> !edge_joins(#[trigger] m0.edges@[j], a, b),
    ensures
        pair_ok(m0, a, b, face, vis, root, seed),
{
    assert forall|g: FaceId| #[trigger] across(m0, a, b, g) && g.id != face.id implies vis[g.id as int] && root[g.id as int] <= seed by {
        let e = choose|e: int| #[trigger] first_edge(m0, e, a, b) && ring_faces(m0, e).contains(g);
        assert(!edge_joins(m0.edges@[e], a, b));
    }
}

/// A face in hand whose every edge is accounted for reaches only visited
/// faces rooted no later than its own.
proof fn lemma_face_reach(m0: &Mesh, m: &Mesh, face: FaceId, vis: Seq<bool>, root: Seq<int>, seed: int)
    requires
        m0.wf(),
        same_rings(m0, m),
        root[face.id as int] == seed,
        forall|k: int|
            0 <= k < outer_dsts(m, face).len() ==> #[trigger] pair_ok(
                m0,
                outer_dsts(m, face)[k],
                outer_dsts(m, face)[(k + 1) % (outer_dsts(m, face).len() as int)],
                face,
                vis,
                root,
                seed,
            ),
    ensures
        roots_reach(m, root, face.id as int),
        reach_visited(m, vis, face.id as int),
{
    let fj = FaceId { id: face.id as int as u32 };
    assert(fj == face);
    let d = outer_dsts(m, face);
    assert forall|i: int, g: FaceId|
        0 <= i < d.len() && #[trigger] across(m, d[i], d[(i + 1) % (d.len() as int)], g) && g.id as int != face.id as int implies root[g.id
        as int] <= root[face.id as int] && vis[g.id as int] by {
        lemma_across_same(m0, m, d[i], d[(i + 1) % (d.len() as int)], g);
        assert(pair_ok(m0, d[i], d[(i + 1) % (d.len() as int)], face, vis, root, seed));
    }
}

/// Moving on to the next seed with an empty queue.
proof fn lemma_forest_next_seed(
    m: &Mesh,
    vis: Seq<bool>,
    done: Seq<bool>,
    par: Seq<Option<(FaceId, VertId, VertId)>>,
    root: Seq<int>,
    ord: Seq<int>,
    seed: int,
)
    requires
        forest_state(m, vis, Seq::empty(), done, par, root, ord, seed, -1),
    ensures
        forest_state(m, vis, Seq::empty(), done, par, root, ord, seed + 1, -1),
{
}

/// With every active face visited and the queue empty, the forest is an
/// orientation forest.
proof fn lemma_forest_final(
    m: &Mesh,
    vis: Seq<bool>,
    done: Seq<bool>,
    par: Seq<Option<(FaceId, VertId, VertId)>>,
    root: Seq<int>,
    ord: Seq<int>,
    seed: int,
)
    requires
        forest_state(m, vis, Seq::empty(), done, par, root, ord, seed, -1),
        vis == active_flags(m),
    ensures
        orient_forest(m, par, root, ord),
{
    assert forall|j: int| 0 <= j < m.nf() && #[trigger] active_flags(m)[j] implies tree_link(m, par, root, ord, j) && roots_reach(m, root, j) by {
        assert(vis[j]);
        if !done[j] {
            assert(j != -1);
        }
    }
}

/// Same rings is an equivalence.
proof fn lemma_same_rings_trans(a: &Mesh, b: &Mesh, c: &Mesh)
    requires
        same_rings(a, b),
        same_rings(b, c),
    ensures
        same_rings(a, c),
{
    assert forall|f: FaceId| #[trigger] c.face_active(f) == a.face_active(f) by {
        assert(b.face_active(f) == a.face_active(f));
    }
}

/// One visit of the breadth-first orientation: face `nb`, met at step `t`
/// of the ring of the first edge joining `v0` and `v1` (run by the face in
/// hand at position `k` of its boundary `b`), is flipped if it first runs
/// `v0 -> v1` too (`m` is `mp` after that), and joins the forest below the
/// face in hand.
#[verifier::spinoff_prover]
#[verifier::rlimit(60)]
proof fn visit_step(
    m0: &Mesh,
    mp: &Mesh,
    m: &Mesh,
    vis: Seq<bool>,
    q: Seq<FaceId>,
    done: Seq<bool>,
    par: Seq<Option<(FaceId, VertId, VertId)>>,
    root: Seq<int>,
    ord: Seq<int>,
    seed: int,
    face: FaceId,
    nb: FaceId,
    v0: VertId,
    v1: VertId,
    b: Seq<VertId>,
    k: int,
    s: int,
    t: nat,
    e: int,
    needs_flip: bool,
    nbb: Seq<VertId>,
)
    requires
        m0.wf(),
        mp.wf(),
        m.wf(),
        forest_state(mp, vis, q, done, par, root, ord, seed, face.id as int),
        same_rings(m0, mp),
        0 <= face.id < mp.nf(),
        vis[face.id as int],
        root[face.id as int] == seed,
        mp.face_active(face),
        b == outer_dsts(mp, face),
        0 <= k < b.len(),
        v0 == b[k],
        v1 == b[(k + 1) % (b.len() as int)],
        first_edge(m0, e, v0, v1),
        s == m0.edges@[e].any_he.id as int,
        0 <= s < m0.nh(),
        t < m0.nh(),
        forall|q: nat| 1 <= q <= t ==> walk_rad(m0.hes@, s, q) != s,
        nb == m0.hes@[walk_rad(m0.hes@, s, t)].face,
        nb.id != NULL_RAW,
        nb != face,
        mp.face_active(nb),
        !vis[nb.id as int],
        nbb == outer_dsts(mp, nb),
        needs_flip == first_run_same_dir(nbb, v0, v1),
        needs_flip ==> flipped(mp, m, nb),
        !needs_flip ==> *m == *mp,
    ensures
        forest_state(
            m,
            vis.update(nb.id as int, true),
            q.push(nb),
            done,
            par.update(nb.id as int, Some((face, v0, v1))),
            root.update(nb.id as int, seed),
            ord.update(nb.id as int, count_true(vis) as int),
            seed,
            face.id as int,
        ),
        same_rings(m0, m),
        m.face_active(face),
        b == outer_dsts(m, face),
{
    let cur = face.id as int;
    assert(FaceId { id: cur as u32 } == face);
    assert(tidy_face(mp, nb));
    if needs_flip {
        lemma_forest_flip(mp, m, nb, vis, q, done, par, root, ord, seed, cur);
        lemma_same_rings_trans(m0, mp, m);
        assert(m.face_active(face) == mp.face_active(face));
        assert(outer_dsts(m, face) == outer_dsts(mp, face));
        assert(outer_dsts(m, nb) == nbb.reverse());
        assert(nbb.len() == loop_len(mp.hes@, mp.face(nb).outer.id as int));
        lemma_rev_not_same_dir(nbb, v0, v1);
    }
    assert(forest_state(m, vis, q, done, par, root, ord, seed, cur));
    assert(runs(b, k, v0, v1));
    assert(runs_edge(m, face, v0, v1));
    lemma_rad_steps_gt(m0.hes@, s, m0.nh() as nat, t);
    assert(m0.face_active(nb) == mp.face_active(nb));
    lemma_faces_met_has(m0, s, rad_steps(m0.hes@, s, m0.nh() as nat), t);
    assert(ring_faces(m0, e).contains(nb));
    assert(across(m0, v0, v1, nb));
    lemma_across_same(m0, m, v0, v1, nb);
    assert(m.face_active(nb) == mp.face_active(nb));
    assert(!first_run_same_dir(outer_dsts(m, nb), v0, v1));
    lemma_forest_visit(m, vis, q, done, par, root, ord, seed, cur, nb, v0, v1);
}

/// The walk and pair facts of the face in hand survive visiting `nb`, the
/// face met at step `t`, and cover step `t` itself.
proof fn lemma_grow_facts(
    m0: &Mesh,
    b: Seq<VertId>,
    n: int,
    kmax: int,
    s: int,
    t: nat,
    face: FaceId,
    vis: Seq<bool>,
    root: Seq<int>,
    seed: int,
    nb: FaceId,
)
    requires
        forall|t2: nat| t2 < t ==> #[trigger] seen_at(m0, s, t2, face, vis, root, seed),
        forall|k: int| 0 <= k < kmax ==> #[trigger] pair_ok(m0, b[k], b[(k + 1) % n], face, vis, root, seed),
        nb == m0.hes@[walk_rad(m0.hes@, s, t)].face,
        0 <= nb.id < m0.nf(),
        vis.len() == m0.nf(),
        root.len() == m0.nf(),
    ensures
        forall|t2: nat| t2 < t + 1 ==> #[trigger] seen_at(m0, s, t2, face, vis.update(nb.id as int, true), root.update(nb.id as int, seed), seed),
        forall|k: int| 0 <= k < kmax ==> #[trigger] pair_ok(m0, b[k], b[(k + 1) % n], face, vis.update(nb.id as int, true), root.update(nb.id as int, seed), seed),
{
    let vis2 = vis.update(nb.id as int, true);
    let root2 = root.update(nb.id as int, seed);
    assert forall|t2: nat| t2 < t + 1 implies #[trigger] seen_at(m0, s, t2, face, vis2, root2, seed) by {
        if t2 < t {
            assert(seen_at(m0, s, t2, face, vis, root, seed));
        }
        let g = m0.hes@[walk_rad(m0.hes@, s, t2)].face;
        if g.id != NULL_RAW && g != face && m0.face_active(g) {
            assert(0 <= g.id < m0.nf());
            if g.id == nb.id {
                assert(g == nb);
            } else {
                assert(vis2[g.id as int] == vis[g.id as int]);
                assert(root2[g.id as int] == root[g.id as int]);
            }
        }
    }
    assert forall|k: int| 0 <= k < kmax implies #[trigger] pair_ok(m0, b[k], b[(k + 1) % n], face, vis2, root2, seed) by {
        assert(pair_ok(m0, b[k], b[(k + 1) % n], face, vis, root, seed));
        assert forall|g: FaceId| #[trigger] across(m0, b[k], b[(k + 1) % n], g) && g.id != face.id implies vis2[g.id as int] && root2[g.id
            as int] <= seed by {
            lemma_across_active(m0, b[k], b[(k + 1) % n], g);
            if g.id != nb.id {
                assert(vis2[g.id as int] == vis[g.id as int]);
                assert(root2[g.id as int] == root[g.id as int]);
            }
        }
    }
}

/// Adding a face whose loop visits distinct vertices keeps a mesh tidy:
/// the old loops are untouched (only radial links of old half-edges may
/// change) and the new loop is consistent and owned by the new face.
#[verifier::spinoff_prover]
#[verifier::rlimit(40)]
pub proof fn lemma_add_face_tidy(m0: &Mesh, m1: &Mesh, f: FaceId, vs: Seq<VertId>)
    requires
        m0.wf(),
        m1.wf(),
        tidy_mesh(m0),
        vs.no_duplicates(),
        vs.len() >= 3,
        f.id as int == m0.nf(),
        m1.nf() == m0.nf() + 1,
        m1.faces@.subrange(0, m0.nf()) == m0.faces@,
        m1.face_active(f),
        m1.face(f).outer.id as int == m0.nh(),
        m1.face(f).inners@.len() == 0,
        m1.nh() == m0.nh() + vs.len(),
        forall|j: int| 0 <= j < m0.nh() ==> crate::mesh::same_but_rad(#[trigger] m1.hes@[j], m0.hes@[j]),
        forall|k: int| 0 <= k < vs.len() ==> crate::mesh::he_built(#[trigger] m1.hes@[m0.nh() + k], m0.nh() as int, vs.len() as int, k, vs, f.id as int),
        is_loop_of(m1.hes@, m0.nh() as int, crate::mesh::range_ids(m0.nh() as int, vs.len() as int)),
        dsts_of(m1.hes@, crate::mesh::range_ids(m0.nh() as int, vs.len() as int)) == vs,
        loop_consistent(m1.hes@, loop_seq(m1.hes@, m0.nh() as int)),
    ensures
        tidy_mesh(m1),
{
    let base = m0.nh() as int;
    let n = vs.len() as int;
    let v = crate::mesh::range_ids(base, n);
    lemma_loop_of_is_loop_seq(m1.hes@, base, v);
    assert(tidy_face(m1, f)) by {
        assert forall|k: int| 0 <= k < v.len() implies m1.hes@[(#[trigger] v[k]).id as int].face == f by {
            assert(v[k].id as int == base + k);
            assert(crate::mesh::he_built(m1.hes@[base + k], base, n, k, vs, f.id as int));
        }
    }
    assert forall|g: FaceId| #[trigger] m1.face_active(g) implies tidy_face(m1, g) by {
        if g != f {
            assert(m1.faces@.subrange(0, m0.nf())[g.id as int] == m0.faces@[g.id as int]);
            assert(m0.face_active(g));
            assert(tidy_face(m0, g));
            let t = m0.face(g).outer.id as int;
            let u = loop_seq(m0.hes@, t);
            assert(is_loop_of(m0.hes@, t, u)) by {
                let k = loop_len(m0.hes@, t);
                assert(k <= m0.hes@.len() && closes_at(m0.hes@, t, k));
            }
            assert forall|i: int| 0 <= i < u.len() implies (#[trigger] u[i]).id < m0.hes@.len() by {
                lemma_walk_in_range(m0, t, i as nat);
            }
            crate::ring::lemma_loop_kept(m0.hes@, m1.hes@, t, u);
            lemma_loop_of_is_loop_seq(m1.hes@, t, u);
            assert forall|k: int| 0 <= k < u.len() implies #[trigger] m1.hes@[u[k].id as int].prev == u[cyc_prev(k, u.len() as int)] by {
                assert(crate::mesh::same_but_rad(m1.hes@[u[k].id as int], m0.hes@[u[k].id as int]));
            }
            assert forall|k: int| 0 <= k < u.len() implies m1.hes@[(#[trigger] u[k]).id as int].face == g by {
                assert(crate::mesh::same_but_rad(m1.hes@[u[k].id as int], m0.hes@[u[k].id as int]));
            }
        }
    }
}
} // verus!
