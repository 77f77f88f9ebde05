//! Free edges: edges that no active face uses.
use vstd::prelude::*;

use crate::ids::{EdgeId, FaceId, HeId, VertId, NULL_RAW};
use crate::mesh::{edge_joins, edge_refs_ok, face_refs_ok, faces_met, he_refs_ok, loop_ref_ok, rad_steps, Edge, HalfEdge, Mesh, MeshError};

verus! {

/// The vertex id is in range and the vertex is active.
pub open spec fn vert_usable(m: &Mesh, v: VertId) -> bool {
    (v.id as int) < m.nv() && m.verts@[v.id as int].active
}

/// No active face owns a half-edge of edge `e`.
pub open spec fn edge_free(m: &Mesh, e: int) -> bool {
    let s = m.edges@[e].any_he.id as int;
    faces_met(m, s, rad_steps(m.hes@, s, m.nh() as nat)).len() == 0
}

/// The edge-less pair of half-edges of a new free edge `e` between `a` and
/// `b`, numbered `h` (towards `b`) and `h + 1` (towards `a`).
pub open spec fn free_pair(h: int, e: int, a: VertId, b: VertId) -> (HalfEdge, HalfEdge) {
    let h1 = HeId { id: h as u32 };
    let h2 = HeId { id: (h + 1) as u32 };
    let none = FaceId { id: NULL_RAW };
    (
        HalfEdge { next: h2, prev: h2, dst: b, edge: EdgeId { id: e as u32 }, face: none, next_rad: h2 },
        HalfEdge { next: h1, prev: h1, dst: a, edge: EdgeId { id: e as u32 }, face: none, next_rad: h1 },
    )
}

impl Mesh {
    /// Whether no active face uses edge `e`.
    pub fn is_edge_completely_free(&self, e: EdgeId) -> (r: bool)
        requires
            self.wf(),
            (e.id as int) < self.ne(),
        ensures
            r == edge_free(self, e.id as int),
    {
        self.get_faces_sharing_edge(e).len() == 0
    }

    /// The edge joining `a` and `b`: the first existing active one, or a new
    /// free edge with a pair of face-less half-edges (each the other's
    /// `next`, `prev` and radial successor). Fails with `BadVertex` when a
    /// vertex is unusable or `a == b`, and with `Capacity` when the arenas are
    /// full; the mesh is then unchanged.
    pub fn add_edge(&mut self, a: VertId, b: VertId) -> (res: Result<EdgeId, MeshError>)
        requires
            old(self).wf(),
        ensures
            final(self).wf(),
            final(self).verts@ == old(self).verts@,
            final(self).faces@ == old(self).faces@,
            final(self).sphere_path_b == old(self).sphere_path_b,
            final(self).cylinder_path_b == old(self).cylinder_path_b,
            final(self).cone_path_b == old(self).cone_path_b,
            res == Err::<EdgeId, MeshError>(MeshError::BadVertex) <==> !vert_usable(old(self), a) || !vert_usable(
                old(self),
                b,
            ) || a == b,
            res is Err ==> final(self).hes@ == old(self).hes@ && final(self).edges@ == old(self).edges@,
            res is Err ==> res == Err::<EdgeId, MeshError>(MeshError::BadVertex) || res == Err::<EdgeId, MeshError>(
                MeshError::Capacity,
            ),
            res == Err::<EdgeId, MeshError>(MeshError::Capacity) <==> vert_usable(old(self), a) && vert_usable(old(self), b)
                && a != b && !(exists|j: int| 0 <= j < old(self).ne() && edge_joins(#[trigger] old(self).edges@[j], a, b))
                && (old(self).nh() + 2 >= NULL_RAW || old(self).ne() + 1 >= NULL_RAW),
            match res {
                Ok(e) => {
                    &&& (e.id as int) < final(self).ne()
                    &&& edge_joins(final(self).edges@[e.id as int], a, b)
                    &&& (exists|j: int| 0 <= j < old(self).ne() && edge_joins(#[trigger] old(self).edges@[j], a, b)) ==> {
                        &&& final(self).hes@ == old(self).hes@
                        &&& final(self).edges@ == old(self).edges@
                        &&& forall|j: int| 0 <= j < e.id ==> !edge_joins(#[trigger] old(self).edges@[j], a, b)
                    }
                    &&& !(exists|j: int| 0 <= j < old(self).ne() && edge_joins(#[trigger] old(self).edges@[j], a, b)) ==> {
                        let (h1, h2) = free_pair(old(self).nh(), old(self).ne(), a, b);
                        &&& e.id as int == old(self).ne()
                        &&& final(self).hes@ == old(self).hes@.push(h1).push(h2)
                        &&& final(self).edges@ == old(self).edges@.push(
                            Edge {
                                v_small: if a.id <= b.id { a } else { b },
                                v_large: if a.id <= b.id { b } else { a },
                                any_he: HeId { id: old(self).nh() as u32 },
                                active: true,
                            },
                        )
                    }
                },
                Err(_) => true,
            },
    {
        if a.id as usize >= self.verts.len() || !self.verts[a.id as usize].active || b.id as usize >= self.verts.len()
            || !self.verts[b.id as usize].active || a == b {
            return Err(MeshError::BadVertex);
        }
        match self.find_edge(a, b) {
            Some(e) => {
                return Ok(e);
            },
            None => {},
        }
        if self.hes.len() >= 0xFFFF_FFFDusize || self.edges.len() >= 0xFFFF_FFFEusize {
            return Err(MeshError::Capacity);
        }
        let ghost m0 = *self;
        let h = self.hes.len();
        let e = self.edges.len();
        let h1 = HeId { id: h as u32 };
        let h2 = HeId { id: (h + 1) as u32 };
        let none = FaceId { id: NULL_RAW };
        let eid = EdgeId { id: e as u32 };
        self.hes.push(HalfEdge { next: h2, prev: h2, dst: b, edge: eid, face: none, next_rad: h2 });
        self.hes.push(HalfEdge { next: h1, prev: h1, dst: a, edge: eid, face: none, next_rad: h1 });
        let (lo, hi) = if a.id <= b.id { (a, b) } else { (b, a) };
        self.edges.push(Edge { v_small: lo, v_large: hi, any_he: h1, active: true });
        proof {
            assert forall|j: int| 0 <= j < self.nh() implies #[trigger] he_refs_ok(self.hes@[j], self.nv(), self.nh(), self.ne(), self.nf()) by {
                if j < m0.nh() {
                    assert(he_refs_ok(m0.hes@[j], m0.nv(), m0.nh(), m0.ne(), m0.nf()));
                }
            }
            assert forall|j: int| 0 <= j < self.ne() implies #[trigger] edge_refs_ok(self.edges@[j], self.nv(), self.nh()) by {
                if j < m0.ne() {
                    assert(edge_refs_ok(m0.edges@[j], m0.nv(), m0.nh()));
                }
            }
            assert forall|j: int| 0 <= j < self.nf() && (#[trigger] self.faces@[j]).is_some() implies face_refs_ok(self.faces@[j].unwrap(), self.nh()) by {
                assert(face_refs_ok(m0.faces@[j].unwrap(), m0.nh()));
                let fc = self.faces@[j].unwrap();
                assert forall|q: int| 0 <= q < fc.inners@.len() implies #[trigger] loop_ref_ok(fc.inners@[q], self.nh()) by {
                    assert(loop_ref_ok(fc.inners@[q], m0.nh()));
                }
            }
            assert(self.hes@ =~= m0.hes@.push(free_pair(m0.nh(), m0.ne(), a, b).0).push(free_pair(m0.nh(), m0.ne(), a, b).1));
        }
        Ok(eid)
    }
}


/// Edge `e` has `v` as an end.
pub open spec fn incident(m: &Mesh, e: int, v: VertId) -> bool {
    m.edges@[e].v_small == v || m.edges@[e].v_large == v
}

/// The wire extends from edge `e1` to edge `e2`: `e1` is active, and `e2`
/// is an active free edge sharing an end with it.
pub open spec fn wire_step(m: &Mesh, e1: int, e2: int) -> bool {
    &&& 0 <= e1 < m.ne()
    &&& 0 <= e2 < m.ne()
    &&& m.edges@[e1].active
    &&& m.edges@[e2].active
    &&& edge_free(m, e2)
    &&& (incident(m, e2, m.edges@[e1].v_small) || incident(m, e2, m.edges@[e1].v_large))
}

/// `c` is a chain of wire steps from `start`.
pub open spec fn wire_chain(m: &Mesh, start: int, c: Seq<int>) -> bool {
    &&& c.len() >= 1
    &&& c[0] == start
    &&& forall|i: int| 0 <= i < c.len() - 1 ==> #[trigger] wire_step(m, c[i], c[i + 1])
}

/// Edge `e` is reached from `start` by wire steps.
pub open spec fn wire_reach(m: &Mesh, start: int, e: int) -> bool {
    exists|c: Seq<int>| #[trigger] wire_chain(m, start, c) && c.last() == e
}

/// `v` is an end of an active edge reached from `start`.
pub open spec fn wire_vertex(m: &Mesh, start: int, v: VertId) -> bool {
    exists|e: int| #[trigger] wire_reach(m, start, e) && 0 <= e < m.ne() && m.edges@[e].active && incident(m, e, v)
}

/// A reached edge followed by a step is reached.
proof fn lemma_reach_step(m: &Mesh, start: int, e1: int, e2: int)
    requires
        wire_reach(m, start, e1),
        wire_step(m, e1, e2),
    ensures
        wire_reach(m, start, e2),
{
    let c = choose|c: Seq<int>| #[trigger] wire_chain(m, start, c) && c.last() == e1;
    let c2 = c.push(e2);
    assert forall|i: int| 0 <= i < c2.len() - 1 implies #[trigger] wire_step(m, c2[i], c2[i + 1]) by {
        if i < c.len() - 1 {
            assert(c2[i] == c[i] && c2[i + 1] == c[i + 1]);
        } else {
            assert(c2[i] == e1 && c2[i + 1] == e2);
        }
    }
    assert(wire_chain(m, start, c2));
}

/// A set of edges that holds `start` and every step from its members holds
/// every reached edge.
proof fn lemma_closed_holds_reached(m: &Mesh, start: int, vis: Seq<bool>, c: Seq<int>)
    requires
        vis.len() == m.ne(),
        0 <= start < m.ne(),
        vis[start],
        forall|e1: int, e2: int| 0 <= e1 < m.ne() && vis[e1] && #[trigger] wire_step(m, e1, e2) ==> vis[e2],
        wire_chain(m, start, c),
    ensures
        0 <= c.last() < m.ne(),
        vis[c.last()],
    decreases c.len(),
{
    if c.len() > 1 {
        let c0 = c.drop_last();
        assert forall|i: int| 0 <= i < c0.len() - 1 implies #[trigger] wire_step(m, c0[i], c0[i + 1]) by {
            assert(wire_step(m, c[i], c[i + 1]));
        }
        lemma_closed_holds_reached(m, start, vis, c0);
        let i = c.len() - 2;
        assert(wire_step(m, c[i], c[i + 1]));
        assert(c0.last() == c[i]);
    }
}

impl Mesh {
    /// The ends of the active edges of the free wire through `start`:
    /// starting from `start`, each active edge reached adds its ends, and
    /// from each end newly met every active free edge there is reached in
    /// turn. Each vertex is listed once.
    #[verifier::rlimit(40)]
    pub fn free_wire_vertices(&self, start: EdgeId) -> (r: Vec<VertId>)
        requires
            self.wf(),
            (start.id as int) < self.ne(),
        ensures
            r@.no_duplicates(),
            forall|v: VertId| r@.contains(v) <==> wire_vertex(self, start.id as int, v),
    {
        let ne = self.edges.len();
        let nv = self.verts.len();
        let s = start.id as usize;
        let mut vis: Vec<bool> = Vec::new();
        let mut i: usize = 0;
        while i < ne
            invariant
                0 <= i <= ne,
                vis@ == Seq::new(i as nat, |t: int| false),
            decreases ne - i,
        {
            vis.push(false);
            i = i + 1;
            assert(vis@ =~= Seq::new(i as nat, |t: int| false));
        }
        let mut seen: Vec<bool> = Vec::new();
        let mut i: usize = 0;
        while i < nv
            invariant
                0 <= i <= nv,
                seen@ == Seq::new(i as nat, |t: int| false),
            decreases nv - i,
        {
            seen.push(false);
            i = i + 1;
            assert(seen@ =~= Seq::new(i as nat, |t: int| false));
        }
        let mut order: Vec<usize> = Vec::new();
        let mut out: Vec<VertId> = Vec::new();
        vis.set(s, true);
        order.push(s);
        proof {
            let c = seq![s as int];
            assert(wire_chain(self, s as int, c));
        }
        proof {
            assert forall|x: int| 0 <= x < ne && #[trigger] vis@[x] implies exists|k: int| 0 <= k < order@.len() && order@[k] == x by {
                assert(x == s as int);
                assert(order@[0] == s);
            }
        }
        let mut head: usize = 0;
        while head < order.len()
            invariant
                self.wf(),
                ne == self.ne(),
                nv == self.nv(),
                s == start.id as usize,
                s < ne,
                vis@.len() == ne,
                seen@.len() == nv,
                vis@[s as int],
                0 <= head <= order@.len(),
                forall|k: int| 0 <= k < order@.len() ==> (#[trigger] order@[k]) < ne && vis@[order@[k] as int],
                forall|e: int| 0 <= e < ne && #[trigger] vis@[e] ==> exists|k: int| 0 <= k < order@.len() && order@[k] == e,
                forall|k1: int, k2: int| 0 <= k1 < k2 < order@.len() ==> #[trigger] order@[k1] != #[trigger] order@[k2],
                forall|e: int| 0 <= e < ne && vis@[e] ==> #[trigger] wire_reach(self, s as int, e),
                // processed edges have their ends seen
                forall|k: int| 0 <= k < head && self.edges@[#[trigger] order@[k] as int].active ==> seen@[
                    self.edges@[order@[k] as int].v_small.id as int] && seen@[self.edges@[order@[k] as int].v_large.id as int],
                // the free edges at seen vertices are visited
                forall|v: VertId, e: int| (v.id as int) < nv && seen@[v.id as int] && 0 <= e < ne && self.edges@[e].active
                    && edge_free(self, e) && #[trigger] incident(self, e, v) ==> vis@[e],
                // seen vertices are ends of visited active edges, listed once
                forall|v: VertId| (v.id as int) < nv && #[trigger] seen@[v.id as int] ==> exists|e: int|
                    0 <= e < ne && vis@[e] && self.edges@[e].active && incident(self, e, v),
                out@.no_duplicates(),
                forall|x: VertId| out@.contains(x) <==> ((x.id as int) < nv && seen@[x.id as int]),
            decreases ne - head,
        {
            assert(order@.len() <= ne) by {
                lemma_distinct_indices_bounded(order@, ne);
            }
            let e = order[head];
            let ed = self.edges[e];
            assert(edge_refs_ok(ed, self.nv(), self.nh()));
            if ed.active {
                let ends = [ed.v_small, ed.v_large];
                let mut t: usize = 0;
                while t < 2
                    invariant
                        self.wf(),
                        ne == self.ne(),
                        nv == self.nv(),
                        s < ne,
                        vis@.len() == ne,
                        seen@.len() == nv,
                        vis@[s as int],
                        0 <= head < order@.len(),
                        e == order@[head as int],
                        ed == self.edges@[e as int],
                        ed.active,
                        (ed.v_small.id as int) < nv,
                        (ed.v_large.id as int) < nv,
                        ends@ == seq![ed.v_small, ed.v_large],
                        0 <= t <= 2,
                        t >= 1 ==> seen@[ed.v_small.id as int],
                        t >= 2 ==> seen@[ed.v_large.id as int],
                        forall|k: int| 0 <= k < order@.len() ==> (#[trigger] order@[k]) < ne && vis@[order@[k] as int],
                        forall|x: int| 0 <= x < ne && #[trigger] vis@[x] ==> exists|k: int| 0 <= k < order@.len() && order@[k] == x,
                        forall|k1: int, k2: int| 0 <= k1 < k2 < order@.len() ==> #[trigger] order@[k1] != #[trigger] order@[k2],
                        forall|x: int| 0 <= x < ne && vis@[x] ==> #[trigger] wire_reach(self, s as int, x),
                        forall|k: int| 0 <= k < head && self.edges@[#[trigger] order@[k] as int].active ==> seen@[
                            self.edges@[order@[k] as int].v_small.id as int] && seen@[self.edges@[order@[k] as int].v_large.id as int],
                        forall|w: VertId, x: int| (w.id as int) < nv && seen@[w.id as int] && 0 <= x < ne && self.edges@[x].active
                            && edge_free(self, x) && #[trigger] incident(self, x, w) ==> vis@[x],
                        forall|w: VertId| (w.id as int) < nv && #[trigger] seen@[w.id as int] ==> exists|x: int|
                            0 <= x < ne && vis@[x] && self.edges@[x].active && incident(self, x, w),
                        out@.no_duplicates(),
                        forall|x: VertId| out@.contains(x) <==> ((x.id as int) < nv && seen@[x.id as int]),
                    decreases 2 - t,
                {
                    let v = ends[t];
                    if !seen[v.id as usize] {
                        let ghost pre_out = out@;
                        let ghost pre_seen = seen@;
                        proof {
                            assert(!pre_out.contains(v));
                        }
                        seen.set(v.id as usize, true);
                        out.push(v);
                        proof {
                            assert(incident(self, e as int, v));
                            assert forall|k: int| 0 <= k < head && self.edges@[#[trigger] order@[k] as int].active implies seen@[
                                self.edges@[order@[k] as int].v_small.id as int] && seen@[self.edges@[order@[k] as int].v_large.id as int] by {
                                assert(edge_refs_ok(self.edges@[order@[k] as int], self.nv(), self.nh()));
                                assert(pre_seen[self.edges@[order@[k] as int].v_small.id as int]);
                                assert(pre_seen[self.edges@[order@[k] as int].v_large.id as int]);
                            }
                            assert forall|w: VertId| (w.id as int) < nv && #[trigger] seen@[w.id as int] implies exists|y: int|
                                0 <= y < ne && vis@[y] && self.edges@[y].active && incident(self, y, w) by {
                                if w == v {
                                    assert(vis@[e as int]);
                                } else {
                                    assert(w.id != v.id);
                                    assert(pre_seen[w.id as int]);
                                }
                            }
                            assert forall|x: VertId| out@.contains(x) <==> ((x.id as int) < nv && seen@[x.id as int]) by {
                                if out@.contains(x) {
                                    let k = choose|k: int| 0 <= k < out@.len() && out@[k] == x;
                                    if k < pre_out.len() {
                                        assert(pre_out.contains(x));
                                    }
                                }
                                if (x.id as int) < nv && seen@[x.id as int] {
                                    if x == v {
                                        assert(out@[out@.len() - 1] == x);
                                    } else {
                                        assert(x.id != v.id);
                                        assert(pre_out.contains(x));
                                        let k = choose|k: int| 0 <= k < pre_out.len() && pre_out[k] == x;
                                        assert(out@[k] == x);
                                    }
                                }
                            }
                        }
                        // every active free edge at v
                        let mut x: usize = 0;
                        while x < ne
                            invariant
                                self.wf(),
                                ne == self.ne(),
                                nv == self.nv(),
                                s < ne,
                                vis@.len() == ne,
                                seen@.len() == nv,
                                vis@[s as int],
                                (v.id as int) < nv,
                                seen@[v.id as int],
                                0 <= head < order@.len(),
                                e == order@[head as int],
                                self.edges@[e as int].active,
                                incident(self, e as int, v),
                                0 <= x <= ne,
                                forall|k: int| 0 <= k < order@.len() ==> (#[trigger] order@[k]) < ne && vis@[order@[k] as int],
                                forall|y: int| 0 <= y < ne && #[trigger] vis@[y] ==> exists|k: int| 0 <= k < order@.len() && order@[k] == y,
                                forall|k1: int, k2: int| 0 <= k1 < k2 < order@.len() ==> #[trigger] order@[k1] != #[trigger] order@[k2],
                                forall|y: int| 0 <= y < ne && vis@[y] ==> #[trigger] wire_reach(self, s as int, y),
                                forall|k: int| 0 <= k < head && self.edges@[#[trigger] order@[k] as int].active ==> seen@[
                                    self.edges@[order@[k] as int].v_small.id as int] && seen@[self.edges@[order@[k] as int].v_large.id as int],
                                forall|w: VertId, y: int| (w.id as int) < nv && seen@[w.id as int] && w != v && 0 <= y < ne && self.edges@[y].active
                                    && edge_free(self, y) && #[trigger] incident(self, y, w) ==> vis@[y],
                                forall|y: int| 0 <= y < x && self.edges@[y].active && edge_free(self, y) && #[trigger] incident(self, y, v) ==> vis@[y],
                                forall|w: VertId| (w.id as int) < nv && #[trigger] seen@[w.id as int] ==> exists|y: int|
                                    0 <= y < ne && vis@[y] && self.edges@[y].active && incident(self, y, w),
                            decreases ne - x,
                        {
                            let ex = self.edges[x];
                            if !vis[x] && ex.active && (ex.v_small == v || ex.v_large == v)
                                && self.is_edge_completely_free(EdgeId { id: x as u32 }) {
                                proof {
                                    assert(wire_step(self, e as int, x as int));
                                    lemma_reach_step(self, s as int, e as int, x as int);
                                }
                                let ghost pre_order = order@;
                                let ghost pre_vis = vis@;
                                vis.set(x, true);
                                order.push(x);
                                proof {
                                    assert forall|w: VertId| (w.id as int) < nv && #[trigger] seen@[w.id as int] implies exists|y: int|
                                        0 <= y < ne && vis@[y] && self.edges@[y].active && incident(self, y, w) by {
                                        let y = choose|y: int| 0 <= y < ne && pre_vis[y] && self.edges@[y].active && incident(self, y, w);
                                        assert(vis@[y]);
                                    }
                                    assert forall|y: int| 0 <= y < ne && #[trigger] vis@[y] implies exists|k: int| 0 <= k < order@.len() && order@[k] == y by {
                                        if y == x {
                                            assert(order@[order@.len() - 1] == y);
                                        } else {
                                            let k = choose|k: int| 0 <= k < pre_order.len() && pre_order[k] == y;
                                            assert(order@[k] == y);
                                        }
                                    }
                                    assert forall|k1: int, k2: int| 0 <= k1 < k2 < order@.len() implies #[trigger] order@[k1] != #[trigger] order@[k2] by {
                                        if k2 == order@.len() - 1 {
                                            assert(vis@[order@[k1] as int]);
                                            assert(pre_order[k1] != x) by {
                                                assert(pre_order[k1] < ne);
                                            }
                                        }
                                    }
                                }
                            }
                            x = x + 1;
                        }
                        proof {
                            assert forall|w: VertId, y: int| (w.id as int) < nv && seen@[w.id as int] && 0 <= y < ne && self.edges@[y].active
                                && edge_free(self, y) && #[trigger] incident(self, y, w) implies vis@[y] by {
                            }
                        }
                    }
                    t = t + 1;
                }
            }
            head = head + 1;
        }
        proof {
            // the visited edges are closed under wire steps
            assert forall|e1: int, e2: int| 0 <= e1 < ne && vis@[e1] && #[trigger] wire_step(self, e1, e2) implies vis@[e2] by {
                let k = choose|k: int| 0 <= k < order@.len() && order@[k] == e1;
                assert(self.edges@[order@[k] as int].active);
                let ed1 = self.edges@[e1];
                assert(edge_refs_ok(ed1, self.nv(), self.nh()));
                if incident(self, e2, ed1.v_small) {
                    assert(seen@[ed1.v_small.id as int]);
                } else {
                    assert(seen@[ed1.v_large.id as int]);
                }
            }
            assert forall|x: VertId| out@.contains(x) <==> wire_vertex(self, s as int, x) by {
                if out@.contains(x) {
                    let y = choose|y: int| 0 <= y < ne && vis@[y] && self.edges@[y].active && incident(self, y, x);
                    assert(wire_reach(self, s as int, y));
                }
                if wire_vertex(self, s as int, x) {
                    let y = choose|y: int| #[trigger] wire_reach(self, s as int, y) && 0 <= y < self.ne() && self.edges@[y].active && incident(self, y, x);
                    let c = choose|c: Seq<int>| #[trigger] wire_chain(self, s as int, c) && c.last() == y;
                    lemma_closed_holds_reached(self, s as int, vis@, c);
                    let k = choose|k: int| 0 <= k < order@.len() && order@[k] == y;
                    assert(self.edges@[order@[k] as int].active);
                    let ey = self.edges@[y];
                    assert(edge_refs_ok(ey, self.nv(), self.nh()));
                }
            }
        }
        out
    }
}

/// Distinct indices below `n` number at most `n`.
proof fn lemma_distinct_indices_bounded(g: Seq<usize>, n: usize)
    requires
        forall|k: int| 0 <= k < g.len() ==> (#[trigger] g[k]) < n,
        forall|k1: int, k2: int| 0 <= k1 < k2 < g.len() ==> #[trigger] g[k1] != #[trigger] g[k2],
    ensures
        g.len() <= n,
{
    let gi = g.map_values(|x: usize| x as int);
    assert(gi.no_duplicates()) by {
        assert forall|i: int, j: int| 0 <= i < gi.len() && 0 <= j < gi.len() && i != j implies gi[i] != gi[j] by {
            if i < j {
                assert(g[i] != g[j]);
            } else {
                assert(g[j] != g[i]);
            }
        }
    }
    gi.unique_seq_to_set();
    vstd::set_lib::lemma_int_range(0, n as int);
    assert(gi.to_set().subset_of(vstd::set_lib::set_int_range(0, n as int)));
    vstd::set_lib::lemma_len_subset(gi.to_set(), vstd::set_lib::set_int_range(0, n as int));
}

} // verus!
