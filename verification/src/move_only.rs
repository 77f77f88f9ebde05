//! The topology of a MoveOnly Push/Pull: which vertices move, writing their
//! new positions, and which faces lie across the face's boundary edges (the
//! walls that slant when the face is drafted).
//!
//! The new positions themselves are geometry; the caller computes them.
use vstd::prelude::*;

use crate::extrude::loop_vertices;
use crate::ids::{FaceId, HeId, VertId, NULL_RAW};
use crate::mesh::{edge_refs_ok, has_loop, he_refs_ok, loop_seq, Mesh, MeshError, Vec3Bits, Vertex};
use crate::planar_walk::contains_vert;
use crate::push_pull::lemma_contains_push;

verus! {

/// `v` lies on hole loop `s`: non-null, closing, passing through `v`.
pub open spec fn on_loop(m: &Mesh, s: HeId, v: VertId) -> bool {
    s.id != NULL_RAW && has_loop(m.hes@, s.id as int) && loop_vertices(m, s).contains(v)
}

/// `v` lies on one of the hole loops of face `f`.
pub open spec fn on_hole(m: &Mesh, f: FaceId, v: VertId) -> bool {
    exists|k: int| 0 <= k < m.face(f).inners@.len() && #[trigger] on_loop(m, m.face(f).inners@[k], v)
}

/// `v` lies on one of the first `k` hole loops of face `f`.
pub open spec fn on_hole_upto(m: &Mesh, f: FaceId, k: int, v: VertId) -> bool {
    exists|q: int| 0 <= q < k && #[trigger] on_loop(m, m.face(f).inners@[q], v)
}

/// `r` followed by the entries of `vs` it does not hold yet.
pub(crate) fn append_new(r: Vec<VertId>, vs: &Vec<VertId>) -> (out: Vec<VertId>)
    requires
        r@.no_duplicates(),
    ensures
        out@.no_duplicates(),
        forall|w: VertId| out@.contains(w) <==> (r@.contains(w) || vs@.contains(w)),
{
    let mut out = r;
    let mut i: usize = 0;
    while i < vs.len()
        invariant
            0 <= i <= vs@.len(),
            out@.no_duplicates(),
            forall|w: VertId| out@.contains(w) <==> (r@.contains(w) || vs@.subrange(0, i as int).contains(w)),
        decreases vs@.len() - i,
    {
        let v = vs[i];
        let ghost pre = out@;
        if !contains_vert(&out, v) {
            out.push(v);
        }
        proof {
            assert(vs@.subrange(0, i as int + 1) =~= vs@.subrange(0, i as int).push(v));
            assert forall|w: VertId| out@.contains(w) <==> (r@.contains(w) || vs@.subrange(0, i as int + 1).contains(w)) by {
                lemma_contains_push(vs@.subrange(0, i as int), v, w);
                if out@ != pre {
                    lemma_contains_push(pre, v, w);
                }
            }
        }
        i = i + 1;
    }
    assert(vs@.subrange(0, vs@.len() as int) =~= vs@);
    out
}

impl Mesh {
    /// The vertices a MoveOnly push of face `face_id` moves: those of its
    /// outer loop and of each non-null hole loop that closes, each listed
    /// once. Fails as `collect_loop_verts` does when the outer loop does
    /// not close.
    pub fn move_only_vertices(&self, face_id: FaceId) -> (res: Result<Vec<VertId>, MeshError>)
        requires
            self.wf(),
            self.has_face(face_id),
        ensures
            match res {
                Ok(vs) => {
                    &&& has_loop(self.hes@, self.face(face_id).outer.id as int)
                    &&& vs@.no_duplicates()
                    &&& forall|v: VertId| vs@.contains(v) <==> (loop_vertices(self, self.face(face_id).outer).contains(v)
                        || on_hole(self, face_id, v))
                },
                Err(e) => !has_loop(self.hes@, self.face(face_id).outer.id as int) && e == (if self.face(face_id).outer.id
                    >= self.nh() {
                    MeshError::HalfEdgeNotFound
                } else {
                    MeshError::BrokenLoop
                }),
            },
    {
        let idx = face_id.id as usize;
        let (outer, n_inners) = match &self.faces[idx] {
            Some(fc) => (fc.outer, fc.inners.len()),
            None => (HeId { id: NULL_RAW }, 0),
        };
        let boundary = self.collect_loop_verts(outer)?;
        let mut r: Vec<VertId> = append_new(Vec::new(), &boundary);
        let mut k: usize = 0;
        while k < n_inners
            invariant
                self.wf(),
                self.has_face(face_id),
                idx == face_id.id as usize,
                n_inners == self.face(face_id).inners@.len(),
                boundary@ == loop_vertices(self, self.face(face_id).outer),
                0 <= k <= n_inners,
                r@.no_duplicates(),
                forall|v: VertId| r@.contains(v) <==> (boundary@.contains(v) || on_hole_upto(self, face_id, k as int, v)),
            decreases n_inners - k,
        {
            let st = match &self.faces[idx] {
                Some(fc) => fc.inners[k],
                None => HeId { id: NULL_RAW },
            };
            let mut got = false;
            if st.id != NULL_RAW {
                match self.collect_loop_verts(st) {
                    Ok(vs) => {
                        r = append_new(r, &vs);
                        got = true;
                        proof {
                            assert forall|w: VertId| r@.contains(w) <==> (boundary@.contains(w) || on_hole_upto(self, face_id, k as int + 1, w)) by {
                                if on_hole_upto(self, face_id, k as int + 1, w) && !on_hole_upto(self, face_id, k as int, w) {
                                    let q = choose|q: int| 0 <= q < k + 1 && #[trigger] on_loop(self, self.face(face_id).inners@[q], w);
                                    assert(q == k);
                                }
                                if vs@.contains(w) {
                                    assert(on_loop(self, self.face(face_id).inners@[k as int], w));
                                }
                            }
                        }
                    },
                    Err(_) => {},
                }
            }
            if !got {
                proof {
                    assert forall|w: VertId| r@.contains(w) <==> (boundary@.contains(w) || on_hole_upto(self, face_id, k as int + 1, w)) by {
                        if on_hole_upto(self, face_id, k as int + 1, w) && !on_hole_upto(self, face_id, k as int, w) {
                            let q = choose|q: int| 0 <= q < k + 1 && #[trigger] on_loop(self, self.face(face_id).inners@[q], w);
                            assert(q == k);
                        }
                    }
                }
            }
            k = k + 1;
        }
        proof {
            assert forall|v: VertId| on_hole_upto(self, face_id, n_inners as int, v) <==> on_hole(self, face_id, v) by {
                if on_hole(self, face_id, v) {
                    let q = choose|q: int| 0 <= q < self.face(face_id).inners@.len() && #[trigger] on_loop(self, self.face(face_id).inners@[q], v);
                    assert(on_loop(self, self.face(face_id).inners@[q], v));
                }
            }
        }
        Ok(r)
    }
}

/// The position last written to vertex `x` by the first `k` writes
/// (`vs[i]` gets `pos[i]`), if any.
pub open spec fn written(vs: Seq<VertId>, pos: Seq<Vec3Bits>, x: int, k: int) -> Option<Vec3Bits>
    decreases k,
{
    if k <= 0 {
        None
    } else if vs[k - 1].id as int == x {
        Some(pos[k - 1])
    } else {
        written(vs, pos, x, k - 1)
    }
}

/// Vertex `x` after the first `k` writes.
pub open spec fn after_writes(v: Vertex, vs: Seq<VertId>, pos: Seq<Vec3Bits>, x: int, k: int) -> Vertex {
    match written(vs, pos, x, k) {
        Some(p) => Vertex { pos: p, active: v.active },
        None => v,
    }
}

impl Mesh {
    /// Move vertex `vs[i]` to `pos[i]`, in order (a later write to the same
    /// vertex wins). Nothing else changes.
    pub fn set_vertex_positions(&mut self, vs: &Vec<VertId>, pos: &Vec<Vec3Bits>)
        requires
            old(self).wf(),
            pos@.len() == vs@.len(),
            forall|i: int| 0 <= i < vs@.len() ==> (#[trigger] vs@[i]).id < old(self).nv(),
        ensures
            final(self).wf(),
            final(self).nv() == old(self).nv(),
            forall|x: int| 0 <= x < old(self).nv() ==> #[trigger] final(self).verts@[x] == after_writes(
                old(self).verts@[x],
                vs@,
                pos@,
                x,
                vs@.len() as int,
            ),
            final(self).hes@ == old(self).hes@,
            final(self).edges@ == old(self).edges@,
            final(self).faces@ == old(self).faces@,
            final(self).sphere_path_b == old(self).sphere_path_b,
            final(self).cylinder_path_b == old(self).cylinder_path_b,
            final(self).cone_path_b == old(self).cone_path_b,
    {
        let ghost m0 = *self;
        let mut i: usize = 0;
        while i < vs.len()
            invariant
                m0 == *old(self),
                m0.wf(),
                pos@.len() == vs@.len(),
                forall|q: int| 0 <= q < vs@.len() ==> (#[trigger] vs@[q]).id < m0.nv(),
                0 <= i <= vs@.len(),
                self.verts@.len() == m0.nv(),
                forall|x: int| 0 <= x < m0.nv() ==> #[trigger] self.verts@[x] == after_writes(m0.verts@[x], vs@, pos@, x, i as int),
                self.hes@ == m0.hes@,
                self.edges@ == m0.edges@,
                self.faces@ == m0.faces@,
                self.sphere_path_b == m0.sphere_path_b,
                self.cylinder_path_b == m0.cylinder_path_b,
                self.cone_path_b == m0.cone_path_b,
            decreases vs@.len() - i,
        {
            let idx = vs[i].id as usize;
            let active = self.verts[idx].active;
            self.verts.set(idx, Vertex { pos: pos[i], active });
            i = i + 1;
        }
        proof {
            assert forall|j: int| 0 <= j < self.nh() implies #[trigger] he_refs_ok(self.hes@[j], self.nv(), self.nh(), self.ne(), self.nf()) by {
                assert(he_refs_ok(m0.hes@[j], m0.nv(), m0.nh(), m0.ne(), m0.nf()));
            }
            assert forall|j: int| 0 <= j < self.ne() implies #[trigger] edge_refs_ok(self.edges@[j], self.nv(), self.nh()) by {
                assert(edge_refs_ok(m0.edges@[j], m0.nv(), m0.nh()));
            }
        }
    }
}

/// The face across half-edge `h` of face `f`: the face of its radial
/// neighbour, when that neighbour is another half-edge and its face is
/// neither null nor `f`.
pub open spec fn across(m: &Mesh, f: FaceId, h: HeId) -> Option<FaceId> {
    let t = m.hes@[h.id as int].next_rad;
    let g = m.hes@[t.id as int].face;
    if t.id != NULL_RAW && t != h && g.id != NULL_RAW && g != f {
        Some(g)
    } else {
        None
    }
}

/// The faces across the half-edges `hs` of face `f`, each listed once, in
/// the order first met.
pub open spec fn across_list(m: &Mesh, f: FaceId, hs: Seq<HeId>) -> Seq<FaceId>
    decreases hs.len(),
{
    if hs.len() == 0 {
        Seq::empty()
    } else {
        let prev = across_list(m, f, hs.drop_last());
        match across(m, f, hs.last()) {
            Some(g) => if prev.contains(g) {
                prev
            } else {
                prev.push(g)
            },
            None => prev,
        }
    }
}

/// Whether `f` occurs in `s`.
fn contains_face(s: &Vec<FaceId>, f: FaceId) -> (r: bool)
    ensures
        r == s@.contains(f),
{
    let mut i: usize = 0;
    while i < s.len()
        invariant
            0 <= i <= s@.len(),
            forall|j: int| 0 <= j < i ==> s@[j] != f,
        decreases s@.len() - i,
    {
        if s[i] == f {
            return true;
        }
        i = i + 1;
    }
    false
}

impl Mesh {
    /// The faces across the outer boundary edges of face `face_id` (the
    /// walls of a solid face), each listed once, in the order met along the
    /// outer loop. Fails as `collect_loop_verts` does when the outer loop
    /// does not close.
    pub fn boundary_neighbour_faces(&self, face_id: FaceId) -> (res: Result<Vec<FaceId>, MeshError>)
        requires
            self.wf(),
            self.has_face(face_id),
        ensures
            match res {
                Ok(ws) => {
                    &&& has_loop(self.hes@, self.face(face_id).outer.id as int)
                    &&& ws@ == across_list(self, face_id, loop_seq(self.hes@, self.face(face_id).outer.id as int))
                },
                Err(e) => !has_loop(self.hes@, self.face(face_id).outer.id as int) && e == (if self.face(face_id).outer.id
                    >= self.nh() {
                    MeshError::HalfEdgeNotFound
                } else {
                    MeshError::BrokenLoop
                }),
            },
    {
        let idx = face_id.id as usize;
        let outer = match &self.faces[idx] {
            Some(fc) => fc.outer,
            None => HeId { id: NULL_RAW },
        };
        let hv = self.collect_loop_hes(outer)?;
        let mut ws: Vec<FaceId> = Vec::new();
        let mut i: usize = 0;
        while i < hv.len()
            invariant
                self.wf(),
                hv@ == loop_seq(self.hes@, outer.id as int),
                crate::mesh::is_loop_of(self.hes@, outer.id as int, hv@),
                0 <= i <= hv@.len(),
                ws@ == across_list(self, face_id, hv@.subrange(0, i as int)),
            decreases hv@.len() - i,
        {
            let h = hv[i];
            proof {
                crate::mesh::lemma_walk_in_range(self, outer.id as int, i as nat);
                assert(he_refs_ok(self.hes@[h.id as int], self.nv(), self.nh(), self.ne(), self.nf()));
            }
            let t = self.hes[h.id as usize].next_rad;
            if t.id != NULL_RAW && t != h {
                let g = self.hes[t.id as usize].face;
                if g.id != NULL_RAW && g != face_id && !contains_face(&ws, g) {
                    ws.push(g);
                }
            }
            proof {
                let sub = hv@.subrange(0, i as int + 1);
                assert(sub.drop_last() =~= hv@.subrange(0, i as int));
                assert(sub.last() == h);
            }
            i = i + 1;
        }
        assert(hv@.subrange(0, hv@.len() as int) =~= hv@);
        Ok(ws)
    }
}

} // verus!
