//! The topology of a Push/Pull that creates faces: a copy of the face's
//! loops becomes the top face, and each boundary edge gets a quad wall.
//!
//! Where the copied vertices go and which way the new faces face are
//! geometry; the caller computes them from the face's loops and passes
//! them in.
use vstd::prelude::*;

use crate::ids::{FaceId, HeId, MaterialId, VertId, NULL_RAW};
use crate::mesh::{
    closes_at, dsts_of, has_loop, is_loop_of, lemma_loop_of_is_loop_seq, loop_len, loop_seq, range_ids, same_but_rad,
    loop_verts_ok, Mesh, MeshError, Vec3Bits, Vertex,
};
use crate::ring::{lemma_loop_kept, loop_visits, loops_view, ring_degenerate, ring_verts_ok, total_len};
use crate::solids::rings_ordered;
use crate::closed::{closed_surface, lemma_prisms_closed, loops_distinct, prisms};

verus! {

/// The vertices of the loop at `s` (meaningful when it is a loop).
pub open spec fn loop_vertices(m: &Mesh, s: HeId) -> Seq<VertId> {
    dsts_of(m.hes@, loop_seq(m.hes@, s.id as int))
}

/// The hole loops among `starts` that are extruded: non-null, closing, with
/// at least three vertices, as vertex lists, in order.
pub open spec fn extruded_holes(m: &Mesh, starts: Seq<HeId>) -> Seq<Seq<VertId>>
    decreases starts.len(),
{
    if starts.len() == 0 {
        Seq::empty()
    } else {
        let prev = extruded_holes(m, starts.drop_last());
        let s = starts.last();
        if s.id != NULL_RAW && has_loop(m.hes@, s.id as int) && loop_vertices(m, s).len() >= 3 {
            prev.push(loop_vertices(m, s))
        } else {
            prev
        }
    }
}

/// Hole loop `s` is one that is extruded: non-null, closing, with at least
/// three vertices.
pub open spec fn hole_kept(m: &Mesh, s: HeId) -> bool {
    s.id != NULL_RAW && has_loop(m.hes@, s.id as int) && loop_vertices(m, s).len() >= 3
}

/// `holes` lists, in the order of `starts`, the vertices of exactly the
/// kept loops among `starts`: entry `j` is the loop at `starts[idx[j]]`,
/// the positions `idx` increase, and every kept loop has a position.
pub open spec fn selects_kept(m: &Mesh, starts: Seq<HeId>, holes: Seq<Seq<VertId>>, idx: Seq<int>) -> bool {
    &&& idx.len() == holes.len()
    &&& forall|j: int|
        0 <= j < idx.len() ==> 0 <= #[trigger] idx[j] < starts.len() && hole_kept(m, starts[idx[j]]) && holes[j]
            == loop_vertices(m, starts[idx[j]])
    &&& forall|j1: int, j2: int| 0 <= j1 < j2 < idx.len() ==> #[trigger] idx[j1] < #[trigger] idx[j2]
    &&& forall|q: int| 0 <= q < starts.len() && hole_kept(m, #[trigger] starts[q]) ==> exists|j: int| 0 <= j < idx.len() && idx[j] == q
}

/// The extruded holes are exactly the kept hole loops, each once, in order.
pub proof fn lemma_extruded_holes_select(m: &Mesh, starts: Seq<HeId>)
    ensures
        exists|idx: Seq<int>| #[trigger] selects_kept(m, starts, extruded_holes(m, starts), idx),
    decreases starts.len(),
{
    if starts.len() == 0 {
        assert(selects_kept(m, starts, extruded_holes(m, starts), Seq::<int>::empty()));
    } else {
        let pre = starts.drop_last();
        lemma_extruded_holes_select(m, pre);
        let idx0 = choose|idx: Seq<int>| #[trigger] selects_kept(m, pre, extruded_holes(m, pre), idx);
        let h0 = extruded_holes(m, pre);
        let last = starts.len() - 1;
        assert(starts.last() == starts[last]);
        assert forall|q: int| 0 <= q < pre.len() implies #[trigger] pre[q] == starts[q] by {}
        if hole_kept(m, starts.last()) {
            let idx = idx0.push(last);
            let h = extruded_holes(m, starts);
            assert(h == h0.push(loop_vertices(m, starts.last())));
            assert forall|j: int| 0 <= j < idx.len() implies 0 <= #[trigger] idx[j] < starts.len() && hole_kept(m, starts[idx[j]])
                && h[j] == loop_vertices(m, starts[idx[j]]) by {
                if j < idx0.len() {
                    assert(idx[j] == idx0[j]);
                    assert(pre[idx0[j]] == starts[idx0[j]]);
                }
            }
            assert forall|q: int| 0 <= q < starts.len() && hole_kept(m, #[trigger] starts[q]) implies exists|j: int|
                0 <= j < idx.len() && idx[j] == q by {
                if q < last {
                    assert(hole_kept(m, pre[q]));
                    let j = choose|j: int| 0 <= j < idx0.len() && idx0[j] == q;
                    assert(idx[j] == q);
                } else {
                    assert(idx[idx0.len() as int] == q);
                }
            }
            assert(selects_kept(m, starts, h, idx));
        } else {
            let h = extruded_holes(m, starts);
            assert(h == h0);
            assert forall|j: int| 0 <= j < idx0.len() implies 0 <= #[trigger] idx0[j] < starts.len() && hole_kept(m, starts[idx0[j]])
                && h[j] == loop_vertices(m, starts[idx0[j]]) by {
                assert(pre[idx0[j]] == starts[idx0[j]]);
            }
            assert forall|q: int| 0 <= q < starts.len() && hole_kept(m, #[trigger] starts[q]) implies exists|j: int|
                0 <= j < idx0.len() && idx0[j] == q by {
                assert(q < last);
                assert(hole_kept(m, pre[q]));
            }
            assert(selects_kept(m, starts, h, idx0));
        }
    }
}

/// A loop of `m0` is still the same loop in `m1` when half-edges were only
/// appended or had their radial links changed.
pub proof fn lemma_loop_visits_kept(m0: &Mesh, m1: &Mesh, s: HeId, vs: Seq<VertId>)
    requires
        m0.wf(),
        loop_visits(m0, s, vs),
        m0.nh() <= m1.nh(),
        forall|j: int| 0 <= j < m0.nh() ==> same_but_rad(#[trigger] m1.hes@[j], m0.hes@[j]),
    ensures
        loop_visits(m1, s, vs),
{
    let h0 = m0.hes@;
    let st = s.id as int;
    let v = loop_seq(h0, st);
    let k = loop_len(h0, st);
    assert(k <= h0.len() && closes_at(h0, st, k));
    assert(is_loop_of(h0, st, v));
    assert forall|i: int| 0 <= i < v.len() implies (#[trigger] v[i]).id < h0.len() by {
        crate::mesh::lemma_walk_in_range(m0, st, i as nat);
    }
    lemma_loop_kept(h0, m1.hes@, st, v);
    lemma_loop_of_is_loop_seq(m1.hes@, st, v);
}

impl Mesh {
    /// The loops a Push/Pull that creates faces extrudes from stored face
    /// `face_id`: its outer loop's vertices, and those of each hole loop
    /// that is non-null, closes and has at least three vertices. Fails with
    /// the error of `collect_loop_verts` when the outer loop does not close,
    /// and with `Degenerate` when it has fewer than three vertices.
    pub fn extrusion_loops(&self, face_id: FaceId) -> (res: Result<(Vec<VertId>, Vec<Vec<VertId>>), MeshError>)
        requires
            self.wf(),
            self.has_face(face_id),
        ensures
            match res {
                Ok((b, hs)) => {
                    &&& has_loop(self.hes@, self.face(face_id).outer.id as int)
                    &&& b@ == loop_vertices(self, self.face(face_id).outer)
                    &&& b@.len() >= 3
                    &&& loops_view(hs@) == extruded_holes(self, self.face(face_id).inners@)
                    &&& exists|idx: Seq<int>| #[trigger] selects_kept(self, self.face(face_id).inners@, loops_view(hs@), idx)
                },
                Err(e) => if has_loop(self.hes@, self.face(face_id).outer.id as int) {
                    e == MeshError::Degenerate && loop_vertices(self, self.face(face_id).outer).len() < 3
                } else {
                    e == (if self.face(face_id).outer.id >= self.nh() {
                        MeshError::HalfEdgeNotFound
                    } else {
                        MeshError::BrokenLoop
                    })
                },
            },
    {
        let idx = face_id.id as usize;
        let (outer, n_inners) = match &self.faces[idx] {
            Some(fc) => (fc.outer, fc.inners.len()),
            None => (HeId::null(), 0),
        };
        let boundary = self.collect_loop_verts(outer)?;
        if boundary.len() < 3 {
            return Err(MeshError::Degenerate);
        }
        let ghost inners = self.face(face_id).inners@;
        let mut holes: Vec<Vec<VertId>> = Vec::new();
        let mut k: usize = 0;
        while k < n_inners
            invariant
                self.wf(),
                self.has_face(face_id),
                idx == face_id.id as usize,
                inners == self.face(face_id).inners@,
                n_inners == inners.len(),
                0 <= k <= n_inners,
                loops_view(holes@) == extruded_holes(self, inners.subrange(0, k as int)),
            decreases n_inners - k,
        {
            let st = match &self.faces[idx] {
                Some(fc) => fc.inners[k],
                None => HeId::null(),
            };
            proof {
                let sub = inners.subrange(0, k as int + 1);
                assert(sub.drop_last() =~= inners.subrange(0, k as int));
                assert(sub.last() == st);
            }
            if st.id != NULL_RAW {
                match self.collect_loop_verts(st) {
                    Ok(vs) => {
                        if vs.len() >= 3 {
                            let ghost pre = holes@;
                            holes.push(vs);
                            proof {
                                assert(loops_view(holes@) =~= loops_view(pre).push(vs@));
                            }
                        }
                    },
                    Err(_) => {},
                }
            }
            k = k + 1;
        }
        assert(inners.subrange(0, n_inners as int) =~= inners);
        proof {
            lemma_extruded_holes_select(self, inners);
        }
        Ok((boundary, holes))
    }
}


/// What `extrude_build` created.
#[derive(Clone, Debug)]
pub struct ExtrudeResult {
    /// The top face: the copied outer loop with the copied holes.
    pub top_face: FaceId,
    /// The wall on each edge of the outer loop, in loop order.
    pub outer_walls: Vec<FaceId>,
    /// The walls on the edges of each hole loop.
    pub hole_walls: Vec<Vec<FaceId>>,
    /// The copies of the outer loop's vertices.
    pub new_verts: Vec<VertId>,
    /// The copies of each hole loop's vertices.
    pub new_hole_verts: Vec<Vec<VertId>>,
}

/// The wall on edge `i` of loop `b` and its copy `t`: `b_i, b_i+1, t_i+1, t_i`.
pub open spec fn wall_quad(b: Seq<VertId>, t: Seq<VertId>, i: int) -> Seq<VertId> {
    let j = (i + 1) % (b.len() as int);
    seq![b[i], b[j], t[j], t[i]]
}

/// Face `f` is active, with the given normal and material, its outer loop
/// visiting `outer` and one hole per entry of `holes`, visiting it.
pub open spec fn face_is(m: &Mesh, f: FaceId, outer: Seq<VertId>, holes: Seq<Seq<VertId>>, normal: Vec3Bits, material: MaterialId) -> bool {
    &&& m.face_active(f)
    &&& m.face(f).normal == normal
    &&& m.face(f).material == material
    &&& loop_visits(m, m.face(f).outer, outer)
    &&& m.face(f).inners@.len() == holes.len()
    &&& forall|i: int| 0 <= i < holes.len() ==> loop_visits(m, #[trigger] m.face(f).inners@[i], holes[i])
}

/// `m1` only added to `m0`: vertices, faces and half-edges were appended,
/// and old half-edges changed at most their radial links.
pub open spec fn extends(m0: &Mesh, m1: &Mesh) -> bool {
    &&& m0.nv() <= m1.nv()
    &&& m1.verts@.subrange(0, m0.nv()) == m0.verts@
    &&& m0.nf() <= m1.nf()
    &&& m1.faces@.subrange(0, m0.nf()) == m0.faces@
    &&& m0.nh() <= m1.nh()
    &&& forall|j: int| 0 <= j < m0.nh() ==> same_but_rad(#[trigger] m1.hes@[j], m0.hes@[j])
}

/// A mesh extends itself.
pub(crate) proof fn lemma_extends_refl(m: &Mesh)
    ensures
        extends(m, m),
{
    assert(m.verts@.subrange(0, m.nv()) =~= m.verts@);
    assert(m.faces@.subrange(0, m.nf()) =~= m.faces@);
}

/// Adding keeps adding.
pub(crate) proof fn lemma_extends_trans(m0: &Mesh, m1: &Mesh, m2: &Mesh)
    requires
        extends(m0, m1),
        extends(m1, m2),
    ensures
        extends(m0, m2),
{
    assert(m2.verts@.subrange(0, m0.nv()) =~= m0.verts@) by {
        assert forall|i: int| 0 <= i < m0.nv() implies m2.verts@.subrange(0, m0.nv())[i] == m0.verts@[i] by {
            assert(m2.verts@.subrange(0, m1.nv())[i] == m1.verts@[i]);
            assert(m1.verts@.subrange(0, m0.nv())[i] == m0.verts@[i]);
        }
    }
    assert(m2.faces@.subrange(0, m0.nf()) =~= m0.faces@) by {
        assert forall|i: int| 0 <= i < m0.nf() implies m2.faces@.subrange(0, m0.nf())[i] == m0.faces@[i] by {
            assert(m2.faces@.subrange(0, m1.nf())[i] == m1.faces@[i]);
            assert(m1.faces@.subrange(0, m0.nf())[i] == m0.faces@[i]);
        }
    }
    assert forall|j: int| 0 <= j < m0.nh() implies same_but_rad(#[trigger] m2.hes@[j], m0.hes@[j]) by {
        assert(same_but_rad(m2.hes@[j], m1.hes@[j]));
        assert(same_but_rad(m1.hes@[j], m0.hes@[j]));
    }
}

/// A face built earlier stays as built when the mesh is only added to.
pub(crate) proof fn lemma_face_is_kept(m0: &Mesh, m1: &Mesh, f: FaceId, outer: Seq<VertId>, holes: Seq<Seq<VertId>>, normal: Vec3Bits, material: MaterialId)
    requires
        m0.wf(),
        face_is(m0, f, outer, holes, normal, material),
        extends(m0, m1),
    ensures
        face_is(m1, f, outer, holes, normal, material),
{
    assert(m1.faces@[f.id as int] == m0.faces@[f.id as int]) by {
        assert(m1.faces@.subrange(0, m0.nf())[f.id as int] == m1.faces@[f.id as int]);
    }
    lemma_loop_visits_kept(m0, m1, m0.face(f).outer, outer);
    assert forall|i: int| 0 <= i < holes.len() implies loop_visits(m1, #[trigger] m1.face(f).inners@[i], holes[i]) by {
        lemma_loop_visits_kept(m0, m1, m0.face(f).inners@[i], holes[i]);
    }
}

/// A loop freshly listed by `range_ids` visits its destinations.
proof fn lemma_fresh_loop_visits(m: &Mesh, base: int, n: int, vs: Seq<VertId>)
    requires
        m.wf(),
        n >= 1,
        0 <= base,
        base + n <= m.nh(),
        is_loop_of(m.hes@, base, range_ids(base, n)),
        dsts_of(m.hes@, range_ids(base, n)) == vs,
    ensures
        loop_visits(m, HeId { id: base as u32 }, vs),
{
    lemma_loop_of_is_loop_seq(m.hes@, base, range_ids(base, n));
}

/// The arenas of `m` have room for `v` more vertices, `h` more half-edges
/// and as many edges, and `f` more faces.
pub open spec fn has_room(m: &Mesh, v: int, h: int, f: int) -> bool {
    &&& m.nv() + v < NULL_RAW
    &&& m.nh() + h < NULL_RAW
    &&& m.ne() + h < NULL_RAW
    &&& m.nf() + f < NULL_RAW
}

impl Mesh {
    /// Append an active vertex at each position, in order. Fails (with
    /// `Capacity`) exactly when the vertex arena has no room for them all.
    pub fn add_vertices(&mut self, pos: &Vec<Vec3Bits>) -> (res: Result<Vec<VertId>, MeshError>)
        requires
            old(self).wf(),
        ensures
            final(self).wf(),
            extends(old(self), final(self)),
            final(self).hes@ == old(self).hes@,
            final(self).edges@ == old(self).edges@,
            final(self).faces@ == old(self).faces@,
            final(self).sphere_path_b == old(self).sphere_path_b,
            final(self).cylinder_path_b == old(self).cylinder_path_b,
            final(self).cone_path_b == old(self).cone_path_b,
            match res {
                Ok(ids) => {
                    &&& ids@.len() == pos@.len()
                    &&& final(self).nv() == old(self).nv() + pos@.len()
                    &&& forall|i: int| 0 <= i < pos@.len() ==> (#[trigger] ids@[i]).id as int == old(self).nv() + i
                        && final(self).verts@[old(self).nv() + i] == (Vertex { pos: pos@[i], active: true })
                },
                Err(e) => e == MeshError::Capacity,
            },
            res is Err <==> old(self).nv() + pos@.len() >= NULL_RAW,
    {
        let ghost m0 = *self;
        proof {
            lemma_extends_refl(&m0);
        }
        let mut ids: Vec<VertId> = Vec::new();
        let mut i: usize = 0;
        while i < pos.len()
            invariant
                self.wf(),
                m0.wf(),
                m0 == *old(self),
                0 <= i <= pos@.len(),
                extends(&m0, self),
                self.hes@ == m0.hes@,
                self.edges@ == m0.edges@,
                self.faces@ == m0.faces@,
                self.sphere_path_b == m0.sphere_path_b,
                self.cylinder_path_b == m0.cylinder_path_b,
                self.cone_path_b == m0.cone_path_b,
                ids@.len() == i,
                self.nv() == m0.nv() + i,
                forall|q: int| 0 <= q < i ==> (#[trigger] ids@[q]).id as int == m0.nv() + q
                    && self.verts@[m0.nv() + q] == (Vertex { pos: pos@[q], active: true }),
            decreases pos@.len() - i,
        {
            let ghost pre = *self;
            let v = match self.add_vertex(pos[i]) {
                Ok(v) => v,
                Err(e) => {
                    return Err(e);
                },
            };
            ids.push(v);
            proof {
                assert(self.verts@.subrange(0, m0.nv()) =~= m0.verts@) by {
                    assert forall|q: int| 0 <= q < m0.nv() implies self.verts@.subrange(0, m0.nv())[q] == m0.verts@[q] by {
                        assert(pre.verts@.subrange(0, m0.nv())[q] == m0.verts@[q]);
                    }
                }
                assert(self.faces@.subrange(0, m0.nf()) =~= m0.faces@);
            }
            i = i + 1;
        }
        Ok(ids)
    }
}


/// The vertices `ids` of a loop copy are new (numbered from `nv0` on, in
/// increasing order) and sit active at the given positions.
pub open spec fn copies_at(m: &Mesh, ids: Seq<VertId>, pos: Seq<Vec3Bits>, nv0: int) -> bool {
    &&& ids.len() == pos.len()
    &&& forall|i: int| 0 <= i < ids.len() ==> nv0 <= (#[trigger] ids[i]).id < m.nv() && m.verts@[ids[i].id as int] == (Vertex { pos: pos[i], active: true })
    &&& forall|i: int, j: int| 0 <= i < j < ids.len() ==> (#[trigger] ids[i]).id < (#[trigger] ids[j]).id
}

/// `t` is a fresh copy of the valid loop `b`: as long, active, in
/// increasing order, and numbered after every vertex of `b`.
pub open spec fn fresh_over(m: &Mesh, b: Seq<VertId>, t: Seq<VertId>) -> bool {
    &&& loop_verts_ok(m, b)
    &&& t.len() == b.len()
    &&& forall|i: int| 0 <= i < t.len() ==> (#[trigger] t[i]).id < m.nv() && m.verts@[t[i].id as int].active
    &&& forall|i: int, j: int| 0 <= i < j < t.len() ==> (#[trigger] t[i]).id < (#[trigger] t[j]).id
    &&& forall|i: int, j: int| 0 <= i < b.len() && 0 <= j < t.len() ==> (#[trigger] b[i]).id < (#[trigger] t[j]).id
}

/// A loop whose vertices are usable stays so while the mesh is only added to.
pub(crate) proof fn lemma_loop_verts_ok_kept(m0: &Mesh, m1: &Mesh, vs: Seq<VertId>)
    requires
        loop_verts_ok(m0, vs),
        extends(m0, m1),
    ensures
        loop_verts_ok(m1, vs),
{
    assert forall|i: int| 0 <= i < vs.len() implies (#[trigger] vs[i]).id < m1.nv() && m1.verts@[vs[i].id as int].active by {
        assert(m1.verts@.subrange(0, m0.nv())[vs[i].id as int] == m0.verts@[vs[i].id as int]);
    }
}

/// A fresh copy stays fresh while the mesh is only added to.
proof fn lemma_fresh_over_kept(m0: &Mesh, m1: &Mesh, b: Seq<VertId>, t: Seq<VertId>)
    requires
        fresh_over(m0, b, t),
        extends(m0, m1),
    ensures
        fresh_over(m1, b, t),
{
    lemma_loop_verts_ok_kept(m0, m1, b);
    assert forall|i: int| 0 <= i < t.len() implies (#[trigger] t[i]).id < m1.nv() && m1.verts@[t[i].id as int].active by {
        assert(m1.verts@.subrange(0, m0.nv())[t[i].id as int] == m0.verts@[t[i].id as int]);
    }
}

/// `(i + 1) % n`, the index after `i` on a loop of `n`.
pub(crate) proof fn lemma_next_index(i: int, n: int)
    requires
        0 <= i < n,
    ensures
        i + 1 < n ==> (i + 1) % n == i + 1,
        i + 1 == n ==> (i + 1) % n == 0,
{
    if i + 1 < n {
        vstd::arithmetic::div_mod::lemma_small_mod((i + 1) as nat, n as nat);
    } else {
        vstd::arithmetic::div_mod::lemma_mod_self_0(n);
    }
}

/// A copy with at least three vertices is a valid loop.
pub(crate) proof fn lemma_copy_loop_ok(m: &Mesh, ids: Seq<VertId>, pos: Seq<Vec3Bits>, nv0: int)
    requires
        copies_at(m, ids, pos, nv0),
        ids.len() >= 3,
    ensures
        loop_verts_ok(m, ids),
{
    let n = ids.len() as int;
    assert forall|i: int| 0 <= i < n implies #[trigger] ids[i] != ids[(i + 1) % n] by {
        lemma_next_index(i, n);
        if i + 1 < n {
            assert(ids[i].id < ids[i + 1].id);
        } else {
            assert(ids[0].id < ids[i].id);
        }
    }
}

/// Each wall of a fresh copy is a valid loop.
pub(crate) proof fn lemma_wall_quad_ok(m: &Mesh, b: Seq<VertId>, t: Seq<VertId>, i: int)
    requires
        fresh_over(m, b, t),
        0 <= i < b.len(),
    ensures
        loop_verts_ok(m, wall_quad(b, t, i)),
{
    let n = b.len() as int;
    let j = (i + 1) % n;
    lemma_next_index(i, n);
    let bi = b[i];
    let bj = b[j];
    let ti = t[i];
    let tj = t[j];
    assert(bi != bj);
    assert(bj.id < tj.id);
    assert(bi.id < ti.id);
    assert(tj != ti) by {
        if i + 1 < n {
            assert(t[i].id < t[i + 1].id);
        } else {
            assert(t[0].id < t[i].id);
        }
    }
    assert(bi.id < m.nv() && m.verts@[bi.id as int].active);
    assert(bj.id < m.nv() && m.verts@[bj.id as int].active);
    assert(ti.id < m.nv() && m.verts@[ti.id as int].active);
    assert(tj.id < m.nv() && m.verts@[tj.id as int].active);
    let q = wall_quad(b, t, i);
    assert(q =~= seq![bi, bj, tj, ti]);
    assert forall|k: int| 0 <= k < 4 implies (#[trigger] q[k]).id < m.nv() && m.verts@[q[k].id as int].active by {
    }
    assert forall|k: int| 0 <= k < 4 implies #[trigger] q[k] != q[(k + 1) % 4] by {
        if k == 0 {
            assert((k + 1) % 4 == 1);
        } else if k == 1 {
            assert((k + 1) % 4 == 2);
        } else if k == 2 {
            assert((k + 1) % 4 == 3);
        } else {
            assert((k + 1) % 4 == 0);
        }
    }
}

/// The copies made for a valid ring form a valid ring, and each is a fresh
/// copy of the loop it was made from.
proof fn lemma_copies_fresh(
    m0: &Mesh,
    m2: &Mesh,
    boundary: Seq<VertId>,
    holes: Seq<Seq<VertId>>,
    new_verts: Seq<VertId>,
    new_holes: Seq<Seq<VertId>>,
    top_outer: Seq<Vec3Bits>,
    top_holes: Seq<Seq<Vec3Bits>>,
)
    requires
        extends(m0, m2),
        ring_verts_ok(m0, boundary, holes),
        top_outer.len() == boundary.len(),
        copies_at(m2, new_verts, top_outer, m0.nv() as int),
        new_holes.len() == holes.len(),
        top_holes.len() == holes.len(),
        forall|k: int| 0 <= k < holes.len() ==> (#[trigger] top_holes[k]).len() == holes[k].len()
            && copies_at(m2, new_holes[k], top_holes[k], m0.nv() as int),
    ensures
        fresh_over(m2, boundary, new_verts),
        forall|k: int| 0 <= k < holes.len() ==> fresh_over(m2, #[trigger] holes[k], new_holes[k]),
        ring_verts_ok(m2, new_verts, new_holes),
        !ring_degenerate(new_verts, new_holes),
{
    lemma_loop_verts_ok_kept(m0, m2, boundary);
    lemma_copy_loop_ok(m2, new_verts, top_outer, m0.nv() as int);
    assert forall|k: int| 0 <= k < holes.len() implies fresh_over(m2, #[trigger] holes[k], new_holes[k]) && loop_verts_ok(m2, new_holes[k]) by {
        assert(loop_verts_ok(m0, holes[k]));
        assert(top_holes[k].len() == holes[k].len());
        lemma_loop_verts_ok_kept(m0, m2, holes[k]);
        lemma_copy_loop_ok(m2, new_holes[k], top_holes[k], m0.nv() as int);
    }
    assert forall|k: int| 0 <= k < holes.len() implies loop_verts_ok(m2, #[trigger] new_holes[k]) by {
        assert(fresh_over(m2, holes[k], new_holes[k]) && loop_verts_ok(m2, new_holes[k]));
    }
    assert(!ring_degenerate(new_verts, new_holes)) by {
        assert forall|k: int| 0 <= k < new_holes.len() implies (#[trigger] new_holes[k]).len() >= 3 by {
            assert(fresh_over(m2, holes[k], new_holes[k]));
        }
    }
}

impl Mesh {
    /// Add a face with `f`'s loop built as `add_face` builds it and state it
    /// as a plain face.
    pub(crate) fn add_plain_face(&mut self, vs: &[VertId], normal: Vec3Bits, material: MaterialId) -> (res: Result<FaceId, MeshError>)
        requires
            old(self).wf(),
        ensures
            final(self).wf(),
            extends(old(self), final(self)),
            final(self).verts@ == old(self).verts@,
            final(self).ne() >= old(self).ne(),
            res is Err ==> res == Err::<FaceId, MeshError>(MeshError::Degenerate) || res == Err::<FaceId, MeshError>(
                MeshError::Capacity,
            ) || res == Err::<FaceId, MeshError>(MeshError::BadVertex),
            match res {
                Ok(f) => f.id as int == old(self).nf() && final(self).nf() == old(self).nf() + 1 && loop_verts_ok(old(self), vs@)
                    && face_is(final(self), f, vs@, Seq::empty(), normal, material) && final(self).nh() == old(self).nh() + vs@.len()
                    && final(self).ne() <= old(self).ne() + vs@.len(),
                Err(e) => (e == MeshError::Capacity && (old(self).nh() + vs@.len() >= NULL_RAW || old(self).ne() + vs@.len() >= NULL_RAW
                    || old(self).nf() + 1 >= NULL_RAW)) || !loop_verts_ok(old(self), vs@),
            },
    {
        let ghost m0 = *self;
        let r = self.add_face(vs, normal, material);
        match r {
            Ok(f) => {
                proof {
                    lemma_fresh_loop_visits(self, m0.nh(), vs@.len() as int, vs@);
                    assert(self.verts@.subrange(0, m0.nv()) =~= m0.verts@);
                }
                Ok(f)
            },
            Err(e) => {
                proof {
                    lemma_extends_refl(&m0);
                }
                Err(e)
            },
        }
    }

    /// Build the walls of one loop: on each edge `i` of `b`, the face
    /// `b_i, b_i+1, t_i+1, t_i` with normal `normals[i]`.
    fn add_walls(&mut self, b: &Vec<VertId>, t: &Vec<VertId>, normals: &Vec<Vec3Bits>, material: MaterialId) -> (res: Result<Vec<FaceId>, MeshError>)
        requires
            old(self).wf(),
            t@.len() == b@.len(),
            normals@.len() == b@.len(),
        ensures
            final(self).wf(),
            extends(old(self), final(self)),
            match res {
                Ok(ws) => {
                    &&& ws@.len() == b@.len()
                    &&& forall|i: int| 0 <= i < ws@.len() ==> old(self).nf() <= (#[trigger] ws@[i]).id && face_is(
                        final(self),
                        ws@[i],
                        wall_quad(b@, t@, i),
                        Seq::empty(),
                        normals@[i],
                        material,
                    )
                    &&& final(self).nh() == old(self).nh() + 4 * b@.len()
                    &&& final(self).ne() <= old(self).ne() + 4 * b@.len()
                    &&& final(self).nf() == old(self).nf() + b@.len()
                },
                Err(e) => fresh_over(old(self), b@, t@) ==> e == MeshError::Capacity,
            },
            fresh_over(old(self), b@, t@) && old(self).nh() + 4 * b@.len() < NULL_RAW && old(self).ne() + 4 * b@.len() < NULL_RAW
                && old(self).nf() + b@.len() < NULL_RAW ==> res is Ok,
    {
        let ghost m0 = *self;
        proof {
            lemma_extends_refl(&m0);
        }
        let n = b.len();
        let mut ws: Vec<FaceId> = Vec::new();
        let mut i: usize = 0;
        while i < n
            invariant
                self.wf(),
                m0.wf(),
                m0 == *old(self),
                n == b@.len(),
                t@.len() == n,
                normals@.len() == n,
                0 <= i <= n,
                extends(&m0, self),
                fresh_over(&m0, b@, t@) ==> fresh_over(self, b@, t@),
                ws@.len() == i,
                forall|q: int| 0 <= q < i ==> m0.nf() <= (#[trigger] ws@[q]).id && face_is(self, ws@[q], wall_quad(b@, t@, q), Seq::empty(), normals@[q], material),
                self.nh() == m0.nh() + 4 * i,
                self.ne() <= m0.ne() + 4 * i,
                self.nf() == m0.nf() + i,
            decreases n - i,
        {
            let j = if i + 1 == n { 0 } else { i + 1 };
            let mut quad: Vec<VertId> = Vec::new();
            quad.push(b[i]);
            quad.push(b[j]);
            quad.push(t[j]);
            quad.push(t[i]);
            proof {
                assert(j as int == (i as int + 1) % (n as int)) by {
                    if i + 1 < n {
                        vstd::arithmetic::div_mod::lemma_small_mod((i + 1) as nat, n as nat);
                    } else {
                        vstd::arithmetic::div_mod::lemma_mod_self_0(n as int);
                    }
                }
                assert(quad@ =~= wall_quad(b@, t@, i as int));
            }
            let ghost pre = *self;
            proof {
                if fresh_over(&m0, b@, t@) {
                    lemma_wall_quad_ok(&pre, b@, t@, i as int);
                }
            }
            let f = match self.add_plain_face(quad.as_slice(), normals[i], material) {
                Ok(f) => f,
                Err(e) => {
                    proof {
                        lemma_extends_trans(&m0, &pre, self);
                    }
                    return Err(e);
                },
            };
            proof {
                if fresh_over(&m0, b@, t@) {
                    lemma_fresh_over_kept(&pre, self, b@, t@);
                }
                assert forall|q: int| 0 <= q < i implies m0.nf() <= (#[trigger] ws@[q]).id && face_is(self, ws@[q], wall_quad(b@, t@, q), Seq::empty(), normals@[q], material) by {
                    lemma_face_is_kept(&pre, self, ws@[q], wall_quad(b@, t@, q), Seq::empty(), normals@[q], material);
                }
                lemma_extends_trans(&m0, &pre, self);
            }
            ws.push(f);
            i = i + 1;
        }
        Ok(ws)
    }

    /// Copy the outer loop and each hole to new vertices at the given
    /// positions, outer loop first. Fails exactly when the vertex arena has
    /// no room for them all.
    fn copy_loops(&mut self, top_outer: &Vec<Vec3Bits>, top_holes: &Vec<Vec<Vec3Bits>>) -> (res: Result<
        (Vec<VertId>, Vec<Vec<VertId>>),
        MeshError,
    >)
        requires
            old(self).wf(),
        ensures
            final(self).wf(),
            extends(old(self), final(self)),
            match res {
                Ok((outer, hs)) => {
                    &&& copies_at(final(self), outer@, top_outer@, old(self).nv())
                    &&& hs@.len() == top_holes@.len()
                    &&& forall|k: int| 0 <= k < top_holes@.len() ==> copies_at(final(self), (#[trigger] hs@[k])@, top_holes@[k]@, old(self).nv())
                    &&& rings_ordered(seq![outer@] + loops_view(hs@))
                    &&& final(self).nv() == old(self).nv() + top_outer@.len() + pos_total(top_holes@)
                },
                Err(e) => e == MeshError::Capacity,
            },
            final(self).hes@ == old(self).hes@,
            final(self).edges@ == old(self).edges@,
            final(self).faces@ == old(self).faces@,
            res is Err <==> old(self).nv() + top_outer@.len() + pos_total(top_holes@) >= NULL_RAW,
    {
        let ghost m0 = *self;
        proof {
            lemma_pos_total_prefix(top_holes@, 0);
        }
        let outer = self.add_vertices(top_outer)?;

        let mut hs: Vec<Vec<VertId>> = Vec::new();
        proof {
            assert((seq![outer@] + loops_view(hs@)).len() == 1);
        }
        let mut k: usize = 0;
        while k < top_holes.len()
            invariant
                self.wf(),
                m0.wf(),
                m0 == *old(self),
                extends(&m0, self),
                0 <= k <= top_holes@.len(),
                copies_at(self, outer@, top_outer@, m0.nv()),
                hs@.len() == k,
                forall|q: int| 0 <= q < k ==> copies_at(self, (#[trigger] hs@[q])@, top_holes@[q]@, m0.nv()),
                rings_ordered(seq![outer@] + loops_view(hs@)),
                self.nv() == m0.nv() + top_outer@.len() + pos_total(top_holes@.subrange(0, k as int)),
                self.hes@ == m0.hes@,
                self.edges@ == m0.edges@,
                self.faces@ == m0.faces@,
            decreases top_holes@.len() - k,
        {
            let ghost pre = *self;
            proof {
                assert(top_holes@.subrange(0, k + 1).drop_last() =~= top_holes@.subrange(0, k as int));
                lemma_pos_total_prefix(top_holes@, k + 1);
                lemma_pos_total_prefix(top_holes@, k as int);
            }
            let ids = match self.add_vertices(&top_holes[k]) {
                Ok(ids) => ids,
                Err(e) => {
                    proof {
                        lemma_extends_trans(&m0, &pre, self);
                    }
                    return Err(e);
                },
            };
            proof {
                lemma_extends_trans(&m0, &pre, self);
                lemma_copies_kept(&pre, self, outer@, top_outer@, m0.nv() as int);
                assert forall|q: int| 0 <= q < k implies copies_at(self, (#[trigger] hs@[q])@, top_holes@[q]@, m0.nv()) by {
                    lemma_copies_kept(&pre, self, hs@[q]@, top_holes@[q]@, m0.nv() as int);
                }
            }
            let ghost before = seq![outer@] + loops_view(hs@);
            hs.push(ids);
            proof {
                assert(copies_at(self, hs@[k as int]@, top_holes@[k as int]@, m0.nv()));
                let after = seq![outer@] + loops_view(hs@);
                assert(after =~= before.push(ids@));
                assert forall|k1: int, k2: int, i1: int, i2: int|
                    0 <= k1 < k2 < after.len() && 0 <= i1 < after[k1].len() && 0 <= i2 < after[k2].len() implies (
                    #[trigger] after[k1][i1]).id < (#[trigger] after[k2][i2]).id by {
                    if k2 == after.len() - 1 {
                        assert(after[k2] == ids@);
                        assert(after[k1] == before[k1]);
                        if k1 == 0 {
                            assert(before[0] == outer@);
                        } else {
                            assert(before[k1] == hs@[k1 - 1]@);
                        }
                    } else {
                        assert(after[k1] == before[k1] && after[k2] == before[k2]);
                    }
                }
            }
            k = k + 1;
        }
        proof {
            assert(top_holes@.subrange(0, top_holes@.len() as int) =~= top_holes@);
        }
        Ok((outer, hs))
    }

    /// Build the walls of every hole `k`: `add_walls` on `holes[k]`, its
    /// copy `tops[k]` and `normals[k]`.
    fn add_hole_walls(
        &mut self,
        holes: &Vec<Vec<VertId>>,
        tops: &Vec<Vec<VertId>>,
        normals: &Vec<Vec<Vec3Bits>>,
        material: MaterialId,
    ) -> (res: Result<Vec<Vec<FaceId>>, MeshError>)
        requires
            old(self).wf(),
            tops@.len() == holes@.len(),
            normals@.len() == holes@.len(),
            forall|k: int| 0 <= k < holes@.len() ==> (#[trigger] tops@[k])@.len() == holes@[k]@.len()
                && normals@[k]@.len() == holes@[k]@.len(),
        ensures
            final(self).wf(),
            extends(old(self), final(self)),
            match res {
                Ok(hw) => {
                    &&& hw@.len() == holes@.len()
                    &&& forall|k: int| 0 <= k < holes@.len() ==> (#[trigger] hw@[k])@.len() == holes@[k]@.len()
                    &&& forall|k: int, i: int| 0 <= k < holes@.len() && 0 <= i < holes@[k]@.len() ==> old(self).nf() <= (
                        #[trigger] hw@[k]@[i]).id && face_is(
                        final(self),
                        hw@[k]@[i],
                        wall_quad(holes@[k]@, tops@[k]@, i),
                        Seq::empty(),
                        normals@[k]@[i],
                        material,
                    )
                    &&& final(self).nh() == old(self).nh() + 4 * total_len(loops_view(holes@))
                    &&& final(self).ne() <= old(self).ne() + 4 * total_len(loops_view(holes@))
                    &&& final(self).nf() == old(self).nf() + total_len(loops_view(holes@))
                },
                Err(e) => (forall|k: int| 0 <= k < holes@.len() ==> fresh_over(old(self), (#[trigger] holes@[k])@, tops@[k]@))
                    ==> e == MeshError::Capacity,
            },
            (forall|k: int| 0 <= k < holes@.len() ==> fresh_over(old(self), (#[trigger] holes@[k])@, tops@[k]@))
                && old(self).nh() + 4 * total_len(loops_view(holes@)) < NULL_RAW
                && old(self).ne() + 4 * total_len(loops_view(holes@)) < NULL_RAW
                && old(self).nf() + total_len(loops_view(holes@)) < NULL_RAW ==> res is Ok,
    {
        let ghost m0 = *self;
        proof {
            lemma_extends_refl(&m0);
        }
        let mut hw: Vec<Vec<FaceId>> = Vec::new();
        let mut k: usize = 0;
        while k < holes.len()
            invariant
                self.wf(),
                m0.wf(),
                m0 == *old(self),
                extends(&m0, self),
                tops@.len() == holes@.len(),
                normals@.len() == holes@.len(),
                forall|q: int| 0 <= q < holes@.len() ==> (#[trigger] tops@[q])@.len() == holes@[q]@.len()
                    && normals@[q]@.len() == holes@[q]@.len(),
                0 <= k <= holes@.len(),
                (forall|q: int| 0 <= q < holes@.len() ==> fresh_over(&m0, (#[trigger] holes@[q])@, tops@[q]@)) ==> (forall|q: int|
                    0 <= q < holes@.len() ==> fresh_over(self, (#[trigger] holes@[q])@, tops@[q]@)),
                hw@.len() == k,
                forall|q: int| 0 <= q < k ==> (#[trigger] hw@[q])@.len() == holes@[q]@.len(),
                forall|q: int, i: int| 0 <= q < k && 0 <= i < holes@[q]@.len() ==> m0.nf() <= (#[trigger] hw@[q]@[i]).id
                    && face_is(self, hw@[q]@[i], wall_quad(holes@[q]@, tops@[q]@, i), Seq::empty(), normals@[q]@[i], material),
                self.nh() == m0.nh() + 4 * total_len(loops_view(holes@).subrange(0, k as int)),
                self.ne() <= m0.ne() + 4 * total_len(loops_view(holes@).subrange(0, k as int)),
                self.nf() == m0.nf() + total_len(loops_view(holes@).subrange(0, k as int)),
            decreases holes@.len() - k,
        {
            let ghost pre = *self;
            proof {
                assert(loops_view(holes@).subrange(0, k + 1).drop_last() =~= loops_view(holes@).subrange(0, k as int));
                assert(loops_view(holes@).subrange(0, k + 1).last() == holes@[k as int]@);
                crate::ring::lemma_total_len_prefix(loops_view(holes@), k + 1);
                crate::ring::lemma_total_len_prefix(loops_view(holes@), k as int);
            }
            assert(tops@[k as int]@.len() == holes@[k as int]@.len());
            let ws = match self.add_walls(&holes[k], &tops[k], &normals[k], material) {
                Ok(w) => w,
                Err(e) => {
                    proof {
                        lemma_extends_trans(&m0, &pre, self);
                    }
                    return Err(e);
                },
            };
            proof {
                lemma_extends_trans(&m0, &pre, self);
                if forall|q: int| 0 <= q < holes@.len() ==> fresh_over(&m0, (#[trigger] holes@[q])@, tops@[q]@) {
                    assert forall|q: int| 0 <= q < holes@.len() implies fresh_over(self, (#[trigger] holes@[q])@, tops@[q]@) by {
                        lemma_fresh_over_kept(&pre, self, holes@[q]@, tops@[q]@);
                    }
                }
                assert forall|q: int, i: int| 0 <= q < k && 0 <= i < holes@[q]@.len() implies m0.nf() <= (#[trigger] hw@[q]@[i]).id
                    && face_is(self, hw@[q]@[i], wall_quad(holes@[q]@, tops@[q]@, i), Seq::empty(), normals@[q]@[i], material) by {
                    lemma_face_is_kept(&pre, self, hw@[q]@[i], wall_quad(holes@[q]@, tops@[q]@, i), Seq::empty(), normals@[q]@[i], material);
                }
            }
            hw.push(ws);
            k = k + 1;
        }
        proof {
            assert(loops_view(holes@).subrange(0, holes@.len() as int) =~= loops_view(holes@));
        }
        Ok(hw)
    }
}

/// The number of positions in a list of position loops.
pub open spec fn pos_total(loops: Seq<Vec<Vec3Bits>>) -> int
    decreases loops.len(),
{
    if loops.len() == 0 {
        0
    } else {
        pos_total(loops.drop_last()) + loops.last()@.len()
    }
}

/// A total over a prefix is at most the total, and never negative.
proof fn lemma_pos_total_prefix(s: Seq<Vec<Vec3Bits>>, i: int)
    requires
        0 <= i <= s.len(),
    ensures
        0 <= pos_total(s.subrange(0, i)) <= pos_total(s),
    decreases s.len() - i,
{
    if i < s.len() {
        lemma_pos_total_prefix(s, i + 1);
        assert(s.subrange(0, i + 1).drop_last() =~= s.subrange(0, i));
    } else {
        assert(s.subrange(0, i) =~= s);
    }
    lemma_pos_total_nonneg(s.subrange(0, i));
}

proof fn lemma_pos_total_nonneg(s: Seq<Vec<Vec3Bits>>)
    ensures
        pos_total(s) >= 0,
    decreases s.len(),
{
    if s.len() > 0 {
        lemma_pos_total_nonneg(s.drop_last());
    }
}

/// Position loops as long, loop for loop, as a list of vertex loops have
/// its total.
proof fn lemma_pos_total_same(p: Seq<Vec<Vec3Bits>>, l: Seq<Seq<VertId>>)
    requires
        p.len() == l.len(),
        forall|i: int| 0 <= i < p.len() ==> (#[trigger] p[i])@.len() == l[i].len(),
    ensures
        pos_total(p) == total_len(l),
    decreases p.len(),
{
    if p.len() > 0 {
        lemma_pos_total_same(p.drop_last(), l.drop_last());
    }
}

/// New vertices stay where they were put while the mesh is only added to.
pub(crate) proof fn lemma_copies_kept(m0: &Mesh, m1: &Mesh, ids: Seq<VertId>, pos: Seq<Vec3Bits>, nv0: int)
    requires
        copies_at(m0, ids, pos, nv0),
        extends(m0, m1),
    ensures
        copies_at(m1, ids, pos, nv0),
{
    assert forall|i: int| 0 <= i < ids.len() implies nv0 <= (#[trigger] ids[i]).id < m1.nv() && m1.verts@[ids[i].id as int] == (Vertex { pos: pos[i], active: true }) by {
        assert(m1.verts@.subrange(0, m0.nv())[ids[i].id as int] == m0.verts@[ids[i].id as int]);
    }
}


/// Copies numbered after every vertex of the loops `ls`, increasing within
/// each copy and from one copy to the next, close the prisms over `ls`.
proof fn lemma_copies_close(m0: &Mesh, ls: Seq<Seq<VertId>>, cs: Seq<Seq<VertId>>)
    requires
        ls.len() == cs.len(),
        forall|q: int| 0 <= q < ls.len() ==> loop_verts_ok(m0, #[trigger] ls[q]) && cs[q].len() == ls[q].len(),
        loops_distinct(ls),
        rings_ordered(cs),
        forall|q: int, x: int, y: int| 0 <= q < cs.len() && 0 <= x < y < cs[q].len() ==> (#[trigger] cs[q][x]).id < (
        #[trigger] cs[q][y]).id,
        forall|q: int, x: int| 0 <= q < cs.len() && 0 <= x < cs[q].len() ==> m0.nv() <= (#[trigger] cs[q][x]).id,
    ensures
        closed_surface(prisms(ls, cs)),
{
    let all = ls + cs;
    let m = ls.len() as int;
    assert forall|p: int, x: int, q: int, y: int|
        0 <= p < all.len() && 0 <= x < all[p].len() && 0 <= q < all.len() && 0 <= y < all[q].len() && (p != q || x != y)
            implies #[trigger] all[p][x] != #[trigger] all[q][y] by {
        if p < m && q < m {
            assert(all[p] == ls[p] && all[q] == ls[q]);
        } else if p >= m && q >= m {
            assert(all[p] == cs[p - m] && all[q] == cs[q - m]);
            if p == q {
                if x > y {
                    assert(cs[p - m][y].id < cs[p - m][x].id);
                } else {
                    assert(cs[p - m][x].id < cs[p - m][y].id);
                }
            } else if p < q {
                assert(cs[p - m][x].id < cs[q - m][y].id);
            } else {
                assert(cs[q - m][y].id < cs[p - m][x].id);
            }
        } else if p < m {
            assert(all[p] == ls[p] && all[q] == cs[q - m]);
            assert(loop_verts_ok(m0, ls[p]));
            assert(ls[p][x].id < m0.nv() <= cs[q - m][y].id);
        } else {
            assert(all[q] == ls[q] && all[p] == cs[p - m]);
            assert(loop_verts_ok(m0, ls[q]));
            assert(ls[q][y].id < m0.nv() <= cs[p - m][x].id);
        }
    }
    lemma_prisms_closed(ls, cs);
}

impl Mesh {
    /// The face-building part of a Push/Pull that creates faces: copy the
    /// outer loop `boundary` and each loop of `holes` to new vertices at the
    /// given positions, add the top face (the copied outer loop with the
    /// copied holes), then a quad wall on every edge of the outer loop and of
    /// each hole, with the given normals. An error from adding a vertex or a
    /// face is returned at once; what was added before stays. With usable
    /// loops it fails only when an arena lacks room for what it adds: a
    /// vertex per loop vertex, and five half-edges (and at most five edges)
    /// and one face per loop vertex, plus the top face.
    pub fn extrude_build(
        &mut self,
        boundary: &Vec<VertId>,
        holes: &Vec<Vec<VertId>>,
        top_outer: &Vec<Vec3Bits>,
        top_holes: &Vec<Vec<Vec3Bits>>,
        top_normal: Vec3Bits,
        outer_wall_normals: &Vec<Vec3Bits>,
        hole_wall_normals: &Vec<Vec<Vec3Bits>>,
        material: MaterialId,
    ) -> (res: Result<ExtrudeResult, MeshError>)
        requires
            old(self).wf(),
            top_outer@.len() == boundary@.len(),
            outer_wall_normals@.len() == boundary@.len(),
            top_holes@.len() == holes@.len(),
            hole_wall_normals@.len() == holes@.len(),
            forall|k: int| 0 <= k < holes@.len() ==> (#[trigger] top_holes@[k])@.len() == holes@[k]@.len()
                && hole_wall_normals@[k]@.len() == holes@[k]@.len(),
        ensures
            final(self).wf(),
            extends(old(self), final(self)),
            match res {
                Ok(r) => {
                    &&& copies_at(final(self), r.new_verts@, top_outer@, old(self).nv())
                    &&& r.new_hole_verts@.len() == holes@.len()
                    &&& forall|k: int| 0 <= k < holes@.len() ==> copies_at(final(self), (#[trigger] r.new_hole_verts@[k])@, top_holes@[k]@, old(self).nv())
                    &&& old(self).nf() <= r.top_face.id
                    &&& ring_verts_ok(old(self), boundary@, loops_view(holes@)) && loops_distinct(seq![boundary@] + loops_view(holes@))
                        ==> closed_surface(prisms(seq![boundary@] + loops_view(holes@), seq![r.new_verts@] + loops_view(r.new_hole_verts@)))
                    &&& face_is(final(self), r.top_face, r.new_verts@, loops_view(r.new_hole_verts@), top_normal, material)
                    &&& r.outer_walls@.len() == boundary@.len()
                    &&& forall|i: int| 0 <= i < boundary@.len() ==> old(self).nf() <= (#[trigger] r.outer_walls@[i]).id && face_is(
                        final(self),
                        r.outer_walls@[i],
                        wall_quad(boundary@, r.new_verts@, i),
                        Seq::empty(),
                        outer_wall_normals@[i],
                        material,
                    )
                    &&& r.hole_walls@.len() == holes@.len()
                    &&& forall|k: int| 0 <= k < holes@.len() ==> (#[trigger] r.hole_walls@[k])@.len() == holes@[k]@.len()
                    &&& forall|k: int, i: int| 0 <= k < holes@.len() && 0 <= i < holes@[k]@.len() ==> old(self).nf() <= (
                        #[trigger] r.hole_walls@[k]@[i]).id && face_is(
                        final(self),
                        r.hole_walls@[k]@[i],
                        wall_quad(holes@[k]@, r.new_hole_verts@[k]@, i),
                        Seq::empty(),
                        hole_wall_normals@[k]@[i],
                        material,
                    )
                },
                Err(e) => ring_verts_ok(old(self), boundary@, loops_view(holes@)) ==> e == MeshError::Capacity,
            },
            ({
                let n = boundary@.len() + total_len(loops_view(holes@));
                ring_verts_ok(old(self), boundary@, loops_view(holes@)) && has_room(old(self), n, 5 * n, n + 1)
            }) ==> res is Ok,
    {
        let ghost m0 = *self;
        let ghost tt = total_len(loops_view(holes@));
        proof {
            assert forall|i: int| 0 <= i < top_holes@.len() implies (#[trigger] top_holes@[i])@.len() == loops_view(holes@)[i].len() by {
                assert(loops_view(holes@)[i] == holes@[i]@);
            }
            lemma_pos_total_same(top_holes@, loops_view(holes@));
            crate::ring::lemma_total_len_nonneg(loops_view(holes@));
        }
        let (new_verts, new_hole_verts) = self.copy_loops(top_outer, top_holes)?;
        let ghost m2 = *self;
        proof {
            assert forall|i: int| 0 <= i < top_holes@.len() implies (#[trigger] top_holes@[i])@.len() == loops_view(new_hole_verts@)[i].len() by {
                assert(loops_view(new_hole_verts@)[i] == new_hole_verts@[i]@);
            }
            lemma_pos_total_same(top_holes@, loops_view(new_hole_verts@));
        }
        proof {
            lemma_extends_refl(&m2);
            if ring_verts_ok(&m0, boundary@, loops_view(holes@)) {
                lemma_copies_fresh(&m0, &m2, boundary@, loops_view(holes@), new_verts@, loops_view(new_hole_verts@), top_outer@, top_holes@.map_values(|l: Vec<Vec3Bits>| l@));
            }
        }
        proof {
            let ls = seq![boundary@] + loops_view(holes@);
            let cs = seq![new_verts@] + loops_view(new_hole_verts@);
            if ring_verts_ok(&m0, boundary@, loops_view(holes@)) && loops_distinct(ls) {
                assert forall|q: int| 0 <= q < ls.len() implies loop_verts_ok(&m0, #[trigger] ls[q]) && cs[q].len() == ls[q].len()
                    && copies_at(&m2, cs[q], if q == 0 { top_outer@ } else { top_holes@[q - 1]@ }, m0.nv()) by {
                    if q == 0 {
                        assert(ls[0] == boundary@ && cs[0] == new_verts@);
                    } else {
                        assert(ls[q] == holes@[q - 1]@ && cs[q] == new_hole_verts@[q - 1]@);
                        assert(loop_verts_ok(&m0, loops_view(holes@)[q - 1]));
                    }
                }
                assert forall|q: int, x: int, y: int| 0 <= q < cs.len() && 0 <= x < y < cs[q].len() implies (#[trigger] cs[q][x]).id < (
                #[trigger] cs[q][y]).id by {
                    assert(copies_at(&m2, cs[q], if q == 0 { top_outer@ } else { top_holes@[q - 1]@ }, m0.nv()));
                }
                assert forall|q: int, x: int| 0 <= q < cs.len() && 0 <= x < cs[q].len() implies m0.nv() <= (#[trigger] cs[q][x]).id by {
                    assert(copies_at(&m2, cs[q], if q == 0 { top_outer@ } else { top_holes@[q - 1]@ }, m0.nv()));
                }
                lemma_copies_close(&m0, ls, cs);
            }
        }
        let top = match self.add_face_with_holes(new_verts.as_slice(), &new_hole_verts, top_normal, material) {
            Ok(f) => f,
            Err(e) => {
                return Err(e);
            },
        };
        proof {
            assert(self.verts@.subrange(0, m2.nv()) =~= m2.verts@);
            lemma_extends_trans(&m0, &m2, self);
            assert(face_is(self, top, new_verts@, loops_view(new_hole_verts@), top_normal, material)) by {
                assert forall|i: int| 0 <= i < loops_view(new_hole_verts@).len() implies loop_visits(self, #[trigger] self.face(top).inners@[i], loops_view(new_hole_verts@)[i]) by {
                }
            }
        }
        let ghost m3 = *self;
        proof {
            if ring_verts_ok(&m0, boundary@, loops_view(holes@)) {
                lemma_fresh_over_kept(&m2, self, boundary@, new_verts@);
            }
        }
        let outer_walls = match self.add_walls(boundary, &new_verts, outer_wall_normals, material) {
            Ok(w) => w,
            Err(e) => {
                proof {
                    lemma_extends_trans(&m0, &m3, self);
                }
                return Err(e);
            },
        };
        let ghost m4 = *self;
        proof {
            lemma_extends_trans(&m0, &m3, self);
            lemma_extends_trans(&m2, &m3, self);
            if ring_verts_ok(&m0, boundary@, loops_view(holes@)) {
                assert forall|q: int| 0 <= q < holes@.len() implies fresh_over(self, (#[trigger] holes@[q])@, new_hole_verts@[q]@) by {
                    assert(fresh_over(&m2, loops_view(holes@)[q], loops_view(new_hole_verts@)[q]));
                    lemma_fresh_over_kept(&m2, self, holes@[q]@, new_hole_verts@[q]@);
                }
            }
        }
        proof {
            assert forall|q: int| 0 <= q < holes@.len() implies (#[trigger] new_hole_verts@[q])@.len() == holes@[q]@.len() by {
                assert(copies_at(&m2, new_hole_verts@[q]@, top_holes@[q]@, m0.nv()));
            }
        }
        let hole_walls = match self.add_hole_walls(holes, &new_hole_verts, hole_wall_normals, material) {
            Ok(w) => w,
            Err(e) => {
                proof {
                    lemma_extends_trans(&m0, &m4, self);
                }
                return Err(e);
            },
        };
        proof {
            lemma_extends_trans(&m0, &m4, self);
            lemma_extends_trans(&m2, &m4, self);
            lemma_extends_trans(&m3, &m4, self);
            lemma_face_is_kept(&m3, self, top, new_verts@, loops_view(new_hole_verts@), top_normal, material);
            assert forall|i: int| 0 <= i < boundary@.len() implies m0.nf() <= (#[trigger] outer_walls@[i]).id && face_is(
                self,
                outer_walls@[i],
                wall_quad(boundary@, new_verts@, i),
                Seq::empty(),
                outer_wall_normals@[i],
                material,
            ) by {
                lemma_face_is_kept(&m4, self, outer_walls@[i], wall_quad(boundary@, new_verts@, i), Seq::empty(), outer_wall_normals@[i], material);
            }
            lemma_copies_kept(&m2, self, new_verts@, top_outer@, m0.nv() as int);
            assert forall|q: int| 0 <= q < holes@.len() implies copies_at(self, (#[trigger] new_hole_verts@[q])@, top_holes@[q]@, m0.nv()) by {
                lemma_copies_kept(&m2, self, new_hole_verts@[q]@, top_holes@[q]@, m0.nv() as int);
            }
        }
        Ok(ExtrudeResult { top_face: top, outer_walls, hole_walls, new_verts, new_hole_verts })
    }
}

} // verus!
