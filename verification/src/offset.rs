//! Offset support: result types and soft removal of a face.
use vstd::prelude::*;

use crate::extrude::{
    copies_at, extends, face_is, lemma_copies_kept, lemma_copy_loop_ok, lemma_extends_refl, lemma_extends_trans,
    lemma_face_is_kept, loop_vertices, has_room,
};
use crate::ids::{EdgeId, FaceId, HeId, MaterialId, VertId, NULL_RAW};
use crate::mesh::{
    edge_joins, edge_refs_ok, face_refs_ok, has_loop, he_refs_ok, loop_len, loop_seq, loop_verts_ok, released, release_effect, faces_met, rad_steps, HalfEdge, Mesh, MeshError,
    Vec3Bits, Vertex,
};
use crate::ring::{loop_visits, loops_view, ring_degenerate, ring_verts_ok, total_len};

verus! {

/// Result of offsetting an edge: the two vertices of the new parallel edge
/// and the new edge.
#[derive(Debug)]
pub struct OffsetEdgeResult {
    pub new_v0: VertId,
    pub new_v1: VertId,
    pub new_edge: EdgeId,
}

/// Result of offsetting a face: the inner face, the frame face between the
/// two loops, and the face that was offset (now removed).
#[derive(Debug)]
pub struct OffsetResult {
    pub inner_face: FaceId,
    pub strip_faces: Vec<FaceId>,
    pub original_face: FaceId,
}

/// The ids `nv0, nv0 + 1, ...` of `n` vertices appended to a mesh of `nv0`.
pub open spec fn fresh_ids(nv0: int, n: int) -> Seq<VertId> {
    Seq::new(n as nat, |i: int| VertId { id: (nv0 + i) as u32 })
}

/// Half-edge `j` lies on the loop of one of the first `n` of `starts` that
/// is non-null and closes in `h`.
pub open spec fn freed_in(h: Seq<HalfEdge>, starts: Seq<HeId>, n: int, j: int) -> bool {
    exists|q: int, k: int|
        0 <= q < n && starts[q].id != NULL_RAW && has_loop(h, starts[q].id as int) && 0 <= k < loop_seq(h, starts[q].id as int).len()
            && #[trigger] loop_seq(h, starts[q].id as int)[k].id as int == j
}

/// Half-edge `j` of `m0` lies on a closing loop (outer or hole) of face `f`.
pub open spec fn freed_by(m0: &Mesh, f: FaceId, j: int) -> bool {
    freed_in(m0.hes@, crate::orient::loop_starts(m0.face(f)), crate::orient::loop_starts(m0.face(f)).len() as int, j)
}

impl Mesh {
    /// Remove face `face_id` from storage, first detaching the half-edges
    /// of its outer and hole loops from it (their face becomes null). All
    /// `next`/`prev`/radial links are kept, so neighbouring faces are
    /// undisturbed and the freed half-edges can be claimed again.
    pub fn soft_remove_face(&mut self, face_id: FaceId) -> (res: Result<(), MeshError>)
        requires
            old(self).wf(),
        ensures
            final(self).wf(),
            final(self).verts@ == old(self).verts@,
            final(self).edges@ == old(self).edges@,
            final(self).hes@.len() == old(self).hes@.len(),
            final(self).sphere_path_b == old(self).sphere_path_b,
            final(self).cylinder_path_b == old(self).cylinder_path_b,
            final(self).cone_path_b == old(self).cone_path_b,
            res == Err::<(), MeshError>(MeshError::FaceNotFound) <==> !old(self).has_face(face_id),
            res is Err <==> !old(self).has_face(face_id),
            res is Err ==> crate::orient::unchanged(old(self), final(self)),
            res is Ok ==> {
                &&& final(self).faces@.len() == old(self).faces@.len()
                &&& !final(self).has_face(face_id)
                &&& forall|j: int| 0 <= j < old(self).nf() && j != face_id.id as int ==> #[trigger] final(self).faces@[j] == old(self).faces@[j]
                &&& forall|j: int| 0 <= j < old(self).nh() ==> {
                    let a = #[trigger] old(self).hes@[j];
                    let b = final(self).hes@[j];
                    b.next == a.next && b.prev == a.prev && b.dst == a.dst && b.edge == a.edge
                        && b.next_rad == a.next_rad && (b.face == a.face || b.face.id == NULL_RAW)
                }
                &&& has_loop(old(self).hes@, old(self).face(face_id).outer.id as int) ==> forall|k: int|
                    0 <= k < loop_seq(old(self).hes@, old(self).face(face_id).outer.id as int).len()
                        ==> final(self).hes@[#[trigger] loop_seq(old(self).hes@, old(self).face(face_id).outer.id as int)[k].id as int].face.id == NULL_RAW
                &&& forall|j: int| 0 <= j < old(self).nh() ==> (#[trigger] final(self).hes@[j]).face == if freed_by(old(self), face_id, j) {
                    FaceId { id: NULL_RAW }
                } else {
                    old(self).hes@[j].face
                }
            },
    {
        let idx = face_id.id as usize;
        if idx >= self.faces.len() {
            return Err(MeshError::FaceNotFound);
        }
        let ghost m0 = *self;
        let starts: Vec<HeId> = match &self.faces[idx] {
            Some(fc) => {
                let mut v: Vec<HeId> = Vec::new();
                v.push(fc.outer);
                let mut i: usize = 0;
                while i < fc.inners.len()
                    invariant
                        0 <= i <= fc.inners@.len(),
                        v@ == seq![fc.outer] + fc.inners@.subrange(0, i as int),
                    decreases fc.inners@.len() - i,
                {
                    v.push(fc.inners[i]);
                    i = i + 1;
                    assert(v@ =~= seq![fc.outer] + fc.inners@.subrange(0, i as int));
                }
                assert(fc.inners@.subrange(0, fc.inners@.len() as int) =~= fc.inners@);
                v
            },
            None => {
                return Err(MeshError::FaceNotFound);
            },
        };
        let ghost outer_loop = loop_seq(m0.hes@, m0.face(face_id).outer.id as int);
        let mut i: usize = 0;
        while i < starts.len()
            invariant
                m0.wf(),
                self.wf(),
                m0 == *old(self),
                m0.has_face(face_id),
                starts@.len() >= 1,
                starts@[0] == m0.face(face_id).outer,
                outer_loop == loop_seq(m0.hes@, m0.face(face_id).outer.id as int),
                0 <= i <= starts@.len(),
                self.verts@ == m0.verts@,
                self.edges@ == m0.edges@,
                self.faces@ == m0.faces@,
                self.hes@.len() == m0.hes@.len(),
                i == 0 ==> self.hes@ == m0.hes@,
                self.sphere_path_b == m0.sphere_path_b,
                self.cylinder_path_b == m0.cylinder_path_b,
                self.cone_path_b == m0.cone_path_b,
                forall|j: int| 0 <= j < m0.nh() ==> {
                    let a = #[trigger] m0.hes@[j];
                    let b = self.hes@[j];
                    b.next == a.next && b.prev == a.prev && b.dst == a.dst && b.edge == a.edge
                        && b.next_rad == a.next_rad && (b.face == a.face || b.face.id == NULL_RAW)
                },
                i >= 1 && has_loop(m0.hes@, m0.face(face_id).outer.id as int) ==> forall|k: int|
                    0 <= k < outer_loop.len() ==> self.hes@[#[trigger] outer_loop[k].id as int].face.id == NULL_RAW,
                starts@ == crate::orient::loop_starts(m0.face(face_id)),
                forall|j: int| 0 <= j < m0.nh() ==> (#[trigger] self.hes@[j]).face == if freed_in(m0.hes@, starts@, i as int, j) {
                    FaceId { id: NULL_RAW }
                } else {
                    m0.hes@[j].face
                },
            decreases starts@.len() - i,
        {
            let ghost pre = *self;
            let st = starts[i];
            if st.id != NULL_RAW {
                self.release_loop(st);
            }
            proof {
                assert(crate::repair::links_kept(&pre, &m0) && crate::repair::links_kept(&m0, &pre));
                if st.id != NULL_RAW && has_loop(m0.hes@, st.id as int) {
                    crate::repair::lemma_loop_links(&m0, &pre, st.id as int);
                }
                if st.id != NULL_RAW && has_loop(pre.hes@, st.id as int) {
                    crate::repair::lemma_loop_links(&pre, &m0, st.id as int);
                }
                assert forall|j: int| 0 <= j < m0.nh() implies (#[trigger] self.hes@[j]).face == if freed_in(m0.hes@, starts@, i as int + 1, j) {
                    FaceId { id: NULL_RAW }
                } else {
                    m0.hes@[j].face
                } by {
                    assert(pre.hes@[j].face == if freed_in(m0.hes@, starts@, i as int, j) {
                        FaceId { id: NULL_RAW }
                    } else {
                        m0.hes@[j].face
                    });
                    let lp = loop_seq(m0.hes@, st.id as int);
                    let live = st.id != NULL_RAW && has_loop(m0.hes@, st.id as int);
                    if live {
                        assert(has_loop(pre.hes@, st.id as int));
                        assert(loop_seq(pre.hes@, st.id as int) == lp);
                        assert(released(pre.hes@, self.hes@, lp));
                        let a = pre.hes@[j];
                        if exists|k: int| 0 <= k < lp.len() && lp[k].id as int == j {
                            let k = choose|k: int| 0 <= k < lp.len() && lp[k].id as int == j;
                            assert(self.hes@[j].face == FaceId { id: NULL_RAW });
                            assert(loop_seq(m0.hes@, starts@[i as int].id as int)[k].id as int == j);
                            assert(freed_in(m0.hes@, starts@, i as int + 1, j));
                        } else {
                            assert(self.hes@[j].face == pre.hes@[j].face);
                            if freed_in(m0.hes@, starts@, i as int + 1, j) {
                                let (q, k) = choose|q: int, k: int|
                                    0 <= q < i + 1 && starts@[q].id != NULL_RAW && has_loop(m0.hes@, starts@[q].id as int) && 0 <= k < loop_seq(m0.hes@, starts@[q].id as int).len()
                                        && #[trigger] loop_seq(m0.hes@, starts@[q].id as int)[k].id as int == j;
                                if q == i {
                                    assert(lp[k].id as int == j);
                                    assert(false);
                                }
                                assert(freed_in(m0.hes@, starts@, i as int, j));
                            }
                            if freed_in(m0.hes@, starts@, i as int, j) {
                                let (q, k) = choose|q: int, k: int|
                                    0 <= q < i && starts@[q].id != NULL_RAW && has_loop(m0.hes@, starts@[q].id as int) && 0 <= k < loop_seq(m0.hes@, starts@[q].id as int).len()
                                        && #[trigger] loop_seq(m0.hes@, starts@[q].id as int)[k].id as int == j;
                                assert(freed_in(m0.hes@, starts@, i as int + 1, j));
                            }
                        }
                    } else {
                        if st.id != NULL_RAW {
                            assert(!has_loop(pre.hes@, st.id as int));
                            assert(release_effect(pre.hes@, self.hes@, st));
                        }
                        assert(self.hes@ == pre.hes@);
                        if freed_in(m0.hes@, starts@, i as int + 1, j) {
                            let (q, k) = choose|q: int, k: int|
                                0 <= q < i + 1 && starts@[q].id != NULL_RAW && has_loop(m0.hes@, starts@[q].id as int) && 0 <= k < loop_seq(m0.hes@, starts@[q].id as int).len()
                                    && #[trigger] loop_seq(m0.hes@, starts@[q].id as int)[k].id as int == j;
                            assert(q != i);
                            assert(freed_in(m0.hes@, starts@, i as int, j));
                        }
                        if freed_in(m0.hes@, starts@, i as int, j) {
                            let (q, k) = choose|q: int, k: int|
                                0 <= q < i && starts@[q].id != NULL_RAW && has_loop(m0.hes@, starts@[q].id as int) && 0 <= k < loop_seq(m0.hes@, starts@[q].id as int).len()
                                    && #[trigger] loop_seq(m0.hes@, starts@[q].id as int)[k].id as int == j;
                            assert(freed_in(m0.hes@, starts@, i as int + 1, j));
                        }
                    }
                }
                if i == 0 && has_loop(m0.hes@, m0.face(face_id).outer.id as int) {
                    assert(st == m0.face(face_id).outer);
                    assert(st.id != NULL_RAW);
                    assert(pre.hes@ == m0.hes@);
                    assert(released(pre.hes@, self.hes@, outer_loop));
                    assert forall|k: int| 0 <= k < outer_loop.len() implies self.hes@[#[trigger] outer_loop[k].id as int].face.id == NULL_RAW by {
                        let j = outer_loop[k].id as int;
                        assert(0 <= j < m0.nh()) by {
                            crate::mesh::lemma_walk_in_range(&m0, m0.face(face_id).outer.id as int, k as nat);
                        }
                        let a = pre.hes@[j];
                        assert(exists|q: int| 0 <= q < outer_loop.len() && outer_loop[q].id as int == j);
                    }
                } else if i > 0 && has_loop(m0.hes@, m0.face(face_id).outer.id as int) {
                    assert forall|k: int| 0 <= k < outer_loop.len() implies self.hes@[#[trigger] outer_loop[k].id as int].face.id == NULL_RAW by {
                        let j = outer_loop[k].id as int;
                        assert(0 <= j < m0.nh()) by {
                            crate::mesh::lemma_walk_in_range(&m0, m0.face(face_id).outer.id as int, k as nat);
                        }
                        assert(pre.hes@[j].face.id == NULL_RAW);
                        if st.id != NULL_RAW && has_loop(pre.hes@, st.id as int) {
                            assert(released(pre.hes@, self.hes@, loop_seq(pre.hes@, st.id as int)));
                        }
                    }
                }
            }
            i = i + 1;
        }
        let ghost m1 = *self;
        self.faces.set(idx, None);
        proof {
            assert forall|q: int| 0 <= q < self.nh() implies #[trigger] he_refs_ok(self.hes@[q], self.nv(), self.nh(), self.ne(), self.nf()) by {
                assert(he_refs_ok(m1.hes@[q], m1.nv(), m1.nh(), m1.ne(), m1.nf()));
            }
            assert forall|q: int| 0 <= q < self.ne() implies #[trigger] edge_refs_ok(self.edges@[q], self.nv(), self.nh()) by {
                assert(edge_refs_ok(m1.edges@[q], m1.nv(), m1.nh()));
            }
            assert forall|q: int| 0 <= q < self.nf() && (#[trigger] self.faces@[q]).is_some() implies face_refs_ok(self.faces@[q].unwrap(), self.nh()) by {
                assert(face_refs_ok(m1.faces@[q].unwrap(), m1.nh()));
            }
        }
        Ok(())
    }
}

impl Mesh {
    /// The topology of offsetting face `face_id`: remove it (as
    /// `soft_remove_face` does), add a vertex at each of `offset_pos` (the
    /// offset of the face's outer loop, in loop order), then the inner face
    /// and the frame face with a hole. The smaller of the two loops
    /// (`offset_is_inner`: the offset one) becomes the inner face; the frame
    /// has the larger loop outside and the smaller as its hole. Fails with
    /// `FaceNotFound` when the face is not active, as `collect_loop_verts`
    /// when its outer loop does not close, with `Degenerate` when that loop
    /// has fewer than three vertices; otherwise, when the loop is valid,
    /// only when an arena is full.
    #[verifier::spinoff_prover]
    #[verifier::rlimit(100)]
    pub fn offset_face_build(
        &mut self,
        face_id: FaceId,
        offset_pos: &Vec<Vec3Bits>,
        offset_is_inner: bool,
        inner_normal: Vec3Bits,
        frame_normal: Vec3Bits,
    ) -> (res: Result<OffsetResult, MeshError>)
        requires
            old(self).wf(),
            old(self).face_active(face_id) && has_loop(old(self).hes@, old(self).face(face_id).outer.id as int)
                ==> offset_pos@.len() == loop_len(old(self).hes@, old(self).face(face_id).outer.id as int),
        ensures
            final(self).wf(),
            res == Err::<OffsetResult, MeshError>(MeshError::FaceNotFound) <==> !old(self).face_active(face_id),
            old(self).face_active(face_id) && !has_loop(old(self).hes@, old(self).face(face_id).outer.id as int) ==> res
                == Err::<OffsetResult, MeshError>(
                if old(self).face(face_id).outer.id >= old(self).nh() {
                    MeshError::HalfEdgeNotFound
                } else {
                    MeshError::BrokenLoop
                },
            ),
            old(self).face_active(face_id) && has_loop(old(self).hes@, old(self).face(face_id).outer.id as int) ==> {
                let l = loop_vertices(old(self), old(self).face(face_id).outer);
                let o = fresh_ids(old(self).nv(), l.len() as int);
                let material = old(self).face(face_id).material;
                &&& l.len() < 3 ==> res == Err::<OffsetResult, MeshError>(MeshError::Degenerate)
                &&& (l.len() >= 3 && loop_verts_ok(old(self), l) && res is Err) ==> res == Err::<OffsetResult, MeshError>(
                    MeshError::Capacity,
                )
                &&& (loop_verts_ok(old(self), l) && has_room(old(self), l.len() as int, 3 * l.len() as int, 2)) ==> res is Ok
                &&& match res {
                    Ok(r) => {
                        &&& r.original_face == face_id
                        &&& !final(self).has_face(face_id)
                        &&& final(self).nv() == old(self).nv() + l.len()
                        &&& copies_at(final(self), o, offset_pos@, old(self).nv() as int)
                        &&& face_is(final(self), r.inner_face, if offset_is_inner { o } else { l }, Seq::empty(), inner_normal, material)
                        &&& r.strip_faces@.len() == 1
                        &&& face_is(
                            final(self),
                            r.strip_faces@[0],
                            if offset_is_inner { l } else { o },
                            seq![if offset_is_inner { o } else { l }],
                            frame_normal,
                            material,
                        )
                    },
                    Err(_) => true,
                }
            },
    {
        let idx = face_id.id as usize;
        if idx >= self.faces.len() {
            return Err(MeshError::FaceNotFound);
        }
        let (outer, material) = match &self.faces[idx] {
            Some(fc) => {
                if !fc.active {
                    return Err(MeshError::FaceNotFound);
                }
                (fc.outer, fc.material)
            },
            None => {
                return Err(MeshError::FaceNotFound);
            },
        };
        let ghost m0 = *self;
        let lv = self.collect_loop_verts(outer)?;
        if lv.len() < 3 {
            return Err(MeshError::Degenerate);
        }
        let ghost l = lv@;
        assert(l == loop_vertices(&m0, m0.face(face_id).outer));
        match self.soft_remove_face(face_id) {
            Ok(()) => {},
            Err(e) => {
                return Err(e);
            },
        }
        let ghost m1 = *self;
        proof {
            if loop_verts_ok(&m0, l) {
                assert(loop_verts_ok(&m1, l));
            }
            assert(m1.nh() == m0.nh() && m1.ne() == m0.ne() && m1.nf() == m0.nf() && m1.nv() == m0.nv());
        }
        let (inner_face, frame) = match self.offset_face_fill(&lv, offset_pos, offset_is_inner, inner_normal, frame_normal, material) {
            Ok(p) => p,
            Err(e) => {
                return Err(e);
            },
        };
        proof {
            assert(!self.has_face(face_id)) by {
                assert(!m1.has_face(face_id));
                assert(self.faces@[face_id.id as int] == m1.faces@[face_id.id as int]);
            }
        }
        let mut strips: Vec<FaceId> = Vec::new();
        strips.push(frame);
        Ok(OffsetResult { inner_face, strip_faces: strips, original_face: face_id })
    }
}

impl Mesh {
    /// After the offset face is gone: add a vertex at each of `offset_pos`,
    /// then the inner face and the frame face with a hole, on the ring `lv`
    /// and its offset copy (`offset_is_inner`: the copy is the smaller).
    /// With a usable ring it fails only when an arena is full.
    #[verifier::spinoff_prover]
    #[verifier::rlimit(100)]
    fn offset_face_fill(
        &mut self,
        lv: &Vec<VertId>,
        offset_pos: &Vec<Vec3Bits>,
        offset_is_inner: bool,
        inner_normal: Vec3Bits,
        frame_normal: Vec3Bits,
        material: MaterialId,
    ) -> (res: Result<(FaceId, FaceId), MeshError>)
        requires
            old(self).wf(),
            lv@.len() >= 3,
            offset_pos@.len() == lv@.len(),
        ensures
            final(self).wf(),
            final(self).nf() >= old(self).nf(),
            forall|j: int| 0 <= j < old(self).nf() ==> #[trigger] final(self).faces@[j] == old(self).faces@[j],
            loop_verts_ok(old(self), lv@) && res is Err ==> res == Err::<(FaceId, FaceId), MeshError>(MeshError::Capacity),
            loop_verts_ok(old(self), lv@) && has_room(old(self), lv@.len() as int, 3 * lv@.len() as int, 2) ==> res is Ok,
            match res {
                Ok((fi, ff)) => {
                    let l = lv@;
                    let o = fresh_ids(old(self).nv(), l.len() as int);
                    &&& final(self).nv() == old(self).nv() + l.len()
                    &&& copies_at(final(self), o, offset_pos@, old(self).nv() as int)
                    &&& face_is(final(self), fi, if offset_is_inner { o } else { l }, Seq::empty(), inner_normal, material)
                    &&& face_is(
                        final(self),
                        ff,
                        if offset_is_inner { l } else { o },
                        seq![if offset_is_inner { o } else { l }],
                        frame_normal,
                        material,
                    )
                },
                Err(e) => e == MeshError::Capacity || e == MeshError::BadVertex || e == MeshError::Degenerate,
            },
    {
        let ghost m1 = *self;
        let ghost l = lv@;
        let offv = match self.add_vertices(offset_pos) {
            Ok(v) => v,
            Err(e) => {
                return Err(e);
            },
        };
        let ghost m2 = *self;
        proof {
            assert(offv@ =~= fresh_ids(m1.nv() as int, l.len() as int));
            assert(copies_at(self, offv@, offset_pos@, m1.nv() as int));
            lemma_copy_loop_ok(self, offv@, offset_pos@, m1.nv() as int);
            if loop_verts_ok(&m1, l) {
                assert forall|i: int| 0 <= i < l.len() implies (#[trigger] l[i]).id < self.nv() && self.verts@[l[i].id as int].active by {
                    assert(l[i].id < m1.nv() && m1.verts@[l[i].id as int].active);
                    assert(self.verts@.subrange(0, m1.nv())[l[i].id as int] == m1.verts@[l[i].id as int]);
                }
                assert(loop_verts_ok(self, l));
            }
            assert(m2.nh() == m1.nh() && m2.ne() == m1.ne() && m2.nf() == m1.nf());
            assert(offv@.len() == l.len());
        }
        let inner_vids: Vec<VertId> = if offset_is_inner { offv.clone() } else { lv.clone() };
        let inner_face = match self.add_plain_face(inner_vids.as_slice(), inner_normal, material) {
            Ok(f) => f,
            Err(e) => {
                return Err(e);
            },
        };
        let ghost m3 = *self;
        let (fo, fh) = if offset_is_inner { (lv.clone(), offv) } else { (offv, lv.clone()) };
        let mut holes: Vec<Vec<VertId>> = Vec::new();
        holes.push(fh);
        proof {
            assert(loop_verts_ok(&m2, offv@));
            assert forall|i: int| 0 <= i < offv@.len() implies (#[trigger] offv@[i]).id < self.nv() && self.verts@[offv@[i].id as int].active by {
                assert(offv@[i].id < m2.nv() && m2.verts@[offv@[i].id as int].active);
            }
            assert(loop_verts_ok(self, offv@));
            if loop_verts_ok(&m1, l) {
                assert forall|i: int| 0 <= i < l.len() implies (#[trigger] l[i]).id < self.nv() && self.verts@[l[i].id as int].active by {
                    assert(l[i].id < m2.nv() && m2.verts@[l[i].id as int].active);
                }
                assert(loop_verts_ok(self, l));
                assert(ring_verts_ok(self, fo@, loops_view(holes@))) by {
                    assert(loops_view(holes@)[0] == fh@);
                }
            }
            assert(!ring_degenerate(fo@, loops_view(holes@))) by {
                assert(loops_view(holes@).len() == 1);
                assert(loops_view(holes@)[0] == fh@);
            }
            assert(total_len(loops_view(holes@)) == l.len()) by {
                assert(loops_view(holes@).drop_last() =~= Seq::<Seq<VertId>>::empty());
                assert(total_len(Seq::<Seq<VertId>>::empty()) == 0);
                assert(loops_view(holes@).last() == fh@);
            }
        }
        let frame = match self.add_face_with_holes(fo.as_slice(), &holes, frame_normal, material) {
            Ok(f) => f,
            Err(e) => {
                return Err(e);
            },
        };
        proof {
            assert(self.verts@.subrange(0, m3.nv()) =~= m3.verts@);
            assert(extends(&m3, self));
            lemma_face_is_kept(&m3, self, inner_face, inner_vids@, Seq::empty(), inner_normal, material);
            lemma_extends_trans(&m2, &m3, self);
            lemma_copies_kept(&m2, self, offv@, offset_pos@, m1.nv() as int);
            assert(loops_view(holes@) =~= seq![if offset_is_inner { offv@ } else { l }]);
            assert(face_is(self, frame, fo@, loops_view(holes@), frame_normal, material)) by {
                assert forall|i: int| 0 <= i < loops_view(holes@).len() implies loop_visits(self, #[trigger] self.face(frame).inners@[i], loops_view(holes@)[i]) by {
                }
            }
            assert forall|j: int| 0 <= j < m1.nf() implies #[trigger] self.faces@[j] == m1.faces@[j] by {
                assert(m2.faces@ == m1.faces@);
                assert(m3.faces@.subrange(0, m2.nf())[j] == m2.faces@[j]);
                assert(self.faces@.subrange(0, m3.nf())[j] == m3.faces@[j]);
            }
        }
        Ok((inner_face, frame))
    }
}

impl Mesh {
    /// The topology of offsetting an edge: two new vertices at `p0` and
    /// `p1` and a new free edge joining them. Fails exactly when an arena is
    /// full, and then before changing anything.
    pub fn offset_edge_build(&mut self, p0: Vec3Bits, p1: Vec3Bits) -> (res: Result<OffsetEdgeResult, MeshError>)
        requires
            old(self).wf(),
        ensures
            final(self).wf(),
            final(self).faces@ == old(self).faces@,
            res is Err <==> old(self).nv() + 2 >= NULL_RAW || old(self).nh() + 2 >= NULL_RAW || old(self).ne() + 1 >= NULL_RAW,
            res is Err ==> *final(self) == *old(self),
            match res {
                Ok(r) => {
                    &&& r.new_v0.id == old(self).nv()
                    &&& r.new_v1.id == old(self).nv() + 1
                    &&& final(self).verts@ == old(self).verts@.push(Vertex { pos: p0, active: true }).push(
                        Vertex { pos: p1, active: true },
                    )
                    &&& r.new_edge.id == old(self).ne()
                    &&& final(self).ne() == old(self).ne() + 1
                    &&& edge_joins(final(self).edges@[r.new_edge.id as int], r.new_v0, r.new_v1)
                },
                Err(e) => e == MeshError::Capacity,
            },
    {
        if self.verts.len() >= 0xFFFF_FFFDusize || self.hes.len() >= 0xFFFF_FFFDusize || self.edges.len() >= 0xFFFF_FFFEusize {
            return Err(MeshError::Capacity);
        }
        let a = self.add_vertex(p0)?;
        let b = self.add_vertex(p1)?;
        proof {
            assert forall|j: int| 0 <= j < self.ne() implies !edge_joins(#[trigger] self.edges@[j], a, b) by {
                assert(edge_refs_ok(self.edges@[j], self.nv() - 1, self.nh()));
            }
        }
        let e = self.add_edge(a, b)?;
        Ok(OffsetEdgeResult { new_v0: a, new_v1: b, new_edge: e })
    }
}

/// Why no host face could be chosen for an edge offset.
#[derive(Clone, Copy, Debug, PartialEq, Eq, Structural)]
pub enum OffsetHostError {
    /// The offset distance is too small to make a separate edge.
    Degenerate,
    /// The edge id is out of range.
    EdgeNotFound(EdgeId),
    /// The edge is not active.
    EdgeInactive(EdgeId),
    /// Two or more faces use the edge and not all share the first one's
    /// surface.
    AmbiguousHost { n_faces: usize },
    /// The host face has hole loops.
    MultiLoop(FaceId),
}

/// The active faces on edge `e`, as `get_faces_sharing_edge` lists them.
pub open spec fn edge_faces(m: &Mesh, e: EdgeId) -> Seq<FaceId> {
    faces_met(m, m.edges@[e.id as int].any_he.id as int, rad_steps(m.hes@, m.edges@[e.id as int].any_he.id as int, m.nh() as nat))
}

/// Some face after the first of `n` faces has no flag saying that it shares
/// the first face's surface (a missing flag counts as no).
pub open spec fn some_surface_differs(same_surface: Seq<bool>, n: int) -> bool {
    exists|j: int| 0 <= j < n - 1 && #[trigger] flag_unset(same_surface, j)
}

/// Flag `j` of `flags` is missing or false.
pub open spec fn flag_unset(flags: Seq<bool>, j: int) -> bool {
    j >= flags.len() || !flags[j]
}

impl Mesh {
    /// Choose the host face of an edge offset. Fails with `Degenerate` when
    /// the distance is unusable (`dist_ok` false), then with `EdgeNotFound` /
    /// `EdgeInactive` for a missing or inactive edge. With no active face on
    /// the edge there is no host (`Ok(None)`: a free edge, offset in its
    /// wire's plane). With two or more, every face after the first must
    /// share the first one's surface (`same_surface[i - 1]` for face `i`),
    /// else `AmbiguousHost`. The host is the first face; one with holes is
    /// refused with `MultiLoop`.
    pub fn resolve_offset_host(&self, edge: EdgeId, dist_ok: bool, same_surface: &[bool]) -> (r: Result<Option<FaceId>, OffsetHostError>)
        requires
            self.wf(),
        ensures
            !dist_ok <==> r == Err::<Option<FaceId>, OffsetHostError>(OffsetHostError::Degenerate),
            dist_ok ==> (r == Err::<Option<FaceId>, OffsetHostError>(OffsetHostError::EdgeNotFound(edge)) <==> edge.id >= self.ne()),
            dist_ok && edge.id < self.ne() ==> (r == Err::<Option<FaceId>, OffsetHostError>(OffsetHostError::EdgeInactive(edge))
                <==> !self.edges@[edge.id as int].active),
            dist_ok && edge.id < self.ne() && self.edges@[edge.id as int].active ==> {
                let fs = edge_faces(self, edge);
                &&& r == Ok::<Option<FaceId>, OffsetHostError>(None) <==> fs.len() == 0
                &&& r == Err::<Option<FaceId>, OffsetHostError>(OffsetHostError::AmbiguousHost { n_faces: fs.len() as usize })
                    <==> fs.len() >= 2 && some_surface_differs(same_surface@, fs.len() as int)
                &&& fs.len() >= 1 && !some_surface_differs(same_surface@, fs.len() as int) ==> {
                    &&& self.has_face(fs[0])
                    &&& r == (if self.face(fs[0]).inners@.len() > 0 {
                        Err::<Option<FaceId>, OffsetHostError>(OffsetHostError::MultiLoop(fs[0]))
                    } else {
                        Ok::<Option<FaceId>, OffsetHostError>(Some(fs[0]))
                    })
                }
            },
    {
        if !dist_ok {
            return Err(OffsetHostError::Degenerate);
        }
        if edge.id as usize >= self.edges.len() {
            return Err(OffsetHostError::EdgeNotFound(edge));
        }
        if !self.edges[edge.id as usize].active {
            return Err(OffsetHostError::EdgeInactive(edge));
        }
        let fs = self.get_faces_sharing_edge(edge);
        if fs.len() == 0 {
            return Ok(None);
        }
        let n = fs.len();
        let mut i: usize = 1;
        while i < n
            invariant
                1 <= i <= n,
                n == fs@.len(),
                !some_surface_differs(same_surface@, i as int),
                dist_ok,
                (edge.id as int) < self.ne(),
                self.edges@[edge.id as int].active,
                fs@ == edge_faces(self, edge),
            decreases n - i,
        {
            if i - 1 >= same_surface.len() || !same_surface[i - 1] {
                let ghost w: int = i - 1;
                assert(0 <= w < n - 1 && flag_unset(same_surface@, w));
                assert(some_surface_differs(same_surface@, n as int));
                return Err(OffsetHostError::AmbiguousHost { n_faces: n });
            }
            i = i + 1;
            assert forall|j: int| 0 <= j < i - 1 implies !#[trigger] flag_unset(same_surface@, j) by {
                if j < i - 2 {
                    assert(!some_surface_differs(same_surface@, i - 1));
                }
            }
        }
        let host = fs[0];
        proof {
            crate::mesh::lemma_faces_met_active(self, self.edges@[edge.id as int].any_he.id as int, rad_steps(self.hes@, self.edges@[edge.id as int].any_he.id as int, self.nh() as nat));
        }
        let holes = match &self.faces[host.id as usize] {
            Some(fc) => fc.inners.len(),
            None => 0,
        };
        if holes > 0 {
            return Err(OffsetHostError::MultiLoop(host));
        }
        Ok(Some(host))
    }
}

} // verus!
