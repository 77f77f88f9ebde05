//! Faces with holes: building a face from an outer loop and hole loops.
use vstd::prelude::*;

use crate::ids::{FaceId, HeId, MaterialId, VertId, NULL_RAW};
use crate::mesh::{
    building, dsts_of, face_refs_ok, has_loop, is_loop_of, lemma_building_push_face,
    lemma_loop_of_is_loop_seq, lemma_loop_range, lemma_wf_building, loop_ref_ok, loop_seq,
    loop_verts_ok, range_ids, same_but_rad, same_edge_but_rep, walk, Face, HalfEdge, Mesh,
    MeshError, Vec3Bits,
};

verus! {

/// The vertex lists of a list of loops.
pub open spec fn loops_view(loops: Seq<Vec<VertId>>) -> Seq<Seq<VertId>> {
    loops.map_values(|l: Vec<VertId>| l@)
}

/// The total number of vertices of a list of loops.
pub open spec fn total_len(loops: Seq<Seq<VertId>>) -> int
    decreases loops.len(),
{
    if loops.len() == 0 {
        0
    } else {
        total_len(loops.drop_last()) + loops.last().len()
    }
}

/// Some loop of the face would have fewer than three vertices.
pub open spec fn ring_degenerate(outer: Seq<VertId>, holes: Seq<Seq<VertId>>) -> bool {
    outer.len() < 3 || exists|i: int| 0 <= i < holes.len() && (#[trigger] holes[i]).len() < 3
}

/// The arenas have room for all loops of the face and for the face itself.
pub open spec fn ring_fits(m: &Mesh, outer: Seq<VertId>, holes: Seq<Seq<VertId>>) -> bool {
    &&& m.nh() + outer.len() + total_len(holes) < NULL_RAW
    &&& m.ne() + outer.len() + total_len(holes) < NULL_RAW
    &&& m.nf() + 1 < NULL_RAW
}

/// Every loop of the face has usable vertices.
pub open spec fn ring_verts_ok(m: &Mesh, outer: Seq<VertId>, holes: Seq<Seq<VertId>>) -> bool {
    &&& loop_verts_ok(m, outer)
    &&& forall|i: int| 0 <= i < holes.len() ==> loop_verts_ok(m, #[trigger] holes[i])
}

/// The loop starting at `s` lists exactly the vertices `vs` (as destinations,
/// in loop order).
pub open spec fn loop_visits(m: &Mesh, s: HeId, vs: Seq<VertId>) -> bool {
    &&& s.id != NULL_RAW
    &&& has_loop(m.hes@, s.id as int)
    &&& dsts_of(m.hes@, loop_seq(m.hes@, s.id as int)) == vs
}

/// A total over a prefix is at most the total.
pub proof fn lemma_total_len_prefix(s: Seq<Seq<VertId>>, i: int)
    requires
        0 <= i <= s.len(),
    ensures
        0 <= total_len(s.subrange(0, i)) <= total_len(s),
    decreases s.len() - i,
{
    if i < s.len() {
        lemma_total_len_prefix(s, i + 1);
        assert(s.subrange(0, i + 1).drop_last() =~= s.subrange(0, i));
    } else {
        assert(s.subrange(0, i) =~= s);
    }
    lemma_total_len_nonneg(s.subrange(0, i));
}

/// The total of two lists of loops is the sum of their totals.
pub proof fn lemma_total_len_concat(s1: Seq<Seq<VertId>>, s2: Seq<Seq<VertId>>)
    ensures
        total_len(s1 + s2) == total_len(s1) + total_len(s2),
    decreases s2.len(),
{
    if s2.len() > 0 {
        lemma_total_len_concat(s1, s2.drop_last());
        assert((s1 + s2).drop_last() =~= s1 + s2.drop_last());
    } else {
        assert(s1 + s2 =~= s1);
    }
}

/// Loops all of length `w` total `w` times their number.
pub proof fn lemma_total_len_uniform(s: Seq<Seq<VertId>>, w: int)
    requires
        forall|i: int| 0 <= i < s.len() ==> (#[trigger] s[i]).len() == w,
    ensures
        total_len(s) == w * s.len(),
    decreases s.len(),
{
    if s.len() > 0 {
        lemma_total_len_uniform(s.drop_last(), w);
        let n = s.len() as int;
        assert(w * (n - 1) + w == w * n) by (nonlinear_arith);
    }
}

/// Totals are never negative.
pub proof fn lemma_total_len_nonneg(s: Seq<Seq<VertId>>)
    ensures
        total_len(s) >= 0,
    decreases s.len(),
{
    if s.len() > 0 {
        lemma_total_len_nonneg(s.drop_last());
    }
}

/// A loop whose half-edges keep their `next` link and destination stays the
/// same loop when half-edges are appended or radial links change.
pub proof fn lemma_loop_kept(h0: Seq<HalfEdge>, h1: Seq<HalfEdge>, s: int, v: Seq<HeId>)
    requires
        is_loop_of(h0, s, v),
        h0.len() <= h1.len(),
        forall|i: int| 0 <= i < v.len() ==> (#[trigger] v[i]).id < h0.len(),
        forall|j: int| 0 <= j < h0.len() ==> same_but_rad(#[trigger] h1[j], h0[j]),
    ensures
        is_loop_of(h1, s, v),
        dsts_of(h1, v) == dsts_of(h0, v),
{
    assert forall|k: nat| k <= v.len() implies walk(h1, s, k) == walk(h0, s, k) by {
        lemma_walk_same(h0, h1, s, v, k);
    }
    assert forall|i: int| 0 <= i < v.len() implies #[trigger] dsts_of(h1, v)[i] == dsts_of(h0, v)[i] by {
        assert(same_but_rad(h1[v[i].id as int], h0[v[i].id as int]));
    }
    assert(dsts_of(h1, v) =~= dsts_of(h0, v));
}

proof fn lemma_walk_same(h0: Seq<HalfEdge>, h1: Seq<HalfEdge>, s: int, v: Seq<HeId>, k: nat)
    requires
        is_loop_of(h0, s, v),
        h0.len() <= h1.len(),
        forall|i: int| 0 <= i < v.len() ==> (#[trigger] v[i]).id < h0.len(),
        forall|j: int| 0 <= j < h0.len() ==> same_but_rad(#[trigger] h1[j], h0[j]),
        k <= v.len(),
    ensures
        walk(h1, s, k) == walk(h0, s, k),
    decreases k,
{
    if k > 0 {
        lemma_walk_same(h0, h1, s, v, (k - 1) as nat);
        let p = walk(h0, s, (k - 1) as nat);
        assert(v[k - 1].id as int == p);
        assert(same_but_rad(h1[p], h0[p]));
    }
}

impl Mesh {
    /// Whether `vs` can be the vertex list of a new loop (at least three
    /// in-range, active vertices, none followed cyclically by itself).
    pub fn loop_verts_usable(&self, vs: &[VertId]) -> (ok: bool)
        ensures
            ok == loop_verts_ok(self, vs@),
    {
        let n = vs.len();
        if n < 3 {
            return false;
        }
        let mut i: usize = 0;
        while i < n
            invariant
                n == vs@.len(),
                n >= 3,
                0 <= i <= n,
                forall|j: int| 0 <= j < i ==> (#[trigger] vs@[j]).id < self.nv() && self.verts@[vs@[j].id as int].active,
                forall|j: int| 0 <= j < i ==> #[trigger] vs@[j] != vs@[(j + 1) % (n as int)],
            decreases n - i,
        {
            let v = vs[i];
            if v.id as usize >= self.verts.len() || !self.verts[v.id as usize].active {
                return false;
            }
            let w = if i + 1 == n { vs[0] } else { vs[i + 1] };
            assert(w == vs@[(i + 1) % (n as int)]) by {
                if i + 1 < n {
                    vstd::arithmetic::div_mod::lemma_small_mod((i + 1) as nat, n as nat);
                } else {
                    vstd::arithmetic::div_mod::lemma_mod_self_0(n as int);
                }
            }
            if v == w {
                return false;
            }
            i = i + 1;
        }
        true
    }

    /// Add a face with outer loop `outer` and one hole loop per entry of
    /// `holes`, built as `add_face` builds its loop (edges shared with
    /// existing active edges joining the same vertices). Every loop is
    /// checked before anything changes: a loop with fewer than three
    /// vertices gives `Degenerate`, lack of room `Capacity`, an unusable
    /// vertex `BadVertex`; on error the mesh is unchanged.
    #[verifier::rlimit(50)]
    pub fn add_face_with_holes(
        &mut self,
        outer: &[VertId],
        holes: &Vec<Vec<VertId>>,
        normal: Vec3Bits,
        material: MaterialId,
    ) -> (res: Result<FaceId, MeshError>)
        requires
            old(self).wf(),
        ensures
            final(self).wf(),
            final(self).verts@ == old(self).verts@,
            final(self).sphere_path_b == old(self).sphere_path_b,
            final(self).cylinder_path_b == old(self).cylinder_path_b,
            final(self).cone_path_b == old(self).cone_path_b,
            (res is Err) ==> final(self).hes@ == old(self).hes@ && final(self).edges@ == old(self).edges@
                && final(self).faces@ == old(self).faces@,
            res == Err::<FaceId, MeshError>(MeshError::Degenerate) <==> ring_degenerate(outer@, loops_view(holes@)),
            res == Err::<FaceId, MeshError>(MeshError::Capacity) <==> !ring_degenerate(outer@, loops_view(holes@))
                && !ring_fits(old(self), outer@, loops_view(holes@)),
            res == Err::<FaceId, MeshError>(MeshError::BadVertex) <==> !ring_degenerate(outer@, loops_view(holes@))
                && ring_fits(old(self), outer@, loops_view(holes@)) && !ring_verts_ok(old(self), outer@, loops_view(holes@)),
            res is Ok <==> !ring_degenerate(outer@, loops_view(holes@)) && ring_fits(old(self), outer@, loops_view(holes@))
                && ring_verts_ok(old(self), outer@, loops_view(holes@)),
            match res {
                Ok(f) => {
                    &&& f.id as int == old(self).nf()
                    &&& final(self).nf() == old(self).nf() + 1
                    &&& final(self).faces@.subrange(0, old(self).nf()) == old(self).faces@
                    &&& final(self).face_active(f)
                    &&& final(self).face(f).normal == normal
                    &&& final(self).face(f).material == material
                    &&& loop_visits(final(self), final(self).face(f).outer, outer@)
                    &&& final(self).face(f).inners@.len() == holes@.len()
                    &&& forall|i: int| 0 <= i < holes@.len() ==> loop_visits(final(self), #[trigger] final(self).face(f).inners@[i], holes@[i]@)
                    &&& final(self).nh() == old(self).nh() + outer@.len() + total_len(loops_view(holes@))
                    &&& final(self).ne() <= old(self).ne() + outer@.len() + total_len(loops_view(holes@))
                    &&& forall|j: int| 0 <= j < old(self).nh() ==> same_but_rad(#[trigger] final(self).hes@[j], old(self).hes@[j])
                    &&& final(self).ne() >= old(self).ne()
                    &&& forall|j: int| 0 <= j < old(self).ne() ==> same_edge_but_rep(old(self).edges@[j], #[trigger] final(self).edges@[j])
                },
                Err(_) => true,
            },
    {
        let nh_holes = holes.len();
        // lengths
        if outer.len() < 3 {
            return Err(MeshError::Degenerate);
        }
        let mut i: usize = 0;
        while i < nh_holes
            invariant
                self.wf(),
                self == old(self),
                nh_holes == holes@.len(),
                outer@.len() >= 3,
                0 <= i <= nh_holes,
                forall|j: int| 0 <= j < i ==> (#[trigger] holes@[j])@.len() >= 3,
            decreases nh_holes - i,
        {
            if holes[i].len() < 3 {
                assert(loops_view(holes@)[i as int] == holes@[i as int]@);
                return Err(MeshError::Degenerate);
            }
            i = i + 1;
        }
        assert(!ring_degenerate(outer@, loops_view(holes@)));
        // room
        let limit: usize = 0xFFFF_FFFFusize;
        let mut total: usize = 0;
        let mut i: usize = 0;
        while i < nh_holes
            invariant
                self.wf(),
                self == old(self),
                nh_holes == holes@.len(),
                !ring_degenerate(outer@, loops_view(holes@)),
                limit == NULL_RAW,
                0 <= i <= nh_holes,
                total as int == total_len(loops_view(holes@).subrange(0, i as int)),
                total < limit,
            decreases nh_holes - i,
        {
            let l = holes[i].len();
            proof {
                assert(loops_view(holes@).subrange(0, i as int + 1).drop_last() =~= loops_view(holes@).subrange(0, i as int));
            }
            if l >= limit - total {
                proof {
                    lemma_total_len_prefix(loops_view(holes@), i as int + 1);
                }
                return Err(MeshError::Capacity);
            }
            total = total + l;
            i = i + 1;
        }
        assert(loops_view(holes@).subrange(0, nh_holes as int) =~= loops_view(holes@));
        let n0 = outer.len();
        if n0 >= limit - total || n0 + total >= limit - self.hes.len() || n0 + total >= limit - self.edges.len()
            || 1 >= limit - self.faces.len() {
            return Err(MeshError::Capacity);
        }
        assert(ring_fits(self, outer@, loops_view(holes@)));
        // vertices
        if !self.loop_verts_usable(outer) {
            return Err(MeshError::BadVertex);
        }
        let mut i: usize = 0;
        while i < nh_holes
            invariant
                self.wf(),
                self == old(self),
                !ring_degenerate(outer@, loops_view(holes@)),
                ring_fits(self, outer@, loops_view(holes@)),
                loop_verts_ok(self, outer@),
                nh_holes == holes@.len(),
                0 <= i <= nh_holes,
                forall|j: int| 0 <= j < i ==> loop_verts_ok(self, #[trigger] holes@[j]@),
            decreases nh_holes - i,
        {
            if !self.loop_verts_usable(holes[i].as_slice()) {
                assert(loops_view(holes@)[i as int] == holes@[i as int]@);
                return Err(MeshError::BadVertex);
            }
            i = i + 1;
        }
        assert(ring_verts_ok(self, outer@, loops_view(holes@)));
        // build
        let ghost m0 = *self;
        let fid = self.faces.len();
        proof {
            lemma_wf_building(self);
        }
        let base0 = self.hes.len();
        let start = self.build_loop(outer, fid);
        proof {
            let gb = base0 as int;
            let gn = n0 as int;
            assert forall|k: int| 0 <= k < gn implies crate::mesh::he_built(#[trigger] self.hes@[gb + k], gb, gn, k, outer@, fid as int) by {}
            lemma_loop_range(self.hes@, gb, gn, outer@, fid as int);
        }
        let mut inner_starts: Vec<HeId> = Vec::new();
        let mut i: usize = 0;
        while i < nh_holes
            invariant
                nh_holes == holes@.len(),
                0 <= i <= nh_holes,
                building(self, fid as int),
                fid as int == m0.nf(),
                m0.wf(),
                !ring_degenerate(outer@, loops_view(holes@)),
                ring_fits(&m0, outer@, loops_view(holes@)),
                ring_verts_ok(&m0, outer@, loops_view(holes@)),
                n0 == outer@.len(),
                base0 as int == m0.nh(),
                start.id as int == base0,
                self.verts@ == m0.verts@,
                self.faces@ == m0.faces@,
                self.sphere_path_b == m0.sphere_path_b,
                self.cylinder_path_b == m0.cylinder_path_b,
                self.cone_path_b == m0.cone_path_b,
                self.nh() == m0.nh() + n0 + total_len(loops_view(holes@).subrange(0, i as int)),
                m0.ne() <= self.ne() <= m0.ne() + n0 + total_len(loops_view(holes@).subrange(0, i as int)),
                forall|j: int| 0 <= j < m0.nh() ==> same_but_rad(#[trigger] self.hes@[j], m0.hes@[j]),
                forall|j: int| 0 <= j < m0.ne() ==> same_edge_but_rep(m0.edges@[j], #[trigger] self.edges@[j]),
                is_loop_of(self.hes@, base0 as int, range_ids(base0 as int, n0 as int)),
                dsts_of(self.hes@, range_ids(base0 as int, n0 as int)) == outer@,
                inner_starts@.len() == i,
                forall|t: int| 0 <= t < i ==> {
                    let st = #[trigger] inner_starts@[t];
                    &&& st.id as int + holes@[t]@.len() <= self.nh()
                    &&& is_loop_of(self.hes@, st.id as int, range_ids(st.id as int, holes@[t]@.len() as int))
                    &&& dsts_of(self.hes@, range_ids(st.id as int, holes@[t]@.len() as int)) == holes@[t]@
                },
            decreases nh_holes - i,
        {
            let ghost pre = *self;
            let hv = holes[i].as_slice();
            proof {
                assert(loops_view(holes@).subrange(0, i as int + 1).drop_last() =~= loops_view(holes@).subrange(0, i as int));
                lemma_total_len_prefix(loops_view(holes@), i as int + 1);
                lemma_total_len_nonneg(loops_view(holes@).subrange(0, i as int));
                assert(loop_verts_ok(&m0, loops_view(holes@)[i as int]));
                assert(loop_verts_ok(self, hv@));
            }
            let hb = self.hes.len();
            let st = self.build_loop(hv, fid);
            proof {
                let gb = hb as int;
                let gn = hv@.len() as int;
                assert forall|k: int| 0 <= k < gn implies crate::mesh::he_built(#[trigger] self.hes@[gb + k], gb, gn, k, hv@, fid as int) by {}
                lemma_loop_range(self.hes@, gb, gn, hv@, fid as int);
                // earlier loops survive
                assert forall|j: int| 0 <= j < pre.nh() implies same_but_rad(#[trigger] self.hes@[j], pre.hes@[j]) by {}
                let ob = range_ids(base0 as int, n0 as int);
                assert forall|q: int| 0 <= q < ob.len() implies (#[trigger] ob[q]).id < pre.hes@.len() by {}
                lemma_loop_kept(pre.hes@, self.hes@, base0 as int, ob);
                assert forall|t: int| 0 <= t < i implies {
                    let st = #[trigger] inner_starts@[t];
                    &&& st.id as int + holes@[t]@.len() <= self.nh()
                    &&& is_loop_of(self.hes@, st.id as int, range_ids(st.id as int, holes@[t]@.len() as int))
                    &&& dsts_of(self.hes@, range_ids(st.id as int, holes@[t]@.len() as int)) == holes@[t]@
                } by {
                    let st = inner_starts@[t];
                    let r = range_ids(st.id as int, holes@[t]@.len() as int);
                    assert forall|q: int| 0 <= q < r.len() implies (#[trigger] r[q]).id < pre.hes@.len() by {}
                    lemma_loop_kept(pre.hes@, self.hes@, st.id as int, r);
                }
                assert forall|j: int| 0 <= j < m0.nh() implies same_but_rad(#[trigger] self.hes@[j], m0.hes@[j]) by {
                    assert(same_but_rad(pre.hes@[j], m0.hes@[j]));
                }
                assert forall|j: int| 0 <= j < m0.ne() implies same_edge_but_rep(m0.edges@[j], #[trigger] self.edges@[j]) by {
                    assert(same_edge_but_rep(m0.edges@[j], pre.edges@[j]));
                    assert(same_edge_but_rep(pre.edges@[j], self.edges@[j]));
                }
            }
            inner_starts.push(st);
            i = i + 1;
        }
        assert(loops_view(holes@).subrange(0, nh_holes as int) =~= loops_view(holes@));
        let ghost after = *self;
        self.faces.push(Some(Face { outer: start, inners: inner_starts, normal, material, surface: crate::mesh::SurfaceKind::Plane, active: true }));
        proof {
            let fc = self.faces@[fid as int].unwrap();
            assert(fc.inners@ == inner_starts@);
            assert forall|q: int| 0 <= q < fc.inners@.len() implies #[trigger] loop_ref_ok(fc.inners@[q], after.nh()) by {
                assert(holes@[q]@.len() >= 3) by {
                    assert(!ring_degenerate(outer@, loops_view(holes@)));
                }
            }
            assert(face_refs_ok(fc, after.nh()));
            assert(self.faces@.subrange(0, fid as int) =~= after.faces@);
            lemma_building_push_face(&after, self, base0 as int);
            let ob = range_ids(base0 as int, n0 as int);
            lemma_loop_of_is_loop_seq(self.hes@, base0 as int, ob);
            assert forall|t: int| 0 <= t < holes@.len() implies loop_visits(self, #[trigger] self.face(FaceId { id: fid as u32 }).inners@[t], holes@[t]@) by {
                let st = inner_starts@[t];
                let r = range_ids(st.id as int, holes@[t]@.len() as int);
                assert(self.face(FaceId { id: fid as u32 }).inners@[t] == st);
                lemma_loop_of_is_loop_seq(self.hes@, st.id as int, r);
            }
        }
        Ok(FaceId { id: fid as u32 })
    }
}

} // verus!
