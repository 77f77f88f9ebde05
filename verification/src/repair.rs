//! Topology repair: find edges shared by more than two active faces and
//! separate the extra faces by giving them their own copies of the shared
//! vertices.
use vstd::prelude::*;
use vstd::string::*;

use crate::fxhash::{fx_map_get, fx_map_insert, fx_map_len, fx_map_new, fx_set_insert, fx_set_intersection, fx_set_new};
use crate::ids::{EdgeId, FaceId, VertId, NULL_RAW};
use crate::mesh::{
    closes_at, dsts_of, faces_met, has_loop, he_refs_ok, is_loop_of, lemma_loop_of_is_loop_seq, lemma_walk_in_range, loop_len, loop_seq,
    loop_verts_ok, rad_steps, walk, Mesh, MeshError, Vertex,
};
use crate::ring::loop_visits;
use crate::text::{decimal, push_decimal};

verus! {

/// An edge with more than two active faces, and those faces.
#[derive(Debug, Clone)]
pub struct NonManifoldEdge {
    pub edge: EdgeId,
    pub faces: Vec<FaceId>,
}

/// What `repair_non_manifold_edges_geometric` did.
#[derive(Debug, Clone)]
pub struct RepairReport {
    pub edges_examined: usize,
    pub edges_repaired: usize,
    /// Edges that could not be repaired, with the reason.
    pub edges_skipped: Vec<(EdgeId, String)>,
    pub faces_detached: usize,
    pub vertices_created: usize,
}

/// The text of `RepairReport::summary`.
pub open spec fn repair_summary_text(
    examined: nat,
    repaired: nat,
    skipped: nat,
    detached: nat,
    created: nat,
) -> Seq<char> {
    "examined "@ + decimal(examined) + " edges, repaired "@ + decimal(repaired) + ", skipped "@
        + decimal(skipped) + ", faces detached "@ + decimal(detached) + ", verts created "@
        + decimal(created)
}

impl RepairReport {
    /// An empty report.
    pub fn new() -> (r: RepairReport)
        ensures
            r.edges_examined == 0,
            r.edges_repaired == 0,
            r.edges_skipped@.len() == 0,
            r.faces_detached == 0,
            r.vertices_created == 0,
    {
        RepairReport {
            edges_examined: 0,
            edges_repaired: 0,
            edges_skipped: Vec::new(),
            faces_detached: 0,
            vertices_created: 0,
        }
    }

    /// No edge was skipped.
    pub fn is_clean(&self) -> (b: bool)
        ensures
            b == (self.edges_skipped@.len() == 0),
    {
        self.edges_skipped.len() == 0
    }

    /// One line: "examined E edges, repaired R, skipped S, faces detached F,
    /// verts created V".
    pub fn summary(&self) -> (s: String)
        ensures
            s@ == repair_summary_text(
                self.edges_examined as nat,
                self.edges_repaired as nat,
                self.edges_skipped@.len(),
                self.faces_detached as nat,
                self.vertices_created as nat,
            ),
    {
        let mut s = String::from_str("examined ");
        push_decimal(&mut s, self.edges_examined);
        s.append(" edges, repaired ");
        push_decimal(&mut s, self.edges_repaired);
        s.append(", skipped ");
        push_decimal(&mut s, self.edges_skipped.len());
        s.append(", faces detached ");
        push_decimal(&mut s, self.faces_detached);
        s.append(", verts created ");
        push_decimal(&mut s, self.vertices_created);
        proof {
            reveal_strlit("examined ");
            reveal_strlit(" edges, repaired ");
            reveal_strlit(", skipped ");
            reveal_strlit(", faces detached ");
            reveal_strlit(", verts created ");
        }
        assert(s@ =~= repair_summary_text(
            self.edges_examined as nat,
            self.edges_repaired as nat,
            self.edges_skipped@.len(),
            self.faces_detached as nat,
            self.vertices_created as nat,
        ));
        s
    }
}

// ───────────────────────── finding non-manifold edges ─────────────────────────

/// The distinct active faces on edge `e`, as `get_faces_sharing_edge` lists
/// them.
pub open spec fn edge_faces(m: &Mesh, e: int) -> Seq<FaceId> {
    faces_met(m, m.edges@[e].any_he.id as int, rad_steps(m.hes@, m.edges@[e].any_he.id as int, m.nh() as nat))
}

/// Edge `e` is active and has more than two active faces.
pub open spec fn is_non_manifold(m: &Mesh, e: int) -> bool {
    m.edges@[e].active && edge_faces(m, e).len() > 2
}

/// The non-manifold edges among the first `k` edges, in index order.
pub open spec fn non_manifold_upto(m: &Mesh, k: nat) -> Seq<EdgeId>
    decreases k,
{
    if k == 0 {
        Seq::empty()
    } else {
        let prev = non_manifold_upto(m, (k - 1) as nat);
        if is_non_manifold(m, k - 1) {
            prev.push(EdgeId { id: (k - 1) as u32 })
        } else {
            prev
        }
    }
}

/// All non-manifold edges of `m`, in index order.
pub open spec fn non_manifold_edges(m: &Mesh) -> Seq<EdgeId> {
    non_manifold_upto(m, m.ne() as nat)
}

proof fn lemma_non_manifold_upto_len(m: &Mesh, k: nat)
    ensures
        non_manifold_upto(m, k).len() <= k,
    decreases k,
{
    if k > 0 {
        lemma_non_manifold_upto_len(m, (k - 1) as nat);
    }
}

impl Mesh {
    /// Every active edge with more than two active incident faces, in edge
    /// order, with those faces.
    pub fn find_non_manifold_edges(&self) -> (res: Vec<NonManifoldEdge>)
        requires
            self.wf(),
        ensures
            res@.len() == non_manifold_edges(self).len(),
            forall|i: int|
                0 <= i < res@.len() ==> (#[trigger] res@[i]).edge == non_manifold_edges(self)[i]
                    && res@[i].faces@ == edge_faces(self, res@[i].edge.id as int),
    {
        let mut out: Vec<NonManifoldEdge> = Vec::new();
        let mut e: usize = 0;
        while e < self.edges.len()
            invariant
                self.wf(),
                0 <= e <= self.ne(),
                out@.len() == non_manifold_upto(self, e as nat).len(),
                forall|i: int|
                    0 <= i < out@.len() ==> (#[trigger] out@[i]).edge == non_manifold_upto(self, e as nat)[i]
                        && out@[i].faces@ == edge_faces(self, out@[i].edge.id as int),
            decreases self.ne() - e,
        {
            let ghost pre = out@;
            if self.edges[e].active {
                let faces = self.get_faces_sharing_edge(EdgeId { id: e as u32 });
                if faces.len() > 2 {
                    out.push(NonManifoldEdge { edge: EdgeId { id: e as u32 }, faces });
                }
            }
            proof {
                let k = (e + 1) as nat;
                assert forall|i: int|
                    0 <= i < out@.len() implies (#[trigger] out@[i]).edge == non_manifold_upto(self, k)[i]
                        && out@[i].faces@ == edge_faces(self, out@[i].edge.id as int) by {
                    if i < pre.len() {
                        assert(out@[i] == pre[i]);
                    }
                }
            }
            e = e + 1;
        }
        out
    }
}


// ───────────────────────── detaching face groups ─────────────────────────

/// The raw ids of the vertices on the outer loop of face `f`, or nothing if
/// `f` is not an active face.
pub open spec fn face_vert_set(m: &Mesh, f: FaceId) -> Set<u32> {
    if m.face_active(f) {
        dsts_of(m.hes@, loop_seq(m.hes@, m.face(f).outer.id as int)).map_values(|v: VertId| v.id).to_set()
    } else {
        Set::empty()
    }
}

/// The raw ids of the vertices on the outer loops of the active faces in `g`.
pub open spec fn group_verts(m: &Mesh, g: Seq<FaceId>) -> Set<u32>
    decreases g.len(),
{
    if g.len() == 0 {
        Set::empty()
    } else {
        group_verts(m, g.drop_last()).union(face_vert_set(m, g.last()))
    }
}

/// The outer loops of all active faces in `g` are loops.
pub open spec fn group_loops_ok(m: &Mesh, g: Seq<FaceId>) -> bool {
    forall|i: int| 0 <= i < g.len() && m.face_active(#[trigger] g[i]) ==> has_loop(m.hes@, m.face(g[i]).outer.id as int)
}

/// Each entry `(o, n)` names a face of `b`; either it was left as it is
/// (`n == o`), or `o` was retired and `n` is a face added by the operation.
pub open spec fn mapping_ok(m0: &Mesh, m: &Mesh, b: Seq<FaceId>, mapping: Seq<(FaceId, FaceId)>) -> bool {
    forall|i: int|
        0 <= i < mapping.len() ==> {
            let (o, n) = #[trigger] mapping[i];
            &&& b.contains(o)
            &&& (n == o || ((n.id as int) >= m0.nf() && m.has_face(n) && m.has_face(o) && !m.face(o).active))
        }
}

/// The half-edges of `m0` keep their `next` and destination in `m1`.
pub open spec fn links_kept(m0: &Mesh, m1: &Mesh) -> bool {
    &&& m0.nh() <= m1.nh()
    &&& forall|j: int| 0 <= j < m0.nh() ==> (#[trigger] m1.hes@[j]).next == m0.hes@[j].next && m1.hes@[j].dst == m0.hes@[j].dst
}

/// Walking from a half-edge of `m0` goes the same way in `m1`.
proof fn lemma_walk_links(m0: &Mesh, m1: &Mesh, s: int, k: nat)
    requires
        m0.wf(),
        0 <= s < m0.nh(),
        links_kept(m0, m1),
    ensures
        walk(m1.hes@, s, k) == walk(m0.hes@, s, k),
    decreases k,
{
    if k > 0 {
        lemma_walk_links(m0, m1, s, (k - 1) as nat);
        lemma_walk_in_range(m0, s, (k - 1) as nat);
    }
}

/// A loop of `m0` is the same loop, with the same vertices, in `m1`.
pub(crate) proof fn lemma_loop_links(m0: &Mesh, m1: &Mesh, s: int)
    requires
        m0.wf(),
        has_loop(m0.hes@, s),
        links_kept(m0, m1),
    ensures
        has_loop(m1.hes@, s),
        loop_seq(m1.hes@, s) == loop_seq(m0.hes@, s),
        dsts_of(m1.hes@, loop_seq(m1.hes@, s)) == dsts_of(m0.hes@, loop_seq(m0.hes@, s)),
{
    let v = loop_seq(m0.hes@, s);
    let k = loop_len(m0.hes@, s);
    assert(k <= m0.nh() && closes_at(m0.hes@, s, k));
    assert forall|t: nat| t <= k implies walk(m1.hes@, s, t) == walk(m0.hes@, s, t) by {
        lemma_walk_links(m0, m1, s, t);
    }
    assert(closes_at(m1.hes@, s, k));
    assert(is_loop_of(m1.hes@, s, v));
    lemma_loop_of_is_loop_seq(m1.hes@, s, v);
    assert forall|i: int| 0 <= i < v.len() implies #[trigger] dsts_of(m1.hes@, v)[i] == dsts_of(m0.hes@, v)[i] by {
        lemma_walk_in_range(m0, s, i as nat);
    }
    assert(dsts_of(m1.hes@, v) =~= dsts_of(m0.hes@, v));
}

/// Every face of a group contributes its vertices to the group's set.
proof fn lemma_group_verts_has(m: &Mesh, g: Seq<FaceId>, i: int)
    requires
        0 <= i < g.len(),
    ensures
        face_vert_set(m, g[i]).subset_of(group_verts(m, g)),
    decreases g.len(),
{
    if i < g.len() - 1 {
        lemma_group_verts_has(m, g.drop_last(), i);
        assert(g.drop_last()[i] == g[i]);
    }
}

/// The vertex ids of a group whose loops are loops are vertices of `m`.
proof fn lemma_group_verts_bound(m: &Mesh, g: Seq<FaceId>)
    requires
        m.wf(),
        group_loops_ok(m, g),
    ensures
        forall|x: u32| group_verts(m, g).contains(x) ==> (x as int) < m.nv(),
    decreases g.len(),
{
    if g.len() > 0 {
        let gd = g.drop_last();
        assert(group_loops_ok(m, gd)) by {
            assert forall|i: int| 0 <= i < gd.len() && m.face_active(#[trigger] gd[i]) implies has_loop(m.hes@, m.face(gd[i]).outer.id as int) by {
                assert(gd[i] == g[i]);
            }
        }
        lemma_group_verts_bound(m, gd);
        let f = g.last();
        assert(group_verts(m, g) == group_verts(m, gd).union(face_vert_set(m, f)));
        if m.face_active(f) {
            assert(g[g.len() - 1] == f);
            let s = m.face(f).outer.id as int;
            let v = loop_seq(m.hes@, s);
            assert(has_loop(m.hes@, s));
            assert forall|x: u32| face_vert_set(m, f).contains(x) implies (x as int) < m.nv() by {
                let ids = dsts_of(m.hes@, v).map_values(|w: VertId| w.id);
                assert(ids.to_set().contains(x));
                let q = choose|q: int| 0 <= q < ids.len() && ids[q] == x;
                lemma_walk_in_range(m, s, q as nat);
                assert(he_refs_ok(m.hes@[walk(m.hes@, s, q as nat)], m.nv(), m.nh(), m.ne(), m.nf()));
            }
        }
    }
}

/// The outer-loop vertices of face `f` (meaningful when they form a loop).
pub open spec fn outer_loop_of(m: &Mesh, f: FaceId) -> Seq<VertId> {
    dsts_of(m.hes@, loop_seq(m.hes@, m.face(f).outer.id as int))
}

/// Vertex id `order[k]` has the copy `nv0 + k`.
pub open spec fn copy_map(order: Seq<u32>, nv0: int) -> Map<u32, u32> {
    Map::new(|x: u32| order.contains(x), |x: u32| (nv0 + order.index_of(x)) as u32)
}

/// `vs` with each vertex that has a copy replaced by its copy.
pub open spec fn subst_verts(vs: Seq<VertId>, copies: Map<u32, u32>) -> Seq<VertId> {
    vs.map_values(|v: VertId| if copies.dom().contains(v.id) { VertId { id: copies[v.id] } } else { v })
}

/// What detaching recorded as `(o, n)` for a face `o` of the original mesh
/// `m0`: `o` was active with a closing outer loop; if left alone (`n == o`)
/// none of its vertices has a copy and its outer loop is as it was;
/// otherwise the outer loop of `n` visits that of `o` with each vertex that
/// has a copy replaced by the copy.
pub open spec fn detached_ok(m0: &Mesh, m: &Mesh, copies: Map<u32, u32>, o: FaceId, n: FaceId) -> bool {
    (o.id as int) < m0.nf() ==> {
        &&& m0.face_active(o)
        &&& has_loop(m0.hes@, m0.face(o).outer.id as int)
        &&& m.has_face(n)
        &&& n == o ==> forall|v: VertId| outer_loop_of(m0, o).contains(v) ==> !copies.dom().contains(v.id)
        &&& loop_visits(
            m,
            m.face(n).outer,
            if n == o {
                outer_loop_of(m0, o)
            } else {
                subst_verts(outer_loop_of(m0, o), copies)
            },
        )
    }
}

/// The outer loop of face `f` closes and uses no vertex id of `a`.
pub open spec fn avoids(m: &Mesh, f: FaceId, a: Set<u32>) -> bool {
    &&& has_loop(m.hes@, m.face(f).outer.id as int)
    &&& forall|v: VertId| outer_loop_of(m, f).contains(v) ==> !a.contains(v.id)
}

/// Face slots of `m0` stay stored in `m` with the same outer loop start,
/// and unchanged while active.
pub open spec fn faces_kept_outer(m0: &Mesh, m: &Mesh) -> bool {
    &&& m.faces@.len() >= m0.faces@.len()
    &&& forall|j: int| 0 <= j < m0.nf() ==> (#[trigger] m.faces@[j]).is_some() == m0.faces@[j].is_some()
    &&& forall|j: int|
        0 <= j < m0.nf() && (#[trigger] m0.faces@[j]).is_some() ==> {
            &&& m.faces@[j].is_some()
            &&& m.faces@[j].unwrap().outer == m0.faces@[j].unwrap().outer
            &&& m.faces@[j].unwrap().active ==> m.faces@[j] == m0.faces@[j]
        }
}

/// The sum of the outer-loop lengths of the active faces of `b` in `m0`,
/// counted once per entry.
pub open spec fn outer_total(m0: &Mesh, b: Seq<FaceId>) -> nat
    decreases b.len(),
{
    if b.len() == 0 {
        0
    } else {
        outer_total(m0, b.drop_last()) + if m0.face_active(b.last()) {
            outer_loop_of(m0, b.last()).len()
        } else {
            0
        }
    }
}

/// One more entry adds its face's outer-loop length.
proof fn lemma_outer_total_step(m0: &Mesh, b: Seq<FaceId>, i: int)
    requires
        0 <= i < b.len(),
    ensures
        outer_total(m0, b.subrange(0, i + 1)) == outer_total(m0, b.subrange(0, i)) + if m0.face_active(b[i]) {
            outer_loop_of(m0, b[i]).len()
        } else {
            0
        },
{
    assert(b.subrange(0, i + 1).drop_last() =~= b.subrange(0, i));
}

/// A prefix of `b` adds up to no more than a longer one.
proof fn lemma_outer_total_prefix(m0: &Mesh, b: Seq<FaceId>, i: int, j: int)
    requires
        0 <= i <= j <= b.len(),
    ensures
        outer_total(m0, b.subrange(0, i)) <= outer_total(m0, b.subrange(0, j)),
    decreases j - i,
{
    if i < j {
        lemma_outer_total_prefix(m0, b, i, j - 1);
        lemma_outer_total_step(m0, b, j - 1);
    }
}

/// What can make `detach_face_groups` on `m0` fail: an outer loop of
/// either group does not close; an id of `b` does not name a face of `m0`;
/// the outer loop of an active face of `b` is not a valid face loop; or an
/// arena has no room for the copies of the shared vertices, or for the
/// copies of all outer loops of `b` and a face per entry of `b`.
pub open spec fn detach_blocked(m0: &Mesh, a: Seq<FaceId>, b: Seq<FaceId>) -> bool {
    ||| !group_loops_ok(m0, a)
    ||| !group_loops_ok(m0, b)
    ||| exists|q: int| 0 <= q < b.len() && (#[trigger] b[q]).id as int >= m0.nf()
    ||| exists|q: int| 0 <= q < b.len() && m0.face_active(#[trigger] b[q]) && !loop_verts_ok(m0, outer_loop_of(m0, b[q]))
    ||| m0.nv() + group_verts(m0, a).intersect(group_verts(m0, b)).len() >= NULL_RAW
    ||| m0.nh() + outer_total(m0, b) >= NULL_RAW
    ||| m0.ne() + outer_total(m0, b) >= NULL_RAW
    ||| m0.nf() + b.len() >= NULL_RAW
}

/// Substituting fresh, active copies (numbered `nv0` on, in the order of
/// `order`) for vertices of a valid face loop of `m0` gives a valid face
/// loop of `m`.
proof fn lemma_subst_ok(m0: &Mesh, m: &Mesh, vs: Seq<VertId>, order: Seq<u32>, nv0: int)
    requires
        loop_verts_ok(m0, vs),
        order.no_duplicates(),
        nv0 == m0.nv(),
        nv0 + order.len() <= 0x1_0000_0000,
        m.nv() >= nv0 + order.len(),
        forall|j: int| 0 <= j < nv0 ==> #[trigger] m.verts@[j] == m0.verts@[j],
        forall|q: int| 0 <= q < order.len() ==> (#[trigger] m.verts@[nv0 + q]).active,
    ensures
        loop_verts_ok(m, subst_verts(vs, copy_map(order, nv0))),
{
    let cm = copy_map(order, nv0);
    let w = subst_verts(vs, cm);
    let n = vs.len() as int;
    assert forall|i: int| 0 <= i < n implies {
        &&& (#[trigger] w[i]).id < m.nv()
        &&& m.verts@[w[i].id as int].active
        &&& cm.dom().contains(vs[i].id) ==> w[i].id == nv0 + order.index_of(vs[i].id) && 0 <= order.index_of(vs[i].id) < order.len()
            && order[order.index_of(vs[i].id)] == vs[i].id
        &&& !cm.dom().contains(vs[i].id) ==> w[i] == vs[i] && vs[i].id < nv0
    } by {
        assert(vs[i].id < m0.nv() && m0.verts@[vs[i].id as int].active);
        if cm.dom().contains(vs[i].id) {
            let x = vs[i].id;
            assert(order.contains(x));
            let ix = order.index_of(x);
            assert(m.verts@[nv0 + ix].active);
        } else {
            assert(m.verts@[vs[i].id as int] == m0.verts@[vs[i].id as int]);
        }
    }
    assert forall|i: int| 0 <= i < n implies #[trigger] w[i] != w[(i + 1) % n] by {
        let j = (i + 1) % n;
        assert(0 <= j < n);
        assert(vs[i] != vs[j]);
        assert(w[i].id < m.nv() && w[j].id < m.nv());
        if cm.dom().contains(vs[i].id) && cm.dom().contains(vs[j].id) {
            let xi = order.index_of(vs[i].id);
            let xj = order.index_of(vs[j].id);
            if xi == xj {
                assert(vs[i].id == vs[j].id);
            }
        }
    }
}

impl Mesh {
    /// Add the raw ids of the outer-loop vertices of face `f` (if active)
    /// to `set`.
    fn insert_face_verts(&self, set: &mut rustc_hash::FxHashSet<u32>, f: FaceId) -> (res: Result<(), MeshError>)
        requires
            self.wf(),
        ensures
            res is Ok <==> (!self.face_active(f) || has_loop(self.hes@, self.face(f).outer.id as int)),
            res is Ok ==> final(set)@ == old(set)@.union(face_vert_set(self, f)),
    {
        let idx = f.id as usize;
        if idx >= self.faces.len() {
            assert(face_vert_set(self, f) =~= Set::<u32>::empty());
            assert(old(set)@.union(Set::<u32>::empty()) =~= old(set)@);
            return Ok(());
        }
        let outer = match &self.faces[idx] {
            Some(fc) => {
                if !fc.active {
                    assert(face_vert_set(self, f) =~= Set::<u32>::empty());
                    assert(old(set)@.union(Set::<u32>::empty()) =~= old(set)@);
                    return Ok(());
                }
                fc.outer
            },
            None => {
                assert(face_vert_set(self, f) =~= Set::<u32>::empty());
                assert(old(set)@.union(Set::<u32>::empty()) =~= old(set)@);
                return Ok(());
            },
        };
        let vs = self.collect_loop_verts(outer)?;
        let ghost ids = vs@.map_values(|v: VertId| v.id);
        let mut i: usize = 0;
        while i < vs.len()
            invariant
                0 <= i <= vs@.len(),
                ids == vs@.map_values(|v: VertId| v.id),
                set@ == old(set)@.union(ids.subrange(0, i as int).to_set()),
            decreases vs@.len() - i,
        {
            fx_set_insert(set, vs[i].id);
            i = i + 1;
            proof {
                let cur = ids.subrange(0, i as int);
                let prv = ids.subrange(0, i as int - 1);
                assert(cur =~= prv.push(vs@[i - 1].id));
                assert(cur.to_set() =~= prv.to_set().insert(vs@[i - 1].id)) by {
                    prv.lemma_push_to_set_commute(vs@[i - 1].id);
                }
                assert(set@ =~= old(set)@.union(cur.to_set()));
            }
        }
        assert(ids.subrange(0, vs@.len() as int) =~= ids);
        Ok(())
    }

    /// Add the outer-loop vertices of every active face of `g` to `set`.
    fn collect_group_verts(&self, g: &[FaceId]) -> (res: Result<rustc_hash::FxHashSet<u32>, MeshError>)
        requires
            self.wf(),
        ensures
            res is Ok <==> group_loops_ok(self, g@),
            match res {
                Ok(s) => s@ == group_verts(self, g@),
                Err(_) => true,
            },
    {
        let mut set = fx_set_new();
        let mut i: usize = 0;
        while i < g.len()
            invariant
                self.wf(),
                0 <= i <= g@.len(),
                set@ == group_verts(self, g@.subrange(0, i as int)),
                group_loops_ok(self, g@.subrange(0, i as int)),
            decreases g@.len() - i,
        {
            let r = self.insert_face_verts(&mut set, g[i]);
            if r.is_err() {
                proof {
                    assert(!group_loops_ok(self, g@)) by {
                        assert(self.face_active(g@[i as int]));
                    }
                }
                return Err(MeshError::BrokenLoop);
            }
            proof {
                let sub = g@.subrange(0, i as int + 1);
                assert(sub.drop_last() =~= g@.subrange(0, i as int));
                assert(sub.last() == g@[i as int]);
                assert forall|q: int| 0 <= q < sub.len() && self.face_active(#[trigger] sub[q]) implies has_loop(self.hes@, self.face(sub[q]).outer.id as int) by {
                    if q < i {
                        assert(sub[q] == g@.subrange(0, i as int)[q]);
                    }
                }
            }
            i = i + 1;
        }
        assert(g@.subrange(0, g@.len() as int) =~= g@);
        Ok(set)
    }

    /// Separate the faces of `group_b` from those of `group_a`: every vertex
    /// on the outer loops of both groups gets a fresh copy, and every active
    /// face of `group_b` whose outer loop uses such a vertex is removed and
    /// re-added with the copies substituted (same normal and material).
    /// Returns `(old, new)` face ids for the active faces of `group_b`
    /// (`old == new` when the face was left alone) and the number of
    /// vertices created.
    pub fn detach_face_groups(&mut self, group_a: &[FaceId], group_b: &[FaceId]) -> (res: Result<(Vec<(FaceId, FaceId)>, usize), MeshError>)
        requires
            old(self).wf(),
        ensures
            final(self).wf(),
            final(self).nv() >= old(self).nv(),
            !group_loops_ok(old(self), group_a@) ==> res is Err && crate::orient::unchanged(old(self), final(self)),
            !group_loops_ok(old(self), group_b@) ==> res is Err && crate::orient::unchanged(old(self), final(self)),
            res is Err ==> detach_blocked(old(self), group_a@, group_b@),
            match res {
                Ok((mapping, created)) => {
                    let shared = group_verts(old(self), group_a@).intersect(group_verts(old(self), group_b@));
                    &&& group_loops_ok(old(self), group_a@)
                    &&& group_loops_ok(old(self), group_b@)
                    &&& created == shared.len()
                    &&& final(self).nv() == old(self).nv() + created
                    &&& forall|j: int| 0 <= j < old(self).nv() ==> #[trigger] final(self).verts@[j] == old(self).verts@[j]
                    &&& exists|order: Seq<u32>|
                        #![trigger order.to_set()]
                        order.no_duplicates() && order.to_set() == shared && order.len() == created
                            && forall|k: int| 0 <= k < order.len() ==> #[trigger] final(self).verts@[old(self).nv() + k]
                                == (Vertex { pos: old(self).verts@[order[k] as int].pos, active: true })
                            && forall|q: int| 0 <= q < mapping@.len() ==> detached_ok(
                                old(self),
                                final(self),
                                copy_map(order, old(self).nv() as int),
                                (#[trigger] mapping@[q]).0,
                                mapping@[q].1,
                            )
                    &&& mapping@.len() <= group_b@.len()
                    &&& group_b@.len() == 1 && old(self).face_active(group_b@[0]) ==> mapping@.len() == 1 && mapping@[0].0 == group_b@[0]
                    &&& mapping_ok(old(self), final(self), group_b@, mapping@)
                    &&& forall|q: int| 0 <= q < mapping@.len() && ((#[trigger] mapping@[q]).0.id as int) < old(self).nf() ==> avoids(
                        final(self),
                        mapping@[q].1,
                        group_verts(old(self), group_a@),
                    )
                },
                Err(_) => true,
            },
    {
        let ghost m0 = *self;
        let verts_a = self.collect_group_verts(group_a)?;
        let verts_b = self.collect_group_verts(group_b)?;
        let shared = fx_set_intersection(&verts_a, &verts_b);
        let ghost order = shared@;
        proof {
            order.unique_seq_to_set();
            lemma_group_verts_bound(&m0, group_a@);
            assert forall|q: int| 0 <= q < order.len() implies (#[trigger] order[q] as int) < m0.nv() by {
                assert(order.to_set().contains(order[q]));
            }
            assert(order.len() == group_verts(&m0, group_a@).intersect(group_verts(&m0, group_b@)).len());
        }
        let mut dup = fx_map_new();
        let nv0 = self.verts.len();
        let mut k: usize = 0;
        while k < shared.len()
            invariant
                self.wf(),
                m0.wf(),
                m0 == *old(self),
                group_loops_ok(&m0, group_a@),
                group_loops_ok(&m0, group_b@),
                0 <= k <= shared@.len(),
                order == shared@,
                order.no_duplicates(),
                nv0 == m0.nv(),
                self.nv() == nv0 + k,
                self.hes@ == m0.hes@,
                self.edges@ == m0.edges@,
                self.faces@ == m0.faces@,
                self.sphere_path_b == m0.sphere_path_b,
                self.cylinder_path_b == m0.cylinder_path_b,
                self.cone_path_b == m0.cone_path_b,
                forall|j: int| 0 <= j < nv0 ==> #[trigger] self.verts@[j] == m0.verts@[j],
                forall|q: int| 0 <= q < k ==> (#[trigger] order[q] as int) < nv0 && self.verts@[nv0 + q] == (Vertex { pos: m0.verts@[order[q] as int].pos, active: true }),
                forall|q: int| 0 <= q < order.len() ==> (#[trigger] order[q] as int) < nv0,
                nv0 + k <= 0x1_0000_0000,
                order.len() == group_verts(&m0, group_a@).intersect(group_verts(&m0, group_b@)).len(),
                dup@.dom() == order.subrange(0, k as int).to_set(),
                forall|q: int| 0 <= q < k ==> #[trigger] dup@[order[q]] == (nv0 + q) as u32,
                dup@.len() == k,
            decreases shared@.len() - k,
        {
            let v = shared[k];
            if v as usize >= self.verts.len() || v as usize >= nv0 {
                return Err(MeshError::BadVertex);
            }
            let p = self.verts[v as usize].pos;
            let ghost pre_dom = dup@.dom();
            let v2 = self.add_vertex(p)?;
            fx_map_insert(&mut dup, v, v2.id);
            proof {
                assert(!order.subrange(0, k as int).to_set().contains(v)) by {
                    let cur = order.subrange(0, k as int);
                    if cur.to_set().contains(v) {
                        let q = choose|q: int| 0 <= q < cur.len() && #[trigger] cur[q] == v;
                        assert(order[q] == order[k as int]);
                    }
                }
                let nxt = order.subrange(0, k as int + 1);
                let cur = order.subrange(0, k as int);
                assert(nxt =~= cur.push(v));
                cur.lemma_push_to_set_commute(v);
                assert(nxt.to_set() =~= cur.to_set().insert(v));
                assert forall|q: int| 0 <= q < k + 1 implies #[trigger] dup@[order[q]] == (nv0 + q) as u32 by {
                    if q < k {
                        assert(order[q] != v);
                    }
                }
                assert(dup@.len() == k + 1) by {
                    assert(!pre_dom.contains(v));
                }
            }
            k = k + 1;
        }
        let created = fx_map_len(&dup);
        assert(order.subrange(0, order.len() as int) =~= order);
        let ghost m1 = *self;
        let ghost cm = copy_map(order, nv0 as int);
        proof {
            assert forall|x: u32| #[trigger] dup@.dom().contains(x) == cm.dom().contains(x) by {
                assert(order.to_set().contains(x) == order.contains(x));
            }
            assert forall|x: u32| cm.dom().contains(x) implies #[trigger] dup@[x] == cm[x] by {
                let q = choose|q: int| 0 <= q < order.len() && order[q] == x;
                let i = order.index_of(x);
                assert(0 <= i < order.len() && order[i] == x);
                assert(i == q);
                assert(dup@[order[q]] == (nv0 + q) as u32);
            }
            assert(dup@ =~= cm);
            assert forall|q: int| 0 <= q < order.len() implies (#[trigger] m1.verts@[nv0 + q]).active by {
                assert((order[q] as int) < nv0);
            }
        }
        let mut mapping: Vec<(FaceId, FaceId)> = Vec::new();
        let mut i: usize = 0;
        while i < group_b.len()
            invariant
                self.wf(),
                m0.wf(),
                m0 == *old(self),
                group_loops_ok(&m0, group_a@),
                group_loops_ok(&m0, group_b@),
                0 <= i <= group_b@.len(),
                mapping@.len() <= i,
                mapping_ok(&m0, self, group_b@, mapping@),
                self.verts@ == m1.verts@,
                m1.nv() >= m0.nv(),
                self.faces@.len() >= m0.faces@.len(),
                dup@ == cm,
                links_kept(&m0, self),
                faces_kept_outer(&m0, self),
                forall|q: int| 0 <= q < mapping@.len() ==> detached_ok(&m0, self, cm, (#[trigger] mapping@[q]).0, mapping@[q].1),
                cm == copy_map(order, nv0 as int),
                order.no_duplicates(),
                nv0 == m0.nv(),
                nv0 + order.len() <= 0x1_0000_0000,
                m1.nv() == nv0 + order.len(),
                forall|j: int| 0 <= j < nv0 ==> #[trigger] m1.verts@[j] == m0.verts@[j],
                forall|q: int| 0 <= q < order.len() ==> (#[trigger] m1.verts@[nv0 + q]).active,
                self.nf() <= m0.nf() + i,
                (forall|q: int| 0 <= q < i ==> (#[trigger] group_b@[q]).id < m0.nf()) ==> self.nh() <= m0.nh() + outer_total(
                    &m0,
                    group_b@.subrange(0, i as int),
                ) && self.ne() <= m0.ne() + outer_total(&m0, group_b@.subrange(0, i as int)),
                i == 0 ==> self.faces@ == m0.faces@,
                group_b@.len() == 1 && i == 1 && m0.face_active(group_b@[0]) ==> mapping@.len() == 1 && mapping@[0].0 == group_b@[0],
            decreases group_b@.len() - i,
        {
            let fid = group_b[i];
            let ghost pre = *self;
            proof {
                lemma_outer_total_step(&m0, group_b@, i as int);
                lemma_outer_total_prefix(&m0, group_b@, i as int + 1, group_b@.len() as int);
                assert(group_b@.subrange(0, group_b@.len() as int) =~= group_b@);
                assert(group_b@[i as int] == fid);
            }
            let idx = fid.id as usize;
            if idx >= self.faces.len() {
                i = i + 1;
                continue;
            }
            let (outer, mat, normal) = match &self.faces[idx] {
                Some(fc) => {
                    if !fc.active {
                        i = i + 1;
                        continue;
                    }
                    (fc.outer, fc.material, fc.normal)
                },
                None => {
                    i = i + 1;
                    continue;
                },
            };
            proof {
                assert(group_b@[i as int] == fid);
                if (idx as int) < m0.nf() {
                    assert(m0.faces@[idx as int].is_some());
                    assert(self.faces@[idx as int] == m0.faces@[idx as int]);
                    lemma_loop_links(&m0, self, outer.id as int);
                }
            }
            let loop_verts = self.collect_loop_verts(outer)?;
            proof {
                if (idx as int) < m0.nf() {
                    assert(m0.faces@[idx as int].is_some());
                    assert(self.faces@[idx as int] == m0.faces@[idx as int]);
                    assert(m0.face_active(fid));
                    assert(group_b@[i as int] == fid);
                    assert(has_loop(m0.hes@, m0.face(fid).outer.id as int));
                    lemma_loop_links(&m0, self, outer.id as int);
                    assert(loop_verts@ == outer_loop_of(&m0, fid));
                }
            }
            let mut substituted: Vec<VertId> = Vec::new();
            let mut touched = false;
            let mut j: usize = 0;
            while j < loop_verts.len()
                invariant
                    0 <= j <= loop_verts@.len(),
                    dup@ == cm,
                    substituted@ == subst_verts(loop_verts@.subrange(0, j as int), cm),
                    touched <==> exists|k: int| 0 <= k < j && cm.dom().contains(#[trigger] loop_verts@[k].id),
                decreases loop_verts@.len() - j,
            {
                let v = loop_verts[j];
                let ghost pre_s = substituted@;
                match fx_map_get(&dup, v.id) {
                    Some(n) => {
                        substituted.push(VertId { id: n });
                        touched = true;
                    },
                    None => {
                        substituted.push(v);
                    },
                }
                proof {
                    assert(loop_verts@.subrange(0, j as int + 1) =~= loop_verts@.subrange(0, j as int).push(v));
                    assert(substituted@ =~= subst_verts(loop_verts@.subrange(0, j as int + 1), cm));
                    if cm.dom().contains(v.id) {
                        assert(cm.dom().contains(loop_verts@[j as int].id));
                    }
                }
                j = j + 1;
            }
            proof {
                assert(loop_verts@.subrange(0, loop_verts@.len() as int) =~= loop_verts@);
            }
            if !touched {
                mapping.push((fid, fid));
                proof {
                    assert(group_b@[i as int] == fid);
                    assert forall|q: int| 0 <= q < mapping@.len() implies {
                        let (o, n) = #[trigger] mapping@[q];
                        &&& group_b@.contains(o)
                        &&& (n == o || ((n.id as int) >= m0.nf() && self.has_face(n) && self.has_face(o) && !self.face(o).active))
                    } by {
                        if q == mapping@.len() - 1 {
                            assert(group_b@[i as int] == fid);
                        }
                    }
                    assert forall|q: int| 0 <= q < mapping@.len() implies detached_ok(&m0, self, cm, (#[trigger] mapping@[q]).0, mapping@[q].1) by {
                        if q == mapping@.len() - 1 {
                            if (idx as int) < m0.nf() {
                                assert forall|v: VertId| outer_loop_of(&m0, fid).contains(v) implies !cm.dom().contains(v.id) by {
                                    let k = choose|k: int| 0 <= k < loop_verts@.len() && loop_verts@[k] == v;
                                    assert(cm.dom().contains(loop_verts@[k].id) ==> touched);
                                }
                            }
                        }
                    }
                }
                i = i + 1;
                continue;
            }
            self.remove_face(fid)?;
            let ghost mid = *self;
            proof {
                assert(links_kept(&pre, &mid));
            }
            let new_fid = match self.add_plain_face(substituted.as_slice(), normal, mat) {
                Ok(f) => f,
                Err(e) => {
                    proof {
                        assert(group_b@[i as int] == fid);
                        if !(forall|q: int| 0 <= q < i ==> (#[trigger] group_b@[q]).id < m0.nf()) {
                            let q = choose|q: int| 0 <= q < i && !((#[trigger] group_b@[q]).id < m0.nf());
                            assert(group_b@[q].id >= m0.nf());
                        } else if (idx as int) < m0.nf() {
                            assert(m0.face_active(fid));
                            if loop_verts_ok(&m0, outer_loop_of(&m0, fid)) {
                                lemma_subst_ok(&m0, &mid, outer_loop_of(&m0, fid), order, nv0 as int);
                            }
                            assert(substituted@.len() == outer_loop_of(&m0, fid).len());
                        }
                    }
                    return Err(e);
                },
            };
            mapping.push((fid, new_fid));
            proof {
                assert(links_kept(&mid, self)) by {
                    assert forall|j: int| 0 <= j < mid.nh() implies (#[trigger] self.hes@[j]).next == mid.hes@[j].next && self.hes@[j].dst == mid.hes@[j].dst by {
                        assert(crate::mesh::same_but_rad(self.hes@[j], mid.hes@[j]));
                    }
                }
                assert(links_kept(&pre, self));
                assert(links_kept(&m0, self));
                assert(self.faces@.subrange(0, mid.nf()) == mid.faces@);
                assert forall|j: int| 0 <= j < m0.nf() implies (#[trigger] self.faces@[j]).is_some() == m0.faces@[j].is_some() by {
                    assert(self.faces@.subrange(0, mid.nf())[j] == mid.faces@[j]);
                    assert(pre.faces@[j].is_some() == m0.faces@[j].is_some());
                }
                assert forall|j: int| 0 <= j < m0.nf() && (#[trigger] m0.faces@[j]).is_some() implies {
                    &&& self.faces@[j].is_some()
                    &&& self.faces@[j].unwrap().outer == m0.faces@[j].unwrap().outer
                    &&& self.faces@[j].unwrap().active ==> self.faces@[j] == m0.faces@[j]
                } by {
                    assert(self.faces@.subrange(0, mid.nf())[j] == mid.faces@[j]);
                    assert(pre.faces@[j].is_some());
                }
                assert forall|q: int| 0 <= q < mapping@.len() implies {
                    let (o, n) = #[trigger] mapping@[q];
                    &&& group_b@.contains(o)
                    &&& (n == o || ((n.id as int) >= m0.nf() && self.has_face(n) && self.has_face(o) && !self.face(o).active))
                } by {
                    if q == mapping@.len() - 1 {
                        assert(group_b@[i as int] == fid);
                        assert(self.faces@.subrange(0, mid.nf())[fid.id as int] == mid.faces@[fid.id as int]);
                    } else {
                        let (o, n) = mapping@[q];
                        if n != o {
                            assert(pre.has_face(n) && pre.has_face(o) && !pre.face(o).active);
                            if o != fid {
                                assert(mid.faces@[o.id as int] == pre.faces@[o.id as int]);
                            }
                            if n != fid {
                                assert(mid.faces@[n.id as int] == pre.faces@[n.id as int]);
                            }
                            assert(self.faces@.subrange(0, mid.nf())[o.id as int] == mid.faces@[o.id as int]);
                            assert(self.faces@.subrange(0, mid.nf())[n.id as int] == mid.faces@[n.id as int]);
                        }
                    }
                }
                assert forall|q: int| 0 <= q < mapping@.len() implies detached_ok(&m0, self, cm, (#[trigger] mapping@[q]).0, mapping@[q].1) by {
                    let (o, n) = mapping@[q];
                    if q == mapping@.len() - 1 {
                        if (o.id as int) < m0.nf() {
                            assert(n != o);
                            assert(substituted@ == subst_verts(outer_loop_of(&m0, fid), cm));
                        }
                    } else if (o.id as int) < m0.nf() {
                        assert(detached_ok(&m0, &pre, cm, o, n));
                        let st = pre.face(n).outer;
                        assert(pre.has_face(n));
                        assert(mid.faces@[n.id as int].unwrap().outer == pre.faces@[n.id as int].unwrap().outer);
                        assert(self.faces@.subrange(0, mid.nf())[n.id as int] == mid.faces@[n.id as int]);
                        assert(self.face(n).outer == st);
                        assert(has_loop(pre.hes@, st.id as int));
                        lemma_loop_links(&pre, self, st.id as int);
                    }
                }
            }
            i = i + 1;
        }
        proof {
            let sh = group_verts(&m0, group_a@).intersect(group_verts(&m0, group_b@));
            assert(order.to_set() == sh);
            order.unique_seq_to_set();
            assert(created == order.len());
            assert(forall|q: int| 0 <= q < order.len() ==> #[trigger] self.verts@[m0.nv() + q]
                == (Vertex { pos: m0.verts@[order[q] as int].pos, active: true }));
            lemma_group_verts_bound(&m0, group_a@);
            assert forall|q: int| 0 <= q < mapping@.len() && ((#[trigger] mapping@[q]).0.id as int) < m0.nf() implies avoids(
                self,
                mapping@[q].1,
                group_verts(&m0, group_a@),
            ) by {
                let (o, n) = mapping@[q];
                assert(detached_ok(&m0, self, cm, o, n));
                let ol = outer_loop_of(&m0, o);
                let bi = choose|bi: int| 0 <= bi < group_b@.len() && group_b@[bi] == o;
                lemma_group_verts_has(&m0, group_b@, bi);
                assert forall|v: VertId| ol.contains(v) implies group_verts(&m0, group_b@).contains(v.id) by {
                    let k = choose|k: int| 0 <= k < ol.len() && ol[k] == v;
                    let ids = ol.map_values(|w: VertId| w.id);
                    assert(ids[k] == v.id);
                    assert(face_vert_set(&m0, o).contains(v.id));
                }
                assert forall|v: VertId| outer_loop_of(self, n).contains(v) implies !group_verts(&m0, group_a@).contains(v.id) by {
                    if n == o {
                        assert(ol.contains(v));
                        assert(!cm.dom().contains(v.id));
                        assert(!sh.contains(v.id));
                    } else {
                        let sl = subst_verts(ol, cm);
                        assert(outer_loop_of(self, n) == sl);
                        let k = choose|k: int| 0 <= k < sl.len() && sl[k] == v;
                        let w = ol[k];
                        assert(ol.contains(w));
                        if cm.dom().contains(w.id) {
                            assert(v.id == cm[w.id]);
                            let x = order.index_of(w.id);
                            assert(0 <= x < order.len());
                            assert(v.id as int == m0.nv() + x);
                        } else {
                            assert(v == w);
                            assert(!sh.contains(w.id));
                        }
                    }
                }
            }
        }
        Ok((mapping, created))
    }
}

// ───────────────────────── geometric repair ─────────────────────────

/// `v` is sorted by increasing raw id.
pub open spec fn sorted_by_id(v: Seq<FaceId>) -> bool {
    forall|a: int, b: int| 0 <= a < b < v.len() ==> v[a].id <= v[b].id
}

/// Sort face ids by increasing raw id (stable insertion sort).
pub fn sort_faces_by_id(v: &Vec<FaceId>) -> (r: Vec<FaceId>)
    ensures
        sorted_by_id(r@),
        r@.to_multiset() == v@.to_multiset(),
        r@.len() == v@.len(),
{
    let mut r: Vec<FaceId> = Vec::new();
    assert(r@ =~= v@.subrange(0, 0));
    let mut i: usize = 0;
    while i < v.len()
        invariant
            0 <= i <= v@.len(),
            sorted_by_id(r@),
            r@.to_multiset() == v@.subrange(0, i as int).to_multiset(),
            r@.len() == i,
        decreases v@.len() - i,
    {
        let x = v[i];
        // find the insertion point: after every element with id <= x.id
        let mut p: usize = r.len();
        while p > 0 && r[p - 1].id > x.id
            invariant
                0 <= p <= r@.len(),
                forall|q: int| p <= q < r@.len() ==> r@[q].id > x.id,
            decreases p,
        {
            p = p - 1;
        }
        let ghost pre = r@;
        r.insert(p, x);
        proof {
            assert(r@ =~= pre.subrange(0, p as int).push(x) + pre.subrange(p as int, pre.len() as int));
            assert forall|a: int, b: int| 0 <= a < b < r@.len() implies r@[a].id <= r@[b].id by {
                if a < p && b == p {
                    if p > 0 {
                        assert(pre[p - 1].id <= x.id);
                        assert(pre[a].id <= pre[p - 1].id);
                    }
                } else if a == p && b > p {
                    assert(r@[b] == pre[b - 1]);
                } else if a < p && b > p {
                    assert(r@[b] == pre[b - 1]);
                } else if a > p {
                    assert(r@[a] == pre[a - 1]);
                    assert(r@[b] == pre[b - 1]);
                }
            }
            vstd::seq_lib::to_multiset_insert(pre, p as int, x);
            vstd::seq_lib::to_multiset_build(v@.subrange(0, i as int), x);
            assert(v@.subrange(0, i as int + 1) =~= v@.subrange(0, i as int).push(x));
        }
        i = i + 1;
    }
    assert(v@.subrange(0, v@.len() as int) =~= v@);
    r
}

/// `b` is `a` after detaching face `f` from the faces `keep`: well-formed,
/// with no fewer vertices, and, where `f` was active, either `f` itself or
/// a face `n` added in its place (with `f` retired) has a closing outer loop
/// that uses no vertex of the outer loops of `keep` in `a`.
pub open spec fn detach_step(a: Mesh, b: Mesh, keep: Seq<FaceId>, f: FaceId) -> bool {
    &&& b.wf()
    &&& b.nv() >= a.nv()
    &&& a.face_active(f) ==> exists|n: FaceId|
        #[trigger] avoids(&b, n, group_verts(&a, keep)) && (n == f || ((n.id as int) >= a.nf() && b.has_face(n) && b.has_face(f)
            && !b.face(f).active))
}

/// Edge `e` of `a` was repaired into `b`: `faces` are its active faces in
/// `a`, sorted by id; the first two are kept and each later one is detached
/// from them in turn, through the meshes of `chain` (from `a` to `b`).
pub open spec fn repaired_by(a: Mesh, b: Mesh, e: EdgeId, chain: Seq<Mesh>, faces: Seq<FaceId>) -> bool {
    &&& faces.to_multiset() == edge_faces(&a, e.id as int).to_multiset()
    &&& sorted_by_id(faces)
    &&& faces.len() >= 2
    &&& chain.len() == faces.len() - 1
    &&& chain[0] == a
    &&& chain.last() == b
    &&& forall|i: int| 0 <= i < faces.len() - 2 ==> #[trigger] detach_step(chain[i], chain[i + 1], faces.subrange(0, 2), faces[i + 2])
}

/// What repairing edge `e` did to take `a` to `b`: `0` left it alone (it was
/// no longer a non-manifold edge of `a`); `1` (repaired) and `2` (skipped:
/// a detach failed) worked on it because it still had more than two active
/// faces, leaving a well-formed mesh with no fewer vertices; a repaired edge
/// had every face but the two lowest detached from those two.
pub open spec fn repair_step(a: Mesh, b: Mesh, e: EdgeId, outcome: int) -> bool {
    if outcome == 0 {
        b == a && !((e.id as int) < a.ne() && is_non_manifold(&a, e.id as int))
    } else {
        &&& outcome == 1 || outcome == 2
        &&& (e.id as int) < a.ne()
        &&& is_non_manifold(&a, e.id as int)
        &&& b.wf()
        &&& b.nv() >= a.nv()
        &&& outcome == 1 ==> exists|chain: Seq<Mesh>, faces: Seq<FaceId>| #[trigger] repaired_by(a, b, e, chain, faces)
    }
}

/// `ms` are the meshes before and after repairing each edge of `es` in
/// order, with outcomes `outs`.
pub open spec fn repair_run(ms: Seq<Mesh>, outs: Seq<int>, es: Seq<EdgeId>) -> bool {
    &&& ms.len() == es.len() + 1
    &&& outs.len() == es.len()
    &&& forall|q: int| 0 <= q < es.len() ==> #[trigger] repair_step(ms[q], ms[q + 1], es[q], outs[q])
}

/// The edges of `es` whose outcome is `v`, in order.
pub open spec fn edges_with(es: Seq<EdgeId>, outs: Seq<int>, v: int) -> Seq<EdgeId>
    decreases es.len(),
{
    if es.len() == 0 || outs.len() == 0 {
        Seq::empty()
    } else {
        let prev = edges_with(es.drop_last(), outs.drop_last(), v);
        if outs.last() == v {
            prev.push(es.last())
        } else {
            prev
        }
    }
}

/// The edges of the skip list.
pub open spec fn skip_edges(v: Seq<(EdgeId, String)>) -> Seq<EdgeId> {
    v.map_values(|p: (EdgeId, String)| p.0)
}

/// One more step of a repair run.
proof fn lemma_repair_run_push(ms: Seq<Mesh>, outs: Seq<int>, es: Seq<EdgeId>, q: int, next: Mesh, o: int)
    requires
        0 <= q < es.len(),
        ms.len() == q + 1,
        outs.len() == q,
        forall|j: int| 0 <= j < q ==> #[trigger] repair_step(ms[j], ms[j + 1], es[j], outs[j]),
        repair_step(ms[q], next, es[q], o),
    ensures
        forall|j: int| 0 <= j < q + 1 ==> #[trigger] repair_step(ms.push(next)[j], ms.push(next)[j + 1], es[j], outs.push(o)[j]),
        forall|v: int| #[trigger] edges_with(es.subrange(0, q + 1), outs.push(o), v) == if o == v {
            edges_with(es.subrange(0, q), outs, v).push(es[q])
        } else {
            edges_with(es.subrange(0, q), outs, v)
        },
{
    let ms2 = ms.push(next);
    let outs2 = outs.push(o);
    assert forall|j: int| 0 <= j < q + 1 implies #[trigger] repair_step(ms2[j], ms2[j + 1], es[j], outs2[j]) by {
        if j < q {
            assert(ms2[j] == ms[j] && ms2[j + 1] == ms[j + 1] && outs2[j] == outs[j]);
        }
    }
    assert(es.subrange(0, q + 1).drop_last() =~= es.subrange(0, q));
    assert(outs2.drop_last() =~= outs);
}

impl Mesh {
    /// Best-effort repair of non-manifold edges. For each edge that had more
    /// than two active faces when the repair started and still has, the two
    /// faces with the lowest ids are kept and each other face is detached
    /// from them in turn (`detach_face_groups`). An edge is counted as
    /// repaired when every detach succeeded; on the first failure the edge is
    /// recorded as skipped with the reason.
    pub fn repair_non_manifold_edges_geometric(&mut self) -> (report: RepairReport)
        requires
            old(self).wf(),
        ensures
            final(self).wf(),
            report.edges_examined == non_manifold_edges(old(self)).len(),
            report.edges_repaired + report.edges_skipped@.len() <= report.edges_examined,
            forall|i: int| 0 <= i < report.edges_skipped@.len() ==> non_manifold_edges(old(self)).contains(
                (#[trigger] report.edges_skipped@[i]).0),
            final(self).nv() >= old(self).nv(),
            report.vertices_created <= final(self).nv() - old(self).nv(),
            non_manifold_edges(old(self)).len() == 0 ==> *final(self) == *old(self) && report.edges_repaired == 0
                && report.edges_skipped@.len() == 0 && report.vertices_created == 0,
            exists|ms: Seq<Mesh>, outs: Seq<int>|
                #[trigger] repair_run(ms, outs, non_manifold_edges(old(self))) && ms[0] == *old(self) && ms.last() == *final(self)
                    && report.edges_repaired == edges_with(non_manifold_edges(old(self)), outs, 1).len() && skip_edges(
                    report.edges_skipped@,
                ) == edges_with(non_manifold_edges(old(self)), outs, 2),
    {
        let mut report = RepairReport::new();
        let bad = self.find_non_manifold_edges();
        report.edges_examined = bad.len();
        let ghost m0 = *self;
        let ghost nm = non_manifold_edges(self);
        let ghost mut ms: Seq<Mesh> = seq![*self];
        let ghost mut outs: Seq<int> = Seq::empty();
        let mut b: usize = 0;
        while b < bad.len()
            invariant
                self.wf(),
                m0 == *old(self),
                nm == non_manifold_edges(&m0),
                bad@.len() == nm.len(),
                forall|q: int| 0 <= q < bad@.len() ==> (#[trigger] bad@[q]).edge == nm[q],
                0 <= b <= bad@.len(),
                report.edges_examined == bad@.len(),
                report.edges_repaired + report.edges_skipped@.len() <= b,
                forall|q: int| 0 <= q < report.edges_skipped@.len() ==> nm.contains((#[trigger] report.edges_skipped@[q]).0),
                self.nv() >= m0.nv(),
                report.vertices_created <= self.nv() - m0.nv(),
                bad@.len() == 0 ==> *self == m0 && report.edges_repaired == 0 && report.edges_skipped@.len() == 0
                    && report.vertices_created == 0,
                ms.len() == b + 1,
                outs.len() == b,
                ms[0] == m0,
                ms[b as int] == *self,
                forall|q: int| 0 <= q < b ==> #[trigger] repair_step(ms[q], ms[q + 1], nm[q], outs[q]),
                report.edges_repaired == edges_with(nm.subrange(0, b as int), outs, 1).len(),
                skip_edges(report.edges_skipped@) == edges_with(nm.subrange(0, b as int), outs, 2),
            decreases bad@.len() - b,
        {
            let e = bad[b].edge;
            let ghost pre = *self;
            let ghost pre_ms = ms;
            let ghost pre_outs = outs;
            let ghost pre_rep = report.edges_repaired;
            let ghost pre_skip = skip_edges(report.edges_skipped@);
            proof {
                assert(nm.subrange(0, b as int + 1).drop_last() =~= nm.subrange(0, b as int));
                assert(nm.subrange(0, b as int + 1).last() == e);
            }
            b = b + 1;
            if e.id as usize >= self.edges.len() || !self.edges[e.id as usize].active {
                proof {
                    ms = ms.push(*self);
                    outs = outs.push(0);
                    lemma_repair_run_push(pre_ms, pre_outs, nm, b as int - 1, *self, 0);
                    assert(outs.drop_last() =~= pre_outs);
                }
                continue;
            }
            let cur_faces = self.get_faces_sharing_edge(e);
            if cur_faces.len() <= 2 {
                proof {
                    ms = ms.push(*self);
                    outs = outs.push(0);
                    lemma_repair_run_push(pre_ms, pre_outs, nm, b as int - 1, *self, 0);
                    assert(outs.drop_last() =~= pre_outs);
                }
                continue;
            }
            let sorted = sort_faces_by_id(&cur_faces);
            let mut keep: Vec<FaceId> = Vec::new();
            keep.push(sorted[0]);
            keep.push(sorted[1]);
            proof {
                assert(keep@ =~= sorted@.subrange(0, 2));
            }
            let mut all_ok = true;
            let mut x: usize = 2;
            let ghost mut chain: Seq<Mesh> = seq![*self];
            while x < sorted.len() && all_ok
                invariant
                    keep@ == sorted@.subrange(0, 2),
                    chain.len() == x - 1,
                    chain[0] == pre,
                    chain.last() == *self,
                    all_ok ==> forall|i: int| 0 <= i < x - 2 ==> #[trigger] detach_step(chain[i], chain[i + 1], sorted@.subrange(0, 2), sorted@[i + 2]),
                    self.wf(),
                    m0 == *old(self),
                    nm == non_manifold_edges(&m0),
                    nm.contains(e),
                    2 <= x <= sorted@.len(),
                    report.edges_examined == bad@.len(),
                    all_ok ==> report.edges_repaired + report.edges_skipped@.len() <= b - 1,
                    report.edges_repaired + report.edges_skipped@.len() <= b,
                    forall|q: int| 0 <= q < report.edges_skipped@.len() ==> nm.contains((#[trigger] report.edges_skipped@[q]).0),
                    self.nv() >= m0.nv(),
                    report.vertices_created <= self.nv() - m0.nv(),
                    ms == pre_ms,
                    outs == pre_outs,
                    pre_ms.len() == b,
                    pre_outs.len() == b - 1,
                    pre_ms[b - 1] == pre,
                    pre_ms[0] == m0,
                    forall|q: int| 0 <= q < b - 1 ==> #[trigger] repair_step(pre_ms[q], pre_ms[q + 1], nm[q], pre_outs[q]),
                    nm[b - 1] == e,
                    (e.id as int) < pre.ne(),
                    is_non_manifold(&pre, e.id as int),
                    self.nv() >= pre.nv(),
                    report.edges_repaired == pre_rep,
                    pre_rep == edges_with(nm.subrange(0, b - 1), pre_outs, 1).len(),
                    pre_skip == edges_with(nm.subrange(0, b - 1), pre_outs, 2),
                    all_ok ==> skip_edges(report.edges_skipped@) == pre_skip,
                    !all_ok ==> skip_edges(report.edges_skipped@) == pre_skip.push(e),
                    b <= bad@.len(),
                    bad@.len() == nm.len(),
                decreases sorted@.len() - x,
            {
                let extra = sorted[x];
                let mut one: Vec<FaceId> = Vec::new();
                one.push(extra);
                let ghost pre_nv = self.nv();
                let ghost before_x = *self;
                proof {
                    assert(one@ =~= seq![extra]);
                }
                match self.detach_face_groups(keep.as_slice(), one.as_slice()) {
                    Ok((_mapping, n_verts)) => {
                        report.faces_detached = report.faces_detached.saturating_add(1);
                        report.vertices_created = report.vertices_created + n_verts;
                        proof {
                            if before_x.face_active(extra) {
                                let n = _mapping@[0].1;
                                assert(_mapping@[0].0 == extra);
                                assert(avoids(self, n, group_verts(&before_x, keep@)));
                            }
                            assert(detach_step(before_x, *self, sorted@.subrange(0, 2), extra));
                        }
                    },
                    Err(err) => {
                        let mut reason = String::from_str("detach failed: ");
                        reason.append(err.describe());
                        let ghost before = report.edges_skipped@;
                        report.edges_skipped.push((e, reason));
                        proof {
                            assert(skip_edges(report.edges_skipped@) =~= skip_edges(before).push(e));
                        }
                        all_ok = false;
                    },
                }
                proof {
                    let c0 = chain;
                    chain = chain.push(*self);
                    if all_ok {
                        assert forall|i: int| 0 <= i < x + 1 - 2 implies #[trigger] detach_step(chain[i], chain[i + 1], sorted@.subrange(0, 2), sorted@[i + 2]) by {
                            if i < x - 2 {
                                assert(chain[i] == c0[i] && chain[i + 1] == c0[i + 1]);
                            } else {
                                assert(chain[i] == before_x);
                            }
                        }
                    }
                }
                x = x + 1;
            }
            if all_ok {
                report.edges_repaired = report.edges_repaired + 1;
                proof {
                    assert(sorted@.to_multiset() == edge_faces(&pre, e.id as int).to_multiset());
                    assert(repaired_by(pre, *self, e, chain, sorted@));
                }
            }
            proof {
                let o: int = if all_ok { 1 } else { 2 };
                lemma_repair_run_push(pre_ms, pre_outs, nm, b as int - 1, *self, o);
                ms = pre_ms.push(*self);
                outs = pre_outs.push(o);
            }
        }
        proof {
            assert(nm.subrange(0, nm.len() as int) =~= nm);
            assert(repair_run(ms, outs, nm));
            assert(ms.last() == *self);
        }
        report
    }
}
} // verus!
