//! Push/Pull: result types and the decisions that depend on topology.
//!
//! Whether a face can be pushed by moving its vertices only ("MoveOnly")
//! depends on which edges connect the face to the rest of the mesh; the
//! geometric part of the test (a non-degenerate face normal, each connecting
//! edge parallel to it) is supplied by the caller as plain flags.
use vstd::prelude::*;

use crate::ids::{EdgeId, FaceId, HeId, VertId, NULL_RAW};
use crate::mesh::{
    dsts_of, edge_refs_ok, has_loop, he_refs_ok, lemma_walk_in_range, loop_seq, mesh_error_text, walk, Mesh,
    MeshError,
};
use crate::text::{decimal, push_decimal};

verus! {

/// Result of a Push/Pull operation.
#[derive(Clone, Debug)]
pub struct PushPullResult {
    pub base_face: FaceId,
    pub top_face: FaceId,
    pub side_faces: Vec<FaceId>,
    pub new_verts: Vec<VertId>,
    pub base_removed: bool,
    pub adjacent_splits: usize,
    pub split_debug: Vec<String>,
}

/// Push/Pull mode.
#[derive(Clone, Copy, Debug, PartialEq, Eq, Structural)]
pub enum PushPullMode {
    /// Move the face's vertices only (the walls already exist and are
    /// parallel to the normal).
    MoveOnly,
    /// Create new side faces.
    CreateFace,
}

/// `is_move_only` with diagnostic lines.
pub struct MoveOnlyResult {
    pub is_move_only: bool,
    pub debug: Vec<String>,
}

// ───────────────────────── face edges and vertices ─────────────────────────

/// The edges of the half-edges of the loop at `s` (none if it is not a loop).
pub open spec fn loop_edges(m: &Mesh, s: HeId) -> Set<int> {
    if has_loop(m.hes@, s.id as int) {
        loop_seq(m.hes@, s.id as int).map_values(|h: HeId| m.hes@[h.id as int].edge.id as int).to_set()
    } else {
        Set::empty()
    }
}

/// The destination vertices of the loop at `s` (none if it is not a loop).
pub open spec fn loop_verts(m: &Mesh, s: HeId) -> Set<int> {
    if has_loop(m.hes@, s.id as int) {
        loop_seq(m.hes@, s.id as int).map_values(|h: HeId| m.hes@[h.id as int].dst.id as int).to_set()
    } else {
        Set::empty()
    }
}

/// Edges of the non-null loops among `starts`.
pub open spec fn loops_edges(m: &Mesh, starts: Seq<HeId>) -> Set<int>
    decreases starts.len(),
{
    if starts.len() == 0 {
        Set::empty()
    } else {
        loops_edges(m, starts.drop_last()).union(
            if starts.last().id == NULL_RAW { Set::empty() } else { loop_edges(m, starts.last()) },
        )
    }
}

/// Vertices of the non-null loops among `starts`.
pub open spec fn loops_verts(m: &Mesh, starts: Seq<HeId>) -> Set<int>
    decreases starts.len(),
{
    if starts.len() == 0 {
        Set::empty()
    } else {
        loops_verts(m, starts.drop_last()).union(
            if starts.last().id == NULL_RAW { Set::empty() } else { loop_verts(m, starts.last()) },
        )
    }
}

/// The first half-edges of the loops of stored face `f`: outer, then holes.
pub open spec fn face_starts(m: &Mesh, f: FaceId) -> Seq<HeId> {
    seq![m.face(f).outer] + m.face(f).inners@
}

/// Edge `e` connects the face to the rest of the mesh: it is active, not an
/// edge of one of the face's loops, and touches one of the face's vertices.
pub open spec fn is_connecting(m: &Mesh, f: FaceId, e: int) -> bool {
    let starts = face_starts(m, f);
    &&& 0 <= e < m.ne()
    &&& m.edges@[e].active
    &&& !loops_edges(m, starts).contains(e)
    &&& (loops_verts(m, starts).contains(m.edges@[e].v_small.id as int) || loops_verts(m, starts).contains(
        m.edges@[e].v_large.id as int,
    ))
}

/// The MoveOnly test: the face is active with a closed outer loop, its
/// normal is usable, some edge connects it to the rest of the mesh, and
/// every connecting edge is parallel to the normal (or of zero length), as
/// recorded in `parallel`.
pub open spec fn move_only(m: &Mesh, f: FaceId, normal_ok: bool, parallel: Seq<bool>) -> bool {
    &&& m.face_active(f)
    &&& m.face(f).outer.id != NULL_RAW
    &&& has_loop(m.hes@, m.face(f).outer.id as int)
    &&& normal_ok
    &&& exists|e: int| is_connecting(m, f, e)
    &&& forall|e: int| is_connecting(m, f, e) ==> parallel[e]
}

impl Mesh {
    /// Mark the edges and vertices of the loop at `s` (if it is one).
    pub(crate) fn mark_loop(&self, s: HeId, edge_mark: &mut Vec<bool>, vert_mark: &mut Vec<bool>)
        requires
            self.wf(),
            old(edge_mark)@.len() == self.ne(),
            old(vert_mark)@.len() == self.nv(),
        ensures
            final(edge_mark)@.len() == self.ne(),
            final(vert_mark)@.len() == self.nv(),
            forall|e: int| 0 <= e < self.ne() ==> #[trigger] final(edge_mark)@[e] == (old(edge_mark)@[e] || loop_edges(self, s).contains(e)),
            forall|v: int| 0 <= v < self.nv() ==> #[trigger] final(vert_mark)@[v] == (old(vert_mark)@[v] || loop_verts(self, s).contains(v)),
    {
        match self.collect_loop_hes(s) {
            Ok(hv) => {
                let ghost es = hv@.map_values(|h: HeId| self.hes@[h.id as int].edge.id as int);
                let ghost vs = hv@.map_values(|h: HeId| self.hes@[h.id as int].dst.id as int);
                proof {
                    assert forall|k: int| 0 <= k < hv@.len() implies (#[trigger] hv@[k]).id < self.nh() by {
                        if k > 0 {
                            lemma_walk_in_range(self, s.id as int, (k - 1) as nat);
                            let p = walk(self.hes@, s.id as int, (k - 1) as nat);
                            assert(he_refs_ok(self.hes@[p], self.nv(), self.nh(), self.ne(), self.nf()));
                        }
                    }
                }
                let mut i: usize = 0;
                while i < hv.len()
                    invariant
                        self.wf(),
                        0 <= i <= hv@.len(),
                        forall|k: int| 0 <= k < hv@.len() ==> (#[trigger] hv@[k]).id < self.nh(),
                        es == hv@.map_values(|h: HeId| self.hes@[h.id as int].edge.id as int),
                        vs == hv@.map_values(|h: HeId| self.hes@[h.id as int].dst.id as int),
                        edge_mark@.len() == self.ne(),
                        vert_mark@.len() == self.nv(),
                        forall|e: int| 0 <= e < self.ne() ==> #[trigger] edge_mark@[e] == (old(edge_mark)@[e] || es.subrange(0, i as int).contains(e)),
                        forall|v: int| 0 <= v < self.nv() ==> #[trigger] vert_mark@[v] == (old(vert_mark)@[v] || vs.subrange(0, i as int).contains(v)),
                    decreases hv@.len() - i,
                {
                    let h = self.hes[hv[i].id as usize];
                    assert(he_refs_ok(h, self.nv(), self.nh(), self.ne(), self.nf()));
                    edge_mark.set(h.edge.id as usize, true);
                    vert_mark.set(h.dst.id as usize, true);
                    proof {
                        let ii = i as int;
                        assert(es.subrange(0, ii + 1) =~= es.subrange(0, ii).push(es[ii]));
                        assert(vs.subrange(0, ii + 1) =~= vs.subrange(0, ii).push(vs[ii]));
                        assert forall|x: int| 0 <= x < self.ne() implies #[trigger] edge_mark@[x] == (old(edge_mark)@[x] || es.subrange(0, ii + 1).contains(x)) by {
                            lemma_contains_push(es.subrange(0, ii), es[ii], x);
                        }
                        assert forall|x: int| 0 <= x < self.nv() implies #[trigger] vert_mark@[x] == (old(vert_mark)@[x] || vs.subrange(0, ii + 1).contains(x)) by {
                            lemma_contains_push(vs.subrange(0, ii), vs[ii], x);
                        }
                    }
                    i = i + 1;
                }
                proof {
                    assert(es.subrange(0, hv@.len() as int) =~= es);
                    assert(vs.subrange(0, hv@.len() as int) =~= vs);
                    assert forall|e: int| 0 <= e < self.ne() implies #[trigger] edge_mark@[e] == (old(edge_mark)@[e] || loop_edges(self, s).contains(e)) by {
                        assert(es.contains(e) == es.to_set().contains(e));
                    }
                    assert forall|v: int| 0 <= v < self.nv() implies #[trigger] vert_mark@[v] == (old(vert_mark)@[v] || loop_verts(self, s).contains(v)) by {
                        assert(vs.contains(v) == vs.to_set().contains(v));
                    }
                }
            },
            Err(_) => {},
        }
    }
}


impl Mesh {
    /// Mark the edges and vertices of every loop (outer and holes) of the
    /// stored face `f`.
    pub(crate) fn mark_face_loops(&self, f: FaceId, edge_mark: &mut Vec<bool>, vert_mark: &mut Vec<bool>)
        requires
            self.wf(),
            self.has_face(f),
            old(edge_mark)@.len() == self.ne(),
            old(vert_mark)@.len() == self.nv(),
        ensures
            final(edge_mark)@.len() == self.ne(),
            final(vert_mark)@.len() == self.nv(),
            forall|e: int| 0 <= e < self.ne() ==> #[trigger] final(edge_mark)@[e] == (old(edge_mark)@[e] || loops_edges(self, face_starts(self, f)).contains(e)),
            forall|v: int| 0 <= v < self.nv() ==> #[trigger] final(vert_mark)@[v] == (old(vert_mark)@[v] || loops_verts(self, face_starts(self, f)).contains(v)),
    {
        let idx = f.id as usize;
        let ghost starts = face_starts(self, f);
        let ghost em0 = edge_mark@;
        let ghost vm0 = vert_mark@;
        let (outer, inners_len) = match &self.faces[idx] {
            Some(fc) => (fc.outer, fc.inners.len()),
            None => (HeId::null(), 0),
        };
        self.mark_loop(outer, edge_mark, vert_mark);
        proof {
            assert(starts.subrange(0, 1) =~= seq![outer]);
            assert(seq![outer].drop_last() =~= Seq::<HeId>::empty());
            assert(loops_edges(self, Seq::<HeId>::empty()) =~= Set::<int>::empty());
            assert(loops_verts(self, Seq::<HeId>::empty()) =~= Set::<int>::empty());
            assert(seq![outer].last() == outer);
            assert(loops_edges(self, seq![outer]) =~= loop_edges(self, outer));
            assert(loops_verts(self, seq![outer]) =~= loop_verts(self, outer));
        }
        let mut k: usize = 0;
        while k < inners_len
            invariant
                self.wf(),
                self.has_face(f),
                inners_len == self.face(f).inners@.len(),
                idx == f.id as usize,
                idx < self.faces@.len(),
                starts == face_starts(self, f),
                0 <= k <= inners_len,
                edge_mark@.len() == self.ne(),
                vert_mark@.len() == self.nv(),
                em0.len() == self.ne(),
                vm0.len() == self.nv(),
                forall|e: int| 0 <= e < self.ne() ==> #[trigger] edge_mark@[e] == (em0[e] || loops_edges(self, starts.subrange(0, k as int + 1)).contains(e)),
                forall|v: int| 0 <= v < self.nv() ==> #[trigger] vert_mark@[v] == (vm0[v] || loops_verts(self, starts.subrange(0, k as int + 1)).contains(v)),
            decreases inners_len - k,
        {
            let st = match &self.faces[idx] {
                Some(fc) => fc.inners[k],
                None => HeId::null(),
            };
            proof {
                let sub = starts.subrange(0, k as int + 2);
                assert(sub.drop_last() =~= starts.subrange(0, k as int + 1));
                assert(sub.last() == st);
            }
            if st.id != NULL_RAW {
                self.mark_loop(st, edge_mark, vert_mark);
            }
            k = k + 1;
        }
        assert(starts.subrange(0, inners_len as int + 1) =~= starts);
    }
}

/// `n` flags, all false.
pub(crate) fn false_flags(n: usize) -> (v: Vec<bool>)
    ensures
        v@ == Seq::new(n as nat, |t: int| false),
{
    let mut v: Vec<bool> = Vec::new();
    let mut q: usize = 0;
    while q < n
        invariant
            0 <= q <= n,
            v@ == Seq::new(q as nat, |t: int| false),
        decreases n - q,
    {
        v.push(false);
        q = q + 1;
        assert(v@ =~= Seq::new(q as nat, |t: int| false));
    }
    v
}

/// The connecting edges of the face below `k`, by increasing id.
pub open spec fn connecting_upto(m: &Mesh, f: FaceId, k: int) -> Seq<EdgeId>
    decreases k,
{
    if k <= 0 {
        Seq::empty()
    } else if is_connecting(m, f, k - 1) {
        connecting_upto(m, f, k - 1).push(EdgeId { id: (k - 1) as u32 })
    } else {
        connecting_upto(m, f, k - 1)
    }
}

/// The edges that connect stored face `face_id` to the rest of the mesh
/// (active, not on one of its loops, touching one of its vertices), by
/// increasing id; none for a face that is not stored.
pub fn connecting_edges(mesh: &Mesh, face_id: FaceId) -> (r: Vec<EdgeId>)
    requires
        mesh.wf(),
    ensures
        mesh.has_face(face_id) ==> r@ == connecting_upto(mesh, face_id, mesh.ne()),
        !mesh.has_face(face_id) ==> r@.len() == 0,
{
    let mut out: Vec<EdgeId> = Vec::new();
    let idx = face_id.id as usize;
    if idx >= mesh.faces.len() {
        return out;
    }
    match &mesh.faces[idx] {
        Some(_) => {},
        None => {
            return out;
        },
    }
    let mut edge_mark = false_flags(mesh.edges.len());
    let mut vert_mark = false_flags(mesh.verts.len());
    mesh.mark_face_loops(face_id, &mut edge_mark, &mut vert_mark);
    let mut e: usize = 0;
    while e < mesh.edges.len()
        invariant
            mesh.wf(),
            mesh.has_face(face_id),
            0 <= e <= mesh.ne(),
            edge_mark@.len() == mesh.ne(),
            vert_mark@.len() == mesh.nv(),
            forall|x: int| 0 <= x < mesh.ne() ==> #[trigger] edge_mark@[x] == loops_edges(mesh, face_starts(mesh, face_id)).contains(x),
            forall|v: int| 0 <= v < mesh.nv() ==> #[trigger] vert_mark@[v] == loops_verts(mesh, face_starts(mesh, face_id)).contains(v),
            out@ == connecting_upto(mesh, face_id, e as int),
        decreases mesh.ne() - e,
    {
        let ed = mesh.edges[e];
        assert(edge_refs_ok(ed, mesh.nv(), mesh.nh()));
        let conn = ed.active && !edge_mark[e] && (vert_mark[ed.v_small.id as usize] || vert_mark[ed.v_large.id as usize]);
        assert(conn == is_connecting(mesh, face_id, e as int));
        if conn {
            out.push(EdgeId { id: e as u32 });
        }
        e = e + 1;
    }
    out
}

/// Whether face `face_id` can be pushed by moving its vertices only.
/// `normal_ok` says whether the face's computed normal is non-degenerate;
/// `parallel[e]` says whether edge `e` is parallel to that normal (or has
/// zero length). A missing or inactive face, a broken outer loop, a
/// degenerate normal, or no connecting edge (a flat, free face) give false.
pub fn is_move_only(mesh: &Mesh, face_id: FaceId, normal_ok: bool, parallel: &[bool]) -> (res: bool)
    requires
        mesh.wf(),
        parallel@.len() == mesh.ne(),
    ensures
        res == move_only(mesh, face_id, normal_ok, parallel@),
{
    let idx = face_id.id as usize;
    if idx >= mesh.faces.len() {
        return false;
    }
    let outer = match &mesh.faces[idx] {
        Some(fc) => {
            if !fc.active {
                return false;
            }
            fc.outer
        },
        None => {
            return false;
        },
    };
    if outer.id == NULL_RAW {
        return false;
    }
    if mesh.collect_loop_hes(outer).is_err() {
        return false;
    }
    if !normal_ok {
        return false;
    }
    let ghost starts = face_starts(mesh, face_id);
    let mut edge_mark = false_flags(mesh.edges.len());
    let mut vert_mark = false_flags(mesh.verts.len());
    mesh.mark_face_loops(face_id, &mut edge_mark, &mut vert_mark);
    // connecting edges
    let mut found = false;
    let mut all_par = true;
    let mut e: usize = 0;
    while e < mesh.edges.len()
        invariant
            mesh.wf(),
            mesh.has_face(face_id),
            starts == seq![mesh.face(face_id).outer] + mesh.face(face_id).inners@,
            parallel@.len() == mesh.ne(),
            0 <= e <= mesh.ne(),
            edge_mark@.len() == mesh.ne(),
            vert_mark@.len() == mesh.nv(),
            forall|x: int| 0 <= x < mesh.ne() ==> #[trigger] edge_mark@[x] == loops_edges(mesh, starts).contains(x),
            forall|v: int| 0 <= v < mesh.nv() ==> #[trigger] vert_mark@[v] == loops_verts(mesh, starts).contains(v),
            found == exists|x: int| 0 <= x < e && is_connecting(mesh, face_id, x),
            all_par == forall|x: int| 0 <= x < e && is_connecting(mesh, face_id, x) ==> parallel@[x],
        decreases mesh.ne() - e,
    {
        let ed = mesh.edges[e];
        assert(edge_refs_ok(ed, mesh.nv(), mesh.nh()));
        let conn = ed.active && !edge_mark[e] && (vert_mark[ed.v_small.id as usize] || vert_mark[ed.v_large.id as usize]);
        assert(conn == is_connecting(mesh, face_id, e as int));
        if conn {
            found = true;
            if !parallel[e] {
                all_par = false;
            }
        }
        e = e + 1;
    }
    proof {
        if found {
            let x = choose|x: int| 0 <= x < mesh.ne() && is_connecting(mesh, face_id, x);
        }
        assert((exists|x: int| is_connecting(mesh, face_id, x)) == found);
        assert((forall|x: int| is_connecting(mesh, face_id, x) ==> parallel@[x]) == all_par);
    }
    found && all_par
}

/// Edge `e` connects the face and is not parallel to its normal.
pub open spec fn blocks_move(m: &Mesh, f: FaceId, parallel: Seq<bool>, e: int) -> bool {
    is_connecting(m, f, e) && !parallel[e]
}

/// The smallest edge id that connects the face without being parallel
/// (meaningful when there is one).
pub open spec fn first_blocking(m: &Mesh, f: FaceId, parallel: Seq<bool>) -> int {
    choose|e: int| blocks_move(m, f, parallel, e) && forall|x: int| 0 <= x < e ==> !#[trigger] blocks_move(m, f, parallel, x)
}

/// The number of connecting edges below `k`.
pub open spec fn connecting_count(m: &Mesh, f: FaceId, k: int) -> nat
    decreases k,
{
    if k <= 0 {
        0
    } else {
        connecting_count(m, f, k - 1) + if is_connecting(m, f, k - 1) { 1nat } else { 0nat }
    }
}

/// The last diagnostic line of the MoveOnly test: why it failed, or which
/// way it decided.
pub open spec fn move_only_verdict(m: &Mesh, f: FaceId, normal_ok: bool, parallel: Seq<bool>) -> Seq<char> {
    if !m.face_active(f) {
        "FAIL: face FaceId("@ + decimal(f.id as nat) + ") missing/inactive"@
    } else if m.face(f).outer.id == NULL_RAW {
        "FAIL: outer_start is NULL"@
    } else if !has_loop(m.hes@, m.face(f).outer.id as int) {
        "FAIL: collect_loop_verts error: "@ + mesh_error_text(
            if m.face(f).outer.id >= m.nh() {
                MeshError::HalfEdgeNotFound
            } else {
                MeshError::BrokenLoop
            },
        )
    } else if !normal_ok {
        "FAIL: degenerate normal"@
    } else if !(exists|e: int| is_connecting(m, f, e)) {
        "RESULT: CreateFace (no connecting edges → flat face)"@
    } else if exists|e: int| blocks_move(m, f, parallel, e) {
        "RESULT: CreateFace (edge "@ + decimal(first_blocking(m, f, parallel) as nat) + " not parallel)"@
    } else {
        "RESULT: MoveOnly (all edges parallel)"@
    }
}

/// A string holding `s`.
fn line(s: &str) -> (r: String)
    ensures
        r@ == s@,
{
    String::from_str(s)
}

/// `is_move_only` with diagnostic lines. The verdict is the same; the last
/// line says why the test failed or which way it decided; when the face's
/// loops could be examined, a line before it gives the number of
/// connecting edges.
pub fn is_move_only_debug(mesh: &Mesh, face_id: FaceId, normal_ok: bool, parallel: &[bool]) -> (r: MoveOnlyResult)
    requires
        mesh.wf(),
        parallel@.len() == mesh.ne(),
    ensures
        r.is_move_only == move_only(mesh, face_id, normal_ok, parallel@),
        r.debug@.len() >= 1,
        r.debug@.last()@ == move_only_verdict(mesh, face_id, normal_ok, parallel@),
{
    proof {
        reveal_strlit("FAIL: face FaceId(");
        reveal_strlit(") missing/inactive");
        reveal_strlit("FAIL: outer_start is NULL");
        reveal_strlit("FAIL: collect_loop_verts error: ");
        reveal_strlit("FAIL: degenerate normal");
        reveal_strlit("RESULT: CreateFace (no connecting edges → flat face)");
        reveal_strlit("RESULT: CreateFace (edge ");
        reveal_strlit(" not parallel)");
        reveal_strlit("RESULT: MoveOnly (all edges parallel)");
    }
    let mut debug: Vec<String> = Vec::new();
    let idx = face_id.id as usize;
    let mut active = false;
    let mut outer = HeId::null();
    if idx < mesh.faces.len() {
        match &mesh.faces[idx] {
            Some(fc) => {
                active = fc.active;
                outer = fc.outer;
            },
            None => {},
        }
    }
    if !active {
        let mut s = line("FAIL: face FaceId(");
        push_decimal(&mut s, face_id.id as usize);
        s.append(") missing/inactive");
        assert(s@ =~= move_only_verdict(mesh, face_id, normal_ok, parallel@));
        debug.push(s);
        return MoveOnlyResult { is_move_only: false, debug };
    }
    if outer.id == NULL_RAW {
        debug.push(line("FAIL: outer_start is NULL"));
        return MoveOnlyResult { is_move_only: false, debug };
    }
    match mesh.collect_loop_hes(outer) {
        Ok(_) => {},
        Err(e) => {
            let mut s = line("FAIL: collect_loop_verts error: ");
            s.append(e.describe());
            assert(s@ =~= move_only_verdict(mesh, face_id, normal_ok, parallel@));
            debug.push(s);
            return MoveOnlyResult { is_move_only: false, debug };
        },
    }
    if !normal_ok {
        debug.push(line("FAIL: degenerate normal"));
        return MoveOnlyResult { is_move_only: false, debug };
    }
    let mut edge_mark = false_flags(mesh.edges.len());
    let mut vert_mark = false_flags(mesh.verts.len());
    mesh.mark_face_loops(face_id, &mut edge_mark, &mut vert_mark);
    let mut count: usize = 0;
    let mut blocking: Option<usize> = None;
    let mut e: usize = 0;
    while e < mesh.edges.len()
        invariant
            mesh.wf(),
            mesh.has_face(face_id),
            parallel@.len() == mesh.ne(),
            0 <= e <= mesh.ne(),
            edge_mark@.len() == mesh.ne(),
            vert_mark@.len() == mesh.nv(),
            forall|x: int| 0 <= x < mesh.ne() ==> #[trigger] edge_mark@[x] == loops_edges(mesh, face_starts(mesh, face_id)).contains(x),
            forall|v: int| 0 <= v < mesh.nv() ==> #[trigger] vert_mark@[v] == loops_verts(mesh, face_starts(mesh, face_id)).contains(v),
            count == connecting_count(mesh, face_id, e as int),
            count <= e,
            match blocking {
                Some(b) => b < e && blocks_move(mesh, face_id, parallel@, b as int) && forall|x: int|
                    0 <= x < b ==> !#[trigger] blocks_move(mesh, face_id, parallel@, x),
                None => forall|x: int| 0 <= x < e ==> !#[trigger] blocks_move(mesh, face_id, parallel@, x),
            },
        decreases mesh.ne() - e,
    {
        let ed = mesh.edges[e];
        assert(edge_refs_ok(ed, mesh.nv(), mesh.nh()));
        let conn = ed.active && !edge_mark[e] && (vert_mark[ed.v_small.id as usize] || vert_mark[ed.v_large.id as usize]);
        assert(conn == is_connecting(mesh, face_id, e as int));
        if conn {
            count = count + 1;
            if !parallel[e] && blocking.is_none() {
                blocking = Some(e);
            }
        }
        e = e + 1;
    }
    let mut s = line("non_face_edges=");
    push_decimal(&mut s, count);
    debug.push(s);
    let ghost has_conn = exists|x: int| is_connecting(mesh, face_id, x);
    proof {
        lemma_connecting_count(mesh, face_id, mesh.ne());
    }
    if count == 0 {
        debug.push(line("RESULT: CreateFace (no connecting edges → flat face)"));
        return MoveOnlyResult { is_move_only: false, debug };
    }
    match blocking {
        Some(b) => {
            let mut s = line("RESULT: CreateFace (edge ");
            push_decimal(&mut s, b);
            s.append(" not parallel)");
            proof {
                let fb = first_blocking(mesh, face_id, parallel@);
                assert(blocks_move(mesh, face_id, parallel@, b as int));
                if fb < b {
                    assert(!blocks_move(mesh, face_id, parallel@, fb));
                } else if fb > b {
                    assert(!blocks_move(mesh, face_id, parallel@, b as int));
                }
                assert(s@ =~= move_only_verdict(mesh, face_id, normal_ok, parallel@));
            }
            debug.push(s);
            MoveOnlyResult { is_move_only: false, debug }
        },
        None => {
            proof {
                assert forall|x: int| is_connecting(mesh, face_id, x) implies parallel@[x] by {
                    assert(!blocks_move(mesh, face_id, parallel@, x));
                }
            }
            debug.push(line("RESULT: MoveOnly (all edges parallel)"));
            MoveOnlyResult { is_move_only: true, debug }
        },
    }
}

/// The count of connecting edges below the number of edges is positive
/// exactly when some edge connects.
proof fn lemma_connecting_count(m: &Mesh, f: FaceId, k: int)
    requires
        0 <= k <= m.ne(),
    ensures
        (connecting_count(m, f, k) > 0) == exists|x: int| 0 <= x < k && is_connecting(m, f, x),
        k == m.ne() ==> ((exists|x: int| 0 <= x < k && is_connecting(m, f, x)) == exists|x: int| is_connecting(m, f, x)),
    decreases k,
{
    if k > 0 {
        lemma_connecting_count(m, f, k - 1);
        if exists|x: int| 0 <= x < k && is_connecting(m, f, x) {
            let x = choose|x: int| 0 <= x < k && is_connecting(m, f, x);
            if x < k - 1 {
                assert(exists|y: int| 0 <= y < k - 1 && is_connecting(m, f, y));
            }
        }
    }
}

pub(crate) proof fn lemma_contains_push<A>(s: Seq<A>, x: A, e: A)
    ensures
        s.push(x).contains(e) == (s.contains(e) || x == e),
{
    if s.push(x).contains(e) {
        let q = choose|q: int| 0 <= q < s.push(x).len() && s.push(x)[q] == e;
        if q < s.len() {
            assert(s[q] == e);
        }
    }
    if s.contains(e) {
        let q = choose|q: int| 0 <= q < s.len() && s[q] == e;
        assert(s.push(x)[q] == e);
    }
    if x == e {
        assert(s.push(x)[s.len() as int] == e);
    }
}

// ───────────────────────── after a coplanar merge ─────────────────────────

impl Mesh {
    /// Update a Push/Pull result after its faces were merged with coplanar
    /// neighbours: `surviving` lists the result faces still present, in
    /// order. The top face keeps its id if it is still active, otherwise the
    /// first survivor becomes the top; the side faces are the survivors
    /// other than the top, in order. Nothing changes when nothing survived.
    pub fn adr_067_step1_auto_merge_result(&self, result: &mut PushPullResult, surviving: Vec<FaceId>)
        ensures
            surviving@.len() == 0 ==> final(result).top_face == old(result).top_face
                && final(result).side_faces@ == old(result).side_faces@,
            surviving@.len() > 0 ==> {
                let top = if self.face_active(old(result).top_face) { old(result).top_face } else { surviving@[0] };
                &&& final(result).top_face == top
                &&& final(result).side_faces@ == surviving@.filter(|f: FaceId| f != top)
            },
            final(result).base_face == old(result).base_face,
            final(result).new_verts@ == old(result).new_verts@,
            final(result).base_removed == old(result).base_removed,
            final(result).adjacent_splits == old(result).adjacent_splits,
    {
        if surviving.len() == 0 {
            return;
        }
        let idx = result.top_face.id as usize;
        let top_active = if idx < self.faces.len() {
            match &self.faces[idx] {
                Some(fc) => fc.active,
                None => false,
            }
        } else {
            false
        };
        let new_top = if top_active { result.top_face } else { surviving[0] };
        let mut sides: Vec<FaceId> = Vec::new();
        let mut i: usize = 0;
        while i < surviving.len()
            invariant
                0 <= i <= surviving@.len(),
                sides@ == surviving@.subrange(0, i as int).filter(|f: FaceId| f != new_top),
            decreases surviving@.len() - i,
        {
            let f = surviving[i];
            proof {
                let sub = surviving@.subrange(0, i as int + 1);
                assert(sub.drop_last() =~= surviving@.subrange(0, i as int));
                assert(sub.last() == f);
                surviving@.subrange(0, i as int).lemma_filter_push(f, |g: FaceId| g != new_top);
                assert(sub =~= surviving@.subrange(0, i as int).push(f));
            }
            if f != new_top {
                sides.push(f);
            }
            i = i + 1;
        }
        assert(surviving@.subrange(0, surviving@.len() as int) =~= surviving@);
        result.top_face = new_top;
        result.side_faces = sides;
    }
}

// ───────────────────────── shared edges of two faces ─────────────────────────

/// The edge from `a` to `b` with the smaller raw id first.
pub open spec fn normalized(a: VertId, b: VertId) -> (VertId, VertId) {
    if a.id < b.id {
        (a, b)
    } else {
        (b, a)
    }
}

/// The normalized edges of a cyclic vertex list.
pub open spec fn cyc_edges(vs: Seq<VertId>) -> Seq<(VertId, VertId)> {
    Seq::new(vs.len(), |i: int| normalized(vs[i], vs[(i + 1) % (vs.len() as int)]))
}

/// The outer-loop vertices of face `f`, when it is stored, has a non-null
/// outer loop that closes.
pub open spec fn outer_verts(m: &Mesh, f: FaceId) -> Option<Seq<VertId>> {
    if m.has_face(f) && m.face(f).outer.id != NULL_RAW && has_loop(m.hes@, m.face(f).outer.id as int) {
        Some(dsts_of(m.hes@, loop_seq(m.hes@, m.face(f).outer.id as int)))
    } else {
        None
    }
}

/// The first edge of `b` (in loop order) that is also an edge of `a`.
pub open spec fn first_shared(a: Seq<VertId>, b: Seq<VertId>) -> Option<(VertId, VertId)> {
    let ea = cyc_edges(a);
    let eb = cyc_edges(b);
    if exists|i: int| 0 <= i < eb.len() && ea.contains(#[trigger] eb[i]) {
        let i = choose|i: int|
            0 <= i < eb.len() && ea.contains(#[trigger] eb[i]) && forall|j: int| 0 <= j < i ==> !ea.contains(#[trigger] eb[j]);
        Some(eb[i])
    } else {
        None
    }
}

/// The cyclic edges of a vertex list, normalized.
fn cyc_edges_exec(vs: &Vec<VertId>) -> (r: Vec<(VertId, VertId)>)
    ensures
        r@ == cyc_edges(vs@),
{
    let n = vs.len();
    let mut r: Vec<(VertId, VertId)> = Vec::new();
    let mut i: usize = 0;
    while i < n
        invariant
            n == vs@.len(),
            0 <= i <= n,
            r@ == cyc_edges(vs@).subrange(0, i as int),
        decreases n - i,
    {
        let a = vs[i];
        let b = if i + 1 == n { vs[0] } else { vs[i + 1] };
        assert(b == vs@[(i + 1) % (n as int)]) by {
            if i + 1 < n {
                vstd::arithmetic::div_mod::lemma_small_mod((i + 1) as nat, n as nat);
            } else {
                vstd::arithmetic::div_mod::lemma_mod_self_0(n as int);
            }
        }
        let e = if a.id < b.id { (a, b) } else { (b, a) };
        r.push(e);
        i = i + 1;
        assert(r@ =~= cyc_edges(vs@).subrange(0, i as int));
    }
    assert(r@ =~= cyc_edges(vs@));
    r
}

impl Mesh {
    /// The outer-loop vertices of face `f`, if it has a usable outer loop.
    pub(crate) fn outer_loop_verts(&self, f: FaceId) -> (r: Option<Vec<VertId>>)
        requires
            self.wf(),
        ensures
            match r {
                Some(v) => outer_verts(self, f) == Some(v@),
                None => outer_verts(self, f) is None,
            },
    {
        let idx = f.id as usize;
        if idx >= self.faces.len() {
            return None;
        }
        let outer = match &self.faces[idx] {
            Some(fc) => fc.outer,
            None => {
                return None;
            },
        };
        if outer.id == NULL_RAW {
            return None;
        }
        match self.collect_loop_verts(outer) {
            Ok(v) => Some(v),
            Err(_) => None,
        }
    }

    /// The first edge of `face_b`'s outer loop that is also an edge of
    /// `face_a`'s outer loop, as a vertex pair with the smaller raw id
    /// first. A face without a usable outer loop contributes no edges.
    pub fn find_shared_edge_vertices(&self, face_a: FaceId, face_b: FaceId) -> (res: Option<(VertId, VertId)>)
        requires
            self.wf(),
        ensures
            res == first_shared(
                match outer_verts(self, face_a) { Some(v) => v, None => Seq::empty() },
                match outer_verts(self, face_b) { Some(v) => v, None => Seq::empty() },
            ),
    {
        let va = match self.outer_loop_verts(face_a) {
            Some(v) => v,
            None => Vec::new(),
        };
        let vb = match self.outer_loop_verts(face_b) {
            Some(v) => v,
            None => Vec::new(),
        };
        assert(va@ == match outer_verts(self, face_a) { Some(v) => v, None => Seq::<VertId>::empty() });
        assert(vb@ == match outer_verts(self, face_b) { Some(v) => v, None => Seq::<VertId>::empty() });
        let ea = cyc_edges_exec(&va);
        let eb = cyc_edges_exec(&vb);
        let mut i: usize = 0;
        while i < eb.len()
            invariant
                ea@ == cyc_edges(va@),
                eb@ == cyc_edges(vb@),
                va@ == match outer_verts(self, face_a) { Some(v) => v, None => Seq::<VertId>::empty() },
                vb@ == match outer_verts(self, face_b) { Some(v) => v, None => Seq::<VertId>::empty() },
                0 <= i <= eb@.len(),
                forall|j: int| 0 <= j < i ==> !ea@.contains(#[trigger] eb@[j]),
            decreases eb@.len() - i,
        {
            let e = eb[i];
            let mut j: usize = 0;
            let mut hit = false;
            while j < ea.len()
                invariant
                    0 <= j <= ea@.len(),
                    hit == exists|q: int| 0 <= q < j && ea@[q] == e,
                decreases ea@.len() - j,
            {
                if ea[j].0 == e.0 && ea[j].1 == e.1 {
                    hit = true;
                }
                j = j + 1;
            }
            if hit {
                proof {
                    let a = ea@;
                    let b = eb@;
                    let q0 = choose|q: int| 0 <= q < ea@.len() && ea@[q] == e;
                    assert(a[q0] == b[i as int]);
                    assert(a.contains(b[i as int]));
                    assert(exists|q: int| 0 <= q < b.len() && a.contains(#[trigger] b[q]));
                    let w = choose|w: int|
                        0 <= w < b.len() && a.contains(#[trigger] b[w]) && forall|q: int| 0 <= q < w ==> !a.contains(#[trigger] b[q]);
                    if w < i {
                        assert(!a.contains(b[w]));
                    } else if w > i {
                        assert(!a.contains(b[i as int]));
                    }
                    assert(w == i);
                    assert(first_shared(va@, vb@) == Some(b[i as int]));
                }
                return Some(e);
            }
            i = i + 1;
        }
        None
    }
}

} // verus!
