//! The half-edge mesh: arenas of vertices, half-edges, edges and faces.
//!
//! Every cross reference is an index into one of the arenas (or the null
//! index). `Mesh::wf` states that every non-null reference is in range; all
//! operations require and preserve it, so indexing never goes out of bounds.
use vstd::prelude::*;

use crate::ids::{EdgeId, FaceId, HeId, MaterialId, VertId, NULL_RAW};

verus! {

/// Bit mask of the IEEE-754 sign bit of an `f64`.
pub const SIGN_BIT: u64 = 0x8000_0000_0000_0000u64;

/// A 3-vector of `f64` values held as their raw IEEE-754 bit patterns.
#[derive(Clone, Copy, Debug, PartialEq, Eq, Structural)]
pub struct Vec3Bits {
    pub x: u64,
    pub y: u64,
    pub z: u64,
}

/// IEEE-754 negation of each component: flips the sign bit.
pub open spec fn neg_bits(v: Vec3Bits) -> Vec3Bits {
    Vec3Bits { x: v.x ^ SIGN_BIT, y: v.y ^ SIGN_BIT, z: v.z ^ SIGN_BIT }
}

impl Vec3Bits {
    /// Component-wise negation (`-v` on the `f64` values).
    pub fn neg(&self) -> (r: Vec3Bits)
        ensures
            r == neg_bits(*self),
    {
        Vec3Bits { x: self.x ^ SIGN_BIT, y: self.y ^ SIGN_BIT, z: self.z ^ SIGN_BIT }
    }
}

/// Negating twice gives back the original bits.
pub proof fn lemma_neg_neg(v: Vec3Bits)
    ensures
        neg_bits(neg_bits(v)) == v,
{
    let x = v.x;
    let y = v.y;
    let z = v.z;
    assert((x ^ 0x8000_0000_0000_0000u64) ^ 0x8000_0000_0000_0000u64 == x) by (bit_vector);
    assert((y ^ 0x8000_0000_0000_0000u64) ^ 0x8000_0000_0000_0000u64 == y) by (bit_vector);
    assert((z ^ 0x8000_0000_0000_0000u64) ^ 0x8000_0000_0000_0000u64 == z) by (bit_vector);
}

/// A vertex: its position and whether it is alive.
#[derive(Clone, Copy, Debug)]
pub struct Vertex {
    pub pos: Vec3Bits,
    pub active: bool,
}

/// A directed half-edge. `dst` is the vertex it points to; `next`/`prev`
/// walk its loop; `next_rad` walks the circular list of half-edges on the
/// same edge; `face` is the owning face or null when the half-edge is free.
#[derive(Clone, Copy, Debug)]
pub struct HalfEdge {
    pub next: HeId,
    pub prev: HeId,
    pub dst: VertId,
    pub edge: EdgeId,
    pub face: FaceId,
    pub next_rad: HeId,
}

/// An undirected edge between `v_small` and `v_large` (`v_small <= v_large`).
#[derive(Clone, Copy, Debug)]
pub struct Edge {
    pub v_small: VertId,
    pub v_large: VertId,
    pub any_he: HeId,
    pub active: bool,
}

/// The kind of surface a face lies on.
#[derive(Clone, Copy, Debug, PartialEq, Eq, Structural)]
pub enum SurfaceKind {
    Plane,
    Cylinder,
    Sphere,
    Cone,
    Torus,
    Freeform,
}

/// A face: one outer loop, any number of hole loops, a cached normal, a
/// material, the kind of surface it lies on and an activity flag. Loops are
/// given by one of their half-edges.
#[derive(Clone, Debug)]
pub struct Face {
    pub outer: HeId,
    pub inners: Vec<HeId>,
    pub normal: Vec3Bits,
    pub material: MaterialId,
    pub surface: SurfaceKind,
    pub active: bool,
}

/// Errors of the mesh kernel.
#[derive(Clone, Copy, Debug, PartialEq, Eq, Structural)]
pub enum MeshError {
    /// The face id does not name a stored face.
    FaceNotFound,
    /// The half-edge id is out of range or null.
    HalfEdgeNotFound,
    /// Following `next` from the start does not come back to it.
    BrokenLoop,
    /// A loop has fewer than three vertices.
    Degenerate,
    /// A vertex id is out of range, inactive, or repeated consecutively.
    BadVertex,
    /// An arena is full.
    Capacity,
}

/// The description of each kernel error.
pub open spec fn mesh_error_text(e: MeshError) -> Seq<char> {
    match e {
        MeshError::FaceNotFound => "face not found"@,
        MeshError::HalfEdgeNotFound => "half-edge not found"@,
        MeshError::BrokenLoop => "loop does not close"@,
        MeshError::Degenerate => "fewer than three vertices"@,
        MeshError::BadVertex => "bad vertex"@,
        MeshError::Capacity => "arena full"@,
    }
}

impl MeshError {
    /// A short description of the error.
    pub fn describe(&self) -> (s: &'static str)
        ensures
            s@ == mesh_error_text(*self),
    {
        proof {
            reveal_strlit("face not found");
            reveal_strlit("half-edge not found");
            reveal_strlit("loop does not close");
            reveal_strlit("fewer than three vertices");
            reveal_strlit("bad vertex");
            reveal_strlit("arena full");
        }
        match self {
            MeshError::FaceNotFound => "face not found",
            MeshError::HalfEdgeNotFound => "half-edge not found",
            MeshError::BrokenLoop => "loop does not close",
            MeshError::Degenerate => "fewer than three vertices",
            MeshError::BadVertex => "bad vertex",
            MeshError::Capacity => "arena full",
        }
    }
}

/// The half-edge mesh.
pub struct Mesh {
    pub verts: Vec<Vertex>,
    pub hes: Vec<HalfEdge>,
    pub edges: Vec<Edge>,
    pub faces: Vec<Option<Face>>,
    pub sphere_path_b: bool,
    pub cylinder_path_b: bool,
    pub cone_path_b: bool,
}

// ───────────────────────── well-formedness ─────────────────────────

pub open spec fn he_refs_ok(h: HalfEdge, nv: int, nh: int, ne: int, nf: int) -> bool {
    &&& (h.next.id as int) < nh
    &&& (h.prev.id as int) < nh
    &&& (h.dst.id as int) < nv
    &&& (h.edge.id as int) < ne
    &&& (h.next_rad.id as int) < nh
    &&& (h.face.id == NULL_RAW || (h.face.id as int) < nf)
}

pub open spec fn edge_refs_ok(e: Edge, nv: int, nh: int) -> bool {
    &&& (e.any_he.id as int) < nh
    &&& (e.v_small.id as int) < nv
    &&& (e.v_large.id as int) < nv
}

pub open spec fn loop_ref_ok(h: HeId, nh: int) -> bool {
    h.id == NULL_RAW || (h.id as int) < nh
}

pub open spec fn face_refs_ok(f: Face, nh: int) -> bool {
    &&& loop_ref_ok(f.outer, nh)
    &&& forall|i: int| 0 <= i < f.inners@.len() ==> #[trigger] loop_ref_ok(f.inners@[i], nh)
}

impl Mesh {
    pub open spec fn nv(&self) -> int {
        self.verts@.len() as int
    }

    pub open spec fn nh(&self) -> int {
        self.hes@.len() as int
    }

    pub open spec fn ne(&self) -> int {
        self.edges@.len() as int
    }

    pub open spec fn nf(&self) -> int {
        self.faces@.len() as int
    }

    /// Every stored reference is null or below the given half-edge and face
    /// bounds (vertex and edge references are checked against the arenas).
    pub open spec fn refs_ok_upto(&self, nh: int, nf: int) -> bool {
        &&& forall|i: int|
            0 <= i < self.nh() ==> #[trigger] he_refs_ok(self.hes@[i], self.nv(), nh, self.ne(), nf)
        &&& forall|i: int| 0 <= i < self.ne() ==> #[trigger] edge_refs_ok(self.edges@[i], self.nv(), nh)
        &&& forall|i: int|
            0 <= i < self.nf() && (#[trigger] self.faces@[i]).is_some() ==> face_refs_ok(
                self.faces@[i].unwrap(),
                nh,
            )
    }

    /// Every reference stored in the mesh is null or in range, and every
    /// arena is small enough that its indices differ from the null index.
    pub open spec fn wf(&self) -> bool {
        &&& self.nv() < NULL_RAW
        &&& self.nh() < NULL_RAW
        &&& self.ne() < NULL_RAW
        &&& self.nf() < NULL_RAW
        &&& self.refs_ok_upto(self.nh(), self.nf())
    }

    /// The face id names a stored face.
    pub open spec fn has_face(&self, f: FaceId) -> bool {
        (f.id as int) < self.nf() && self.faces@[f.id as int].is_some()
    }

    /// The stored face named by `f` (meaningful when `has_face(f)`).
    pub open spec fn face(&self, f: FaceId) -> Face {
        self.faces@[f.id as int].unwrap()
    }

    /// The face id names a stored, active face.
    pub open spec fn face_active(&self, f: FaceId) -> bool {
        self.has_face(f) && self.face(f).active
    }

}

// ───────────────────────── loops ─────────────────────────

/// The half-edge reached from `h` after `k` steps along `next`.
pub open spec fn walk(hes: Seq<HalfEdge>, h: int, k: nat) -> int
    decreases k,
{
    if k == 0 {
        h
    } else {
        hes[walk(hes, h, (k - 1) as nat)].next.id as int
    }
}

/// `k` is the first positive number of `next` steps that leads from `s`
/// back to `s`.
pub open spec fn closes_at(hes: Seq<HalfEdge>, s: int, k: nat) -> bool {
    &&& k >= 1
    &&& walk(hes, s, k) == s
    &&& forall|m: nat| 1 <= m < k ==> walk(hes, s, m) != s
}

/// `s` starts a loop of at most `hes.len()` half-edges.
pub open spec fn has_loop(hes: Seq<HalfEdge>, s: int) -> bool {
    &&& 0 <= s < hes.len()
    &&& exists|k: nat| k <= hes.len() && closes_at(hes, s, k)
}

/// `v` lists, in `next` order, the loop that starts at `s`.
pub open spec fn is_loop_of(hes: Seq<HalfEdge>, s: int, v: Seq<HeId>) -> bool {
    &&& 0 <= s < hes.len()
    &&& closes_at(hes, s, v.len())
    &&& forall|i: int| 0 <= i < v.len() ==> (#[trigger] v[i]).id as int == walk(hes, s, i as nat)
}

/// The number of half-edges of the loop that starts at `s` (meaningful when
/// `has_loop(hes, s)`).
pub open spec fn loop_len(hes: Seq<HalfEdge>, s: int) -> nat {
    choose|k: nat| k <= hes.len() && closes_at(hes, s, k)
}

/// The half-edges of the loop that starts at `s`, in `next` order
/// (meaningful when `has_loop(hes, s)`).
pub open spec fn loop_seq(hes: Seq<HalfEdge>, s: int) -> Seq<HeId> {
    Seq::new(loop_len(hes, s), |i: int| HeId { id: walk(hes, s, i as nat) as u32 })
}

/// A loop is closed by exactly one first-return length.
pub proof fn lemma_closes_unique(hes: Seq<HalfEdge>, s: int, k1: nat, k2: nat)
    requires
        closes_at(hes, s, k1),
        closes_at(hes, s, k2),
    ensures
        k1 == k2,
{
    if k1 < k2 {
        assert(walk(hes, s, k1) == s);
    } else if k2 < k1 {
        assert(walk(hes, s, k2) == s);
    }
}

/// A listing of the loop at `s` is `loop_seq(hes, s)`.
pub proof fn lemma_loop_of_is_loop_seq(hes: Seq<HalfEdge>, s: int, v: Seq<HeId>)
    requires
        is_loop_of(hes, s, v),
        v.len() <= hes.len(),
    ensures
        has_loop(hes, s),
        loop_len(hes, s) == v.len(),
        loop_seq(hes, s) == v,
{
    assert(closes_at(hes, s, v.len()));
    let k = loop_len(hes, s);
    assert(k <= hes.len() && closes_at(hes, s, k));
    lemma_closes_unique(hes, s, k, v.len());
    assert forall|i: int| 0 <= i < v.len() implies #[trigger] loop_seq(hes, s)[i] == v[i] by {
        assert(v[i].id as int == walk(hes, s, i as nat));
    }
    assert(loop_seq(hes, s) =~= v);
}

/// Walking `a` steps then `t` steps is walking `a + t` steps.
pub proof fn lemma_walk_add(hes: Seq<HalfEdge>, h: int, a: nat, t: nat)
    ensures
        walk(hes, walk(hes, h, a), t) == walk(hes, h, a + t),
    decreases t,
{
    if t > 0 {
        lemma_walk_add(hes, h, a, (t - 1) as nat);
    }
}

/// The half-edges of a loop are pairwise distinct.
pub proof fn lemma_loop_distinct(hes: Seq<HalfEdge>, s: int, v: Seq<HeId>)
    requires
        is_loop_of(hes, s, v),
    ensures
        forall|i: int, j: int| 0 <= i < j < v.len() ==> v[i].id != v[j].id,
{
    assert forall|i: int, j: int| 0 <= i < j < v.len() implies v[i].id != v[j].id by {
        if v[i].id == v[j].id {
            let t = (v.len() - j) as nat;
            lemma_walk_add(hes, s, i as nat, t);
            lemma_walk_add(hes, s, j as nat, t);
            assert(v[i].id as int == walk(hes, s, i as nat));
            assert(v[j].id as int == walk(hes, s, j as nat));
            assert(walk(hes, s, (j + t) as nat) == s);
            let m = (i + t) as nat;
            assert(1 <= m < v.len());
            assert(walk(hes, s, m) == s);
        }
    }
}


/// Every half-edge of loop `v` is owned by a face.
pub open spec fn loop_owned(hes: Seq<HalfEdge>, v: Seq<HeId>) -> bool {
    forall|k: int| 0 <= k < v.len() ==> hes[(#[trigger] v[k]).id as int].face.id != NULL_RAW
}

/// Along loop `v`, each half-edge's `prev` is its predecessor in the loop.
pub open spec fn loop_consistent(hes: Seq<HalfEdge>, v: Seq<HeId>) -> bool {
    forall|k: int| 0 <= k < v.len() ==> #[trigger] hes[v[k].id as int].prev == v[cyc_prev(k, v.len() as int)]
}

/// The destination vertices of a list of half-edges.
pub open spec fn dsts_of(hes: Seq<HalfEdge>, v: Seq<HeId>) -> Seq<VertId> {
    Seq::new(v.len(), |i: int| hes[v[i].id as int].dst)
}

impl Mesh {
    /// An empty mesh. The Path B dispatch flags start off (Path A).
    pub fn new() -> (m: Mesh)
        ensures
            m.wf(),
            m.verts@.len() == 0,
            m.hes@.len() == 0,
            m.edges@.len() == 0,
            m.faces@.len() == 0,
            !m.sphere_path_b,
            !m.cylinder_path_b,
            !m.cone_path_b,
    {
        Mesh {
            verts: Vec::new(),
            hes: Vec::new(),
            edges: Vec::new(),
            faces: Vec::new(),
            sphere_path_b: false,
            cylinder_path_b: false,
            cone_path_b: false,
        }
    }

    /// Follow `next` from `start` and list the loop's half-edges.
    /// Fails when `start` is not a half-edge or the walk does not come back
    /// to `start` within as many steps as there are half-edges.
    pub fn collect_loop_hes(&self, start: HeId) -> (res: Result<Vec<HeId>, MeshError>)
        requires
            self.wf(),
        ensures
            match res {
                Ok(v) => is_loop_of(self.hes@, start.id as int, v@) && has_loop(self.hes@, start.id as int)
                    && v@ == loop_seq(self.hes@, start.id as int),
                Err(e) => !has_loop(self.hes@, start.id as int) && e == (if start.id >= self.nh() {
                    MeshError::HalfEdgeNotFound
                } else {
                    MeshError::BrokenLoop
                }),
            },
    {
        let n = self.hes.len();
        if start.id as usize >= n {
            return Err(MeshError::HalfEdgeNotFound);
        }
        let ghost s = start.id as int;
        let mut out: Vec<HeId> = Vec::new();
        out.push(start);
        let mut cur = start;
        assert(walk(self.hes@, s, 0) == s);
        while out.len() <= n
            invariant
                self.wf(),
                n == self.hes@.len(),
                0 <= s < n,
                s == start.id as int,
                1 <= out@.len() <= n,
                cur == out@[out@.len() - 1],
                (cur.id as int) < n,
                forall|i: int| 0 <= i < out@.len() ==> (#[trigger] out@[i]).id as int == walk(self.hes@, s, i as nat),
                forall|m: nat| 1 <= m < out@.len() ==> walk(self.hes@, s, m) != s,
            decreases n - out@.len(),
        {
            let ghost k = out@.len();
            assert(he_refs_ok(self.hes@[cur.id as int], self.nv(), self.nh(), self.ne(), self.nf()));
            let nxt = self.hes[cur.id as usize].next;
            assert(cur.id as int == walk(self.hes@, s, (k - 1) as nat));
            assert(walk(self.hes@, s, k as nat) == self.hes@[walk(self.hes@, s, (k - 1) as nat)].next.id as int);
            assert(nxt.id as int == walk(self.hes@, s, k as nat));
            if nxt.id == start.id {
                assert(walk(self.hes@, s, k as nat) == s);
                assert(forall|m: nat| 1 <= m < k ==> walk(self.hes@, s, m) != s);
                assert(closes_at(self.hes@, s, k as nat));
                proof {
                    lemma_loop_of_is_loop_seq(self.hes@, s, out@);
                }
                return Ok(out);
            }
            if out.len() == n {
                assert forall|kk: nat| kk <= self.hes@.len() implies !closes_at(self.hes@, s, kk) by {
                    if kk >= 1 && closes_at(self.hes@, s, kk) {
                        assert(walk(self.hes@, s, kk) == s);
                        if kk < k {
                            assert(walk(self.hes@, s, kk) != s);
                        } else {
                            assert(kk == k);
                        }
                    }
                }
                return Err(MeshError::BrokenLoop);
            }
            out.push(nxt);
            cur = nxt;
        }
        proof {
            assert(false);
        }
        Err(MeshError::BrokenLoop)
    }

    /// The destination vertices of the loop that starts at `start`, in loop
    /// order.
    pub fn collect_loop_verts(&self, start: HeId) -> (res: Result<Vec<VertId>, MeshError>)
        requires
            self.wf(),
        ensures
            match res {
                Ok(vs) => has_loop(self.hes@, start.id as int) && vs@ == dsts_of(
                    self.hes@,
                    loop_seq(self.hes@, start.id as int),
                ),
                Err(e) => !has_loop(self.hes@, start.id as int) && e == (if start.id >= self.nh() {
                    MeshError::HalfEdgeNotFound
                } else {
                    MeshError::BrokenLoop
                }),
            },
    {
        let hv = self.collect_loop_hes(start)?;
        let mut out: Vec<VertId> = Vec::new();
        let mut i: usize = 0;
        while i < hv.len()
            invariant
                self.wf(),
                is_loop_of(self.hes@, start.id as int, hv@),
                0 <= i <= hv@.len(),
                out@ == dsts_of(self.hes@, hv@).subrange(0, i as int),
            decreases hv@.len() - i,
        {
            let h = hv[i];
            assert(walk(self.hes@, start.id as int, i as nat) < self.nh()) by {
                if i > 0 {
                    let p = walk(self.hes@, start.id as int, (i - 1) as nat);
                    lemma_walk_in_range(self, start.id as int, (i - 1) as nat);
                    assert(he_refs_ok(self.hes@[p], self.nv(), self.nh(), self.ne(), self.nf()));
                }
            }
            out.push(self.hes[h.id as usize].dst);
            i = i + 1;
            assert(out@ =~= dsts_of(self.hes@, hv@).subrange(0, i as int));
        }
        assert(out@ =~= dsts_of(self.hes@, hv@));
        Ok(out)
    }
}

/// In a well-formed mesh, walking from an in-range half-edge stays in range.
pub proof fn lemma_walk_in_range(m: &Mesh, s: int, k: nat)
    requires
        m.wf(),
        0 <= s < m.nh(),
    ensures
        0 <= walk(m.hes@, s, k) < m.nh(),
    decreases k,
{
    if k > 0 {
        lemma_walk_in_range(m, s, (k - 1) as nat);
        let p = walk(m.hes@, s, (k - 1) as nat);
        assert(he_refs_ok(m.hes@[p], m.nv(), m.nh(), m.ne(), m.nf()));
    }
}


// ───────────────────────── edges and construction ─────────────────────────

/// The edge is active and joins `a` and `b` (in either order).
pub open spec fn edge_joins(e: Edge, a: VertId, b: VertId) -> bool {
    &&& e.active
    &&& ((e.v_small == a && e.v_large == b) || (e.v_small == b && e.v_large == a))
}

/// The vertices of a new loop are usable: in range, active, and no vertex
/// is followed (cyclically) by itself.
pub open spec fn loop_verts_ok(m: &Mesh, vs: Seq<VertId>) -> bool {
    &&& vs.len() >= 3
    &&& forall|i: int| 0 <= i < vs.len() ==> (#[trigger] vs[i]).id < m.nv() && m.verts@[vs[i].id as int].active
    &&& forall|i: int| 0 <= i < vs.len() ==> #[trigger] vs[i] != vs[(i + 1) % (vs.len() as int)]
}

impl Mesh {
    /// The first active edge joining `a` and `b`, if any.
    pub fn find_edge(&self, a: VertId, b: VertId) -> (res: Option<EdgeId>)
        requires
            self.ne() < NULL_RAW,
        ensures
            match res {
                Some(e) => (e.id as int) < self.ne() && edge_joins(self.edges@[e.id as int], a, b)
                    && forall|j: int| 0 <= j < e.id ==> !edge_joins(#[trigger] self.edges@[j], a, b),
                None => forall|j: int| 0 <= j < self.ne() ==> !edge_joins(#[trigger] self.edges@[j], a, b),
            },
    {
        let mut i: usize = 0;
        while i < self.edges.len()
            invariant
                self.ne() < NULL_RAW,
                0 <= i <= self.ne(),
                forall|j: int| 0 <= j < i ==> !edge_joins(#[trigger] self.edges@[j], a, b),
            decreases self.ne() - i,
        {
            let e = &self.edges[i];
            if e.active && ((e.v_small == a && e.v_large == b) || (e.v_small == b && e.v_large == a)) {
                return Some(EdgeId { id: i as u32 });
            }
            i = i + 1;
        }
        None
    }

    /// Append a new active vertex at `pos` (no merging with existing ones).
    pub fn add_vertex(&mut self, pos: Vec3Bits) -> (res: Result<VertId, MeshError>)
        requires
            old(self).wf(),
        ensures
            final(self).wf(),
            final(self).hes@ == old(self).hes@,
            final(self).edges@ == old(self).edges@,
            final(self).faces@ == old(self).faces@,
            final(self).sphere_path_b == old(self).sphere_path_b,
            final(self).cylinder_path_b == old(self).cylinder_path_b,
            final(self).cone_path_b == old(self).cone_path_b,
            match res {
                Ok(v) => v.id as int == old(self).nv() && final(self).verts@ == old(self).verts@.push(
                    Vertex { pos, active: true },
                ),
                Err(e) => e == MeshError::Capacity && old(self).nv() + 1 >= NULL_RAW
                    && final(self).verts@ == old(self).verts@,
            },
    {
        if self.verts.len() >= 0xFFFF_FFFEusize {
            return Err(MeshError::Capacity);
        }
        let id = self.verts.len() as u32;
        self.verts.push(Vertex { pos, active: true });
        proof {
            assert forall|i: int| 0 <= i < self.nh() implies #[trigger] he_refs_ok(
                self.hes@[i], self.nv(), self.nh(), self.ne(), self.nf()) by {
                assert(he_refs_ok(old(self).hes@[i], old(self).nv(), old(self).nh(), old(self).ne(), old(self).nf()));
            }
            assert forall|i: int| 0 <= i < self.ne() implies #[trigger] edge_refs_ok(
                self.edges@[i], self.nv(), self.nh()) by {
                assert(edge_refs_ok(old(self).edges@[i], old(self).nv(), old(self).nh()));
            }
        }
        Ok(VertId { id })
    }
}

/// The half-edge ids `base, base + 1, ..., base + n - 1`.
pub open spec fn range_ids(base: int, n: int) -> Seq<HeId> {
    Seq::new(n as nat, |k: int| HeId { id: (base + k) as u32 })
}

/// Index of the predecessor of `i` in a cycle of length `n`.
pub open spec fn cyc_prev(i: int, n: int) -> int {
    (i + n - 1) % n
}

/// Index of the successor of `i` in a cycle of length `n`.
pub open spec fn cyc_next(i: int, n: int) -> int {
    (i + 1) % n
}

/// Half-edge `h` was built as position `k` of a loop of `n` half-edges
/// starting at `base`, arriving at `vs[k]` and owned by face `f`.
pub open spec fn he_built(h: HalfEdge, base: int, n: int, k: int, vs: Seq<VertId>, f: int) -> bool {
    &&& h.next.id as int == base + cyc_next(k, n)
    &&& h.prev.id as int == base + cyc_prev(k, n)
    &&& h.dst == vs[k]
    &&& h.face.id as int == f
}

/// Reference bounds that hold while a loop of half-edges is being appended:
/// loop links may point ahead (below `nloop`), radial links may not.
pub open spec fn building_he_ok(h: HalfEdge, nv: int, nh: int, nloop: int, ne: int, fmax: int) -> bool {
    &&& (h.next.id as int) < nloop
    &&& (h.prev.id as int) < nloop
    &&& (h.dst.id as int) < nv
    &&& (h.edge.id as int) < ne
    &&& (h.next_rad.id as int) < nh
    &&& (h.face.id == NULL_RAW || (h.face.id as int) <= fmax)
}

/// Same half-edge apart from its radial successor.
pub open spec fn same_but_rad(a: HalfEdge, b: HalfEdge) -> bool {
    &&& a.next == b.next
    &&& a.prev == b.prev
    &&& a.dst == b.dst
    &&& a.edge == b.edge
    &&& a.face == b.face
}

/// Same edge apart from its representative half-edge, which may only have
/// been filled in where it was null.
pub open spec fn same_edge_but_rep(a: Edge, b: Edge) -> bool {
    &&& a.v_small == b.v_small
    &&& a.v_large == b.v_large
    &&& a.active == b.active
    &&& (a.any_he.id != NULL_RAW ==> b.any_he == a.any_he)
}

/// Walking a freshly built loop.
pub proof fn lemma_walk_built(hes: Seq<HalfEdge>, base: int, n: int, k: nat)
    requires
        n >= 1,
        k <= n,
        0 <= base,
        base + n <= hes.len(),
        forall|j: int| 0 <= j < n ==> (#[trigger] hes[base + j]).next.id as int == base + cyc_next(j, n),
    ensures
        walk(hes, base, k) == if k == n { base } else { base + k },
    decreases k,
{
    if k > 0 {
        lemma_walk_built(hes, base, n, (k - 1) as nat);
        let j = k - 1;
        assert(hes[base + j].next.id as int == base + cyc_next(j, n));
        if k == n {
            assert(cyc_next(j, n) == 0) by {
                assert((n - 1 + 1) % n == 0) by (nonlinear_arith)
                    requires
                        n >= 1,
                ;
            }
        } else {
            vstd::arithmetic::div_mod::lemma_small_mod((j + 1) as nat, n as nat);
            assert(cyc_next(j, n) == j + 1);
        }
    }
}

impl Mesh {
    /// Add a face whose outer loop visits `vs` in order. Each new half-edge
    /// `base + i` arrives at `vs[i]` from `vs[i - 1]`; edges are shared with
    /// any existing active edge joining the same two vertices (the new
    /// half-edge joins that edge's radial list), otherwise created.
    /// The normal is supplied by the caller.
    #[verifier::rlimit(100)]
    pub fn add_face(&mut self, vs: &[VertId], normal: Vec3Bits, material: MaterialId) -> (res: Result<FaceId, MeshError>)
        requires
            old(self).wf(),
        ensures
            final(self).wf(),
            final(self).verts@ == old(self).verts@,
            final(self).sphere_path_b == old(self).sphere_path_b,
            final(self).cylinder_path_b == old(self).cylinder_path_b,
            final(self).cone_path_b == old(self).cone_path_b,
            (res is Err) ==> final(self).hes@ == old(self).hes@ && final(self).edges@ == old(self).edges@
                && final(self).faces@ == old(self).faces@,
            res == Err::<FaceId, MeshError>(MeshError::Degenerate) <==> vs@.len() < 3,
            res == Err::<FaceId, MeshError>(MeshError::Capacity) <==> vs@.len() >= 3 && (
                old(self).nh() + vs@.len() >= NULL_RAW || old(self).ne() + vs@.len() >= NULL_RAW
                || old(self).nf() + 1 >= NULL_RAW),
            res == Err::<FaceId, MeshError>(MeshError::BadVertex) <==> vs@.len() >= 3 && !(
                old(self).nh() + vs@.len() >= NULL_RAW || old(self).ne() + vs@.len() >= NULL_RAW
                || old(self).nf() + 1 >= NULL_RAW) && !loop_verts_ok(old(self), vs@),
            res is Ok <==> vs@.len() >= 3 && !(old(self).nh() + vs@.len() >= NULL_RAW || old(self).ne() + vs@.len() >= NULL_RAW
                || old(self).nf() + 1 >= NULL_RAW) && loop_verts_ok(old(self), vs@),
            match res {
                Ok(f) => {
                    let base = old(self).nh();
                    let n = vs@.len() as int;
                    &&& loop_verts_ok(old(self), vs@)
                    &&& f.id as int == old(self).nf()
                    &&& final(self).nf() == old(self).nf() + 1
                    &&& final(self).faces@.subrange(0, old(self).nf()) == old(self).faces@
                    &&& final(self).face_active(f)
                    &&& final(self).face(f).outer.id as int == base
                    &&& final(self).face(f).inners@.len() == 0
                    &&& final(self).face(f).normal == normal
                    &&& final(self).face(f).material == material
                    &&& final(self).nh() == base + n
                    &&& forall|j: int| 0 <= j < base ==> same_but_rad(#[trigger] final(self).hes@[j], old(self).hes@[j])
                    &&& forall|k: int| 0 <= k < n ==> he_built(#[trigger] final(self).hes@[base + k], base, n, k, vs@, f.id as int)
                    &&& forall|k: int| 0 <= k < n ==> edge_joins(
                        final(self).edges@[#[trigger] final(self).hes@[base + k].edge.id as int],
                        vs@[cyc_prev(k, n)], vs@[k])
                    &&& final(self).ne() >= old(self).ne()
                    &&& final(self).ne() <= old(self).ne() + n
                    &&& forall|j: int| 0 <= j < old(self).ne() ==> same_edge_but_rep(old(self).edges@[j], #[trigger] final(self).edges@[j])
                    &&& is_loop_of(final(self).hes@, base, range_ids(base, n))
                    &&& dsts_of(final(self).hes@, range_ids(base, n)) == vs@
                    &&& loop_consistent(final(self).hes@, loop_seq(final(self).hes@, base))
                    &&& loop_owned(final(self).hes@, loop_seq(final(self).hes@, base))
                },
                Err(_) => true,
            },
            res is Ok && crate::orient::tidy_mesh(old(self)) && vs@.no_duplicates() ==> crate::orient::tidy_mesh(final(self)),
    {
        let ghost m_in = *self;
        let n = vs.len();
        if n < 3 {
            return Err(MeshError::Degenerate);
        }
        if n >= 0xFFFF_FFFFusize - self.hes.len() || n >= 0xFFFF_FFFFusize - self.edges.len()
            || 1 >= 0xFFFF_FFFFusize - self.faces.len() {
            return Err(MeshError::Capacity);
        }
        // validate vertices
        let mut i: usize = 0;
        while i < n
            invariant
                self.wf(),
                self == old(self),
                !(self.nh() + n >= NULL_RAW || self.ne() + n >= NULL_RAW || self.nf() + 1 >= NULL_RAW),
                n == vs@.len(),
                n >= 3,
                0 <= i <= n,
                forall|j: int| 0 <= j < i ==> (#[trigger] vs@[j]).id < self.nv() && self.verts@[vs@[j].id as int].active,
                forall|j: int| 0 <= j < i ==> #[trigger] vs@[j] != vs@[(j + 1) % (n as int)],
            decreases n - i,
        {
            let v = vs[i];
            if v.id as usize >= self.verts.len() || !self.verts[v.id as usize].active {
                return Err(MeshError::BadVertex);
            }
            let w = if i + 1 == n { vs[0] } else { vs[i + 1] };
            assert(w == vs@[(i + 1) % (n as int)]) by {
                if i + 1 < n {
                    vstd::arithmetic::div_mod::lemma_small_mod((i + 1) as nat, n as nat);
                } else {
                    vstd::arithmetic::div_mod::lemma_mod_self_0(n as int);
                }
            }
            if v == w {
                return Err(MeshError::BadVertex);
            }
            i = i + 1;
        }
        assert(loop_verts_ok(self, vs@));
        let base = self.hes.len();
        let fid = self.faces.len();
        proof {
            lemma_wf_building(self);
        }
        let start = self.build_loop(vs, fid);
        let ghost after_loop = *self;
        self.faces.push(Some(Face { outer: start, inners: Vec::new(), normal, material, surface: SurfaceKind::Plane, active: true }));
        proof {
            assert(self.faces@.subrange(0, fid as int) =~= after_loop.faces@);
            lemma_building_push_face(&after_loop, self, base as int);
            let gbase = base as int;
            let gn = n as int;
            assert forall|j: int| 0 <= j < gn implies (#[trigger] self.hes@[gbase + j]).next.id as int == gbase + cyc_next(j, gn) by {
                assert(he_built(self.hes@[gbase + j], gbase, gn, j, vs@, fid as int));
            }
            lemma_loop_range(self.hes@, gbase, gn, vs@, fid as int);
            let v = range_ids(gbase, gn);
            lemma_loop_of_is_loop_seq(self.hes@, gbase, v);
            assert forall|k: int| 0 <= k < v.len() implies #[trigger] self.hes@[v[k].id as int].prev == v[cyc_prev(k, v.len() as int)] by {
                assert(he_built(self.hes@[gbase + k], gbase, gn, k, vs@, fid as int));
                assert(0 <= cyc_prev(k, gn) < gn);
            }
            assert forall|k: int| 0 <= k < v.len() implies self.hes@[(#[trigger] v[k]).id as int].face.id != NULL_RAW by {
                assert(he_built(self.hes@[gbase + k], gbase, gn, k, vs@, fid as int));
            }
            if crate::orient::tidy_mesh(&m_in) && vs@.no_duplicates() {
                crate::orient::lemma_add_face_tidy(&m_in, self, FaceId { id: fid as u32 }, vs@);
            }
        }
        Ok(FaceId { id: fid as u32 })
    }

    /// Append the half-edges of a loop visiting `vs` for face index `fid`
    /// (the face itself is stored by the caller). Half-edge `base + i`
    /// arrives at `vs[i]` from `vs[i - 1]`; each joins the radial list of an
    /// existing active edge between those vertices, or of a new edge.
    /// Returns the first half-edge of the loop.
    #[verifier::rlimit(100)]
    pub(crate) fn build_loop(&mut self, vs: &[VertId], fid: usize) -> (start: HeId)
        requires
            building(old(self), fid as int),
            loop_verts_ok(old(self), vs@),
            old(self).nh() + vs@.len() < NULL_RAW,
            old(self).ne() + vs@.len() < NULL_RAW,
        ensures
            building(final(self), fid as int),
            start.id as int == old(self).nh(),
            final(self).verts@ == old(self).verts@,
            final(self).faces@ == old(self).faces@,
            final(self).sphere_path_b == old(self).sphere_path_b,
            final(self).cylinder_path_b == old(self).cylinder_path_b,
            final(self).cone_path_b == old(self).cone_path_b,
            final(self).nh() == old(self).nh() + vs@.len(),
            old(self).ne() <= final(self).ne() <= old(self).ne() + vs@.len(),
            forall|j: int| 0 <= j < old(self).nh() ==> same_but_rad(#[trigger] final(self).hes@[j], old(self).hes@[j]),
            forall|k: int| 0 <= k < vs@.len() ==> he_built(#[trigger] final(self).hes@[old(self).nh() + k], old(self).nh(), vs@.len() as int, k, vs@, fid as int),
            forall|k: int| 0 <= k < vs@.len() ==> edge_joins(
                final(self).edges@[#[trigger] final(self).hes@[old(self).nh() + k].edge.id as int],
                vs@[cyc_prev(k, vs@.len() as int)], vs@[k]),
            forall|j: int| 0 <= j < old(self).ne() ==> same_edge_but_rep(old(self).edges@[j], #[trigger] final(self).edges@[j]),
    {
        let n = vs.len();
        let ghost old_m = *self;
        let base = self.hes.len();
        let fid = self.faces.len();
        let ghost gbase = base as int;
        let ghost gn = n as int;
        proof {
            assert forall|j: int| 0 <= j < self.nh() implies building_he_ok(#[trigger] self.hes@[j], self.nv(), self.nh(), gbase + gn, self.ne(), fid as int) by {
                assert(he_refs_ok(self.hes@[j], self.nv(), self.nh(), self.ne(), fid + 1));
            }
        }
        let mut i: usize = 0;
        while i < n
            invariant
                n == vs@.len(),
                n >= 3,
                gn == n as int,
                gbase == base as int,
                0 <= i <= n,
                base + n < NULL_RAW,
                old_m.ne() + n < NULL_RAW,
                fid + 1 < NULL_RAW,
                fid == old_m.nf(),
                base == old_m.nh(),
                building(&old_m, fid as int),
                loop_verts_ok(&old_m, vs@),
                self.verts@ == old_m.verts@,
                self.faces@ == old_m.faces@,
                self.sphere_path_b == old_m.sphere_path_b,
                self.cylinder_path_b == old_m.cylinder_path_b,
                self.cone_path_b == old_m.cone_path_b,
                self.nh() == base + i,
                old_m.ne() <= self.ne() <= old_m.ne() + i,
                forall|j: int| 0 <= j < self.nh() ==> building_he_ok(#[trigger] self.hes@[j], self.nv(), self.nh(), gbase + gn, self.ne(), fid as int),
                forall|j: int| 0 <= j < self.ne() ==> #[trigger] edge_refs_ok(self.edges@[j], self.nv(), self.nh()),
                forall|j: int| 0 <= j < base ==> same_but_rad(#[trigger] self.hes@[j], old_m.hes@[j]),
                forall|k: int| 0 <= k < i ==> he_built(#[trigger] self.hes@[gbase + k], gbase, gn, k, vs@, fid as int),
                forall|k: int| 0 <= k < i ==> edge_joins(
                    self.edges@[#[trigger] self.hes@[gbase + k].edge.id as int], vs@[cyc_prev(k, gn)], vs@[k]),
                forall|j: int| 0 <= j < old_m.ne() ==> same_edge_but_rep(old_m.edges@[j], #[trigger] self.edges@[j]),
            decreases n - i,
        {
            let a = if i == 0 { vs[n - 1] } else { vs[i - 1] };
            let b = vs[i];
            let h = HeId { id: (base + i) as u32 };
            let ghost pre = *self;
            let found = self.find_edge(a, b);
            let mut nr = h;
            let eid;
            match found {
                Some(e) => {
                    eid = e;
                    let any = self.edges[e.id as usize].any_he;
                    assert(edge_refs_ok(self.edges@[e.id as int], self.nv(), self.nh()));
                    if any.id == NULL_RAW {
                        let mut ed = self.edges[e.id as usize];
                        ed.any_he = h;
                        self.edges.set(e.id as usize, ed);
                    } else {
                        let mut r = self.hes[any.id as usize];
                        nr = r.next_rad;
                        assert(building_he_ok(pre.hes@[any.id as int], pre.nv(), pre.nh(), gbase + gn, pre.ne(), fid as int));
                        r.next_rad = h;
                        self.hes.set(any.id as usize, r);
                    }
                },
                None => {
                    let (lo, hi) = if a.id <= b.id { (a, b) } else { (b, a) };
                    eid = EdgeId { id: self.edges.len() as u32 };
                    self.edges.push(Edge { v_small: lo, v_large: hi, any_he: h, active: true });
                },
            }
            let ghost mid = *self;
            assert(edge_joins(self.edges@[eid.id as int], a, b));
            self.hes.push(HalfEdge {
                next: HeId { id: (if i + 1 == n { base } else { base + i + 1 }) as u32 },
                prev: HeId { id: (if i == 0 { base + n - 1 } else { base + i - 1 }) as u32 },
                dst: b,
                edge: eid,
                face: FaceId { id: fid as u32 },
                next_rad: nr,
            });
            proof {
                let ii = i as int;
                if ii == 0 {
                    assert(cyc_prev(ii, gn) == gn - 1) by {
                        vstd::arithmetic::div_mod::lemma_small_mod((gn - 1) as nat, gn as nat);
                    }
                } else {
                    assert(cyc_prev(ii, gn) == ii - 1) by {
                        vstd::arithmetic::div_mod::lemma_mod_add_multiples_vanish(ii - 1, gn);
                        vstd::arithmetic::div_mod::lemma_small_mod((ii - 1) as nat, gn as nat);
                    }
                }
                if ii + 1 == gn {
                    assert(cyc_next(ii, gn) == 0) by {
                        vstd::arithmetic::div_mod::lemma_mod_self_0(gn);
                    }
                } else {
                    assert(cyc_next(ii, gn) == ii + 1) by {
                        vstd::arithmetic::div_mod::lemma_small_mod((ii + 1) as nat, gn as nat);
                    }
                }
                assert(a == vs@[cyc_prev(ii, gn)]);
                assert(he_built(self.hes@[gbase + ii], gbase, gn, ii, vs@, fid as int));
                assert forall|j: int| 0 <= j < self.nh() implies building_he_ok(#[trigger] self.hes@[j], self.nv(), self.nh(), gbase + gn, self.ne(), fid as int) by {
                    if j < pre.nh() {
                        assert(building_he_ok(pre.hes@[j], pre.nv(), pre.nh(), gbase + gn, pre.ne(), fid as int));
                    }
                }
                assert forall|j: int| 0 <= j < self.ne() implies #[trigger] edge_refs_ok(self.edges@[j], self.nv(), self.nh()) by {
                    if j < pre.ne() {
                        assert(edge_refs_ok(pre.edges@[j], pre.nv(), pre.nh()));
                    }
                }
                assert forall|j: int| 0 <= j < base implies same_but_rad(#[trigger] self.hes@[j], old_m.hes@[j]) by {
                    assert(same_but_rad(pre.hes@[j], old_m.hes@[j]));
                }
                assert forall|k: int| 0 <= k < ii + 1 implies he_built(#[trigger] self.hes@[gbase + k], gbase, gn, k, vs@, fid as int) by {
                    if k < ii {
                        assert(he_built(pre.hes@[gbase + k], gbase, gn, k, vs@, fid as int));
                    }
                }
                assert forall|k: int| 0 <= k < ii + 1 implies edge_joins(
                    self.edges@[#[trigger] self.hes@[gbase + k].edge.id as int], vs@[cyc_prev(k, gn)], vs@[k]) by {
                    if k < ii {
                        assert(edge_joins(pre.edges@[pre.hes@[gbase + k].edge.id as int], vs@[cyc_prev(k, gn)], vs@[k]));
                        assert(self.hes@[gbase + k].edge == pre.hes@[gbase + k].edge);
                        let ej = pre.hes@[gbase + k].edge.id as int;
                        assert(edge_refs_ok(pre.edges@[ej], pre.nv(), pre.nh())) by {
                            assert(building_he_ok(pre.hes@[gbase + k], pre.nv(), pre.nh(), gbase + gn, pre.ne(), fid as int));
                        }
                    }
                }
                assert forall|j: int| 0 <= j < old_m.ne() implies same_edge_but_rep(old_m.edges@[j], #[trigger] self.edges@[j]) by {
                    assert(same_edge_but_rep(old_m.edges@[j], pre.edges@[j]));
                }
            }
            i = i + 1;
        }
        proof {
            assert forall|j: int| 0 <= j < self.nh() implies #[trigger] he_refs_ok(self.hes@[j], self.nv(), self.nh(), self.ne(), fid + 1) by {
                assert(building_he_ok(self.hes@[j], self.nv(), self.nh(), gbase + gn, self.ne(), fid as int));
            }
            assert forall|j: int| 0 <= j < self.nf() && (#[trigger] self.faces@[j]).is_some() implies face_refs_ok(self.faces@[j].unwrap(), self.nh()) by {
                assert(old_m.faces@[j] == self.faces@[j]);
                assert(face_refs_ok(old_m.faces@[j].unwrap(), old_m.nh()));
                let fc = self.faces@[j].unwrap();
                assert forall|q: int| 0 <= q < fc.inners@.len() implies #[trigger] loop_ref_ok(fc.inners@[q], self.nh()) by {
                    assert(loop_ref_ok(fc.inners@[q], old_m.nh()));
                }
            }
        }
        HeId { id: base as u32 }
    }
}

/// Reference bounds while the loops of face `fid` (not yet stored) are
/// being appended: every complete loop is in range and half-edges may name
/// face `fid`.
pub open spec fn building(m: &Mesh, fid: int) -> bool {
    &&& m.nv() < NULL_RAW
    &&& m.nh() < NULL_RAW
    &&& m.ne() < NULL_RAW
    &&& fid == m.nf()
    &&& fid + 1 < NULL_RAW
    &&& m.refs_ok_upto(m.nh(), fid + 1)
}

/// A well-formed mesh with room for one more face is ready for building.
pub(crate) proof fn lemma_wf_building(m: &Mesh)
    requires
        m.wf(),
        m.nf() + 1 < NULL_RAW,
    ensures
        building(m, m.nf()),
{
    assert forall|j: int| 0 <= j < m.nh() implies #[trigger] he_refs_ok(m.hes@[j], m.nv(), m.nh(), m.ne(), m.nf() + 1) by {
        assert(he_refs_ok(m.hes@[j], m.nv(), m.nh(), m.ne(), m.nf()));
    }
}

/// Storing the face once its loops are built restores well-formedness.
pub(crate) proof fn lemma_building_push_face(m0: &Mesh, m1: &Mesh, base: int)
    requires
        building(m0, m0.nf()),
        m1.verts@ == m0.verts@,
        m1.hes@ == m0.hes@,
        m1.edges@ == m0.edges@,
        m1.faces@.len() == m0.faces@.len() + 1,
        m1.faces@.subrange(0, m0.nf()) == m0.faces@,
        m1.faces@[m0.nf()].is_some(),
        face_refs_ok(m1.faces@[m0.nf()].unwrap(), m0.nh()),
    ensures
        m1.wf(),
{
    assert forall|j: int| 0 <= j < m1.nh() implies #[trigger] he_refs_ok(m1.hes@[j], m1.nv(), m1.nh(), m1.ne(), m1.nf()) by {
        assert(he_refs_ok(m0.hes@[j], m0.nv(), m0.nh(), m0.ne(), m0.nf() + 1));
    }
    assert forall|j: int| 0 <= j < m1.ne() implies #[trigger] edge_refs_ok(m1.edges@[j], m1.nv(), m1.nh()) by {
        assert(edge_refs_ok(m0.edges@[j], m0.nv(), m0.nh()));
    }
    assert forall|j: int| 0 <= j < m1.nf() && (#[trigger] m1.faces@[j]).is_some() implies face_refs_ok(m1.faces@[j].unwrap(), m1.nh()) by {
        if j < m0.nf() {
            assert(m1.faces@[j] == m0.faces@.index(j)) by {
                assert(m1.faces@.subrange(0, m0.nf())[j] == m1.faces@[j]);
            }
            assert(face_refs_ok(m0.faces@[j].unwrap(), m0.nh()));
        }
    }
}

/// A freshly built loop is a loop, and its destinations are the given vertices.
pub proof fn lemma_loop_range(hes: Seq<HalfEdge>, base: int, n: int, vs: Seq<VertId>, f: int)
    requires
        n >= 1,
        0 <= base,
        base + n <= hes.len(),
        base + n < NULL_RAW,
        vs.len() == n,
        forall|k: int| 0 <= k < n ==> he_built(#[trigger] hes[base + k], base, n, k, vs, f),
    ensures
        is_loop_of(hes, base, range_ids(base, n)),
        dsts_of(hes, range_ids(base, n)) == vs,
{
    assert forall|j: int| 0 <= j < n implies (#[trigger] hes[base + j]).next.id as int == base + cyc_next(j, n) by {
        assert(he_built(hes[base + j], base, n, j, vs, f));
    }
    let v = range_ids(base, n);
    lemma_walk_built(hes, base, n, n as nat);
    assert forall|m: nat| 1 <= m < n implies walk(hes, base, m) != base by {
        lemma_walk_built(hes, base, n, m);
    }
    assert forall|i: int| 0 <= i < v.len() implies (#[trigger] v[i]).id as int == walk(hes, base, i as nat) by {
        lemma_walk_built(hes, base, n, i as nat);
    }
    assert forall|i: int| 0 <= i < n implies #[trigger] dsts_of(hes, v)[i] == vs[i] by {
        assert(he_built(hes[base + i], base, n, i, vs, f));
    }
    assert(dsts_of(hes, v) =~= vs);
}


// ───────────────────────── radial lists ─────────────────────────

/// The half-edge reached from `h` after `k` steps along `next_rad`.
pub open spec fn walk_rad(hes: Seq<HalfEdge>, h: int, k: nat) -> int
    decreases k,
{
    if k == 0 {
        h
    } else {
        hes[walk_rad(hes, h, (k - 1) as nat)].next_rad.id as int
    }
}

/// How many radial steps a bounded radial walk from `s` takes: the first
/// return to `s`, or `bound` when it does not return within `bound` steps.
pub open spec fn rad_steps(hes: Seq<HalfEdge>, s: int, bound: nat) -> nat {
    if exists|k: nat| 1 <= k <= bound && walk_rad(hes, s, k) == s {
        choose|k: nat| 1 <= k <= bound && walk_rad(hes, s, k) == s && forall|m: nat|
            1 <= m < k ==> walk_rad(hes, s, m) != s
    } else {
        bound
    }
}

/// The distinct active faces met on the first `k` half-edges of the radial
/// walk from `s`, in the order they are met.
pub open spec fn faces_met(m: &Mesh, s: int, k: nat) -> Seq<FaceId>
    decreases k,
{
    if k == 0 {
        Seq::empty()
    } else {
        let prev = faces_met(m, s, (k - 1) as nat);
        let f = m.hes@[walk_rad(m.hes@, s, (k - 1) as nat)].face;
        if f.id != NULL_RAW && m.face_active(f) && !prev.contains(f) {
            prev.push(f)
        } else {
            prev
        }
    }
}

/// Every face met on a radial walk is active.
pub proof fn lemma_faces_met_active(m: &Mesh, s: int, k: nat)
    ensures
        forall|i: int| 0 <= i < faces_met(m, s, k).len() ==> m.face_active(#[trigger] faces_met(m, s, k)[i]),
    decreases k,
{
    if k > 0 {
        lemma_faces_met_active(m, s, (k - 1) as nat);
        let prev = faces_met(m, s, (k - 1) as nat);
        assert forall|i: int| 0 <= i < faces_met(m, s, k).len() implies m.face_active(#[trigger] faces_met(m, s, k)[i]) by {
            if i < prev.len() {
                assert(faces_met(m, s, k)[i] == prev[i]);
            }
        }
    }
}

/// In a well-formed mesh, radial walks stay in range.
pub proof fn lemma_walk_rad_in_range(m: &Mesh, s: int, k: nat)
    requires
        m.wf(),
        0 <= s < m.nh(),
    ensures
        0 <= walk_rad(m.hes@, s, k) < m.nh(),
    decreases k,
{
    if k > 0 {
        lemma_walk_rad_in_range(m, s, (k - 1) as nat);
        let p = walk_rad(m.hes@, s, (k - 1) as nat);
        assert(he_refs_ok(m.hes@[p], m.nv(), m.nh(), m.ne(), m.nf()));
    }
}

impl Mesh {
    /// The distinct active faces that own a half-edge on edge `e`, in radial
    /// order starting at the edge's representative half-edge. The radial walk
    /// stops on its first return or after as many steps as there are
    /// half-edges.
    pub fn get_faces_sharing_edge(&self, e: EdgeId) -> (res: Vec<FaceId>)
        requires
            self.wf(),
            (e.id as int) < self.ne(),
        ensures
            res@ == faces_met(
                self,
                self.edges@[e.id as int].any_he.id as int,
                rad_steps(self.hes@, self.edges@[e.id as int].any_he.id as int, self.nh() as nat),
            ),
    {
        assert(edge_refs_ok(self.edges@[e.id as int], self.nv(), self.nh()));
        let start = self.edges[e.id as usize].any_he;
        let ghost s = start.id as int;
        let n = self.hes.len();
        let mut out: Vec<FaceId> = Vec::new();
        let mut tw = start;
        let mut k: usize = 0;
        let mut done = false;
        while !done && k < n
            invariant
                self.wf(),
                n == self.nh(),
                0 <= s < n,
                s == start.id as int,
                0 <= k <= n,
                tw.id as int == walk_rad(self.hes@, s, k as nat),
                out@ == faces_met(self, s, k as nat),
                forall|j: nat| 1 <= j < k ==> walk_rad(self.hes@, s, j) != s,
                !done ==> (k == 0 || walk_rad(self.hes@, s, k as nat) != s),
                done ==> k >= 1 && walk_rad(self.hes@, s, k as nat) == s,
            decreases n - k,
        {
            proof {
                lemma_walk_rad_in_range(self, s, k as nat);
            }
            let h = self.hes[tw.id as usize];
            assert(he_refs_ok(h, self.nv(), self.nh(), self.ne(), self.nf()));
            let f = h.face;
            let mut keep = false;
            if f.id != NULL_RAW && (f.id as usize) < self.faces.len() {
                match &self.faces[f.id as usize] {
                    Some(fc) => {
                        keep = fc.active;
                    },
                    None => {},
                }
            }
            if keep {
                let mut j: usize = 0;
                let mut seen = false;
                while j < out.len()
                    invariant
                        0 <= j <= out@.len(),
                        seen == (exists|q: int| 0 <= q < j && out@[q] == f),
                    decreases out@.len() - j,
                {
                    if out[j] == f {
                        seen = true;
                    }
                    j = j + 1;
                }
                assert(seen == out@.contains(f));
                if !seen {
                    out.push(f);
                }
            }
            tw = h.next_rad;
            k = k + 1;
            assert(tw.id as int == walk_rad(self.hes@, s, k as nat));
            if tw.id == start.id {
                done = true;
            }
        }
        proof {
            if done {
                let kk = k as nat;
                assert(1 <= kk <= n && walk_rad(self.hes@, s, kk) == s);
                let c = rad_steps(self.hes@, s, n as nat);
                assert(exists|q: nat| 1 <= q <= n as nat && walk_rad(self.hes@, s, q) == s);
                assert(1 <= c <= n && walk_rad(self.hes@, s, c) == s && forall|m: nat| 1 <= m < c ==> walk_rad(self.hes@, s, m) != s);
                if c < kk {
                    assert(walk_rad(self.hes@, s, c) != s);
                } else if kk < c {
                    assert(walk_rad(self.hes@, s, kk) != s);
                }
            } else {
                assert(k == n);
                assert forall|q: nat| 1 <= q <= n as nat implies walk_rad(self.hes@, s, q) != s by {
                    if q < k {
                    } else {
                        assert(q == k);
                    }
                }
            }
        }
        out
    }
}

// ───────────────────────── releasing loops and removing faces ─────────────────────────

/// `h1` is `h0` with the `face` of every half-edge listed in `v` set to null.
pub open spec fn released(h0: Seq<HalfEdge>, h1: Seq<HalfEdge>, v: Seq<HeId>) -> bool {
    &&& h1.len() == h0.len()
    &&& forall|j: int|
        0 <= j < h0.len() ==> {
            let a = #[trigger] h0[j];
            let b = h1[j];
            &&& b.next == a.next
            &&& b.prev == a.prev
            &&& b.dst == a.dst
            &&& b.edge == a.edge
            &&& b.next_rad == a.next_rad
            &&& b.face == if (exists|k: int| 0 <= k < v.len() && v[k].id as int == j) {
                FaceId { id: NULL_RAW }
            } else {
                a.face
            }
        }
}

/// What releasing the loop at `start` does: when it is a loop, its
/// half-edges lose their face; otherwise nothing changes.
pub open spec fn release_effect(h0: Seq<HalfEdge>, h1: Seq<HalfEdge>, start: HeId) -> bool {
    if has_loop(h0, start.id as int) {
        released(h0, h1, loop_seq(h0, start.id as int))
    } else {
        h1 == h0
    }
}

impl Mesh {
    /// Detach the half-edges of the loop at `start` from their face (set
    /// their face to null), keeping all links. A null start or a broken loop
    /// is left alone.
    pub fn release_loop(&mut self, start: HeId)
        requires
            old(self).wf(),
        ensures
            final(self).wf(),
            final(self).verts@ == old(self).verts@,
            final(self).edges@ == old(self).edges@,
            final(self).faces@ == old(self).faces@,
            final(self).sphere_path_b == old(self).sphere_path_b,
            final(self).cylinder_path_b == old(self).cylinder_path_b,
            final(self).cone_path_b == old(self).cone_path_b,
            release_effect(old(self).hes@, final(self).hes@, start),
    {
        let ghost m0 = *self;
        match self.collect_loop_hes(start) {
            Ok(hv) => {
                proof {
                    assert forall|k: int| 0 <= k < hv@.len() implies (#[trigger] hv@[k]).id < m0.nh() by {
                        if k > 0 {
                            lemma_walk_in_range(&m0, start.id as int, (k - 1) as nat);
                            let p = walk(m0.hes@, start.id as int, (k - 1) as nat);
                            assert(he_refs_ok(m0.hes@[p], m0.nv(), m0.nh(), m0.ne(), m0.nf()));
                        }
                    }
                }
                let mut i: usize = 0;
                while i < hv.len()
                    invariant
                        m0.wf(),
                        self.wf(),
                        0 <= i <= hv@.len(),
                        forall|k: int| 0 <= k < hv@.len() ==> (#[trigger] hv@[k]).id < m0.nh(),
                        self.verts@ == m0.verts@,
                        self.edges@ == m0.edges@,
                        self.faces@ == m0.faces@,
                        self.sphere_path_b == m0.sphere_path_b,
                        self.cylinder_path_b == m0.cylinder_path_b,
                        self.cone_path_b == m0.cone_path_b,
                        released(m0.hes@, self.hes@, hv@.subrange(0, i as int)),
                    decreases hv@.len() - i,
                {
                    let h = hv[i];
                    let ghost pre = *self;
                    let mut x = self.hes[h.id as usize];
                    x.face = FaceId { id: NULL_RAW };
                    self.hes.set(h.id as usize, x);
                    i = i + 1;
                    proof {
                        let sub = hv@.subrange(0, i as int);
                        let psub = hv@.subrange(0, i as int - 1);
                        assert forall|j: int| 0 <= j < m0.nh() implies {
                            let a = #[trigger] m0.hes@[j];
                            let b = self.hes@[j];
                                            &&& b.next == a.next
                            &&& b.prev == a.prev
                            &&& b.dst == a.dst
                            &&& b.edge == a.edge
                            &&& b.next_rad == a.next_rad
                            &&& b.face == if (exists|k: int| 0 <= k < sub.len() && sub[k].id as int == j) {
                                FaceId { id: NULL_RAW }
                            } else {
                                a.face
                            }
                        } by {
                            let a = m0.hes@[j];
                            if j == h.id as int {
                                assert(sub[i - 1].id as int == j);
                            } else {
                                assert(self.hes@[j] == pre.hes@[j]);
                                if exists|k: int| 0 <= k < sub.len() && sub[k].id as int == j {
                                    let k = choose|k: int| 0 <= k < sub.len() && sub[k].id as int == j;
                                    assert(k < i - 1);
                                    assert(psub[k].id as int == j);
                                } else {
                                    assert forall|k: int| 0 <= k < psub.len() implies psub[k].id as int != j by {
                                        assert(sub[k] == psub[k]);
                                    }
                                }
                            }
                        }
                        assert forall|q: int| 0 <= q < self.nh() implies #[trigger] he_refs_ok(self.hes@[q], self.nv(), self.nh(), self.ne(), self.nf()) by {
                            assert(he_refs_ok(pre.hes@[q], pre.nv(), pre.nh(), pre.ne(), pre.nf()));
                        }
                    }
                }
                assert(hv@.subrange(0, hv@.len() as int) =~= hv@);
            },
            Err(_) => {},
        }
    }

    /// Remove face `f` from use: release its outer and hole loops and mark
    /// it inactive. The face slot stays stored.
    pub fn remove_face(&mut self, f: FaceId) -> (res: Result<(), MeshError>)
        requires
            old(self).wf(),
        ensures
            final(self).wf(),
            final(self).verts@ == old(self).verts@,
            final(self).edges@ == old(self).edges@,
            final(self).hes@.len() == old(self).hes@.len(),
            final(self).sphere_path_b == old(self).sphere_path_b,
            final(self).cylinder_path_b == old(self).cylinder_path_b,
            final(self).cone_path_b == old(self).cone_path_b,
            res is Err <==> !old(self).has_face(f),
            res is Err ==> final(self).hes@ == old(self).hes@ && final(self).faces@ == old(self).faces@,
            res is Ok ==> {
                &&& final(self).faces@.len() == old(self).faces@.len()
                &&& final(self).has_face(f)
                &&& !final(self).face(f).active
                &&& final(self).face(f).outer == old(self).face(f).outer
                &&& final(self).face(f).inners@ == old(self).face(f).inners@
                &&& final(self).face(f).normal == old(self).face(f).normal
                &&& final(self).face(f).material == old(self).face(f).material
                &&& forall|j: int| 0 <= j < old(self).nf() && j != f.id as int ==> #[trigger] final(self).faces@[j] == old(self).faces@[j]
                &&& forall|j: int| 0 <= j < old(self).nh() ==> {
                    let a = #[trigger] old(self).hes@[j];
                    let b = final(self).hes@[j];
                    b.next == a.next && b.prev == a.prev && b.dst == a.dst && b.edge == a.edge
                        && b.next_rad == a.next_rad && (b.face == a.face || b.face.id == NULL_RAW)
                }
            },
    {
        let idx = f.id as usize;
        if idx >= self.faces.len() {
            return Err(MeshError::FaceNotFound);
        }
        let ghost m0 = *self;
        let starts: Vec<HeId> = match &self.faces[idx] {
            Some(fc) => {
                let mut v: Vec<HeId> = Vec::new();
                v.push(fc.outer);
                let mut i: usize = 0;
                while i < fc.inners.len()
                    invariant
                        0 <= i <= fc.inners@.len(),
                    decreases fc.inners@.len() - i,
                {
                    v.push(fc.inners[i]);
                    i = i + 1;
                }
                v
            },
            None => {
                return Err(MeshError::FaceNotFound);
            },
        };
        let mut i: usize = 0;
        while i < starts.len()
            invariant
                m0.wf(),
                self.wf(),
                m0.has_face(f),
                0 <= i <= starts@.len(),
                self.verts@ == m0.verts@,
                self.edges@ == m0.edges@,
                self.faces@ == m0.faces@,
                self.hes@.len() == m0.hes@.len(),
                self.sphere_path_b == m0.sphere_path_b,
                self.cylinder_path_b == m0.cylinder_path_b,
                self.cone_path_b == m0.cone_path_b,
                forall|j: int| 0 <= j < m0.nh() ==> {
                    let a = #[trigger] m0.hes@[j];
                    let b = self.hes@[j];
                    b.next == a.next && b.prev == a.prev && b.dst == a.dst && b.edge == a.edge
                        && b.next_rad == a.next_rad && (b.face == a.face || b.face.id == NULL_RAW)
                },
            decreases starts@.len() - i,
        {
            let ghost pre = *self;
            self.release_loop(starts[i]);
            proof {
                assert forall|j: int| 0 <= j < m0.nh() implies {
                    let a = #[trigger] m0.hes@[j];
                    let b = self.hes@[j];
                    b.next == a.next && b.prev == a.prev && b.dst == a.dst && b.edge == a.edge
                        && b.next_rad == a.next_rad && (b.face == a.face || b.face.id == NULL_RAW)
                } by {
                    let c = pre.hes@[j];
                    assert(c.next == m0.hes@[j].next);
                    if has_loop(pre.hes@, starts@[i as int].id as int) {
                        assert(released(pre.hes@, self.hes@, loop_seq(pre.hes@, starts@[i as int].id as int)));
                        assert(self.hes@[j].next == pre.hes@[j].next);
                    }
                }
            }
            i = i + 1;
        }
        let ghost m1 = *self;
        match &mut self.faces[idx] {
            Some(fc) => {
                fc.active = false;
            },
            None => {},
        }
        proof {
            assert forall|q: int| 0 <= q < self.nh() implies #[trigger] he_refs_ok(self.hes@[q], self.nv(), self.nh(), self.ne(), self.nf()) by {
                assert(he_refs_ok(m1.hes@[q], m1.nv(), m1.nh(), m1.ne(), m1.nf()));
            }
            assert forall|q: int| 0 <= q < self.ne() implies #[trigger] edge_refs_ok(self.edges@[q], self.nv(), self.nh()) by {
                assert(edge_refs_ok(m1.edges@[q], m1.nv(), m1.nh()));
            }
            assert forall|q: int| 0 <= q < self.nf() && (#[trigger] self.faces@[q]).is_some() implies face_refs_ok(self.faces@[q].unwrap(), self.nh()) by {
                assert(face_refs_ok(m1.faces@[q].unwrap(), m1.nh()));
                let a = m1.faces@[q].unwrap();
                let b = self.faces@[q].unwrap();
                assert forall|t: int| 0 <= t < b.inners@.len() implies #[trigger] loop_ref_ok(b.inners@[t], self.nh()) by {
                    assert(loop_ref_ok(a.inners@[t], m1.nh()));
                }
            }
        }
        Ok(())
    }
}

impl Mesh {
    /// Whether every stored reference is null or in range and every arena
    /// is smaller than the null index (`wf`).
    pub fn is_well_formed(&self) -> (r: bool)
        ensures
            r == self.wf(),
    {
        let lim: usize = 0xFFFF_FFFFusize;
        if self.verts.len() >= lim || self.hes.len() >= lim || self.edges.len() >= lim || self.faces.len() >= lim {
            return false;
        }
        let nv = self.verts.len();
        let nh = self.hes.len();
        let ne = self.edges.len();
        let nf = self.faces.len();
        let mut i: usize = 0;
        while i < nh
            invariant
                nv == self.nv(),
                nh == self.nh(),
                ne == self.ne(),
                nf == self.nf(),
                0 <= i <= nh,
                forall|j: int| 0 <= j < i ==> #[trigger] he_refs_ok(self.hes@[j], self.nv(), self.nh(), self.ne(), self.nf()),
            decreases nh - i,
        {
            let h = self.hes[i];
            if !((h.next.id as usize) < nh && (h.prev.id as usize) < nh && (h.dst.id as usize) < nv
                && (h.edge.id as usize) < ne && (h.next_rad.id as usize) < nh && (h.face.id == NULL_RAW
                || (h.face.id as usize) < nf)) {
                assert(!he_refs_ok(self.hes@[i as int], self.nv(), self.nh(), self.ne(), self.nf()));
                return false;
            }
            i = i + 1;
        }
        let mut i: usize = 0;
        while i < ne
            invariant
                nv == self.nv(),
                nh == self.nh(),
                ne == self.ne(),
                0 <= i <= ne,
                forall|j: int| 0 <= j < i ==> #[trigger] edge_refs_ok(self.edges@[j], self.nv(), self.nh()),
            decreases ne - i,
        {
            let e = self.edges[i];
            if !((e.any_he.id as usize) < nh && (e.v_small.id as usize) < nv && (e.v_large.id as usize) < nv) {
                assert(!edge_refs_ok(self.edges@[i as int], self.nv(), self.nh()));
                return false;
            }
            i = i + 1;
        }
        let mut i: usize = 0;
        while i < nf
            invariant
                nh == self.nh(),
                nf == self.nf(),
                0 <= i <= nf,
                forall|j: int| 0 <= j < i && (#[trigger] self.faces@[j]).is_some() ==> face_refs_ok(self.faces@[j].unwrap(), self.nh()),
            decreases nf - i,
        {
            match &self.faces[i] {
                Some(fc) => {
                    if !(fc.outer.id == NULL_RAW || (fc.outer.id as usize) < nh) {
                        return false;
                    }
                    let mut k: usize = 0;
                    while k < fc.inners.len()
                        invariant
                            nh == self.nh(),
                            0 <= i < self.nf(),
                            self.faces@[i as int] == Some(*fc),
                            0 <= k <= fc.inners@.len(),
                            forall|q: int| 0 <= q < k ==> #[trigger] loop_ref_ok(fc.inners@[q], self.nh()),
                        decreases fc.inners@.len() - k,
                    {
                        let st = fc.inners[k];
                        if !(st.id == NULL_RAW || (st.id as usize) < nh) {
                            assert(!loop_ref_ok(fc.inners@[k as int], self.nh()));
                            assert(!face_refs_ok(self.faces@[i as int].unwrap(), self.nh()));
                            return false;
                        }
                        k = k + 1;
                    }
                },
                None => {},
            }
            i = i + 1;
        }
        true
    }
}

} // verus!
