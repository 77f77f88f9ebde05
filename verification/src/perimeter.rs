//! The combined perimeter of a group of faces: the boundary of their union,
//! traced through the half-edges whose edge no other half-edge of the group
//! uses.
use vstd::prelude::*;

use crate::ids::{FaceId, HeId, VertId};
use crate::mesh::{has_loop, he_refs_ok, lemma_walk_in_range, loop_seq, Mesh, MeshError};

verus! {

/// The half-edges of the outer loop of stored face `f`.
pub open spec fn face_outer_hes(m: &Mesh, f: FaceId) -> Seq<HeId> {
    loop_seq(m.hes@, m.face(f).outer.id as int)
}

/// Every face of the group is stored and has a closed outer loop.
pub open spec fn comp_faces_ok(m: &Mesh, comp: Seq<FaceId>) -> bool {
    forall|i: int| 0 <= i < comp.len() ==> #[trigger] m.has_face(comp[i]) && has_loop(m.hes@, m.face(comp[i]).outer.id as int)
}

/// The outer-loop half-edges of the faces of the group, face after face.
pub open spec fn comp_hes(m: &Mesh, comp: Seq<FaceId>) -> Seq<HeId>
    decreases comp.len(),
{
    if comp.len() == 0 {
        Seq::empty()
    } else {
        comp_hes(m, comp.drop_last()) + face_outer_hes(m, comp.last())
    }
}

/// The edge of half-edge `h`.
pub open spec fn he_edge(m: &Mesh, h: HeId) -> int {
    m.hes@[h.id as int].edge.id as int
}

/// The vertex half-edge `h` points to.
pub open spec fn he_dst(m: &Mesh, h: HeId) -> VertId {
    m.hes@[h.id as int].dst
}

/// The vertex half-edge `h` starts from: the destination of its predecessor.
pub open spec fn he_origin(m: &Mesh, h: HeId) -> VertId {
    m.hes@[m.hes@[h.id as int].prev.id as int].dst
}

/// Position `p` of `all` holds a boundary half-edge: no other position
/// holds a half-edge of the same edge.
pub open spec fn on_boundary(m: &Mesh, all: Seq<HeId>, p: int) -> bool {
    &&& 0 <= p < all.len()
    &&& forall|q: int| 0 <= q < all.len() && q != p ==> he_edge(m, #[trigger] all[q]) != he_edge(m, all[p])
}

/// Position `q` holds a boundary half-edge that starts where the one at
/// position `p` ends.
pub open spec fn follows(m: &Mesh, all: Seq<HeId>, p: int, q: int) -> bool {
    &&& on_boundary(m, all, q)
    &&& he_origin(m, all[q]) == he_dst(m, all[p])
}

/// `q` is the first position that follows `p`.
pub open spec fn first_follower(m: &Mesh, all: Seq<HeId>, p: int, q: int) -> bool {
    &&& follows(m, all, p, q)
    &&& forall|r: int| 0 <= r < q ==> !#[trigger] follows(m, all, p, r)
}

/// Some position follows `p`.
pub open spec fn has_follower(m: &Mesh, all: Seq<HeId>, p: int) -> bool {
    exists|q: int| first_follower(m, all, p, q)
}

/// The first position that follows `p` (meaningful when one exists).
pub open spec fn next_pos(m: &Mesh, all: Seq<HeId>, p: int) -> int {
    choose|q: int| first_follower(m, all, p, q)
}

/// `p` is the first boundary position.
pub open spec fn first_boundary_at(m: &Mesh, all: Seq<HeId>, p: int) -> bool {
    &&& on_boundary(m, all, p)
    &&& forall|r: int| 0 <= r < p ==> !#[trigger] on_boundary(m, all, r)
}

/// The first boundary position (meaningful when one exists).
pub open spec fn first_boundary(m: &Mesh, all: Seq<HeId>) -> int {
    choose|p: int| first_boundary_at(m, all, p)
}

/// The position reached after `k` steps of the trace, which starts at the
/// first boundary position and each time moves to the first follower.
pub open spec fn trace_pos(m: &Mesh, all: Seq<HeId>, k: nat) -> int
    decreases k,
{
    if k == 0 {
        first_boundary(m, all)
    } else {
        next_pos(m, all, trace_pos(m, all, (k - 1) as nat))
    }
}

/// The trace has a follower at each of its first `len` steps, comes back to
/// its start after exactly `len` steps, and not before.
pub open spec fn trace_closes(m: &Mesh, all: Seq<HeId>, len: nat) -> bool {
    &&& len >= 1
    &&& forall|k: nat| k < len ==> has_follower(m, all, #[trigger] trace_pos(m, all, k))
    &&& trace_pos(m, all, len) == trace_pos(m, all, 0)
    &&& forall|k: nat| 1 <= k < len ==> #[trigger] trace_pos(m, all, k) != trace_pos(m, all, 0)
}

/// Some boundary position exists.
pub open spec fn has_boundary(m: &Mesh, all: Seq<HeId>) -> bool {
    exists|p: int| on_boundary(m, all, p)
}

/// The perimeter vertices: the destinations along a closed trace.
pub open spec fn trace_verts(m: &Mesh, all: Seq<HeId>, len: nat) -> Seq<VertId> {
    Seq::new(len, |k: int| he_dst(m, all[trace_pos(m, all, k as nat)]))
}

/// Every face of the group has a closed outer loop and the trace of their
/// boundary closes within as many steps as there are half-edges.
pub open spec fn perimeter_closes(m: &Mesh, comp: Seq<FaceId>) -> bool {
    &&& comp_faces_ok(m, comp)
    &&& exists|len: nat| len <= comp_hes(m, comp).len() && #[trigger] trace_closes(m, comp_hes(m, comp), len)
}

/// The number of steps after which the trace closes (meaningful when
/// `perimeter_closes`).
pub open spec fn perimeter_len(m: &Mesh, comp: Seq<FaceId>) -> nat {
    choose|len: nat| len <= comp_hes(m, comp).len() && #[trigger] trace_closes(m, comp_hes(m, comp), len)
}

/// The combined perimeter of the group: the vertices met along the closed
/// trace (meaningful when `perimeter_closes`).
pub open spec fn perimeter_of(m: &Mesh, comp: Seq<FaceId>) -> Seq<VertId> {
    trace_verts(m, comp_hes(m, comp), perimeter_len(m, comp))
}

/// The first follower is unique.
pub proof fn lemma_first_follower_unique(m: &Mesh, all: Seq<HeId>, p: int, q1: int, q2: int)
    requires
        first_follower(m, all, p, q1),
        first_follower(m, all, p, q2),
    ensures
        q1 == q2,
{
    if q1 < q2 {
        assert(!follows(m, all, p, q1));
    } else if q2 < q1 {
        assert(!follows(m, all, p, q2));
    }
}

/// The first boundary position is unique.
pub proof fn lemma_first_boundary_unique(m: &Mesh, all: Seq<HeId>, p1: int, p2: int)
    requires
        first_boundary_at(m, all, p1),
        first_boundary_at(m, all, p2),
    ensures
        p1 == p2,
{
    if p1 < p2 {
        assert(!on_boundary(m, all, p1));
    } else if p2 < p1 {
        assert(!on_boundary(m, all, p2));
    }
}

/// The trace closes after at most one length.
pub proof fn lemma_trace_closes_unique(m: &Mesh, all: Seq<HeId>, l1: nat, l2: nat)
    requires
        trace_closes(m, all, l1),
        trace_closes(m, all, l2),
    ensures
        l1 == l2,
{
    if l1 < l2 {
        assert(trace_pos(m, all, l1) != trace_pos(m, all, 0));
    } else if l2 < l1 {
        assert(trace_pos(m, all, l2) != trace_pos(m, all, 0));
    }
}

/// The half-edges of a loop of a well-formed mesh are in range.
pub proof fn lemma_loop_seq_in_range(m: &Mesh, s: int)
    requires
        m.wf(),
        has_loop(m.hes@, s),
    ensures
        forall|k: int| 0 <= k < loop_seq(m.hes@, s).len() ==> (#[trigger] loop_seq(m.hes@, s)[k]).id < m.nh(),
{
    assert forall|k: int| 0 <= k < loop_seq(m.hes@, s).len() implies (#[trigger] loop_seq(m.hes@, s)[k]).id < m.nh() by {
        lemma_walk_in_range(m, s, k as nat);
    }
}


impl Mesh {
    /// The outer-loop half-edges of the faces of `comp`, face after face.
    /// Fails with `FaceNotFound` when a face is not stored, or with the error
    /// of `collect_loop_hes` when an outer loop does not close.
    pub fn collect_comp_hes(&self, comp: &[FaceId]) -> (res: Result<Vec<HeId>, MeshError>)
        requires
            self.wf(),
        ensures
            match res {
                Ok(all) => comp_faces_ok(self, comp@) && all@ == comp_hes(self, comp@)
                    && forall|k: int| 0 <= k < all@.len() ==> (#[trigger] all@[k]).id < self.nh(),
                Err(e) => !comp_faces_ok(self, comp@) && e != MeshError::Degenerate,
            },
    {
        let mut all: Vec<HeId> = Vec::new();
        let mut i: usize = 0;
        while i < comp.len()
            invariant
                self.wf(),
                0 <= i <= comp@.len(),
                comp_faces_ok(self, comp@.subrange(0, i as int)),
                all@ == comp_hes(self, comp@.subrange(0, i as int)),
                forall|k: int| 0 <= k < all@.len() ==> (#[trigger] all@[k]).id < self.nh(),
            decreases comp@.len() - i,
        {
            let f = comp[i];
            let idx = f.id as usize;
            if idx >= self.faces.len() {
                proof {
                    assert(!self.has_face(comp@[i as int]));
                }
                return Err(MeshError::FaceNotFound);
            }
            let outer = match &self.faces[idx] {
                Some(fc) => fc.outer,
                None => {
                    proof {
                        assert(!self.has_face(comp@[i as int]));
                    }
                    return Err(MeshError::FaceNotFound);
                },
            };
            let hv = match self.collect_loop_hes(outer) {
                Ok(hv) => hv,
                Err(e) => {
                    proof {
                        assert(self.has_face(comp@[i as int]));
                        assert(!has_loop(self.hes@, self.face(comp@[i as int]).outer.id as int));
                    }
                    return Err(e);
                },
            };
            proof {
                lemma_loop_seq_in_range(self, outer.id as int);
            }
            let ghost pre = all@;
            let mut j: usize = 0;
            while j < hv.len()
                invariant
                    0 <= j <= hv@.len(),
                    all@ == pre + hv@.subrange(0, j as int),
                    forall|k: int| 0 <= k < hv@.len() ==> (#[trigger] hv@[k]).id < self.nh(),
                    forall|k: int| 0 <= k < pre.len() ==> (#[trigger] pre[k]).id < self.nh(),
                decreases hv@.len() - j,
            {
                all.push(hv[j]);
                j = j + 1;
                assert(all@ =~= pre + hv@.subrange(0, j as int));
            }
            proof {
                let sub = comp@.subrange(0, i as int + 1);
                assert(sub.drop_last() =~= comp@.subrange(0, i as int));
                assert(sub.last() == f);
                assert(hv@.subrange(0, hv@.len() as int) =~= hv@);
                assert(all@ =~= comp_hes(self, sub));
                assert forall|q: int| 0 <= q < sub.len() implies #[trigger] self.has_face(sub[q]) && has_loop(self.hes@, self.face(sub[q]).outer.id as int) by {
                    if q < i {
                        assert(comp@.subrange(0, i as int)[q] == sub[q]);
                    }
                }
                assert forall|k: int| 0 <= k < all@.len() implies (#[trigger] all@[k]).id < self.nh() by {
                    if k >= pre.len() {
                        assert(all@[k] == hv@[k - pre.len()]);
                    } else {
                        assert(all@[k] == pre[k]);
                    }
                }
            }
            i = i + 1;
        }
        assert(comp@.subrange(0, comp@.len() as int) =~= comp@);
        Ok(all)
    }

    /// The boundary of the union of the faces of `comp`, as the vertices met
    /// along it: start at the first boundary half-edge (in `comp` order,
    /// each face's outer loop from its start), then repeatedly take the first
    /// boundary half-edge that starts where the current one ends, until the
    /// start comes back. A boundary half-edge is one whose edge no other
    /// half-edge of the group uses. Errors: a face that is not stored or has
    /// a broken outer loop (as `collect_comp_hes`), `Degenerate` when there
    /// is no boundary half-edge, `BrokenLoop` when the trace gets stuck or
    /// does not come back within as many steps as there are half-edges.
    #[verifier::rlimit(40)]
    pub fn compute_combined_perimeter(&self, comp: &[FaceId]) -> (res: Result<Vec<VertId>, MeshError>)
        requires
            self.wf(),
        ensures
            res is Ok <==> perimeter_closes(self, comp@),
            res == Err::<Vec<VertId>, MeshError>(MeshError::Degenerate) <==> comp_faces_ok(self, comp@)
                && !has_boundary(self, comp_hes(self, comp@)),
            match res {
                Ok(vs) => {
                    let all = comp_hes(self, comp@);
                    &&& trace_closes(self, all, vs@.len())
                    &&& vs@.len() <= all.len()
                    &&& vs@ == trace_verts(self, all, vs@.len())
                    &&& vs@ == perimeter_of(self, comp@)
                },
                Err(_) => true,
            },
    {
        let all = self.collect_comp_hes(comp)?;
        let n = all.len();
        let ghost ga = all@;
        // boundary flags
        let mut bnd: Vec<bool> = Vec::new();
        let mut p: usize = 0;
        while p < n
            invariant
                self.wf(),
                n == all@.len(),
                forall|k: int| 0 <= k < n ==> (#[trigger] all@[k]).id < self.nh(),
                0 <= p <= n,
                bnd@.len() == p,
                forall|r: int| 0 <= r < p ==> #[trigger] bnd@[r] == on_boundary(self, all@, r),
            decreases n - p,
        {
            let ep = self.hes[all[p].id as usize].edge;
            let mut ok = true;
            let mut q: usize = 0;
            while q < n
                invariant
                    self.wf(),
                    n == all@.len(),
                    forall|k: int| 0 <= k < n ==> (#[trigger] all@[k]).id < self.nh(),
                    0 <= p < n,
                    ep.id as int == he_edge(self, all@[p as int]),
                    0 <= q <= n,
                    ok == forall|r: int| 0 <= r < q && r != p ==> he_edge(self, #[trigger] all@[r]) != he_edge(self, all@[p as int]),
                decreases n - q,
            {
                if q != p && self.hes[all[q].id as usize].edge == ep {
                    ok = false;
                }
                q = q + 1;
            }
            bnd.push(ok);
            p = p + 1;
        }
        // first boundary position
        let mut p0: usize = 0;
        while p0 < n && !bnd[p0]
            invariant
                0 <= p0 <= n,
                n == all@.len(),
                bnd@.len() == n,
                forall|r: int| 0 <= r < n ==> #[trigger] bnd@[r] == on_boundary(self, all@, r),
                forall|r: int| 0 <= r < p0 ==> !#[trigger] on_boundary(self, all@, r),
            decreases n - p0,
        {
            p0 = p0 + 1;
        }
        if p0 == n {
            proof {
                assert forall|r: int| !on_boundary(self, all@, r) by {
                    if 0 <= r < n {
                        assert(!on_boundary(self, all@, r));
                    }
                }
                assert(!has_boundary(self, all@));
            }
            return Err(MeshError::Degenerate);
        }
        proof {
            assert(first_boundary_at(self, all@, p0 as int));
            lemma_first_boundary_unique(self, all@, p0 as int, first_boundary(self, all@));
            assert(trace_pos(self, all@, 0) == p0);
            assert(has_boundary(self, all@));
        }
        // trace
        let mut out: Vec<VertId> = Vec::new();
        let mut cur: usize = p0;
        let mut steps: usize = 0;
        while steps < n
            invariant
                self.wf(),
                n == all@.len(),
                forall|k: int| 0 <= k < n ==> (#[trigger] all@[k]).id < self.nh(),
                bnd@.len() == n,
                forall|r: int| 0 <= r < n ==> #[trigger] bnd@[r] == on_boundary(self, all@, r),
                0 <= p0 < n,
                trace_pos(self, all@, 0) == p0,
                has_boundary(self, all@),
                all@ == comp_hes(self, comp@),
                comp_faces_ok(self, comp@),
                0 <= steps <= n,
                0 <= cur < n,
                cur == trace_pos(self, all@, steps as nat),
                out@.len() == steps,
                forall|k: int| 0 <= k < steps ==> #[trigger] out@[k] == he_dst(self, all@[trace_pos(self, all@, k as nat)]),
                forall|k: nat| k < steps ==> has_follower(self, all@, #[trigger] trace_pos(self, all@, k)),
                forall|k: nat| 1 <= k <= steps ==> #[trigger] trace_pos(self, all@, k) != p0,
                forall|k: nat| k <= steps ==> 0 <= #[trigger] trace_pos(self, all@, k) < n,
            decreases n - steps,
        {
            let d = self.hes[all[cur].id as usize].dst;
            out.push(d);
            // first follower of cur
            let mut q: usize = 0;
            let mut found = false;
            while q < n && !found
                invariant
                    self.wf(),
                    n == all@.len(),
                    forall|k: int| 0 <= k < n ==> (#[trigger] all@[k]).id < self.nh(),
                    bnd@.len() == n,
                    forall|r: int| 0 <= r < n ==> #[trigger] bnd@[r] == on_boundary(self, all@, r),
                    0 <= cur < n,
                    d == he_dst(self, all@[cur as int]),
                    0 <= q <= n,
                    !found ==> forall|r: int| 0 <= r < q ==> !#[trigger] follows(self, all@, cur as int, r),
                    found ==> q >= 1 && first_follower(self, all@, cur as int, q - 1),
                decreases n - q + (if found { 0int } else { 1int }),
            {
                let h = self.hes[all[q].id as usize];
                assert(he_refs_ok(h, self.nv(), self.nh(), self.ne(), self.nf()));
                let org = self.hes[h.prev.id as usize].dst;
                if bnd[q] && org == d {
                    found = true;
                }
                q = q + 1;
            }
            if !found {
                proof {
                    assert forall|len: nat| len <= all@.len() implies !trace_closes(self, all@, len) by {
                        if trace_closes(self, all@, len) {
                            if steps < len {
                                let w = choose|w: int| first_follower(self, all@, trace_pos(self, all@, steps as nat), w);
                                assert(0 <= w < n);
                                assert(follows(self, all@, cur as int, w));
                            } else {
                                assert(trace_pos(self, all@, len) == p0);
                                if len >= 1 {
                                    assert(trace_pos(self, all@, len) != p0);
                                }
                            }
                        }
                    }
                    assert(!(exists|len: nat| len <= comp_hes(self, comp@).len() && #[trigger] trace_closes(self, comp_hes(self, comp@), len)));
                }
                return Err(MeshError::BrokenLoop);
            }
            let nxt = q - 1;
            proof {
                lemma_first_follower_unique(self, all@, cur as int, nxt as int, next_pos(self, all@, cur as int));
                assert(trace_pos(self, all@, (steps + 1) as nat) == nxt);
                assert(first_follower(self, all@, trace_pos(self, all@, steps as nat), nxt as int));
            }
            steps = steps + 1;
            cur = nxt;
            if cur == p0 {
                proof {
                    assert(trace_closes(self, all@, steps as nat));
                    assert(out@ =~= trace_verts(self, all@, steps as nat));
                    assert(steps as nat <= all@.len() && trace_closes(self, comp_hes(self, comp@), steps as nat));
                    let pl = perimeter_len(self, comp@);
                    lemma_trace_closes_unique(self, all@, steps as nat, pl);
                }
                return Ok(out);
            }
        }
        proof {
            assert forall|len: nat| len <= all@.len() implies !trace_closes(self, all@, len) by {
                if trace_closes(self, all@, len) && len >= 1 {
                    assert(trace_pos(self, all@, len) != p0);
                }
            }
        }
        Err(MeshError::BrokenLoop)
    }
}

} // verus!
