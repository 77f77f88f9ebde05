//! Manifold check of a container face and its inner faces: no edge of their
//! loops may be shared by more than two active faces.
use vstd::prelude::*;

use crate::ids::{EdgeId, FaceId};
use crate::mesh::{faces_met, rad_steps, Mesh};
use crate::push_pull::{face_starts, false_flags, loops_edges};

verus! {

/// What `verify_p7_manifold` found.
#[derive(Debug, Clone)]
pub struct P7ManifoldReport {
    /// The container face the check was asked about.
    pub container: FaceId,
    /// The checked edges shared by more than two active faces, by increasing id.
    pub violations: Vec<EdgeId>,
    /// How many distinct edges were checked.
    pub edges_checked: usize,
}

impl P7ManifoldReport {
    /// No violation was found.
    pub fn is_valid(&self) -> (r: bool)
        ensures
            r == (self.violations@.len() == 0),
    {
        self.violations.len() == 0
    }
}

/// The edges of the loops (outer and holes) of the active faces listed in `faces`.
pub open spec fn region_edges(m: &Mesh, faces: Seq<FaceId>) -> Set<int> {
    Set::new(
        |e: int|
            exists|i: int|
                0 <= i < faces.len() && m.face_active(faces[i]) && #[trigger] loops_edges(m, face_starts(m, faces[i])).contains(e),
    )
}

/// The number of distinct active faces on edge `e`, as `get_faces_sharing_edge` counts them.
pub open spec fn edge_face_count(m: &Mesh, e: int) -> nat {
    let s = m.edges@[e].any_he.id as int;
    faces_met(m, s, rad_steps(m.hes@, s, m.nh() as nat)).len()
}

/// How many edges below `k` belong to the region.
pub open spec fn region_checked(m: &Mesh, faces: Seq<FaceId>, k: int) -> nat
    decreases k,
{
    if k <= 0 {
        0
    } else {
        region_checked(m, faces, k - 1) + if region_edges(m, faces).contains(k - 1) { 1nat } else { 0nat }
    }
}

/// The region edges below `k` shared by more than two active faces, by increasing id.
pub open spec fn region_violations(m: &Mesh, faces: Seq<FaceId>, k: int) -> Seq<EdgeId>
    decreases k,
{
    if k <= 0 {
        Seq::empty()
    } else {
        let prev = region_violations(m, faces, k - 1);
        if region_edges(m, faces).contains(k - 1) && edge_face_count(m, k - 1) > 2 {
            prev.push(EdgeId { id: (k - 1) as u32 })
        } else {
            prev
        }
    }
}

/// Mark the loop edges and vertices of `f` when it is an active face.
fn mark_if_active(mesh: &Mesh, f: FaceId, edge_mark: &mut Vec<bool>, vert_mark: &mut Vec<bool>)
    requires
        mesh.wf(),
        old(edge_mark)@.len() == mesh.ne(),
        old(vert_mark)@.len() == mesh.nv(),
    ensures
        final(edge_mark)@.len() == mesh.ne(),
        final(vert_mark)@.len() == mesh.nv(),
        forall|e: int| 0 <= e < mesh.ne() ==> #[trigger] final(edge_mark)@[e] == (old(edge_mark)@[e] || (mesh.face_active(f)
            && loops_edges(mesh, face_starts(mesh, f)).contains(e))),
{
    let idx = f.id as usize;
    let mut active = false;
    if idx < mesh.faces.len() {
        match &mesh.faces[idx] {
            Some(fc) => {
                active = fc.active;
            },
            None => {},
        }
    }
    if active {
        mesh.mark_face_loops(f, edge_mark, vert_mark);
    }
}

/// Check the loops of `container` and `inners` (inactive ones are skipped):
/// count the distinct edges of their loops and report those shared by more
/// than two active faces.
pub fn verify_p7_manifold(mesh: &Mesh, container: FaceId, inners: &[FaceId]) -> (r: P7ManifoldReport)
    requires
        mesh.wf(),
    ensures
        r.container == container,
        r.edges_checked == region_checked(mesh, seq![container] + inners@, mesh.ne()),
        r.violations@ == region_violations(mesh, seq![container] + inners@, mesh.ne()),
{
    let ghost faces = seq![container] + inners@;
    let mut edge_mark = false_flags(mesh.edges.len());
    let mut vert_mark = false_flags(mesh.verts.len());
    mark_if_active(mesh, container, &mut edge_mark, &mut vert_mark);
    proof {
        assert(faces[0] == container);
        assert forall|e: int| 0 <= e < mesh.ne() implies #[trigger] edge_mark@[e] == exists|q: int|
            0 <= q < 1 && mesh.face_active(faces[q]) && #[trigger] loops_edges(mesh, face_starts(mesh, faces[q])).contains(e) by {
            if edge_mark@[e] {
                assert(loops_edges(mesh, face_starts(mesh, faces[0])).contains(e));
            }
        }
    }
    let mut i: usize = 0;
    while i < inners.len()
        invariant
            mesh.wf(),
            faces == seq![container] + inners@,
            0 <= i <= inners@.len(),
            edge_mark@.len() == mesh.ne(),
            vert_mark@.len() == mesh.nv(),
            forall|e: int| 0 <= e < mesh.ne() ==> #[trigger] edge_mark@[e] == exists|q: int|
                0 <= q < i + 1 && mesh.face_active(faces[q]) && #[trigger] loops_edges(mesh, face_starts(mesh, faces[q])).contains(e),
        decreases inners@.len() - i,
    {
        let f = inners[i];
        assert(f == faces[i + 1]);
        let ghost em0 = edge_mark@;
        mark_if_active(mesh, f, &mut edge_mark, &mut vert_mark);
        proof {
            assert forall|e: int| 0 <= e < mesh.ne() implies #[trigger] edge_mark@[e] == exists|q: int|
                0 <= q < i + 2 && mesh.face_active(faces[q]) && #[trigger] loops_edges(mesh, face_starts(mesh, faces[q])).contains(e) by {
                if edge_mark@[e] && !em0[e] {
                    assert(loops_edges(mesh, face_starts(mesh, faces[i + 1])).contains(e));
                }
                if exists|q: int| 0 <= q < i + 2 && mesh.face_active(faces[q]) && #[trigger] loops_edges(mesh, face_starts(mesh, faces[q])).contains(e) {
                    let q = choose|q: int| 0 <= q < i + 2 && mesh.face_active(faces[q]) && #[trigger] loops_edges(mesh, face_starts(mesh, faces[q])).contains(e);
                    if q < i + 1 {
                        assert(em0[e]);
                    }
                }
            }
        }
        i = i + 1;
    }
    proof {
        assert forall|x: int| 0 <= x < mesh.ne() implies #[trigger] edge_mark@[x] == region_edges(mesh, faces).contains(x) by {
            if edge_mark@[x] {
                let q = choose|q: int| 0 <= q < faces.len() && mesh.face_active(faces[q]) && #[trigger] loops_edges(mesh, face_starts(mesh, faces[q])).contains(x);
                assert(region_edges(mesh, faces).contains(x));
            }
            if region_edges(mesh, faces).contains(x) {
                let q = choose|q: int| 0 <= q < faces.len() && mesh.face_active(faces[q]) && #[trigger] loops_edges(mesh, face_starts(mesh, faces[q])).contains(x);
            }
        }
    }
    let mut checked: usize = 0;
    let mut violations: Vec<EdgeId> = Vec::new();
    let mut e: usize = 0;
    while e < mesh.edges.len()
        invariant
            mesh.wf(),
            faces == seq![container] + inners@,
            edge_mark@.len() == mesh.ne(),
            forall|x: int| 0 <= x < mesh.ne() ==> #[trigger] edge_mark@[x] == region_edges(mesh, faces).contains(x),
            0 <= e <= mesh.ne(),
            checked == region_checked(mesh, faces, e as int),
            checked <= e,
            violations@ == region_violations(mesh, faces, e as int),
        decreases mesh.ne() - e,
    {
        if edge_mark[e] {
            checked = checked + 1;
            let fs = mesh.get_faces_sharing_edge(EdgeId { id: e as u32 });
            if fs.len() > 2 {
                violations.push(EdgeId { id: e as u32 });
            }
        }
        e = e + 1;
    }
    P7ManifoldReport { container, violations, edges_checked: checked }
}

} // verus!
