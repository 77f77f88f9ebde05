//! Primitive construction settings: which construction path the mesh uses
//! for analytic primitives. Path A builds polygonal faces; Path B builds the
//! canonical analytic faces. A new mesh uses Path A for every primitive.
use vstd::prelude::*;

use crate::ids::FaceId;
use crate::mesh::{edge_refs_ok, face_refs_ok, he_refs_ok, loop_ref_ok, Mesh, SurfaceKind};

verus! {

impl Mesh {
    /// Whether spheres are built with Path B.
    pub fn sphere_path_b_default(&self) -> (b: bool)
        ensures
            b == self.sphere_path_b,
    {
        self.sphere_path_b
    }

    /// Choose the construction path for spheres.
    pub fn set_sphere_path_b_default(&mut self, on: bool)
        ensures
            final(self).sphere_path_b == on,
            final(self).cylinder_path_b == old(self).cylinder_path_b,
            final(self).cone_path_b == old(self).cone_path_b,
            final(self).verts@ == old(self).verts@,
            final(self).hes@ == old(self).hes@,
            final(self).edges@ == old(self).edges@,
            final(self).faces@ == old(self).faces@,
    {
        self.sphere_path_b = on;
    }

    /// Whether cylinders are built with Path B.
    pub fn cylinder_path_b_default(&self) -> (b: bool)
        ensures
            b == self.cylinder_path_b,
    {
        self.cylinder_path_b
    }

    /// Choose the construction path for cylinders.
    pub fn set_cylinder_path_b_default(&mut self, on: bool)
        ensures
            final(self).cylinder_path_b == on,
            final(self).sphere_path_b == old(self).sphere_path_b,
            final(self).cone_path_b == old(self).cone_path_b,
            final(self).verts@ == old(self).verts@,
            final(self).hes@ == old(self).hes@,
            final(self).edges@ == old(self).edges@,
            final(self).faces@ == old(self).faces@,
    {
        self.cylinder_path_b = on;
    }

    /// Whether cones are built with Path B.
    pub fn cone_path_b_default(&self) -> (b: bool)
        ensures
            b == self.cone_path_b,
    {
        self.cone_path_b
    }

    /// Choose the construction path for cones.
    pub fn set_cone_path_b_default(&mut self, on: bool)
        ensures
            final(self).cone_path_b == on,
            final(self).sphere_path_b == old(self).sphere_path_b,
            final(self).cylinder_path_b == old(self).cylinder_path_b,
            final(self).verts@ == old(self).verts@,
            final(self).hes@ == old(self).hes@,
            final(self).edges@ == old(self).edges@,
            final(self).faces@ == old(self).faces@,
    {
        self.cone_path_b = on;
    }
}

impl Mesh {
    /// The kind of surface stored face `f` lies on; `None` when `f` is not
    /// stored.
    pub fn face_surface(&self, f: FaceId) -> (r: Option<SurfaceKind>)
        ensures
            r == if self.has_face(f) {
                Some(self.face(f).surface)
            } else {
                None::<SurfaceKind>
            },
    {
        if f.id as usize >= self.faces.len() {
            return None;
        }
        match &self.faces[f.id as usize] {
            Some(fc) => Some(fc.surface),
            None => None,
        }
    }

    /// Record that stored face `f` lies on a surface of kind `kind`; nothing
    /// else changes.
    pub fn set_face_surface(&mut self, f: FaceId, kind: SurfaceKind)
        requires
            old(self).wf(),
            old(self).has_face(f),
        ensures
            final(self).wf(),
            final(self).verts@ == old(self).verts@,
            final(self).hes@ == old(self).hes@,
            final(self).edges@ == old(self).edges@,
            final(self).sphere_path_b == old(self).sphere_path_b,
            final(self).cylinder_path_b == old(self).cylinder_path_b,
            final(self).cone_path_b == old(self).cone_path_b,
            final(self).faces@.len() == old(self).faces@.len(),
            final(self).has_face(f),
            final(self).face(f).surface == kind,
            final(self).face(f).outer == old(self).face(f).outer,
            final(self).face(f).inners@ == old(self).face(f).inners@,
            final(self).face(f).normal == old(self).face(f).normal,
            final(self).face(f).material == old(self).face(f).material,
            final(self).face(f).active == old(self).face(f).active,
            forall|j: int| 0 <= j < old(self).nf() && j != f.id as int ==> #[trigger] final(self).faces@[j] == old(self).faces@[j],
    {
        let ghost m0 = *self;
        let idx = f.id as usize;
        match &mut self.faces[idx] {
            Some(fc) => {
                fc.surface = kind;
            },
            None => {},
        }
        proof {
            assert forall|i: int| 0 <= i < self.nh() implies #[trigger] he_refs_ok(self.hes@[i], self.nv(), self.nh(), self.ne(), self.nf()) by {
                assert(he_refs_ok(m0.hes@[i], m0.nv(), m0.nh(), m0.ne(), m0.nf()));
            }
            assert forall|i: int| 0 <= i < self.ne() implies #[trigger] edge_refs_ok(self.edges@[i], self.nv(), self.nh()) by {
                assert(edge_refs_ok(m0.edges@[i], m0.nv(), m0.nh()));
            }
            assert forall|i: int| 0 <= i < self.nf() && (#[trigger] self.faces@[i]).is_some() implies face_refs_ok(self.faces@[i].unwrap(), self.nh()) by {
                assert(face_refs_ok(m0.faces@[i].unwrap(), m0.nh()));
                let a = m0.faces@[i].unwrap();
                let b = self.faces@[i].unwrap();
                assert forall|q: int| 0 <= q < b.inners@.len() implies #[trigger] loop_ref_ok(b.inners@[q], self.nh()) by {
                    assert(loop_ref_ok(a.inners@[q], m0.nh()));
                }
            }
        }
    }
}

} // verus!
