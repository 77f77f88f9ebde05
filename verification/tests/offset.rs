use axia_geo::ids::{EdgeId, FaceId, MaterialId, VertId};
use axia_geo::offset::OffsetHostError;
use axia_geo::mesh::{Mesh, MeshError, Vec3Bits};

fn bits(x: f64, y: f64, z: f64) -> Vec3Bits {
    Vec3Bits { x: x.to_bits(), y: y.to_bits(), z: z.to_bits() }
}

fn vtx(m: &mut Mesh, x: f64, y: f64, z: f64) -> VertId {
    m.add_vertex(bits(x, y, z)).unwrap()
}

fn loop_of(m: &Mesh, s: axia_geo::ids::HeId) -> Vec<VertId> {
    m.collect_loop_verts(s).unwrap()
}

fn square(m: &mut Mesh) -> (Vec<VertId>, FaceId) {
    let vs = vec![vtx(m, 0.0, 0.0, 0.0), vtx(m, 4.0, 0.0, 0.0), vtx(m, 4.0, 4.0, 0.0), vtx(m, 0.0, 4.0, 0.0)];
    let f = m.add_face(&vs, bits(0.0, 0.0, 1.0), MaterialId::new(7)).unwrap();
    (vs, f)
}

#[test]
fn inset_makes_inner_face_and_frame() {
    let mut m = Mesh::new();
    let (vs, f) = square(&mut m);
    let inset = vec![bits(1.0, 1.0, 0.0), bits(3.0, 1.0, 0.0), bits(3.0, 3.0, 0.0), bits(1.0, 3.0, 0.0)];
    let up = bits(0.0, 0.0, 1.0);
    let r = m.offset_face_build(f, &inset, true, up, up).unwrap();
    assert_eq!(r.original_face, f);
    assert!(m.faces[f.id as usize].is_none());
    let news: Vec<VertId> = (4..8).map(VertId::new).collect();
    for i in 0..4 {
        assert_eq!(m.verts[4 + i].pos, inset[i]);
    }
    let inner = m.faces[r.inner_face.id as usize].as_ref().unwrap();
    assert_eq!(inner.material, MaterialId::new(7));
    assert_eq!(loop_of(&m, inner.outer), news);
    assert_eq!(r.strip_faces.len(), 1);
    let frame = m.faces[r.strip_faces[0].id as usize].as_ref().unwrap();
    assert_eq!(loop_of(&m, frame.outer), vs);
    assert_eq!(frame.inners.len(), 1);
    assert_eq!(loop_of(&m, frame.inners[0]), news);
    assert!(m.is_well_formed());
}

#[test]
fn outset_swaps_the_roles() {
    let mut m = Mesh::new();
    let (vs, f) = square(&mut m);
    let outset = vec![bits(-1.0, -1.0, 0.0), bits(5.0, -1.0, 0.0), bits(5.0, 5.0, 0.0), bits(-1.0, 5.0, 0.0)];
    let up = bits(0.0, 0.0, 1.0);
    let r = m.offset_face_build(f, &outset, false, up, up).unwrap();
    let news: Vec<VertId> = (4..8).map(VertId::new).collect();
    let inner = m.faces[r.inner_face.id as usize].as_ref().unwrap();
    assert_eq!(loop_of(&m, inner.outer), vs);
    let frame = m.faces[r.strip_faces[0].id as usize].as_ref().unwrap();
    assert_eq!(loop_of(&m, frame.outer), news);
    assert_eq!(loop_of(&m, frame.inners[0]), vs);
}

#[test]
fn offset_of_a_missing_face_fails() {
    let mut m = Mesh::new();
    let (_, f) = square(&mut m);
    m.remove_face(f).unwrap();
    let up = bits(0.0, 0.0, 1.0);
    let r = m.offset_face_build(f, &vec![up; 4], true, up, up);
    assert_eq!(r.err().map(|e| e == MeshError::FaceNotFound), Some(true));
    let r = m.offset_face_build(FaceId::new(9), &vec![], true, up, up);
    assert_eq!(r.err().map(|e| e == MeshError::FaceNotFound), Some(true));
}

#[test]
fn offset_edge_adds_a_parallel_free_edge() {
    let mut m = Mesh::new();
    let a = vtx(&mut m, 0.0, 0.0, 0.0);
    let b = vtx(&mut m, 2.0, 0.0, 0.0);
    m.add_edge(a, b).unwrap();
    let r = m.offset_edge_build(bits(0.0, 1.0, 0.0), bits(2.0, 1.0, 0.0)).unwrap();
    assert_eq!((r.new_v0, r.new_v1), (VertId::new(2), VertId::new(3)));
    assert_eq!(r.new_edge.id, 1);
    assert_eq!(m.verts[2].pos, bits(0.0, 1.0, 0.0));
    assert_eq!(m.verts[3].pos, bits(2.0, 1.0, 0.0));
    let e = m.edges[1];
    assert_eq!((e.v_small, e.v_large), (r.new_v0, r.new_v1));
    assert!(m.is_edge_completely_free(r.new_edge));
}

#[test]
fn offset_host_of_a_face_edge_is_the_face() {
    let mut m = Mesh::new();
    let (vs, f) = square(&mut m);
    let e = m.find_edge(vs[0], vs[1]).unwrap();
    assert_eq!(m.resolve_offset_host(e, true, &[]), Ok(Some(f)));
    assert_eq!(m.resolve_offset_host(e, false, &[]), Err(OffsetHostError::Degenerate));
    let far = EdgeId::new(99);
    assert_eq!(m.resolve_offset_host(far, true, &[]), Err(OffsetHostError::EdgeNotFound(far)));
    // A second face on the same edge: the host is the first one when the
    // flag says both share a surface, otherwise the choice is ambiguous.
    let w = vtx(&mut m, 2.0, -3.0, 0.0);
    let g = m.add_face(&[vs[1], vs[0], w], bits(0.0, 0.0, 1.0), MaterialId::new(7)).unwrap();
    let faces = m.get_faces_sharing_edge(e);
    assert_eq!(faces.len(), 2);
    assert!(faces.contains(&f) && faces.contains(&g));
    assert_eq!(m.resolve_offset_host(e, true, &[true]), Ok(Some(faces[0])));
    assert_eq!(m.resolve_offset_host(e, true, &[false]), Err(OffsetHostError::AmbiguousHost { n_faces: 2 }));
    assert_eq!(m.resolve_offset_host(e, true, &[]), Err(OffsetHostError::AmbiguousHost { n_faces: 2 }));
}

#[test]
fn offset_host_of_a_free_edge_is_none() {
    let mut m = Mesh::new();
    let a = vtx(&mut m, 0.0, 0.0, 0.0);
    let b = vtx(&mut m, 1.0, 0.0, 0.0);
    let e = m.add_edge(a, b).unwrap();
    assert_eq!(m.resolve_offset_host(e, true, &[]), Ok(None));
}

#[test]
fn offset_host_with_holes_is_refused() {
    let mut m = Mesh::new();
    let outer = vec![vtx(&mut m, 0.0, 0.0, 0.0), vtx(&mut m, 10.0, 0.0, 0.0), vtx(&mut m, 10.0, 10.0, 0.0), vtx(&mut m, 0.0, 10.0, 0.0)];
    let hole = vec![vtx(&mut m, 4.0, 4.0, 0.0), vtx(&mut m, 4.0, 6.0, 0.0), vtx(&mut m, 6.0, 6.0, 0.0), vtx(&mut m, 6.0, 4.0, 0.0)];
    let f = m.add_face_with_holes(&outer, &vec![hole.clone()], bits(0.0, 0.0, 1.0), MaterialId::new(0)).unwrap();
    let e = m.find_edge(outer[0], outer[1]).unwrap();
    assert_eq!(m.resolve_offset_host(e, true, &[]), Err(OffsetHostError::MultiLoop(f)));
    // Soft removal frees the hole loop's half-edges too.
    let hole_start = m.faces[f.id as usize].as_ref().unwrap().inners[0];
    let outer_start = m.faces[f.id as usize].as_ref().unwrap().outer;
    let hole_hes = m.collect_loop_hes(hole_start).unwrap();
    let outer_hes = m.collect_loop_hes(outer_start).unwrap();
    m.soft_remove_face(f).unwrap();
    for h in hole_hes.iter().chain(outer_hes.iter()) {
        assert_eq!(m.hes[h.id as usize].face.id, u32::MAX);
    }
}
