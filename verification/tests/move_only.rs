use axia_geo::ids::{FaceId, MaterialId, VertId};
use axia_geo::mesh::{Mesh, MeshError, Vec3Bits};

fn bits(x: f64, y: f64, z: f64) -> Vec3Bits {
    Vec3Bits { x: x.to_bits(), y: y.to_bits(), z: z.to_bits() }
}

fn vtx(m: &mut Mesh, x: f64, y: f64, z: f64) -> VertId {
    m.add_vertex(bits(x, y, z)).unwrap()
}

fn square(m: &mut Mesh, x0: f64, x1: f64, z: f64) -> Vec<VertId> {
    vec![vtx(m, x0, x0, z), vtx(m, x1, x0, z), vtx(m, x1, x1, z), vtx(m, x0, x1, z)]
}

/// A closed unit box: the top face and the four walls.
fn box_mesh(m: &mut Mesh) -> (FaceId, Vec<FaceId>) {
    let b = square(m, 0.0, 1.0, 0.0);
    let t = square(m, 0.0, 1.0, 1.0);
    let mat = MaterialId::new(0);
    let z = bits(0.0, 0.0, 0.0);
    m.add_face(&[b[0], b[3], b[2], b[1]], z, mat).unwrap();
    let top = m.add_face(&t, z, mat).unwrap();
    let mut walls = Vec::new();
    for i in 0..4 {
        let j = (i + 1) % 4;
        walls.push(m.add_face(&[b[i], b[j], t[j], t[i]], z, mat).unwrap());
    }
    (top, walls)
}

#[test]
fn move_only_vertices_of_a_face_with_a_hole() {
    let mut m = Mesh::new();
    let outer = square(&mut m, 0.0, 10.0, 0.0);
    let hole = square(&mut m, 4.0, 6.0, 0.0);
    let hole_cw: Vec<VertId> = hole.iter().rev().cloned().collect();
    let f = m.add_face_with_holes(&outer, &vec![hole_cw], bits(0.0, 0.0, 1.0), MaterialId::new(0)).unwrap();
    let vs = m.move_only_vertices(f).unwrap();
    assert_eq!(vs.len(), 8);
    for v in outer.iter().chain(hole.iter()) {
        assert!(vs.contains(v));
    }
}

#[test]
fn move_only_vertices_of_a_broken_face() {
    let mut m = Mesh::new();
    let (top, _) = box_mesh(&mut m);
    let vs = m.move_only_vertices(top).unwrap();
    assert_eq!(vs, vec![VertId::new(4), VertId::new(5), VertId::new(6), VertId::new(7)]);
    m.faces[top.id as usize].as_mut().unwrap().outer.id = u32::MAX;
    assert_eq!(m.move_only_vertices(top), Err(MeshError::HalfEdgeNotFound));
}

#[test]
fn set_positions_last_write_wins() {
    let mut m = Mesh::new();
    let a = vtx(&mut m, 0.0, 0.0, 0.0);
    let b = vtx(&mut m, 1.0, 0.0, 0.0);
    let c = vtx(&mut m, 2.0, 0.0, 0.0);
    m.set_vertex_positions(&vec![a, c, a], &vec![bits(0.0, 0.0, 1.0), bits(2.0, 0.0, 1.0), bits(0.0, 0.0, 2.0)]);
    assert_eq!(m.verts[a.id as usize].pos, bits(0.0, 0.0, 2.0));
    assert_eq!(m.verts[b.id as usize].pos, bits(1.0, 0.0, 0.0));
    assert_eq!(m.verts[c.id as usize].pos, bits(2.0, 0.0, 1.0));
    assert!(m.verts[a.id as usize].active);
}

#[test]
fn box_top_neighbours_are_the_walls() {
    let mut m = Mesh::new();
    let (top, walls) = box_mesh(&mut m);
    let mut ns = m.boundary_neighbour_faces(top).unwrap();
    ns.sort_by_key(|f| f.id);
    assert_eq!(ns, walls);
}

#[test]
fn lone_face_has_no_neighbours() {
    let mut m = Mesh::new();
    let vs = square(&mut m, 0.0, 1.0, 0.0);
    let f = m.add_face(&vs, bits(0.0, 0.0, 1.0), MaterialId::new(0)).unwrap();
    assert!(m.boundary_neighbour_faces(f).unwrap().is_empty());
}
