use axia_geo::ids::{FaceId, MaterialId, VertId};
use axia_geo::mesh::{Mesh, Vec3Bits};

fn bits(x: f64, y: f64, z: f64) -> Vec3Bits {
    Vec3Bits { x: x.to_bits(), y: y.to_bits(), z: z.to_bits() }
}

fn vtx(m: &mut Mesh, x: f64, y: f64, z: f64) -> VertId {
    m.add_vertex(bits(x, y, z)).unwrap()
}

fn outer_verts(m: &Mesh, f: FaceId) -> Vec<VertId> {
    m.collect_loop_verts(m.faces[f.id as usize].as_ref().unwrap().outer).unwrap()
}

/// Two unit squares side by side sharing the edge (1,0)-(1,1).
fn two_squares(m: &mut Mesh) -> (Vec<VertId>, FaceId, FaceId) {
    let a = vtx(m, 0.0, 0.0, 0.0);
    let b = vtx(m, 1.0, 0.0, 0.0);
    let c = vtx(m, 1.0, 1.0, 0.0);
    let d = vtx(m, 0.0, 1.0, 0.0);
    let e = vtx(m, 2.0, 0.0, 0.0);
    let f = vtx(m, 2.0, 1.0, 0.0);
    let up = bits(0.0, 0.0, 1.0);
    let f1 = m.add_face(&[a, b, c, d], up, MaterialId::new(0)).unwrap();
    let f2 = m.add_face(&[b, e, f, c], up, MaterialId::new(0)).unwrap();
    (vec![a, b, c, d, e, f], f1, f2)
}

#[test]
fn smooth_group_vertices_lists_each_once() {
    let mut m = Mesh::new();
    let (vs, f1, f2) = two_squares(&mut m);
    let sv = m.smooth_group_vertices(&[f1, f2]);
    assert_eq!(sv.len(), 6);
    for v in &vs {
        assert_eq!(sv.iter().filter(|w| *w == v).count(), 1);
    }
    let only_first = m.smooth_group_vertices(&[f1]);
    assert_eq!(only_first.len(), 4);
    assert!(!only_first.contains(&vs[4]));
    assert!(m.smooth_group_vertices(&[FaceId::new(42)]).is_empty());
}

#[test]
fn seamless_wall_on_the_shared_edge() {
    let mut m = Mesh::new();
    let (_, f1, f2) = two_squares(&mut m);
    let sv = m.smooth_group_vertices(&[f1, f2]);
    let pos: Vec<Vec3Bits> = sv
        .iter()
        .map(|v| {
            let p = m.verts[v.id as usize].pos;
            bits(f64::from_bits(p.x), f64::from_bits(p.y), 1.0)
        })
        .collect();
    let news = m.add_vertices(&pos).unwrap();
    let quads = m.seamless_wall_quads(&[f1, f2], &sv, &news);
    assert_eq!(quads.len(), 1);
    let (b, c) = (VertId::new(1), VertId::new(2));
    let copy = |v: VertId| news[sv.iter().position(|w| *w == v).unwrap()];
    assert_eq!(quads[0], vec![b, c, copy(c), copy(b)]);
    let normals = vec![bits(1.0, 0.0, 0.0)];
    let made = m.add_faces_lenient(&quads, &normals, MaterialId::new(5));
    assert_eq!(made.len(), 1);
    let wall = made[0].unwrap();
    assert_eq!(outer_verts(&m, wall), quads[0]);
    assert_eq!(m.faces[wall.id as usize].as_ref().unwrap().material, MaterialId::new(5));
    assert!(m.is_well_formed());
}

#[test]
fn seamless_wall_needs_both_copies() {
    let mut m = Mesh::new();
    let (_, f1, f2) = two_squares(&mut m);
    // Only `b` has a copy: the shared edge b-c gets no wall.
    let quads = m.seamless_wall_quads(&[f1, f2], &vec![VertId::new(1)], &vec![VertId::new(0)]);
    assert!(quads.is_empty());
    // Faces that share no edge give no wall either.
    let quads = m.seamless_wall_quads(&[f1], &vec![], &vec![]);
    assert!(quads.is_empty());
}

#[test]
fn lenient_add_skips_refused_quads() {
    let mut m = Mesh::new();
    let a = vtx(&mut m, 0.0, 0.0, 0.0);
    let b = vtx(&mut m, 1.0, 0.0, 0.0);
    let c = vtx(&mut m, 1.0, 1.0, 0.0);
    let up = bits(0.0, 0.0, 1.0);
    let quads = vec![vec![a, a, b, c], vec![a, b, c], vec![a, b]];
    let made = m.add_faces_lenient(&quads, &vec![up, up, up], MaterialId::new(0));
    assert_eq!(made.len(), 3);
    assert!(made[0].is_none());
    assert!(made[1].is_some());
    assert!(made[2].is_none());
    assert_eq!(outer_verts(&m, made[1].unwrap()), vec![a, b, c]);
}
