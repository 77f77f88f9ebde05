use axia_geo::ids::{FaceId, MaterialId, VertId};
use axia_geo::mesh::{Mesh, MeshError, SurfaceKind, Vec3Bits};

fn bits(x: f64, y: f64, z: f64) -> Vec3Bits {
    Vec3Bits { x: x.to_bits(), y: y.to_bits(), z: z.to_bits() }
}

fn outer_verts(m: &Mesh, f: FaceId) -> Vec<VertId> {
    m.collect_loop_verts(m.faces[f.id as usize].as_ref().unwrap().outer).unwrap()
}

fn ring(n: usize, r: f64, z: f64) -> Vec<Vec3Bits> {
    (0..n)
        .map(|i| {
            let a = std::f64::consts::TAU * (i as f64) / (n as f64);
            bits(r * a.cos(), r * a.sin(), z)
        })
        .collect()
}

fn zeros(n: usize) -> Vec<Vec3Bits> {
    vec![bits(0.0, 0.0, 0.0); n]
}

/// Every edge of a closed surface is shared by exactly two faces.
fn closed(m: &Mesh) -> bool {
    (0..m.edges.len()).all(|e| m.get_faces_sharing_edge(axia_geo::ids::EdgeId::new(e as u32)).len() == 2)
}

/// Every directed edge of the active faces' loops occurs once and is run
/// backwards exactly once.
fn oriented_closed(m: &Mesh) -> bool {
    let mut edges: Vec<(VertId, VertId)> = Vec::new();
    for f in m.faces.iter().flatten().filter(|f| f.active) {
        let mut starts = vec![f.outer];
        starts.extend(f.inners.iter().cloned());
        for st in starts {
            let l = m.collect_loop_verts(st).unwrap();
            for k in 0..l.len() {
                edges.push((l[k], l[(k + 1) % l.len()]));
            }
        }
    }
    edges.iter().all(|&(a, b)| {
        edges.iter().filter(|&&e| e == (a, b)).count() == 1 && edges.iter().filter(|&&e| e == (b, a)).count() == 1
    })
}

#[test]
fn box_has_six_outward_quads() {
    let mut m = Mesh::new();
    let mut corners = Vec::new();
    for (x, y, z) in [(0, 0, 0), (1, 0, 0), (1, 1, 0), (0, 1, 0), (0, 0, 1), (1, 0, 1), (1, 1, 1), (0, 1, 1)] {
        corners.push(bits(x as f64, y as f64, z as f64));
    }
    let (vs, fs) = m.box_build(&corners, &zeros(6), MaterialId::new(0)).unwrap();
    assert_eq!(vs.len(), 8);
    assert_eq!(fs.len(), 6);
    assert_eq!(outer_verts(&m, fs[0]), vec![vs[0], vs[3], vs[2], vs[1]]);
    assert_eq!(outer_verts(&m, fs[1]), vec![vs[4], vs[5], vs[6], vs[7]]);
    assert_eq!(m.edges.len(), 12);
    assert!(closed(&m));
    assert!(oriented_closed(&m));
    assert!(m.is_well_formed());
}

#[test]
fn cylinder_has_caps_and_walls() {
    let mut m = Mesh::new();
    let (b, t, fs) = m.cylinder_build(&ring(5, 1.0, 0.0), &ring(5, 1.0, 2.0), &zeros(7), MaterialId::new(0)).unwrap();
    assert_eq!(fs.len(), 7);
    let rb: Vec<VertId> = b.iter().rev().cloned().collect();
    assert_eq!(outer_verts(&m, fs[0]), rb);
    assert_eq!(outer_verts(&m, fs[1]), t);
    for i in 0..5 {
        let j = (i + 1) % 5;
        assert_eq!(outer_verts(&m, fs[2 + i]), vec![b[i], b[j], t[j], t[i]]);
    }
    assert_eq!(m.edges.len(), 15);
    assert!(closed(&m));
    assert!(oriented_closed(&m));
}

#[test]
fn cylinder_with_two_segments_is_refused() {
    let mut m = Mesh::new();
    let r = m.cylinder_build(&ring(2, 1.0, 0.0), &ring(2, 1.0, 1.0), &zeros(4), MaterialId::new(0));
    assert!(r.is_err());
    assert!(m.is_well_formed());
}

#[test]
fn cone_apex_is_single_vertex() {
    let mut m = Mesh::new();
    let (a, b, fs) = m.cone_build(bits(0.0, 0.0, 3.0), &ring(6, 1.0, 0.0), &zeros(7), MaterialId::new(0)).unwrap();
    assert_eq!(m.verts.len(), 7);
    assert_eq!(a, VertId::new(0));
    assert_eq!(fs.len(), 7);
    for i in 0..6 {
        let j = (i + 1) % 6;
        assert_eq!(outer_verts(&m, fs[1 + i]), vec![a, b[j], b[i]]);
    }
    assert!(closed(&m));
}

#[test]
fn cone_needs_three_segments() {
    let mut m = Mesh::new();
    let r = m.cone_build(bits(0.0, 0.0, 3.0), &ring(2, 1.0, 0.0), &zeros(3), MaterialId::new(0));
    assert_eq!(r.err(), Some(MeshError::Degenerate));
    assert_eq!(m.verts.len(), 0);
}

#[test]
fn sphere_has_single_poles_and_is_closed() {
    let mut m = Mesh::new();
    let rings = vec![ring(4, 0.7, 0.7), ring(4, 1.0, 0.0), ring(4, 0.7, -0.7)];
    let (n, s, g, fs) = m
        .sphere_build(bits(0.0, 0.0, 1.0), bits(0.0, 0.0, -1.0), &rings, 4, &zeros(16), MaterialId::new(0))
        .unwrap();
    assert_eq!((n, s), (VertId::new(0), VertId::new(1)));
    assert_eq!(m.verts.len(), 14);
    assert_eq!(g.len(), 3);
    assert_eq!(fs.len(), 16);
    assert_eq!(outer_verts(&m, fs[0]), vec![n, g[0][0], g[0][1]]);
    assert_eq!(outer_verts(&m, fs[4]), vec![g[0][0], g[1][0], g[1][1], g[0][1]]);
    assert_eq!(outer_verts(&m, fs[15]), vec![g[2][0], g[2][3], s]);
    assert!(closed(&m));
    assert!(oriented_closed(&m));
    assert!(m.is_well_formed());
}

#[test]
fn sphere_needs_a_ring_of_three() {
    let mut m = Mesh::new();
    let r = m.sphere_build(bits(0.0, 0.0, 1.0), bits(0.0, 0.0, -1.0), &vec![], 4, &zeros(0), MaterialId::new(0));
    assert_eq!(r.err(), Some(MeshError::Degenerate));
    let r = m.sphere_build(bits(0.0, 0.0, 1.0), bits(0.0, 0.0, -1.0), &vec![ring(2, 1.0, 0.0)], 2, &zeros(4), MaterialId::new(0));
    assert_eq!(r.err(), Some(MeshError::Degenerate));
    assert_eq!(m.verts.len(), 0);
}

#[test]
fn cone_sides_run_base_edges_the_way_the_base_does() {
    let mut m = Mesh::new();
    let (_a, b, fs) = m.cone_build(bits(0.0, 0.0, 3.0), &ring(4, 1.0, 0.0), &zeros(5), MaterialId::new(0)).unwrap();
    let base = outer_verts(&m, fs[0]);
    assert_eq!(base, vec![b[3], b[2], b[1], b[0]]);
    // The base runs b[1] -> b[0], and so does the side triangle over that edge.
    let side = outer_verts(&m, fs[1]);
    assert_eq!(&side[1..], &[b[1], b[0]]);
    assert!(closed(&m));
    assert!(!oriented_closed(&m));
}

#[test]
fn faces_start_on_a_plane_and_take_a_surface_kind() {

    let mut m = Mesh::new();
    let (_b, _t, fs) = m.cylinder_build(&ring(4, 1.0, 0.0), &ring(4, 1.0, 2.0), &zeros(6), MaterialId::new(0)).unwrap();
    assert_eq!(m.face_surface(fs[2]), Some(SurfaceKind::Plane));
    m.set_face_surface(fs[2], SurfaceKind::Cylinder);
    assert_eq!(m.face_surface(fs[2]), Some(SurfaceKind::Cylinder));
    assert_eq!(m.face_surface(fs[0]), Some(SurfaceKind::Plane));
    assert_eq!(m.face_surface(FaceId::new(99)), None);
    assert!(m.is_well_formed());
}
