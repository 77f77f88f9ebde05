use axia_geo::ids::{MaterialId, VertId};
use axia_geo::mesh::{Mesh, MeshError, Vec3Bits};

fn bits(x: f64, y: f64, z: f64) -> Vec3Bits {
    Vec3Bits { x: x.to_bits(), y: y.to_bits(), z: z.to_bits() }
}

fn outer_verts(m: &Mesh, f: axia_geo::ids::FaceId) -> Vec<VertId> {
    m.collect_loop_verts(m.faces[f.id as usize].as_ref().unwrap().outer).unwrap()
}

/// Profile positions rotated by `k * 90°` about the Z axis.
fn rings(profile: &[(f64, f64)], n: usize) -> Vec<Vec<Vec3Bits>> {
    (0..n)
        .map(|k| {
            let t = (k as f64) * std::f64::consts::TAU / (n as f64);
            profile.iter().map(|&(r, z)| bits(r * t.cos(), r * t.sin(), z)).collect()
        })
        .collect()
}

#[test]
fn revolve_a_segment_makes_a_band_of_quads() {
    let mut m = Mesh::new();
    let pos = rings(&[(1.0, 0.0), (1.0, 2.0)], 4);
    let normals = vec![vec![bits(0.0, 0.0, 0.0)]; 4];
    let (rs, fs) = m.revolve_build(&pos, &vec![false, false], &normals, MaterialId::new(0)).unwrap();
    assert_eq!(rs.len(), 4);
    assert_eq!(fs.len(), 4);
    assert_eq!(m.verts.len(), 8);
    for k in 0..4 {
        let k2 = (k + 1) % 4;
        assert_eq!(outer_verts(&m, fs[k]), vec![rs[k][0], rs[k2][0], rs[k2][1], rs[k][1]]);
        assert_eq!(m.verts[rs[k][1].id as usize].pos, pos[k][1]);
    }
    assert!(m.is_well_formed());
}

#[test]
fn revolve_shares_the_pole_and_makes_triangles() {
    let mut m = Mesh::new();
    // A cone: the apex lies on the axis.
    let pos = rings(&[(1.0, 0.0), (0.0, 1.0)], 3);
    let normals = vec![vec![bits(0.0, 0.0, 0.0)]; 3];
    let (rs, fs) = m.revolve_build(&pos, &vec![false, true], &normals, MaterialId::new(0)).unwrap();
    assert_eq!(m.verts.len(), 4);
    assert_eq!(rs[1][1], rs[0][1]);
    assert_eq!(rs[2][1], rs[0][1]);
    assert_eq!(fs.len(), 3);
    for k in 0..3 {
        let k2 = (k + 1) % 3;
        assert_eq!(outer_verts(&m, fs[k]), vec![rs[k][0], rs[k2][0], rs[k][1]]);
    }
}

#[test]
fn revolve_skips_segments_on_the_axis() {
    let mut m = Mesh::new();
    let pos = rings(&[(0.0, 0.0), (0.0, 1.0), (1.0, 1.0)], 3);
    let normals = vec![vec![bits(0.0, 0.0, 0.0); 2]; 3];
    let (rs, fs) = m.revolve_build(&pos, &vec![true, true, false], &normals, MaterialId::new(0)).unwrap();
    // Two shared poles plus three ring vertices; one triangle per ring.
    assert_eq!(m.verts.len(), 5);
    assert_eq!(fs.len(), 3);
    for k in 0..3 {
        let k2 = (k + 1) % 3;
        assert_eq!(outer_verts(&m, fs[k]), vec![rs[k][1], rs[k2][2], rs[k][2]]);
    }
}

#[test]
fn revolve_rejects_short_profiles_and_few_steps() {
    let mut m = Mesh::new();
    let normals = vec![vec![bits(0.0, 0.0, 0.0)]; 4];
    let one = rings(&[(1.0, 0.0)], 4);
    assert_eq!(m.revolve_build(&one, &vec![false], &normals, MaterialId::new(0)).err(), Some(MeshError::Degenerate));
    let two_steps = rings(&[(1.0, 0.0), (1.0, 1.0)], 2);
    let normals2 = vec![vec![bits(0.0, 0.0, 0.0)]; 2];
    assert_eq!(
        m.revolve_build(&two_steps, &vec![false, false], &normals2, MaterialId::new(0)).err(),
        Some(MeshError::Degenerate)
    );
    assert_eq!(m.verts.len(), 0);
}

/// Every directed edge of the active faces' outer loops occurs once and is
/// run backwards exactly once.
fn oriented_closed(m: &Mesh) -> bool {
    let mut edges: Vec<(VertId, VertId)> = Vec::new();
    for f in m.faces.iter().flatten().filter(|f| f.active) {
        let l = m.collect_loop_verts(f.outer).unwrap();
        for k in 0..l.len() {
            edges.push((l[k], l[(k + 1) % l.len()]));
        }
    }
    edges.iter().all(|&(a, b)| {
        edges.iter().filter(|&&e| e == (a, b)).count() == 1 && edges.iter().filter(|&&e| e == (b, a)).count() == 1
    })
}

#[test]
fn revolve_with_both_ends_on_the_axis_is_a_closed_lens() {
    let mut m = Mesh::new();
    // South pole, two points off the axis, north pole; eight steps.
    let pos = rings(&[(0.0, -1.0), (1.0, -0.5), (1.0, 0.5), (0.0, 1.0)], 8);
    let normals = vec![vec![bits(0.0, 0.0, 0.0); 3]; 8];
    let (_rs, fs) = m.revolve_build(&pos, &vec![true, false, false, true], &normals, MaterialId::new(0)).unwrap();
    assert_eq!(fs.len(), 24);
    assert_eq!(m.verts.len(), 2 + 2 * 8);
    assert!(oriented_closed(&m));
    assert!(m.is_well_formed());
}

#[test]
fn revolve_with_an_open_end_is_not_closed() {
    let mut m = Mesh::new();
    let pos = rings(&[(1.0, 0.0), (1.0, 2.0)], 4);
    let normals = vec![vec![bits(0.0, 0.0, 0.0)]; 4];
    m.revolve_build(&pos, &vec![false, false], &normals, MaterialId::new(0)).unwrap();
    assert!(!oriented_closed(&m));
}

#[test]
fn revolve_refusal_leaves_the_mesh_unchanged() {
    let mut m = Mesh::new();
    let pos = rings(&[(1.0, 0.0), (1.0, 2.0)], 4);
    let normals = vec![vec![bits(0.0, 0.0, 0.0)]; 4];
    m.revolve_build(&pos, &vec![false, false], &normals, MaterialId::new(0)).unwrap();
    let counts = (m.verts.len(), m.hes.len(), m.edges.len(), m.faces.len());
    let one = rings(&[(1.0, 0.0)], 4);
    assert_eq!(m.revolve_build(&one, &vec![false], &normals, MaterialId::new(0)).err(), Some(MeshError::Degenerate));
    let two_steps = rings(&[(1.0, 0.0), (1.0, 1.0)], 2);
    let normals2 = vec![vec![bits(0.0, 0.0, 0.0)]; 2];
    assert_eq!(
        m.revolve_build(&two_steps, &vec![false, false], &normals2, MaterialId::new(0)).err(),
        Some(MeshError::Degenerate)
    );
    assert_eq!((m.verts.len(), m.hes.len(), m.edges.len(), m.faces.len()), counts);
    assert!(m.is_well_formed());
}
