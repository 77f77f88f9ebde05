use axia_geo::repair::sort_faces_by_id;
use axia_geo::ids::{FaceId, MaterialId, VertId};
use axia_geo::mesh::{Mesh, Vec3Bits};
use axia_geo::repair::RepairReport;

fn bits(x: f64, y: f64, z: f64) -> Vec3Bits {
    Vec3Bits { x: x.to_bits(), y: y.to_bits(), z: z.to_bits() }
}

fn vtx(m: &mut Mesh, x: f64, y: f64, z: f64) -> VertId {
    m.add_vertex(bits(x, y, z)).unwrap()
}

fn face(m: &mut Mesh, vs: &[VertId]) -> FaceId {
    m.add_face(vs, bits(0.0, 0.0, 1.0), MaterialId::new(0)).unwrap()
}

fn two_cubes_touching(mesh: &mut Mesh) -> Vec<FaceId> {
    let a000 = vtx(mesh, 0.0, 0.0, 0.0);
    let a100 = vtx(mesh, 1.0, 0.0, 0.0);
    let a110 = vtx(mesh, 1.0, 1.0, 0.0);
    let a010 = vtx(mesh, 0.0, 1.0, 0.0);
    let a001 = vtx(mesh, 0.0, 0.0, 1.0);
    let a101 = vtx(mesh, 1.0, 0.0, 1.0);
    let a111 = vtx(mesh, 1.0, 1.0, 1.0);
    let a011 = vtx(mesh, 0.0, 1.0, 1.0);
    let af0 = face(mesh, &[a000, a010, a110, a100]);
    let af1 = face(mesh, &[a001, a101, a111, a011]);
    let af2 = face(mesh, &[a000, a100, a101, a001]);
    let af3 = face(mesh, &[a010, a011, a111, a110]);
    let af4 = face(mesh, &[a000, a001, a011, a010]);
    let af5 = face(mesh, &[a100, a110, a111, a101]);
    let b200 = vtx(mesh, 2.0, 0.0, 0.0);
    let b210 = vtx(mesh, 2.0, 1.0, 0.0);
    let b201 = vtx(mesh, 2.0, 0.0, 1.0);
    let b211 = vtx(mesh, 2.0, 1.0, 1.0);
    let bf0 = face(mesh, &[a100, a110, b210, b200]);
    let bf1 = face(mesh, &[a101, b201, b211, a111]);
    let bf2 = face(mesh, &[a100, b200, b201, a101]);
    let bf3 = face(mesh, &[a110, a111, b211, b210]);
    let bf4 = face(mesh, &[b200, b210, b211, b201]);
    let bf5 = face(mesh, &[a100, a101, a111, a110]);
    vec![af0, af1, af2, af3, af4, af5, bf0, bf1, bf2, bf3, bf4, bf5]
}

#[test]
fn detect_non_manifold_edges_in_touching_cubes() {
    let mut mesh = Mesh::new();
    let _ = two_cubes_touching(&mut mesh);
    let bad = mesh.find_non_manifold_edges();
    assert_eq!(bad.len(), 4, "expected 4 non-manifold edges, got {}", bad.len());
    for nm in &bad {
        assert_eq!(nm.faces.len(), 4);
    }
}

#[test]
fn repair_non_manifold_edges_clears_violations() {
    let mut mesh = Mesh::new();
    let _ = two_cubes_touching(&mut mesh);
    assert_eq!(mesh.find_non_manifold_edges().len(), 4);
    let report = mesh.repair_non_manifold_edges_geometric();
    assert!(report.is_clean(), "{}", report.summary());
    assert_eq!(report.edges_repaired, 4);
    assert_eq!(report.edges_examined, 4);
    let after = mesh.find_non_manifold_edges();
    assert!(after.is_empty(), "still {} non-manifold edges after repair", after.len());
}

#[test]
fn detach_face_groups_basic() {
    let mut mesh = Mesh::new();
    let v0 = vtx(&mut mesh, 0.0, 0.0, 0.0);
    let v1 = vtx(&mut mesh, 1.0, 0.0, 0.0);
    let v2 = vtx(&mut mesh, 1.0, 1.0, 0.0);
    let v3 = vtx(&mut mesh, 0.0, 1.0, 0.0);
    let v4 = vtx(&mut mesh, 2.0, 0.0, 0.0);
    let v5 = vtx(&mut mesh, 2.0, 1.0, 0.0);
    let fa = face(&mut mesh, &[v0, v1, v2, v3]);
    let fb = face(&mut mesh, &[v1, v4, v5, v2]);
    let v_count_before = mesh.verts.len();
    let (mapping, n_dup) = mesh.detach_face_groups(&[fa], &[fb]).unwrap();
    assert_eq!(n_dup, 2);
    assert_eq!(mesh.verts.len(), v_count_before + 2);
    assert_eq!(mapping.len(), 1);
    let (old, new) = mapping[0];
    assert_eq!(old, fb);
    assert_ne!(new, fb);
    // the detached face no longer shares an edge with fa
    assert_eq!(mesh.find_shared_edge_vertices(fa, new), None);
    // the copies sit where the originals were
    let new_verts = mesh.collect_loop_verts(mesh.faces[new.id as usize].as_ref().unwrap().outer).unwrap();
    assert_eq!(new_verts.len(), 4);
    assert_eq!(new_verts[1], v4);
    assert_eq!(new_verts[2], v5);
    assert_eq!(mesh.verts[new_verts[0].id as usize].pos, mesh.verts[v1.id as usize].pos);
    assert_eq!(mesh.verts[new_verts[3].id as usize].pos, mesh.verts[v2.id as usize].pos);
}

#[test]
fn detach_face_groups_without_shared_vertices_keeps_faces() {
    let mut mesh = Mesh::new();
    let a: Vec<VertId> = (0..4).map(|i| vtx(&mut mesh, i as f64, 0.0, 0.0)).collect();
    let b: Vec<VertId> = (0..4).map(|i| vtx(&mut mesh, i as f64, 5.0, 0.0)).collect();
    let fa = face(&mut mesh, &a);
    let fb = face(&mut mesh, &b);
    let (mapping, n_dup) = mesh.detach_face_groups(&[fa], &[fb]).unwrap();
    assert_eq!(n_dup, 0);
    assert_eq!(mapping, vec![(fb, fb)]);
}

#[test]
fn repair_report_summary_and_clean() {
    let mut r = RepairReport::new();
    assert!(r.is_clean());
    r.edges_examined = 12;
    r.edges_repaired = 3;
    r.faces_detached = 5;
    r.vertices_created = 40;
    r.edges_skipped.push((axia_geo::ids::EdgeId::new(7), "detach failed: bad vertex".to_string()));
    assert!(!r.is_clean());
    assert_eq!(r.summary(), "examined 12 edges, repaired 3, skipped 1, faces detached 5, verts created 40");
}

#[test]
fn manifold_mesh_has_no_non_manifold_edges() {
    let mut mesh = Mesh::new();
    let v: Vec<VertId> = (0..3).map(|i| vtx(&mut mesh, i as f64, (i * i) as f64, 0.0)).collect();
    let _ = face(&mut mesh, &v);
    assert!(mesh.find_non_manifold_edges().is_empty());
    let report = mesh.repair_non_manifold_edges_geometric();
    assert_eq!(report.edges_examined, 0);
    assert!(report.is_clean());
}

#[test]
fn sort_faces_by_id_orders_and_keeps_all() {
    let v = vec![FaceId::new(5), FaceId::new(2), FaceId::new(9), FaceId::new(2)];
    assert_eq!(sort_faces_by_id(&v), vec![FaceId::new(2), FaceId::new(2), FaceId::new(5), FaceId::new(9)]);
}

#[test]
fn detached_faces_share_no_vertex_with_the_kept_group() {
    let mut mesh = Mesh::new();
    // A fan of three squares around the edge v0-v1: keep the first two,
    // detach the third.
    let v0 = vtx(&mut mesh, 0.0, 0.0, 0.0);
    let v1 = vtx(&mut mesh, 0.0, 0.0, 1.0);
    let a = vtx(&mut mesh, 1.0, 0.0, 0.0);
    let b = vtx(&mut mesh, 1.0, 0.0, 1.0);
    let c = vtx(&mut mesh, 0.0, 1.0, 0.0);
    let d = vtx(&mut mesh, 0.0, 1.0, 1.0);
    let e = vtx(&mut mesh, -1.0, 0.0, 0.0);
    let f = vtx(&mut mesh, -1.0, 0.0, 1.0);
    let f1 = face(&mut mesh, &[v0, a, b, v1]);
    let f2 = face(&mut mesh, &[v1, d, c, v0]);
    let f3 = face(&mut mesh, &[v0, v1, f, e]);
    let (mapping, n_dup) = mesh.detach_face_groups(&[f1, f2], &[f3]).unwrap();
    assert_eq!(n_dup, 2);
    let (_, new) = mapping[0];
    let kept: Vec<VertId> = [f1, f2]
        .iter()
        .flat_map(|g| mesh.collect_loop_verts(mesh.faces[g.id as usize].as_ref().unwrap().outer).unwrap())
        .collect();
    let moved = mesh.collect_loop_verts(mesh.faces[new.id as usize].as_ref().unwrap().outer).unwrap();
    assert!(moved.iter().all(|v| !kept.contains(v)));
    assert_eq!(moved[2], f);
    assert_eq!(moved[3], e);
    assert_eq!(mesh.find_non_manifold_edges().len(), 0);
}
