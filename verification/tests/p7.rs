use axia_geo::ids::{FaceId, MaterialId, VertId};
use axia_geo::mesh::{Mesh, MeshError, Vec3Bits};
use axia_geo::p7_canonical_resolver::{enforce_p7_canonical, P7EnforceError};
use axia_geo::p7_manifold::verify_p7_manifold;

fn bits(x: f64, y: f64, z: f64) -> Vec3Bits {
    Vec3Bits { x: x.to_bits(), y: y.to_bits(), z: z.to_bits() }
}

/// A planar quad face (4 verts CCW on the Z=0 plane).
fn build_quad(mesh: &mut Mesh, x_min: f64, x_max: f64, y_min: f64, y_max: f64) -> FaceId {
    let a = mesh.add_vertex(bits(x_min, y_min, 0.0)).unwrap();
    let b = mesh.add_vertex(bits(x_max, y_min, 0.0)).unwrap();
    let c = mesh.add_vertex(bits(x_max, y_max, 0.0)).unwrap();
    let d = mesh.add_vertex(bits(x_min, y_max, 0.0)).unwrap();
    mesh.add_face_with_holes(&[a, b, c, d], &vec![], bits(0.0, 0.0, 1.0), MaterialId::new(0)).unwrap()
}

fn active_face_count(mesh: &Mesh) -> usize {
    mesh.faces.iter().filter(|f| matches!(f, Some(fc) if fc.active)).count()
}

fn loop_verts(mesh: &Mesh, start: axia_geo::ids::HeId) -> Vec<VertId> {
    mesh.collect_loop_verts(start).unwrap()
}

#[test]
fn adr151_enforce_invalid_container() {
    let mut mesh = Mesh::new();
    let inner = build_quad(&mut mesh, 2.0, 4.0, 2.0, 4.0);
    let bogus_container = FaceId::new(99_999);
    let result = enforce_p7_canonical(&mut mesh, bogus_container, &[inner]);
    match result {
        Err(P7EnforceError::InvalidInput { container_active, inner_count_active, inner_count_total }) => {
            assert!(!container_active, "bogus container should be inactive");
            assert_eq!(inner_count_active, 1);
            assert_eq!(inner_count_total, 1);
        }
        other => panic!("expected InvalidInput, got {:?}", other),
    }
}

#[test]
fn adr151_enforce_empty_inners() {
    let mut mesh = Mesh::new();
    let container = build_quad(&mut mesh, 0.0, 10.0, 0.0, 10.0);
    let result = enforce_p7_canonical(&mut mesh, container, &[]);
    match result {
        Err(P7EnforceError::InvalidInput { inner_count_active, .. }) => {
            assert_eq!(inner_count_active, 0);
        }
        other => panic!("expected InvalidInput, got {:?}", other),
    }
}

#[test]
fn adr151_enforce_canonical_two_connected_inners() {
    let mut mesh = Mesh::new();
    let container = build_quad(&mut mesh, 0.0, 10.0, 0.0, 10.0);
    let i1 = build_quad(&mut mesh, 2.0, 8.0, 2.0, 4.0);
    let i2 = build_quad(&mut mesh, 2.0, 8.0, 4.0, 6.0);
    let result = enforce_p7_canonical(&mut mesh, container, &[i1, i2]);
    match result {
        Ok(report) => {
            assert!(report.component_count >= 1);
        }
        Err(P7EnforceError::RebuildFailed { reason }) => {
            assert!(!reason.is_empty(), "RebuildFailed must include reason");
        }
        other => panic!("expected Ok or RebuildFailed, got {:?}", other),
    }
}

#[test]
fn adr151_enforce_multi_component_disjoint_inners() {
    let mut mesh = Mesh::new();
    let container = build_quad(&mut mesh, 0.0, 20.0, 0.0, 10.0);
    let i1 = build_quad(&mut mesh, 2.0, 5.0, 2.0, 5.0);
    let i2 = build_quad(&mut mesh, 12.0, 15.0, 2.0, 5.0);
    let result = enforce_p7_canonical(&mut mesh, container, &[i1, i2]);
    match result {
        Ok(report) => {
            assert_eq!(report.component_count, 2, "2 disjoint → 2 components");
        }
        Err(P7EnforceError::RebuildFailed { reason }) => {
            assert!(!reason.is_empty(), "RebuildFailed must include reason");
        }
        other => panic!("expected Ok(2) or RebuildFailed, got {:?}", other),
    }
}

#[test]
fn adr151_enforce_beta2_may_mutate() {
    let mut mesh = Mesh::new();
    let container = build_quad(&mut mesh, 0.0, 10.0, 0.0, 10.0);
    let inner = build_quad(&mut mesh, 3.0, 7.0, 3.0, 7.0);
    let active_before = active_face_count(&mesh);
    let result = enforce_p7_canonical(&mut mesh, container, &[inner]);
    match result {
        Ok(_) => {
            let active_after = active_face_count(&mesh);
            let _ = active_after;
        }
        Err(P7EnforceError::RebuildFailed { .. }) => {}
        Err(other) => panic!("expected Ok or RebuildFailed, got {:?}", other),
    }
    let _ = active_before;
}

#[test]
fn adr151_beta2_rebuild_canonical_path_exercised() {
    let mut mesh = Mesh::new();
    let container = build_quad(&mut mesh, 0.0, 10.0, 0.0, 10.0);
    let inner = build_quad(&mut mesh, 3.0, 7.0, 3.0, 7.0);
    let result = enforce_p7_canonical(&mut mesh, container, &[inner]);
    assert!(
        !matches!(result, Err(P7EnforceError::RebuildDeferred { .. })),
        "β-2 must replace RebuildDeferred with Ok or RebuildFailed"
    );
}

#[test]
fn adr151_beta2_outer_boundary_preserved_on_success() {
    let mut mesh = Mesh::new();
    let container = build_quad(&mut mesh, 0.0, 10.0, 0.0, 10.0);
    let inner = build_quad(&mut mesh, 3.0, 7.0, 3.0, 7.0);
    let result = enforce_p7_canonical(&mut mesh, container, &[inner]);
    if let Ok(_report) = result {
        let active_face_count = active_face_count(&mesh);
        assert!(active_face_count >= 1, "expected active face post-rebuild");
    }
}

#[test]
fn adr151_beta2_p7_manifold_report_populated_on_success() {
    let mut mesh = Mesh::new();
    let container = build_quad(&mut mesh, 0.0, 20.0, 0.0, 20.0);
    let inner = build_quad(&mut mesh, 5.0, 15.0, 5.0, 15.0);
    let result = enforce_p7_canonical(&mut mesh, container, &[inner]);
    if let Ok(report) = result {
        let _ = report.manifold_report.container;
        let _ = &report.manifold_report.violations;
        let _ = report.manifold_report.edges_checked;
    }
}

#[test]
fn adr151_beta2_rebuild_failed_includes_reason() {
    let mut mesh = Mesh::new();
    let container = build_quad(&mut mesh, 0.0, 10.0, 0.0, 10.0);
    let inner = build_quad(&mut mesh, 3.0, 7.0, 3.0, 7.0);
    let result = enforce_p7_canonical(&mut mesh, container, &[inner]);
    if let Err(P7EnforceError::RebuildFailed { reason }) = result {
        assert!(!reason.is_empty(), "RebuildFailed must include non-empty reason");
    }
}

// ───────────── exact outcomes ─────────────

#[test]
fn enforce_rebuilds_container_as_ring() {
    let mut mesh = Mesh::new();
    let container = build_quad(&mut mesh, 0.0, 10.0, 0.0, 10.0);
    let inner = build_quad(&mut mesh, 3.0, 7.0, 3.0, 7.0);
    let container_outer = mesh.faces[container.id as usize].as_ref().unwrap().outer;
    let outer_before = loop_verts(&mesh, container_outer);
    let inner_outer = mesh.faces[inner.id as usize].as_ref().unwrap().outer;
    let inner_verts = loop_verts(&mesh, inner_outer);
    let nf = mesh.faces.len();
    let report = enforce_p7_canonical(&mut mesh, container, &[inner]).unwrap();
    assert_eq!(report.component_count, 1);
    // the container is kept but inactive; a new face was appended
    assert!(!mesh.faces[container.id as usize].as_ref().unwrap().active);
    assert_eq!(mesh.faces.len(), nf + 1);
    let ring = mesh.faces[nf].as_ref().unwrap();
    assert!(ring.active);
    assert_eq!(loop_verts(&mesh, ring.outer), outer_before);
    assert_eq!(ring.inners.len(), 1);
    let mut expected_hole = inner_verts.clone();
    expected_hole.reverse();
    assert_eq!(loop_verts(&mesh, ring.inners[0]), expected_hole);
    // inner face untouched and still active; every checked edge has at most two faces
    assert!(mesh.faces[inner.id as usize].as_ref().unwrap().active);
    assert_eq!(report.manifold_report.container, container);
    assert_eq!(report.manifold_report.edges_checked, 4);
    assert!(report.manifold_report.is_valid());
}

#[test]
fn enforce_merges_edge_sharing_inners_into_one_hole() {
    let mut mesh = Mesh::new();
    let container = build_quad(&mut mesh, 0.0, 10.0, 0.0, 10.0);
    // two inner quads sharing the edge b-c
    let a = mesh.add_vertex(bits(2.0, 2.0, 0.0)).unwrap();
    let b = mesh.add_vertex(bits(5.0, 2.0, 0.0)).unwrap();
    let c = mesh.add_vertex(bits(5.0, 5.0, 0.0)).unwrap();
    let d = mesh.add_vertex(bits(2.0, 5.0, 0.0)).unwrap();
    let e = mesh.add_vertex(bits(8.0, 2.0, 0.0)).unwrap();
    let f = mesh.add_vertex(bits(8.0, 5.0, 0.0)).unwrap();
    let n = bits(0.0, 0.0, 1.0);
    let left = mesh.add_face(&[a, b, c, d], n, MaterialId::new(0)).unwrap();
    let right = mesh.add_face(&[b, e, f, c], n, MaterialId::new(0)).unwrap();
    let comps = mesh.find_inner_components(&[left, right]);
    assert_eq!(comps, vec![vec![left, right]]);
    let perim = mesh.compute_combined_perimeter(&[left, right]).unwrap();
    // boundary of the union, starting at the first boundary half-edge (d→a)
    assert_eq!(perim, vec![a, b, e, f, c, d]);
    let report = enforce_p7_canonical(&mut mesh, container, &[left, right]).unwrap();
    assert_eq!(report.component_count, 1);
    let ring = mesh.faces[mesh.faces.len() - 1].as_ref().unwrap();
    assert_eq!(loop_verts(&mesh, ring.inners[0]), vec![d, c, f, e, b, a]);
    assert!(report.manifold_report.is_valid());
    // the container is inactive after the rebuild: only the inner faces' edges are checked
    assert_eq!(report.manifold_report.edges_checked, 7);
}

#[test]
fn enforce_counts_only_active_inners() {
    let mut mesh = Mesh::new();
    let container = build_quad(&mut mesh, 0.0, 10.0, 0.0, 10.0);
    let i1 = build_quad(&mut mesh, 1.0, 2.0, 1.0, 2.0);
    let i2 = build_quad(&mut mesh, 3.0, 4.0, 3.0, 4.0);
    mesh.remove_face(i2).unwrap();
    let err = enforce_p7_canonical(&mut mesh, container, &[i2, FaceId::new(77)]).unwrap_err();
    assert_eq!(
        err,
        P7EnforceError::InvalidInput { container_active: true, inner_count_active: 0, inner_count_total: 2 }
    );
    let report = enforce_p7_canonical(&mut mesh, container, &[i2, i1, i1]).unwrap();
    assert_eq!(report.component_count, 1);
}

#[test]
fn perimeter_errors() {
    let mut mesh = Mesh::new();
    let q = build_quad(&mut mesh, 0.0, 1.0, 0.0, 1.0);
    assert_eq!(mesh.compute_combined_perimeter(&[FaceId::new(5)]), Err(MeshError::FaceNotFound));
    // the same face twice: every edge is used twice, so nothing is on the boundary
    assert_eq!(mesh.compute_combined_perimeter(&[q, q]), Err(MeshError::Degenerate));
    assert_eq!(mesh.compute_combined_perimeter(&[]), Err(MeshError::Degenerate));
}

#[test]
fn enforce_reports_failed_perimeter() {
    let mut mesh = Mesh::new();
    let container = build_quad(&mut mesh, 0.0, 10.0, 0.0, 10.0);
    // a face with a broken outer loop
    let broken = build_quad(&mut mesh, 1.0, 2.0, 1.0, 2.0);
    let h = mesh.faces[broken.id as usize].as_ref().unwrap().outer;
    let container_start = mesh.faces[container.id as usize].as_ref().unwrap().outer;
    let mut he = mesh.hes[h.id as usize];
    he.next = container_start;
    mesh.hes[h.id as usize] = he;
    // the walk from the first half-edge runs into the container's loop and never returns
    let perim = mesh.compute_combined_perimeter(&[broken]);
    assert_eq!(perim, Err(MeshError::BrokenLoop));
    match enforce_p7_canonical(&mut mesh, container, &[broken]) {
        Err(P7EnforceError::PerimeterFailed { component_index, reason }) => {
            assert_eq!(component_index, 0);
            assert_eq!(reason, "loop does not close");
        }
        other => panic!("expected PerimeterFailed, got {:?}", other),
    }
    assert!(mesh.faces[container.id as usize].as_ref().unwrap().active);
}

#[test]
fn add_face_with_holes_checks_every_loop() {
    let mut mesh = Mesh::new();
    let vs: Vec<VertId> = (0..8).map(|i| mesh.add_vertex(bits(i as f64, 0.0, 0.0)).unwrap()).collect();
    let n = bits(0.0, 0.0, 1.0);
    let m = MaterialId::new(3);
    assert_eq!(mesh.add_face_with_holes(&vs[0..2], &vec![], n, m), Err(MeshError::Degenerate));
    assert_eq!(mesh.add_face_with_holes(&vs[0..4], &vec![vs[4..6].to_vec()], n, m), Err(MeshError::Degenerate));
    assert_eq!(
        mesh.add_face_with_holes(&vs[0..4], &vec![vec![vs[4], vs[5], VertId::new(100)]], n, m),
        Err(MeshError::BadVertex)
    );
    assert_eq!(mesh.faces.len(), 0);
    let f = mesh.add_face_with_holes(&vs[0..4], &vec![vs[4..8].to_vec()], n, m).unwrap();
    let face = mesh.faces[f.id as usize].as_ref().unwrap();
    assert_eq!(face.material, m);
    assert_eq!(loop_verts(&mesh, face.outer), vs[0..4].to_vec());
    assert_eq!(loop_verts(&mesh, face.inners[0]), vs[4..8].to_vec());
}

#[test]
fn manifold_check_flags_edges_with_three_faces() {
    let mut mesh = Mesh::new();
    let n = bits(0.0, 0.0, 1.0);
    let a = mesh.add_vertex(bits(0.0, 0.0, 0.0)).unwrap();
    let b = mesh.add_vertex(bits(1.0, 0.0, 0.0)).unwrap();
    let c = mesh.add_vertex(bits(0.0, 1.0, 0.0)).unwrap();
    let d = mesh.add_vertex(bits(0.0, -1.0, 0.0)).unwrap();
    let e = mesh.add_vertex(bits(0.0, 0.0, 1.0)).unwrap();
    let f1 = mesh.add_face(&[a, b, c], n, MaterialId::new(0)).unwrap();
    let f2 = mesh.add_face(&[b, a, d], n, MaterialId::new(0)).unwrap();
    let f3 = mesh.add_face(&[a, b, e], n, MaterialId::new(0)).unwrap();
    let report = verify_p7_manifold(&mesh, f1, &[f2, f3]);
    assert!(!report.is_valid());
    assert_eq!(report.violations.len(), 1);
    assert_eq!(report.edges_checked, 7);
    mesh.remove_face(f3).unwrap();
    let report = verify_p7_manifold(&mesh, f1, &[f2]);
    assert!(report.is_valid());
    assert_eq!(report.edges_checked, 5);
}
