use axia_geo::ids::{FaceId, MaterialId, VertId};
use axia_geo::mesh::{Mesh, MeshError, Vec3Bits};
use axia_geo::p7_canonical_resolver::P7EnforceError;
use axia_geo::planar_walk::{canonical_key, shortest_chain};
use axia_geo::self_intersect::{faces_share_vertex, SelfIntersectionReport};
use axia_geo::push_pull::connecting_edges;
use axia_geo::ids::EdgeId;
use axia_geo::text::decimal_string;

fn bits(x: f64, y: f64, z: f64) -> Vec3Bits {
    Vec3Bits { x: x.to_bits(), y: y.to_bits(), z: z.to_bits() }
}

#[test]
fn adr151_enforce_error_display() {
    let e1 = P7EnforceError::InvalidInput {
        container_active: false,
        inner_count_active: 0,
        inner_count_total: 2,
    };
    let s1 = e1.message();
    assert!(s1.contains("InvalidInput"));
    assert!(s1.contains("0/2"));

    let e2 = P7EnforceError::NoComponents;
    assert!(e2.message().contains("NoComponents"));

    let e3 = P7EnforceError::PerimeterFailed {
        component_index: 1,
        reason: "no boundary HE".into(),
    };
    let s3 = e3.message();
    assert!(s3.contains("PerimeterFailed"));
    assert!(s3.contains("component 1"));

    let e4 = P7EnforceError::RebuildDeferred {
        component_count: 2,
        hole_loop_lengths: vec![6, 4],
    };
    let s4 = e4.message();
    assert!(s4.contains("RebuildDeferred"));
    assert!(s4.contains("β-1 sentinel"));

    let e5 = P7EnforceError::RebuildFailed {
        reason: "add_face_with_holes failed".into(),
    };
    let s5 = e5.message();
    assert!(s5.contains("RebuildFailed"));
    assert!(s5.contains("add_face_with_holes"));
}

#[test]
fn p7_error_messages_exact() {
    let e = P7EnforceError::InvalidInput { container_active: true, inner_count_active: 3, inner_count_total: 10 };
    assert_eq!(e.message(), "InvalidInput (container_active=true, inners 3/10 active)");
    let e = P7EnforceError::RebuildDeferred { component_count: 2, hole_loop_lengths: vec![6, 4] };
    assert_eq!(e.message(), "RebuildDeferred (β-1 sentinel — 2 components, hole loops: [6, 4])");
    let e = P7EnforceError::RebuildDeferred { component_count: 0, hole_loop_lengths: vec![] };
    assert_eq!(e.message(), "RebuildDeferred (β-1 sentinel — 0 components, hole loops: [])");
    let e = P7EnforceError::PerimeterFailed { component_index: 12, reason: "x".into() };
    assert_eq!(e.message(), "PerimeterFailed (component 12, reason: x)");
}

#[test]
fn adr104_b1_zeta_engine_default_is_path_a_legacy() {
    let mesh = Mesh::new();
    assert!(!mesh.sphere_path_b_default(),
        "engine default must be Path A (false) — preserves regression assets");
}

#[test]
fn adr117_cylinder_direct_dispatch_engine_default_path_a() {
    let mesh = Mesh::new();
    assert!(!mesh.cylinder_path_b_default(),
        "engine default must be Path A (false)");
}

#[test]
fn adr104_b2_zeta_engine_default_is_path_a_legacy() {
    let mesh = Mesh::new();
    assert!(!mesh.cone_path_b_default(),
        "engine default must be Path A (false) — preserves regression assets");
}

#[test]
fn path_b_flags_flip_independently() {
    let mut mesh = Mesh::new();
    mesh.set_cone_path_b_default(true);
    assert!(mesh.cone_path_b_default());
    assert!(!mesh.sphere_path_b_default());
    assert!(!mesh.cylinder_path_b_default());
    mesh.set_cone_path_b_default(false);
    assert!(!mesh.cone_path_b_default());
}

fn measure_polygon_chord_error(radius: f64, segments: u32) -> f64 {
    let half_angle = std::f64::consts::PI / (segments as f64);
    radius * (1.0 - half_angle.cos())
}

fn measure_perimeter_deviation(radius: f64, segments: u32) -> (f64, f64, f64) {
    let half_angle = std::f64::consts::PI / (segments as f64);
    let chord = 2.0 * radius * half_angle.sin();
    let polygon_perimeter = chord * (segments as f64);
    let circle_perimeter = 2.0 * std::f64::consts::PI * radius;
    let absolute_diff = (circle_perimeter - polygon_perimeter).abs();
    let relative_diff = absolute_diff / circle_perimeter;
    (polygon_perimeter, circle_perimeter, relative_diff)
}

#[test]
fn adr089_a_gamma_cylinder_chord_error_corpus() {
    let radii = [10.0, 50.0, 100.0, 500.0, 1000.0];
    let segments = [8, 16, 32, 64];
    let mut measurements = Vec::new();
    for &r in &radii {
        for &n in &segments {
            let chord_err = measure_polygon_chord_error(r, n);
            let chord_err_pct = (chord_err / r) * 100.0;
            measurements.push((r, n, chord_err, chord_err_pct));
        }
    }
    let r100_n8 = measure_polygon_chord_error(100.0, 8);
    let r100_n64 = measure_polygon_chord_error(100.0, 64);
    assert!(r100_n8 > r100_n64);
    assert!((r100_n8 - 7.6).abs() < 0.5,
        "r=100 N=8 chord error ~7.6mm, got {:.3}", r100_n8);
    assert!((r100_n64 - 0.12).abs() < 0.05,
        "r=100 N=64 chord error ~0.12mm, got {:.3}", r100_n64);
    assert_eq!(measurements.len(), 20);
}

#[test]
fn adr089_a_gamma_cylinder_perimeter_deviation_corpus() {
    let radii = [10.0, 100.0, 1000.0];
    let segments = [8, 16, 32, 64];
    for &r in &radii {
        for &n in &segments {
            let (poly_p, circ_p, rel_diff) = measure_perimeter_deviation(r, n);
            assert!(poly_p < circ_p);
            if n == 64 {
                assert!(rel_diff < 0.001,
                    "N=64 should give <0.1% perimeter error, got {:.5}", rel_diff);
            }
        }
    }
}

#[test]
fn adr089_a_gamma_path_b_savings_table() {
    let segments_corpus = [8u32, 16, 32, 64, 128];
    for &n in &segments_corpus {
        let path_a_faces = (n + 2) as usize;
        let path_b_faces = 3;
        let savings_pct = ((path_a_faces - path_b_faces) as f64
            / path_a_faces as f64) * 100.0;
        if n >= 8 {
            assert!(savings_pct > 50.0,
                "N={} savings {} expected >50%", n, savings_pct);
        }
        if n == 64 {
            assert!(savings_pct > 90.0,
                "N=64 savings {} expected >90%", savings_pct);
        }
    }
}

#[test]
fn self_intersection_report_summary() {
    let r = SelfIntersectionReport::new();
    assert!(r.is_clean());
    assert_eq!(r.count(), 0);
    assert_eq!(r.summary(), "no self-intersections");
    let r = SelfIntersectionReport { intersecting_pairs: vec![(FaceId::new(1), FaceId::new(2)), (FaceId::new(3), FaceId::new(4))] };
    assert!(!r.is_clean());
    assert_eq!(r.count(), 2);
    assert_eq!(r.summary(), "2 self-intersecting face pair(s)");
    let d: SelfIntersectionReport = Default::default();
    assert!(d.is_clean());
}

#[test]
fn decimal_strings() {
    assert_eq!(decimal_string(0), "0");
    assert_eq!(decimal_string(7), "7");
    assert_eq!(decimal_string(10), "10");
    assert_eq!(decimal_string(1203), "1203");
}

#[test]
fn canonical_key_is_direction_independent() {
    let c: Vec<VertId> = [5u32, 2, 9].iter().map(|&i| VertId::new(i)).collect();
    let mut r = c.clone();
    r.reverse();
    assert_eq!(canonical_key(&c), vec![5, 2, 9]);
    assert_eq!(canonical_key(&r), vec![5, 2, 9]);
    let c2: Vec<VertId> = [9u32, 2, 5].iter().map(|&i| VertId::new(i)).collect();
    assert_eq!(canonical_key(&c2), vec![5, 2, 9]);
    assert_eq!(canonical_key(&[]), Vec::<u32>::new());
}

#[test]
fn shortest_chain_prefers_short_then_key() {
    let p = |ids: &[u32]| ids.iter().map(|&i| VertId::new(i)).collect::<Vec<VertId>>();
    assert_eq!(shortest_chain(&vec![]), None);
    let paths = vec![p(&[1, 7, 8, 3]), p(&[4, 6, 2]), p(&[2, 6, 1]), p(&[9, 9])];
    assert_eq!(shortest_chain(&paths), Some(p(&[9, 9])));
    let paths = vec![p(&[4, 6, 2]), p(&[2, 6, 1]), p(&[1, 7, 8, 3])];
    // keys [2,6,4] and [1,6,2]: the second is smaller
    assert_eq!(shortest_chain(&paths), Some(p(&[2, 6, 1])));
    // equal keys: the first in list order wins
    let paths = vec![p(&[3, 5, 1]), p(&[1, 5, 3])];
    assert_eq!(shortest_chain(&paths), Some(p(&[3, 5, 1])));
}

#[test]
fn add_face_errors() {
    let mut m = Mesh::new();
    let a = m.add_vertex(bits(0.0, 0.0, 0.0)).unwrap();
    let b = m.add_vertex(bits(1.0, 0.0, 0.0)).unwrap();
    let c = m.add_vertex(bits(0.0, 1.0, 0.0)).unwrap();
    let n = bits(0.0, 0.0, 1.0);
    let mat = MaterialId::new(0);
    assert_eq!(m.add_face(&[a, b], n, mat), Err(MeshError::Degenerate));
    assert_eq!(m.add_face(&[a, b, b], n, mat), Err(MeshError::BadVertex));
    assert_eq!(m.add_face(&[a, b, VertId::new(77)], n, mat), Err(MeshError::BadVertex));
    assert_eq!(m.add_face(&[a, b, a], n, mat), Err(MeshError::BadVertex));
    let f = m.add_face(&[a, b, c], n, mat).unwrap();
    assert_eq!(f, FaceId::new(0));
    assert_eq!(m.collect_loop_verts(m.faces[0].as_ref().unwrap().outer).unwrap(), vec![a, b, c]);
    assert_eq!(m.get_faces_sharing_edge(m.find_edge(a, b).unwrap()), vec![f]);
}

#[test]
fn soft_remove_face_frees_half_edges() {
    let mut m = Mesh::new();
    let a = m.add_vertex(bits(0.0, 0.0, 0.0)).unwrap();
    let b = m.add_vertex(bits(1.0, 0.0, 0.0)).unwrap();
    let c = m.add_vertex(bits(0.0, 1.0, 0.0)).unwrap();
    let f = m.add_face(&[a, b, c], bits(0.0, 0.0, 1.0), MaterialId::new(0)).unwrap();
    assert_eq!(m.soft_remove_face(f), Ok(()));
    assert!(m.faces[0].is_none());
    assert!(m.hes.iter().all(|h| h.face.id == u32::MAX));
    assert_eq!(m.soft_remove_face(f), Err(MeshError::FaceNotFound));
    assert!(m.get_faces_sharing_edge(m.find_edge(a, b).unwrap()).is_empty());
}

#[test]
fn intersection_pairs_sorted_and_deduplicated() {
    let f = |i: u32| FaceId::new(i);
    let r = SelfIntersectionReport::from_pairs(&vec![(f(4), f(7)), (f(1), f(9)), (f(4), f(2)), (f(1), f(9)), (f(4), f(7))]);
    assert_eq!(r.intersecting_pairs, vec![(f(1), f(9)), (f(4), f(2)), (f(4), f(7))]);
    assert_eq!(r.count(), 3);
    assert_eq!(r.summary(), "3 self-intersecting face pair(s)");
    assert!(SelfIntersectionReport::from_pairs(&vec![]).is_clean());
}

#[test]
fn shared_vertex_test() {
    let v = |i: u32| VertId::new(i);
    assert!(faces_share_vertex(&[v(1), v(2), v(3)], &[v(9), v(3)]));
    assert!(!faces_share_vertex(&[v(1), v(2)], &[v(3), v(4)]));
    assert!(!faces_share_vertex(&[], &[v(3)]));
}

#[test]
fn connecting_edges_of_a_fan() {
    let mut m = Mesh::new();
    let n = bits(0.0, 0.0, 1.0);
    let mat = MaterialId::new(0);
    let a = m.add_vertex(bits(0.0, 0.0, 0.0)).unwrap();
    let b = m.add_vertex(bits(1.0, 0.0, 0.0)).unwrap();
    let c = m.add_vertex(bits(0.0, 1.0, 0.0)).unwrap();
    let d = m.add_vertex(bits(1.0, 1.0, 0.0)).unwrap();
    let e = m.add_vertex(bits(5.0, 5.0, 0.0)).unwrap();
    let f1 = m.add_face(&[a, b, c], n, mat).unwrap();
    let f2 = m.add_face(&[b, d, c], n, mat).unwrap();
    // edges: ca(0) ab(1) bc(2) bd(3) dc(4); f1 touches b and c, so bd and dc connect
    assert_eq!(connecting_edges(&m, f1), vec![EdgeId::new(3), EdgeId::new(4)]);
    assert_eq!(connecting_edges(&m, f2), vec![EdgeId::new(0), EdgeId::new(1)]);
    let free = m.add_edge(d, e).unwrap();
    assert_eq!(free, EdgeId::new(5));
    assert_eq!(connecting_edges(&m, f2), vec![EdgeId::new(0), EdgeId::new(1), free]);
    assert_eq!(connecting_edges(&m, FaceId::new(8)), Vec::<EdgeId>::new());
    assert_eq!(m.add_edge(d, d), Err(MeshError::BadVertex));
    assert!(m.is_well_formed());
    m.hes[0].next = axia_geo::ids::HeId::new(1000);
    assert!(!m.is_well_formed());
}
