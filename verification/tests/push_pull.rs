use axia_geo::ids::{FaceId, MaterialId, VertId};
use axia_geo::mesh::{Mesh, Vec3Bits};
use axia_geo::push_pull::{is_move_only, is_move_only_debug, PushPullResult};

type P3 = (f64, f64, f64);

const PARALLEL_TOLERANCE: f64 = 0.999848;

fn bits(x: f64, y: f64, z: f64) -> Vec3Bits {
    Vec3Bits { x: x.to_bits(), y: y.to_bits(), z: z.to_bits() }
}

fn pos(m: &Mesh, v: VertId) -> P3 {
    let p = m.verts[v.id as usize].pos;
    (f64::from_bits(p.x), f64::from_bits(p.y), f64::from_bits(p.z))
}

fn vtx(m: &mut Mesh, x: f64, y: f64, z: f64) -> VertId {
    m.add_vertex(bits(x, y, z)).unwrap()
}

/// Newell normal of the face's outer loop, unit length when usable.
fn unit_normal(m: &Mesh, f: FaceId) -> Option<P3> {
    let face = m.faces.get(f.id as usize)?.as_ref()?;
    let vs = m.collect_loop_verts(face.outer).ok()?;
    let mut n = (0.0, 0.0, 0.0);
    for i in 0..vs.len() {
        let a = pos(m, vs[i]);
        let b = pos(m, vs[(i + 1) % vs.len()]);
        n.0 += (a.1 - b.1) * (a.2 + b.2);
        n.1 += (a.2 - b.2) * (a.0 + b.0);
        n.2 += (a.0 - b.0) * (a.1 + b.1);
    }
    let len = (n.0 * n.0 + n.1 * n.1 + n.2 * n.2).sqrt();
    if len < 1e-10 { None } else { Some((n.0 / len, n.1 / len, n.2 / len)) }
}

/// Per edge: parallel to `n` (or of zero length).
fn parallel_flags(m: &Mesh, n: P3) -> Vec<bool> {
    m.edges
        .iter()
        .map(|e| {
            let p0 = pos(m, e.v_small);
            let p1 = pos(m, e.v_large);
            let d = (p1.0 - p0.0, p1.1 - p0.1, p1.2 - p0.2);
            let len = (d.0 * d.0 + d.1 * d.1 + d.2 * d.2).sqrt();
            if len < 1e-10 {
                return true;
            }
            ((n.0 * d.0 + n.1 * d.1 + n.2 * d.2) / len).abs() >= PARALLEL_TOLERANCE
        })
        .collect()
}

fn move_only(m: &Mesh, f: FaceId) -> bool {
    match unit_normal(m, f) {
        Some(n) => is_move_only(m, f, true, &parallel_flags(m, n)),
        None => is_move_only(m, f, false, &vec![false; m.edges.len()]),
    }
}

fn debug_lines(m: &Mesh, f: FaceId) -> Vec<String> {
    let r = match unit_normal(m, f) {
        Some(n) => is_move_only_debug(m, f, true, &parallel_flags(m, n)),
        None => is_move_only_debug(m, f, false, &vec![false; m.edges.len()]),
    };
    assert_eq!(r.is_move_only, move_only(m, f));
    r.debug
}

fn make_ground_rect(mesh: &mut Mesh, mat: MaterialId) -> FaceId {
    let v0 = vtx(mesh, 0.0, 0.0, 0.0);
    let v1 = vtx(mesh, 4.0, 0.0, 0.0);
    let v2 = vtx(mesh, 4.0, 0.0, 4.0);
    let v3 = vtx(mesh, 0.0, 0.0, 4.0);
    mesh.add_face(&[v0, v1, v2, v3], bits(0.0, -1.0, 0.0), mat).unwrap()
}

/// The box a push of the ground rectangle by 3 along its normal (-Y) gives:
/// returns the top face.
fn make_box(mesh: &mut Mesh, mat: MaterialId, top_shift_x: f64) -> FaceId {
    let base = [(0.0, 0.0), (4.0, 0.0), (4.0, 4.0), (0.0, 4.0)];
    let b: Vec<VertId> = base.iter().map(|&(x, z)| vtx(mesh, x, 0.0, z)).collect();
    let t: Vec<VertId> = base.iter().map(|&(x, z)| vtx(mesh, x + top_shift_x, -3.0, z)).collect();
    mesh.add_face(&[b[0], b[3], b[2], b[1]], bits(0.0, 1.0, 0.0), mat).unwrap();
    let top = mesh.add_face(&[t[0], t[1], t[2], t[3]], bits(0.0, -1.0, 0.0), mat).unwrap();
    for i in 0..4 {
        let j = (i + 1) % 4;
        mesh.add_face(&[b[i], b[j], t[j], t[i]], bits(0.0, 0.0, 0.0), mat).unwrap();
    }
    top
}

/// A Push/Pull that creates faces, through the library's steps: extrude the
/// face's loops by `dist` along its unit normal, then turn the base face
/// away from the push. Returns the top face.
fn push_create_face(mesh: &mut Mesh, face: FaceId, dist: f64, mat: MaterialId) -> FaceId {
    let n = unit_normal(mesh, face).unwrap();
    let (boundary, holes) = mesh.extrusion_loops(face).unwrap();
    assert!(holes.is_empty());
    let top: Vec<Vec3Bits> = boundary
        .iter()
        .map(|&v| {
            let p = pos(mesh, v);
            bits(p.0 + n.0 * dist, p.1 + n.1 * dist, p.2 + n.2 * dist)
        })
        .collect();
    let walls = vec![bits(0.0, 0.0, 0.0); boundary.len()];
    let r = mesh
        .extrude_build(&boundary, &holes, &top, &Vec::new(), bits(n.0, n.1, n.2), &walls, &Vec::new(), mat)
        .unwrap();
    mesh.flip_face_safe(face).unwrap();
    r.top_face
}

#[test]
fn flat_face_uses_create_face_mode() {
    let mut m = Mesh::new();
    let mat = MaterialId::new(0);
    let f = make_ground_rect(&mut m, mat);
    assert!(!move_only(&m, f));
}

#[test]
fn box_top_uses_move_only_mode() {
    let mut m = Mesh::new();
    let mat = MaterialId::new(0);
    let base = make_ground_rect(&mut m, mat);
    assert!(!move_only(&m, base));
    let top = push_create_face(&mut m, base, 3.0, mat);
    assert!(move_only(&m, top));
}

#[test]
fn move_only_debug_explains_verdict() {
    let mut m = Mesh::new();
    let mat = MaterialId::new(0);
    let f = make_ground_rect(&mut m, mat);
    let lines = debug_lines(&m, f);
    assert_eq!(lines, vec!["non_face_edges=0", "RESULT: CreateFace (no connecting edges → flat face)"]);

    let mut m = Mesh::new();
    let top = make_box(&mut m, mat, 0.0);
    let lines = debug_lines(&m, top);
    assert_eq!(lines, vec!["non_face_edges=4", "RESULT: MoveOnly (all edges parallel)"]);

    // a sheared box: the walls are not parallel to the top's normal
    let mut m = Mesh::new();
    let top = make_box(&mut m, mat, 1.0);
    let lines = debug_lines(&m, top);
    assert!(!move_only(&m, top));
    let last = lines.last().unwrap();
    assert!(last.starts_with("RESULT: CreateFace (edge "), "{}", last);
    assert!(last.ends_with(" not parallel)"));

    let lines = debug_lines(&m, FaceId::new(99));
    assert_eq!(lines, vec!["FAIL: face FaceId(99) missing/inactive"]);

    // the same box with every flag false is not MoveOnly, and a degenerate normal fails early
    let flags = vec![false; m.edges.len()];
    assert!(!is_move_only(&m, top, true, &flags));
    let r = is_move_only_debug(&m, top, false, &flags);
    assert!(!r.is_move_only);
    assert_eq!(r.debug, vec!["FAIL: degenerate normal"]);
}

#[test]
fn shared_edge_of_box_faces() {
    let mut m = Mesh::new();
    let mat = MaterialId::new(0);
    let top = make_box(&mut m, mat, 0.0);
    // face 2 is the first side: it shares the edge t0-t1 with the top
    let side = FaceId::new(2);
    let (a, b) = m.find_shared_edge_vertices(top, side).unwrap();
    let t0 = VertId::new(4);
    let t1 = VertId::new(5);
    assert_eq!((a, b), (t0, t1));
    // base (face 0) and top share nothing
    assert_eq!(m.find_shared_edge_vertices(FaceId::new(0), top), None);
    assert_eq!(m.find_shared_edge_vertices(FaceId::new(40), top), None);
}

#[test]
fn auto_merge_result_keeps_survivors() {
    let mut m = Mesh::new();
    let mat = MaterialId::new(0);
    let top = make_box(&mut m, mat, 0.0);
    let sides: Vec<FaceId> = (2..6).map(FaceId::new).collect();
    let mut r = PushPullResult {
        base_face: FaceId::new(0),
        top_face: top,
        side_faces: sides.clone(),
        new_verts: vec![],
        base_removed: false,
        adjacent_splits: 0,
        split_debug: vec![],
    };
    // the top is still active: survivors other than the top become the sides
    m.adr_067_step1_auto_merge_result(&mut r, vec![FaceId::new(3), top, FaceId::new(5)]);
    assert_eq!(r.top_face, top);
    assert_eq!(r.side_faces, vec![FaceId::new(3), FaceId::new(5)]);
    // nothing survived: unchanged
    m.adr_067_step1_auto_merge_result(&mut r, vec![]);
    assert_eq!(r.side_faces, vec![FaceId::new(3), FaceId::new(5)]);
    // an inactive top is replaced by the first survivor
    m.remove_face(top).unwrap();
    m.adr_067_step1_auto_merge_result(&mut r, vec![FaceId::new(4), FaceId::new(2)]);
    assert_eq!(r.top_face, FaceId::new(4));
    assert_eq!(r.side_faces, vec![FaceId::new(2)]);
}
