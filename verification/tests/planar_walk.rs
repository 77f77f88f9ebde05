use axia_geo::ids::{EdgeId, FaceId, MaterialId, VertId};
use axia_geo::mesh::{Mesh, Vec3Bits};
use axia_geo::planar_walk::{
    canonical_key, find_all_left_turn_paths, find_first_left_turn_path, free_spokes, TurnOrder,
};

type P3 = (f64, f64, f64);

fn bits(x: f64, y: f64, z: f64) -> Vec3Bits {
    Vec3Bits { x: x.to_bits(), y: y.to_bits(), z: z.to_bits() }
}

fn pos(m: &Mesh, v: VertId) -> P3 {
    let p = m.verts[v.id as usize].pos;
    (f64::from_bits(p.x), f64::from_bits(p.y), f64::from_bits(p.z))
}

fn sub(a: P3, b: P3) -> P3 {
    (a.0 - b.0, a.1 - b.1, a.2 - b.2)
}

fn dot(a: P3, b: P3) -> f64 {
    a.0 * b.0 + a.1 * b.1 + a.2 * b.2
}

fn cross(a: P3, b: P3) -> P3 {
    (a.1 * b.2 - a.2 * b.1, a.2 * b.0 - a.0 * b.2, a.0 * b.1 - a.1 * b.0)
}

fn scale(a: P3, s: f64) -> P3 {
    (a.0 * s, a.1 * s, a.2 * s)
}

fn normalize(a: P3) -> P3 {
    scale(a, 1.0 / dot(a, a).sqrt())
}

fn ccw_angle(from: (f64, f64), to: (f64, f64)) -> f64 {
    let cos_a = to.0 * from.0 + to.1 * from.1;
    let sin_a = from.0 * to.1 - from.1 * to.0;
    let a = sin_a.atan2(cos_a);
    if a < 0.0 { a + std::f64::consts::TAU } else { a }
}

/// The plane set-up and the preferred spoke orders for every directed free edge.
fn plane_and_turns(m: &Mesh, f: FaceId) -> (bool, Vec<TurnOrder>) {
    let face = m.faces[f.id as usize].as_ref().unwrap();
    let boundary = m.collect_loop_verts(face.outer).unwrap();
    let pts: Vec<P3> = boundary.iter().map(|&v| pos(m, v)).collect();
    let origin = pts[0];
    let mut u = (0.0, 0.0, 0.0);
    for p in &pts[1..] {
        let d = sub(*p, origin);
        if dot(d, d) > 1e-12 {
            u = normalize(d);
            break;
        }
    }
    if dot(u, u) < 1e-10 {
        return (false, vec![]);
    }
    let nb = face.normal;
    let n = normalize((f64::from_bits(nb.x), f64::from_bits(nb.y), f64::from_bits(nb.z)));
    let u_proj = sub(u, scale(n, dot(n, u)));
    let u = if dot(u_proj, u_proj) > 1e-12 { normalize(u_proj) } else { u };
    let v = normalize(cross(n, u));
    let project = |vid: VertId| {
        let d = sub(pos(m, vid), origin);
        (dot(d, u), dot(d, v))
    };
    let mut turns = Vec::new();
    for (i, e) in m.edges.iter().enumerate() {
        if !e.active || !m.is_edge_completely_free(EdgeId::new(i as u32)) {
            continue;
        }
        for (a, b) in [(e.v_small, e.v_large), (e.v_large, e.v_small)] {
            let pa = project(a);
            let pb = project(b);
            let neg_in = (pa.0 - pb.0, pa.1 - pb.1);
            let mut order = free_spokes(m, b);
            order.sort_by(|x, y| {
                let px = project(*x);
                let py = project(*y);
                let ax = ccw_angle(neg_in, (px.0 - pb.0, px.1 - pb.1));
                let ay = ccw_angle(neg_in, (py.0 - pb.0, py.1 - pb.1));
                ax.partial_cmp(&ay).unwrap()
            });
            turns.push(TurnOrder { prev: a, cur: b, order });
        }
    }
    (true, turns)
}

fn all_paths(m: &Mesh, f: FaceId) -> Vec<Vec<VertId>> {
    let (ok, turns) = plane_and_turns(m, f);
    find_all_left_turn_paths(m, f, ok, &turns)
}

fn first_path(m: &Mesh, f: FaceId) -> Option<Vec<VertId>> {
    let (ok, turns) = plane_and_turns(m, f);
    find_first_left_turn_path(m, f, ok, &turns)
}

/// A 4×4 rectangle face with a single internal free edge from the midpoint
/// of the left edge to the midpoint of the right edge.
fn rect_with_interior_chord(mesh: &mut Mesh, m: MaterialId) -> FaceId {
    let v0 = mesh.add_vertex(bits(0.0, 0.0, 0.0)).unwrap();
    let v1 = mesh.add_vertex(bits(4.0, 0.0, 0.0)).unwrap();
    let v2 = mesh.add_vertex(bits(4.0, 4.0, 0.0)).unwrap();
    let v3 = mesh.add_vertex(bits(0.0, 4.0, 0.0)).unwrap();
    let v_mid_l = mesh.add_vertex(bits(0.0, 2.0, 0.0)).unwrap();
    let v_mid_r = mesh.add_vertex(bits(4.0, 2.0, 0.0)).unwrap();
    let fid = mesh.add_face(&[v0, v1, v_mid_r, v2, v3, v_mid_l], bits(0.0, 0.0, 1.0), m).unwrap();
    let _ = mesh.add_edge(v_mid_l, v_mid_r).unwrap();
    fid
}

#[test]
fn finds_simple_chord() {
    let mut mesh = Mesh::new();
    let m = MaterialId::new(0);
    let fid = rect_with_interior_chord(&mut mesh, m);
    let paths = all_paths(&mesh, fid);
    assert_eq!(paths.len(), 1, "expected one chord chain");
    assert_eq!(paths[0].len(), 2, "chord chain has 2 verts");
}

#[test]
fn first_path_returns_some_for_chord() {
    let mut mesh = Mesh::new();
    let m = MaterialId::new(0);
    let fid = rect_with_interior_chord(&mut mesh, m);
    assert!(first_path(&mesh, fid).is_some());
}

#[test]
fn no_paths_when_no_free_edges() {
    let mut mesh = Mesh::new();
    let m = MaterialId::new(0);
    let v0 = mesh.add_vertex(bits(0.0, 0.0, 0.0)).unwrap();
    let v1 = mesh.add_vertex(bits(1.0, 0.0, 0.0)).unwrap();
    let v2 = mesh.add_vertex(bits(1.0, 1.0, 0.0)).unwrap();
    let v3 = mesh.add_vertex(bits(0.0, 1.0, 0.0)).unwrap();
    let fid = mesh.add_face(&[v0, v1, v2, v3], bits(0.0, 0.0, 1.0), m).unwrap();
    assert!(all_paths(&mesh, fid).is_empty());
    assert!(first_path(&mesh, fid).is_none());
}

#[test]
fn multi_chain_face_enumerates_all() {
    let mut mesh = Mesh::new();
    let m = MaterialId::new(0);
    let mut hex_verts = Vec::new();
    let mut hex_pos = Vec::new();
    for i in 0..6 {
        let theta = (i as f64) * std::f64::consts::PI / 3.0;
        let p = (4.0 * theta.cos(), 4.0 * theta.sin());
        hex_pos.push(p);
        hex_verts.push(mesh.add_vertex(bits(p.0, p.1, 0.0)).unwrap());
    }
    let m_01 = mesh
        .add_vertex(bits((hex_pos[0].0 + hex_pos[1].0) * 0.5, (hex_pos[0].1 + hex_pos[1].1) * 0.5, 0.0))
        .unwrap();
    let m_34 = mesh
        .add_vertex(bits((hex_pos[3].0 + hex_pos[4].0) * 0.5, (hex_pos[3].1 + hex_pos[4].1) * 0.5, 0.0))
        .unwrap();
    let fid = mesh
        .add_face(
            &[hex_verts[0], m_01, hex_verts[1], hex_verts[2], hex_verts[3], m_34, hex_verts[4], hex_verts[5]],
            bits(0.0, 0.0, 1.0),
            m,
        )
        .unwrap();
    let _ = mesh.add_edge(m_01, hex_verts[3]).unwrap();
    let _ = mesh.add_edge(m_34, hex_verts[0]).unwrap();

    let paths = all_paths(&mesh, fid);
    assert_eq!(paths.len(), 2, "expected exactly two chord chains, got {}", paths.len());
}

// ───────────── walks through interior vertices ─────────────

/// A square with boundary midpoints on the bottom and top edges and an
/// interior "Y": bottom midpoint → centre, centre → top midpoint, and a
/// dangling spoke centre → left-interior point.
fn square_with_y(mesh: &mut Mesh) -> (FaceId, [VertId; 4]) {
    let a = mesh.add_vertex(bits(0.0, 0.0, 0.0)).unwrap();
    let mb = mesh.add_vertex(bits(2.0, 0.0, 0.0)).unwrap();
    let b = mesh.add_vertex(bits(4.0, 0.0, 0.0)).unwrap();
    let c = mesh.add_vertex(bits(4.0, 4.0, 0.0)).unwrap();
    let mt = mesh.add_vertex(bits(2.0, 4.0, 0.0)).unwrap();
    let d = mesh.add_vertex(bits(0.0, 4.0, 0.0)).unwrap();
    let centre = mesh.add_vertex(bits(2.0, 2.0, 0.0)).unwrap();
    let side = mesh.add_vertex(bits(1.0, 2.0, 0.0)).unwrap();
    let f = mesh.add_face(&[a, mb, b, c, mt, d], bits(0.0, 0.0, 1.0), MaterialId::new(0)).unwrap();
    mesh.add_edge(mb, centre).unwrap();
    mesh.add_edge(centre, mt).unwrap();
    mesh.add_edge(centre, side).unwrap();
    (f, [mb, centre, mt, side])
}

#[test]
fn walk_through_interior_vertex_finds_one_chain() {
    let mut mesh = Mesh::new();
    let (f, [mb, centre, mt, _side]) = square_with_y(&mut mesh);
    let paths = all_paths(&mesh, f);
    // from mb the smallest counter-clockwise turn at the centre leads on to
    // mt; from mt it leads into the dead-end spoke and the walk gets stuck.
    assert_eq!(paths, vec![vec![mb, centre, mt]]);
    assert_eq!(canonical_key(&paths[0]), vec![mb.id, centre.id, mt.id]);
    assert_eq!(first_path(&mesh, f), Some(vec![mb, centre, mt]));
}

#[test]
fn missing_turn_orders_give_no_walks() {
    let mut mesh = Mesh::new();
    let (f, _) = square_with_y(&mut mesh);
    assert!(find_all_left_turn_paths(&mesh, f, true, &[]).is_empty());
    let mut mesh = Mesh::new();
    let fid = rect_with_interior_chord(&mut mesh, MaterialId::new(0));
    // a direct boundary-to-boundary spoke needs no turn order
    assert_eq!(find_all_left_turn_paths(&mesh, fid, true, &[]).len(), 1);
    // without a usable plane there is nothing
    assert!(find_all_left_turn_paths(&mesh, fid, false, &[]).is_empty());
    assert!(find_all_left_turn_paths(&mesh, FaceId::new(40), true, &[]).is_empty());
}

#[test]
fn spokes_skip_edges_used_by_faces() {
    let mut mesh = Mesh::new();
    let fid = rect_with_interior_chord(&mut mesh, MaterialId::new(0));
    let face = mesh.faces[fid.id as usize].as_ref().unwrap();
    let boundary = mesh.collect_loop_verts(face.outer).unwrap();
    let (v_mid_l, v_mid_r) = (boundary[5], boundary[2]);
    assert_eq!(free_spokes(&mesh, v_mid_l), vec![v_mid_r]);
    assert_eq!(free_spokes(&mesh, boundary[0]), Vec::<VertId>::new());
    // adding the same edge again returns it
    let e = mesh.find_edge(v_mid_l, v_mid_r).unwrap();
    assert_eq!(mesh.add_edge(v_mid_r, v_mid_l), Ok(e));
    assert!(mesh.is_edge_completely_free(e));
    assert!(!mesh.is_edge_completely_free(mesh.find_edge(boundary[0], boundary[1]).unwrap()));
}

#[test]
fn free_wire_collects_connected_free_edges() {
    let mut mesh = Mesh::new();
    let fid = rect_with_interior_chord(&mut mesh, MaterialId::new(0));
    let face = mesh.faces[fid.id as usize].as_ref().unwrap();
    let boundary = mesh.collect_loop_verts(face.outer).unwrap();
    let (v_mid_l, v_mid_r) = (boundary[5], boundary[2]);
    // a second free edge hanging off the chord's right end, and a separate one
    let extra = mesh.add_vertex(bits(6.0, 2.0, 0.0)).unwrap();
    let far1 = mesh.add_vertex(bits(9.0, 9.0, 0.0)).unwrap();
    let far2 = mesh.add_vertex(bits(9.0, 8.0, 0.0)).unwrap();
    mesh.add_edge(v_mid_r, extra).unwrap();
    mesh.add_edge(far1, far2).unwrap();
    let chord = mesh.find_edge(v_mid_l, v_mid_r).unwrap();
    let mut wire = mesh.free_wire_vertices(chord);
    wire.sort_by_key(|v| v.id);
    let mut expected = vec![v_mid_l, v_mid_r, extra];
    expected.sort_by_key(|v| v.id);
    assert_eq!(wire, expected);
    // starting from a face edge: its ends, and the free edges met there
    let side = mesh.find_edge(boundary[1], v_mid_r).unwrap();
    let mut wire = mesh.free_wire_vertices(side);
    wire.sort_by_key(|v| v.id);
    let mut expected = vec![boundary[1], v_mid_l, v_mid_r, extra];
    expected.sort_by_key(|v| v.id);
    assert_eq!(wire, expected);
}

#[test]
fn left_turn_chains_run_boundary_to_boundary() {
    let mut mesh = Mesh::new();
    let (f, [mb, _centre, mt, side]) = square_with_y(&mut mesh);
    let outer = mesh.faces[f.id as usize].as_ref().unwrap().outer;
    let boundary = mesh.collect_loop_verts(outer).unwrap();
    let paths = all_paths(&mesh, f);
    assert!(!paths.is_empty());
    for p in &paths {
        assert!(p.len() >= 2);
        assert!(boundary.contains(&p[0]) && boundary.contains(p.last().unwrap()));
        assert!(p[1..p.len() - 1].iter().all(|v| !boundary.contains(v)));
        for i in 0..p.len() {
            for j in i + 1..p.len() {
                assert_ne!(p[i], p[j]);
            }
        }
    }
    assert!(boundary.contains(&mb) && boundary.contains(&mt) && !boundary.contains(&side));
    // the first chain is picked from the very list of all chains
    let first = first_path(&mesh, f).unwrap();
    assert!(paths.contains(&first));
}
