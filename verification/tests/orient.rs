use axia_geo::orient::check_needs_flip;
use axia_geo::ids::{FaceId, MaterialId, VertId};
use axia_geo::mesh::{Mesh, Vec3Bits};

fn bits(x: f64, y: f64, z: f64) -> Vec3Bits {
    Vec3Bits { x: x.to_bits(), y: y.to_bits(), z: z.to_bits() }
}

fn unbits(v: Vec3Bits) -> (f64, f64, f64) {
    (f64::from_bits(v.x), f64::from_bits(v.y), f64::from_bits(v.z))
}

fn dot(a: (f64, f64, f64), b: (f64, f64, f64)) -> f64 {
    a.0 * b.0 + a.1 * b.1 + a.2 * b.2
}

fn newell(m: &Mesh, vs: &[VertId]) -> (f64, f64, f64) {
    let mut n = (0.0, 0.0, 0.0);
    for i in 0..vs.len() {
        let a = unbits(m.verts[vs[i].id as usize].pos);
        let b = unbits(m.verts[vs[(i + 1) % vs.len()].id as usize].pos);
        n.0 += (a.1 - b.1) * (a.2 + b.2);
        n.1 += (a.2 - b.2) * (a.0 + b.0);
        n.2 += (a.0 - b.0) * (a.1 + b.1);
    }
    n
}

fn add_face(m: &mut Mesh, vs: &[VertId]) -> FaceId {
    let n = newell(m, vs);
    m.add_face(vs, bits(n.0, n.1, n.2), MaterialId::new(0)).unwrap()
}

fn make_square(m: &mut Mesh) -> FaceId {
    let v0 = m.add_vertex(bits(0.0, 0.0, 0.0)).unwrap();
    let v1 = m.add_vertex(bits(4.0, 0.0, 0.0)).unwrap();
    let v2 = m.add_vertex(bits(4.0, 0.0, 4.0)).unwrap();
    let v3 = m.add_vertex(bits(0.0, 0.0, 4.0)).unwrap();
    add_face(m, &[v0, v1, v2, v3])
}

fn normal(m: &Mesh, f: FaceId) -> (f64, f64, f64) {
    unbits(m.faces[f.id as usize].as_ref().unwrap().normal)
}

fn outer_verts(m: &Mesh, f: FaceId) -> Vec<VertId> {
    m.collect_loop_verts(m.faces[f.id as usize].as_ref().unwrap().outer).unwrap()
}

#[test]
fn flip_face_safe_rejects_nonexistent_face() {
    let mut m = Mesh::new();
    let r = m.flip_face_safe(FaceId::new(999));
    assert!(r.is_err());
}

#[test]
fn flip_face_safe_inverts_normal() {
    let mut m = Mesh::new();
    let fid = make_square(&mut m);
    let original = normal(&m, fid);
    m.flip_face_safe(fid).unwrap();
    let flipped = normal(&m, fid);
    assert!(dot(flipped, original) < 0.0, "normal should be reversed");
}

#[test]
fn flip_face_safe_reverses_loop_winding() {
    let mut m = Mesh::new();
    let fid = make_square(&mut m);
    let original_verts = outer_verts(&m, fid);
    m.flip_face_safe(fid).unwrap();
    let reversed_verts = outer_verts(&m, fid);
    assert_eq!(original_verts.len(), reversed_verts.len());
    let mut expected = original_verts.clone();
    expected.reverse();
    assert_eq!(reversed_verts, expected);
    let computed = newell(&m, &reversed_verts);
    assert!(dot(computed, normal(&m, fid)) > 0.0, "stored normal should match computed normal of reversed loop");
}

#[test]
fn flip_twice_restores_original() {
    let mut m = Mesh::new();
    let fid = make_square(&mut m);
    let original_normal = normal(&m, fid);
    let original_verts = outer_verts(&m, fid);
    m.flip_face_safe(fid).unwrap();
    m.flip_face_safe(fid).unwrap();
    assert!(dot(normal(&m, fid), original_normal) > 0.9999, "two flips should restore normal");
    assert_eq!(m.faces[fid.id as usize].as_ref().unwrap().normal, bits(original_normal.0, original_normal.1, original_normal.2));
    assert_eq!(outer_verts(&m, fid), original_verts);
}

#[test]
fn flip_faces_batch_counts_successes() {
    let mut m = Mesh::new();
    let f1 = make_square(&mut m);
    let v0 = m.add_vertex(bits(10.0, 0.0, 0.0)).unwrap();
    let v1 = m.add_vertex(bits(14.0, 0.0, 0.0)).unwrap();
    let v2 = m.add_vertex(bits(14.0, 0.0, 4.0)).unwrap();
    let v3 = m.add_vertex(bits(10.0, 0.0, 4.0)).unwrap();
    let f2 = add_face(&mut m, &[v0, v1, v2, v3]);
    let flipped = m.flip_faces(&[f1, FaceId::new(9999), f2]);
    assert_eq!(flipped, 2);
}

#[test]
fn flip_face_on_box_top_reverses_only_that_face() {
    let mut m = Mesh::new();
    let p = [
        (0.0, 0.0, 0.0), (4.0, 0.0, 0.0), (4.0, 4.0, 0.0), (0.0, 4.0, 0.0),
        (0.0, 0.0, 3.0), (4.0, 0.0, 3.0), (4.0, 4.0, 3.0), (0.0, 4.0, 3.0),
    ];
    let v: Vec<VertId> = p.iter().map(|q| m.add_vertex(bits(q.0, q.1, q.2)).unwrap()).collect();
    let bottom = add_face(&mut m, &[v[0], v[3], v[2], v[1]]);
    let top = add_face(&mut m, &[v[4], v[5], v[6], v[7]]);
    let s0 = add_face(&mut m, &[v[0], v[1], v[5], v[4]]);
    let s1 = add_face(&mut m, &[v[1], v[2], v[6], v[5]]);
    let s2 = add_face(&mut m, &[v[2], v[3], v[7], v[6]]);
    let s3 = add_face(&mut m, &[v[3], v[0], v[4], v[7]]);
    let others = [bottom, s0, s1, s2, s3];
    let orig_top = normal(&m, top);
    let orig: Vec<(f64, f64, f64)> = others.iter().map(|f| normal(&m, *f)).collect();
    m.flip_face_safe(top).unwrap();
    assert!(dot(normal(&m, top), orig_top) < 0.0);
    for (i, f) in others.iter().enumerate() {
        assert!(dot(normal(&m, *f), orig[i]) > 0.9999, "face {:?} should not be affected by top flip", f);
    }
}

#[test]
fn flip_face_safe_rejects_face_removed_from_storage() {
    let mut m = Mesh::new();
    let fid = make_square(&mut m);
    m.soft_remove_face(fid).unwrap();
    assert!(m.flip_face_safe(fid).is_err());
}

#[test]
fn check_needs_flip_follows_first_occurrence() {
    let a = VertId::new(1);
    let b = VertId::new(2);
    let c = VertId::new(3);
    assert!(check_needs_flip(a, b, &[a, b, c]));
    assert!(!check_needs_flip(a, b, &[b, a, c]));
    // edge closes the cycle: c -> a counts
    assert!(check_needs_flip(c, a, &[a, b, c]));
    assert!(!check_needs_flip(a, c, &[a, b, c]));
    // edge absent
    assert!(!check_needs_flip(a, VertId::new(9), &[a, b, c]));
    assert!(!check_needs_flip(a, b, &[]));
}

#[test]
fn orient_faces_flips_inconsistent_neighbour() {
    let mut m = Mesh::new();
    let v0 = m.add_vertex(bits(0.0, 0.0, 0.0)).unwrap();
    let v1 = m.add_vertex(bits(1.0, 0.0, 0.0)).unwrap();
    let v2 = m.add_vertex(bits(1.0, 1.0, 0.0)).unwrap();
    let v3 = m.add_vertex(bits(0.0, 1.0, 0.0)).unwrap();
    let v4 = m.add_vertex(bits(2.0, 0.0, 0.0)).unwrap();
    let v5 = m.add_vertex(bits(2.0, 1.0, 0.0)).unwrap();
    let fa = add_face(&mut m, &[v0, v1, v2, v3]);
    // same winding direction along the shared edge v1 -> v2: inconsistent
    let fb = add_face(&mut m, &[v5, v4, v1, v2]);
    let r = m.orient_faces().unwrap();
    assert_eq!(r.visited, 2);
    assert_eq!(r.flipped, 1);
    let nb = outer_verts(&m, fb);
    // after orientation fb runs v2 -> v1
    let pos2 = nb.iter().position(|v| *v == v2).unwrap();
    assert_eq!(nb[(pos2 + 1) % nb.len()], v1);
    let na = outer_verts(&m, fa);
    assert_eq!(na, vec![v0, v1, v2, v3]);
    // consistent now: a second pass flips nothing
    let r2 = m.orient_faces().unwrap();
    assert_eq!(r2.flipped, 0);
    assert_eq!(r2.visited, 2);
}

#[test]
fn orient_faces_on_empty_mesh() {
    let mut m = Mesh::new();
    let r = m.orient_faces().unwrap();
    assert_eq!(r.flipped, 0);
    assert_eq!(r.visited, 0);
}

#[test]
fn orient_leaves_a_consistent_box_alone() {
    let mut m = Mesh::new();
    let mut corners = Vec::new();
    for (x, y, z) in [(0, 0, 0), (1, 0, 0), (1, 1, 0), (0, 1, 0), (0, 0, 1), (1, 0, 1), (1, 1, 1), (0, 1, 1)] {
        corners.push(bits(x as f64, y as f64, z as f64));
    }
    let (_, fs) = m.box_build(&corners, &vec![bits(0.0, 0.0, 0.0); 6], MaterialId::new(0)).unwrap();
    let before: Vec<Vec<VertId>> = fs.iter().map(|f| outer_verts(&m, *f)).collect();
    let r = m.orient_faces().unwrap();
    assert_eq!(r.flipped, 0);
    assert_eq!(r.visited, 6);
    let after: Vec<Vec<VertId>> = fs.iter().map(|f| outer_verts(&m, *f)).collect();
    assert_eq!(before, after);
}

#[test]
fn orient_flips_an_inverted_box_face() {
    let mut m = Mesh::new();
    let mut corners = Vec::new();
    for (x, y, z) in [(0, 0, 0), (1, 0, 0), (1, 1, 0), (0, 1, 0), (0, 0, 1), (1, 0, 1), (1, 1, 1), (0, 1, 1)] {
        corners.push(bits(x as f64, y as f64, z as f64));
    }
    let (_, fs) = m.box_build(&corners, &vec![bits(0.0, 0.0, 0.0); 6], MaterialId::new(0)).unwrap();
    m.flip_face(fs[3]).unwrap();
    let r = m.orient_faces().unwrap();
    assert_eq!(r.flipped, 1);
    assert_eq!(r.visited, 6);
}

#[test]
fn flip_face_safe_flips_a_face_with_a_hole() {
    let mut m = Mesh::new();
    let mut vtx = |x: f64, y: f64| m.add_vertex(bits(x, y, 0.0)).unwrap();
    let outer = vec![vtx(0.0, 0.0), vtx(10.0, 0.0), vtx(10.0, 10.0), vtx(0.0, 10.0)];
    let hole = vec![vtx(4.0, 4.0), vtx(4.0, 6.0), vtx(6.0, 6.0), vtx(6.0, 4.0)];
    let f = m.add_face_with_holes(&outer, &vec![hole.clone()], bits(0.0, 0.0, 1.0), MaterialId::new(0)).unwrap();
    let fc = m.faces[f.id as usize].clone().unwrap();
    let outer_before = m.collect_loop_verts(fc.outer).unwrap();
    let hole_before = m.collect_loop_verts(fc.inners[0]).unwrap();
    assert!(m.flip_face_safe(f).is_ok());
    let fc2 = m.faces[f.id as usize].clone().unwrap();
    let outer_after = m.collect_loop_verts(fc2.outer).unwrap();
    let hole_after = m.collect_loop_verts(fc2.inners[0]).unwrap();
    assert_eq!(outer_after.len(), 4);
    assert_eq!(hole_after.len(), 4);
    // The other way round.
    let rev = |v: &Vec<VertId>| v.iter().rev().cloned().collect::<Vec<VertId>>();
    assert_eq!(outer_after, rev(&outer_before));
    assert_eq!(hole_after, rev(&hole_before));
    assert_eq!(unbits(fc2.normal), (0.0, 0.0, -1.0));
    // Flipping again restores both loops and the normal.
    assert!(m.flip_face_safe(f).is_ok());
    let fc3 = m.faces[f.id as usize].clone().unwrap();
    assert_eq!(m.collect_loop_verts(fc3.outer).unwrap(), outer_before);
    assert_eq!(m.collect_loop_verts(fc3.inners[0]).unwrap(), hole_before);
    assert_eq!(unbits(fc3.normal), (0.0, 0.0, 1.0));
}
