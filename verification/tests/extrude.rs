use axia_geo::ids::{FaceId, MaterialId, VertId};
use axia_geo::mesh::{Mesh, MeshError, Vec3Bits};

fn bits(x: f64, y: f64, z: f64) -> Vec3Bits {
    Vec3Bits { x: x.to_bits(), y: y.to_bits(), z: z.to_bits() }
}

fn vtx(m: &mut Mesh, x: f64, y: f64, z: f64) -> VertId {
    m.add_vertex(bits(x, y, z)).unwrap()
}

fn outer_verts(m: &Mesh, f: FaceId) -> Vec<VertId> {
    m.collect_loop_verts(m.faces[f.id as usize].as_ref().unwrap().outer).unwrap()
}

fn hole_verts(m: &Mesh, f: FaceId, k: usize) -> Vec<VertId> {
    m.collect_loop_verts(m.faces[f.id as usize].as_ref().unwrap().inners[k]).unwrap()
}

fn square(m: &mut Mesh, x0: f64, x1: f64) -> Vec<VertId> {
    vec![vtx(m, x0, x0, 0.0), vtx(m, x1, x0, 0.0), vtx(m, x1, x1, 0.0), vtx(m, x0, x1, 0.0)]
}

fn lifted(m: &Mesh, vs: &[VertId], dz: f64) -> Vec<Vec3Bits> {
    vs.iter()
        .map(|v| {
            let p = m.verts[v.id as usize].pos;
            bits(f64::from_bits(p.x), f64::from_bits(p.y), f64::from_bits(p.z) + dz)
        })
        .collect()
}

/// Every directed edge of the active faces' loops occurs once and is run
/// backwards exactly once.
fn oriented_closed(m: &Mesh) -> bool {
    let mut edges: Vec<(VertId, VertId)> = Vec::new();
    for f in m.faces.iter().flatten().filter(|f| f.active) {
        let mut starts = vec![f.outer];
        starts.extend(f.inners.iter().cloned());
        for st in starts {
            let l = m.collect_loop_verts(st).unwrap();
            for k in 0..l.len() {
                edges.push((l[k], l[(k + 1) % l.len()]));
            }
        }
    }
    edges.iter().all(|&(a, b)| {
        edges.iter().filter(|&&e| e == (a, b)).count() == 1 && edges.iter().filter(|&&e| e == (b, a)).count() == 1
    })
}

#[test]
fn extrusion_loops_of_a_square() {
    let mut m = Mesh::new();
    let vs = square(&mut m, 0.0, 2.0);
    let f = m.add_face(&vs, bits(0.0, 0.0, 1.0), MaterialId::new(0)).unwrap();
    let (b, holes) = m.extrusion_loops(f).unwrap();
    assert_eq!(b, vs);
    assert!(holes.is_empty());
}

#[test]
fn extrusion_loops_list_the_holes() {
    let mut m = Mesh::new();
    let outer = square(&mut m, 0.0, 10.0);
    let hole = square(&mut m, 4.0, 6.0);
    let hole_cw: Vec<VertId> = hole.iter().rev().cloned().collect();
    let f = m.add_face_with_holes(&outer, &vec![hole_cw.clone()], bits(0.0, 0.0, 1.0), MaterialId::new(0)).unwrap();
    let (b, holes) = m.extrusion_loops(f).unwrap();
    assert_eq!(b, outer);
    assert_eq!(holes, vec![hole_cw]);
}

#[test]
fn extrude_a_square_into_a_box() {
    let mut m = Mesh::new();
    let vs = square(&mut m, 0.0, 2.0);
    let mat = MaterialId::new(3);
    let f = m.add_face(&vs, bits(0.0, 0.0, -1.0), mat).unwrap();
    let (b, holes) = m.extrusion_loops(f).unwrap();
    let top = lifted(&m, &b, 5.0);
    let normals = vec![bits(0.0, -1.0, 0.0), bits(1.0, 0.0, 0.0), bits(0.0, 1.0, 0.0), bits(-1.0, 0.0, 0.0)];
    let r = m
        .extrude_build(&b, &holes, &top, &vec![], bits(0.0, 0.0, 1.0), &normals, &vec![], mat)
        .unwrap();
    assert!(m.is_well_formed());
    assert_eq!(r.new_verts.len(), 4);
    for i in 0..4 {
        let p = m.verts[r.new_verts[i].id as usize].pos;
        assert_eq!(p, top[i]);
        assert_eq!(r.new_verts[i].id as usize, 4 + i);
    }
    assert_eq!(outer_verts(&m, r.top_face), r.new_verts);
    assert_eq!(m.faces[r.top_face.id as usize].as_ref().unwrap().normal, bits(0.0, 0.0, 1.0));
    assert_eq!(r.outer_walls.len(), 4);
    for i in 0..4 {
        let j = (i + 1) % 4;
        let w = r.outer_walls[i];
        assert_eq!(outer_verts(&m, w), vec![b[i], b[j], r.new_verts[j], r.new_verts[i]]);
        let face = m.faces[w.id as usize].as_ref().unwrap();
        assert_eq!(face.normal, normals[i]);
        assert_eq!(face.material, mat);
    }
    // The base, the top and four walls: a closed box.
    assert_eq!(m.faces.iter().filter(|x| x.as_ref().map_or(false, |f| f.active)).count(), 6);
    assert_eq!(m.edges.len(), 12);
    assert!(r.hole_walls.is_empty());
}

#[test]
fn extrude_a_face_with_a_hole() {
    let mut m = Mesh::new();
    let outer = square(&mut m, 0.0, 10.0);
    let hole = square(&mut m, 4.0, 6.0);
    let hole_cw: Vec<VertId> = hole.iter().rev().cloned().collect();
    let mat = MaterialId::new(0);
    let f = m.add_face_with_holes(&outer, &vec![hole_cw.clone()], bits(0.0, 0.0, 1.0), mat).unwrap();
    let (b, holes) = m.extrusion_loops(f).unwrap();
    let top = lifted(&m, &b, 1.0);
    let top_holes = vec![lifted(&m, &holes[0], 1.0)];
    let n4 = vec![bits(0.0, 0.0, 0.0); 4];
    let r = m
        .extrude_build(&b, &holes, &top, &top_holes, bits(0.0, 0.0, 1.0), &n4, &vec![n4.clone()], mat)
        .unwrap();
    assert!(m.is_well_formed());
    assert_eq!(r.new_hole_verts.len(), 1);
    assert_eq!(hole_verts(&m, r.top_face, 0), r.new_hole_verts[0]);
    assert_eq!(r.hole_walls.len(), 1);
    assert_eq!(r.hole_walls[0].len(), 4);
    for i in 0..4 {
        let j = (i + 1) % 4;
        let t = &r.new_hole_verts[0];
        assert_eq!(outer_verts(&m, r.hole_walls[0][i]), vec![hole_cw[i], hole_cw[j], t[j], t[i]]);
        assert_eq!(m.verts[t[i].id as usize].pos, top_holes[0][i]);
    }
}

#[test]
fn extrude_a_loop_with_a_repeated_vertex_fails() {
    let mut m = Mesh::new();
    let a = vtx(&mut m, 0.0, 0.0, 0.0);
    let b = vtx(&mut m, 1.0, 0.0, 0.0);
    let c = vtx(&mut m, 1.0, 1.0, 0.0);
    let boundary = vec![a, a, b, c];
    let top = lifted(&m, &boundary, 1.0);
    let n4 = vec![bits(0.0, 0.0, 0.0); 4];
    let r = m.extrude_build(&boundary, &vec![], &top, &vec![], bits(0.0, 0.0, 1.0), &n4, &vec![], MaterialId::new(0));
    assert_eq!(r.err(), Some(MeshError::BadVertex));
    assert!(m.is_well_formed());
}

#[test]
fn extrusion_with_the_base_flipped_is_a_closed_solid() {
    let mut m = Mesh::new();
    let outer = square(&mut m, 0.0, 10.0);
    let hole = square(&mut m, 4.0, 6.0);
    let hole_cw: Vec<VertId> = hole.iter().rev().cloned().collect();
    let mat = MaterialId::new(0);
    let f = m.add_face_with_holes(&outer, &vec![hole_cw], bits(0.0, 0.0, 1.0), mat).unwrap();
    let (b, holes) = m.extrusion_loops(f).unwrap();
    let top = lifted(&m, &b, 3.0);
    let top_holes: Vec<Vec<Vec3Bits>> = holes.iter().map(|h| lifted(&m, h, 3.0)).collect();
    let wall_normals = vec![bits(0.0, 0.0, 0.0); 4];
    let hole_normals = vec![vec![bits(0.0, 0.0, 0.0); 4]];
    m.extrude_build(&b, &holes, &top, &top_holes, bits(0.0, 0.0, 1.0), &wall_normals, &hole_normals, mat).unwrap();
    assert!(!oriented_closed(&m));
    m.flip_face_safe(f).unwrap();
    assert!(oriented_closed(&m));
    assert!(m.is_well_formed());
}
