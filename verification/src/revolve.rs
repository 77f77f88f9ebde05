//! The topology of a revolve (lathe): rings of vertices, one per angular
//! step, sharing a single vertex wherever the profile touches the axis,
//! and a side face between consecutive rings for each profile segment
//! (a triangle next to an axis point, none on a segment along the axis).
//!
//! The rotated positions, which profile points lie on the axis and the
//! face normals are geometry; the caller computes them.
use vstd::prelude::*;

use crate::extrude::{extends, face_is, lemma_extends_refl, lemma_extends_trans, lemma_face_is_kept, has_room};
use crate::ids::{FaceId, MaterialId, VertId, NULL_RAW};
use crate::mesh::{loop_verts_ok, Mesh, MeshError, Vec3Bits, Vertex};
use crate::ring::loops_view;
use crate::closed::{closed_surface, dedge, is_slot, lemma_nx_pv, nx, pv};

verus! {

/// Ring vertex `g[k][i]` is new (numbered from `nv0`), sits active at
/// `pos[k][i]` (an axis point at its ring-0 position), and an axis point
/// is the vertex of ring 0.
pub open spec fn cell_ok(m: &Mesh, g: Seq<Seq<VertId>>, pole: Seq<bool>, pos: Seq<Seq<Vec3Bits>>, nv0: int, k: int, i: int) -> bool {
    &&& nv0 <= g[k][i].id < m.nv()
    &&& m.verts@[g[k][i].id as int] == (Vertex { pos: pos[if pole[i] { 0 } else { k }][i], active: true })
    &&& (pole[i] && k > 0) ==> i < g[0].len() && g[k][i] == g[0][i]
}

/// The grid of ring vertices `g` (row `k` is ring `k`, possibly the last
/// one unfinished): every vertex as `cell_ok` says, and no vertex repeated
/// but an axis point.
pub open spec fn grid_ok(m: &Mesh, g: Seq<Seq<VertId>>, pole: Seq<bool>, pos: Seq<Seq<Vec3Bits>>, nv0: int) -> bool {
    &&& forall|k: int| 0 <= k < g.len() ==> (#[trigger] g[k]).len() <= pole.len()
    &&& forall|k: int, i: int| #![trigger g[k][i]] 0 <= k < g.len() && 0 <= i < g[k].len() ==> cell_ok(m, g, pole, pos, nv0, k, i)
    &&& forall|k: int, i: int, k2: int, i2: int|
        0 <= k < g.len() && 0 <= i < g[k].len() && 0 <= k2 < g.len() && 0 <= i2 < g[k2].len() && #[trigger] g[k][i]
            == #[trigger] g[k2][i2] ==> i == i2 && (k == k2 || pole[i])
}

/// A grid stays valid while the mesh is only added to.
proof fn lemma_grid_kept(m0: &Mesh, m1: &Mesh, g: Seq<Seq<VertId>>, pole: Seq<bool>, pos: Seq<Seq<Vec3Bits>>, nv0: int)
    requires
        grid_ok(m0, g, pole, pos, nv0),
        extends(m0, m1),
    ensures
        grid_ok(m1, g, pole, pos, nv0),
{
    assert forall|k: int, i: int| #![trigger g[k][i]] 0 <= k < g.len() && 0 <= i < g[k].len() implies cell_ok(m1, g, pole, pos, nv0, k, i) by {
        let x = g[k][i];
        assert(nv0 <= x.id);
        assert(cell_ok(m0, g, pole, pos, nv0, k, i));
        assert(m1.verts@.subrange(0, m0.nv())[x.id as int] == m0.verts@[x.id as int]);
    }
    assert forall|k: int, i: int, k2: int, i2: int|
        0 <= k < g.len() && 0 <= i < g[k].len() && 0 <= k2 < g.len() && 0 <= i2 < g[k2].len() && #[trigger] g[k][i]
            == #[trigger] g[k2][i2] implies i == i2 && (k == k2 || pole[i]) by {
    }
}

impl Mesh {
    /// The ring vertices of a revolve: ring `k` holds, for each profile
    /// point `i`, a new vertex at `pos[k][i]`, except that an axis point
    /// (`pole[i]`) gets one vertex, at `pos[0][i]`, shared by all rings.
    fn revolve_rings(&mut self, pos: &Vec<Vec<Vec3Bits>>, pole: &Vec<bool>) -> (res: Result<Vec<Vec<VertId>>, MeshError>)
        requires
            old(self).wf(),
            forall|k: int| 0 <= k < pos@.len() ==> (#[trigger] pos@[k])@.len() == pole@.len(),
        ensures
            final(self).wf(),
            extends(old(self), final(self)),
            match res {
                Ok(rings) => {
                    &&& rings@.len() == pos@.len()
                    &&& forall|k: int| 0 <= k < rings@.len() ==> (#[trigger] rings@[k])@.len() == pole@.len()
                    &&& grid_ok(final(self), loops_view(rings@), pole@, pos@.map_values(|r: Vec<Vec3Bits>| r@), old(self).nv())
                },
                Err(e) => e == MeshError::Capacity,
            },
            final(self).hes@ == old(self).hes@,
            final(self).edges@ == old(self).edges@,
            final(self).faces@ == old(self).faces@,
            res is Err ==> old(self).nv() + pos@.len() * pole@.len() >= NULL_RAW,
    {
        let ghost m0 = *self;
        let ghost pv = pos@.map_values(|r: Vec<Vec3Bits>| r@);
        proof {
            lemma_extends_refl(&m0);
        }
        let np = pole.len();
        let mut rings: Vec<Vec<VertId>> = Vec::new();
        let mut k: usize = 0;
        while k < pos.len()
            invariant
                self.wf(),
                m0.wf(),
                m0 == *old(self),
                extends(&m0, self),
                np == pole@.len(),
                pv == pos@.map_values(|r: Vec<Vec3Bits>| r@),
                forall|q: int| 0 <= q < pos@.len() ==> (#[trigger] pos@[q])@.len() == pole@.len(),
                0 <= k <= pos@.len(),
                rings@.len() == k,
                forall|q: int| 0 <= q < k ==> (#[trigger] rings@[q])@.len() == np,
                grid_ok(self, loops_view(rings@), pole@, pv, m0.nv()),
                self.nv() <= m0.nv() + k * np,
                self.hes@ == m0.hes@,
                self.edges@ == m0.edges@,
                self.faces@ == m0.faces@,
            decreases pos@.len() - k,
        {
            let mut ring: Vec<VertId> = Vec::new();
            let mut i: usize = 0;
            while i < np
                invariant
                    self.wf(),
                    m0.wf(),
                    m0 == *old(self),
                    extends(&m0, self),
                    np == pole@.len(),
                    pv == pos@.map_values(|r: Vec<Vec3Bits>| r@),
                    forall|q: int| 0 <= q < pos@.len() ==> (#[trigger] pos@[q])@.len() == pole@.len(),
                    0 <= k < pos@.len(),
                    rings@.len() == k,
                    forall|q: int| 0 <= q < k ==> (#[trigger] rings@[q])@.len() == np,
                    0 <= i <= np,
                    ring@.len() == i,
                    grid_ok(self, loops_view(rings@).push(ring@), pole@, pv, m0.nv()),
                    self.nv() <= m0.nv() + k * np + i,
                    self.hes@ == m0.hes@,
                    self.edges@ == m0.edges@,
                    self.faces@ == m0.faces@,
                decreases np - i,
            {
                proof {
                    assert(k * np + i + 1 <= pos@.len() * np) by (nonlinear_arith)
                        requires
                            0 <= k < pos@.len(),
                            0 <= i < np,
                    ;
                }
                let ghost g0 = loops_view(rings@).push(ring@);
                let ghost pre = *self;
                if pole[i] && k > 0 {
                    let v = rings[0][i];
                    ring.push(v);
                    proof {
                        let g1 = loops_view(rings@).push(ring@);
                        assert(g1[0] == g0[0]);
                        assert(g1 =~= g0.update(k as int, g0[k as int].push(v)));
                        assert(v == g0[0][i as int]);
                        assert forall|a: int, b: int, c: int, d: int|
                            0 <= a < g1.len() && 0 <= b < g1[a].len() && 0 <= c < g1.len() && 0 <= d < g1[c].len() && #[trigger] g1[a][b]
                                == #[trigger] g1[c][d] implies b == d && (a == c || pole@[b]) by {
                            let x = if a == k && b == i { g0[0][i as int] } else { g0[a][b] };
                            let y = if c == k && d == i { g0[0][i as int] } else { g0[c][d] };
                            assert(g1[a][b] == x);
                            assert(g1[c][d] == y);
                        }
                    }
                } else {
                    let p = if pole[i] { pos[0][i] } else { pos[k][i] };
                    let v = match self.add_vertex(p) {
                        Ok(v) => v,
                        Err(e) => {
                            return Err(e);
                        },
                    };
                    ring.push(v);
                    proof {
                        lemma_extends_refl(&pre);
                        assert(self.verts@.subrange(0, pre.nv()) =~= pre.verts@);
                        assert(self.faces@.subrange(0, pre.nf()) =~= pre.faces@);
                        lemma_extends_trans(&m0, &pre, self);
                        lemma_grid_kept(&pre, self, g0, pole@, pv, m0.nv() as int);
                        let g1 = loops_view(rings@).push(ring@);
                        assert(g1 =~= g0.update(k as int, g0[k as int].push(v)));
                        assert forall|a: int, b: int, c: int, d: int|
                            0 <= a < g1.len() && 0 <= b < g1[a].len() && 0 <= c < g1.len() && 0 <= d < g1[c].len() && #[trigger] g1[a][b]
                                == #[trigger] g1[c][d] implies b == d && (a == c || pole@[b]) by {
                            if a == k && b == i {
                                if !(c == k && d == i) {
                                    assert(g0[c][d].id < pre.nv());
                                }
                            } else if c == k && d == i {
                                assert(g0[a][b].id < pre.nv());
                            }
                        }
                    }
                }
                i = i + 1;
            }
            proof {
                assert(k * np + np == (k + 1) * np) by (nonlinear_arith);
            }
            let ghost g0 = loops_view(rings@).push(ring@);
            rings.push(ring);
            proof {
                assert(loops_view(rings@) =~= g0);
            }
            k = k + 1;
        }
        Ok(rings)
    }
}

/// The face of a cell with corners `v00`, `v01` (this ring) and `v10`,
/// `v11` (the next ring): the quad `v00, v10, v11, v01`, or the triangle
/// left of it when the first (`p0`) or second (`p1`) end is an axis point.
pub open spec fn cell_loop(v00: VertId, v01: VertId, v10: VertId, v11: VertId, p0: bool, p1: bool) -> Seq<VertId> {
    if p0 {
        seq![v00, v11, v01]
    } else if p1 {
        seq![v00, v10, v01]
    } else {
        seq![v00, v10, v11, v01]
    }
}

/// The face of cell (ring `k`, profile segment `i`) of grid `g`.
pub open spec fn revolve_loop(g: Seq<Seq<VertId>>, pole: Seq<bool>, k: int, i: int) -> Seq<VertId> {
    let k2 = (k + 1) % (g.len() as int);
    cell_loop(g[k][i], g[k][i + 1], g[k2][i], g[k2][i + 1], pole[i], pole[i + 1])
}

/// The cells of ring `k` with segment below `upto` that get a face: all but
/// the segments with both ends on the axis.
pub open spec fn cells_row(pole: Seq<bool>, k: int, upto: int) -> Seq<(int, int)>
    decreases upto,
{
    if upto <= 0 {
        Seq::empty()
    } else {
        let prev = cells_row(pole, k, upto - 1);
        if pole[upto - 1] && pole[upto] {
            prev
        } else {
            prev.push((k, upto - 1))
        }
    }
}

/// The cells of the first `nr` rings that get a face, ring by ring.
pub open spec fn revolve_cells(pole: Seq<bool>, nr: int) -> Seq<(int, int)>
    decreases nr,
{
    if nr <= 0 {
        Seq::empty()
    } else {
        revolve_cells(pole, nr - 1) + cells_row(pole, nr - 1, pole.len() - 1)
    }
}

/// Every vertex of the grid is usable in `m`.
pub open spec fn grid_usable(m: &Mesh, g: Seq<Seq<VertId>>) -> bool {
    forall|k: int, i: int| 0 <= k < g.len() && 0 <= i < g[k].len() ==> (#[trigger] g[k][i]).id < m.nv() && m.verts@[g[k][i].id as int].active
}

/// The grid's rows have one vertex per profile point, and no vertex is
/// repeated but an axis point.
#[verifier::opaque]
pub open spec fn grid_distinct(g: Seq<Seq<VertId>>, pole: Seq<bool>) -> bool {
    &&& forall|k: int| 0 <= k < g.len() ==> (#[trigger] g[k]).len() == pole.len()
    &&& forall|k: int, i: int, k2: int, i2: int|
        0 <= k < g.len() && 0 <= i < g[k].len() && 0 <= k2 < g.len() && 0 <= i2 < g[k2].len() && #[trigger] g[k][i]
            == #[trigger] g[k2][i2] ==> i == i2 && (k == k2 || pole[i])
}

/// The corners of a cell of a valid grid that the cell's face joins are
/// distinct.
proof fn lemma_cell_distinct(g: Seq<Seq<VertId>>, pole: Seq<bool>, k: int, k2: int, i: int)
    requires
        grid_distinct(g, pole),
        0 <= k < g.len(),
        0 <= k2 < g.len(),
        k != k2,
        0 <= i < pole.len() - 1,
    ensures
        g[k][i] != g[k][i + 1],
        g[k2][i] != g[k2][i + 1],
        g[k][i] != g[k2][i + 1],
        g[k2][i] != g[k][i + 1],
        !pole[i] ==> g[k][i] != g[k2][i],
        !pole[i + 1] ==> g[k][i + 1] != g[k2][i + 1],
{
    reveal(grid_distinct);
    assert(g[k].len() == pole.len() && g[k2].len() == pole.len());
}

/// Each row of a distinct grid has one vertex per profile point.
proof fn lemma_rows_len(g: Seq<Seq<VertId>>, pole: Seq<bool>, k: int)
    requires
        grid_distinct(g, pole),
        0 <= k < g.len(),
    ensures
        g[k].len() == pole.len(),
{
    reveal(grid_distinct);
}

/// Each cell face of a valid grid of at least two rings is a valid loop.
#[verifier::spinoff_prover]
proof fn lemma_revolve_loop_ok(m: &Mesh, g: Seq<Seq<VertId>>, pole: Seq<bool>, k: int, i: int)
    requires
        grid_usable(m, g),
        grid_distinct(g, pole),
        g.len() >= 2,
        0 <= k < g.len(),
        0 <= i < pole.len() - 1,
        !(pole[i] && pole[i + 1]),
    ensures
        loop_verts_ok(m, revolve_loop(g, pole, k, i)),
{
    let n = g.len() as int;
    let k2 = (k + 1) % n;
    crate::extrude::lemma_next_index(k, n);
    lemma_cell_distinct(g, pole, k, k2, i);
    lemma_rows_len(g, pole, k);
    lemma_rows_len(g, pole, k2);
    let v00 = g[k][i];
    let v01 = g[k][i + 1];
    let v10 = g[k2][i];
    let v11 = g[k2][i + 1];
    assert(v00.id < m.nv() && m.verts@[v00.id as int].active);
    assert(v01.id < m.nv() && m.verts@[v01.id as int].active);
    assert(v10.id < m.nv() && m.verts@[v10.id as int].active);
    assert(v11.id < m.nv() && m.verts@[v11.id as int].active);
    lemma_cell_loop_ok(m, v00, v01, v10, v11, pole[i], pole[i + 1]);
}

/// A cell face whose corners are usable and, where joined, distinct, is a
/// valid loop.
#[verifier::spinoff_prover]
proof fn lemma_cell_loop_ok(m: &Mesh, v00: VertId, v01: VertId, v10: VertId, v11: VertId, p0: bool, p1: bool)
    requires
        !(p0 && p1),
        v00 != v01,
        v10 != v11,
        v00 != v11,
        v10 != v01,
        !p0 ==> v00 != v10,
        !p1 ==> v01 != v11,
        v00.id < m.nv() && m.verts@[v00.id as int].active,
        v01.id < m.nv() && m.verts@[v01.id as int].active,
        v10.id < m.nv() && m.verts@[v10.id as int].active,
        v11.id < m.nv() && m.verts@[v11.id as int].active,
    ensures
        loop_verts_ok(m, cell_loop(v00, v01, v10, v11, p0, p1)),
{
    let q = cell_loop(v00, v01, v10, v11, p0, p1);
    if p0 {
        assert(q == seq![v00, v11, v01]);
        lemma_tri_ok(m, v00, v11, v01);
    } else if p1 {
        assert(q == seq![v00, v10, v01]);
        lemma_tri_ok(m, v00, v10, v01);
    } else {
        assert(q == seq![v00, v10, v11, v01]);
        lemma_quad_ok(m, v00, v10, v11, v01);
    }
}

/// A triangle of three usable, distinct vertices is a valid loop.
proof fn lemma_tri_ok(m: &Mesh, a: VertId, b: VertId, c: VertId)
    requires
        a != b,
        b != c,
        c != a,
        a.id < m.nv() && m.verts@[a.id as int].active,
        b.id < m.nv() && m.verts@[b.id as int].active,
        c.id < m.nv() && m.verts@[c.id as int].active,
    ensures
        loop_verts_ok(m, seq![a, b, c]),
{
    let q = seq![a, b, c];
    assert(q[0] == a && q[1] == b && q[2] == c);
    assert((0int + 1) % 3 == 1 && (1int + 1) % 3 == 2 && (2int + 1) % 3 == 0);
    assert forall|j: int| 0 <= j < 3 implies #[trigger] q[j] != q[(j + 1) % 3] by {
        if j == 0 {
        } else if j == 1 {
        } else {
            assert(j == 2);
        }
    }
    assert forall|j: int| 0 <= j < 3 implies (#[trigger] q[j]).id < m.nv() && m.verts@[q[j].id as int].active by {
        if j == 0 {
        } else if j == 1 {
        } else {
            assert(j == 2);
        }
    }
}

/// A quad of usable vertices, consecutive ones distinct, is a valid loop.
proof fn lemma_quad_ok(m: &Mesh, a: VertId, b: VertId, c: VertId, d: VertId)
    requires
        a != b,
        b != c,
        c != d,
        d != a,
        a.id < m.nv() && m.verts@[a.id as int].active,
        b.id < m.nv() && m.verts@[b.id as int].active,
        c.id < m.nv() && m.verts@[c.id as int].active,
        d.id < m.nv() && m.verts@[d.id as int].active,
    ensures
        loop_verts_ok(m, seq![a, b, c, d]),
{
    let q = seq![a, b, c, d];
    assert(q[0] == a && q[1] == b && q[2] == c && q[3] == d);
    assert((0int + 1) % 4 == 1 && (1int + 1) % 4 == 2 && (2int + 1) % 4 == 3 && (3int + 1) % 4 == 0);
    assert forall|j: int| 0 <= j < 4 implies #[trigger] q[j] != q[(j + 1) % 4] by {
        if j == 0 {
        } else if j == 1 {
        } else if j == 2 {
        } else {
            assert(j == 3);
        }
    }
    assert forall|j: int| 0 <= j < 4 implies (#[trigger] q[j]).id < m.nv() && m.verts@[q[j].id as int].active by {
        if j == 0 {
        } else if j == 1 {
        } else if j == 2 {
        } else {
            assert(j == 3);
        }
    }
}

/// A usable grid stays usable while the mesh is only added to.
proof fn lemma_grid_usable_kept(m0: &Mesh, m1: &Mesh, g: Seq<Seq<VertId>>)
    requires
        grid_usable(m0, g),
        extends(m0, m1),
    ensures
        grid_usable(m1, g),
{
    assert forall|k: int, i: int| 0 <= k < g.len() && 0 <= i < g[k].len() implies (#[trigger] g[k][i]).id < m1.nv() && m1.verts@[g[k][i].id as int].active by {
        let x = g[k][i];
        assert(x.id < m0.nv());
        assert(m1.verts@.subrange(0, m0.nv())[x.id as int] == m0.verts@[x.id as int]);
    }
}

/// A valid grid is usable and distinct.
proof fn lemma_grid_ok_parts(m: &Mesh, g: Seq<Seq<VertId>>, pole: Seq<bool>, pos: Seq<Seq<Vec3Bits>>, nv0: int)
    requires
        grid_ok(m, g, pole, pos, nv0),
        forall|k: int| 0 <= k < g.len() ==> (#[trigger] g[k]).len() == pole.len(),
    ensures
        grid_usable(m, g),
        grid_distinct(g, pole),
{
    reveal(grid_distinct);
    assert forall|k: int, i: int| 0 <= k < g.len() && 0 <= i < g[k].len() implies (#[trigger] g[k][i]).id < m.nv() && m.verts@[g[k][i].id as int].active by {
        assert(cell_ok(m, g, pole, pos, nv0, k, i));
    }
}

impl Mesh {
    /// The side faces of a revolve: for each ring `k` and profile segment
    /// `i` that does not lie along the axis, in that order, the face
    /// `revolve_loop` gives, with normal `normals[k][i]`. An error from
    /// adding a face is returned at once.
    fn revolve_faces(&mut self, rings: &Vec<Vec<VertId>>, pole: &Vec<bool>, normals: &Vec<Vec<Vec3Bits>>, material: MaterialId) -> (res: Result<
        Vec<FaceId>,
        MeshError,
    >)
        requires
            old(self).wf(),
            rings@.len() >= 2,
            pole@.len() >= 2,
            forall|k: int| 0 <= k < rings@.len() ==> (#[trigger] rings@[k])@.len() == pole@.len(),
            normals@.len() == rings@.len(),
            forall|k: int| 0 <= k < normals@.len() ==> (#[trigger] normals@[k])@.len() + 1 >= pole@.len(),
        ensures
            final(self).wf(),
            extends(old(self), final(self)),
            match res {
                Ok(fs) => {
                    let cells = revolve_cells(pole@, rings@.len() as int);
                    &&& fs@.len() == cells.len()
                    &&& forall|j: int| 0 <= j < fs@.len() ==> old(self).nf() <= (#[trigger] fs@[j]).id && face_is(
                        final(self),
                        fs@[j],
                        revolve_loop(loops_view(rings@), pole@, cells[j].0, cells[j].1),
                        Seq::empty(),
                        normals@[cells[j].0]@[cells[j].1],
                        material,
                    )
                },
                Err(e) => (grid_usable(old(self), loops_view(rings@)) && grid_distinct(loops_view(rings@), pole@)) ==> e
                    == MeshError::Capacity,
            },
            ({
                let c = rings@.len() * (pole@.len() - 1);
                &&& grid_usable(old(self), loops_view(rings@))
                &&& grid_distinct(loops_view(rings@), pole@)
                &&& old(self).nh() + 4 * c < NULL_RAW
                &&& old(self).ne() + 4 * c < NULL_RAW
                &&& old(self).nf() + c < NULL_RAW
            }) ==> res is Ok,
    {
        let ghost m0 = *self;
        let ghost g = loops_view(rings@);
        proof {
            lemma_extends_refl(&m0);
        }
        let nr = rings.len();
        let np = pole.len();
        let mut fs: Vec<FaceId> = Vec::new();
        let mut k: usize = 0;
        while k < nr
            invariant
                self.wf(),
                m0.wf(),
                m0 == *old(self),
                extends(&m0, self),
                g == loops_view(rings@),
                nr == rings@.len(),
                nr >= 2,
                np == pole@.len(),
                np >= 2,
                forall|q: int| 0 <= q < rings@.len() ==> (#[trigger] rings@[q])@.len() == pole@.len(),
                normals@.len() == rings@.len(),
                forall|q: int| 0 <= q < normals@.len() ==> (#[trigger] normals@[q])@.len() + 1 >= pole@.len(),
                (grid_usable(&m0, g) && grid_distinct(g, pole@)) ==> grid_usable(self, g),
                0 <= k <= nr,
                fs@.len() == revolve_cells(pole@, k as int).len(),
                forall|j: int| 0 <= j < fs@.len() ==> m0.nf() <= (#[trigger] fs@[j]).id && face_is(
                    self,
                    fs@[j],
                    revolve_loop(g, pole@, revolve_cells(pole@, k as int)[j].0, revolve_cells(pole@, k as int)[j].1),
                    Seq::empty(),
                    normals@[revolve_cells(pole@, k as int)[j].0]@[revolve_cells(pole@, k as int)[j].1],
                    material,
                ),
                fs@.len() <= k * (np - 1),
                self.nh() <= m0.nh() + 4 * fs@.len(),
                self.ne() <= m0.ne() + 4 * fs@.len(),
                self.nf() == m0.nf() + fs@.len(),
            decreases nr - k,
        {
            let ghost before = revolve_cells(pole@, k as int);
            let mut i: usize = 0;
            while i + 1 < np
                invariant
                    self.wf(),
                    m0.wf(),
                    m0 == *old(self),
                    extends(&m0, self),
                    g == loops_view(rings@),
                    nr == rings@.len(),
                    nr >= 2,
                    np == pole@.len(),
                    np >= 2,
                    forall|q: int| 0 <= q < rings@.len() ==> (#[trigger] rings@[q])@.len() == pole@.len(),
                    normals@.len() == rings@.len(),
                    forall|q: int| 0 <= q < normals@.len() ==> (#[trigger] normals@[q])@.len() + 1 >= pole@.len(),
                    (grid_usable(&m0, g) && grid_distinct(g, pole@)) ==> grid_usable(self, g),
                    0 <= k < nr,
                    0 <= i < np,
                    before == revolve_cells(pole@, k as int),
                    fs@.len() == (before + cells_row(pole@, k as int, i as int)).len(),
                    forall|j: int| 0 <= j < fs@.len() ==> m0.nf() <= (#[trigger] fs@[j]).id && face_is(
                        self,
                        fs@[j],
                        revolve_loop(g, pole@, (before + cells_row(pole@, k as int, i as int))[j].0, (before + cells_row(pole@, k as int, i as int))[j].1),
                        Seq::empty(),
                        normals@[(before + cells_row(pole@, k as int, i as int))[j].0]@[(before + cells_row(pole@, k as int, i as int))[j].1],
                        material,
                    ),
                    fs@.len() <= k * (np - 1) + i,
                    self.nh() <= m0.nh() + 4 * fs@.len(),
                    self.ne() <= m0.ne() + 4 * fs@.len(),
                    self.nf() == m0.nf() + fs@.len(),
                decreases np - i,
            {
                proof {
                    assert(k * (np - 1) + i + 1 <= nr * (np - 1)) by (nonlinear_arith)
                        requires
                            0 <= k < nr,
                            0 <= i,
                            i + 1 < np,
                    ;
                }
                let ghost cs = before + cells_row(pole@, k as int, i as int);
                let ghost cs1 = before + cells_row(pole@, k as int, i as int + 1);
                if pole[i] && pole[i + 1] {
                    proof {
                        assert(cs1 == cs);
                    }
                } else {
                    let k2 = if k + 1 == nr { 0 } else { k + 1 };
                    proof {
                        crate::extrude::lemma_next_index(k as int, nr as int);
                        assert(rings@[k as int]@.len() == np && rings@[k2 as int]@.len() == np);
                        assert(normals@[k as int]@.len() + 1 >= np);
                    }
                    let v00 = rings[k][i];
                    let v01 = rings[k][i + 1];
                    let v10 = rings[k2][i];
                    let v11 = rings[k2][i + 1];
                    let lp: Vec<VertId> = if pole[i] {
                        vec![v00, v11, v01]
                    } else if pole[i + 1] {
                        vec![v00, v10, v01]
                    } else {
                        vec![v00, v10, v11, v01]
                    };
                    proof {
                        assert(g[k as int] == rings@[k as int]@);
                        assert(g[k2 as int] == rings@[k2 as int]@);
                        assert(lp@ =~= revolve_loop(g, pole@, k as int, i as int));
                        assert(cs1 =~= cs.push((k as int, i as int)));
                    }
                    let ghost pre = *self;
                    proof {
                        if grid_usable(&m0, g) && grid_distinct(g, pole@) {
                            lemma_revolve_loop_ok(&pre, g, pole@, k as int, i as int);
                        }
                    }
                    let f = match self.add_plain_face(lp.as_slice(), normals[k][i], material) {
                        Ok(f) => f,
                        Err(e) => {
                            proof {
                                lemma_extends_trans(&m0, &pre, self);
                            }
                            return Err(e);
                        },
                    };
                    proof {
                        lemma_extends_trans(&m0, &pre, self);
                        if grid_usable(&m0, g) && grid_distinct(g, pole@) {
                            lemma_grid_usable_kept(&pre, self, g);
                        }
                        assert forall|j: int| 0 <= j < fs@.len() implies m0.nf() <= (#[trigger] fs@[j]).id && face_is(
                            self,
                            fs@[j],
                            revolve_loop(g, pole@, cs[j].0, cs[j].1),
                            Seq::empty(),
                            normals@[cs[j].0]@[cs[j].1],
                            material,
                        ) by {
                            lemma_face_is_kept(&pre, self, fs@[j], revolve_loop(g, pole@, cs[j].0, cs[j].1), Seq::empty(), normals@[cs[j].0]@[cs[j].1], material);
                        }
                    }
                    fs.push(f);
                    proof {
                        assert forall|j: int| 0 <= j < fs@.len() implies m0.nf() <= (#[trigger] fs@[j]).id && face_is(
                            self,
                            fs@[j],
                            revolve_loop(g, pole@, cs1[j].0, cs1[j].1),
                            Seq::empty(),
                            normals@[cs1[j].0]@[cs1[j].1],
                            material,
                        ) by {
                            if j < cs.len() {
                                assert(cs1[j] == cs[j]);
                            }
                        }
                    }
                }
                i = i + 1;
            }
            proof {
                assert(np - 1 == i);
                assert(before + cells_row(pole@, k as int, i as int) == revolve_cells(pole@, k as int + 1));
                assert(k * (np - 1) + (np - 1) == (k + 1) * (np - 1)) by (nonlinear_arith);
            }
            k = k + 1;
        }
        Ok(fs)
    }
}

impl Mesh {
    /// The topology of a revolve of a profile of `pole.len()` points through
    /// `pos.len()` angular steps: the ring vertices (`revolve_rings`: ring
    /// `k` at `pos[k]`, one shared vertex per axis point `pole[i]`), then the
    /// side faces (`revolve_faces`, with `normals[k][i]` for the face of ring
    /// `k`, segment `i`). Fails with `Degenerate` when the profile has fewer
    /// than two points or there are fewer than three steps, leaving the mesh
    /// unchanged; otherwise only when an arena is full (room for a vertex per
    /// point per step, and per step and segment a face of at most four
    /// half-edges, always suffices).
    pub fn revolve_build(
        &mut self,
        pos: &Vec<Vec<Vec3Bits>>,
        pole: &Vec<bool>,
        normals: &Vec<Vec<Vec3Bits>>,
        material: MaterialId,
    ) -> (res: Result<(Vec<Vec<VertId>>, Vec<FaceId>), MeshError>)
        requires
            old(self).wf(),
            forall|k: int| 0 <= k < pos@.len() ==> (#[trigger] pos@[k])@.len() == pole@.len(),
            normals@.len() == pos@.len(),
            forall|k: int| 0 <= k < normals@.len() ==> (#[trigger] normals@[k])@.len() + 1 >= pole@.len(),
        ensures
            final(self).wf(),
            extends(old(self), final(self)),
            res == Err::<(Vec<Vec<VertId>>, Vec<FaceId>), MeshError>(MeshError::Degenerate) <==> pole@.len() < 2
                || pos@.len() < 3,
            pole@.len() < 2 || pos@.len() < 3 ==> *final(self) == *old(self),
            pole@.len() >= 2 && pos@.len() >= 3 && has_room(
                old(self),
                (pos@.len() * pole@.len()) as int,
                4 * pos@.len() * (pole@.len() - 1),
                pos@.len() * (pole@.len() - 1),
            ) ==> res is Ok,
            match res {
                Ok((rings, fs)) => {
                    let g = loops_view(rings@);
                    let cells = revolve_cells(pole@, pos@.len() as int);
                    &&& rings@.len() == pos@.len()
                    &&& forall|k: int| 0 <= k < rings@.len() ==> (#[trigger] rings@[k])@.len() == pole@.len()
                    &&& grid_ok(final(self), g, pole@, pos@.map_values(|r: Vec<Vec3Bits>| r@), old(self).nv())
                    &&& fs@.len() == cells.len()
                    &&& lens_profile(pole@) ==> closed_surface(revolve_surface(g, pole@))
                    &&& forall|j: int| 0 <= j < fs@.len() ==> old(self).nf() <= (#[trigger] fs@[j]).id && face_is(
                        final(self),
                        fs@[j],
                        revolve_loop(g, pole@, cells[j].0, cells[j].1),
                        Seq::empty(),
                        normals@[cells[j].0]@[cells[j].1],
                        material,
                    )
                },
                Err(e) => e == MeshError::Degenerate || e == MeshError::Capacity,
            },
    {
        if pole.len() < 2 || pos.len() < 3 {
            proof {
                lemma_extends_refl(self);
            }
            return Err(MeshError::Degenerate);
        }
        let ghost m0 = *self;
        let ghost pv = pos@.map_values(|r: Vec<Vec3Bits>| r@);
        let rings = self.revolve_rings(pos, pole)?;
        let ghost m1 = *self;
        let ghost g = loops_view(rings@);
        proof {
            assert forall|k: int| 0 <= k < g.len() implies (#[trigger] g[k]).len() == pole@.len() by {
                assert(rings@[k]@.len() == pole@.len());
            }
            lemma_grid_ok_parts(&m1, g, pole@, pv, m0.nv() as int);
            if lens_profile(pole@) {
                let np = pole@.len() as int;
                assert forall|k: int| 0 <= k < g.len() implies (#[trigger] g[k])[0] == g[0][0] && g[k][np - 1] == g[0][np - 1] by {
                    if k > 0 {
                        assert(cell_ok(&m1, g, pole@, pv, m0.nv() as int, k, 0));
                        assert(cell_ok(&m1, g, pole@, pv, m0.nv() as int, k, np - 1));
                    }
                }
                lemma_revolve_lens_closed(g, pole@);
            }
        }
        proof {
            assert(4 * pos@.len() * (pole@.len() - 1) == 4 * (rings@.len() * (pole@.len() - 1))) by (nonlinear_arith)
                requires
                    rings@.len() == pos@.len(),
            ;
        }
        let fs = match self.revolve_faces(&rings, pole, normals, material) {
            Ok(fs) => fs,
            Err(e) => {
                proof {
                    lemma_extends_trans(&m0, &m1, self);
                }
                return Err(e);
            },
        };
        proof {
            lemma_extends_trans(&m0, &m1, self);
            lemma_grid_kept(&m1, self, g, pole@, pv, m0.nv() as int);
        }
        Ok((rings, fs))
    }
}

/// Cell `(k, i)` is among `cells`.
pub open spec fn cell_listed(cells: Seq<(int, int)>, k: int, i: int) -> bool {
    exists|j: int| 0 <= j < cells.len() && cells[j] == (k, i)
}

/// The cells of ring `k` below segment `upto`: in increasing segment order,
/// every segment but one with both ends on the axis.
proof fn lemma_cells_row(pole: Seq<bool>, k: int, upto: int)
    requires
        0 <= upto < pole.len(),
    ensures
        forall|j: int| 0 <= j < cells_row(pole, k, upto).len() ==> {
            let c = #[trigger] cells_row(pole, k, upto)[j];
            &&& c.0 == k
            &&& 0 <= c.1 < upto
            &&& !(pole[c.1] && pole[c.1 + 1])
        },
        forall|j: int, j2: int| 0 <= j < j2 < cells_row(pole, k, upto).len() ==> (#[trigger] cells_row(pole, k, upto)[j]).1 < (
        #[trigger] cells_row(pole, k, upto)[j2]).1,
        forall|i: int| 0 <= i < upto && !(pole[i] && pole[i + 1]) ==> #[trigger] cell_listed(cells_row(pole, k, upto), k, i),
    decreases upto,
{
    if upto > 0 {
        lemma_cells_row(pole, k, upto - 1);
        let prev = cells_row(pole, k, upto - 1);
        let cur = cells_row(pole, k, upto);
        assert forall|i: int| 0 <= i < upto && !(pole[i] && pole[i + 1]) implies #[trigger] cell_listed(cur, k, i) by {
            if i < upto - 1 {
                assert(cell_listed(prev, k, i));
                let j = choose|j: int| 0 <= j < prev.len() && prev[j] == (k, i);
                assert(cur[j] == prev[j]);
            } else {
                assert(cur == prev.push((k, upto - 1)));
                assert(cur[prev.len() as int] == (k, i));
            }
        }
    }
}

/// The cells of the first `nr` rings: each a valid cell with a face, none
/// twice, and every such cell listed.
proof fn lemma_revolve_cells(pole: Seq<bool>, nr: int)
    requires
        pole.len() >= 1,
        nr >= 0,
    ensures
        forall|j: int| 0 <= j < revolve_cells(pole, nr).len() ==> {
            let c = #[trigger] revolve_cells(pole, nr)[j];
            &&& 0 <= c.0 < nr
            &&& 0 <= c.1 < pole.len() - 1
            &&& !(pole[c.1] && pole[c.1 + 1])
        },
        forall|j: int, j2: int| 0 <= j < revolve_cells(pole, nr).len() && 0 <= j2 < revolve_cells(pole, nr).len() && j != j2
            ==> #[trigger] revolve_cells(pole, nr)[j] != #[trigger] revolve_cells(pole, nr)[j2],
        forall|k: int, i: int| 0 <= k < nr && 0 <= i < pole.len() - 1 && !(pole[i] && pole[i + 1]) ==> #[trigger] cell_listed(
            revolve_cells(pole, nr),
            k,
            i,
        ),
    decreases nr,
{
    if nr > 0 {
        lemma_revolve_cells(pole, nr - 1);
        let prev = revolve_cells(pole, nr - 1);
        let row = cells_row(pole, nr - 1, pole.len() - 1);
        lemma_cells_row(pole, nr - 1, pole.len() - 1);
        let cur = revolve_cells(pole, nr);
        assert(cur == prev + row);
        let m = prev.len() as int;
        assert forall|j: int| 0 <= j < cur.len() implies {
            let c = #[trigger] cur[j];
            &&& 0 <= c.0 < nr
            &&& 0 <= c.1 < pole.len() - 1
            &&& !(pole[c.1] && pole[c.1 + 1])
        } by {
            if j < m {
                assert(cur[j] == prev[j]);
            } else {
                assert(cur[j] == row[j - m]);
            }
        }
        assert forall|j: int, j2: int| 0 <= j < cur.len() && 0 <= j2 < cur.len() && j != j2 implies #[trigger] cur[j]
            != #[trigger] cur[j2] by {
            if j < m && j2 < m {
                assert(cur[j] == prev[j] && cur[j2] == prev[j2]);
            } else if j >= m && j2 >= m {
                assert(cur[j] == row[j - m] && cur[j2] == row[j2 - m]);
                if j < j2 {
                    assert(row[j - m].1 < row[j2 - m].1);
                } else {
                    assert(row[j2 - m].1 < row[j - m].1);
                }
            } else if j < m {
                assert(cur[j] == prev[j] && cur[j2] == row[j2 - m]);
                assert(prev[j].0 < nr - 1);
            } else {
                assert(cur[j2] == prev[j2] && cur[j] == row[j - m]);
                assert(prev[j2].0 < nr - 1);
            }
        }
        assert forall|k: int, i: int| 0 <= k < nr && 0 <= i < pole.len() - 1 && !(pole[i] && pole[i + 1]) implies #[trigger] cell_listed(
            cur,
            k,
            i,
        ) by {
            if k < nr - 1 {
                assert(cell_listed(prev, k, i));
                let j = choose|j: int| 0 <= j < prev.len() && prev[j] == (k, i);
                assert(cur[j] == prev[j]);
            } else {
                assert(cell_listed(row, k, i));
                let j = choose|j: int| 0 <= j < row.len() && row[j] == (k, i);
                assert(cur[j + m] == row[j]);
            }
        }
    }
}

/// A profile that starts and ends on the axis and touches it nowhere else.
pub open spec fn lens_profile(pole: Seq<bool>) -> bool {
    &&& pole.len() >= 3
    &&& pole[0]
    &&& pole[pole.len() - 1]
    &&& forall|i: int| 0 < i < pole.len() - 1 ==> !#[trigger] pole[i]
}

/// The face loops of a revolve of grid `g`, in the order of its cells.
pub open spec fn revolve_surface(g: Seq<Seq<VertId>>, pole: Seq<bool>) -> Seq<Seq<VertId>> {
    let cells = revolve_cells(pole, g.len() as int);
    Seq::new(cells.len(), |j: int| revolve_loop(g, pole, cells[j].0, cells[j].1))
}

/// The number of corners of cell face `i` of a lens profile of `np` points.
pub open spec fn lens_cell_len(np: int, i: int) -> int {
    if i == 0 || i == np - 2 {
        3
    } else {
        4
    }
}

/// For a lens profile of `np` points over `nr` rings: the `l`-th edge of
/// cell `(k, i)` runs from ring `.0`, profile point `.1` to ring `.2`,
/// profile point `.3`.
pub open spec fn lens_edge_ix(nr: int, np: int, k: int, i: int, l: int) -> (int, int, int, int) {
    let k2 = nx(k, nr);
    if i == 0 {
        if l == 0 {
            (k, 0, k2, 1)
        } else if l == 1 {
            (k2, 1, k, 1)
        } else {
            (k, 1, k, 0)
        }
    } else if i == np - 2 {
        if l == 0 {
            (k, i, k2, i)
        } else if l == 1 {
            (k2, i, k, i + 1)
        } else {
            (k, i + 1, k, i)
        }
    } else {
        if l == 0 {
            (k, i, k2, i)
        } else if l == 1 {
            (k2, i, k2, i + 1)
        } else if l == 2 {
            (k2, i + 1, k, i + 1)
        } else {
            (k, i + 1, k, i)
        }
    }
}

/// The cell and position of the edge run the other way from the `l`-th
/// edge of cell `(k, i)` of a lens.
pub open spec fn lens_twin(nr: int, np: int, k: int, i: int, l: int) -> (int, int, int) {
    let k2 = nx(k, nr);
    let kp = pv(k, nr);
    if i == 0 {
        if l == 0 {
            (k2, 0, 2)
        } else if l == 1 {
            (k, 1, 0)
        } else {
            (kp, 0, 0)
        }
    } else if i == np - 2 {
        if l == 0 {
            (k, i - 1, if i - 1 == 0 { 1 } else { 2 })
        } else if l == 1 {
            (k2, i, 2)
        } else {
            (kp, i, 1)
        }
    } else {
        if l == 0 {
            (k, i - 1, if i - 1 == 0 { 1 } else { 2 })
        } else if l == 1 {
            (k2, i, 3)
        } else if l == 2 {
            (k, i + 1, 0)
        } else {
            (kp, i, 1)
        }
    }
}

/// Two edges of a lens with the same profile points at both ends, and the
/// same rings there but at an axis point, are the same edge.
proof fn lemma_lens_ix_unique(nr: int, np: int, k: int, i: int, l: int, k1: int, i1: int, l1: int)
    requires
        nr >= 3,
        np >= 3,
        0 <= k < nr,
        0 <= k1 < nr,
        0 <= i < np - 1,
        0 <= i1 < np - 1,
        0 <= l < lens_cell_len(np, i),
        0 <= l1 < lens_cell_len(np, i1),
        lens_edge_ix(nr, np, k, i, l).1 == lens_edge_ix(nr, np, k1, i1, l1).1,
        lens_edge_ix(nr, np, k, i, l).3 == lens_edge_ix(nr, np, k1, i1, l1).3,
        lens_edge_ix(nr, np, k, i, l).0 == lens_edge_ix(nr, np, k1, i1, l1).0 || lens_edge_ix(nr, np, k, i, l).1 == 0
            || lens_edge_ix(nr, np, k, i, l).1 == np - 1,
        lens_edge_ix(nr, np, k, i, l).2 == lens_edge_ix(nr, np, k1, i1, l1).2 || lens_edge_ix(nr, np, k, i, l).3 == 0
            || lens_edge_ix(nr, np, k, i, l).3 == np - 1,
    ensures
        k == k1 && i == i1 && l == l1,
{
    lemma_nx_pv(k, nr);
    lemma_nx_pv(k1, nr);
}

/// The twin of an edge of a lens is an edge of a cell, running between the
/// same profile points the other way, on the same rings but at an axis point.
proof fn lemma_lens_twin(nr: int, np: int, k: int, i: int, l: int)
    requires
        nr >= 3,
        np >= 3,
        0 <= k < nr,
        0 <= i < np - 1,
        0 <= l < lens_cell_len(np, i),
    ensures
        ({
            let t = lens_twin(nr, np, k, i, l);
            let e = lens_edge_ix(nr, np, k, i, l);
            let e2 = lens_edge_ix(nr, np, t.0, t.1, t.2);
            &&& 0 <= t.0 < nr
            &&& 0 <= t.1 < np - 1
            &&& 0 <= t.2 < lens_cell_len(np, t.1)
            &&& e2.1 == e.3
            &&& e2.3 == e.1
            &&& e2.0 == e.2 || e.3 == 0 || e.3 == np - 1
            &&& e2.2 == e.0 || e.1 == 0 || e.1 == np - 1
        }),
{
    lemma_nx_pv(k, nr);
}

/// The edges of the cell faces of a lens, by `lens_edge_ix`.
proof fn lemma_lens_edge(g: Seq<Seq<VertId>>, pole: Seq<bool>, k: int, i: int, l: int)
    requires
        g.len() >= 3,
        lens_profile(pole),
        forall|q: int| 0 <= q < g.len() ==> (#[trigger] g[q]).len() == pole.len(),
        0 <= k < g.len(),
        0 <= i < pole.len() - 1,
        0 <= l < lens_cell_len(pole.len() as int, i),
    ensures
        revolve_loop(g, pole, k, i).len() == lens_cell_len(pole.len() as int, i),
        ({
            let e = lens_edge_ix(g.len() as int, pole.len() as int, k, i, l);
            &&& 0 <= e.0 < g.len()
            &&& 0 <= e.1 < pole.len()
            &&& 0 <= e.2 < g.len()
            &&& 0 <= e.3 < pole.len()
            &&& dedge(revolve_loop(g, pole, k, i), l) == (g[e.0][e.1], g[e.2][e.3])
        }),
{
    let nr = g.len() as int;
    let np = pole.len() as int;
    lemma_nx_pv(k, nr);
    let k2 = nx(k, nr);
    let lp = revolve_loop(g, pole, k, i);
    if i == 0 {
        assert(lp == seq![g[k][i], g[k2][i + 1], g[k][i + 1]]);
        assert((l + 1) % 3 == if l == 2 { 0 } else { l + 1 });
    } else if i == np - 2 {
        assert(!pole[i]);
        assert(lp == seq![g[k][i], g[k2][i], g[k][i + 1]]);
        assert((l + 1) % 3 == if l == 2 { 0 } else { l + 1 });
    } else {
        assert(!pole[i] && !pole[i + 1]);
        assert(lp == seq![g[k][i], g[k2][i], g[k2][i + 1], g[k][i + 1]]);
        assert((l + 1) % 4 == if l == 3 { 0 } else { l + 1 });
    }
}

/// A revolve whose profile starts and ends on the axis and touches it
/// nowhere else, through at least three steps, over a grid of distinct
/// vertices but the shared axis points, is closed: its cell faces share
/// every edge in opposite directions, once.
pub proof fn lemma_revolve_lens_closed(g: Seq<Seq<VertId>>, pole: Seq<bool>)
    requires
        g.len() >= 3,
        lens_profile(pole),
        grid_distinct(g, pole),
        forall|k: int| 0 <= k < g.len() ==> (#[trigger] g[k])[0] == g[0][0] && g[k][pole.len() - 1] == g[0][pole.len() - 1],
    ensures
        closed_surface(revolve_surface(g, pole)),
{
    reveal(grid_distinct);
    let nr = g.len() as int;
    let np = pole.len() as int;
    let cells = revolve_cells(pole, nr);
    let s = revolve_surface(g, pole);
    lemma_revolve_cells(pole, nr);
    assert(s.len() == cells.len());
    assert forall|j: int| 0 <= j < s.len() implies (#[trigger] s[j]) == revolve_loop(g, pole, cells[j].0, cells[j].1)
        && 0 <= cells[j].0 < nr && 0 <= cells[j].1 < np - 1 by {
    }
    assert forall|j: int, l: int, j2: int, l2: int|
        is_slot(s, j, l) && is_slot(s, j2, l2) && #[trigger] dedge(s[j], l) == #[trigger] dedge(s[j2], l2) implies j == j2 && l
        == l2 by {
        let (k, i) = cells[j];
        let (k1, i1) = cells[j2];
        assert(s[j] == revolve_loop(g, pole, k, i) && s[j2] == revolve_loop(g, pole, k1, i1));
        assert(0 <= l < lens_cell_len(np, i)) by {
            lemma_lens_edge(g, pole, k, i, 0);
        }
        assert(0 <= l2 < lens_cell_len(np, i1)) by {
            lemma_lens_edge(g, pole, k1, i1, 0);
        }
        lemma_lens_edge(g, pole, k, i, l);
        lemma_lens_edge(g, pole, k1, i1, l2);
        let e = lens_edge_ix(nr, np, k, i, l);
        let e1 = lens_edge_ix(nr, np, k1, i1, l2);
        assert(g[e.0][e.1] == g[e1.0][e1.1]);
        assert(g[e.2][e.3] == g[e1.2][e1.3]);
        assert(e.1 == e1.1 && (e.0 == e1.0 || pole[e.1]));
        assert(e.3 == e1.3 && (e.2 == e1.2 || pole[e.3]));
        lemma_lens_ix_unique(nr, np, k, i, l, k1, i1, l2);
        assert(cells[j] == cells[j2]);
    }
    assert forall|j: int, l: int| #[trigger] is_slot(s, j, l) implies exists|j2: int, l2: int|
        #[trigger] is_slot(s, j2, l2) && dedge(s[j2], l2) == (dedge(s[j], l).1, dedge(s[j], l).0) by {
        let (k, i) = cells[j];
        assert(s[j] == revolve_loop(g, pole, k, i));
        assert(0 <= l < lens_cell_len(np, i)) by {
            lemma_lens_edge(g, pole, k, i, 0);
        }
        lemma_lens_edge(g, pole, k, i, l);
        lemma_lens_twin(nr, np, k, i, l);
        let t = lens_twin(nr, np, k, i, l);
        assert(!(pole[t.1] && pole[t.1 + 1]));
        assert(cell_listed(cells, t.0, t.1));
        let j2 = choose|j2: int| 0 <= j2 < cells.len() && cells[j2] == (t.0, t.1);
        assert(s[j2] == revolve_loop(g, pole, t.0, t.1));
        lemma_lens_edge(g, pole, t.0, t.1, t.2);
        lemma_lens_edge(g, pole, t.0, t.1, 0);
        assert(is_slot(s, j2, t.2));
        let e = lens_edge_ix(nr, np, k, i, l);
        let e2 = lens_edge_ix(nr, np, t.0, t.1, t.2);
        assert(g[e2.0][e2.1] == g[e.2][e.3]) by {
            if e2.0 != e.2 {
                assert(g[e2.0][0] == g[0][0] && g[e.2][0] == g[0][0]);
                assert(g[e2.0][np - 1] == g[0][np - 1] && g[e.2][np - 1] == g[0][np - 1]);
            }
        }
        assert(g[e2.2][e2.3] == g[e.0][e.1]) by {
            if e2.2 != e.0 {
                assert(g[e2.2][0] == g[0][0] && g[e.0][0] == g[0][0]);
                assert(g[e2.2][np - 1] == g[0][np - 1] && g[e.0][np - 1] == g[0][np - 1]);
            }
        }
    }
}

} // verus!
