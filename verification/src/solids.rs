//! The topology of the polygonal primitives (box, cylinder, cone, sphere):
//! which new vertices they make and which loops become faces, in order.
//!
//! The vertex positions and the face normals are geometry; the caller
//! computes them and passes them in.
use vstd::prelude::*;

use crate::extrude::{
    copies_at, extends, face_is, fresh_over, lemma_copies_kept, lemma_extends_refl, lemma_extends_trans, lemma_face_is_kept,
    has_room, lemma_wall_quad_ok, wall_quad,
};
use crate::closed::{closed_surface, lemma_box_closed, lemma_prism_closed, lemma_sphere_closed};
use crate::ids::{FaceId, MaterialId, VertId};
use crate::mesh::{loop_verts_ok, Mesh, MeshError, Vec3Bits, Vertex};
use crate::ring::{loops_view, total_len};

verus! {

/// A loop of at least three distinct usable vertices is valid.
pub(crate) proof fn lemma_distinct_loop_ok(m: &Mesh, vs: Seq<VertId>)
    requires
        vs.no_duplicates(),
        vs.len() >= 3,
        forall|i: int| 0 <= i < vs.len() ==> (#[trigger] vs[i]).id < m.nv() && m.verts@[vs[i].id as int].active,
    ensures
        loop_verts_ok(m, vs),
{
    let n = vs.len() as int;
    assert forall|i: int| 0 <= i < n implies #[trigger] vs[i] != vs[(i + 1) % n] by {
        crate::extrude::lemma_next_index(i, n);
    }
}

impl Mesh {
    /// Add a face for each loop, in order, with `normals[k]`; stop at the
    /// first loop that is refused and return its error. A loop is refused
    /// only when it is not a valid loop of the mesh or an arena is full.
    pub fn add_faces_in_order(&mut self, loops: &Vec<Vec<VertId>>, normals: &Vec<Vec3Bits>, material: MaterialId) -> (res: Result<
        Vec<FaceId>,
        MeshError,
    >)
        requires
            old(self).wf(),
            normals@.len() == loops@.len(),
        ensures
            final(self).wf(),
            extends(old(self), final(self)),
            final(self).verts@ == old(self).verts@,
            match res {
                Ok(fs) => {
                    &&& fs@.len() == loops@.len()
                    &&& forall|k: int| 0 <= k < loops@.len() ==> loop_verts_ok(old(self), (#[trigger] loops@[k])@)
                    &&& forall|k: int| 0 <= k < fs@.len() ==> old(self).nf() <= (#[trigger] fs@[k]).id && face_is(
                        final(self),
                        fs@[k],
                        loops@[k]@,
                        Seq::empty(),
                        normals@[k],
                        material,
                    )
                },
                Err(e) => (forall|k: int| 0 <= k < loops@.len() ==> loop_verts_ok(old(self), (#[trigger] loops@[k])@)) ==> e
                    == MeshError::Capacity,
            },
            res is Ok ==> final(self).nh() == old(self).nh() + total_len(loops_view(loops@)) && final(self).ne() <= old(self).ne()
                + total_len(loops_view(loops@)) && final(self).nf() == old(self).nf() + loops@.len(),
            (forall|k: int| 0 <= k < loops@.len() ==> loop_verts_ok(old(self), (#[trigger] loops@[k])@)) && has_room(
                old(self),
                0,
                total_len(loops_view(loops@)),
                loops@.len() as int,
            ) ==> res is Ok,
    {
        let ghost m0 = *self;
        proof {
            lemma_extends_refl(&m0);
        }
        let mut fs: Vec<FaceId> = Vec::new();
        let mut k: usize = 0;
        while k < loops.len()
            invariant
                self.wf(),
                m0.wf(),
                m0 == *old(self),
                extends(&m0, self),
                self.verts@ == m0.verts@,
                normals@.len() == loops@.len(),
                0 <= k <= loops@.len(),
                fs@.len() == k,
                forall|q: int| 0 <= q < k ==> loop_verts_ok(&m0, (#[trigger] loops@[q])@),
                self.nh() == m0.nh() + total_len(loops_view(loops@).subrange(0, k as int)),
                self.ne() <= m0.ne() + total_len(loops_view(loops@).subrange(0, k as int)),
                self.nf() == m0.nf() + k,
                forall|q: int| 0 <= q < k ==> m0.nf() <= (#[trigger] fs@[q]).id && face_is(
                    self,
                    fs@[q],
                    loops@[q]@,
                    Seq::empty(),
                    normals@[q],
                    material,
                ),
            decreases loops@.len() - k,
        {
            let ghost pre = *self;
            proof {
                let lv = loops_view(loops@);
                assert(lv.subrange(0, k as int + 1).drop_last() =~= lv.subrange(0, k as int));
                assert(lv[k as int] == loops@[k as int]@);
                crate::ring::lemma_total_len_prefix(lv, k as int + 1);
            }
            let f = match self.add_plain_face(loops[k].as_slice(), normals[k], material) {
                Ok(f) => f,
                Err(e) => {
                    proof {
                        lemma_extends_trans(&m0, &pre, self);
                        if forall|q: int| 0 <= q < loops@.len() ==> loop_verts_ok(&m0, (#[trigger] loops@[q])@) {
                            assert(loop_verts_ok(&m0, loops@[k as int]@));
                        }
                    }
                    return Err(e);
                },
            };
            proof {
                lemma_extends_trans(&m0, &pre, self);
                assert forall|q: int| 0 <= q < k implies m0.nf() <= (#[trigger] fs@[q]).id && face_is(
                    self,
                    fs@[q],
                    loops@[q]@,
                    Seq::empty(),
                    normals@[q],
                    material,
                ) by {
                    lemma_face_is_kept(&pre, self, fs@[q], loops@[q]@, Seq::empty(), normals@[q], material);
                }
            }
            fs.push(f);
            k = k + 1;
        }
        assert(loops_view(loops@).subrange(0, loops@.len() as int) =~= loops_view(loops@));
        Ok(fs)
    }
}

/// The entries of `vs` at positions `idx`, in order.
pub open spec fn pick(vs: Seq<VertId>, idx: Seq<int>) -> Seq<VertId> {
    Seq::new(idx.len(), |j: int| vs[idx[j]])
}

/// Picking at least three distinct positions of a copy gives a valid loop.
pub(crate) proof fn lemma_pick_ok(m: &Mesh, vs: Seq<VertId>, pos: Seq<Vec3Bits>, nv0: int, idx: Seq<int>)
    requires
        copies_at(m, vs, pos, nv0),
        idx.no_duplicates(),
        idx.len() >= 3,
        forall|j: int| 0 <= j < idx.len() ==> 0 <= #[trigger] idx[j] < vs.len(),
    ensures
        loop_verts_ok(m, pick(vs, idx)),
{
    let q = pick(vs, idx);
    assert forall|a: int, b: int| 0 <= a < q.len() && 0 <= b < q.len() && a != b implies q[a] != q[b] by {
        let (x, y) = (idx[a], idx[b]);
        assert(x != y);
        if x < y {
            assert(vs[x].id < vs[y].id);
        } else {
            assert(vs[y].id < vs[x].id);
        }
    }
    assert forall|j: int| 0 <= j < q.len() implies (#[trigger] q[j]).id < m.nv() && m.verts@[q[j].id as int].active by {
        assert(0 <= idx[j] < vs.len());
    }
    lemma_distinct_loop_ok(m, q);
}

/// The six faces of a box on corners `v` (`x`, `y`, `z` bits `000, 100,
/// 110, 010, 001, 101, 111, 011`), each wound outward: bottom, top, front,
/// back, right, left.
pub open spec fn box_index_loops() -> Seq<Seq<int>> {
    seq![seq![0int, 3, 2, 1], seq![4int, 5, 6, 7], seq![0int, 1, 5, 4], seq![3int, 7, 6, 2], seq![1int, 2, 6, 5], seq![0int, 4, 7, 3]]
}

/// The vertex loops of the box faces.
pub open spec fn box_loops(v: Seq<VertId>) -> Seq<Seq<VertId>> {
    Seq::new(6, |k: int| pick(v, box_index_loops()[k]))
}

/// The index loops of the box are valid picks of eight corners.
proof fn lemma_box_indices()
    ensures
        box_index_loops().len() == 6,
        forall|k: int| 0 <= k < 6 ==> {
            let l = #[trigger] box_index_loops()[k];
            &&& l.no_duplicates()
            &&& l.len() == 4
            &&& forall|j: int| 0 <= j < 4 ==> 0 <= #[trigger] l[j] < 8
        },
{
    let ls = box_index_loops();
    assert forall|k: int| 0 <= k < 6 implies {
        let l = #[trigger] ls[k];
        &&& l.no_duplicates()
        &&& l.len() == 4
        &&& forall|j: int| 0 <= j < 4 ==> 0 <= #[trigger] l[j] < 8
    } by {
        let l = ls[k];
        assert(l.len() == 4);
        assert forall|a: int, b: int| 0 <= a < 4 && 0 <= b < 4 && a != b implies l[a] != l[b] by {
        }
    }
}

/// The exec loops of a box on corners `v`.
fn box_loop_vecs(v: &Vec<VertId>) -> (r: Vec<Vec<VertId>>)
    requires
        v@.len() == 8,
    ensures
        r@.len() == 6,
        forall|k: int| 0 <= k < 6 ==> (#[trigger] r@[k])@ == box_loops(v@)[k],
{
    let r = vec![
        vec![v[0], v[3], v[2], v[1]],
        vec![v[4], v[5], v[6], v[7]],
        vec![v[0], v[1], v[5], v[4]],
        vec![v[3], v[7], v[6], v[2]],
        vec![v[1], v[2], v[6], v[5]],
        vec![v[0], v[4], v[7], v[3]],
    ];
    proof {
        assert forall|k: int| 0 <= k < 6 implies (#[trigger] r@[k])@ == box_loops(v@)[k] by {
            assert(r@[k]@ =~= pick(v@, box_index_loops()[k]));
        }
    }
    r
}

impl Mesh {
    /// An axis-aligned box: eight new corner vertices at `corners` (bits
    /// `xyz = 000, 100, 110, 010, 001, 101, 111, 011`), then its six faces
    /// (`box_loops`) with the given normals. Fails only when an arena is
    /// full.
    pub fn box_build(&mut self, corners: &Vec<Vec3Bits>, normals: &Vec<Vec3Bits>, material: MaterialId) -> (res: Result<
        (Vec<VertId>, Vec<FaceId>),
        MeshError,
    >)
        requires
            old(self).wf(),
            corners@.len() == 8,
            normals@.len() == 6,
        ensures
            final(self).wf(),
            extends(old(self), final(self)),
            match res {
                Ok((vs, fs)) => {
                    &&& copies_at(final(self), vs@, corners@, old(self).nv())
                    &&& closed_surface(box_loops(vs@))
                    &&& fs@.len() == 6
                    &&& forall|k: int| 0 <= k < 6 ==> old(self).nf() <= (#[trigger] fs@[k]).id && face_is(
                        final(self),
                        fs@[k],
                        box_loops(vs@)[k],
                        Seq::empty(),
                        normals@[k],
                        material,
                    )
                },
                Err(e) => e == MeshError::Capacity,
            },
            has_room(old(self), 8, 24, 6) ==> res is Ok,
    {
        let ghost m0 = *self;
        let vs = self.add_vertices(corners)?;
        let ghost m1 = *self;
        assert(copies_at(&m1, vs@, corners@, m0.nv() as int));
        let loops = box_loop_vecs(&vs);
        proof {
            lemma_box_indices();
            assert forall|k: int| 0 <= k < loops@.len() implies loop_verts_ok(&m1, (#[trigger] loops@[k])@) by {
                lemma_pick_ok(&m1, vs@, corners@, m0.nv() as int, box_index_loops()[k]);
            }
            assert forall|k: int| 0 <= k < loops_view(loops@).len() implies (#[trigger] loops_view(loops@)[k]).len() == 4 by {
                assert(loops_view(loops@)[k] == loops@[k]@);
            }
            crate::ring::lemma_total_len_uniform(loops_view(loops@), 4);
        }
        let fs = match self.add_faces_in_order(&loops, normals, material) {
            Ok(fs) => fs,
            Err(e) => {
                proof {
                    lemma_extends_trans(&m0, &m1, self);
                }
                return Err(e);
            },
        };
        proof {
            lemma_extends_trans(&m0, &m1, self);
            lemma_copies_kept(&m1, self, vs@, corners@, m0.nv() as int);
            lemma_copy_distinct(self, vs@, corners@, m0.nv() as int);
            lemma_box_closed(vs@);
        }
        Ok((vs, fs))
    }
}

/// The faces of a prism on a ring of `n` have `6n` corners in all.
proof fn lemma_cylinder_total(b: Seq<VertId>, t: Seq<VertId>)
    requires
        t.len() == b.len(),
    ensures
        total_len(cylinder_loops(b, t)) == 6 * b.len(),
{
    let caps = seq![b.reverse(), t];
    let walls = Seq::new(b.len(), |i: int| wall_quad(b, t, i));
    crate::ring::lemma_total_len_concat(caps, walls);
    let one = seq![b.reverse()];
    assert(caps.drop_last() =~= one);
    assert(one.drop_last() =~= Seq::<Seq<VertId>>::empty());
    assert(total_len(Seq::<Seq<VertId>>::empty()) == 0);
    assert(total_len(one) == b.len());
    assert(total_len(caps) == total_len(one) + t.len());
    crate::ring::lemma_total_len_uniform(walls, 4);
    assert(cylinder_loops(b, t) == caps + walls);
}

/// The faces of a prism on bottom ring `b` and top ring `t`: the bottom
/// (reversed, to face away from the top), the top, then the wall on each
/// edge of the bottom ring.
pub open spec fn cylinder_loops(b: Seq<VertId>, t: Seq<VertId>) -> Seq<Seq<VertId>> {
    seq![b.reverse(), t] + Seq::new(b.len(), |i: int| wall_quad(b, t, i))
}

/// A copy is a sequence without repeats.
proof fn lemma_copy_distinct(m: &Mesh, vs: Seq<VertId>, pos: Seq<Vec3Bits>, nv0: int)
    requires
        copies_at(m, vs, pos, nv0),
    ensures
        vs.no_duplicates(),
        vs.reverse().no_duplicates(),
        forall|i: int| 0 <= i < vs.len() ==> (#[trigger] vs[i]).id < m.nv() && m.verts@[vs[i].id as int].active,
        forall|i: int| 0 <= i < vs.len() ==> (#[trigger] vs.reverse()[i]).id < m.nv() && m.verts@[vs.reverse()[i].id as int].active,
{
    assert forall|a: int, b: int| 0 <= a < vs.len() && 0 <= b < vs.len() && a != b implies vs[a] != vs[b] by {
        if a < b {
            assert(vs[a].id < vs[b].id);
        } else {
            assert(vs[b].id < vs[a].id);
        }
    }
    let r = vs.reverse();
    assert forall|a: int, b: int| 0 <= a < r.len() && 0 <= b < r.len() && a != b implies r[a] != r[b] by {
        assert(r[a] == vs[vs.len() - 1 - a]);
        assert(r[b] == vs[vs.len() - 1 - b]);
    }
    assert forall|i: int| 0 <= i < vs.len() implies (#[trigger] r[i]).id < m.nv() && m.verts@[r[i].id as int].active by {
        assert(r[i] == vs[vs.len() - 1 - i]);
    }
}

impl Mesh {
    /// A prism (the polygonal cylinder): a bottom ring of new vertices at
    /// `bottom`, a top ring at `top`, then the faces of `cylinder_loops`
    /// with the given normals. With fewer than three ring vertices the
    /// bottom face is refused (the vertices stay); otherwise it fails only
    /// when an arena is full.
    pub fn cylinder_build(&mut self, bottom: &Vec<Vec3Bits>, top: &Vec<Vec3Bits>, normals: &Vec<Vec3Bits>, material: MaterialId) -> (res:
        Result<(Vec<VertId>, Vec<VertId>, Vec<FaceId>), MeshError>)
        requires
            old(self).wf(),
            top@.len() == bottom@.len(),
            normals@.len() == bottom@.len() + 2,
        ensures
            final(self).wf(),
            extends(old(self), final(self)),
            bottom@.len() < 3 ==> res is Err,
            bottom@.len() >= 3 && has_room(old(self), 2 * bottom@.len() as int, 6 * bottom@.len() as int, bottom@.len() + 2int) ==> res is Ok,
            match res {
                Ok((b, t, fs)) => {
                    &&& copies_at(final(self), b@, bottom@, old(self).nv())
                    &&& copies_at(final(self), t@, top@, old(self).nv() + bottom@.len())
                    &&& closed_surface(cylinder_loops(b@, t@))
                    &&& fs@.len() == bottom@.len() + 2
                    &&& forall|k: int| 0 <= k < fs@.len() ==> old(self).nf() <= (#[trigger] fs@[k]).id && face_is(
                        final(self),
                        fs@[k],
                        cylinder_loops(b@, t@)[k],
                        Seq::empty(),
                        normals@[k],
                        material,
                    )
                },
                Err(e) => bottom@.len() >= 3 ==> e == MeshError::Capacity,
            },
    {
        let ghost m0 = *self;
        let b = self.add_vertices(bottom)?;
        let ghost m1 = *self;
        let t = match self.add_vertices(top) {
            Ok(t) => t,
            Err(e) => {
                proof {
                    lemma_extends_trans(&m0, &m1, self);
                }
                return Err(e);
            },
        };
        let ghost m2 = *self;
        proof {
            lemma_extends_trans(&m0, &m1, self);
            assert(copies_at(&m1, b@, bottom@, m0.nv() as int));
            lemma_copies_kept(&m1, self, b@, bottom@, m0.nv() as int);
            assert(copies_at(self, t@, top@, m1.nv() as int));
        }
        let n = b.len();
        let mut loops: Vec<Vec<VertId>> = Vec::new();
        let mut rb: Vec<VertId> = Vec::new();
        let mut i: usize = n;
        while i > 0
            invariant
                0 <= i <= n,
                n == b@.len(),
                rb@ == b@.reverse().subrange(0, (n - i) as int),
            decreases i,
        {
            i = i - 1;
            rb.push(b[i]);
            assert(rb@ =~= b@.reverse().subrange(0, (n - i) as int));
        }
        loops.push(rb);
        loops.push(t.clone());
        let mut k: usize = 0;
        while k < n
            invariant
                n == b@.len(),
                t@.len() == n,
                0 <= k <= n,
                loops@.len() == k + 2,
                forall|q: int| 0 <= q < k + 2 ==> (#[trigger] loops@[q])@ == cylinder_loops(b@, t@)[q],
            decreases n - k,
        {
            let j = if k + 1 == n { 0 } else { k + 1 };
            proof {
                crate::extrude::lemma_next_index(k as int, n as int);
            }
            let quad = vec![b[k], b[j], t[j], t[k]];
            assert(quad@ =~= wall_quad(b@, t@, k as int));
            loops.push(quad);
            k = k + 1;
        }
        proof {
            if n >= 3 {
                lemma_copy_distinct(self, b@, bottom@, m0.nv() as int);
                lemma_copy_distinct(self, t@, top@, m1.nv() as int);
                assert forall|x: int, y: int| 0 <= x < b@.len() && 0 <= y < t@.len() implies #[trigger] b@[x] != #[trigger] t@[y] by {
                    assert(b@[x].id < m1.nv());
                }
                lemma_prism_closed(b@, t@);
                lemma_distinct_loop_ok(self, b@.reverse());
                lemma_distinct_loop_ok(self, t@);
                assert(fresh_over(self, b@, t@)) by {
                    lemma_distinct_loop_ok(self, b@);
                }
                assert forall|q: int| 0 <= q < loops@.len() implies loop_verts_ok(self, (#[trigger] loops@[q])@) by {
                    if q >= 2 {
                        lemma_wall_quad_ok(self, b@, t@, q - 2);
                    }
                }
                assert(loops_view(loops@) =~= cylinder_loops(b@, t@)) by {
                    assert forall|q: int| 0 <= q < loops@.len() implies #[trigger] loops_view(loops@)[q] == cylinder_loops(b@, t@)[q] by {
                        assert(loops_view(loops@)[q] == loops@[q]@);
                    }
                }
                lemma_cylinder_total(b@, t@);
            } else {
                assert(!loop_verts_ok(self, loops@[0]@));
            }
        }
        let fs = match self.add_faces_in_order(&loops, normals, material) {
            Ok(fs) => fs,
            Err(e) => {
                proof {
                    lemma_extends_trans(&m0, &m2, self);
                }
                return Err(e);
            },
        };
        proof {
            lemma_extends_trans(&m0, &m2, self);
            lemma_copies_kept(&m2, self, b@, bottom@, m0.nv() as int);
            lemma_copies_kept(&m2, self, t@, top@, m1.nv() as int);
            assert forall|k: int| 0 <= k < fs@.len() implies old(self).nf() <= (#[trigger] fs@[k]).id && face_is(
                self,
                fs@[k],
                cylinder_loops(b@, t@)[k],
                Seq::empty(),
                normals@[k],
                material,
            ) by {
                assert(loops@[k]@ == cylinder_loops(b@, t@)[k]);
            }
        }
        Ok((b, t, fs))
    }
}

/// The faces of a cone on apex `a` and base ring `b`: the base (reversed,
/// to face away from the apex), then the triangle `a, b[i + 1], b[i]` on
/// each edge of the base ring.
pub open spec fn cone_loops(a: VertId, b: Seq<VertId>) -> Seq<Seq<VertId>> {
    seq![b.reverse()] + Seq::new(b.len(), |i: int| seq![a, b[(i + 1) % (b.len() as int)], b[i]])
}

/// The faces of a cone on a ring of `n` have `4n` corners in all.
proof fn lemma_cone_total(a: VertId, b: Seq<VertId>)
    ensures
        total_len(cone_loops(a, b)) == 4 * b.len(),
{
    let cap = seq![b.reverse()];
    let tris = Seq::new(b.len(), |i: int| seq![a, b[(i + 1) % (b.len() as int)], b[i]]);
    crate::ring::lemma_total_len_concat(cap, tris);
    assert(cap.drop_last() =~= Seq::<Seq<VertId>>::empty());
    assert(total_len(Seq::<Seq<VertId>>::empty()) == 0);
    assert(total_len(cap) == b.len());
    crate::ring::lemma_total_len_uniform(tris, 3);
    assert(cone_loops(a, b) == cap + tris);
}

impl Mesh {
    /// A cone: a new apex vertex at `apex`, a base ring of new vertices at
    /// `base`, then the faces of `cone_loops` with the given normals. Fails
    /// with `Degenerate`, leaving the mesh unchanged, when the base ring has
    /// fewer than three vertices; otherwise only when an arena is full.
    #[verifier::spinoff_prover]
    pub fn cone_build(&mut self, apex: Vec3Bits, base: &Vec<Vec3Bits>, normals: &Vec<Vec3Bits>, material: MaterialId) -> (res: Result<
        (VertId, Vec<VertId>, Vec<FaceId>),
        MeshError,
    >)
        requires
            old(self).wf(),
            normals@.len() == base@.len() + 1,
        ensures
            final(self).wf(),
            extends(old(self), final(self)),
            base@.len() < 3 ==> res == Err::<(VertId, Vec<VertId>, Vec<FaceId>), MeshError>(MeshError::Degenerate)
                && *final(self) == *old(self),
            base@.len() >= 3 && has_room(old(self), base@.len() + 1int, 4 * base@.len() as int, base@.len() + 1int) ==> res is Ok,
            match res {
                Ok((a, b, fs)) => {
                    &&& a.id == old(self).nv()
                    &&& final(self).verts@[a.id as int] == (crate::mesh::Vertex { pos: apex, active: true })
                    &&& copies_at(final(self), b@, base@, old(self).nv() + 1)
                    &&& fs@.len() == base@.len() + 1
                    &&& forall|k: int| 0 <= k < fs@.len() ==> old(self).nf() <= (#[trigger] fs@[k]).id && face_is(
                        final(self),
                        fs@[k],
                        cone_loops(a, b@)[k],
                        Seq::empty(),
                        normals@[k],
                        material,
                    )
                },
                Err(e) => e == (if base@.len() < 3 {
                    MeshError::Degenerate
                } else {
                    MeshError::Capacity
                }),
            },
    {
        let ghost m0 = *self;
        if base.len() < 3 {
            proof {
                lemma_extends_refl(self);
            }
            return Err(MeshError::Degenerate);
        }
        let a = match self.add_vertex(apex) {
            Ok(a) => a,
            Err(e) => {
                proof {
                    lemma_extends_refl(&m0);
                    assert(self.verts@.subrange(0, m0.nv()) =~= m0.verts@);
                }
                return Err(e);
            },
        };
        let ghost m1 = *self;
        proof {
            assert(self.verts@.subrange(0, m0.nv()) =~= m0.verts@);
            assert(self.faces@.subrange(0, m0.nf()) =~= m0.faces@);
        }
        let b = match self.add_vertices(base) {
            Ok(b) => b,
            Err(e) => {
                proof {
                    lemma_extends_trans(&m0, &m1, self);
                }
                return Err(e);
            },
        };
        let ghost m2 = *self;
        proof {
            lemma_extends_trans(&m0, &m1, self);
            assert(copies_at(self, b@, base@, m1.nv() as int));
        }
        let n = b.len();
        let mut loops: Vec<Vec<VertId>> = Vec::new();
        let mut rb: Vec<VertId> = Vec::new();
        let mut i: usize = n;
        while i > 0
            invariant
                0 <= i <= n,
                n == b@.len(),
                rb@ == b@.reverse().subrange(0, (n - i) as int),
            decreases i,
        {
            i = i - 1;
            rb.push(b[i]);
            assert(rb@ =~= b@.reverse().subrange(0, (n - i) as int));
        }
        loops.push(rb);
        let mut k: usize = 0;
        while k < n
            invariant
                n == b@.len(),
                0 <= k <= n,
                loops@.len() == k + 1,
                forall|q: int| 0 <= q < k + 1 ==> (#[trigger] loops@[q])@ == cone_loops(a, b@)[q],
            decreases n - k,
        {
            let j = if k + 1 == n { 0 } else { k + 1 };
            proof {
                crate::extrude::lemma_next_index(k as int, n as int);
            }
            let tri = vec![a, b[j], b[k]];
            assert(tri@ =~= cone_loops(a, b@)[k + 1]);
            loops.push(tri);
            k = k + 1;
        }
        proof {
            lemma_copy_distinct(self, b@, base@, m1.nv() as int);
            lemma_distinct_loop_ok(self, b@.reverse());
            assert(self.verts@.subrange(0, m1.nv())[a.id as int] == m1.verts@[a.id as int]);
            assert forall|q: int| 1 <= q < loops@.len() implies loop_verts_ok(self, (#[trigger] loops@[q])@) by {
                let i = q - 1;
                let j = (i + 1) % (n as int);
                crate::extrude::lemma_next_index(i, n as int);
                let l = seq![a, b@[j], b@[i]];
                assert(loops@[q]@ == l);
                assert(b@[j] != b@[i]);
                assert(a.id < b@[j].id && a.id < b@[i].id);
                assert forall|x: int, y: int| 0 <= x < 3 && 0 <= y < 3 && x != y implies l[x] != l[y] by {
                }
                lemma_distinct_loop_ok(self, l);
            }
            assert(loops_view(loops@) =~= cone_loops(a, b@)) by {
                assert forall|q: int| 0 <= q < loops@.len() implies #[trigger] loops_view(loops@)[q] == cone_loops(a, b@)[q] by {
                    assert(loops_view(loops@)[q] == loops@[q]@);
                }
            }
            lemma_cone_total(a, b@);
        }
        let fs = match self.add_faces_in_order(&loops, normals, material) {
            Ok(fs) => fs,
            Err(e) => {
                proof {
                    lemma_extends_trans(&m0, &m2, self);
                }
                return Err(e);
            },
        };
        proof {
            lemma_extends_trans(&m0, &m2, self);
            lemma_copies_kept(&m2, self, b@, base@, m1.nv() as int);
            assert(self.verts@.subrange(0, m2.nv())[a.id as int] == m2.verts@[a.id as int]);
            assert(m2.verts@.subrange(0, m1.nv())[a.id as int] == m1.verts@[a.id as int]);
            assert forall|k: int| 0 <= k < fs@.len() implies old(self).nf() <= (#[trigger] fs@[k]).id && face_is(
                self,
                fs@[k],
                cone_loops(a, b@)[k],
                Seq::empty(),
                normals@[k],
                material,
            ) by {
                assert(loops@[k]@ == cone_loops(a, b@)[k]);
            }
        }
        Ok((a, b, fs))
    }
}

/// The north cap of a sphere: the triangle `n, r[u], r[u + 1]` for each `u`.
pub open spec fn north_fan(n: VertId, r: Seq<VertId>, nu: int) -> Seq<Seq<VertId>> {
    Seq::new(nu as nat, |u: int| seq![n, r[u], r[(u + 1) % nu]])
}

/// The south cap of a sphere: the triangle `r[u + 1], r[u], s` for each `u`.
pub open spec fn south_fan(s: VertId, r: Seq<VertId>, nu: int) -> Seq<Seq<VertId>> {
    Seq::new(nu as nat, |u: int| seq![r[(u + 1) % nu], r[u], s])
}

/// The quad between rings `v` and `v + 1` at column `u`.
pub open spec fn strip_quad(g: Seq<Seq<VertId>>, nu: int, v: int, u: int) -> Seq<VertId> {
    seq![g[v][u], g[v + 1][u], g[v + 1][(u + 1) % nu], g[v][(u + 1) % nu]]
}

/// The quads between the first `v + 1` rings, ring by ring.
pub open spec fn strips(g: Seq<Seq<VertId>>, nu: int, v: int) -> Seq<Seq<VertId>>
    decreases v,
{
    if v <= 0 {
        Seq::empty()
    } else {
        strips(g, nu, v - 1) + Seq::new(nu as nat, |u: int| strip_quad(g, nu, v - 1, u))
    }
}

/// The faces of a sphere with poles `n`, `s` and latitude rings `g`: the
/// north cap, the quad strips from north to south, the south cap.
pub open spec fn sphere_loops(n: VertId, s: VertId, g: Seq<Seq<VertId>>, nu: int) -> Seq<Seq<VertId>> {
    north_fan(n, g[0], nu) + strips(g, nu, g.len() - 1) + south_fan(s, g[g.len() - 1], nu)
}

/// Every vertex of an earlier ring comes before every vertex of a later one.
pub open spec fn rings_ordered(g: Seq<Seq<VertId>>) -> bool {
    forall|k1: int, k2: int, i1: int, i2: int|
        0 <= k1 < k2 < g.len() && 0 <= i1 < g[k1].len() && 0 <= i2 < g[k2].len() ==> (#[trigger] g[k1][i1]).id < (
        #[trigger] g[k2][i2]).id
}

/// Different places of ordered rings, each increasing, hold different
/// vertices.
proof fn lemma_rings_distinct(g: Seq<Seq<VertId>>, k1: int, i1: int, k2: int, i2: int)
    requires
        rings_ordered(g),
        forall|k: int, i: int, j: int| 0 <= k < g.len() && 0 <= i < j < g[k].len() ==> (#[trigger] g[k][i]).id < (#[trigger] g[k][j]).id,
        0 <= k1 < g.len(),
        0 <= k2 < g.len(),
        0 <= i1 < g[k1].len(),
        0 <= i2 < g[k2].len(),
        k1 != k2 || i1 != i2,
    ensures
        g[k1][i1] != g[k2][i2],
{
    if k1 < k2 {
        assert(g[k1][i1].id < g[k2][i2].id);
    } else if k2 < k1 {
        assert(g[k2][i2].id < g[k1][i1].id);
    } else if i1 < i2 {
        assert(g[k1][i1].id < g[k1][i2].id);
    } else {
        assert(g[k1][i2].id < g[k1][i1].id);
    }
}

/// `a` followed by `b`.
fn concat_loops(a: Vec<Vec<VertId>>, b: &Vec<Vec<VertId>>) -> (r: Vec<Vec<VertId>>)
    ensures
        loops_view(r@) == loops_view(a@) + loops_view(b@),
{
    let mut r = a;
    let ghost a0 = loops_view(r@);
    let mut i: usize = 0;
    while i < b.len()
        invariant
            0 <= i <= b@.len(),
            loops_view(r@) == a0 + loops_view(b@).subrange(0, i as int),
        decreases b@.len() - i,
    {
        let ghost pre = loops_view(r@);
        r.push(b[i].clone());
        proof {
            assert(loops_view(r@) =~= pre.push(b@[i as int]@));
            assert(loops_view(b@).subrange(0, i as int + 1) =~= loops_view(b@).subrange(0, i as int).push(b@[i as int]@));
        }
        i = i + 1;
    }
    assert(loops_view(b@).subrange(0, b@.len() as int) =~= loops_view(b@));
    r
}

/// The triangles of a polar cap: `p, r[u], r[u + 1]` (north) or
/// `r[u + 1], r[u], p` (south) for each `u`.
fn fan_vecs(p: VertId, r: &Vec<VertId>, north: bool) -> (out: Vec<Vec<VertId>>)
    requires
        r@.len() >= 1,
    ensures
        loops_view(out@) == if north {
            north_fan(p, r@, r@.len() as int)
        } else {
            south_fan(p, r@, r@.len() as int)
        },
{
    let nu = r.len();
    let ghost want = if north {
        north_fan(p, r@, nu as int)
    } else {
        south_fan(p, r@, nu as int)
    };
    let mut out: Vec<Vec<VertId>> = Vec::new();
    let mut u: usize = 0;
    while u < nu
        invariant
            nu == r@.len(),
            nu >= 1,
            want == (if north {
                north_fan(p, r@, nu as int)
            } else {
                south_fan(p, r@, nu as int)
            }),
            0 <= u <= nu,
            loops_view(out@) == want.subrange(0, u as int),
        decreases nu - u,
    {
        let u1 = if u + 1 == nu { 0 } else { u + 1 };
        proof {
            crate::extrude::lemma_next_index(u as int, nu as int);
        }
        let l = if north {
            vec![p, r[u], r[u1]]
        } else {
            vec![r[u1], r[u], p]
        };
        let ghost pre = loops_view(out@);
        out.push(l);
        proof {
            assert(l@ =~= want[u as int]);
            assert(loops_view(out@) =~= pre.push(l@));
            assert(want.subrange(0, u as int + 1) =~= want.subrange(0, u as int).push(want[u as int]));
        }
        u = u + 1;
    }
    assert(want.subrange(0, nu as int) =~= want);
    out
}

/// The quad strips between consecutive rings, ring by ring.
fn strips_vecs(rows: &Vec<Vec<VertId>>, nu: usize) -> (out: Vec<Vec<VertId>>)
    requires
        rows@.len() >= 1,
        nu >= 1,
        forall|k: int| 0 <= k < rows@.len() ==> (#[trigger] rows@[k])@.len() == nu,
    ensures
        loops_view(out@) == strips(loops_view(rows@), nu as int, rows@.len() - 1),
{
    let ghost g = loops_view(rows@);
    let nr = rows.len();
    let mut out: Vec<Vec<VertId>> = Vec::new();
    let mut v: usize = 0;
    while v + 1 < nr
        invariant
            nr == rows@.len(),
            g == loops_view(rows@),
            rows@.len() >= 1,
            nu >= 1,
            forall|k: int| 0 <= k < rows@.len() ==> (#[trigger] rows@[k])@.len() == nu,
            0 <= v < rows@.len(),
            loops_view(out@) == strips(g, nu as int, v as int),
        decreases rows@.len() - v,
    {
        let ghost before = loops_view(out@);
        let mut u: usize = 0;
        while u < nu
            invariant
                nr == rows@.len(),
                g == loops_view(rows@),
                nu >= 1,
                forall|k: int| 0 <= k < rows@.len() ==> (#[trigger] rows@[k])@.len() == nu,
                0 <= v,
                v + 1 < rows@.len(),
                0 <= u <= nu,
                before == strips(g, nu as int, v as int),
                loops_view(out@) == before + Seq::new(u as nat, |w: int| strip_quad(g, nu as int, v as int, w)),
            decreases nu - u,
        {
            let u1 = if u + 1 == nu { 0 } else { u + 1 };
            proof {
                crate::extrude::lemma_next_index(u as int, nu as int);
                assert(rows@[v as int]@.len() == nu && rows@[v + 1]@.len() == nu);
            }
            let q = vec![rows[v][u], rows[v + 1][u], rows[v + 1][u1], rows[v][u1]];
            let ghost pre = loops_view(out@);
            out.push(q);
            proof {
                assert(g[v as int] == rows@[v as int]@ && g[v + 1] == rows@[v + 1]@);
                assert(q@ =~= strip_quad(g, nu as int, v as int, u as int));
                assert(loops_view(out@) =~= pre.push(q@));
                assert(Seq::new((u + 1) as nat, |w: int| strip_quad(g, nu as int, v as int, w)) =~= Seq::new(
                    u as nat,
                    |w: int| strip_quad(g, nu as int, v as int, w),
                ).push(strip_quad(g, nu as int, v as int, u as int)));
            }
            u = u + 1;
        }
        v = v + 1;
    }
    out
}

/// Latitude rings `g` of `nu` vertices each are new (after `lo`), increasing
/// along each ring and from ring to ring, and sit active at `pos`.
pub open spec fn rings_at(m: &Mesh, g: Seq<Seq<VertId>>, pos: Seq<Seq<Vec3Bits>>, lo: int, nu: int) -> bool {
    &&& g.len() <= pos.len()
    &&& forall|k: int| 0 <= k < g.len() ==> copies_at(m, #[trigger] g[k], pos[k], lo)
    &&& forall|k: int| 0 <= k < g.len() ==> (#[trigger] g[k]).len() == nu
    &&& rings_ordered(g)
}

/// Rings stay where they were put while the mesh is only added to.
proof fn lemma_rings_kept(m0: &Mesh, m1: &Mesh, g: Seq<Seq<VertId>>, pos: Seq<Seq<Vec3Bits>>, lo: int, nu: int)
    requires
        rings_at(m0, g, pos, lo, nu),
        extends(m0, m1),
    ensures
        rings_at(m1, g, pos, lo, nu),
{
    assert forall|k: int| 0 <= k < g.len() implies copies_at(m1, #[trigger] g[k], pos[k], lo) by {
        lemma_copies_kept(m0, m1, g[k], pos[k], lo);
    }
}

/// Every face of a sphere on valid rings is a valid loop.
proof fn lemma_sphere_loops_ok(m: &Mesh, n: VertId, s: VertId, g: Seq<Seq<VertId>>, pos: Seq<Seq<Vec3Bits>>, lo: int, nu: int)
    requires
        rings_at(m, g, pos, lo, nu),
        g.len() >= 1,
        nu >= 3,
        n.id < s.id < lo,
        m.verts@[n.id as int].active,
        m.verts@[s.id as int].active,
    ensures
        forall|j: int| 0 <= j < sphere_loops(n, s, g, nu).len() ==> loop_verts_ok(m, #[trigger] sphere_loops(n, s, g, nu)[j]),
{
    let nf = north_fan(n, g[0], nu);
    let st = strips(g, nu, g.len() - 1);
    let sf = south_fan(s, g[g.len() - 1], nu);
    assert forall|k: int, i: int, j: int| 0 <= k < g.len() && 0 <= i < j < g[k].len() implies (#[trigger] g[k][i]).id < (
    #[trigger] g[k][j]).id by {
        assert(copies_at(m, g[k], pos[k], lo));
    }
    assert forall|k: int, i: int| 0 <= k < g.len() && 0 <= i < nu implies lo <= (#[trigger] g[k][i]).id < m.nv() && m.verts@[g[k][i].id as int].active by {
        assert(copies_at(m, g[k], pos[k], lo));
    }
    lemma_strips_len(g, nu, g.len() - 1);
    assert forall|j: int| 0 <= j < sphere_loops(n, s, g, nu).len() implies loop_verts_ok(m, #[trigger] sphere_loops(n, s, g, nu)[j]) by {
        let l = sphere_loops(n, s, g, nu)[j];
        if j < nu {
            let u = j;
            let u1 = (u + 1) % nu;
            crate::extrude::lemma_next_index(u, nu);
            assert(l == nf[j]);
            lemma_rings_distinct(g, 0, u, 0, u1);
            assert forall|x: int, y: int| 0 <= x < 3 && 0 <= y < 3 && x != y implies l[x] != l[y] by {
            }
            lemma_distinct_loop_ok(m, l);
        } else if j < nu + st.len() {
            let (v, u) = lemma_strips_index(g, nu, g.len() - 1, j - nu);
            let u1 = (u + 1) % nu;
            crate::extrude::lemma_next_index(u, nu);
            assert(l == st[j - nu]);
            assert(l == strip_quad(g, nu, v, u));
            lemma_rings_distinct(g, v, u, v + 1, u);
            lemma_rings_distinct(g, v, u, v + 1, u1);
            lemma_rings_distinct(g, v, u, v, u1);
            lemma_rings_distinct(g, v + 1, u, v + 1, u1);
            lemma_rings_distinct(g, v + 1, u, v, u1);
            lemma_rings_distinct(g, v + 1, u1, v, u1);
            assert forall|x: int, y: int| 0 <= x < 4 && 0 <= y < 4 && x != y implies l[x] != l[y] by {
            }
            lemma_distinct_loop_ok(m, l);
        } else {
            let u = j - nu - st.len();
            let u1 = (u + 1) % nu;
            crate::extrude::lemma_next_index(u, nu);
            let last = g.len() - 1;
            assert(l == sf[u]);
            lemma_rings_distinct(g, last, u, last, u1);
            assert forall|x: int, y: int| 0 <= x < 3 && 0 <= y < 3 && x != y implies l[x] != l[y] by {
            }
            lemma_distinct_loop_ok(m, l);
        }
    }
}

/// The strips of the first `v + 1` rings hold `v * nu` quads.
proof fn lemma_strips_len(g: Seq<Seq<VertId>>, nu: int, v: int)
    requires
        nu >= 0,
        v >= 0,
    ensures
        strips(g, nu, v).len() == v * nu,
    decreases v,
{
    if v > 0 {
        lemma_strips_len(g, nu, v - 1);
        let row = Seq::new(nu as nat, |u: int| strip_quad(g, nu, v - 1, u));
        assert(strips(g, nu, v) == strips(g, nu, v - 1) + row);
        assert(row.len() == nu);
        assert((v - 1) * nu + nu == v * nu) by (nonlinear_arith);
    } else {
        assert(v * nu == 0) by (nonlinear_arith)
            requires
                v == 0,
        ;
    }
}

/// Quad `j` of the strips is the quad of some ring `r < v` and column `u`.
proof fn lemma_strips_index(g: Seq<Seq<VertId>>, nu: int, v: int, j: int) -> (ru: (int, int))
    requires
        nu >= 1,
        v >= 0,
        0 <= j < strips(g, nu, v).len(),
    ensures
        0 <= ru.0 < v,
        0 <= ru.1 < nu,
        strips(g, nu, v)[j] == strip_quad(g, nu, ru.0, ru.1),
    decreases v,
{
    lemma_strips_len(g, nu, v);
    lemma_strips_len(g, nu, v - 1);
    if j < strips(g, nu, v - 1).len() {
        let (r, u) = lemma_strips_index(g, nu, v - 1, j);
        (r, u)
    } else {
        (v - 1, j - strips(g, nu, v - 1).len())
    }
}

/// The strips between the first `v + 1` rings have `4 v nu` corners in all.
proof fn lemma_strips_total(g: Seq<Seq<VertId>>, nu: int, v: int)
    requires
        nu >= 0,
        v >= 0,
    ensures
        total_len(strips(g, nu, v)) == 4 * v * nu,
    decreases v,
{
    if v > 0 {
        lemma_strips_total(g, nu, v - 1);
        let row = Seq::new(nu as nat, |u: int| strip_quad(g, nu, v - 1, u));
        assert(strips(g, nu, v) == strips(g, nu, v - 1) + row);
        crate::ring::lemma_total_len_concat(strips(g, nu, v - 1), row);
        crate::ring::lemma_total_len_uniform(row, 4);
        assert(4 * (v - 1) * nu + 4 * nu == 4 * v * nu) by (nonlinear_arith);
    } else {
        assert(strips(g, nu, v) =~= Seq::<Seq<VertId>>::empty());
        assert(4 * v * nu == 0) by (nonlinear_arith)
            requires
                v == 0,
        ;
    }
}

/// The faces of a sphere on `R` rings of `nu` have `(4R + 2) nu` corners
/// in all.
proof fn lemma_sphere_total(n: VertId, s: VertId, g: Seq<Seq<VertId>>, nu: int)
    requires
        nu >= 0,
        g.len() >= 1,
    ensures
        total_len(sphere_loops(n, s, g, nu)) == (4 * g.len() + 2) * nu,
{
    let nf = north_fan(n, g[0], nu);
    let st = strips(g, nu, g.len() - 1);
    let sf = south_fan(s, g[g.len() - 1], nu);
    crate::ring::lemma_total_len_concat(nf, st);
    crate::ring::lemma_total_len_concat(nf + st, sf);
    crate::ring::lemma_total_len_uniform(nf, 3);
    crate::ring::lemma_total_len_uniform(sf, 3);
    lemma_strips_total(g, nu, g.len() - 1);
    let r = g.len() as int;
    assert(3 * nu + 4 * (r - 1) * nu + 3 * nu == (4 * r + 2) * nu) by (nonlinear_arith);
}

impl Mesh {
    /// A sphere: a new north pole at `north`, a south pole at `south`, a ring
    /// of `nu` new vertices at each entry of `rings` (north to south), then
    /// the faces of `sphere_loops` with the given normals. Fails with
    /// `Degenerate`, leaving the mesh unchanged, without a ring or with
    /// fewer than three vertices per ring; otherwise only when an arena is
    /// full.
    #[verifier::spinoff_prover]
    #[verifier::rlimit(100)]
    pub fn sphere_build(
        &mut self,
        north: Vec3Bits,
        south: Vec3Bits,
        rings: &Vec<Vec<Vec3Bits>>,
        nu: usize,
        normals: &Vec<Vec3Bits>,
        material: MaterialId,
    ) -> (res: Result<(VertId, VertId, Vec<Vec<VertId>>, Vec<FaceId>), MeshError>)
        requires
            old(self).wf(),
            forall|k: int| 0 <= k < rings@.len() ==> (#[trigger] rings@[k])@.len() == nu,
            rings@.len() >= 1 && nu >= 3 ==> normals@.len() == (rings@.len() + 1) * nu,
        ensures
            final(self).wf(),
            extends(old(self), final(self)),
            rings@.len() < 1 || nu < 3 ==> res == Err::<(VertId, VertId, Vec<Vec<VertId>>, Vec<FaceId>), MeshError>(
                MeshError::Degenerate,
            ) && *final(self) == *old(self),
            rings@.len() >= 1 && nu >= 3 && has_room(
                old(self),
                2 + rings@.len() * nu,
                (4 * rings@.len() + 2) * nu,
                (rings@.len() + 1) * nu,
            ) ==> res is Ok,
            match res {
                Ok((n, s, g, fs)) => {
                    &&& n.id == old(self).nv()
                    &&& s.id == old(self).nv() + 1
                    &&& final(self).verts@[n.id as int] == (Vertex { pos: north, active: true })
                    &&& final(self).verts@[s.id as int] == (Vertex { pos: south, active: true })
                    &&& g@.len() == rings@.len()
                    &&& rings_at(final(self), loops_view(g@), rings@.map_values(|r: Vec<Vec3Bits>| r@), old(self).nv() + 2, nu as int)
                    &&& closed_surface(sphere_loops(n, s, loops_view(g@), nu as int))
                    &&& fs@.len() == sphere_loops(n, s, loops_view(g@), nu as int).len()
                    &&& forall|k: int| 0 <= k < fs@.len() ==> old(self).nf() <= (#[trigger] fs@[k]).id && face_is(
                        final(self),
                        fs@[k],
                        sphere_loops(n, s, loops_view(g@), nu as int)[k],
                        Seq::empty(),
                        normals@[k],
                        material,
                    )
                },
                Err(e) => e == (if rings@.len() < 1 || nu < 3 {
                    MeshError::Degenerate
                } else {
                    MeshError::Capacity
                }),
            },
    {
        let ghost m0 = *self;
        let ghost pv = rings@.map_values(|r: Vec<Vec3Bits>| r@);
        if rings.len() < 1 || nu < 3 {
            proof {
                lemma_extends_refl(self);
            }
            return Err(MeshError::Degenerate);
        }
        let ghost room = has_room(
            &m0,
            2 + rings@.len() * nu,
            (4 * rings@.len() + 2) * nu,
            (rings@.len() + 1) * nu,
        );
        proof {
            assert(rings@.len() * nu >= 0) by (nonlinear_arith)
                requires
                    rings@.len() >= 1,
                    nu >= 3,
            ;
        }
        let mut poles: Vec<Vec3Bits> = Vec::new();
        poles.push(north);
        poles.push(south);
        let ps = self.add_vertices(&poles)?;
        let n = ps[0];
        let s = ps[1];
        let ghost m1 = *self;
        let mut rows: Vec<Vec<VertId>> = Vec::new();
        let mut k: usize = 0;
        while k < rings.len()
            invariant
                self.wf(),
                m0.wf(),
                m0 == *old(self),
                extends(&m0, self),
                pv == rings@.map_values(|r: Vec<Vec3Bits>| r@),
                forall|q: int| 0 <= q < rings@.len() ==> (#[trigger] rings@[q])@.len() == nu,
                rings@.len() >= 1,
                nu >= 3,
                n.id == m0.nv(),
                s.id == m0.nv() + 1,
                self.nv() >= m0.nv() + 2,
                self.verts@[n.id as int] == (Vertex { pos: north, active: true }),
                self.verts@[s.id as int] == (Vertex { pos: south, active: true }),
                0 <= k <= rings@.len(),
                rows@.len() == k,
                rings_at(self, loops_view(rows@), pv, m0.nv() + 2, nu as int),
                self.nv() == m0.nv() + 2 + k * nu,
                self.hes@ == m0.hes@,
                self.edges@ == m0.edges@,
                self.faces@ == m0.faces@,
                room == has_room(&m0, 2 + rings@.len() * nu, (4 * rings@.len() + 2) * nu, (rings@.len() + 1) * nu),
            decreases rings@.len() - k,
        {
            proof {
                assert((k + 1) * nu <= rings@.len() * nu && (k + 1) * nu == k * nu + nu) by (nonlinear_arith)
                    requires
                        k + 1 <= rings@.len(),
                        nu >= 3,
                ;
            }
            let ghost pre = *self;
            let ghost g0 = loops_view(rows@);
            let r = match self.add_vertices(&rings[k]) {
                Ok(r) => r,
                Err(e) => {
                    proof {
                        lemma_extends_trans(&m0, &pre, self);
                    }
                    return Err(e);
                },
            };
            proof {
                lemma_extends_trans(&m0, &pre, self);
                lemma_rings_kept(&pre, self, g0, pv, m0.nv() + 2, nu as int);
                assert(self.verts@.subrange(0, pre.nv())[n.id as int] == pre.verts@[n.id as int]);
                assert(self.verts@.subrange(0, pre.nv())[s.id as int] == pre.verts@[s.id as int]);
                assert(copies_at(self, r@, rings@[k as int]@, pre.nv() as int));
            }
            rows.push(r);
            proof {
                let g1 = loops_view(rows@);
                assert(g1 =~= g0.push(r@));
                assert(pv[k as int] == rings@[k as int]@);
                assert forall|q: int| 0 <= q < g1.len() implies copies_at(self, #[trigger] g1[q], pv[q], m0.nv() + 2) by {
                    if q < k {
                        assert(g1[q] == g0[q]);
                    }
                }
                assert forall|k1: int, k2: int, i1: int, i2: int|
                    0 <= k1 < k2 < g1.len() && 0 <= i1 < g1[k1].len() && 0 <= i2 < g1[k2].len() implies (#[trigger] g1[k1][i1]).id < (
                    #[trigger] g1[k2][i2]).id by {
                    if k2 == k {
                        assert(copies_at(self, g0[k1], pv[k1], m0.nv() + 2));
                        assert(copies_at(&pre, g0[k1], pv[k1], m0.nv() + 2));
                        assert(g0[k1][i1].id < pre.nv());
                    } else {
                        assert(g1[k1] == g0[k1] && g1[k2] == g0[k2]);
                    }
                }
            }
            k = k + 1;
        }
        let ghost m2 = *self;
        let ghost g = loops_view(rows@);
        proof {
            assert forall|q: int| 0 <= q < rows@.len() implies (#[trigger] rows@[q])@.len() == nu by {
                assert(g[q] == rows@[q]@);
            }
        }
        proof {
            let l = seq![seq![n, s]] + g;
            assert forall|k: int, i: int, j: int| 0 <= k < g.len() && 0 <= i < j < g[k].len() implies (#[trigger] g[k][i]).id < (
            #[trigger] g[k][j]).id by {
                assert(copies_at(&m2, g[k], pv[k], m0.nv() + 2));
            }
            assert forall|p: int, x: int, q: int, y: int|
                0 <= p < l.len() && 0 <= x < l[p].len() && 0 <= q < l.len() && 0 <= y < l[q].len() && (p != q || x != y)
                    implies #[trigger] l[p][x] != #[trigger] l[q][y] by {
                assert(l[0] == seq![n, s]);
                if p > 0 {
                    assert(l[p] == g[p - 1]);
                    assert(copies_at(&m2, g[p - 1], pv[p - 1], m0.nv() + 2));
                }
                if q > 0 {
                    assert(l[q] == g[q - 1]);
                    assert(copies_at(&m2, g[q - 1], pv[q - 1], m0.nv() + 2));
                }
                if p > 0 && q > 0 {
                    lemma_rings_distinct(g, p - 1, x, q - 1, y);
                }
            }
            lemma_sphere_closed(n, s, g, nu as int);
        }
        let nf = fan_vecs(n, &rows[0], true);
        let st = strips_vecs(&rows, nu);
        let last = rows.len() - 1;
        let sf = fan_vecs(s, &rows[last], false);
        proof {
            assert(rows@[0]@ == g[0] && rows@[last as int]@ == g[g.len() - 1]);
            assert(g[0].len() == nu && g[last as int].len() == nu);
        }
        let loops = concat_loops(concat_loops(nf, &st), &sf);
        proof {
            assert(loops_view(loops@) =~= sphere_loops(n, s, g, nu as int));
            lemma_sphere_loops_ok(self, n, s, g, pv, m0.nv() + 2, nu as int);
            lemma_strips_len(g, nu as int, g.len() - 1);
            assert((g.len() - 1) * nu + 2 * nu == (rings@.len() + 1) * nu) by (nonlinear_arith)
                requires
                    g.len() == rings@.len(),
            ;
            assert forall|q: int| 0 <= q < loops@.len() implies loop_verts_ok(self, (#[trigger] loops@[q])@) by {
                assert(loops@[q]@ == loops_view(loops@)[q]);
            }
        }
        proof {
            lemma_sphere_total(n, s, g, nu as int);
        }
        let fs = match self.add_faces_in_order(&loops, normals, material) {
            Ok(fs) => fs,
            Err(e) => {
                proof {
                    lemma_extends_trans(&m0, &m2, self);
                }
                return Err(e);
            },
        };
        proof {
            lemma_extends_trans(&m0, &m2, self);
            lemma_rings_kept(&m2, self, g, pv, m0.nv() + 2, nu as int);
            assert(self.verts@.subrange(0, m2.nv())[n.id as int] == m2.verts@[n.id as int]);
            assert(self.verts@.subrange(0, m2.nv())[s.id as int] == m2.verts@[s.id as int]);
            assert forall|q: int| 0 <= q < fs@.len() implies old(self).nf() <= (#[trigger] fs@[q]).id && face_is(
                self,
                fs@[q],
                sphere_loops(n, s, g, nu as int)[q],
                Seq::empty(),
                normals@[q],
                material,
            ) by {
                assert(loops@[q]@ == loops_view(loops@)[q]);
            }
        }
        Ok((n, s, rows, fs))
    }
}

} // verus!
