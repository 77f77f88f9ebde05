//! The topology of a seamless Push/Pull of a smooth group: every vertex of
//! the group's outer loops is offset once, and each edge shared by two
//! faces of the group gets a wall quad between it and its offset copy.
//!
//! The offset directions (area-weighted vertex normals) and the wall
//! normals are geometry; the caller computes them and passes them in.
use vstd::prelude::*;

use crate::extrude::{extends, face_is, lemma_extends_refl, lemma_extends_trans, lemma_face_is_kept};
use crate::ids::{FaceId, MaterialId, VertId, NULL_RAW};
use crate::mesh::{loop_verts_ok, Mesh, Vec3Bits};
use crate::planar_walk::{contains_vert, first_index, first_index_at, position};
use crate::push_pull::{first_shared, outer_verts};

verus! {

/// `v` lies on the usable outer loop of face `f`.
pub open spec fn on_outer(m: &Mesh, f: FaceId, v: VertId) -> bool {
    match outer_verts(m, f) {
        Some(vs) => vs.contains(v),
        None => false,
    }
}

/// `v` lies on the usable outer loop of one of the first `k` faces of `group`.
pub open spec fn in_group_outer(m: &Mesh, group: Seq<FaceId>, k: int, v: VertId) -> bool {
    exists|i: int| 0 <= i < k && #[trigger] on_outer(m, group[i], v)
}

impl Mesh {
    /// The vertices of the smooth group: those on the outer loop of a face
    /// of `group` that has a usable outer loop, each listed once.
    pub fn smooth_group_vertices(&self, group: &[FaceId]) -> (r: Vec<VertId>)
        requires
            self.wf(),
        ensures
            r@.no_duplicates(),
            forall|v: VertId| r@.contains(v) <==> in_group_outer(self, group@, group@.len() as int, v),
    {
        let mut r: Vec<VertId> = Vec::new();
        let mut k: usize = 0;
        while k < group.len()
            invariant
                self.wf(),
                0 <= k <= group@.len(),
                r@.no_duplicates(),
                forall|v: VertId| r@.contains(v) <==> in_group_outer(self, group@, k as int, v),
            decreases group@.len() - k,
        {
            match self.outer_loop_verts(group[k]) {
                Some(vs) => {
                    let mut i: usize = 0;
                    while i < vs.len()
                        invariant
                            0 <= k < group@.len(),
                            outer_verts(self, group@[k as int]) == Some(vs@),
                            0 <= i <= vs@.len(),
                            r@.no_duplicates(),
                            forall|v: VertId| r@.contains(v) <==> (in_group_outer(self, group@, k as int, v) || vs@.subrange(0, i as int).contains(v)),
                        decreases vs@.len() - i,
                    {
                        let v = vs[i];
                        let ghost pre = r@;
                        if !contains_vert(&r, v) {
                            r.push(v);
                        }
                        proof {
                            assert(vs@.subrange(0, i as int + 1) =~= vs@.subrange(0, i as int).push(v));
                            assert forall|w: VertId| r@.contains(w) <==> (in_group_outer(self, group@, k as int, w) || vs@.subrange(0, i as int + 1).contains(w)) by {
                                crate::push_pull::lemma_contains_push(vs@.subrange(0, i as int), v, w);
                                if r@ != pre {
                                    crate::push_pull::lemma_contains_push(pre, v, w);
                                }
                            }
                        }
                        i = i + 1;
                    }
                    proof {
                        assert(vs@.subrange(0, vs@.len() as int) =~= vs@);
                        assert forall|w: VertId| r@.contains(w) <==> in_group_outer(self, group@, k as int + 1, w) by {
                            if in_group_outer(self, group@, k as int + 1, w) && !in_group_outer(self, group@, k as int, w) {
                                let i = choose|i: int| 0 <= i < k + 1 && #[trigger] on_outer(self, group@[i], w);
                                assert(i == k);
                            }
                            if vs@.contains(w) {
                                assert(on_outer(self, group@[k as int], w));
                            }
                        }
                    }
                },
                None => {
                    proof {
                        assert forall|w: VertId| r@.contains(w) <==> in_group_outer(self, group@, k as int + 1, w) by {
                            if in_group_outer(self, group@, k as int + 1, w) && !in_group_outer(self, group@, k as int, w) {
                                let i = choose|i: int| 0 <= i < k + 1 && #[trigger] on_outer(self, group@[i], w);
                                assert(i == k);
                            }
                        }
                    }
                },
            }
            k = k + 1;
        }
        r
    }
}

/// The outer-loop vertices of `f`, or none when it has no usable outer loop.
pub open spec fn outer_or_empty(m: &Mesh, f: FaceId) -> Seq<VertId> {
    match outer_verts(m, f) {
        Some(vs) => vs,
        None => Seq::empty(),
    }
}

/// The copy of `v`: the entry of `news` at the first position of `v` in `verts`.
pub open spec fn copy_of(verts: Seq<VertId>, news: Seq<VertId>, v: VertId) -> VertId {
    news[first_index(verts, v)]
}

/// The wall between faces `a` and `b`: on the first edge `(v1, v2)` of `b`
/// shared with `a`, the quad `v1, v2, v2', v1'` of the edge and its copy;
/// none when they share no edge or an end of it has no copy.
pub open spec fn seam_wall(m: &Mesh, a: FaceId, b: FaceId, verts: Seq<VertId>, news: Seq<VertId>) -> Option<Seq<VertId>> {
    match first_shared(outer_or_empty(m, a), outer_or_empty(m, b)) {
        Some((v1, v2)) => if verts.contains(v1) && verts.contains(v2) {
            Some(seq![v1, v2, copy_of(verts, news, v2), copy_of(verts, news, v1)])
        } else {
            None
        },
        None => None,
    }
}

/// The walls of face `group[i]` with each `group[j]`, `i < j < upto`, in
/// order of `j`.
pub open spec fn seam_row(m: &Mesh, group: Seq<FaceId>, verts: Seq<VertId>, news: Seq<VertId>, i: int, upto: int) -> Seq<Seq<VertId>>
    decreases upto - i,
{
    if upto <= i + 1 {
        Seq::empty()
    } else {
        let prev = seam_row(m, group, verts, news, i, upto - 1);
        match seam_wall(m, group[i], group[upto - 1], verts, news) {
            Some(q) => prev.push(q),
            None => prev,
        }
    }
}

/// The walls of every pair `i < j` of the group with `i < k`, row by row.
pub open spec fn seam_walls(m: &Mesh, group: Seq<FaceId>, verts: Seq<VertId>, news: Seq<VertId>, k: int) -> Seq<Seq<VertId>>
    decreases k,
{
    if k <= 0 {
        Seq::empty()
    } else {
        seam_walls(m, group, verts, news, k - 1) + seam_row(m, group, verts, news, k - 1, group.len() as int)
    }
}

/// The vertex lists of a list of quads.
pub open spec fn quads_view(q: Seq<Vec<VertId>>) -> Seq<Seq<VertId>> {
    q.map_values(|v: Vec<VertId>| v@)
}

/// Two first positions of one value agree.
proof fn lemma_first_index_unique(s: Seq<VertId>, v: VertId, i: int)
    requires
        first_index_at(s, v, i),
    ensures
        first_index(s, v) == i,
{
    let j = first_index(s, v);
    assert(first_index_at(s, v, j));
    if j < i {
        assert(s[j] != v);
    } else if i < j {
        assert(s[i] != v);
    }
}

impl Mesh {
    /// The wall quads of a seamless smooth-group push: for each pair of
    /// faces `group[i]`, `group[j]` (`i < j`, row by row) that share an
    /// edge `(v1, v2)` whose ends both have copies (`news[k]` is the copy
    /// of `verts[k]`), the quad `v1, v2, v2', v1'`.
    pub fn seamless_wall_quads(&self, group: &[FaceId], verts: &Vec<VertId>, news: &Vec<VertId>) -> (r: Vec<Vec<VertId>>)
        requires
            self.wf(),
            news@.len() == verts@.len(),
        ensures
            quads_view(r@) == seam_walls(self, group@, verts@, news@, group@.len() as int),
    {
        let n = group.len();
        let mut r: Vec<Vec<VertId>> = Vec::new();
        let mut i: usize = 0;
        while i < n
            invariant
                self.wf(),
                n == group@.len(),
                news@.len() == verts@.len(),
                0 <= i <= n,
                quads_view(r@) == seam_walls(self, group@, verts@, news@, i as int),
            decreases n - i,
        {
            let mut j: usize = i + 1;
            while j < n
                invariant
                    self.wf(),
                    n == group@.len(),
                    news@.len() == verts@.len(),
                    0 <= i < n,
                    i + 1 <= j <= n,
                    quads_view(r@) == seam_walls(self, group@, verts@, news@, i as int) + seam_row(
                        self,
                        group@,
                        verts@,
                        news@,
                        i as int,
                        j as int,
                    ),
                decreases n - j,
            {
                let ghost pre = r@;
                let ghost w = seam_wall(self, group@[i as int], group@[j as int], verts@, news@);
                match self.find_shared_edge_vertices(group[i], group[j]) {
                    Some((v1, v2)) => {
                        match (position(verts, v1), position(verts, v2)) {
                            (Some(p1), Some(p2)) => {
                                proof {
                                    lemma_first_index_unique(verts@, v1, p1 as int);
                                    lemma_first_index_unique(verts@, v2, p2 as int);
                                }
                                let q = vec![v1, v2, news[p2], news[p1]];
                                r.push(q);
                                proof {
                                    assert(q@ =~= w.unwrap());
                                    assert(quads_view(r@) =~= quads_view(pre).push(q@));
                                }
                            },
                            _ => {
                                proof {
                                    assert(w is None);
                                }
                            },
                        }
                    },
                    None => {},
                }
                proof {
                    assert(seam_row(self, group@, verts@, news@, i as int, j as int + 1) == match w {
                        Some(q) => seam_row(self, group@, verts@, news@, i as int, j as int).push(q),
                        None => seam_row(self, group@, verts@, news@, i as int, j as int),
                    });
                }
                j = j + 1;
            }
            i = i + 1;
        }
        r
    }
}

impl Mesh {
    /// Add a face for each of `quads` (with `normals[k]`), going on past a
    /// quad that is refused: entry `k` of the result is the face made for
    /// `quads[k]`, or none. A quad is refused only when it is not a valid
    /// loop of the mesh or an arena has no room left.
    pub fn add_faces_lenient(&mut self, quads: &Vec<Vec<VertId>>, normals: &Vec<Vec3Bits>, material: MaterialId) -> (r: Vec<Option<FaceId>>)
        requires
            old(self).wf(),
            normals@.len() == quads@.len(),
        ensures
            final(self).wf(),
            extends(old(self), final(self)),
            final(self).verts@ == old(self).verts@,
            r@.len() == quads@.len(),
            forall|k: int| 0 <= k < quads@.len() ==> match #[trigger] r@[k] {
                Some(f) => old(self).nf() <= f.id && loop_verts_ok(old(self), quads@[k]@) && face_is(
                    final(self),
                    f,
                    quads@[k]@,
                    Seq::empty(),
                    normals@[k],
                    material,
                ),
                None => !loop_verts_ok(old(self), quads@[k]@) || final(self).nh() + quads@[k]@.len() >= NULL_RAW
                    || final(self).ne() + quads@[k]@.len() >= NULL_RAW || final(self).nf() + 1 >= NULL_RAW,
            },
            forall|k: int, l: int| 0 <= k < l < quads@.len() && (#[trigger] r@[k]) is Some && (#[trigger] r@[l]) is Some
                ==> r@[k].unwrap().id < r@[l].unwrap().id,
    {
        let ghost m0 = *self;
        proof {
            lemma_extends_refl(&m0);
        }
        let mut r: Vec<Option<FaceId>> = Vec::new();
        let mut k: usize = 0;
        while k < quads.len()
            invariant
                self.wf(),
                m0.wf(),
                m0 == *old(self),
                extends(&m0, self),
                self.verts@ == m0.verts@,
                self.ne() >= m0.ne(),
                normals@.len() == quads@.len(),
                0 <= k <= quads@.len(),
                r@.len() == k,
                forall|q: int| 0 <= q < k ==> match #[trigger] r@[q] {
                    Some(f) => m0.nf() <= f.id < self.nf() && loop_verts_ok(&m0, quads@[q]@) && face_is(
                        self,
                        f,
                        quads@[q]@,
                        Seq::empty(),
                        normals@[q],
                        material,
                    ),
                    None => !loop_verts_ok(&m0, quads@[q]@) || self.nh() + quads@[q]@.len() >= NULL_RAW
                        || self.ne() + quads@[q]@.len() >= NULL_RAW || self.nf() + 1 >= NULL_RAW,
                },
                forall|q: int, l: int| 0 <= q < l < k && (#[trigger] r@[q]) is Some && (#[trigger] r@[l]) is Some
                    ==> r@[q].unwrap().id < r@[l].unwrap().id,
            decreases quads@.len() - k,
        {
            let ghost pre = *self;
            let res = self.add_plain_face(quads[k].as_slice(), normals[k], material);
            proof {
                lemma_extends_trans(&m0, &pre, self);
                assert forall|q: int| 0 <= q < k implies match #[trigger] r@[q] {
                    Some(f) => m0.nf() <= f.id < self.nf() && loop_verts_ok(&m0, quads@[q]@) && face_is(
                        self,
                        f,
                        quads@[q]@,
                        Seq::empty(),
                        normals@[q],
                        material,
                    ),
                    None => !loop_verts_ok(&m0, quads@[q]@) || self.nh() + quads@[q]@.len() >= NULL_RAW
                        || self.ne() + quads@[q]@.len() >= NULL_RAW || self.nf() + 1 >= NULL_RAW,
                } by {
                    match r@[q] {
                        Some(f) => {
                            lemma_face_is_kept(&pre, self, f, quads@[q]@, Seq::empty(), normals@[q], material);
                        },
                        None => {},
                    }
                }
            }
            match res {
                Ok(f) => {
                    r.push(Some(f));
                },
                Err(_) => {
                    r.push(None);
                },
            }
            k = k + 1;
        }
        r
    }
}

} // verus!
