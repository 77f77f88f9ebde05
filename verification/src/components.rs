//! Grouping faces into components that are connected through shared edges.
use vstd::prelude::*;

use crate::ids::{FaceId, HeId};
use crate::mesh::{he_refs_ok, lemma_walk_in_range, walk, Mesh};
use crate::push_pull::loop_edges;

verus! {

/// The edges of the outer loop of face `f` (none when `f` names no stored
/// face or its outer loop does not close).
pub open spec fn outer_edges(m: &Mesh, f: FaceId) -> Set<int> {
    if m.has_face(f) {
        loop_edges(m, m.face(f).outer)
    } else {
        Set::empty()
    }
}

/// Faces `f` and `g` have an edge of their outer loops in common.
pub open spec fn shares_edge(m: &Mesh, f: FaceId, g: FaceId) -> bool {
    exists|e: int| #[trigger] outer_edges(m, f).contains(e) && outer_edges(m, g).contains(e)
}

/// `v` lists exactly the members of the set `s`.
pub open spec fn lists_set(v: Seq<usize>, s: Set<int>) -> bool {
    forall|x: int| s.contains(x) <==> exists|k: int| 0 <= k < v.len() && #[trigger] v[k] as int == x
}

/// `comps` splits the faces listed in `faces` into components: every group
/// is non-empty, lists only faces of `faces`, every face of `faces` is
/// listed exactly once overall, each member after the first shares an edge
/// with an earlier member of its group, and members of different groups
/// share no edge.
pub open spec fn is_component_split(m: &Mesh, faces: Seq<FaceId>, comps: Seq<Seq<FaceId>>) -> bool {
    &&& forall|g: int| 0 <= g < comps.len() ==> (#[trigger] comps[g]).len() >= 1
    &&& forall|g: int, k: int| 0 <= g < comps.len() && 0 <= k < comps[g].len() ==> faces.contains(#[trigger] comps[g][k])
    &&& forall|x: FaceId| #[trigger] faces.contains(x) ==> exists|g: int, k: int|
        0 <= g < comps.len() && 0 <= k < comps[g].len() && comps[g][k] == x
    &&& forall|g1: int, k1: int, g2: int, k2: int|
        0 <= g1 < comps.len() && 0 <= k1 < comps[g1].len() && 0 <= g2 < comps.len() && 0 <= k2 < comps[g2].len()
            && (g1 != g2 || k1 != k2) ==> #[trigger] comps[g1][k1] != #[trigger] comps[g2][k2]
    &&& forall|g: int, k: int| 0 <= g < comps.len() && 1 <= k < comps[g].len() ==> #[trigger] linked_earlier(m, comps[g], k)
    &&& forall|g1: int, k1: int, g2: int, k2: int|
        0 <= g1 < comps.len() && 0 <= k1 < comps[g1].len() && 0 <= g2 < comps.len() && 0 <= k2 < comps[g2].len()
            && g1 != g2 ==> !shares_edge(m, #[trigger] comps[g1][k1], #[trigger] comps[g2][k2])
}

/// Member `k` of `group` shares an edge with an earlier member.
pub open spec fn linked_earlier(m: &Mesh, group: Seq<FaceId>, k: int) -> bool {
    exists|t: int| 0 <= t < k && shares_edge(m, group[t], group[k])
}

/// The nested vectors as nested sequences.
pub open spec fn nested_view(v: Seq<Vec<FaceId>>) -> Seq<Seq<FaceId>> {
    v.map_values(|g: Vec<FaceId>| g@)
}

/// Whether two lists have an entry in common.
fn lists_meet(a: &Vec<usize>, b: &Vec<usize>) -> (r: bool)
    ensures
        r == exists|i: int, j: int| 0 <= i < a@.len() && 0 <= j < b@.len() && a@[i] == b@[j],
{
    let mut i: usize = 0;
    while i < a.len()
        invariant
            0 <= i <= a@.len(),
            forall|p: int, j: int| 0 <= p < i && 0 <= j < b@.len() ==> a@[p] != b@[j],
        decreases a@.len() - i,
    {
        let mut j: usize = 0;
        while j < b.len()
            invariant
                0 <= i < a@.len(),
                0 <= j <= b@.len(),
                forall|q: int| 0 <= q < j ==> a@[i as int] != b@[q],
            decreases b@.len() - j,
        {
            if a[i] == b[j] {
                return true;
            }
            j = j + 1;
        }
        i = i + 1;
    }
    false
}


/// Sharing an edge is symmetric.
pub proof fn lemma_shares_sym(m: &Mesh, f: FaceId, g: FaceId)
    ensures
        shares_edge(m, f, g) == shares_edge(m, g, f),
{
    if shares_edge(m, f, g) {
        let e = choose|e: int| #[trigger] outer_edges(m, f).contains(e) && outer_edges(m, g).contains(e);
        assert(outer_edges(m, g).contains(e) && outer_edges(m, f).contains(e));
    }
    if shares_edge(m, g, f) {
        let e = choose|e: int| #[trigger] outer_edges(m, g).contains(e) && outer_edges(m, f).contains(e);
        assert(outer_edges(m, f).contains(e) && outer_edges(m, g).contains(e));
    }
}

/// The faces at positions `i` and `j` of `u` share an edge.
pub open spec fn sh_at(m: &Mesh, u: Seq<FaceId>, i: int, j: int) -> bool {
    shares_edge(m, u[i], u[j])
}

/// The first occurrence of each face of `faces`, in order.
fn dedup_faces(faces: &[FaceId]) -> (u: Vec<FaceId>)
    ensures
        u@.no_duplicates(),
        forall|x: FaceId| u@.contains(x) <==> faces@.contains(x),
{
    let mut u: Vec<FaceId> = Vec::new();
    let mut i: usize = 0;
    while i < faces.len()
        invariant
            0 <= i <= faces@.len(),
            u@.no_duplicates(),
            forall|x: FaceId| u@.contains(x) <==> faces@.subrange(0, i as int).contains(x),
        decreases faces@.len() - i,
    {
        let f = faces[i];
        let mut j: usize = 0;
        let mut seen = false;
        while j < u.len()
            invariant
                0 <= j <= u@.len(),
                seen == exists|q: int| 0 <= q < j && u@[q] == f,
            decreases u@.len() - j,
        {
            if u[j] == f {
                seen = true;
            }
            j = j + 1;
        }
        let ghost pu = u@;
        if !seen {
            u.push(f);
        }
        proof {
            let sub = faces@.subrange(0, i as int + 1);
            assert(sub =~= faces@.subrange(0, i as int).push(f));
            assert forall|x: FaceId| u@.contains(x) <==> sub.contains(x) by {
                if sub.contains(x) {
                    let q = choose|q: int| 0 <= q < sub.len() && sub[q] == x;
                    if q < i {
                        assert(faces@.subrange(0, i as int)[q] == x);
                        assert(pu.contains(x));
                        let r = choose|r: int| 0 <= r < pu.len() && pu[r] == x;
                        assert(u@[r] == x);
                    } else {
                        if !seen {
                            assert(u@[u@.len() - 1] == x);
                        } else {
                            let r = choose|r: int| 0 <= r < pu.len() && pu[r] == f;
                            assert(u@[r] == x);
                        }
                    }
                }
                if u@.contains(x) {
                    let r = choose|r: int| 0 <= r < u@.len() && u@[r] == x;
                    if r < pu.len() {
                        assert(pu.contains(x));
                        assert(faces@.subrange(0, i as int).contains(x));
                        let q = choose|q: int| 0 <= q < i && faces@.subrange(0, i as int)[q] == x;
                        assert(sub[q] == x);
                    } else {
                        assert(sub[i as int] == x);
                    }
                }
            }
        }
        i = i + 1;
    }
    assert(faces@.subrange(0, faces@.len() as int) =~= faces@);
    u
}


/// A list of distinct indices below `n` has fewer than `n + 1` entries.
proof fn lemma_distinct_bounded(g: Seq<usize>, n: usize)
    requires
        forall|k: int| 0 <= k < g.len() ==> (#[trigger] g[k]) < n,
        forall|k1: int, k2: int| 0 <= k1 < g.len() && 0 <= k2 < g.len() && k1 != k2 ==> #[trigger] g[k1] != #[trigger] g[k2],
    ensures
        g.len() <= n,
{
    let gi = g.map_values(|x: usize| x as int);
    assert(gi.no_duplicates());
    gi.unique_seq_to_set();
    vstd::set_lib::lemma_int_range(0, n as int);
    assert(gi.to_set().subset_of(vstd::set_lib::set_int_range(0, n as int)));
    vstd::set_lib::lemma_len_subset(gi.to_set(), vstd::set_lib::set_int_range(0, n as int));
}


impl Mesh {
    /// The edges of the outer loop of face `f`, one entry per half-edge.
    pub fn outer_edge_list(&self, f: FaceId) -> (v: Vec<usize>)
        requires
            self.wf(),
        ensures
            lists_set(v@, outer_edges(self, f)),
    {
        let mut v: Vec<usize> = Vec::new();
        let idx = f.id as usize;
        if idx >= self.faces.len() {
            return v;
        }
        let outer = match &self.faces[idx] {
            Some(fc) => fc.outer,
            None => {
                return v;
            },
        };
        match self.collect_loop_hes(outer) {
            Ok(hv) => {
                let ghost es = hv@.map_values(|h: HeId| self.hes@[h.id as int].edge.id as int);
                proof {
                    assert forall|k: int| 0 <= k < hv@.len() implies (#[trigger] hv@[k]).id < self.nh() by {
                        if k > 0 {
                            lemma_walk_in_range(self, outer.id as int, (k - 1) as nat);
                            let p = walk(self.hes@, outer.id as int, (k - 1) as nat);
                            assert(he_refs_ok(self.hes@[p], self.nv(), self.nh(), self.ne(), self.nf()));
                        }
                    }
                }
                let mut i: usize = 0;
                while i < hv.len()
                    invariant
                        self.wf(),
                        0 <= i <= hv@.len(),
                        forall|k: int| 0 <= k < hv@.len() ==> (#[trigger] hv@[k]).id < self.nh(),
                        es == hv@.map_values(|h: HeId| self.hes@[h.id as int].edge.id as int),
                        v@.len() == i,
                        forall|k: int| 0 <= k < i ==> #[trigger] v@[k] as int == es[k],
                    decreases hv@.len() - i,
                {
                    let e = self.hes[hv[i].id as usize].edge;
                    v.push(e.id as usize);
                    i = i + 1;
                }
                proof {
                    assert forall|x: int| outer_edges(self, f).contains(x) <==> exists|k: int|
                        0 <= k < v@.len() && #[trigger] v@[k] as int == x by {
                        if outer_edges(self, f).contains(x) {
                            assert(es.to_set().contains(x));
                            assert(es.contains(x));
                            let k = choose|k: int| 0 <= k < es.len() && es[k] == x;
                            assert(v@[k] as int == x);
                        }
                        if exists|k: int| 0 <= k < v@.len() && #[trigger] v@[k] as int == x {
                            let k = choose|k: int| 0 <= k < v@.len() && #[trigger] v@[k] as int == x;
                            assert(es[k] == x);
                            assert(es.contains(x));
                        }
                    }
                }
                v
            },
            Err(_) => {
                v
            },
        }
    }

    /// Split `faces` into groups connected through shared outer-loop edges,
    /// by breadth-first search from each face not yet grouped, in the order
    /// the faces are given. Repeated faces are grouped once.
    #[verifier::rlimit(60)]
    pub fn find_inner_components(&self, faces: &[FaceId]) -> (comps: Vec<Vec<FaceId>>)
        requires
            self.wf(),
        ensures
            is_component_split(self, faces@, nested_view(comps@)),
    {
        let u = dedup_faces(faces);
        let n = u.len();
        let mut elists: Vec<Vec<usize>> = Vec::new();
        let mut i: usize = 0;
        while i < n
            invariant
                self.wf(),
                n == u@.len(),
                0 <= i <= n,
                elists@.len() == i,
                forall|k: int| 0 <= k < i ==> lists_set((#[trigger] elists@[k])@, outer_edges(self, u@[k])),
            decreases n - i,
        {
            elists.push(self.outer_edge_list(u[i]));
            i = i + 1;
        }
        let mut assigned: Vec<bool> = Vec::new();
        let mut i: usize = 0;
        while i < n
            invariant
                0 <= i <= n,
                assigned@ == Seq::new(i as nat, |t: int| false),
            decreases n - i,
        {
            assigned.push(false);
            i = i + 1;
            assert(assigned@ =~= Seq::new(i as nat, |t: int| false));
        }
        // owner[j]: the group of index j (or -1); pos[j]: its place there;
        // par[g][k]: an earlier member of group g sharing an edge with member k.
        let ghost mut owner: Seq<int> = Seq::new(n as nat, |t: int| -1);
        let ghost mut pos: Seq<int> = Seq::new(n as nat, |t: int| 0);
        let ghost mut gidx: Seq<Seq<int>> = Seq::empty();
        let ghost mut par: Seq<Seq<int>> = Seq::empty();
        let mut comps: Vec<Vec<FaceId>> = Vec::new();
        let mut s: usize = 0;
        while s < n
            invariant
                self.wf(),
                n == u@.len(),
                u@.no_duplicates(),
                elists@.len() == n,
                forall|k: int| 0 <= k < n ==> lists_set((#[trigger] elists@[k])@, outer_edges(self, u@[k])),
                0 <= s <= n,
                assigned@.len() == n,
                owner.len() == n,
                pos.len() == n,
                forall|j: int| 0 <= j < n ==> (#[trigger] assigned@[j] <==> owner[j] >= 0),
                forall|j: int| 0 <= j < n ==> -1 <= #[trigger] owner[j] < comps@.len(),
                forall|j: int| 0 <= j < s ==> #[trigger] assigned@[j],
                gidx.len() == comps@.len(),
                par.len() == comps@.len(),
                forall|g: int| 0 <= g < comps@.len() ==> (#[trigger] gidx[g]).len() == comps@[g]@.len() && gidx[g].len() >= 1
                    && par[g].len() == gidx[g].len(),
                forall|g: int, k: int| 0 <= g < comps@.len() && 0 <= k < gidx[g].len() ==> {
                    &&& 0 <= #[trigger] gidx[g][k] < n
                    &&& comps@[g]@[k] == u@[gidx[g][k]]
                    &&& owner[gidx[g][k]] == g
                    &&& pos[gidx[g][k]] == k
                },
                forall|j: int| 0 <= j < n && #[trigger] owner[j] >= 0 ==> 0 <= pos[j] < gidx[owner[j]].len() && gidx[owner[j]][pos[j]] == j,
                forall|g: int, k: int| 0 <= g < comps@.len() && 1 <= k < gidx[g].len() ==> {
                    &&& 0 <= #[trigger] par[g][k] < k
                    &&& sh_at(self, u@, gidx[g][par[g][k]], gidx[g][k])
                },
                forall|x: int, j: int| 0 <= x < n && 0 <= j < n && owner[x] >= 0 && #[trigger] sh_at(self, u@, x, j)
                    ==> owner[j] == owner[x],
            decreases n - s,
        {
            if !assigned[s] {
                let ghost c = comps@.len() as int;
                let mut group: Vec<usize> = Vec::new();
                let mut gfaces: Vec<FaceId> = Vec::new();
                let ghost mut gpar: Seq<int> = seq![0int];
                group.push(s);
                gfaces.push(u[s]);
                assigned.set(s, true);
                proof {
                    owner = owner.update(s as int, c);
                    pos = pos.update(s as int, 0);
                }
                let mut head: usize = 0;
                while head < group.len()
                    invariant
                        self.wf(),
                        n == u@.len(),
                        u@.no_duplicates(),
                        elists@.len() == n,
                        forall|k: int| 0 <= k < n ==> lists_set((#[trigger] elists@[k])@, outer_edges(self, u@[k])),
                        0 <= s < n,
                        c == comps@.len(),
                        assigned@.len() == n,
                        owner.len() == n,
                        pos.len() == n,
                        forall|j: int| 0 <= j < n ==> (#[trigger] assigned@[j] <==> owner[j] >= 0),
                        forall|j: int| 0 <= j < n ==> -1 <= #[trigger] owner[j] <= c,
                        forall|j: int| 0 <= j <= s ==> #[trigger] assigned@[j],
                        gidx.len() == c,
                        par.len() == c,
                        forall|g: int| 0 <= g < c ==> (#[trigger] gidx[g]).len() == comps@[g]@.len() && gidx[g].len() >= 1
                            && par[g].len() == gidx[g].len(),
                        forall|g: int, k: int| 0 <= g < c && 0 <= k < gidx[g].len() ==> {
                            &&& 0 <= #[trigger] gidx[g][k] < n
                            &&& comps@[g]@[k] == u@[gidx[g][k]]
                            &&& owner[gidx[g][k]] == g
                            &&& pos[gidx[g][k]] == k
                        },
                        forall|j: int| 0 <= j < n && 0 <= #[trigger] owner[j] < c ==> 0 <= pos[j] < gidx[owner[j]].len() && gidx[owner[j]][pos[j]] == j,
                        forall|g: int, k: int| 0 <= g < c && 1 <= k < gidx[g].len() ==> {
                            &&& 0 <= #[trigger] par[g][k] < k
                            &&& sh_at(self, u@, gidx[g][par[g][k]], gidx[g][k])
                        },
                        forall|x: int, j: int| 0 <= x < n && 0 <= j < n && 0 <= owner[x] < c && #[trigger] sh_at(self, u@, x, j)
                            ==> owner[j] == owner[x],
                        // the group being grown
                        group@.len() == gfaces@.len(),
                        group@.len() == gpar.len(),
                        group@.len() >= 1,
                        forall|k: int| 0 <= k < group@.len() ==> {
                            &&& (#[trigger] group@[k]) < n
                            &&& gfaces@[k] == u@[group@[k] as int]
                            &&& owner[group@[k] as int] == c
                            &&& pos[group@[k] as int] == k
                        },
                        forall|j: int| 0 <= j < n && #[trigger] owner[j] == c ==> 0 <= pos[j] < group@.len() && group@[pos[j]] == j,
                        forall|k: int| 1 <= k < group@.len() ==> {
                            &&& 0 <= #[trigger] gpar[k] < k
                            &&& sh_at(self, u@, group@[gpar[k]] as int, group@[k] as int)
                        },
                        0 <= head <= group@.len(),
                        forall|t: int, j: int| 0 <= t < head && 0 <= j < n && #[trigger] sh_at(self, u@, group@[t] as int, j)
                            ==> owner[j] == c,
                    decreases n - head,
                {
                    assert(head < n) by {
                        assert forall|k1: int, k2: int| 0 <= k1 < group@.len() && 0 <= k2 < group@.len() && k1 != k2
                            implies #[trigger] group@[k1] != #[trigger] group@[k2] by {
                            assert(pos[group@[k1] as int] == k1);
                            assert(pos[group@[k2] as int] == k2);
                        }
                        lemma_distinct_bounded(group@, n);
                    }
                    let a = group[head];
                    let mut j: usize = 0;
                    while j < n
                        invariant
                            self.wf(),
                            n == u@.len(),
                            u@.no_duplicates(),
                            elists@.len() == n,
                            forall|k: int| 0 <= k < n ==> lists_set((#[trigger] elists@[k])@, outer_edges(self, u@[k])),
                            0 <= s < n,
                            c == comps@.len(),
                            assigned@.len() == n,
                            owner.len() == n,
                            pos.len() == n,
                            forall|q: int| 0 <= q < n ==> (#[trigger] assigned@[q] <==> owner[q] >= 0),
                            forall|q: int| 0 <= q < n ==> -1 <= #[trigger] owner[q] <= c,
                            forall|q: int| 0 <= q <= s ==> #[trigger] assigned@[q],
                            gidx.len() == c,
                            par.len() == c,
                            forall|g: int| 0 <= g < c ==> (#[trigger] gidx[g]).len() == comps@[g]@.len() && gidx[g].len() >= 1
                                && par[g].len() == gidx[g].len(),
                            forall|g: int, k: int| 0 <= g < c && 0 <= k < gidx[g].len() ==> {
                                &&& 0 <= #[trigger] gidx[g][k] < n
                                &&& comps@[g]@[k] == u@[gidx[g][k]]
                                &&& owner[gidx[g][k]] == g
                                &&& pos[gidx[g][k]] == k
                            },
                            forall|q: int| 0 <= q < n && 0 <= #[trigger] owner[q] < c ==> 0 <= pos[q] < gidx[owner[q]].len() && gidx[owner[q]][pos[q]] == q,
                            forall|g: int, k: int| 0 <= g < c && 1 <= k < gidx[g].len() ==> {
                                &&& 0 <= #[trigger] par[g][k] < k
                                &&& sh_at(self, u@, gidx[g][par[g][k]], gidx[g][k])
                            },
                            forall|x: int, q: int| 0 <= x < n && 0 <= q < n && 0 <= owner[x] < c && #[trigger] sh_at(self, u@, x, q)
                                ==> owner[q] == owner[x],
                            group@.len() == gfaces@.len(),
                            group@.len() == gpar.len(),
                            group@.len() >= 1,
                            forall|k: int| 0 <= k < group@.len() ==> {
                                &&& (#[trigger] group@[k]) < n
                                &&& gfaces@[k] == u@[group@[k] as int]
                                &&& owner[group@[k] as int] == c
                                &&& pos[group@[k] as int] == k
                            },
                            forall|q: int| 0 <= q < n && #[trigger] owner[q] == c ==> 0 <= pos[q] < group@.len() && group@[pos[q]] == q,
                            forall|k: int| 1 <= k < group@.len() ==> {
                                &&& 0 <= #[trigger] gpar[k] < k
                                &&& sh_at(self, u@, group@[gpar[k]] as int, group@[k] as int)
                            },
                            0 <= head < group@.len(),
                            a == group@[head as int],
                            forall|t: int, q: int| 0 <= t < head && 0 <= q < n && #[trigger] sh_at(self, u@, group@[t] as int, q)
                                ==> owner[q] == c,
                            0 <= j <= n,
                            forall|q: int| 0 <= q < j && #[trigger] sh_at(self, u@, a as int, q) ==> owner[q] == c,
                        decreases n - j,
                    {
                        let meet = lists_meet(&elists[a], &elists[j]);
                        proof {
                            let ea = elists@[a as int]@;
                            let ej = elists@[j as int]@;
                            assert(lists_set(ea, outer_edges(self, u@[a as int])));
                            assert(lists_set(ej, outer_edges(self, u@[j as int])));
                            if meet {
                                let (p, q) = choose|p: int, q: int| 0 <= p < ea.len() && 0 <= q < ej.len() && ea[p] == ej[q];
                                let e = ea[p] as int;
                                assert(outer_edges(self, u@[a as int]).contains(e));
                                assert(outer_edges(self, u@[j as int]).contains(e));
                                assert(sh_at(self, u@, a as int, j as int));
                            } else {
                                if sh_at(self, u@, a as int, j as int) {
                                    let e = choose|e: int| #[trigger] outer_edges(self, u@[a as int]).contains(e)
                                        && outer_edges(self, u@[j as int]).contains(e);
                                    let p = choose|p: int| 0 <= p < ea.len() && #[trigger] ea[p] as int == e;
                                    let q = choose|q: int| 0 <= q < ej.len() && #[trigger] ej[q] as int == e;
                                    assert(ea[p] == ej[q]);
                                }
                            }
                        }
                        if meet && !assigned[j] {
                            let ghost pg = group@;
                            group.push(j);
                            gfaces.push(u[j]);
                            assigned.set(j, true);
                            proof {
                                owner = owner.update(j as int, c);
                                pos = pos.update(j as int, pg.len() as int);
                                gpar = gpar.push(head as int);
                                assert forall|k: int| 1 <= k < group@.len() implies {
                                    &&& 0 <= #[trigger] gpar[k] < k
                                    &&& sh_at(self, u@, group@[gpar[k]] as int, group@[k] as int)
                                } by {
                                    if k < pg.len() {
                                        assert(group@[gpar[k]] == pg[gpar[k]]);
                                        assert(group@[k] == pg[k]);
                                    }
                                }
                            }
                        } else if meet {
                            proof {
                                let oj = owner[j as int];
                                if oj < c {
                                    lemma_shares_sym(self, u@[a as int], u@[j as int]);
                                    assert(sh_at(self, u@, j as int, a as int));
                                    assert(owner[a as int] == c);
                                }
                            }
                        }
                        j = j + 1;
                    }
                    head = head + 1;
                }
                proof {
                    assert forall|x: int, q: int| 0 <= x < n && 0 <= q < n && 0 <= owner[x] < c + 1 && #[trigger] sh_at(self, u@, x, q)
                        implies owner[q] == owner[x] by {
                        if owner[x] == c {
                            let k = pos[x];
                            assert(sh_at(self, u@, group@[k] as int, q));
                        }
                    }
                    gidx = gidx.push(group@.map_values(|v: usize| v as int));
                    par = par.push(gpar);
                }
                comps.push(gfaces);
                proof {
                    let gg = group@.map_values(|v: usize| v as int);
                    assert(gidx[c] == gg);
                    assert(par[c] == gpar);
                    assert forall|g: int, k: int| 0 <= g < comps@.len() && 1 <= k < gidx[g].len() implies {
                        &&& 0 <= #[trigger] par[g][k] < k
                        &&& sh_at(self, u@, gidx[g][par[g][k]], gidx[g][k])
                    } by {
                        if g == c {
                            assert(gg[gpar[k]] == group@[gpar[k]] as int);
                        }
                    }
                    assert forall|q: int| 0 <= q < n && #[trigger] owner[q] >= 0 implies 0 <= pos[q] < gidx[owner[q]].len() && gidx[owner[q]][pos[q]] == q by {
                        if owner[q] == c {
                            assert(gidx[owner[q]][pos[q]] == group@[pos[q]] as int);
                        }
                    }
                }
            }
            s = s + 1;
        }
        proof {
            let cv = nested_view(comps@);
            assert forall|g: int| 0 <= g < cv.len() implies (#[trigger] cv[g]).len() >= 1 by {
                assert(cv[g] == comps@[g]@);
                assert(gidx[g].len() >= 1);
            }
            assert forall|g: int, k: int| 0 <= g < cv.len() && 0 <= k < cv[g].len() implies faces@.contains(#[trigger] cv[g][k]) by {
                assert(cv[g] == comps@[g]@);
                assert(0 <= gidx[g][k] < n);
                assert(u@.contains(u@[gidx[g][k]]));
            }
            assert forall|x: FaceId| #[trigger] faces@.contains(x) implies exists|g: int, k: int|
                0 <= g < cv.len() && 0 <= k < cv[g].len() && cv[g][k] == x by {
                assert(u@.contains(x));
                let j = choose|j: int| 0 <= j < u@.len() && u@[j] == x;
                assert(assigned@[j]);
                let g = owner[j];
                let k = pos[j];
                assert(cv[g] == comps@[g]@);
                assert(cv[g][k] == x);
            }
            assert forall|g1: int, k1: int, g2: int, k2: int|
                0 <= g1 < cv.len() && 0 <= k1 < cv[g1].len() && 0 <= g2 < cv.len() && 0 <= k2 < cv[g2].len()
                    && (g1 != g2 || k1 != k2) implies #[trigger] cv[g1][k1] != #[trigger] cv[g2][k2] by {
                assert(cv[g1] == comps@[g1]@);
                assert(cv[g2] == comps@[g2]@);
                let x = gidx[g1][k1];
                let y = gidx[g2][k2];
                if cv[g1][k1] == cv[g2][k2] {
                    assert(u@[x] == u@[y]);
                    assert(x == y);
                    assert(owner[x] == g1 && owner[y] == g2);
                    assert(pos[x] == k1);
                    assert(pos[y] == k2);
                }
            }
            assert forall|g: int, k: int| 0 <= g < cv.len() && 1 <= k < cv[g].len() implies #[trigger] linked_earlier(self, cv[g], k) by {
                assert(cv[g] == comps@[g]@);
                let t = par[g][k];
                assert(sh_at(self, u@, gidx[g][t], gidx[g][k]));
                assert(cv[g][t] == u@[gidx[g][t]]);
            }
            assert forall|g1: int, k1: int, g2: int, k2: int|
                0 <= g1 < cv.len() && 0 <= k1 < cv[g1].len() && 0 <= g2 < cv.len() && 0 <= k2 < cv[g2].len()
                    && g1 != g2 implies !shares_edge(self, #[trigger] cv[g1][k1], #[trigger] cv[g2][k2]) by {
                assert(cv[g1] == comps@[g1]@);
                assert(cv[g2] == comps@[g2]@);
                let x = gidx[g1][k1];
                let y = gidx[g2][k2];
                if shares_edge(self, cv[g1][k1], cv[g2][k2]) {
                    assert(sh_at(self, u@, x, y));
                }
            }
            assert(is_component_split(self, faces@, cv));
        }
        comps
    }
}

} // verus!
