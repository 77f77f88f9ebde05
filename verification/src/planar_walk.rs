//! Left-turn chain enumeration: the boundary-to-boundary chains of free
//! edges across a face.
//!
//! From every vertex of the face's outer loop, along every free spoke, a
//! walk follows free edges, at each vertex taking the spoke with the
//! smallest counter-clockwise turn from the reverse of the incoming edge,
//! until it reaches the boundary again. The turn preference at each step is
//! a matter of projected positions and is supplied as an order of spokes per
//! directed free edge (`TurnOrder`); everything else is decided here over
//! vertex ids. Chains are kept once up to direction, by canonical key.
use vstd::prelude::*;

use crate::ids::{FaceId, VertId};
use crate::mesh::{dsts_of, has_loop, loop_seq, Mesh};
use crate::wire::edge_free;

verus! {

/// Lexicographic order on sequences of raw ids: `a` is a proper prefix of
/// `b`, or they first differ at a position where `a` is smaller.
pub open spec fn lex_lt(a: Seq<u32>, b: Seq<u32>) -> bool {
    exists|i: int|
        0 <= i <= a.len() && i <= b.len() && a.subrange(0, i) == b.subrange(0, i) && ((i == a.len()
            && i < b.len()) || (i < a.len() && i < b.len() && a[i] < b[i]))
}

/// The raw ids of a chain.
pub open spec fn raws(chain: Seq<VertId>) -> Seq<u32> {
    chain.map_values(|v: VertId| v.id)
}

/// The canonical key of a chain: the lexicographically smaller of its raw
/// ids read forwards and backwards (forwards on a tie).
pub open spec fn canonical(chain: Seq<VertId>) -> Seq<u32> {
    let r = raws(chain);
    let rv = r.reverse();
    if lex_lt(r, rv) {
        r
    } else {
        rv
    }
}

/// Compare two id sequences lexicographically.
pub fn lex_less(a: &Vec<u32>, b: &Vec<u32>) -> (res: bool)
    ensures
        res == lex_lt(a@, b@),
{
    let mut i: usize = 0;
    while i < a.len() && i < b.len() && a[i] == b[i]
        invariant
            0 <= i <= a@.len(),
            i <= b@.len(),
            a@.subrange(0, i as int) == b@.subrange(0, i as int),
        decreases a@.len() - i,
    {
        i = i + 1;
        assert(a@.subrange(0, i as int) =~= a@.subrange(0, i as int - 1).push(a@[i - 1]));
        assert(b@.subrange(0, i as int) =~= b@.subrange(0, i as int - 1).push(b@[i - 1]));
    }
    let res = (i == a.len() && i < b.len()) || (i < a.len() && i < b.len() && a[i] < b[i]);
    proof {
        if !res {
            assert(!lex_lt(a@, b@)) by {
                if lex_lt(a@, b@) {
                    let j = choose|j: int|
                        0 <= j <= a@.len() && j <= b@.len() && a@.subrange(0, j) == b@.subrange(0, j) && ((j
                            == a@.len() && j < b@.len()) || (j < a@.len() && j < b@.len() && a@[j] < b@[j]));
                    if j < i {
                        assert(a@.subrange(0, i as int)[j] == b@.subrange(0, i as int)[j]);
                    } else if j > i {
                        assert(a@.subrange(0, j)[i as int] == b@.subrange(0, j)[i as int]);
                    }
                }
            }
        }
    }
    res
}

/// The canonical key of a chain: its raw ids forwards or backwards,
/// whichever is lexicographically smaller. Chains that are reversals of
/// each other get the same key.
pub fn canonical_key(chain: &[VertId]) -> (key: Vec<u32>)
    ensures
        key@ == canonical(chain@),
{
    let mut r: Vec<u32> = Vec::new();
    let mut i: usize = 0;
    while i < chain.len()
        invariant
            0 <= i <= chain@.len(),
            r@ == raws(chain@).subrange(0, i as int),
        decreases chain@.len() - i,
    {
        r.push(chain[i].id);
        i = i + 1;
        assert(r@ =~= raws(chain@).subrange(0, i as int));
    }
    assert(r@ =~= raws(chain@));
    let mut rv: Vec<u32> = Vec::new();
    let mut j: usize = chain.len();
    while j > 0
        invariant
            0 <= j <= chain@.len(),
            r@ == raws(chain@),
            rv@ == raws(chain@).reverse().subrange(0, (chain@.len() - j) as int),
        decreases j,
    {
        j = j - 1;
        rv.push(r[j]);
        assert(rv@ =~= raws(chain@).reverse().subrange(0, (chain@.len() - j) as int));
    }
    assert(rv@ =~= raws(chain@).reverse());
    if lex_less(&r, &rv) {
        r
    } else {
        rv
    }
}

// ───────────────────────── free spokes ─────────────────────────

/// The other ends of the active free edges at `v` among the first `k`
/// edges, in edge order.
pub open spec fn spokes_upto(m: &Mesh, v: VertId, k: int) -> Seq<VertId>
    decreases k,
{
    if k <= 0 {
        Seq::empty()
    } else {
        let prev = spokes_upto(m, v, k - 1);
        let e = m.edges@[k - 1];
        if e.active && edge_free(m, k - 1) {
            if e.v_small == v {
                prev.push(e.v_large)
            } else if e.v_large == v {
                prev.push(e.v_small)
            } else {
                prev
            }
        } else {
            prev
        }
    }
}

/// The other ends of the active free edges at `v`, in edge order.
pub open spec fn spokes(m: &Mesh, v: VertId) -> Seq<VertId> {
    spokes_upto(m, v, m.ne())
}

/// The vertices joined to `v` by an active edge that no active face uses.
pub fn free_spokes(mesh: &Mesh, v: VertId) -> (r: Vec<VertId>)
    requires
        mesh.wf(),
    ensures
        r@ == spokes(mesh, v),
{
    let mut out: Vec<VertId> = Vec::new();
    let mut e: usize = 0;
    while e < mesh.edges.len()
        invariant
            mesh.wf(),
            0 <= e <= mesh.ne(),
            out@ == spokes_upto(mesh, v, e as int),
        decreases mesh.ne() - e,
    {
        let ed = mesh.edges[e];
        if ed.active && mesh.is_edge_completely_free(crate::ids::EdgeId { id: e as u32 }) {
            if ed.v_small == v {
                out.push(ed.v_large);
            } else if ed.v_large == v {
                out.push(ed.v_small);
            }
        }
        e = e + 1;
    }
    out
}

// ───────────────────────── the left-turn walk ─────────────────────────

/// The free spokes at `cur`, reached from `prev`, in the order the
/// left-turn rule prefers them (smallest counter-clockwise turn from the
/// reverse of the incoming direction first).
#[derive(Clone, Debug)]
pub struct TurnOrder {
    pub prev: VertId,
    pub cur: VertId,
    pub order: Vec<VertId>,
}

/// `k` is the first entry of `turns` for the step `p → c`.
pub open spec fn first_turn(turns: Seq<TurnOrder>, p: VertId, c: VertId, k: int) -> bool {
    &&& 0 <= k < turns.len()
    &&& turns[k].prev == p
    &&& turns[k].cur == c
    &&& forall|j: int| 0 <= j < k ==> !(#[trigger] turns[j].prev == p && turns[j].cur == c)
}

/// The preferred order at the step `p → c`, if `turns` gives one.
pub open spec fn lookup_turn(turns: Seq<TurnOrder>, p: VertId, c: VertId) -> Option<Seq<VertId>> {
    if exists|k: int| first_turn(turns, p, c, k) {
        Some(turns[choose|k: int| first_turn(turns, p, c, k)].order@)
    } else {
        None
    }
}

/// `n` may extend the chain: it is a free spoke of the chain's last vertex,
/// not the vertex before it, and not on the chain yet.
pub open spec fn is_candidate(m: &Mesh, chain: Seq<VertId>, n: VertId) -> bool {
    &&& spokes(m, chain.last()).contains(n)
    &&& n != chain[chain.len() - 2]
    &&& !chain.contains(n)
}

/// `i` is the first position of `order` holding a candidate.
pub open spec fn first_candidate_at(m: &Mesh, chain: Seq<VertId>, order: Seq<VertId>, i: int) -> bool {
    &&& 0 <= i < order.len()
    &&& is_candidate(m, chain, order[i])
    &&& forall|j: int| 0 <= j < i ==> !is_candidate(m, chain, #[trigger] order[j])
}

/// The vertex the left-turn rule adds next: the first candidate in the
/// preferred order of the last step (none without an order or candidate).
pub open spec fn next_vertex(m: &Mesh, turns: Seq<TurnOrder>, chain: Seq<VertId>) -> Option<VertId> {
    match lookup_turn(turns, chain[chain.len() - 2], chain.last()) {
        None => None,
        Some(order) => if exists|i: int| first_candidate_at(m, chain, order, i) {
            Some(order[choose|i: int| first_candidate_at(m, chain, order, i)])
        } else {
            None
        },
    }
}

/// Some vertex strictly inside the chain lies on the boundary.
pub open spec fn interior_on_boundary(boundary: Seq<VertId>, chain: Seq<VertId>) -> bool {
    exists|i: int| 1 <= i < chain.len() - 1 && boundary.contains(#[trigger] chain[i])
}

/// The left-turn walk continued from `chain` for at most `fuel` more steps:
/// it ends on reaching a boundary vertex other than the entry (a chain
/// whose inner vertices avoid the boundary is found; otherwise none), and
/// gives none when it gets stuck or runs out of steps.
pub open spec fn walk_from(m: &Mesh, boundary: Seq<VertId>, turns: Seq<TurnOrder>, entry: VertId, chain: Seq<VertId>, fuel: nat) -> Option<Seq<VertId>>
    decreases fuel,
{
    if fuel == 0 {
        None
    } else if boundary.contains(chain.last()) && chain.last() != entry {
        if interior_on_boundary(boundary, chain) {
            None
        } else {
            Some(chain)
        }
    } else {
        match next_vertex(m, turns, chain) {
            None => None,
            Some(n) => walk_from(m, boundary, turns, entry, chain.push(n), (fuel - 1) as nat),
        }
    }
}

/// The most steps a walk takes.
pub const WALK_STEPS: usize = 512;

/// The chain the left-turn walk finds from boundary vertex `entry` along
/// the free spoke to `start`.
pub open spec fn left_turn_walk(m: &Mesh, boundary: Seq<VertId>, turns: Seq<TurnOrder>, entry: VertId, start: VertId) -> Option<Seq<VertId>> {
    walk_from(m, boundary, turns, entry, seq![entry, start], WALK_STEPS as nat)
}

/// Whether `v` occurs in `s`.
pub(crate) fn contains_vert(s: &Vec<VertId>, v: VertId) -> (r: bool)
    ensures
        r == s@.contains(v),
{
    let mut i: usize = 0;
    while i < s.len()
        invariant
            0 <= i <= s@.len(),
            forall|j: int| 0 <= j < i ==> s@[j] != v,
        decreases s@.len() - i,
    {
        if s[i] == v {
            return true;
        }
        i = i + 1;
    }
    false
}

/// The first entry of `turns` for the step `p → c`.
fn find_turn(turns: &[TurnOrder], p: VertId, c: VertId) -> (r: Option<usize>)
    ensures
        match r {
            Some(k) => first_turn(turns@, p, c, k as int),
            None => !exists|k: int| first_turn(turns@, p, c, k),
        },
{
    let mut k: usize = 0;
    while k < turns.len()
        invariant
            0 <= k <= turns@.len(),
            forall|j: int| 0 <= j < k ==> !(#[trigger] turns@[j].prev == p && turns@[j].cur == c),
        decreases turns@.len() - k,
    {
        if turns[k].prev == p && turns[k].cur == c {
            return Some(k);
        }
        k = k + 1;
    }
    None
}

/// The vertex the left-turn rule adds to `chain` next.
fn next_vertex_exec(mesh: &Mesh, turns: &[TurnOrder], chain: &Vec<VertId>) -> (r: Option<VertId>)
    requires
        mesh.wf(),
        chain@.len() >= 2,
    ensures
        r == next_vertex(mesh, turns@, chain@),
{
    let n = chain.len();
    let prev = chain[n - 2];
    let cur = chain[n - 1];
    let k = match find_turn(turns, prev, cur) {
        Some(k) => k,
        None => {
            return None;
        },
    };
    proof {
        let kk = choose|q: int| first_turn(turns@, prev, cur, q);
        if kk < k {
            assert(!(turns@[kk].prev == prev && turns@[kk].cur == cur));
        } else if k < kk {
            assert(!(turns@[k as int].prev == prev && turns@[k as int].cur == cur));
        }
        assert(lookup_turn(turns@, prev, cur) == Some(turns@[k as int].order@));
    }
    let order = &turns[k].order;
    let sp = free_spokes(mesh, cur);
    let mut i: usize = 0;
    while i < order.len()
        invariant
            mesh.wf(),
            chain@.len() >= 2,
            prev == chain@[chain@.len() - 2],
            cur == chain@.last(),
            sp@ == spokes(mesh, cur),
            lookup_turn(turns@, prev, cur) == Some(order@),
            0 <= i <= order@.len(),
            forall|j: int| 0 <= j < i ==> !is_candidate(mesh, chain@, #[trigger] order@[j]),
        decreases order@.len() - i,
    {
        let w = order[i];
        if contains_vert(&sp, w) && w != prev && !contains_vert(chain, w) {
            proof {
                assert(first_candidate_at(mesh, chain@, order@, i as int));
                let ii = choose|q: int| first_candidate_at(mesh, chain@, order@, q);
                if ii < i {
                    assert(!is_candidate(mesh, chain@, order@[ii]));
                } else if i < ii {
                    assert(!is_candidate(mesh, chain@, order@[i as int]));
                }
                assert(ii == i);
                assert(exists|q: int| first_candidate_at(mesh, chain@, order@, q));
                assert(lookup_turn(turns@, chain@[chain@.len() - 2], chain@.last()) == Some(order@));
                let lk = lookup_turn(turns@, chain@[chain@.len() - 2], chain@.last());
                assert(lk.unwrap() == order@);
                assert(next_vertex(mesh, turns@, chain@) == Some(order@[ii]));
            }
            return Some(w);
        }
        i = i + 1;
    }
    None
}

/// Whether some vertex strictly inside `chain` occurs in `boundary`.
fn interior_on_boundary_exec(boundary: &Vec<VertId>, chain: &Vec<VertId>) -> (r: bool)
    ensures
        r == interior_on_boundary(boundary@, chain@),
{
    let n = chain.len();
    if n < 2 {
        return false;
    }
    let mut i: usize = 1;
    while i < n - 1
        invariant
            n == chain@.len(),
            n >= 2,
            1 <= i <= n - 1,
            forall|j: int| 1 <= j < i ==> !boundary@.contains(#[trigger] chain@[j]),
        decreases n - i,
    {
        if contains_vert(boundary, chain[i]) {
            return true;
        }
        i = i + 1;
    }
    false
}

/// Walk from boundary vertex `entry` along the free spoke to `start`,
/// taking at each vertex the first candidate in the preferred order.
fn left_turn_walk_exec(mesh: &Mesh, boundary: &Vec<VertId>, turns: &[TurnOrder], entry: VertId, start: VertId) -> (r: Option<Vec<VertId>>)
    requires
        mesh.wf(),
    ensures
        match r {
            Some(c) => left_turn_walk(mesh, boundary@, turns@, entry, start) == Some(c@),
            None => left_turn_walk(mesh, boundary@, turns@, entry, start) is None,
        },
{
    let mut chain: Vec<VertId> = Vec::new();
    chain.push(entry);
    chain.push(start);
    assert(chain@ =~= seq![entry, start]);
    let mut step: usize = 0;
    while step < WALK_STEPS
        invariant
            mesh.wf(),
            0 <= step <= WALK_STEPS,
            chain@.len() >= 2,
            walk_from(mesh, boundary@, turns@, entry, chain@, (WALK_STEPS - step) as nat)
                == left_turn_walk(mesh, boundary@, turns@, entry, start),
        decreases WALK_STEPS - step,
    {
        let cur = chain[chain.len() - 1];
        if contains_vert(boundary, cur) && cur != entry {
            if interior_on_boundary_exec(boundary, &chain) {
                return None;
            }
            return Some(chain);
        }
        match next_vertex_exec(mesh, turns, &chain) {
            None => {
                return None;
            },
            Some(nx) => {
                chain.push(nx);
            },
        }
        step = step + 1;
    }
    None
}

// ───────────────────────── enumerating the chains ─────────────────────────

/// `i` is the first position of `v` in `s`.
pub open spec fn first_index_at(s: Seq<VertId>, v: VertId, i: int) -> bool {
    &&& 0 <= i < s.len()
    &&& s[i] == v
    &&& forall|j: int| 0 <= j < i ==> s[j] != v
}

/// The first position of `v` in `s` (meaningful when `v` occurs).
pub open spec fn first_index(s: Seq<VertId>, v: VertId) -> int {
    choose|i: int| first_index_at(s, v, i)
}

/// `a` and `b` are neighbours on the boundary loop (by first positions).
pub open spec fn adjacent_on(boundary: Seq<VertId>, a: VertId, b: VertId) -> bool {
    let ia = first_index(boundary, a);
    let ib = first_index(boundary, b);
    let diff = if ia < ib { ib - ia } else { ia - ib };
    diff == 1 || boundary.len() - diff == 1
}

/// The chains found from `entry` along the free spoke to `first`: a spoke
/// straight to a non-adjacent boundary vertex is a chain of its own; a
/// spoke to an adjacent one is skipped; otherwise the left-turn walk.
pub open spec fn spoke_paths(m: &Mesh, boundary: Seq<VertId>, turns: Seq<TurnOrder>, entry: VertId, first: VertId) -> Seq<Seq<VertId>> {
    if boundary.contains(first) {
        if adjacent_on(boundary, entry, first) {
            Seq::empty()
        } else {
            seq![seq![entry, first]]
        }
    } else {
        match left_turn_walk(m, boundary, turns, entry, first) {
            Some(p) => seq![p],
            None => Seq::empty(),
        }
    }
}

/// The chains found from `entry` along each spoke of `sp`, in order.
pub open spec fn entry_paths(m: &Mesh, boundary: Seq<VertId>, turns: Seq<TurnOrder>, entry: VertId, sp: Seq<VertId>) -> Seq<Seq<VertId>>
    decreases sp.len(),
{
    if sp.len() == 0 {
        Seq::empty()
    } else {
        entry_paths(m, boundary, turns, entry, sp.drop_last()) + spoke_paths(m, boundary, turns, entry, sp.last())
    }
}

/// The chains found from each vertex of `entries` along each of its free
/// spokes, in order.
pub open spec fn candidate_paths(m: &Mesh, boundary: Seq<VertId>, turns: Seq<TurnOrder>, entries: Seq<VertId>) -> Seq<Seq<VertId>>
    decreases entries.len(),
{
    if entries.len() == 0 {
        Seq::empty()
    } else {
        candidate_paths(m, boundary, turns, entries.drop_last()) + entry_paths(
            m,
            boundary,
            turns,
            entries.last(),
            spokes(m, entries.last()),
        )
    }
}

/// No chain before position `j` has the canonical key of chain `j`.
pub open spec fn first_of_key(cands: Seq<Seq<VertId>>, j: int) -> bool {
    forall|t: int| 0 <= t < j ==> canonical(#[trigger] cands[t]) != canonical(cands[j])
}

/// `x` is the first chain of `cands` with its canonical key.
pub open spec fn picked_from(cands: Seq<Seq<VertId>>, x: Seq<VertId>) -> bool {
    exists|j: int| 0 <= j < cands.len() && cands[j] == x && first_of_key(cands, j)
}

/// Some chain of `res` has canonical key `k`.
pub open spec fn key_listed(res: Seq<Seq<VertId>>, k: Seq<u32>) -> bool {
    exists|i: int| 0 <= i < res.len() && canonical(#[trigger] res[i]) == k
}

/// `res` keeps one chain per canonical key of `cands` (the first one), in
/// increasing key order.
pub open spec fn is_key_dedup(cands: Seq<Seq<VertId>>, res: Seq<Seq<VertId>>) -> bool {
    &&& forall|i: int, j: int| 0 <= i < j < res.len() ==> lex_lt(canonical(#[trigger] res[i]), canonical(#[trigger] res[j]))
    &&& forall|i: int| 0 <= i < res.len() ==> #[trigger] picked_from(cands, res[i])
    &&& forall|j: int| 0 <= j < cands.len() ==> #[trigger] key_listed(res, canonical(cands[j]))
}

/// The outer-loop vertices of face `f` when it is stored, its outer loop
/// closes and has at least three vertices.
pub open spec fn face_boundary(m: &Mesh, f: FaceId) -> Option<Seq<VertId>> {
    if m.has_face(f) && has_loop(m.hes@, m.face(f).outer.id as int) && dsts_of(
        m.hes@,
        loop_seq(m.hes@, m.face(f).outer.id as int),
    ).len() >= 3 {
        Some(dsts_of(m.hes@, loop_seq(m.hes@, m.face(f).outer.id as int)))
    } else {
        None
    }
}

/// The first position of `v` in `s`.
pub(crate) fn position(s: &Vec<VertId>, v: VertId) -> (r: Option<usize>)
    ensures
        match r {
            Some(i) => first_index_at(s@, v, i as int),
            None => !s@.contains(v),
        },
{
    let mut i: usize = 0;
    while i < s.len()
        invariant
            0 <= i <= s@.len(),
            forall|j: int| 0 <= j < i ==> s@[j] != v,
        decreases s@.len() - i,
    {
        if s[i] == v {
            return Some(i);
        }
        i = i + 1;
    }
    None
}

/// The chains found from each boundary vertex along each of its free
/// spokes, in order (before removing duplicates).
fn enumerate_paths(mesh: &Mesh, boundary: &Vec<VertId>, turns: &[TurnOrder]) -> (r: Vec<Vec<VertId>>)
    requires
        mesh.wf(),
    ensures
        chain_views(r@) == candidate_paths(mesh, boundary@, turns@, boundary@),
{
    let mut paths: Vec<Vec<VertId>> = Vec::new();
    let mut k: usize = 0;
    while k < boundary.len()
        invariant
            mesh.wf(),
            0 <= k <= boundary@.len(),
            chain_views(paths@) == candidate_paths(mesh, boundary@, turns@, boundary@.subrange(0, k as int)),
        decreases boundary@.len() - k,
    {
        let entry = boundary[k];
        let sp = free_spokes(mesh, entry);
        let ghost base = chain_views(paths@);
        let mut j: usize = 0;
        while j < sp.len()
            invariant
                mesh.wf(),
                0 <= k < boundary@.len(),
                entry == boundary@[k as int],
                sp@ == spokes(mesh, entry),
                0 <= j <= sp@.len(),
                base == candidate_paths(mesh, boundary@, turns@, boundary@.subrange(0, k as int)),
                chain_views(paths@) == base + entry_paths(mesh, boundary@, turns@, entry, sp@.subrange(0, j as int)),
            decreases sp@.len() - j,
        {
            let first = sp[j];
            let ghost pre = chain_views(paths@);
            proof {
                let sub = sp@.subrange(0, j as int + 1);
                assert(sub.drop_last() =~= sp@.subrange(0, j as int));
                assert(sub.last() == first);
            }
            if contains_vert(boundary, first) {
                let ia = position(boundary, entry);
                let ib = position(boundary, first);
                match (ia, ib) {
                    (Some(ia), Some(ib)) => {
                        proof {
                            let fa = first_index(boundary@, entry);
                            let fb = first_index(boundary@, first);
                            assert(first_index_at(boundary@, entry, fa));
                            if fa < ia {
                                assert(boundary@[fa] != entry);
                            } else if ia < fa {
                                assert(boundary@[ia as int] != entry);
                            }
                            assert(first_index_at(boundary@, first, fb));
                            if fb < ib {
                                assert(boundary@[fb] != first);
                            } else if ib < fb {
                                assert(boundary@[ib as int] != first);
                            }
                        }
                        let diff = if ia < ib { ib - ia } else { ia - ib };
                        let wrap = boundary.len() - diff;
                        if !(diff == 1 || wrap == 1) {
                            let mut pair: Vec<VertId> = Vec::new();
                            pair.push(entry);
                            pair.push(first);
                            paths.push(pair);
                            proof {
                                assert(pair@ =~= seq![entry, first]);
                            }
                        }
                    },
                    _ => {
                        proof {
                            assert(boundary@[k as int] == entry);
                            assert(boundary@.contains(entry));
                        }
                    },
                }
            } else {
                match left_turn_walk_exec(mesh, boundary, turns, entry, first) {
                    Some(p) => {
                        paths.push(p);
                    },
                    None => {},
                }
            }
            proof {
                let sub = sp@.subrange(0, j as int + 1);
                assert(chain_views(paths@) =~= pre + spoke_paths(mesh, boundary@, turns@, entry, first));
                assert(entry_paths(mesh, boundary@, turns@, entry, sub) == entry_paths(
                    mesh,
                    boundary@,
                    turns@,
                    entry,
                    sp@.subrange(0, j as int),
                ) + spoke_paths(mesh, boundary@, turns@, entry, first));
                assert(chain_views(paths@) =~= base + entry_paths(mesh, boundary@, turns@, entry, sub));
            }
            j = j + 1;
        }
        proof {
            assert(sp@.subrange(0, sp@.len() as int) =~= sp@);
            let sub = boundary@.subrange(0, k as int + 1);
            assert(sub.drop_last() =~= boundary@.subrange(0, k as int));
            assert(sub.last() == entry);
            assert(chain_views(paths@) =~= candidate_paths(mesh, boundary@, turns@, sub));
        }
        k = k + 1;
    }
    assert(boundary@.subrange(0, boundary@.len() as int) =~= boundary@);
    paths
}

/// A copy of a chain.
fn copy_chain(v: &Vec<VertId>) -> (r: Vec<VertId>)
    ensures
        r@ == v@,
{
    let mut out: Vec<VertId> = Vec::new();
    let mut q: usize = 0;
    while q < v.len()
        invariant
            0 <= q <= v@.len(),
            out@ == v@.subrange(0, q as int),
        decreases v@.len() - q,
    {
        out.push(v[q]);
        q = q + 1;
        assert(out@ =~= v@.subrange(0, q as int));
    }
    assert(out@ =~= v@);
    out
}

/// Keys below position `q` are smaller than `k`, keys from `q` on are larger.
pub open spec fn splits_at(res: Seq<Seq<VertId>>, k: Seq<u32>, q: int) -> bool {
    &&& 0 <= q <= res.len()
    &&& forall|t: int| 0 <= t < q ==> lex_lt(canonical(#[trigger] res[t]), k)
    &&& forall|t: int| q <= t < res.len() ==> lex_lt(k, canonical(#[trigger] res[t]))
}

/// A later chain whose key is already listed leaves the selection as it is.
proof fn lemma_dedup_keep(cv: Seq<Seq<VertId>>, i: int, res: Seq<Seq<VertId>>)
    requires
        0 <= i < cv.len(),
        is_key_dedup(cv.subrange(0, i), res),
        key_listed(res, canonical(cv[i])),
    ensures
        is_key_dedup(cv.subrange(0, i + 1), res),
{
    let s0 = cv.subrange(0, i);
    let s1 = cv.subrange(0, i + 1);
    assert forall|r: int| 0 <= r < res.len() implies #[trigger] picked_from(s1, res[r]) by {
        assert(picked_from(s0, res[r]));
        let j = choose|j: int| 0 <= j < s0.len() && s0[j] == res[r] && first_of_key(s0, j);
        assert(s1[j] == s0[j]);
        assert forall|t: int| 0 <= t < j implies canonical(#[trigger] s1[t]) != canonical(s1[j]) by {
            assert(s1[t] == s0[t]);
        }
    }
    assert forall|j: int| 0 <= j < s1.len() implies #[trigger] key_listed(res, canonical(s1[j])) by {
        if j < i {
            assert(s1[j] == s0[j]);
            assert(key_listed(res, canonical(s0[j])));
        }
    }
}

/// Inserting a chain with a new key at its place in key order keeps the
/// selection right.
proof fn lemma_dedup_insert(cv: Seq<Seq<VertId>>, i: int, res: Seq<Seq<VertId>>, q: int)
    requires
        0 <= i < cv.len(),
        is_key_dedup(cv.subrange(0, i), res),
        splits_at(res, canonical(cv[i]), q),
    ensures
        is_key_dedup(cv.subrange(0, i + 1), res.insert(q, cv[i])),
{
    let s0 = cv.subrange(0, i);
    let s1 = cv.subrange(0, i + 1);
    let x = cv[i];
    let k = canonical(x);
    let r1 = res.insert(q, x);
    assert(s1[i] == x);
    // no chain selected so far has key k
    assert forall|t: int| 0 <= t < res.len() implies canonical(#[trigger] res[t]) != k by {
        if t < q {
            lemma_lex_irrefl(k);
        } else {
            lemma_lex_irrefl(k);
        }
    }
    // sorted
    assert forall|a: int, b: int| 0 <= a < b < r1.len() implies lex_lt(canonical(#[trigger] r1[a]), canonical(#[trigger] r1[b])) by {
        if b < q {
            assert(r1[a] == res[a] && r1[b] == res[b]);
        } else if b == q {
            assert(r1[a] == res[a]);
        } else if a == q {
            assert(r1[b] == res[b - 1]);
        } else if a < q {
            assert(r1[a] == res[a] && r1[b] == res[b - 1]);
            lemma_lex_trans(canonical(res[a]), k, canonical(res[b - 1]));
        } else {
            assert(r1[a] == res[a - 1] && r1[b] == res[b - 1]);
        }
    }
    // every selected chain is the first with its key
    assert forall|r: int| 0 <= r < r1.len() implies #[trigger] picked_from(s1, r1[r]) by {
        if r == q {
            assert forall|t: int| 0 <= t < i implies canonical(#[trigger] s1[t]) != canonical(s1[i]) by {
                assert(s1[t] == s0[t]);
                assert(key_listed(res, canonical(s0[t])));
                let w = choose|w: int| 0 <= w < res.len() && canonical(#[trigger] res[w]) == canonical(s0[t]);
                assert(canonical(res[w]) != k);
            }
            assert(first_of_key(s1, i));
        } else {
            let rr = if r < q { r } else { r - 1 };
            assert(r1[r] == res[rr]);
            assert(picked_from(s0, res[rr]));
            let j = choose|j: int| 0 <= j < s0.len() && s0[j] == res[rr] && first_of_key(s0, j);
            assert(s1[j] == s0[j]);
            assert forall|t: int| 0 <= t < j implies canonical(#[trigger] s1[t]) != canonical(s1[j]) by {
                assert(s1[t] == s0[t]);
            }
        }
    }
    // every key is listed
    assert forall|j: int| 0 <= j < s1.len() implies #[trigger] key_listed(r1, canonical(s1[j])) by {
        if j < i {
            assert(s1[j] == s0[j]);
            assert(key_listed(res, canonical(s0[j])));
            let w = choose|w: int| 0 <= w < res.len() && canonical(#[trigger] res[w]) == canonical(s0[j]);
            if w < q {
                assert(r1[w] == res[w]);
            } else {
                assert(r1[w + 1] == res[w]);
            }
        } else {
            assert(r1[q] == x);
        }
    }
}

/// One chain per canonical key, the first of each, in increasing key order.
pub fn dedup_by_canonical_key(cands: &Vec<Vec<VertId>>) -> (res: Vec<Vec<VertId>>)
    ensures
        is_key_dedup(chain_views(cands@), chain_views(res@)),
{
    let ghost cv = chain_views(cands@);
    let mut res: Vec<Vec<VertId>> = Vec::new();
    let mut keys: Vec<Vec<u32>> = Vec::new();
    let mut i: usize = 0;
    while i < cands.len()
        invariant
            cv == chain_views(cands@),
            0 <= i <= cands@.len(),
            res@.len() == keys@.len(),
            forall|t: int| 0 <= t < keys@.len() ==> (#[trigger] keys@[t])@ == canonical(res@[t]@),
            is_key_dedup(cv.subrange(0, i as int), chain_views(res@)),
        decreases cands@.len() - i,
    {
        let key = canonical_key(cands[i].as_slice());
        assert(cv[i as int] == cands@[i as int]@);
        let ghost rv = chain_views(res@);
        let mut q: usize = 0;
        while q < keys.len()
            invariant
                0 <= q <= keys@.len(),
                res@.len() == keys@.len(),
                rv == chain_views(res@),
                forall|t: int| 0 <= t < keys@.len() ==> (#[trigger] keys@[t])@ == canonical(res@[t]@),
                forall|t: int| 0 <= t < q ==> lex_lt(canonical(#[trigger] rv[t]), key@),
            ensures
                0 <= q <= keys@.len(),
                res@.len() == keys@.len(),
                rv == chain_views(res@),
                forall|t: int| 0 <= t < keys@.len() ==> (#[trigger] keys@[t])@ == canonical(res@[t]@),
                forall|t: int| 0 <= t < q ==> lex_lt(canonical(#[trigger] rv[t]), key@),
                q < keys@.len() ==> !lex_lt(keys@[q as int]@, key@),
            decreases keys@.len() - q,
        {
            if !lex_less(&keys[q], &key) {
                break;
            }
            assert(rv[q as int] == res@[q as int]@);
            q = q + 1;
        }
        let dup = q < keys.len() && !lex_less(&key, &keys[q]);
        proof {
            assert(is_key_dedup(cv.subrange(0, i as int), rv));
            if q < keys.len() {
                assert(rv[q as int] == res@[q as int]@);
                let kq = canonical(rv[q as int]);
                assert(!lex_lt(kq, key@));
                assert(kq.subrange(0, 0) =~= key@.subrange(0, 0));
                lemma_lex_total_from(kq, key@, 0);
                if dup {
                    assert(kq == key@);
                    assert(key_listed(rv, canonical(cv[i as int])));
                    lemma_dedup_keep(cv, i as int, rv);
                } else {
                    assert(lex_lt(key@, kq));
                    assert forall|t: int| q <= t < rv.len() implies lex_lt(key@, canonical(#[trigger] rv[t])) by {
                        if t > q {
                            lemma_lex_trans(key@, kq, canonical(rv[t]));
                        }
                    }
                    assert(splits_at(rv, canonical(cv[i as int]), q as int));
                    lemma_dedup_insert(cv, i as int, rv, q as int);
                }
            } else {
                assert(splits_at(rv, canonical(cv[i as int]), q as int));
                lemma_dedup_insert(cv, i as int, rv, q as int);
            }
        }
        if !dup {
            let ghost ko = keys@;
            let ghost ro = res@;
            let c = copy_chain(&cands[i]);
            res.insert(q, c);
            keys.insert(q, key);
            proof {
                assert(chain_views(res@) =~= rv.insert(q as int, cv[i as int]));
                assert forall|t: int| 0 <= t < keys@.len() implies (#[trigger] keys@[t])@ == canonical(res@[t]@) by {
                    if t < q {
                        assert(keys@[t] == ko[t] && res@[t] == ro[t]);
                    } else if t > q {
                        assert(keys@[t] == ko[t - 1] && res@[t] == ro[t - 1]);
                    }
                }
            }
        }
        i = i + 1;
    }
    assert(cv.subrange(0, cands@.len() as int) =~= cv);
    res
}

/// Chain `a` comes strictly before chain `b`: it is shorter, or as long
/// with a lexicographically smaller canonical key.
pub open spec fn chain_before(a: Seq<VertId>, b: Seq<VertId>) -> bool {
    a.len() < b.len() || (a.len() == b.len() && lex_lt(canonical(a), canonical(b)))
}

/// The views of a list of chains.
pub open spec fn chain_views(paths: Seq<Vec<VertId>>) -> Seq<Seq<VertId>> {
    paths.map_values(|p: Vec<VertId>| p@)
}

/// `res` is the chain of `paths` a stable sort by (length, canonical key)
/// puts in front: shorter than every chain before it and not longer-or-
/// larger than any after it; none when `paths` is empty.
pub open spec fn shortest_pick(paths: Seq<Seq<VertId>>, res: Option<Seq<VertId>>) -> bool {
    match res {
        None => paths.len() == 0,
        Some(p) => exists|k: int|
            0 <= k < paths.len() && #[trigger] paths[k] == p && (forall|j: int|
                0 <= j < k ==> chain_before(p, #[trigger] paths[j])) && (forall|j: int|
                k < j < paths.len() ==> !chain_before(#[trigger] paths[j], p)),
    }
}

/// The view of an optional chain.
pub open spec fn opt_view(r: Option<Vec<VertId>>) -> Option<Seq<VertId>> {
    match r {
        Some(v) => Some(v@),
        None => None,
    }
}

/// Pick the shortest chain, ties broken by canonical key and then by list
/// order (the first chain a stable sort by (length, key) puts in front).
/// `None` when there is no chain.
pub fn shortest_chain(paths: &Vec<Vec<VertId>>) -> (res: Option<Vec<VertId>>)
    ensures
        shortest_pick(chain_views(paths@), opt_view(res)),
{
    if paths.len() == 0 {
        return None;
    }
    let mut best: usize = 0;
    let mut best_key = canonical_key(paths[0].as_slice());
    let mut i: usize = 1;
    while i < paths.len()
        invariant
            1 <= i <= paths@.len(),
            0 <= best < i,
            best_key@ == canonical(paths@[best as int]@),
            forall|j: int| 0 <= j < best ==> chain_before(paths@[best as int]@, #[trigger] paths@[j]@),
            forall|j: int| best < j < i ==> !chain_before(#[trigger] paths@[j]@, paths@[best as int]@),
        decreases paths@.len() - i,
    {
        let key = canonical_key(paths[i].as_slice());
        let li = paths[i].len();
        let lb = paths[best].len();
        if li < lb || (li == lb && lex_less(&key, &best_key)) {
            proof {
                assert forall|j: int| 0 <= j < i implies chain_before(paths@[i as int]@, #[trigger] paths@[j]@) by {
                    if j < best {
                        lemma_chain_trans(paths@[i as int]@, paths@[best as int]@, paths@[j]@);
                    } else if j > best {
                        lemma_chain_before_not_after(paths@[i as int]@, paths@[best as int]@, paths@[j]@);
                    }
                }
            }
            best = i;
            best_key = key;
        }
        i = i + 1;
    }
    let mut out: Vec<VertId> = Vec::new();
    let mut q: usize = 0;
    while q < paths[best].len()
        invariant
            0 <= best < paths@.len(),
            0 <= q <= paths@[best as int]@.len(),
            out@ == paths@[best as int]@.subrange(0, q as int),
        decreases paths@[best as int]@.len() - q,
    {
        out.push(paths[best][q]);
        q = q + 1;
        assert(out@ =~= paths@[best as int]@.subrange(0, q as int));
    }
    assert(out@ =~= paths@[best as int]@);
    proof {
        let cv = chain_views(paths@);
        assert(cv[best as int] == out@);
        assert forall|j: int| 0 <= j < best implies chain_before(out@, #[trigger] cv[j]) by {
            assert(cv[j] == paths@[j]@);
        }
        assert forall|j: int| best < j < cv.len() implies !chain_before(#[trigger] cv[j], out@) by {
            assert(cv[j] == paths@[j]@);
        }
    }
    Some(out)
}

/// Every distinct boundary-to-boundary free-edge chain on face `face_id`,
/// by the left-turn rule: from each vertex of the outer loop along each of
/// its free spokes, a spoke straight to a non-adjacent boundary vertex is a
/// chain, otherwise the left-turn walk (using the preferred orders in
/// `turns`) gives one or none. Chains that are reversals of each other
/// count once: one chain per canonical key, the first found, in increasing
/// key order. `plane_ok` says whether the face's plane could be set up
/// (non-degenerate in-plane axis and normal); without it, or without an
/// outer loop of at least three vertices, there are no chains.
pub fn find_all_left_turn_paths(mesh: &Mesh, face_id: FaceId, plane_ok: bool, turns: &[TurnOrder]) -> (res: Vec<Vec<VertId>>)
    requires
        mesh.wf(),
    ensures
        match face_boundary(mesh, face_id) {
            Some(b) => if plane_ok {
                is_key_dedup(candidate_paths(mesh, b, turns@, b), chain_views(res@))
            } else {
                res@.len() == 0
            },
            None => res@.len() == 0,
        },
        left_turn_paths_ok(mesh, face_id, plane_ok, turns@, chain_views(res@)),
{
    let idx = face_id.id as usize;
    if idx >= mesh.faces.len() {
        return Vec::new();
    }
    let outer = match &mesh.faces[idx] {
        Some(fc) => fc.outer,
        None => {
            return Vec::new();
        },
    };
    let boundary = match mesh.collect_loop_verts(outer) {
        Ok(b) => b,
        Err(_) => {
            return Vec::new();
        },
    };
    if boundary.len() < 3 || !plane_ok {
        return Vec::new();
    }
    let cands = enumerate_paths(mesh, &boundary, turns);
    dedup_by_canonical_key(&cands)
}

/// The chains that `find_all_left_turn_paths` could give: one per
/// canonical key of the candidates, in increasing key order (empty when
/// there is no usable face or plane).
pub open spec fn left_turn_paths_ok(m: &Mesh, f: FaceId, plane_ok: bool, turns: Seq<TurnOrder>, all: Seq<Seq<VertId>>) -> bool {
    match face_boundary(m, f) {
        Some(b) => if plane_ok {
            is_key_dedup(candidate_paths(m, b, turns, b), all)
        } else {
            all.len() == 0
        },
        None => all.len() == 0,
    }
}

/// The shortest left-turn chain on the face (ties broken by canonical key),
/// or none.
pub fn find_first_left_turn_path(mesh: &Mesh, face_id: FaceId, plane_ok: bool, turns: &[TurnOrder]) -> (res: Option<Vec<VertId>>)
    requires
        mesh.wf(),
    ensures
        exists|all: Seq<Seq<VertId>>| #[trigger] left_turn_paths_ok(mesh, face_id, plane_ok, turns@, all) && shortest_pick(all, opt_view(res)),
{
    let paths = find_all_left_turn_paths(mesh, face_id, plane_ok, turns);
    let res = shortest_chain(&paths);
    assert(left_turn_paths_ok(mesh, face_id, plane_ok, turns@, chain_views(paths@)));
    res
}

/// A boundary-to-boundary chain: at least two vertices, both ends on the
/// boundary, none strictly inside it on the boundary, and, when longer than
/// a single spoke, no vertex twice.
pub open spec fn boundary_chain(boundary: Seq<VertId>, c: Seq<VertId>) -> bool {
    &&& c.len() >= 2
    &&& boundary.contains(c[0])
    &&& boundary.contains(c.last())
    &&& !interior_on_boundary(boundary, c)
    &&& c.len() > 2 ==> c.no_duplicates()
}

/// A walk started on the boundary ends, if it finds a chain, in a
/// boundary-to-boundary chain from its entry to another boundary vertex.
proof fn lemma_walk_from_shape(m: &Mesh, boundary: Seq<VertId>, turns: Seq<TurnOrder>, entry: VertId, chain: Seq<VertId>, fuel: nat)
    requires
        chain.len() >= 2,
        boundary.contains(chain[0]),
        chain.no_duplicates(),
    ensures
        walk_from(m, boundary, turns, entry, chain, fuel) matches Some(p) ==> boundary_chain(boundary, p) && p[0] == chain[0]
            && p.last() != entry,
    decreases fuel,
{
    if fuel > 0 && !(boundary.contains(chain.last()) && chain.last() != entry) {
        if let Some(n) = next_vertex(m, turns, chain) {
            let order = lookup_turn(turns, chain[chain.len() - 2], chain.last())->Some_0;
            let i = choose|i: int| first_candidate_at(m, chain, order, i);
            assert(is_candidate(m, chain, n));
            let c2 = chain.push(n);
            assert(c2[0] == chain[0]);
            assert(c2.no_duplicates()) by {
                assert forall|a: int, b: int| 0 <= a < b < c2.len() implies c2[a] != c2[b] by {
                    if b == chain.len() {
                        assert(c2[a] == chain[a]);
                        assert(c2[b] == n);
                        assert(chain.contains(chain[a]));
                    } else {
                        assert(c2[a] == chain[a] && c2[b] == chain[b]);
                    }
                }
            }
            lemma_walk_from_shape(m, boundary, turns, entry, c2, (fuel - 1) as nat);
        }
    }
}

/// The chains found along one spoke from a boundary vertex are
/// boundary-to-boundary chains.
proof fn lemma_spoke_paths_shape(m: &Mesh, boundary: Seq<VertId>, turns: Seq<TurnOrder>, entry: VertId, first: VertId)
    requires
        boundary.contains(entry),
    ensures
        forall|i: int| 0 <= i < spoke_paths(m, boundary, turns, entry, first).len() ==> boundary_chain(
            boundary,
            #[trigger] spoke_paths(m, boundary, turns, entry, first)[i],
        ),
{
    if boundary.contains(first) {
        let c = seq![entry, first];
        assert(c[0] == entry && c.last() == first);
        assert(!interior_on_boundary(boundary, c));
    } else {
        let c = seq![entry, first];
        assert(c[0] == entry);
        assert(entry != first);
        assert(c.no_duplicates());
        lemma_walk_from_shape(m, boundary, turns, entry, c, WALK_STEPS as nat);
    }
}

/// The chains found along the spokes `sp` of a boundary vertex are
/// boundary-to-boundary chains.
proof fn lemma_entry_paths_shape(m: &Mesh, boundary: Seq<VertId>, turns: Seq<TurnOrder>, entry: VertId, sp: Seq<VertId>)
    requires
        boundary.contains(entry),
    ensures
        forall|i: int| 0 <= i < entry_paths(m, boundary, turns, entry, sp).len() ==> boundary_chain(
            boundary,
            #[trigger] entry_paths(m, boundary, turns, entry, sp)[i],
        ),
    decreases sp.len(),
{
    if sp.len() > 0 {
        lemma_entry_paths_shape(m, boundary, turns, entry, sp.drop_last());
        lemma_spoke_paths_shape(m, boundary, turns, entry, sp.last());
        let a = entry_paths(m, boundary, turns, entry, sp.drop_last());
        let b = spoke_paths(m, boundary, turns, entry, sp.last());
        assert forall|i: int| 0 <= i < (a + b).len() implies boundary_chain(boundary, #[trigger] (a + b)[i]) by {
            if i < a.len() {
                assert((a + b)[i] == a[i]);
            } else {
                assert((a + b)[i] == b[i - a.len()]);
            }
        }
    }
}

/// The candidate chains from boundary vertices `entries` are
/// boundary-to-boundary chains.
proof fn lemma_candidate_paths_shape(m: &Mesh, boundary: Seq<VertId>, turns: Seq<TurnOrder>, entries: Seq<VertId>)
    requires
        forall|i: int| 0 <= i < entries.len() ==> boundary.contains(#[trigger] entries[i]),
    ensures
        forall|i: int| 0 <= i < candidate_paths(m, boundary, turns, entries).len() ==> boundary_chain(
            boundary,
            #[trigger] candidate_paths(m, boundary, turns, entries)[i],
        ),
    decreases entries.len(),
{
    if entries.len() > 0 {
        lemma_candidate_paths_shape(m, boundary, turns, entries.drop_last());
        assert(boundary.contains(entries[entries.len() - 1]));
        lemma_entry_paths_shape(m, boundary, turns, entries.last(), spokes(m, entries.last()));
        let a = candidate_paths(m, boundary, turns, entries.drop_last());
        let b = entry_paths(m, boundary, turns, entries.last(), spokes(m, entries.last()));
        assert forall|i: int| 0 <= i < (a + b).len() implies boundary_chain(boundary, #[trigger] (a + b)[i]) by {
            if i < a.len() {
                assert((a + b)[i] == a[i]);
            } else {
                assert((a + b)[i] == b[i - a.len()]);
            }
        }
    }
}

/// Every chain found on a face runs from its boundary to its boundary: at
/// least two vertices, both ends on the face's outer loop, and no vertex in
/// between on it.
pub proof fn lemma_left_turn_paths_shape(m: &Mesh, f: FaceId, plane_ok: bool, turns: Seq<TurnOrder>, all: Seq<Seq<VertId>>)
    requires
        left_turn_paths_ok(m, f, plane_ok, turns, all),
    ensures
        forall|i: int| 0 <= i < all.len() ==> face_boundary(m, f) is Some && boundary_chain(
            face_boundary(m, f)->Some_0,
            #[trigger] all[i],
        ),
{
    if let Some(b) = face_boundary(m, f) {
        if plane_ok {
            let cands = candidate_paths(m, b, turns, b);
            assert forall|i: int| 0 <= i < b.len() implies b.contains(#[trigger] b[i]) by {}
            lemma_candidate_paths_shape(m, b, turns, b);
            assert forall|i: int| 0 <= i < all.len() implies boundary_chain(b, #[trigger] all[i]) by {
                assert(picked_from(cands, all[i]));
                let j = choose|j: int| 0 <= j < cands.len() && cands[j] == all[i] && first_of_key(cands, j);
                assert(boundary_chain(b, cands[j]));
            }
        }
    }
}

/// Two chains picked from the same candidates with the same canonical key
/// are the same chain.
proof fn lemma_picked_unique(cands: Seq<Seq<VertId>>, x: Seq<VertId>, y: Seq<VertId>)
    requires
        picked_from(cands, x),
        picked_from(cands, y),
        canonical(x) == canonical(y),
    ensures
        x == y,
{
    let j = choose|j: int| 0 <= j < cands.len() && cands[j] == x && first_of_key(cands, j);
    let k = choose|k: int| 0 <= k < cands.len() && cands[k] == y && first_of_key(cands, k);
    if j < k {
        assert(canonical(cands[j]) != canonical(cands[k]));
    } else if k < j {
        assert(canonical(cands[k]) != canonical(cands[j]));
    }
}

/// In a selection by key, the key of entry `i` of one selection is the key
/// of some entry of another selection of the same candidates.
proof fn lemma_key_dedup_key_in(cands: Seq<Seq<VertId>>, r1: Seq<Seq<VertId>>, r2: Seq<Seq<VertId>>, i: int)
    requires
        is_key_dedup(cands, r1),
        is_key_dedup(cands, r2),
        0 <= i < r1.len(),
    ensures
        exists|p: int| 0 <= p < r2.len() && canonical(#[trigger] r2[p]) == canonical(r1[i]) && r2[p] == r1[i],
{
    assert(picked_from(cands, r1[i]));
    let j = choose|j: int| 0 <= j < cands.len() && cands[j] == r1[i] && first_of_key(cands, j);
    assert(key_listed(r2, canonical(cands[j])));
    let p = choose|p: int| 0 <= p < r2.len() && canonical(#[trigger] r2[p]) == canonical(cands[j]);
    assert(picked_from(cands, r2[p]));
    lemma_picked_unique(cands, r2[p], r1[i]);
}

/// Entries of a selection by key at different places have different keys.
proof fn lemma_key_dedup_keys_distinct(cands: Seq<Seq<VertId>>, r: Seq<Seq<VertId>>, a: int, b: int)
    requires
        is_key_dedup(cands, r),
        0 <= a < r.len(),
        0 <= b < r.len(),
        a != b,
    ensures
        canonical(r[a]) != canonical(r[b]),
{
    if a < b {
        assert(lex_lt(canonical(r[a]), canonical(r[b])));
        lemma_lex_irrefl(canonical(r[a]));
    } else {
        assert(lex_lt(canonical(r[b]), canonical(r[a])));
        lemma_lex_irrefl(canonical(r[b]));
    }
}

/// Two selections by key of the same candidates agree on their first `i`
/// entries.
proof fn lemma_key_dedup_prefix(cands: Seq<Seq<VertId>>, r1: Seq<Seq<VertId>>, r2: Seq<Seq<VertId>>, i: int)
    requires
        is_key_dedup(cands, r1),
        is_key_dedup(cands, r2),
        0 <= i <= r1.len(),
        i <= r2.len(),
    ensures
        forall|t: int| 0 <= t < i ==> #[trigger] r1[t] == r2[t],
    decreases i,
{
    if i > 0 {
        let t = i - 1;
        lemma_key_dedup_prefix(cands, r1, r2, t);
        lemma_key_dedup_key_in(cands, r1, r2, t);
        lemma_key_dedup_key_in(cands, r2, r1, t);
        let p = choose|p: int| 0 <= p < r2.len() && canonical(#[trigger] r2[p]) == canonical(r1[t]) && r2[p] == r1[t];
        let q = choose|q: int| 0 <= q < r1.len() && canonical(#[trigger] r1[q]) == canonical(r2[t]) && r1[q] == r2[t];
        if p < t {
            assert(r1[p] == r2[p]);
            lemma_key_dedup_keys_distinct(cands, r1, p, t);
        }
        if q < t {
            assert(r1[q] == r2[q]);
            lemma_key_dedup_keys_distinct(cands, r2, q, t);
        }
        if p > t {
            assert(lex_lt(canonical(r2[t]), canonical(r2[p])));
            if q > t {
                assert(lex_lt(canonical(r1[t]), canonical(r1[q])));
                lemma_lex_trans(canonical(r1[t]), canonical(r1[q]), canonical(r1[t]));
                lemma_lex_irrefl(canonical(r1[t]));
            } else {
                assert(q == t);
                lemma_lex_irrefl(canonical(r1[t]));
            }
        }
    }
}

/// A selection by key of given candidates is unique: any two are equal.
pub proof fn lemma_key_dedup_unique(cands: Seq<Seq<VertId>>, r1: Seq<Seq<VertId>>, r2: Seq<Seq<VertId>>)
    requires
        is_key_dedup(cands, r1),
        is_key_dedup(cands, r2),
    ensures
        r1 == r2,
{
    let n = if r1.len() < r2.len() { r1.len() as int } else { r2.len() as int };
    lemma_key_dedup_prefix(cands, r1, r2, n);
    if r1.len() > r2.len() {
        lemma_key_dedup_key_in(cands, r1, r2, n);
        let p = choose|p: int| 0 <= p < r2.len() && canonical(#[trigger] r2[p]) == canonical(r1[n]) && r2[p] == r1[n];
        assert(r1[p] == r2[p]);
        lemma_key_dedup_keys_distinct(cands, r1, p, n);
    } else if r2.len() > r1.len() {
        lemma_key_dedup_key_in(cands, r2, r1, n);
        let p = choose|p: int| 0 <= p < r1.len() && canonical(#[trigger] r1[p]) == canonical(r2[n]) && r1[p] == r2[n];
        assert(r1[p] == r2[p]);
        lemma_key_dedup_keys_distinct(cands, r2, p, n);
    }
    assert(r1 =~= r2);
}

/// The chains `find_first_left_turn_path` picks among are the chains
/// `find_all_left_turn_paths` returns: both contracts name the one list
/// that meets `left_turn_paths_ok`.
pub proof fn lemma_left_turn_paths_unique(
    m: &Mesh,
    f: FaceId,
    plane_ok: bool,
    turns: Seq<TurnOrder>,
    all1: Seq<Seq<VertId>>,
    all2: Seq<Seq<VertId>>,
)
    requires
        left_turn_paths_ok(m, f, plane_ok, turns, all1),
        left_turn_paths_ok(m, f, plane_ok, turns, all2),
    ensures
        all1 == all2,
{
    match face_boundary(m, f) {
        Some(b) => {
            if plane_ok {
                lemma_key_dedup_unique(candidate_paths(m, b, turns, b), all1, all2);
            } else {
                assert(all1 =~= all2);
            }
        },
        None => {
            assert(all1 =~= all2);
        },
    }
}

/// Chains are kept once up to direction: no chain of a selection by
/// canonical key repeats another one, forwards or reversed.
pub proof fn lemma_key_dedup_distinct_up_to_reversal(cands: Seq<Seq<VertId>>, res: Seq<Seq<VertId>>)
    requires
        is_key_dedup(cands, res),
    ensures
        forall|i: int, j: int| 0 <= i < j < res.len() ==> #[trigger] res[i] != #[trigger] res[j] && res[i] != res[j].reverse(),
{
    assert forall|i: int, j: int| 0 <= i < j < res.len() implies #[trigger] res[i] != #[trigger] res[j] && res[i] != res[j].reverse() by {
        assert(lex_lt(canonical(res[i]), canonical(res[j])));
        lemma_lex_irrefl(canonical(res[i]));
        lemma_canonical_reverse(res[j]);
    }
}

/// Lexicographic order is transitive.
proof fn lemma_lex_trans(a: Seq<u32>, b: Seq<u32>, c: Seq<u32>)
    requires
        lex_lt(a, b),
        lex_lt(b, c),
    ensures
        lex_lt(a, c),
{
    let i = choose|i: int|
        0 <= i <= a.len() && i <= b.len() && a.subrange(0, i) == b.subrange(0, i) && ((i == a.len() && i
            < b.len()) || (i < a.len() && i < b.len() && a[i] < b[i]));
    let j = choose|j: int|
        0 <= j <= b.len() && j <= c.len() && b.subrange(0, j) == c.subrange(0, j) && ((j == b.len() && j
            < c.len()) || (j < b.len() && j < c.len() && b[j] < c[j]));
    let k = if i < j { i } else { j };
    assert(a.subrange(0, k) =~= c.subrange(0, k)) by {
        assert forall|t: int| 0 <= t < k implies a.subrange(0, k)[t] == c.subrange(0, k)[t] by {
            assert(a.subrange(0, i)[t] == b.subrange(0, i)[t]);
            assert(b.subrange(0, j)[t] == c.subrange(0, j)[t]);
        }
    }
    if i < j {
        assert(b.subrange(0, j)[i] == c.subrange(0, j)[i]);
    } else if j < i {
        assert(a.subrange(0, i)[j] == b.subrange(0, i)[j]);
    }
    assert((k == a.len() && k < c.len()) || (k < a.len() && k < c.len() && a[k] < c[k]));
}

/// Two id sequences are equal or one is lexicographically smaller, given
/// that they agree on their first `k` entries.
proof fn lemma_lex_total_from(a: Seq<u32>, b: Seq<u32>, k: int)
    requires
        0 <= k <= a.len(),
        k <= b.len(),
        a.subrange(0, k) == b.subrange(0, k),
    ensures
        a == b || lex_lt(a, b) || lex_lt(b, a),
    decreases a.len() - k,
{
    if k == a.len() || k == b.len() {
        if a.len() < b.len() {
            assert(lex_lt(a, b));
        } else if b.len() < a.len() {
            assert(b.subrange(0, k) == a.subrange(0, k));
            assert(lex_lt(b, a));
        } else {
            assert(a =~= a.subrange(0, k));
            assert(b =~= b.subrange(0, k));
        }
    } else if a[k] == b[k] {
        assert(a.subrange(0, k + 1) =~= a.subrange(0, k).push(a[k]));
        assert(b.subrange(0, k + 1) =~= b.subrange(0, k).push(b[k]));
        lemma_lex_total_from(a, b, k + 1);
    } else if a[k] < b[k] {
        assert(lex_lt(a, b));
    } else {
        assert(b.subrange(0, k) == a.subrange(0, k));
        assert(lex_lt(b, a));
    }
}

/// Chain order is transitive.
proof fn lemma_chain_trans(x: Seq<VertId>, y: Seq<VertId>, z: Seq<VertId>)
    requires
        chain_before(x, y),
        chain_before(y, z),
    ensures
        chain_before(x, z),
{
    if x.len() == y.len() && y.len() == z.len() {
        lemma_lex_trans(canonical(x), canonical(y), canonical(z));
    }
}

/// If `x` comes before `y` and `z` does not come before `y`, then `x`
/// comes before `z`.
proof fn lemma_chain_before_not_after(x: Seq<VertId>, y: Seq<VertId>, z: Seq<VertId>)
    requires
        chain_before(x, y),
        !chain_before(z, y),
    ensures
        chain_before(x, z),
{
    if x.len() == y.len() && y.len() == z.len() {
        let ky = canonical(y);
        let kz = canonical(z);
        assert(ky.subrange(0, 0) =~= kz.subrange(0, 0));
        lemma_lex_total_from(ky, kz, 0);
        if lex_lt(ky, kz) {
            lemma_lex_trans(canonical(x), ky, kz);
        }
    }
}

/// No sequence is lexicographically smaller than itself.
proof fn lemma_lex_irrefl(a: Seq<u32>)
    ensures
        !lex_lt(a, a),
{
}

/// A chain and its reversal have the same canonical key.
pub proof fn lemma_canonical_reverse(chain: Seq<VertId>)
    ensures
        canonical(chain.reverse()) == canonical(chain),
{
    let r = raws(chain);
    let rv = r.reverse();
    assert(raws(chain.reverse()) =~= rv);
    assert(rv.reverse() =~= r);
    if lex_lt(r, rv) {
        if lex_lt(rv, r) {
            lemma_lex_trans(r, rv, r);
            lemma_lex_irrefl(r);
        }
    } else if !lex_lt(rv, r) {
        assert(r.subrange(0, 0) =~= rv.subrange(0, 0));
        lemma_lex_total_from(r, rv, 0);
    }
}

} // verus!
