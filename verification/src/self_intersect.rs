//! Reports of geometric self-intersection between faces.
use vstd::prelude::*;
use vstd::string::*;

use crate::ids::{FaceId, VertId};
use crate::text::{decimal, push_decimal};

verus! {

/// Result of a self-intersection scan: the pairs of active faces whose
/// tessellations properly intersect.
#[derive(Debug, Clone)]
pub struct SelfIntersectionReport {
    pub intersecting_pairs: Vec<(FaceId, FaceId)>,
}

/// The text of `SelfIntersectionReport::summary` for `n` pairs.
pub open spec fn intersection_summary_text(n: nat) -> Seq<char> {
    if n == 0 {
        "no self-intersections"@
    } else {
        decimal(n) + " self-intersecting face pair(s)"@
    }
}

impl SelfIntersectionReport {
    /// A report with no pairs.
    pub fn new() -> (r: SelfIntersectionReport)
        ensures
            r.intersecting_pairs@.len() == 0,
    {
        SelfIntersectionReport { intersecting_pairs: Vec::new() }
    }

    /// True when no self-intersection was found.
    pub fn is_clean(&self) -> (b: bool)
        ensures
            b == (self.intersecting_pairs@.len() == 0),
    {
        self.intersecting_pairs.len() == 0
    }

    /// Number of intersecting face pairs.
    pub fn count(&self) -> (n: usize)
        ensures
            n == self.intersecting_pairs@.len(),
    {
        self.intersecting_pairs.len()
    }

    /// One line: "no self-intersections" or "N self-intersecting face
    /// pair(s)".
    pub fn summary(&self) -> (s: String)
        ensures
            s@ == intersection_summary_text(self.intersecting_pairs@.len()),
    {
        proof {
            reveal_strlit("no self-intersections");
            reveal_strlit(" self-intersecting face pair(s)");
        }
        if self.is_clean() {
            String::from_str("no self-intersections")
        } else {
            let mut s = String::new();
            push_decimal(&mut s, self.count());
            s.append(" self-intersecting face pair(s)");
            assert(s@ =~= intersection_summary_text(self.intersecting_pairs@.len()));
            s
        }
    }
}

/// Pair `a` comes before pair `b` by the raw id of the first face, then of
/// the second.
pub open spec fn pair_lt(a: (FaceId, FaceId), b: (FaceId, FaceId)) -> bool {
    a.0.id < b.0.id || (a.0.id == b.0.id && a.1.id < b.1.id)
}

/// The pairs are in strictly increasing order (so none is repeated).
pub open spec fn pairs_sorted(v: Seq<(FaceId, FaceId)>) -> bool {
    forall|i: int, j: int| 0 <= i < j < v.len() ==> pair_lt(#[trigger] v[i], #[trigger] v[j])
}

/// Whether the two vertex lists have a vertex in common.
pub fn faces_share_vertex(a: &[VertId], b: &[VertId]) -> (r: bool)
    ensures
        r == exists|i: int, j: int| 0 <= i < a@.len() && 0 <= j < b@.len() && a@[i] == b@[j],
{
    let mut i: usize = 0;
    while i < a.len()
        invariant
            0 <= i <= a@.len(),
            forall|p: int, q: int| 0 <= p < i && 0 <= q < b@.len() ==> a@[p] != b@[q],
        decreases a@.len() - i,
    {
        let mut j: usize = 0;
        while j < b.len()
            invariant
                0 <= i < a@.len(),
                0 <= j <= b@.len(),
                forall|q: int| 0 <= q < j ==> a@[i as int] != b@[q],
            decreases b@.len() - j,
        {
            if a[i] == b[j] {
                return true;
            }
            j = j + 1;
        }
        i = i + 1;
    }
    false
}

/// Inserting `x` at a place that keeps the order keeps it sorted, and the
/// members are the old ones and `x`.
proof fn lemma_insert_sorted(v: Seq<(FaceId, FaceId)>, q: int, x: (FaceId, FaceId))
    requires
        pairs_sorted(v),
        0 <= q <= v.len(),
        forall|t: int| 0 <= t < q ==> pair_lt(#[trigger] v[t], x),
        forall|t: int| q <= t < v.len() ==> pair_lt(x, #[trigger] v[t]),
    ensures
        pairs_sorted(v.insert(q, x)),
        forall|y: (FaceId, FaceId)| v.insert(q, x).contains(y) <==> (v.contains(y) || y == x),
{
    let w = v.insert(q, x);
    assert forall|i: int, j: int| 0 <= i < j < w.len() implies pair_lt(#[trigger] w[i], #[trigger] w[j]) by {
        if j < q {
            assert(w[i] == v[i] && w[j] == v[j]);
        } else if j == q {
            assert(w[i] == v[i]);
        } else if i == q {
            assert(w[j] == v[j - 1]);
        } else if i < q {
            assert(w[i] == v[i] && w[j] == v[j - 1]);
        } else {
            assert(w[i] == v[i - 1] && w[j] == v[j - 1]);
        }
    }
    assert forall|y: (FaceId, FaceId)| w.contains(y) <==> (v.contains(y) || y == x) by {
        if w.contains(y) {
            let k = choose|k: int| 0 <= k < w.len() && w[k] == y;
            if k < q {
                assert(v[k] == y);
            } else if k > q {
                assert(v[k - 1] == y);
            }
        }
        if v.contains(y) {
            let k = choose|k: int| 0 <= k < v.len() && v[k] == y;
            if k < q {
                assert(w[k] == y);
            } else {
                assert(w[k + 1] == y);
            }
        }
        if y == x {
            assert(w[q] == x);
        }
    }
}

impl SelfIntersectionReport {
    /// The report for the given intersecting pairs, in increasing order of
    /// the faces' raw ids, each pair once.
    pub fn from_pairs(pairs: &Vec<(FaceId, FaceId)>) -> (r: SelfIntersectionReport)
        ensures
            pairs_sorted(r.intersecting_pairs@),
            forall|x: (FaceId, FaceId)| r.intersecting_pairs@.contains(x) <==> pairs@.contains(x),
    {
        let mut out: Vec<(FaceId, FaceId)> = Vec::new();
        let mut i: usize = 0;
        while i < pairs.len()
            invariant
                0 <= i <= pairs@.len(),
                pairs_sorted(out@),
                forall|x: (FaceId, FaceId)| out@.contains(x) <==> pairs@.subrange(0, i as int).contains(x),
            decreases pairs@.len() - i,
        {
            let p = pairs[i];
            let mut q: usize = 0;
            while q < out.len()
                invariant
                    0 <= q <= out@.len(),
                    forall|t: int| 0 <= t < q ==> pair_lt(#[trigger] out@[t], p),
                ensures
                    0 <= q <= out@.len(),
                    forall|t: int| 0 <= t < q ==> pair_lt(#[trigger] out@[t], p),
                    q < out@.len() ==> !pair_lt(out@[q as int], p),
                decreases out@.len() - q,
            {
                let o = out[q];
                if !(o.0.id < p.0.id || (o.0.id == p.0.id && o.1.id < p.1.id)) {
                    break;
                }
                q = q + 1;
            }
            let ghost pre = out@;
            proof {
                let sub = pairs@.subrange(0, i as int + 1);
                assert(sub =~= pairs@.subrange(0, i as int).push(p));
                assert forall|x: (FaceId, FaceId)| sub.contains(x) <==> (pairs@.subrange(0, i as int).contains(x) || x == p) by {
                    if sub.contains(x) {
                        let k = choose|k: int| 0 <= k < sub.len() && sub[k] == x;
                        if k < i {
                            assert(pairs@.subrange(0, i as int)[k] == x);
                        }
                    }
                    if pairs@.subrange(0, i as int).contains(x) {
                        let k = choose|k: int| 0 <= k < i && pairs@.subrange(0, i as int)[k] == x;
                        assert(sub[k] == x);
                    }
                    if x == p {
                        assert(sub[i as int] == x);
                    }
                }
            }
            let dup = q < out.len() && out[q].0 == p.0 && out[q].1 == p.1;
            if dup {
                proof {
                    assert(out@[q as int] == p);
                    assert(out@.contains(p));
                }
            } else {
                proof {
                    assert forall|t: int| q <= t < pre.len() implies pair_lt(p, #[trigger] pre[t]) by {
                        assert(!pair_lt(pre[q as int], p));
                        assert(pre[q as int] != p);
                        if t > q {
                            assert(pair_lt(pre[q as int], pre[t]));
                        }
                    }
                    lemma_insert_sorted(pre, q as int, p);
                }
                out.insert(q, p);
            }
            proof {
                let sub = pairs@.subrange(0, i as int + 1);
                assert forall|x: (FaceId, FaceId)| out@.contains(x) <==> sub.contains(x) by {
                    assert(sub.contains(x) <==> (pairs@.subrange(0, i as int).contains(x) || x == p));
                    assert(pre.contains(x) <==> pairs@.subrange(0, i as int).contains(x));
                    if !dup {
                        assert(out@.contains(x) <==> (pre.contains(x) || x == p));
                    }
                }
            }
            i = i + 1;
        }
        assert(pairs@.subrange(0, pairs@.len() as int) =~= pairs@);
        SelfIntersectionReport { intersecting_pairs: out }
    }
}

impl Default for SelfIntersectionReport {
    fn default() -> (r: SelfIntersectionReport)
        ensures
            r.intersecting_pairs@.len() == 0,
    {
        SelfIntersectionReport { intersecting_pairs: Vec::new() }
    }
}

} // verus!
