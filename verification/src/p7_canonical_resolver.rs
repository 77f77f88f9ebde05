//! Rebuilding a container face as a ring: the connected groups of inner
//! faces it contains become hole loops of a single face.
use vstd::prelude::*;
use vstd::string::*;

use crate::components::{is_component_split, nested_view};
use crate::ids::{FaceId, VertId, NULL_RAW};
use crate::mesh::{dsts_of, has_loop, loop_seq, mesh_error_text, Mesh, MeshError};
use crate::p7_manifold::{region_checked, region_violations, verify_p7_manifold, P7ManifoldReport};
use crate::perimeter::{perimeter_closes, perimeter_of};
use crate::ring::{loop_visits, loops_view, ring_degenerate, ring_fits, ring_verts_ok};
use crate::text::{decimal, push_decimal};

verus! {

/// Errors of `enforce_p7_canonical`.
#[derive(Debug, Clone, PartialEq)]
pub enum P7EnforceError {
    /// The container, or every inner face, is missing or inactive.
    InvalidInput { container_active: bool, inner_count_active: usize, inner_count_total: usize },
    /// No connected component was found among the inner faces.
    NoComponents,
    /// The combined perimeter of one component could not be computed.
    PerimeterFailed { component_index: usize, reason: String },
    /// Rebuild not performed (kept for callers that match on it).
    RebuildDeferred { component_count: usize, hole_loop_lengths: Vec<usize> },
    /// Removing the container or adding the ring face failed. The mesh may
    /// be partly changed.
    RebuildFailed { reason: String },
}

/// `true` or `false`.
pub open spec fn bool_text(b: bool) -> Seq<char> {
    if b {
        "true"@
    } else {
        "false"@
    }
}

/// The entries of a list of counts, separated by ", ".
pub open spec fn list_body(v: Seq<usize>) -> Seq<char>
    decreases v.len(),
{
    if v.len() == 0 {
        Seq::empty()
    } else if v.len() == 1 {
        decimal(v[0] as nat)
    } else {
        list_body(v.drop_last()) + ", "@ + decimal(v.last() as nat)
    }
}

/// A list of counts in brackets: "[6, 4]".
pub open spec fn list_text(v: Seq<usize>) -> Seq<char> {
    "["@ + list_body(v) + "]"@
}

/// The message of each error.
pub open spec fn p7_error_text(e: P7EnforceError) -> Seq<char> {
    match e {
        P7EnforceError::InvalidInput { container_active, inner_count_active, inner_count_total } =>
            "InvalidInput (container_active="@ + bool_text(container_active) + ", inners "@ + decimal(
            inner_count_active as nat) + "/"@ + decimal(inner_count_total as nat) + " active)"@,
        P7EnforceError::NoComponents => "NoComponents (no inners or all inactive)"@,
        P7EnforceError::PerimeterFailed { component_index, reason } => "PerimeterFailed (component "@
            + decimal(component_index as nat) + ", reason: "@ + reason@ + ")"@,
        P7EnforceError::RebuildDeferred { component_count, hole_loop_lengths } =>
            "RebuildDeferred (β-1 sentinel — "@ + decimal(component_count as nat) + " components, hole loops: "@
            + list_text(hole_loop_lengths@) + ")"@,
        P7EnforceError::RebuildFailed { reason } => "RebuildFailed ("@ + reason@ + ")"@,
    }
}

/// Append `[a, b, ...]` to `out`.
fn push_list(out: &mut String, v: &Vec<usize>)
    ensures
        final(out)@ == old(out)@ + list_text(v@),
{
    proof {
        reveal_strlit("[");
        reveal_strlit("]");
        reveal_strlit(", ");
    }
    out.append("[");
    let ghost start = out@;
    let mut i: usize = 0;
    while i < v.len()
        invariant
            0 <= i <= v@.len(),
            out@ == start + list_body(v@.subrange(0, i as int)),
            start == old(out)@ + "["@,
        decreases v@.len() - i,
    {
        let ghost pre = out@;
        if i > 0 {
            out.append(", ");
        }
        push_decimal(out, v[i]);
        proof {
            let sub = v@.subrange(0, i as int + 1);
            assert(sub.drop_last() =~= v@.subrange(0, i as int));
            assert(sub.last() == v@[i as int]);
            if i == 0 {
                assert(v@.subrange(0, 0) =~= Seq::<usize>::empty());
                assert(out@ =~= start + list_body(sub));
            } else {
                assert(out@ =~= start + list_body(sub));
            }
        }
        i = i + 1;
    }
    assert(v@.subrange(0, v@.len() as int) =~= v@);
    out.append("]");
    assert(out@ =~= old(out)@ + list_text(v@));
}

impl P7EnforceError {
    /// The human-readable message of the error.
    pub fn message(&self) -> (s: String)
        ensures
            s@ == p7_error_text(*self),
    {
        proof {
            reveal_strlit("InvalidInput (container_active=");
            reveal_strlit("true");
            reveal_strlit("false");
            reveal_strlit(", inners ");
            reveal_strlit("/");
            reveal_strlit(" active)");
            reveal_strlit("NoComponents (no inners or all inactive)");
            reveal_strlit("PerimeterFailed (component ");
            reveal_strlit(", reason: ");
            reveal_strlit(")");
            reveal_strlit("RebuildDeferred (β-1 sentinel — ");
            reveal_strlit(" components, hole loops: ");
            reveal_strlit("RebuildFailed (");
        }
        match self {
            P7EnforceError::InvalidInput { container_active, inner_count_active, inner_count_total } => {
                let mut s = String::from_str("InvalidInput (container_active=");
                s.append(if *container_active { "true" } else { "false" });
                s.append(", inners ");
                push_decimal(&mut s, *inner_count_active);
                s.append("/");
                push_decimal(&mut s, *inner_count_total);
                s.append(" active)");
                assert(s@ =~= p7_error_text(*self));
                s
            },
            P7EnforceError::NoComponents => String::from_str("NoComponents (no inners or all inactive)"),
            P7EnforceError::PerimeterFailed { component_index, reason } => {
                let mut s = String::from_str("PerimeterFailed (component ");
                push_decimal(&mut s, *component_index);
                s.append(", reason: ");
                s.append(reason.as_str());
                s.append(")");
                assert(s@ =~= p7_error_text(*self));
                s
            },
            P7EnforceError::RebuildDeferred { component_count, hole_loop_lengths } => {
                let mut s = String::from_str("RebuildDeferred (β-1 sentinel — ");
                push_decimal(&mut s, *component_count);
                s.append(" components, hole loops: ");
                push_list(&mut s, hole_loop_lengths);
                s.append(")");
                assert(s@ =~= p7_error_text(*self));
                s
            },
            P7EnforceError::RebuildFailed { reason } => {
                let mut s = String::from_str("RebuildFailed (");
                s.append(reason.as_str());
                s.append(")");
                assert(s@ =~= p7_error_text(*self));
                s
            },
        }
    }
}


/// Result of a successful `enforce_p7_canonical`.
#[derive(Debug, Clone)]
pub struct P7EnforceResult {
    /// Number of connected components of inner faces (one hole loop each).
    pub component_count: usize,
    /// The manifold check run after the rebuild.
    pub manifold_report: P7ManifoldReport,
}

/// The vertices of the outer loop of stored face `c`.
pub open spec fn outer_loop_verts(m: &Mesh, c: FaceId) -> Seq<VertId> {
    dsts_of(m.hes@, loop_seq(m.hes@, m.face(c).outer.id as int))
}

/// Each loop reversed.
pub open spec fn reversed_loops(loops: Seq<Seq<VertId>>) -> Seq<Seq<VertId>> {
    loops.map_values(|l: Seq<VertId>| l.reverse())
}

/// The container can be rebuilt as a ring whose holes are the given loops
/// reversed: its outer loop closes and the new face can be added.
pub open spec fn ring_rebuild_ok(m: &Mesh, c: FaceId, loops: Seq<Seq<VertId>>) -> bool {
    let ov = outer_loop_verts(m, c);
    let hs = reversed_loops(loops);
    &&& m.face(c).outer.id != NULL_RAW
    &&& has_loop(m.hes@, m.face(c).outer.id as int)
    &&& !ring_degenerate(ov, hs)
    &&& ring_fits(m, ov, hs)
    &&& ring_verts_ok(m, ov, hs)
}

/// `m1` is `m0` with container `c` made inactive and a new active face
/// appended, keeping the container's outer vertices, normal and material,
/// with one hole per loop of `loops`, each reversed.
pub open spec fn rebuilt(m0: &Mesh, m1: &Mesh, c: FaceId, loops: Seq<Seq<VertId>>) -> bool {
    let f = FaceId { id: m0.nf() as u32 };
    &&& m1.nf() == m0.nf() + 1
    &&& m1.verts@ == m0.verts@
    &&& m1.has_face(c)
    &&& !m1.face(c).active
    &&& m1.face(c).outer == m0.face(c).outer
    &&& m1.face(c).inners@ == m0.face(c).inners@
    &&& forall|j: int| 0 <= j < m0.nf() && j != c.id as int ==> #[trigger] m1.faces@[j] == m0.faces@[j]
    &&& m1.face_active(f)
    &&& m1.face(f).normal == m0.face(c).normal
    &&& m1.face(f).material == m0.face(c).material
    &&& loop_visits(m1, m1.face(f).outer, outer_loop_verts(m0, c))
    &&& m1.face(f).inners@.len() == loops.len()
    &&& forall|i: int| 0 <= i < loops.len() ==> loop_visits(m1, #[trigger] m1.face(f).inners@[i], loops[i].reverse())
}

/// The reason texts of a failed rebuild.
pub open spec fn rebuild_reason(m: &Mesh, c: FaceId, r: Seq<char>) -> bool {
    ||| r == "container FaceId("@ + decimal(c.id as nat) + ") has null outer"@
    ||| exists|e: MeshError| r == "collect_loop_verts failed: "@ + mesh_error_text(e)
    ||| exists|e: MeshError| r == "remove_face failed: "@ + mesh_error_text(e)
    ||| exists|e: MeshError| r == "add_face_with_holes failed: "@ + mesh_error_text(e)
}

/// `v` reversed.
fn reversed(v: &Vec<VertId>) -> (r: Vec<VertId>)
    ensures
        r@ == v@.reverse(),
{
    let mut r: Vec<VertId> = Vec::new();
    let mut i: usize = v.len();
    while i > 0
        invariant
            0 <= i <= v@.len(),
            r@ == v@.subrange(i as int, v@.len() as int).reverse(),
        decreases i,
    {
        i = i - 1;
        r.push(v[i]);
        assert(r@ =~= v@.subrange(i as int, v@.len() as int).reverse());
    }
    assert(v@.subrange(0, v@.len() as int) =~= v@);
    r
}

/// A message: `prefix` followed by the description of `e`.
fn error_message(prefix: &str, e: MeshError) -> (s: String)
    ensures
        s@ == prefix@ + mesh_error_text(e),
{
    let mut s = String::from_str(prefix);
    s.append(e.describe());
    s
}

/// Rebuild the active face `container` as a ring: remove it and add a face
/// with its outer vertices, normal and material, and one hole per loop of
/// `hole_loops`, reversed (the loops run the other way round from a hole).
fn rebuild_as_ring_face(mesh: &mut Mesh, container: FaceId, hole_loops: &Vec<Vec<VertId>>) -> (res: Result<(), String>)
    requires
        old(mesh).wf(),
        old(mesh).face_active(container),
    ensures
        final(mesh).wf(),
        final(mesh).verts@ == old(mesh).verts@,
        res is Ok <==> ring_rebuild_ok(old(mesh), container, loops_view(hole_loops@)),
        res is Ok ==> rebuilt(old(mesh), final(mesh), container, loops_view(hole_loops@)),
        match res {
            Ok(_) => true,
            Err(r) => rebuild_reason(old(mesh), container, r@),
        },
{
    proof {
        reveal_strlit("container FaceId(");
        reveal_strlit(") has null outer");
    }
    let ghost m0 = *mesh;
    let idx = container.id as usize;
    let (outer, normal, material) = match &mesh.faces[idx] {
        Some(fc) => (fc.outer, fc.normal, fc.material),
        None => {
            return Err(String::from_str("container not found"));
        },
    };
    if outer.id == NULL_RAW {
        let mut s = String::from_str("container FaceId(");
        push_decimal(&mut s, container.id as usize);
        s.append(") has null outer");
        assert(s@ =~= "container FaceId("@ + decimal(container.id as nat) + ") has null outer"@);
        return Err(s);
    }
    let outer_verts = match mesh.collect_loop_verts(outer) {
        Ok(v) => v,
        Err(e) => {
            return Err(error_message("collect_loop_verts failed: ", e));
        },
    };
    let mut cw_holes: Vec<Vec<VertId>> = Vec::new();
    let mut i: usize = 0;
    while i < hole_loops.len()
        invariant
            0 <= i <= hole_loops@.len(),
            cw_holes@.len() == i,
            forall|k: int| 0 <= k < i ==> (#[trigger] cw_holes@[k])@ == hole_loops@[k]@.reverse(),
        decreases hole_loops@.len() - i,
    {
        cw_holes.push(reversed(&hole_loops[i]));
        i = i + 1;
    }
    proof {
        assert(loops_view(cw_holes@) =~= reversed_loops(loops_view(hole_loops@)));
    }
    match mesh.remove_face(container) {
        Ok(()) => {},
        Err(e) => {
            return Err(error_message("remove_face failed: ", e));
        },
    }
    let ghost m1 = *mesh;
    match mesh.add_face_with_holes(outer_verts.as_slice(), &cw_holes, normal, material) {
        Ok(f) => {
            proof {
                let ls = loops_view(hole_loops@);
                assert(outer_verts@ == outer_loop_verts(&m0, container));
                assert forall|j: int| 0 <= j < m0.nf() && j != container.id as int implies #[trigger] mesh.faces@[j] == m0.faces@[j] by {
                    assert(mesh.faces@.subrange(0, m1.nf())[j] == mesh.faces@[j]);
                }
                assert(mesh.faces@[container.id as int] == m1.faces@[container.id as int]) by {
                    assert(mesh.faces@.subrange(0, m1.nf())[container.id as int] == mesh.faces@[container.id as int]);
                }
                assert forall|k: int| 0 <= k < ls.len() implies loop_visits(mesh, #[trigger] mesh.face(f).inners@[k], ls[k].reverse()) by {
                    assert(loops_view(cw_holes@)[k] == ls[k].reverse());
                }
            }
            Ok(())
        },
        Err(e) => {
            return Err(error_message("add_face_with_holes failed: ", e));
        },
    }
}


/// The active faces among `inners`, in order.
pub open spec fn active_inners(m: &Mesh, inners: Seq<FaceId>) -> Seq<FaceId> {
    inners.filter(|f: FaceId| m.face_active(f))
}

/// The combined perimeter of each component.
pub open spec fn perimeters(m: &Mesh, comps: Seq<Seq<FaceId>>) -> Seq<Seq<VertId>> {
    comps.map_values(|c: Seq<FaceId>| perimeter_of(m, c))
}

/// The perimeters of the first `k` components all close.
pub open spec fn perimeters_close_upto(m: &Mesh, comps: Seq<Seq<FaceId>>, k: int) -> bool {
    forall|i: int| 0 <= i < k ==> perimeter_closes(m, #[trigger] comps[i])
}

/// A `PerimeterFailed` outcome: for some split of the active inner faces
/// into components, component `index` is the first whose perimeter does not
/// close; the reason is a kernel error description.
pub open spec fn perimeter_failed_outcome(m0: &Mesh, inners: Seq<FaceId>, index: usize, reason: Seq<char>) -> bool {
    &&& exists|comps: Seq<Seq<FaceId>>| {
        &&& is_component_split(m0, active_inners(m0, inners), comps)
        &&& index < comps.len()
        &&& perimeters_close_upto(m0, comps, index as int)
        &&& !perimeter_closes(m0, #[trigger] comps[index as int])
    }
    &&& exists|e: MeshError| reason == mesh_error_text(e)
}

/// A `RebuildFailed` outcome: for some split of the active inner faces into
/// components, every perimeter closes but the ring face cannot be built.
pub open spec fn rebuild_failed_outcome(m0: &Mesh, container: FaceId, inners: Seq<FaceId>, reason: Seq<char>) -> bool {
    &&& exists|comps: Seq<Seq<FaceId>>| {
        &&& #[trigger] is_component_split(m0, active_inners(m0, inners), comps)
        &&& perimeters_close_upto(m0, comps, comps.len() as int)
        &&& !ring_rebuild_ok(m0, container, perimeters(m0, comps))
    }
    &&& rebuild_reason(m0, container, reason)
}

/// A successful outcome: for some split of the active inner faces into
/// `r.component_count` components, every perimeter closes and `m1` is `m0`
/// with the container rebuilt around the perimeters; the report is the
/// manifold check of `m1` on the container and the active inner faces.
pub open spec fn success_outcome(m0: &Mesh, m1: &Mesh, container: FaceId, inners: Seq<FaceId>, r: P7EnforceResult) -> bool {
    &&& exists|comps: Seq<Seq<FaceId>>| {
        &&& #[trigger] is_component_split(m0, active_inners(m0, inners), comps)
        &&& comps.len() == r.component_count
        &&& perimeters_close_upto(m0, comps, comps.len() as int)
        &&& ring_rebuild_ok(m0, container, perimeters(m0, comps))
        &&& rebuilt(m0, m1, container, perimeters(m0, comps))
    }
    &&& r.manifold_report.container == container
    &&& r.manifold_report.edges_checked == region_checked(m1, seq![container] + active_inners(m0, inners), m1.ne())
    &&& r.manifold_report.violations@ == region_violations(m1, seq![container] + active_inners(m0, inners), m1.ne())
}

/// Whether `f` is a stored, active face.
fn face_is_active(mesh: &Mesh, f: FaceId) -> (r: bool)
    ensures
        r == mesh.face_active(f),
{
    let idx = f.id as usize;
    if idx < mesh.faces.len() {
        match &mesh.faces[idx] {
            Some(fc) => fc.active,
            None => false,
        }
    } else {
        false
    }
}

/// Rebuild a container face as a ring around its inner faces: the active
/// faces of `inners` are grouped into components connected through shared
/// outer-loop edges, each component's combined perimeter becomes one hole
/// loop (reversed), the container is replaced by a new face with its outer
/// loop and these holes, and the manifold check is run on the container
/// and the active inner faces.
///
/// Errors: `InvalidInput` when the container is not active or no inner face
/// is; `PerimeterFailed` for the first component whose perimeter does not
/// close (the mesh is unchanged); `RebuildFailed` when the new face cannot
/// be built (the container may already be removed).
#[verifier::rlimit(40)]
#[verifier::spinoff_prover]
pub fn enforce_p7_canonical(mesh: &mut Mesh, container: FaceId, inners: &[FaceId]) -> (res: Result<P7EnforceResult, P7EnforceError>)
    requires
        old(mesh).wf(),
    ensures
        final(mesh).wf(),
        final(mesh).verts@ == old(mesh).verts@,
        (!old(mesh).face_active(container) || active_inners(old(mesh), inners@).len() == 0) <==> res == Err::<P7EnforceResult, P7EnforceError>(
            P7EnforceError::InvalidInput {
                container_active: old(mesh).face_active(container),
                inner_count_active: active_inners(old(mesh), inners@).len() as usize,
                inner_count_total: inners@.len() as usize,
            },
        ),
        !(res matches Err(P7EnforceError::NoComponents)),
        !(res matches Err(P7EnforceError::RebuildDeferred { .. })),
        res matches Err(P7EnforceError::InvalidInput { .. }) ==> *final(mesh) == *old(mesh),
        res matches Err(P7EnforceError::PerimeterFailed { .. }) ==> *final(mesh) == *old(mesh),
        res matches Err(P7EnforceError::PerimeterFailed { component_index, reason }) ==> perimeter_failed_outcome(
            old(mesh),
            inners@,
            component_index,
            reason@,
        ),
        res matches Err(P7EnforceError::RebuildFailed { reason }) ==> rebuild_failed_outcome(
            old(mesh),
            container,
            inners@,
            reason@,
        ),
        res matches Ok(r) ==> success_outcome(old(mesh), final(mesh), container, inners@, r),
{
    let ghost m0 = *mesh;
    let container_active = face_is_active(mesh, container);
    let mut active: Vec<FaceId> = Vec::new();
    let mut i: usize = 0;
    while i < inners.len()
        invariant
            *mesh == m0,
            0 <= i <= inners@.len(),
            active@ == active_inners(&m0, inners@.subrange(0, i as int)),
            active@.len() <= i,
        decreases inners@.len() - i,
    {
        let f = inners[i];
        proof {
            let sub = inners@.subrange(0, i as int + 1);
            assert(sub.drop_last() =~= inners@.subrange(0, i as int));
            assert(sub.last() == f);
            inners@.subrange(0, i as int).lemma_filter_push(f, |g: FaceId| m0.face_active(g));
            assert(sub =~= inners@.subrange(0, i as int).push(f));
        }
        if face_is_active(mesh, f) {
            active.push(f);
        }
        i = i + 1;
    }
    assert(inners@.subrange(0, inners@.len() as int) =~= inners@);
    let inner_count_active = active.len();
    let inner_count_total = inners.len();
    if !container_active || inner_count_active == 0 {
        return Err(P7EnforceError::InvalidInput { container_active, inner_count_active, inner_count_total });
    }
    let comps = mesh.find_inner_components(active.as_slice());
    let ghost cv = nested_view(comps@);
    if comps.len() == 0 {
        proof {
            assert(active@.contains(active@[0]));
        }
        return Err(P7EnforceError::NoComponents);
    }
    let mut hole_loops: Vec<Vec<VertId>> = Vec::new();
    let mut ci: usize = 0;
    while ci < comps.len()
        invariant
            *mesh == m0,
            m0.wf(),
            m0.face_active(container),
            active@ == active_inners(&m0, inners@),
            active@.len() > 0,
            cv == nested_view(comps@),
            is_component_split(&m0, active@, cv),
            0 <= ci <= comps@.len(),
            hole_loops@.len() == ci,
            perimeters_close_upto(&m0, cv, ci as int),
            forall|k: int| 0 <= k < ci ==> (#[trigger] hole_loops@[k])@ == perimeter_of(&m0, cv[k]),
        decreases comps@.len() - ci,
    {
        assert(comps@[ci as int]@ == cv[ci as int]);
        match mesh.compute_combined_perimeter(comps[ci].as_slice()) {
            Ok(p) => {
                hole_loops.push(p);
            },
            Err(e) => {
                let reason = String::from_str(e.describe());
                proof {
                    assert(reason@ == mesh_error_text(e));
                    assert(!perimeter_closes(&m0, cv[ci as int]));
                    assert(is_component_split(&m0, active_inners(&m0, inners@), cv) && ci < cv.len()
                        && perimeters_close_upto(&m0, cv, ci as int) && !perimeter_closes(&m0, cv[ci as int]));
                    assert(*mesh == m0);
                    assert(exists|comps: Seq<Seq<FaceId>>| {
                        &&& is_component_split(&m0, active_inners(&m0, inners@), comps)
                        &&& ci < comps.len()
                        &&& perimeters_close_upto(&m0, comps, ci as int)
                        &&& !perimeter_closes(&m0, #[trigger] comps[ci as int])
                    });
                    assert(exists|e: MeshError| reason@ == mesh_error_text(e));
                }
                return Err(P7EnforceError::PerimeterFailed { component_index: ci, reason });
            },
        }
        ci = ci + 1;
    }
    proof {
        assert(loops_view(hole_loops@) =~= perimeters(&m0, cv));
    }
    let component_count = comps.len();
    match rebuild_as_ring_face(mesh, container, &hole_loops) {
        Ok(()) => {},
        Err(reason) => {
            return Err(P7EnforceError::RebuildFailed { reason });
        },
    }
    let manifold_report = verify_p7_manifold(mesh, container, active.as_slice());
    Ok(P7EnforceResult { component_count, manifold_report })
}

} // verus!
