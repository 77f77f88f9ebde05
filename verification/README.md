# axia_geo

Topological operations on an index-based half-edge mesh, with contracts
checked by Verus.

- `src/` — the verified library.
  - `ids`, `mesh`: typed indices, the mesh arenas, the well-formedness
    invariant, loop walking, face construction and removal, radial queries;
    each face records the kind of surface it lies on.
  - `ring`, `wire`: faces with holes; free edges.
  - `orient`: face flipping and orientation propagation.
  - `repair`, `fxhash`: non-manifold edge detection and repair (hash sets and
    maps from `rustc_hash`).
  - `components`, `perimeter`, `p7_manifold`, `p7_canonical_resolver`:
    rebuilding a container face as a ring around its inner faces.
  - `planar_walk`: left-turn enumeration of free-edge chains across a face.
  - `push_pull`, `extrude`, `move_only`, `smooth_group`: the topology of
    push/pull (MoveOnly test, face extrusion, vertex moves, seamless walls).
  - `revolve`, `solids`, `primitives`: rings and faces of revolved surfaces
    and of the box, prism, cone and sphere primitives.
  - `closed`: closed surfaces stated over face loops (every directed edge
    once, and run backwards by exactly one face), with proofs that prisms,
    the box and the sphere close up; `revolve` proves the same of a profile
    that starts and ends on the axis.
  - `offset`: soft face removal, the choice of an edge offset's host face,
    and the topology of a face offset (inner face and frame) and of an edge
    offset.
  - `self_intersect`, `text`: self-intersection reports, number formatting.
- `app/` — floating-point glue (`glam`): normals, parallelism, projected
  turn orders, wall thickness, vertex offsets, rotations, primitive
  positions, offset polygons, planar polygon predicates, and error types
  with `Display`.
- `tests/` — executable tests of the library.

Positions and normals are stored as raw IEEE-754 bit patterns; the library
never does floating-point arithmetic. Where a decision depends on geometry,
the caller computes it and passes the result as plain values (flags, orders).
