# earthmesh_refine_certified

Exact combinatorial certificates for coarsening a refined triangle mesh,
written in Verus: every function in `src/` carries a contract that Verus
proves.

- `graph`, `cycles`: edges, triangles, cycle structure of edge sets.
- `reachability`, `arc_consistency`, `ear_domains`, `dqx`: degree
  reachability of stratified polygons, sector signatures and their
  consistency, run evidence as JSON.
- `face_band`, `plan_band`: exact two- and multi-band face labellings and
  their interfaces.
- `essential_cycle`, `cycle_problem`, `cycle_labels`, `selection_order`:
  the essential-cycle problem of a two-band face problem (its canonical key,
  candidate edges and dual seam), validation of a selected cycle, conversion
  between cycles and face-band plans, and the laws that the order of a
  selection does not matter and that a cycle survives the trip through its
  plan.
- `polygon_incidence`, `full_polygon`: recovery of polygon triangulations
  from target vertex incidences by ear cutting.
- `hierarchy`: the 2:1 parent layer, its coarsenable components and their
  transition rings.
- `epochs`: the decisions of a run of certified coarsening epochs; the mesh
  work between them is left to the caller.

`tests/` holds the executable tests.
