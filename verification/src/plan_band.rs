//! Plan-native band domains: the source cycles and contracted coarse cycles
//! that bound one band of a two-band plan.

use vstd::prelude::*;
use std::collections::{BTreeMap, BTreeSet};
use crate::graph::{Edge, path_edges, path_edges_spec, sorted_spec, sorted, walk_spec, cycle_path, position,
    contains_usize, closed_path_edges_spec, polygon_boundary_edges, fnv1a, fnv1a_spec};
use crate::graph::{Triangle, tri_edges_spec, edge_count_spec, active_vertices_spec, mesh_edges, edge_counts, active_vertices};
use crate::json::{debug_list_text, push_debug_list, hex_digits, push_hex_digits};
use vstd::string::StringSliceAdditionalSpecFns;

verus! {

broadcast use vstd::std_specs::btree::group_btree_axioms, vstd::laws_cmp::group_laws_cmp;

/// A cycle of source vertices with its edges and a stable key.
#[derive(Debug, Clone, PartialEq, Eq)]
pub struct SourceBoundaryCycle {
    pub ordered_vertices: Vec<usize>,
    pub edges: BTreeSet<Edge>,
    pub cycle_key: String,
}

/// One coarse edge and the source path it stands for.
#[derive(Debug, PartialEq, Eq)]
pub struct ContractedBoundaryEdge {
    pub topology_edge: Edge,
    pub source_path: Vec<usize>,
}

impl Clone for ContractedBoundaryEdge {
    fn clone(&self) -> (r: Self)
        ensures
            r.topology_edge == self.topology_edge,
            r.source_path@ == self.source_path@,
    {
        ContractedBoundaryEdge { topology_edge: self.topology_edge, source_path: crate::graph::copy_slots(&self.source_path) }
    }
}

/// The source paths behind the edges of a contracted coarse cycle.
#[derive(Debug, Clone, PartialEq, Eq)]
pub struct BoundaryContractionMap {
    pub coarse_edges: Vec<ContractedBoundaryEdge>,
}

/// One side of a band: a source cycle, or a coarse cycle contracted from source paths.
#[derive(Debug, Clone, PartialEq, Eq)]
pub enum TopologyBoundary {
    SourceCycle(SourceBoundaryCycle),
    ContractedCoarseCycle {
        topology_vertices: Vec<usize>,
        topology_edges: BTreeSet<Edge>,
        source_expansion: BoundaryContractionMap,
    },
}

/// Whether a band is a disk or an annulus.
#[derive(Debug, Clone, Copy, PartialEq, Eq)]
pub enum PlanBandTopologyKind {
    Disk,
    Annulus,
}

/// The stable key of a band domain.
#[derive(Debug, Clone, PartialEq, Eq)]
pub struct PlanBandDomainKey(pub String);

/// One band of a plan with its faces, boundaries and topology.
#[derive(Debug, Clone, PartialEq, Eq)]
pub struct PlanBandDomain {
    pub band_id: usize,
    pub face_slots: BTreeSet<usize>,
    pub source_boundary_cycles: Vec<SourceBoundaryCycle>,
    pub lower_boundary: TopologyBoundary,
    pub upper_boundary: TopologyBoundary,
    pub euler: isize,
    pub topology_kind: PlanBandTopologyKind,
    pub band_key: PlanBandDomainKey,
}

/// Why band domains could not be built from a plan.
#[derive(Debug, PartialEq, Eq)]
pub enum PlanBandDomainError {
    InvalidPlan(String),
    BoundaryNotTwoRegular { band_id: usize },
    UnexpectedBoundaryCycleCount { band_id: usize, count: usize },
    UnexpectedEuler { band_id: usize, euler: isize },
    InternalInterfaceMismatch { band_id: usize },
    OutsideInterfaceMismatch { band_id: usize },
    CoarseBoundaryVertexMissing { vertex: usize },
    UnsupportedCoarseSourcePathLength { edge: Edge, source_edges: usize },
    InvalidCoarseContraction,
}

impl Clone for PlanBandDomainError {
    fn clone(&self) -> (r: Self) {
        match self {
            PlanBandDomainError::InvalidPlan(reason) => PlanBandDomainError::InvalidPlan(reason.clone()),
            PlanBandDomainError::BoundaryNotTwoRegular { band_id } => PlanBandDomainError::BoundaryNotTwoRegular { band_id: *band_id },
            PlanBandDomainError::UnexpectedBoundaryCycleCount { band_id, count } =>
                PlanBandDomainError::UnexpectedBoundaryCycleCount { band_id: *band_id, count: *count },
            PlanBandDomainError::UnexpectedEuler { band_id, euler } => PlanBandDomainError::UnexpectedEuler { band_id: *band_id, euler: *euler },
            PlanBandDomainError::InternalInterfaceMismatch { band_id } => PlanBandDomainError::InternalInterfaceMismatch { band_id: *band_id },
            PlanBandDomainError::OutsideInterfaceMismatch { band_id } => PlanBandDomainError::OutsideInterfaceMismatch { band_id: *band_id },
            PlanBandDomainError::CoarseBoundaryVertexMissing { vertex } => PlanBandDomainError::CoarseBoundaryVertexMissing { vertex: *vertex },
            PlanBandDomainError::UnsupportedCoarseSourcePathLength { edge, source_edges } =>
                PlanBandDomainError::UnsupportedCoarseSourcePathLength { edge: *edge, source_edges: *source_edges },
            PlanBandDomainError::InvalidCoarseContraction => PlanBandDomainError::InvalidCoarseContraction,
        }
    }
}

/// The source edges behind a list of contracted coarse edges: every edge of
/// every source path.
pub open spec fn expansion_edges(coarse: Seq<ContractedBoundaryEdge>) -> Set<Edge> {
    Set::new(|e: Edge| exists|i: int| 0 <= i < coarse.len() && #[trigger] path_edges_spec(coarse[i].source_path@).contains(e))
}

/// Every edge of every source path of a contraction.
pub fn expansion_edge_set(coarse: &Vec<ContractedBoundaryEdge>) -> (out: BTreeSet<Edge>)
    ensures
        out@ == expansion_edges(coarse@),
{
    let mut out: BTreeSet<Edge> = BTreeSet::new();
    let mut i: usize = 0;
    while i < coarse.len()
        invariant
            i <= coarse@.len(),
            out@ == expansion_edges(coarse@.take(i as int)),
        decreases coarse@.len() - i,
    {
        let edges = path_edges(coarse[i].source_path.as_slice());
        let ghost before = out@;
        let ghost path = coarse@[i as int].source_path@;
        let mut j: usize = 0;
        while j < edges.len()
            invariant
                j <= edges@.len(),
                edges@.len() == (if path.len() == 0 { 0int } else { path.len() as int - 1 }),
                forall|q: int| 0 <= q < edges@.len() ==> #[trigger] edges@[q] == sorted_spec(path[q], path[q + 1]),
                out@ == before + Set::new(|e: Edge| exists|q: int| 0 <= q < j && e == #[trigger] edges@[q]),
            decreases edges@.len() - j,
        {
            let ghost o0 = out@;
            out.insert(edges[j]);
            proof {
                assert(out@ =~= before + Set::new(|e: Edge| exists|q: int| 0 <= q < j + 1 && e == #[trigger] edges@[q])) by {
                    assert forall|e: Edge| out@.contains(e) <==> (before + Set::new(|e: Edge| exists|q: int| 0 <= q < j + 1 && e == #[trigger] edges@[q])).contains(e) by {
                        if e == edges@[j as int] {
                        } else if o0.contains(e) && !before.contains(e) {
                            let q = choose|q: int| 0 <= q < j && e == #[trigger] edges@[q];
                            assert(0 <= q < j + 1);
                        } else if (exists|q: int| 0 <= q < j + 1 && e == #[trigger] edges@[q]) && !before.contains(e) {
                            let q = choose|q: int| 0 <= q < j + 1 && e == #[trigger] edges@[q];
                            assert(q < j);
                            assert(o0.contains(e));
                        }
                    }
                }
            }
            j = j + 1;
        }
        proof {
            let prefix = coarse@.take(i as int);
            let next = coarse@.take(i + 1);
            assert(next =~= prefix.push(coarse@[i as int]));
            assert forall|e: Edge| out@.contains(e) <==> expansion_edges(next).contains(e) by {
                if out@.contains(e) {
                    if before.contains(e) {
                        let k = choose|k: int| 0 <= k < prefix.len() && #[trigger] path_edges_spec(prefix[k].source_path@).contains(e);
                        assert(next[k] == prefix[k]);
                    } else {
                        let q = choose|q: int| 0 <= q < edges@.len() && e == #[trigger] edges@[q];
                        assert(path_edges_spec(path).contains(e)) by {
                            assert(e == sorted_spec(path[q], path[q + 1]));
                        }
                        assert(next[i as int].source_path@ == path);
                    }
                }
                if expansion_edges(next).contains(e) {
                    let k = choose|k: int| 0 <= k < next.len() && #[trigger] path_edges_spec(next[k].source_path@).contains(e);
                    if k < i {
                        assert(prefix[k] == next[k]);
                        assert(expansion_edges(prefix).contains(e));
                    } else {
                        assert(next[k].source_path@ == path);
                        let q = choose|q: int| 0 <= q < path.len() - 1 && e == sorted_spec(#[trigger] path[q], path[q + 1]);
                        assert(edges@[q] == e);
                    }
                }
            }
            assert(out@ =~= expansion_edges(next));
        }
        i = i + 1;
    }
    proof {
        assert(coarse@.take(coarse@.len() as int) =~= coarse@);
    }
    out
}

impl TopologyBoundary {
    /// The boundary's vertices in cycle order.
    pub fn topology_vertices(&self) -> (r: &[usize])
        ensures
            r@ == match self {
                TopologyBoundary::SourceCycle(cycle) => cycle.ordered_vertices@,
                TopologyBoundary::ContractedCoarseCycle { topology_vertices, .. } => topology_vertices@,
            },
    {
        match self {
            TopologyBoundary::SourceCycle(cycle) => cycle.ordered_vertices.as_slice(),
            TopologyBoundary::ContractedCoarseCycle { topology_vertices, .. } => topology_vertices.as_slice(),
        }
    }

    /// The source edges the boundary stands for.
    pub fn source_edges(&self) -> (r: BTreeSet<Edge>)
        ensures
            r@ == match self {
                TopologyBoundary::SourceCycle(cycle) => cycle.edges@,
                TopologyBoundary::ContractedCoarseCycle { source_expansion, .. } => expansion_edges(source_expansion.coarse_edges@),
            },
    {
        match self {
            TopologyBoundary::SourceCycle(cycle) => cycle.edges.clone(),
            TopologyBoundary::ContractedCoarseCycle { source_expansion, .. } => expansion_edge_set(&source_expansion.coarse_edges),
        }
    }

    /// The boundary's own edges.
    pub fn topology_edges(&self) -> (r: BTreeSet<Edge>)
        ensures
            r@ == match self {
                TopologyBoundary::SourceCycle(cycle) => cycle.edges@,
                TopologyBoundary::ContractedCoarseCycle { topology_edges, .. } => topology_edges@,
            },
    {
        match self {
            TopologyBoundary::SourceCycle(cycle) => cycle.edges.clone(),
            TopologyBoundary::ContractedCoarseCycle { topology_edges, .. } => topology_edges.clone(),
        }
    }
}


// ---------------------------------------------------------------------------
// Contracting a coarse cycle onto a source cycle

/// Lexicographic order on vertex sequences, a proper prefix first.
pub open spec fn slots_le(a: Seq<usize>, b: Seq<usize>) -> bool
    decreases a.len(),
{
    if a.len() == 0 {
        true
    } else if b.len() == 0 {
        false
    } else if a[0] != b[0] {
        a[0] < b[0]
    } else {
        slots_le(a.drop_first(), b.drop_first())
    }
}

/// Whether `a` comes no later than `b` in lexicographic order.
fn slots_le_exec(a: &Vec<usize>, b: &Vec<usize>) -> (r: bool)
    ensures
        r == slots_le(a@, b@),
{
    let mut i: usize = 0;
    assert(a@.skip(0) =~= a@ && b@.skip(0) =~= b@);
    while i < a.len() && i < b.len()
        invariant
            i <= a@.len(),
            i <= b@.len(),
            slots_le(a@, b@) == slots_le(a@.skip(i as int), b@.skip(i as int)),
        decreases a@.len() - i,
    {
        proof {
            assert(a@.skip(i as int)[0] == a@[i as int]);
            assert(b@.skip(i as int)[0] == b@[i as int]);
            assert(a@.skip(i as int).drop_first() =~= a@.skip(i + 1));
            assert(b@.skip(i as int).drop_first() =~= b@.skip(i + 1));
        }
        if a[i] != b[i] {
            return a[i] < b[i];
        }
        i = i + 1;
    }
    proof {
        if i == a@.len() {
            assert(a@.skip(i as int).len() == 0);
        } else {
            assert(b@.skip(i as int).len() == 0);
        }
    }
    i == a.len()
}

/// The shorter of the two walks around `cycle` from the first `from` to the
/// first `to`, the lexicographically smaller on a tie; none when either is
/// missing.
pub open spec fn shortest_cycle_path_spec(cycle: Seq<usize>, from: usize, to: usize) -> Option<Seq<usize>> {
    match (cycle.index_of_first(from), cycle.index_of_first(to)) {
        (Some(s), Some(e)) => {
            let forward = walk_spec(cycle, s, e, 1);
            let reverse = walk_spec(cycle, s, e, cycle.len() - 1);
            if forward.len() < reverse.len() || (forward.len() == reverse.len() && slots_le(forward, reverse)) {
                Some(forward)
            } else {
                Some(reverse)
            }
        },
        _ => None,
    }
}

/// The shorter walk around `cycle` between two of its vertices.
pub fn shortest_cycle_path(cycle: &[usize], from: usize, to: usize) -> (r: Option<Vec<usize>>)
    ensures
        match shortest_cycle_path_spec(cycle@, from, to) {
            Some(p) => r matches Some(v) && v@ == p,
            None => r is None,
        },
{
    proof {
        cycle@.index_of_first_ensures(from);
        cycle@.index_of_first_ensures(to);
    }
    let start = match position(cycle, from) {
        Some(i) => i,
        None => return None,
    };
    let end = match position(cycle, to) {
        Some(i) => i,
        None => return None,
    };
    let forward = cycle_path(cycle, start, end, 1);
    let reverse = cycle_path(cycle, start, end, cycle.len() - 1);
    if forward.len() < reverse.len() || (forward.len() == reverse.len() && slots_le_exec(&forward, &reverse)) {
        Some(forward)
    } else {
        Some(reverse)
    }
}

/// The edges of a closed path, the last vertex joined to the first.
pub fn path_edges_closed(path: &[usize]) -> (out: BTreeSet<Edge>)
    ensures
        out@ == closed_path_edges_spec(path@),
{
    polygon_boundary_edges(path)
}

/// The coarse edge from the `i`-th topology vertex to the next, cyclically.
pub open spec fn coarse_edge_at(tv: Seq<usize>, i: int) -> Edge {
    sorted_spec(tv[i], tv[(i + 1) % (tv.len() as int)])
}

/// The source path that the `i`-th coarse edge stands for.
pub open spec fn coarse_path_at(tv: Seq<usize>, cycle: Seq<usize>, i: int) -> Seq<usize> {
    shortest_cycle_path_spec(cycle, tv[i], tv[(i + 1) % (tv.len() as int)]).unwrap()
}

/// The `i`-th coarse edge is a topology edge and spans one or two source edges.
pub open spec fn coarse_step_ok(tv: Seq<usize>, edges: Set<Edge>, cycle: Seq<usize>, i: int) -> bool {
    &&& edges.contains(coarse_edge_at(tv, i))
    &&& 2 <= coarse_path_at(tv, cycle, i).len() <= 3
}

/// Why the `i`-th coarse edge is refused.
pub open spec fn coarse_step_error(tv: Seq<usize>, edges: Set<Edge>, cycle: Seq<usize>, i: int) -> PlanBandDomainError {
    if !edges.contains(coarse_edge_at(tv, i)) {
        PlanBandDomainError::InvalidCoarseContraction
    } else {
        PlanBandDomainError::UnsupportedCoarseSourcePathLength {
            edge: coarse_edge_at(tv, i),
            source_edges: (coarse_path_at(tv, cycle, i).len() - 1) as usize,
        }
    }
}

/// The source paths of a contraction have pairwise different interior vertices.
pub open spec fn interiors_distinct(coarse: Seq<ContractedBoundaryEdge>) -> bool {
    forall|i: int, j: int| 0 <= i < coarse.len() && 0 <= j < coarse.len() && i != j
        && (#[trigger] coarse[i]).source_path@.len() == 3 && (#[trigger] coarse[j]).source_path@.len() == 3
        ==> coarse[i].source_path@[1] != coarse[j].source_path@[1]
}

/// Whether the interior vertices of the source paths are pairwise different.
fn interiors_distinct_exec(coarse: &Vec<ContractedBoundaryEdge>) -> (r: bool)
    ensures
        r == interiors_distinct(coarse@),
{
    let mut seen: BTreeSet<usize> = BTreeSet::new();
    let mut q: usize = 0;
    while q < coarse.len()
        invariant
            q <= coarse@.len(),
            forall|v: usize| #[trigger] seen@.contains(v) <==> exists|p: int| 0 <= p < q
                && (#[trigger] coarse@[p]).source_path@.len() == 3 && coarse@[p].source_path@[1] == v,
            interiors_distinct(coarse@.take(q as int)),
        decreases coarse@.len() - q,
    {
        let ghost old_seen = seen@;
        if coarse[q].source_path.len() == 3 {
            let v = coarse[q].source_path[1];
            if seen.contains(&v) {
                proof {
                    let p = choose|p: int| 0 <= p < q && (#[trigger] coarse@[p]).source_path@.len() == 3 && coarse@[p].source_path@[1] == v;
                    assert(coarse@[q as int].source_path@[1] == v);
                    assert(!interiors_distinct(coarse@));
                }
                return false;
            }
            seen.insert(v);
        }
        proof {
            let next = coarse@.take(q + 1);
            assert forall|i: int, j: int| 0 <= i < next.len() && 0 <= j < next.len() && i != j
                && (#[trigger] next[i]).source_path@.len() == 3 && (#[trigger] next[j]).source_path@.len() == 3
                implies next[i].source_path@[1] != next[j].source_path@[1] by {
                if i < q && j < q {
                    assert(coarse@.take(q as int)[i] == next[i] && coarse@.take(q as int)[j] == next[j]);
                } else if i == q {
                    assert(next[j] == coarse@[j] && next[i] == coarse@[i]);
                    assert(old_seen.contains(coarse@[j].source_path@[1]));
                } else {
                    assert(next[i] == coarse@[i] && next[j] == coarse@[j]);
                    assert(old_seen.contains(coarse@[i].source_path@[1]));
                }
            }
        }
        q = q + 1;
    }
    assert(coarse@.take(q as int) =~= coarse@);
    true
}


/// The contracted coarse edges that a contraction builds: the `i`-th
/// topology edge with the source path it stands for.
pub open spec fn contraction_matches(coarse: Seq<ContractedBoundaryEdge>, tv: Seq<usize>, cycle: Seq<usize>, upto: int) -> bool {
    &&& coarse.len() == upto
    &&& forall|i: int| 0 <= i < upto ==> (#[trigger] coarse[i]).topology_edge == coarse_edge_at(tv, i)
        && coarse[i].source_path@ == coarse_path_at(tv, cycle, i)
}

/// Every topology vertex lies on the source cycle.
pub open spec fn all_present(tv: Seq<usize>, cycle: Seq<usize>) -> bool {
    forall|j: int| 0 <= j < tv.len() ==> cycle.contains(#[trigger] tv[j])
}

/// Every coarse edge is a topology edge spanning one or two source edges.
pub open spec fn all_steps_ok(tv: Seq<usize>, edges: Set<Edge>, cycle: Seq<usize>) -> bool {
    forall|i: int| 0 <= i < tv.len() ==> #[trigger] coarse_step_ok(tv, edges, cycle, i)
}

/// `vertex` is the first topology vertex that the source cycle lacks.
pub open spec fn first_missing_vertex(tv: Seq<usize>, cycle: Seq<usize>, vertex: usize) -> bool {
    exists|j: int| 0 <= j < tv.len() && tv[j] == vertex && !cycle.contains(vertex)
        && forall|q: int| 0 <= q < j ==> cycle.contains(#[trigger] tv[q])
}

/// Contract a coarse cycle onto a source cycle: every coarse edge is a
/// topology edge and stands for the shorter source walk between its ends,
/// of one or two source edges; together the walks cover the source cycle's
/// edges exactly and share no interior vertex.
pub fn contract_coarse_boundary(topology_vertices: &[usize], topology_edges: &BTreeSet<Edge>,
    source_cycle: &SourceBoundaryCycle) -> (r: Result<BoundaryContractionMap, PlanBandDomainError>)
    ensures
        !all_present(topology_vertices@, source_cycle.ordered_vertices@) ==> (r matches Err(
            PlanBandDomainError::CoarseBoundaryVertexMissing { vertex }) && first_missing_vertex(topology_vertices@,
            source_cycle.ordered_vertices@, vertex)),
        all_present(topology_vertices@, source_cycle.ordered_vertices@) && !all_steps_ok(topology_vertices@,
            topology_edges@, source_cycle.ordered_vertices@) ==> exists|i: int| 0 <= i < topology_vertices@.len()
            && !coarse_step_ok(topology_vertices@, topology_edges@, source_cycle.ordered_vertices@, i)
            && (forall|q: int| 0 <= q < i ==> #[trigger] coarse_step_ok(topology_vertices@, topology_edges@, source_cycle.ordered_vertices@, q))
            && r == Err::<BoundaryContractionMap, PlanBandDomainError>(coarse_step_error(topology_vertices@, topology_edges@,
                source_cycle.ordered_vertices@, i)),
        all_present(topology_vertices@, source_cycle.ordered_vertices@) && all_steps_ok(topology_vertices@,
            topology_edges@, source_cycle.ordered_vertices@) ==> match r {
            Ok(map) => contraction_matches(map.coarse_edges@, topology_vertices@, source_cycle.ordered_vertices@,
                topology_vertices@.len() as int)
                && expansion_edges(map.coarse_edges@) == source_cycle.edges@
                && interiors_distinct(map.coarse_edges@),
            Err(e) => e == PlanBandDomainError::InvalidCoarseContraction && forall|m: Seq<ContractedBoundaryEdge>|
                #[trigger] contraction_matches(m, topology_vertices@, source_cycle.ordered_vertices@, topology_vertices@.len() as int)
                ==> !(expansion_edges(m) == source_cycle.edges@ && interiors_distinct(m)),
        },
{
    let n = topology_vertices.len();
    let cycle = &source_cycle.ordered_vertices;
    let mut j: usize = 0;
    while j < n
        invariant
            n == topology_vertices@.len(),
            cycle@ == source_cycle.ordered_vertices@,
            j <= n,
            forall|q: int| 0 <= q < j ==> cycle@.contains(#[trigger] topology_vertices@[q]),
        decreases n - j,
    {
        if !contains_usize(cycle, topology_vertices[j]) {
            proof {
                let tv = topology_vertices@;
                assert(!cycle@.contains(tv[j as int]));
                assert(first_missing_vertex(tv, cycle@, tv[j as int]));
                assert(!all_present(tv, cycle@));
            }
            return Err(PlanBandDomainError::CoarseBoundaryVertexMissing { vertex: topology_vertices[j] });
        }
        j = j + 1;
    }
    let ghost tv = topology_vertices@;
    let mut coarse: Vec<ContractedBoundaryEdge> = Vec::new();
    let mut i: usize = 0;
    while i < n
        invariant
            n == tv.len(),
            tv == topology_vertices@,
            cycle@ == source_cycle.ordered_vertices@,
            i <= n,
            forall|q: int| 0 <= q < n ==> cycle@.contains(#[trigger] tv[q]),
            forall|q: int| 0 <= q < i ==> #[trigger] coarse_step_ok(tv, topology_edges@, cycle@, q),
            contraction_matches(coarse@, tv, cycle@, i as int),
        decreases n - i,
    {
        let a = topology_vertices[i];
        let next = if i + 1 == n { 0 } else { i + 1 };
        assert(next as int == (i + 1) % (n as int)) by (nonlinear_arith)
            requires i < n, next as int == (if i + 1 == n { 0 } else { i + 1 });
        let b = topology_vertices[next];
        let topology_edge = sorted(a, b);
        assert(topology_edge == coarse_edge_at(tv, i as int));
        if !topology_edges.contains(&topology_edge) {
            proof {
                assert(!coarse_step_ok(tv, topology_edges@, cycle@, i as int));
                assert(coarse_step_error(tv, topology_edges@, cycle@, i as int) == PlanBandDomainError::InvalidCoarseContraction);
            }
            return Err(PlanBandDomainError::InvalidCoarseContraction);
        }
        proof {
            assert(cycle@.contains(tv[i as int]) && cycle@.contains(tv[next as int]));
            cycle@.index_of_first_ensures(a);
            cycle@.index_of_first_ensures(b);
        }
        let source_path = match shortest_cycle_path(cycle.as_slice(), a, b) {
            Some(p) => p,
            None => return Err(PlanBandDomainError::CoarseBoundaryVertexMissing { vertex: a }),
        };
        assert(source_path@ == coarse_path_at(tv, cycle@, i as int));
        let source_edges = if source_path.len() == 0 { 0 } else { source_path.len() - 1 };
        if source_edges < 1 || source_edges > 2 {
            proof {
                assert(source_path@.len() >= 1);
                assert(!coarse_step_ok(tv, topology_edges@, cycle@, i as int));
                assert(coarse_step_error(tv, topology_edges@, cycle@, i as int) == PlanBandDomainError::UnsupportedCoarseSourcePathLength {
                    edge: topology_edge, source_edges });
            }
            return Err(PlanBandDomainError::UnsupportedCoarseSourcePathLength { edge: topology_edge, source_edges });
        }
        let ghost before = coarse@;
        coarse.push(ContractedBoundaryEdge { topology_edge, source_path });
        proof {
            assert forall|q: int| 0 <= q < i + 1 implies (#[trigger] coarse@[q]).topology_edge == coarse_edge_at(tv, q)
                && coarse@[q].source_path@ == coarse_path_at(tv, cycle@, q) by {
                if q < i {
                    assert(coarse@[q] == before[q]);
                }
            }
        }
        i = i + 1;
    }
    let covered = expansion_edge_set(&coarse);
    if !crate::polygon_incidence::edge_sets_equal(&covered, &source_cycle.edges) || !interiors_distinct_exec(&coarse) {
        proof {
            assert forall|m: Seq<ContractedBoundaryEdge>| #[trigger] contraction_matches(m, tv, cycle@, tv.len() as int)
                implies !(expansion_edges(m) == source_cycle.edges@ && interiors_distinct(m)) by {
                lemma_same_contraction(m, coarse@, tv, cycle@);
            }
        }
        return Err(PlanBandDomainError::InvalidCoarseContraction);
    }
    Ok(BoundaryContractionMap { coarse_edges: coarse })
}

/// Two contractions that match the same cycles have the same covered edges
/// and the same interior vertices.
proof fn lemma_same_contraction(m: Seq<ContractedBoundaryEdge>, c: Seq<ContractedBoundaryEdge>, tv: Seq<usize>, cycle: Seq<usize>)
    requires
        contraction_matches(m, tv, cycle, tv.len() as int),
        contraction_matches(c, tv, cycle, tv.len() as int),
    ensures
        expansion_edges(m) == expansion_edges(c),
        interiors_distinct(m) == interiors_distinct(c),
{
    assert forall|i: int| 0 <= i < m.len() implies (#[trigger] m[i]).source_path@ == c[i].source_path@ by {
        assert(m[i].source_path@ == coarse_path_at(tv, cycle, i));
        assert(c[i].source_path@ == coarse_path_at(tv, cycle, i));
    }
    assert forall|e: Edge| expansion_edges(m).contains(e) <==> expansion_edges(c).contains(e) by {
        if expansion_edges(m).contains(e) {
            let k = choose|k: int| 0 <= k < m.len() && #[trigger] path_edges_spec(m[k].source_path@).contains(e);
            assert(m[k].source_path@ == c[k].source_path@);
        }
        if expansion_edges(c).contains(e) {
            let k = choose|k: int| 0 <= k < c.len() && #[trigger] path_edges_spec(c[k].source_path@).contains(e);
            assert(m[k].source_path@ == c[k].source_path@);
        }
    }
    assert(expansion_edges(m) =~= expansion_edges(c));
    if interiors_distinct(m) {
        assert forall|i: int, j: int| 0 <= i < c.len() && 0 <= j < c.len() && i != j
            && (#[trigger] c[i]).source_path@.len() == 3 && (#[trigger] c[j]).source_path@.len() == 3
            implies c[i].source_path@[1] != c[j].source_path@[1] by {
            assert(m[i].source_path@ == c[i].source_path@ && m[j].source_path@ == c[j].source_path@);
        }
    }
    if interiors_distinct(c) {
        assert forall|i: int, j: int| 0 <= i < m.len() && 0 <= j < m.len() && i != j
            && (#[trigger] m[i]).source_path@.len() == 3 && (#[trigger] m[j]).source_path@.len() == 3
            implies m[i].source_path@[1] != m[j].source_path@[1] by {
            assert(m[i].source_path@ == c[i].source_path@ && m[j].source_path@ == c[j].source_path@);
        }
    }
}


/// The stable key of a source cycle: the FNV-1a hash of the UTF-8 bytes of
/// the cycle's debug text, as sixteen hexadecimal digits.
pub open spec fn cycle_key_text(vertices: Seq<usize>) -> Seq<char> {
    hex_digits(fnv1a_spec(vstd::utf8::encode_utf8(debug_list_text(vertices))) as nat, 16)
}

/// The source cycle through `ordered_vertices`, with its closed edges and key.
pub fn source_cycle(ordered_vertices: Vec<usize>) -> (c: SourceBoundaryCycle)
    ensures
        c.ordered_vertices@ == ordered_vertices@,
        c.edges@ == closed_path_edges_spec(ordered_vertices@),
        c.cycle_key@ == cycle_key_text(ordered_vertices@),
{
    let edges = path_edges_closed(ordered_vertices.as_slice());
    let mut text = String::new();
    push_debug_list(&mut text, ordered_vertices.as_slice());
    let bytes = text.as_str().as_bytes();
    let hash = fnv1a(bytes);
    let mut cycle_key = String::new();
    push_hex_digits(&mut cycle_key, hash, 16);
    SourceBoundaryCycle { ordered_vertices, edges, cycle_key }
}


/// The triangles of the listed faces, in list order.
pub open spec fn face_triangles(triangles: Seq<Triangle>, faces: Seq<usize>) -> Seq<Triangle> {
    faces.map_values(|f: usize| triangles[f as int])
}

/// The vertices, edges and boundary edges (those on exactly one face) of a
/// set of faces.
pub fn band_complex(triangles: &[Triangle], faces: &BTreeSet<usize>) -> (r: (BTreeSet<usize>, BTreeSet<Edge>, BTreeSet<Edge>))
    requires
        forall|f: usize| faces@.contains(f) ==> f < triangles@.len(),
        faces@.len() * 3 <= usize::MAX,
    ensures
        exists|fs: Seq<usize>| {
            &&& fs.to_set() == faces@
            &&& forall|a: int, b: int| 0 <= a < b < fs.len() ==> fs[a] < fs[b]
            &&& r.0@ == active_vertices_spec(face_triangles(triangles@, fs))
            &&& forall|e: Edge| #[trigger] r.1@.contains(e) <==> exists|i: int| 0 <= i < fs.len()
                && tri_edges_spec(face_triangles(triangles@, fs)[i]).contains(e)
            &&& forall|e: Edge| #[trigger] r.2@.contains(e) <==> r.1@.contains(e)
                && edge_count_spec(face_triangles(triangles@, fs), e) == 1
        },
{
    let fs = crate::cycles::vertex_set_to_vec(faces);
    proof {
        assert forall|k: int, l: int| 0 <= k < l < fs@.len() implies fs@[k] != fs@[l] by {}
        fs@.unique_seq_to_set();
    }
    let mut selected: Vec<Triangle> = Vec::new();
    let mut i: usize = 0;
    while i < fs.len()
        invariant
            i <= fs@.len(),
            fs@.to_set() == faces@,
            forall|f: usize| faces@.contains(f) ==> f < triangles@.len(),
            selected@ == face_triangles(triangles@, fs@.take(i as int)),
        decreases fs@.len() - i,
    {
        assert(fs@.to_set().contains(fs@[i as int]));
        selected.push(triangles[fs[i]]);
        proof {
            assert(fs@.take(i + 1) =~= fs@.take(i as int).push(fs@[i as int]));
            assert(selected@ =~= face_triangles(triangles@, fs@.take(i + 1)));
        }
        i = i + 1;
    }
    assert(fs@.take(fs@.len() as int) =~= fs@);
    let vertices = active_vertices(selected.as_slice());
    let edges = mesh_edges(selected.as_slice());
    let counts = edge_counts(selected.as_slice());
    let listed = crate::cycles::edge_set_to_vec(&edges);
    let mut boundary: BTreeSet<Edge> = BTreeSet::new();
    let mut k: usize = 0;
    while k < listed.len()
        invariant
            k <= listed@.len(),
            listed@.to_set() == edges@,
            forall|e: Edge| #[trigger] counts@.contains_key(e) <==> edge_count_spec(selected@, e) > 0,
            forall|e: Edge| #[trigger] counts@.contains_key(e) ==> counts@[e] == edge_count_spec(selected@, e),
            forall|e: Edge| #[trigger] boundary@.contains(e) <==> exists|q: int| 0 <= q < k && listed@[q] == e
                && edge_count_spec(selected@, e) == 1,
        decreases listed@.len() - k,
    {
        let e = listed[k];
        match counts.get(&e) {
            Some(c) => {
                if *c == 1 {
                    boundary.insert(e);
                }
            },
            None => {},
        }
        k = k + 1;
    }
    proof {
        assert forall|e: Edge| #[trigger] boundary@.contains(e) <==> edges@.contains(e) && edge_count_spec(selected@, e) == 1 by {
            if edges@.contains(e) && edge_count_spec(selected@, e) == 1 {
                assert(listed@.to_set().contains(e));
                let q = choose|q: int| 0 <= q < listed@.len() && listed@[q] == e;
            }
            if boundary@.contains(e) {
                let q = choose|q: int| 0 <= q < k && listed@[q] == e && edge_count_spec(selected@, e) == 1;
                assert(listed@.to_set().contains(listed@[q]));
            }
        }
    }
    (vertices, edges, boundary)
}

} // verus!
