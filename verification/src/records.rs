//! Search limits, outcome labels and audit records shared by the coarsening
//! passes.

use vstd::prelude::*;
use std::collections::{BTreeMap, BTreeSet};
use crate::graph::{Edge, Triangle};

verus! {

/// A parent triangle of the hierarchy, identified by its stable address key.
pub type TriangleAddress = u64;

/// How elastic targets are derived for a block.
#[derive(Debug, Clone, Copy, PartialEq, Eq)]
pub enum ElasticTargetMode {
    TrialReference,
    HierarchyEdge,
    HierarchyEdgeAreaDegree,
}

/// The stable name of an elastic target mode.
pub open spec fn elastic_target_mode_label(mode: ElasticTargetMode) -> Seq<char> {
    match mode {
        ElasticTargetMode::TrialReference => "TrialReference"@,
        ElasticTargetMode::HierarchyEdge => "HierarchyEdge"@,
        ElasticTargetMode::HierarchyEdgeAreaDegree => "HierarchyEdgeAreaDegree"@,
    }
}

impl ElasticTargetMode {
    /// Whether the targets come from hierarchy edges rather than the trial reference.
    pub(crate) fn uses_hierarchy_edges(self) -> (r: bool)
        ensures
            r == !(self is TrialReference),
    {
        match self {
            ElasticTargetMode::TrialReference => false,
            _ => true,
        }
    }

    /// Whether the targets also carry hierarchy areas and degrees.
    pub(crate) fn uses_hierarchy_area_degree(self) -> (r: bool)
        ensures
            r == (self is HierarchyEdgeAreaDegree),
    {
        match self {
            ElasticTargetMode::HierarchyEdgeAreaDegree => true,
            _ => false,
        }
    }

    pub fn as_str(self) -> (r: &'static str)
        ensures
            r@ == elastic_target_mode_label(self),
    {
        match self {
            ElasticTargetMode::TrialReference => "TrialReference",
            ElasticTargetMode::HierarchyEdge => "HierarchyEdge",
            ElasticTargetMode::HierarchyEdgeAreaDegree => "HierarchyEdgeAreaDegree",
        }
    }
}

/// Iteration budget of an elastic block.
#[derive(Debug, Clone, Copy, PartialEq, Eq)]
pub struct ElasticBlockLimits {
    pub elastic_iterations: usize,
}

/// The phase an elastic block reached, in the order the phases run.
#[derive(Clone, Copy, Debug, PartialEq, Eq, PartialOrd, Ord)]
pub enum ElasticBlockPhase {
    Untangle,
    AngleFeasibility,
    DelaunayVoronoiFeasibility,
    Interior,
}

/// A full-polygon topology: its sector and its canonical triangles.
#[derive(Debug, Clone, PartialEq, Eq, PartialOrd, Ord, Hash)]
pub struct FullPolygonTopologyKey {
    pub sector_id: u64,
    pub triangles: Vec<Triangle>,
}

/// Geometric defects of an embedded full-polygon topology.
#[derive(Debug, Clone, Copy, PartialEq, Eq, PartialOrd, Ord, Hash)]
pub struct FullPolygonGeometryKey {
    pub non_positive_triangles: usize,
    pub edge_crossings: usize,
    pub invalid_edges: usize,
}

impl FullPolygonGeometryKey {
    /// Whether any defect remains that an untangle pass must remove.
    pub fn needs_untangle(self) -> (r: bool)
        ensures
            r <==> (self.non_positive_triangles > 0 || self.edge_crossings > 0
                || self.invalid_edges > 0),
    {
        self.non_positive_triangles > 0 || self.edge_crossings > 0 || self.invalid_edges > 0
    }
}

/// The registered topology family of the full-polygon merge.
#[derive(Debug, Clone, Copy, PartialEq, Eq)]
pub enum TopologyFamilyId {
    FullPolygonAnchorEar,
}

/// Topology budget of the full-polygon merge.
#[derive(Debug, Clone, Copy, PartialEq, Eq)]
pub struct FullPolygonMergeLimits {
    pub topology_states: usize,
}

/// Topology and elastic budgets of the full-polygon CBER pass.
#[derive(Debug, Clone, Copy, PartialEq, Eq)]
pub struct FullPolygonCberLimits {
    pub topology_states: usize,
    pub elastic_iterations: usize,
}

/// Which face-band adapter produced a topology domain.
#[derive(Debug, Clone, Copy, PartialEq, Eq)]
pub enum FaceBandAdapterVersion {
    LegacyV1,
    TopologyDomainV2,
}

/// A vertex whose combinatorial and geometric neighbour orders disagree.
#[derive(Debug, Clone, PartialEq, Eq)]
pub struct RotationMismatch {
    pub compact_vertex: usize,
    pub source_vertex: Option<usize>,
    pub combinatorial_order: Vec<usize>,
    pub geometric_order: Vec<usize>,
}

/// Counts that compare a candidate embedding with its reference.
#[derive(Debug, Clone, PartialEq)]
pub struct EmbeddingAudit {
    pub topology_key: FullPolygonTopologyKey,
    pub common_source_vertices: usize,
    pub added_source_vertices: Vec<usize>,
    pub removed_source_vertices: Vec<usize>,
    pub common_edges: usize,
    pub added_edges: usize,
    pub removed_edges: usize,
    pub common_triangles: usize,
    pub added_triangles: usize,
    pub removed_triangles: usize,
    pub non_positive_triangles: usize,
    pub crossing_pairs: usize,
    pub near_degenerate_triangles: usize,
    pub fixed_only_degenerate_triangles: usize,
    pub rotation_mismatch_vertices: Vec<RotationMismatch>,
}

/// Whether an audited embedding can be used.
#[derive(Debug, Clone, Copy, PartialEq, Eq)]
pub enum EmbeddingAuditOutcome {
    UsableEmbedding,
    TopologyClosedNoUsableEmbedding,
}

impl EmbeddingAudit {
    /// The embedding is usable exactly when no geometric defect was counted.
    pub fn outcome(&self) -> (r: EmbeddingAuditOutcome)
        ensures
            (r == EmbeddingAuditOutcome::UsableEmbedding) <==> (self.non_positive_triangles == 0
                && self.crossing_pairs == 0 && self.near_degenerate_triangles == 0
                && self.fixed_only_degenerate_triangles == 0
                && self.rotation_mismatch_vertices@.len() == 0),
    {
        if self.non_positive_triangles == 0 && self.crossing_pairs == 0
            && self.near_degenerate_triangles == 0 && self.fixed_only_degenerate_triangles == 0
            && self.rotation_mismatch_vertices.len() == 0
        {
            EmbeddingAuditOutcome::UsableEmbedding
        } else {
            EmbeddingAuditOutcome::TopologyClosedNoUsableEmbedding
        }
    }
}

/// Peel depth of a local annular collar.
#[derive(Debug, Clone, Copy, PartialEq, Eq, PartialOrd, Ord)]
pub enum LocalAnnularCollarLevel {
    OneParentPeel,
    TwoParentPeel,
}

/// Budgets of a local annular collar.
#[derive(Debug, Clone, Copy, PartialEq, Eq)]
pub struct LocalAnnularCollarLimits {
    pub topology_states: usize,
    pub geometry_iterations: usize,
    pub maximum_parent_peels: usize,
}

/// Budgets of a local topology search.
#[derive(Debug, Clone, Copy, PartialEq, Eq)]
pub struct LocalTopologyLimits {
    pub maximum_states: usize,
    pub maximum_flips: usize,
    pub local_geometry_iterations: usize,
}

/// The flip of the edge shared by two faces.
#[derive(Debug, Clone, Copy, PartialEq, Eq, PartialOrd, Ord)]
pub struct LocalEdgeFlip {
    pub face: usize,
    pub neighbour: usize,
}

/// Budgets of the frozen N6 closure run.
#[derive(Debug, Clone, Copy, PartialEq, Eq)]
pub struct FrozenN6CecClosureLimits {
    pub legacy_face_band_states: u64,
    pub cycle_unique_states: u64,
    pub topology_states: usize,
}

/// How one frozen N6 family was classified.
#[derive(Debug, Clone, Copy, PartialEq, Eq, PartialOrd, Ord)]
pub enum FrozenN6CecStatus {
    Closed,
    ExactNoSolution,
    CycleSearchIncomplete,
    DownstreamSearchIncomplete,
}

/// The stable name of a frozen N6 status.
pub open spec fn frozen_status_label(status: FrozenN6CecStatus) -> Seq<char> {
    match status {
        FrozenN6CecStatus::Closed => "Closed"@,
        FrozenN6CecStatus::ExactNoSolution => "ExactNoSolution"@,
        FrozenN6CecStatus::CycleSearchIncomplete => "CycleSearchIncomplete"@,
        FrozenN6CecStatus::DownstreamSearchIncomplete => "DownstreamSearchIncomplete"@,
    }
}

impl FrozenN6CecStatus {
    pub fn as_str(self) -> (r: &'static str)
        ensures
            r@ == frozen_status_label(self),
    {
        match self {
            FrozenN6CecStatus::Closed => "Closed",
            FrozenN6CecStatus::ExactNoSolution => "ExactNoSolution",
            FrozenN6CecStatus::CycleSearchIncomplete => "CycleSearchIncomplete",
            FrozenN6CecStatus::DownstreamSearchIncomplete => "DownstreamSearchIncomplete",
        }
    }
}

/// Why a geometry witness could not be embedded in a wider domain.
#[derive(Debug, Clone, PartialEq, Eq)]
pub enum GeometryEmbeddingError {
    InvalidWitness(String),
    DomainNotNested,
    TopologyChanged,
    MissingSourcePosition(usize),
    NewlyReleasedPositionDrift(usize),
    AngleScanFailed,
}

/// Topology budget of the global exact merge.
#[derive(Debug, Clone, Copy, PartialEq, Eq)]
pub struct GlobalExactMergeLimits {
    pub topology_states: usize,
}

/// One anchor ear flip chosen by the global exact merge.
#[derive(Debug, PartialEq, Eq, PartialOrd, Ord)]
pub struct GlobalExactSelectedEar {
    pub anchor_slot: usize,
    pub sector_id: u64,
    pub removed_neighbour_slot: usize,
    pub inserted_chord: Edge,
    pub owner_sector_ids: BTreeSet<u64>,
}

impl Clone for GlobalExactSelectedEar {
    fn clone(&self) -> (r: Self)
        ensures
            r.anchor_slot == self.anchor_slot,
            r.sector_id == self.sector_id,
            r.removed_neighbour_slot == self.removed_neighbour_slot,
            r.inserted_chord == self.inserted_chord,
            r.owner_sector_ids@ == self.owner_sector_ids@,
    {
        GlobalExactSelectedEar {
            anchor_slot: self.anchor_slot,
            sector_id: self.sector_id,
            removed_neighbour_slot: self.removed_neighbour_slot,
            inserted_chord: self.inserted_chord,
            owner_sector_ids: self.owner_sector_ids.clone(),
        }
    }
}

/// Counters and final-gate measurements of a global exact merge.
#[derive(Debug, Clone, PartialEq, Eq, Default)]
pub struct GlobalExactMergeEvidence {
    pub states_examined: usize,
    pub sector_variant_counts: Vec<usize>,
    pub selected_ears: Vec<GlobalExactSelectedEar>,
    pub ear_states_examined: usize,
    pub vertex_degrees: BTreeMap<usize, usize>,
    pub anchor_degrees: BTreeMap<usize, usize>,
    pub ordinary_degree_histogram: BTreeMap<usize, usize>,
    pub vertices: usize,
    pub edges: usize,
    pub faces: usize,
    pub source_vertices: usize,
    pub source_faces: usize,
    pub euler: isize,
    pub charge: isize,
}

/// Pair budget of the joint concrete extraction.
#[derive(Debug, Clone, Copy, PartialEq, Eq)]
pub struct JointConcreteLimits {
    pub maximum_pairs: usize,
}

/// Why two concrete witnesses cannot be combined.
#[derive(Debug, Clone, Copy, PartialEq, Eq, PartialOrd, Ord)]
pub enum JointPairConflict {
    DuplicateNonBoundaryEdge(Edge),
    DuplicateGlobalTriangle(Triangle),
}

/// Counters of a joint concrete extraction.
#[derive(Debug, Clone, PartialEq, Eq, Default)]
pub struct JointConcreteEvidence {
    pub lower_witnesses: usize,
    pub upper_witnesses: usize,
    pub primary_cell_id: u64,
    pub dynamic_secondary_targets: usize,
    pub dynamic_forbidden_edges: usize,
    pub candidate_pairs: usize,
    pub pairs_examined: usize,
    pub pair_conflicts: BTreeMap<JointPairConflict, usize>,
    pub final_gate_rejects: BTreeMap<String, usize>,
    pub topology_closed: bool,
    pub entered_joint_extraction: bool,
}

/// The maximum level required under one parent, and whether it may coarsen.
#[derive(Debug, Clone, PartialEq, Eq)]
pub struct ParentRequirement {
    pub parent: TriangleAddress,
    pub maximum_required_level: usize,
    pub can_coarsen: bool,
}

/// A connected set of coarsenable parents with its core and transition rings.
#[derive(Debug, Clone, PartialEq, Eq)]
pub struct HierarchyComponent {
    pub id: u64,
    pub parents: Vec<TriangleAddress>,
    pub boundary_edges: Vec<(TriangleAddress, TriangleAddress)>,
    pub core_parents: Vec<TriangleAddress>,
    pub transition_parents: Vec<TriangleAddress>,
}

/// All parent requirements of a layer and the components built from them.
#[derive(Debug, Clone, PartialEq, Eq)]
pub struct HierarchyComponentPlan {
    pub parent_requirements: Vec<ParentRequirement>,
    pub components: Vec<HierarchyComponent>,
}

/// Why a pair of cell topologies is impossible before any ear repair.
#[derive(Debug, Clone, PartialEq, Eq, PartialOrd, Ord)]
pub enum PairRejectReason {
    DuplicateTriangle,
    AnchorBelowRepairRange { anchor: usize, degree: usize },
    AnchorAboveRepairRange { anchor: usize, degree: usize },
}

/// How a pair of cell topologies can be closed.
#[derive(Debug, Clone, PartialEq, Eq)]
pub enum TopologyPairClass {
    DirectlyClosedWithoutEar,
    NoEarFinalGateCandidate,
    EarRepairCandidate { total_required_ears: u8, overfull_anchors: u8 },
    ImpossibleBeforeEar { reason: PairRejectReason },
}

} // verus!
