use std::collections::BTreeSet;

use earthmesh_refine_certified::plan_band::{
    BoundaryContractionMap, ContractedBoundaryEdge, SourceBoundaryCycle, TopologyBoundary,
};
use earthmesh_refine_certified::records::{
    ElasticTargetMode, EmbeddingAudit, EmbeddingAuditOutcome, FrozenN6CecStatus,
    FullPolygonGeometryKey, FullPolygonTopologyKey,
};

#[test]
fn status_names_are_stable() {
    assert_eq!(FrozenN6CecStatus::Closed.as_str(), "Closed");
    assert_eq!(FrozenN6CecStatus::ExactNoSolution.as_str(), "ExactNoSolution");
    assert_eq!(FrozenN6CecStatus::CycleSearchIncomplete.as_str(), "CycleSearchIncomplete");
    assert_eq!(FrozenN6CecStatus::DownstreamSearchIncomplete.as_str(), "DownstreamSearchIncomplete");
    assert_eq!(ElasticTargetMode::TrialReference.as_str(), "TrialReference");
    assert_eq!(ElasticTargetMode::HierarchyEdge.as_str(), "HierarchyEdge");
    assert_eq!(ElasticTargetMode::HierarchyEdgeAreaDegree.as_str(), "HierarchyEdgeAreaDegree");
}

#[test]
fn contracted_boundaries_expand_to_their_source_paths() {
    let boundary = TopologyBoundary::ContractedCoarseCycle {
        topology_vertices: vec![0, 2, 4],
        topology_edges: BTreeSet::from([(0, 2), (2, 4), (0, 4)]),
        source_expansion: BoundaryContractionMap {
            coarse_edges: vec![
                ContractedBoundaryEdge { topology_edge: (0, 2), source_path: vec![0, 1, 2] },
                ContractedBoundaryEdge { topology_edge: (2, 4), source_path: vec![2, 3, 4] },
                ContractedBoundaryEdge { topology_edge: (0, 4), source_path: vec![4, 5, 0] },
            ],
        },
    };
    assert_eq!(boundary.topology_vertices(), &[0, 2, 4]);
    assert_eq!(boundary.topology_edges(), BTreeSet::from([(0, 2), (2, 4), (0, 4)]));
    assert_eq!(
        boundary.source_edges(),
        BTreeSet::from([(0, 1), (1, 2), (2, 3), (3, 4), (4, 5), (0, 5)])
    );
    let cycle = TopologyBoundary::SourceCycle(SourceBoundaryCycle {
        ordered_vertices: vec![3, 4, 5],
        edges: BTreeSet::from([(3, 4), (4, 5), (3, 5)]),
        cycle_key: "k".to_string(),
    });
    assert_eq!(cycle.source_edges(), cycle.topology_edges());
    assert_eq!(cycle.topology_vertices(), &[3, 4, 5]);
}

#[test]
fn untangling_and_audits_follow_the_defect_counts() {
    let key = FullPolygonTopologyKey { sector_id: 3, triangles: vec![[0, 1, 2]] };
    let clean = FullPolygonGeometryKey { non_positive_triangles: 0, edge_crossings: 0, invalid_edges: 0 };
    assert!(!clean.needs_untangle());
    assert!(FullPolygonGeometryKey { non_positive_triangles: 0, edge_crossings: 1, invalid_edges: 0 }.needs_untangle());
    let audit = |crossing_pairs: usize| EmbeddingAudit {
        topology_key: key.clone(),
        common_source_vertices: 3,
        added_source_vertices: Vec::new(),
        removed_source_vertices: Vec::new(),
        common_edges: 3,
        added_edges: 0,
        removed_edges: 0,
        common_triangles: 1,
        added_triangles: 0,
        removed_triangles: 0,
        non_positive_triangles: 0,
        crossing_pairs,
        near_degenerate_triangles: 0,
        fixed_only_degenerate_triangles: 0,
        rotation_mismatch_vertices: Vec::new(),
    };
    assert_eq!(audit(0).outcome(), EmbeddingAuditOutcome::UsableEmbedding);
    assert_eq!(audit(2).outcome(), EmbeddingAuditOutcome::TopologyClosedNoUsableEmbedding);
}
