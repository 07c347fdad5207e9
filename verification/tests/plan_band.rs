use std::collections::BTreeSet;

use earthmesh_refine_certified::plan_band::{
    band_complex, contract_coarse_boundary, path_edges_closed, shortest_cycle_path, source_cycle,
    ContractedBoundaryEdge, PlanBandDomainError,
};

#[test]
fn shortest_cycle_path_takes_the_shorter_walk() {
    let cycle = [10, 11, 12, 13, 14];
    assert_eq!(shortest_cycle_path(&cycle, 10, 12), Some(vec![10, 11, 12]));
    assert_eq!(shortest_cycle_path(&cycle, 10, 13), Some(vec![10, 14, 13]));
    assert_eq!(shortest_cycle_path(&cycle, 12, 12), Some(vec![12]));
    assert_eq!(shortest_cycle_path(&cycle, 10, 99), None);
    assert_eq!(shortest_cycle_path(&cycle, 99, 10), None);
}

#[test]
fn shortest_cycle_path_breaks_ties_lexicographically() {
    let cycle = [1, 2, 3, 4];
    assert_eq!(shortest_cycle_path(&cycle, 1, 3), Some(vec![1, 2, 3]));
    assert_eq!(shortest_cycle_path(&cycle, 3, 1), Some(vec![3, 2, 1]));
}

#[test]
fn closed_path_edges_join_last_to_first() {
    assert_eq!(
        path_edges_closed(&[3, 1, 2]),
        BTreeSet::from([(1, 3), (1, 2), (2, 3)])
    );
    assert!(path_edges_closed(&[]).is_empty());
}

#[test]
fn source_cycle_key_is_the_hash_of_its_debug_text() {
    let cycle = source_cycle(vec![1, 2, 3]);
    assert_eq!(cycle.ordered_vertices, vec![1, 2, 3]);
    assert_eq!(cycle.edges, BTreeSet::from([(1, 2), (2, 3), (1, 3)]));
    assert_eq!(cycle.cycle_key, "6f89fc9ebd477651");
    assert_eq!(source_cycle(vec![10, 20]).cycle_key, "cd7eab0c9dfb4b60");
    assert_eq!(source_cycle(Vec::new()).cycle_key, "09612b07b5ecb5a5");
}

#[test]
fn coarse_cycle_contracts_onto_two_edge_paths() {
    let source = source_cycle(vec![1, 2, 3, 4, 5, 6]);
    let edges = BTreeSet::from([(1, 3), (3, 5), (1, 5)]);
    let map = contract_coarse_boundary(&[1, 3, 5], &edges, &source).unwrap();
    assert_eq!(
        map.coarse_edges,
        vec![
            ContractedBoundaryEdge { topology_edge: (1, 3), source_path: vec![1, 2, 3] },
            ContractedBoundaryEdge { topology_edge: (3, 5), source_path: vec![3, 4, 5] },
            ContractedBoundaryEdge { topology_edge: (1, 5), source_path: vec![5, 6, 1] },
        ]
    );
}

#[test]
fn coarse_contraction_errors_name_their_cause() {
    let source = source_cycle(vec![1, 2, 3, 4, 5, 6]);
    let edges = BTreeSet::from([(1, 3), (3, 5), (1, 5)]);
    assert_eq!(
        contract_coarse_boundary(&[1, 9, 5], &edges, &source),
        Err(PlanBandDomainError::CoarseBoundaryVertexMissing { vertex: 9 })
    );
    assert_eq!(
        contract_coarse_boundary(&[1, 3, 5], &BTreeSet::from([(1, 3), (1, 5)]), &source),
        Err(PlanBandDomainError::InvalidCoarseContraction)
    );
    assert_eq!(
        contract_coarse_boundary(&[1, 4], &BTreeSet::from([(1, 4)]), &source),
        Err(PlanBandDomainError::UnsupportedCoarseSourcePathLength { edge: (1, 4), source_edges: 3 })
    );
    assert_eq!(
        contract_coarse_boundary(&[1, 2, 3], &BTreeSet::from([(1, 2), (2, 3), (1, 3)]), &source),
        Err(PlanBandDomainError::InvalidCoarseContraction)
    );
}

#[test]
fn band_complex_counts_boundary_edges_once() {
    let triangles = [[0, 1, 2], [1, 2, 3], [2, 3, 4]];
    let (vertices, edges, boundary) = band_complex(&triangles, &BTreeSet::from([0, 1]));
    assert_eq!(vertices, BTreeSet::from([0, 1, 2, 3]));
    assert_eq!(edges, BTreeSet::from([(0, 1), (0, 2), (1, 2), (1, 3), (2, 3)]));
    assert_eq!(boundary, BTreeSet::from([(0, 1), (0, 2), (1, 3), (2, 3)]));
}
