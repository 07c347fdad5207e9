use std::collections::{BTreeMap, BTreeSet};

use earthmesh_refine_certified::cycles::{flood, link_edges, vertex_degrees};
use earthmesh_refine_certified::graph::{
    canonical_vertices, contract_chain_to_cycle, cycle_path, fnv1a, has_duplicate_triangles,
    is_subsequence, mesh_edges, min_max, polygon_boundary_edges, sorted,
};

#[test]
fn edges_of_a_fan_and_its_links() {
    let triangles = [[0, 1, 2], [0, 2, 3], [0, 3, 1]];
    assert_eq!(
        mesh_edges(&triangles),
        BTreeSet::from([(0, 1), (0, 2), (0, 3), (1, 2), (2, 3), (1, 3)])
    );
    assert_eq!(link_edges(0, &triangles), BTreeSet::from([(1, 2), (2, 3), (1, 3)]));
    assert_eq!(
        vertex_degrees(&triangles),
        BTreeMap::from([(0, 3), (1, 2), (2, 2), (3, 2)])
    );
    assert!(!has_duplicate_triangles(&triangles));
    assert!(has_duplicate_triangles(&[[0, 1, 2], [2, 0, 1]]));
    assert_eq!(canonical_vertices([7, 3, 5]), [3, 5, 7]);
    assert_eq!(sorted(9, 4), (4, 9));
}

#[test]
fn flood_reaches_only_the_component_of_the_start() {
    let edges = vec![(1, 2), (2, 3), (7, 8)];
    assert_eq!(flood(&edges, 1), BTreeSet::from([1, 2, 3]));
    assert_eq!(flood(&edges, 8), BTreeSet::from([7, 8]));
    assert_eq!(flood(&edges, 5), BTreeSet::from([5]));
}

#[test]
fn polygons_paths_and_subsequences() {
    assert_eq!(
        polygon_boundary_edges(&[4, 1, 9]),
        BTreeSet::from([(1, 4), (1, 9), (4, 9)])
    );
    assert_eq!(cycle_path(&[10, 11, 12, 13], 1, 3, 1), vec![11, 12, 13]);
    assert_eq!(cycle_path(&[10, 11, 12, 13], 1, 3, 3), vec![11, 10, 13]);
    assert!(is_subsequence(&[1, 3], &[1, 2, 3]));
    assert!(!is_subsequence(&[3, 1], &[1, 2, 3]));
    assert_eq!(min_max(&[4, 9, 2, 7]), Some((2, 9)));
    assert_eq!(min_max(&[]), None);
}

#[test]
fn chains_contract_onto_the_coarse_cycle() {
    assert_eq!(contract_chain_to_cycle(&[0, 1, 7, 2], &[0, 1, 2, 3]), Ok(vec![0, 1, 2]));
    assert_eq!(contract_chain_to_cycle(&[0, 3, 7, 2], &[0, 1, 2, 3]), Ok(vec![0, 3, 2]));
    assert_eq!(contract_chain_to_cycle(&[], &[0, 1, 2, 3]), Err("sector chain is empty".to_string()));
    assert_eq!(
        contract_chain_to_cycle(&[9, 2], &[0, 1, 2, 3]),
        Err("coarse chain start 9 is absent from coarse cycle".to_string())
    );
    assert_eq!(
        contract_chain_to_cycle(&[0, 5, 2], &[0, 1, 2, 3]),
        Err("coarse chain [0, 5, 2] has no path on coarse cycle [0, 1, 2, 3]".to_string())
    );
    assert_eq!(
        contract_chain_to_cycle(&[0, 1, 3, 2], &[0, 1, 2, 3]),
        Err("coarse chain [0, 1, 3, 2] is ambiguous on coarse cycle [0, 1, 2, 3]".to_string())
    );
}

#[test]
fn fnv1a_matches_its_reference_values() {
    assert_eq!(fnv1a(&[]), 0xcbf29ce484222325);
    assert_eq!(fnv1a(b"a"), 0xaf63dc4c8601ec8c);
    assert_eq!(fnv1a(b"foobar"), 0x85944171f73967e8);
}
