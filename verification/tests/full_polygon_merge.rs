use std::collections::{BTreeMap, BTreeSet};

use earthmesh_refine_certified::cycles::{has_cycle_component, is_single_cycle};
use earthmesh_refine_certified::graph::{compatible_edge_providers, degree_range_repairable};

#[test]
fn partial_degree_upper_bound_prunes() {
    assert!(degree_range_repairable(8, 8, 1, 5, 7));
    assert!(!degree_range_repairable(9, 9, 1, 5, 7));
}

#[test]
fn partial_degree_lower_bound_prunes() {
    assert!(degree_range_repairable(4, 4, 1, 5, 7));
    assert!(!degree_range_repairable(3, 3, 1, 5, 7));
}

#[test]
fn partial_link_small_cycle_prunes() {
    let cycle = BTreeSet::from([(1, 2), (1, 3), (2, 3)]);
    let path = BTreeSet::from([(1, 2), (2, 3)]);
    assert!(has_cycle_component(&cycle));
    assert!(!has_cycle_component(&path));
}

#[test]
fn final_link_requires_one_connected_cycle() {
    let cycle = BTreeSet::from([(1, 2), (1, 3), (2, 3)]);
    let path = BTreeSet::from([(1, 2), (2, 3)]);
    let disconnected = BTreeSet::from([(1, 2), (1, 3), (2, 3), (4, 5), (4, 6), (5, 6)]);
    assert!(is_single_cycle(&cycle));
    assert!(!is_single_cycle(&path));
    assert!(!is_single_cycle(&disconnected));
}

#[test]
fn edge_provider_prunes() {
    let edge = (10, 20);
    let providers = BTreeMap::from([(edge, vec![(0, 1), (1, 0), (1, 2)])]);
    let selected = vec![Some(0), None];
    let compatible = vec![Vec::new(), vec![0, 1]];
    assert_eq!(
        compatible_edge_providers(edge, &providers, &selected, &compatible),
        vec![(1, 0)]
    );
    assert!(compatible_edge_providers((30, 40), &providers, &selected, &compatible).is_empty());
}

#[test]
fn degree_range_capacity_saturates_at_zero() {
    assert!(degree_range_repairable(2, 2, 5, 0, 1));
    assert!(!degree_range_repairable(0, 0, 1, 2, 3));
    assert!(degree_range_repairable(0, 0, 2, 2, 3));
}

#[test]
fn a_lone_triangle_is_one_cycle_and_a_cycle_component() {
    let triangle = BTreeSet::from([(0, 1), (1, 2), (0, 2)]);
    assert!(is_single_cycle(&triangle));
    assert!(has_cycle_component(&triangle));
    let empty: BTreeSet<(usize, usize)> = BTreeSet::new();
    assert!(!is_single_cycle(&empty));
    assert!(!has_cycle_component(&empty));
}
