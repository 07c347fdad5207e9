use std::collections::BTreeSet;

use earthmesh_refine_certified::graph::duplicate_nonboundary_edge;

#[test]
fn shared_interface_edges_are_not_false_conflicts() {
    let shared = BTreeSet::from([(2, 3)]);
    let left = BTreeSet::from([(1, 2), (2, 3)]);
    let right = BTreeSet::from([(2, 3), (3, 4)]);
    assert_eq!(duplicate_nonboundary_edge(&left, &right, &shared), None);
}

#[test]
fn duplicate_nonboundary_edge_rejects() {
    let shared = BTreeSet::from([(2, 3)]);
    let left = BTreeSet::from([(1, 4), (2, 3)]);
    let right = BTreeSet::from([(1, 4), (2, 3)]);
    assert_eq!(
        duplicate_nonboundary_edge(&left, &right, &shared),
        Some((1, 4))
    );
}

#[test]
fn first_concrete_conflict_does_not_reject_signature_plan() {
    let shared = BTreeSet::from([(2, 3)]);
    let pairs = [
        (
            BTreeSet::from([(1, 4), (2, 3)]),
            BTreeSet::from([(1, 4), (2, 3)]),
        ),
        (
            BTreeSet::from([(1, 2), (2, 3)]),
            BTreeSet::from([(2, 3), (3, 4)]),
        ),
    ];
    assert_eq!(
        pairs.iter().position(
            |(left, right)| duplicate_nonboundary_edge(left, right, &shared).is_none()
        ),
        Some(1)
    );
}

#[test]
fn the_smallest_duplicate_edge_is_reported() {
    let shared = BTreeSet::new();
    let left = BTreeSet::from([(0, 9), (3, 4), (5, 6)]);
    let right = BTreeSet::from([(5, 6), (3, 4)]);
    assert_eq!(duplicate_nonboundary_edge(&left, &right, &shared), Some((3, 4)));
}
