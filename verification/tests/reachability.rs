use std::collections::BTreeSet;

use earthmesh_refine_certified::reachability::{incidence_signatures, minkowski_u8};

#[test]
fn catalan_signature_multiplicity_3_to_9() {
    let expected = [(3, 1), (4, 2), (5, 5), (6, 14), (7, 42), (8, 132), (9, 429)];
    for (n, catalan) in expected {
        let polygon = (0..n).collect::<Vec<usize>>();
        let count: usize = incidence_signatures(&polygon, &BTreeSet::new())
            .unwrap()
            .iter()
            .map(|signature| signature.member_topology_count)
            .sum();
        assert_eq!(count, catalan, "n={n}");
    }
}

#[test]
fn minkowski_sum_is_exact() {
    assert_eq!(
        minkowski_u8(&BTreeSet::from([1, 3]), &BTreeSet::from([2, 4])),
        BTreeSet::from([3, 5, 7])
    );
}

#[test]
fn minkowski_sum_with_empty_is_empty_and_commutes() {
    let a = BTreeSet::from([1u8, 2, 9]);
    let b = BTreeSet::from([0u8, 5]);
    assert!(minkowski_u8(&a, &BTreeSet::new()).is_empty());
    assert_eq!(minkowski_u8(&a, &b), minkowski_u8(&b, &a));
    assert_eq!(minkowski_u8(&a, &b), BTreeSet::from([1, 2, 6, 7, 9, 14]));
}

#[test]
fn square_signatures_are_the_two_diagonals() {
    let signatures = incidence_signatures(&[0, 1, 2, 3], &BTreeSet::new()).unwrap();
    assert_eq!(signatures.len(), 2);
    assert!(signatures.iter().all(|signature| signature.member_topology_count == 1));
}
