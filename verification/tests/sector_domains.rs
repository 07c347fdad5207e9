use std::collections::{BTreeMap, BTreeSet};

use earthmesh_refine_certified::arc_consistency::ac3;
use earthmesh_refine_certified::ear_domains::{conservative_ear_delta_domains, sector_owner_map};
use earthmesh_refine_certified::reachability::{SectorDegreeSignature, VertexLinkContract};

fn signature(contributions: &[(usize, u8)]) -> SectorDegreeSignature {
    SectorDegreeSignature {
        contributions: contributions.to_vec(),
        member_topology_count: 1,
    }
}

fn contract(anchor: bool) -> VertexLinkContract {
    VertexLinkContract {
        target_degree_min: 5,
        target_degree_max: 7,
        pentagon_anchor: anchor,
        fixed_link_edges: BTreeSet::new(),
    }
}

#[test]
fn ac3_removes_unsupported_signatures_until_stable() {
    let mut sectors = vec![
        vec![signature(&[(0, 1)]), signature(&[(0, 2)])],
        vec![signature(&[(0, 3)]), signature(&[(0, 9)])],
    ];
    ac3(&BTreeMap::new(), &BTreeMap::new(), &BTreeMap::new(), &mut sectors);
    assert_eq!(
        sectors,
        vec![vec![signature(&[(0, 2)])], vec![signature(&[(0, 3)])]]
    );
}

#[test]
fn ac3_keeps_an_already_consistent_family() {
    let original = vec![
        vec![signature(&[(0, 1)]), signature(&[(0, 2)])],
        vec![signature(&[(0, 3)]), signature(&[(0, 4)])],
    ];
    let mut sectors = original.clone();
    ac3(&BTreeMap::new(), &BTreeMap::new(), &BTreeMap::new(), &mut sectors);
    assert_eq!(sectors, original);
}

#[test]
fn ac3_uses_fixed_degrees_and_ear_shifts() {
    let mut fixed = BTreeMap::new();
    fixed.insert(0, 4u8);
    let mut sectors = vec![vec![signature(&[(0, 1)]), signature(&[(0, 4)])]];
    ac3(&BTreeMap::new(), &fixed, &BTreeMap::new(), &mut sectors);
    assert_eq!(sectors, vec![vec![signature(&[(0, 1)])]]);

    let mut ears = BTreeMap::new();
    ears.insert(0, BTreeSet::from([-2i8]));
    let mut shifted = vec![vec![signature(&[(0, 1)]), signature(&[(0, 4)])]];
    ac3(&BTreeMap::new(), &fixed, &ears, &mut shifted);
    assert_eq!(shifted, vec![vec![signature(&[(0, 4)])]]);
}

#[test]
fn sector_owner_map_lists_sectors_in_order() {
    let sectors = vec![
        vec![signature(&[(0, 1), (1, 1)])],
        vec![signature(&[(1, 2)])],
        vec![signature(&[(1, 1)]), signature(&[(5, 2)])],
    ];
    let owners = sector_owner_map(&sectors);
    let mut expected = BTreeMap::new();
    expected.insert(0, vec![0u64]);
    expected.insert(1, vec![0u64, 1, 2]);
    expected.insert(5, vec![2u64]);
    assert_eq!(owners, expected);
}

#[test]
fn ear_domains_widen_touchable_vertices_only() {
    let mut contracts = BTreeMap::new();
    contracts.insert(1, contract(true));
    contracts.insert(5, contract(false));
    let sectors = vec![
        vec![signature(&[(0, 1), (1, 1)])],
        vec![signature(&[(2, 1)])],
    ];
    let (domains, no_anchors) = conservative_ear_delta_domains(&contracts, &sectors).unwrap();
    assert!(!no_anchors);
    let wide = BTreeSet::from([-2i8, -1, 0, 1, 2]);
    let mut expected = BTreeMap::new();
    expected.insert(0, wide.clone());
    expected.insert(1, wide);
    expected.insert(2, BTreeSet::from([0i8]));
    assert_eq!(domains, expected);
}

#[test]
fn ear_domains_without_anchors_are_zero() {
    let sectors = vec![vec![signature(&[(3, 1)])]];
    let (domains, no_anchors) = conservative_ear_delta_domains(&BTreeMap::new(), &sectors).unwrap();
    assert!(no_anchors);
    let mut expected = BTreeMap::new();
    expected.insert(3, BTreeSet::from([0i8]));
    assert_eq!(domains, expected);
}

#[test]
fn ear_bound_past_a_signed_byte_is_refused() {
    let contracts = (0..64).map(|v| (v, contract(true))).collect::<BTreeMap<_, _>>();
    assert_eq!(
        conservative_ear_delta_domains(&contracts, &[]),
        Err("generic ear bound exceeds i8 delta evidence".to_string())
    );
    let fewer = (0..63).map(|v| (v, contract(true))).collect::<BTreeMap<_, _>>();
    let (domains, _) = conservative_ear_delta_domains(&fewer, &[]).unwrap();
    assert_eq!(domains[&0].len(), 253);
}
