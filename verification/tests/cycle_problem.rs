use std::collections::{BTreeMap, BTreeSet};

use earthmesh_refine_certified::cycle_labels::{
    essential_cycle_from_face_band_plan, face_band_plan_from_essential_cycle,
};
use earthmesh_refine_certified::cycle_problem::{
    build_essential_cycle_problem, essential_cycle_problem_key,
};
use earthmesh_refine_certified::essential_cycle::{
    validate_selected_essential_cycle, CanonicalEdgeId, CanonicalFaceId, CanonicalVertexId,
    EssentialCycleKey,
};
use earthmesh_refine_certified::face_band::{AnchorBandPolicy, FaceBandProblem};

fn edge(a: usize, b: usize) -> (usize, usize) {
    if a < b { (a, b) } else { (b, a) }
}

/// A ring of `n` quads between an inner cycle (0..n), a middle cycle
/// (10..10+n) and an outer cycle (20..20+n), each quad cut into two faces;
/// face `f` has address `1000 + f`.
fn annulus(n: usize, band_count: usize) -> FaceBandProblem {
    let inner = |i: usize| i % n;
    let middle = |i: usize| 10 + i % n;
    let outer = |i: usize| 20 + i % n;
    let mut triangles = Vec::new();
    for i in 0..n {
        triangles.push([inner(i), inner(i + 1), middle(i)]);
        triangles.push([inner(i + 1), middle(i + 1), middle(i)]);
    }
    for i in 0..n {
        triangles.push([middle(i), middle(i + 1), outer(i)]);
        triangles.push([middle(i + 1), outer(i + 1), outer(i)]);
    }
    let transition_faces = (0..triangles.len()).collect::<Vec<_>>();
    let mut coarse_boundary_faces = BTreeSet::new();
    let mut fine_boundary_faces = BTreeSet::new();
    let mut coarse_boundary_vertices = BTreeSet::new();
    let mut fine_boundary_vertices = BTreeSet::new();
    let mut face_adjacency = BTreeMap::<usize, Vec<usize>>::new();
    let mut face_shared_edges = BTreeMap::new();
    let mut vertex_incident_faces = BTreeMap::<usize, Vec<usize>>::new();
    for (face, triangle) in triangles.iter().enumerate() {
        for &vertex in triangle {
            vertex_incident_faces.entry(vertex).or_default().push(face);
        }
        for side in 0..3 {
            let e = edge(triangle[(side + 1) % 3], triangle[(side + 2) % 3]);
            let neighbour = triangles.iter().enumerate().find(|(other, t)| {
                *other != face
                    && (0..3).any(|s| edge(t[(s + 1) % 3], t[(s + 2) % 3]) == e)
            });
            match neighbour {
                Some((other, _)) => {
                    face_adjacency.entry(face).or_default().push(other);
                    face_shared_edges.insert((face.min(other), face.max(other)), e);
                }
                None if e.1 < 10 => {
                    coarse_boundary_faces.insert(face);
                    coarse_boundary_vertices.extend([e.0, e.1]);
                }
                None => {
                    fine_boundary_faces.insert(face);
                    fine_boundary_vertices.extend([e.0, e.1]);
                }
            }
        }
    }
    for neighbours in face_adjacency.values_mut() {
        neighbours.sort_unstable();
        neighbours.dedup();
    }
    let mut face_vertex_neighbours = BTreeMap::<usize, Vec<usize>>::new();
    for faces in vertex_incident_faces.values() {
        for &face in faces {
            face_vertex_neighbours.entry(face).or_default().extend(faces.iter().copied());
        }
    }
    for faces in face_vertex_neighbours.values_mut() {
        faces.sort_unstable();
        faces.dedup();
    }
    FaceBandProblem {
        face_addresses: transition_faces.iter().map(|&face| (face, 1000 + face as u64)).collect(),
        transition_faces,
        coarse_boundary_faces,
        fine_boundary_faces,
        face_adjacency,
        vertex_incident_faces,
        face_vertex_neighbours,
        band_count,
        anchor_policies: BTreeMap::new(),
        face_shared_edges,
        coarse_boundary_vertices,
        fine_boundary_vertices,
        core_nonempty: true,
        source_face_rings: 0,
    }
}

/// Every vertex slot below 24 has address `5000 + slot`.
fn addresses() -> Vec<Option<u64>> {
    (0..24).map(|slot| Some(5000 + slot as u64)).collect()
}

fn vertex(address: u64) -> CanonicalVertexId {
    CanonicalVertexId::Address(address)
}

fn canonical(a: u64, b: u64) -> CanonicalEdgeId {
    CanonicalEdgeId { vertices: [vertex(a), vertex(b)] }
}

#[test]
fn the_key_names_faces_and_candidate_edges_canonically() {
    let problem = annulus(4, 2);
    let key = essential_cycle_problem_key(4, &addresses(), &problem, &vec![7, 3, 7]).unwrap();
    assert_eq!(key.contract_version, 1);
    assert_eq!(key.downstream_contract_version, 1);
    assert_eq!(key.source_n, 4);
    assert_eq!(key.band_count, 2);
    assert_eq!(key.transition_faces, (1000..1016).collect::<Vec<u64>>());
    assert_eq!(key.coarse_boundary_faces, vec![1000, 1002, 1004, 1006]);
    assert_eq!(key.fine_boundary_faces, vec![1009, 1011, 1013, 1015]);
    assert_eq!(key.retained_parents, vec![3, 7]);
    assert_eq!(
        key.candidate_edges,
        vec![canonical(5010, 5011), canonical(5010, 5013), canonical(5011, 5012), canonical(5012, 5013)]
    );
    assert_eq!(key.candidate_edge_incident_faces.len(), 4);
    assert_eq!(
        key.candidate_edge_incident_faces[0],
        (canonical(5010, 5011), [CanonicalFaceId { address: 1001 }, CanonicalFaceId { address: 1008 }])
    );
    for pair in key.face_adjacency_edges.windows(2) {
        assert!(pair[0] < pair[1]);
    }
    assert!(key.face_adjacency_edges.contains(&(CanonicalFaceId { address: 1001 }, CanonicalFaceId { address: 1008 })));
    assert!(key.anchor_policies.is_empty());
}

#[test]
fn frozen_slots_stand_for_vertices_without_an_address() {
    let problem = annulus(4, 2);
    let mut slots = addresses();
    slots[10] = None;
    let key = essential_cycle_problem_key(4, &slots, &problem, &Vec::new()).unwrap();
    let frozen = CanonicalVertexId::FrozenSourceSlot { source_n: 4, slot: 10 };
    assert_eq!(
        key.candidate_edges,
        vec![
            canonical(5011, 5012),
            CanonicalEdgeId { vertices: [vertex(5011), frozen] },
            canonical(5012, 5013),
            CanonicalEdgeId { vertices: [vertex(5013), frozen] },
        ]
    );
}

#[test]
fn anchors_are_sorted_and_blocking_anchors_remove_candidates() {
    let mut problem = annulus(4, 2);
    problem.anchor_policies.insert(12, AnchorBandPolicy::OnSingleInterface);
    problem.anchor_policies.insert(10, AnchorBandPolicy::InteriorOfSingleBand);
    let key = essential_cycle_problem_key(4, &addresses(), &problem, &Vec::new()).unwrap();
    assert_eq!(
        key.anchor_policies,
        vec![
            (vertex(5010), AnchorBandPolicy::InteriorOfSingleBand),
            (vertex(5012), AnchorBandPolicy::OnSingleInterface),
        ]
    );
    assert_eq!(key.candidate_edges, vec![canonical(5011, 5012), canonical(5012, 5013)]);
}

#[test]
fn key_errors_name_the_first_missing_or_repeated_address() {
    let mut problem = annulus(4, 2);
    problem.face_addresses.remove(&3);
    assert_eq!(
        essential_cycle_problem_key(4, &addresses(), &problem, &Vec::new()),
        Err("face-band slot 3 has no canonical address".to_string())
    );
    let mut problem = annulus(4, 2);
    problem.face_addresses.insert(1, 1000);
    assert_eq!(
        essential_cycle_problem_key(4, &addresses(), &problem, &Vec::new()),
        Err("canonical transition face addresses are not unique".to_string())
    );
    let mut problem = annulus(4, 2);
    problem.transition_faces.pop();
    problem.face_addresses.remove(&15);
    assert_eq!(
        essential_cycle_problem_key(4, &addresses(), &problem, &Vec::new()),
        Err("face-band slot 15 has no canonical address".to_string())
    );
}

#[test]
fn the_built_problem_indexes_the_key() {
    let problem = annulus(4, 2);
    let built = build_essential_cycle_problem(4, &addresses(), &problem, &Vec::new()).unwrap();
    assert_eq!(built.source_n, 4);
    assert_eq!(built.candidate_edges, built.problem_key.candidate_edges);
    assert_eq!(built.candidate_vertices, vec![vertex(5010), vertex(5011), vertex(5012), vertex(5013)]);
    assert_eq!(built.vertex_incident_edges, vec![vec![0, 1], vec![0, 2], vec![2, 3], vec![1, 3]]);
    assert_eq!(built.edge_incident_faces.len(), 4);
    assert_eq!(built.edge_incident_faces[0], [CanonicalFaceId { address: 1001 }, CanonicalFaceId { address: 1008 }]);
    assert_eq!(built.coarse_boundary_faces, BTreeSet::from([1000, 1002, 1004, 1006]));
    assert_eq!(built.coarse_boundary_vertices, vec![vertex(5000), vertex(5001), vertex(5002), vertex(5003)]);
    let crossings = (0..4).filter(|&i| built.dual_seam_crossing_edges.contains(i)).count();
    assert_eq!(crossings, 1);
}

#[test]
fn building_needs_two_bands_and_a_seam() {
    let problem = annulus(4, 3);
    assert_eq!(
        build_essential_cycle_problem(4, &addresses(), &problem, &Vec::new()),
        Err("essential-cycle construction supports W2 only".to_string())
    );
    let mut problem = annulus(4, 2);
    problem.fine_boundary_faces.clear();
    assert_eq!(
        build_essential_cycle_problem(4, &addresses(), &problem, &Vec::new()),
        Err("coarse and fine boundaries have no dual seam".to_string())
    );
}

#[test]
fn the_middle_cycle_converts_to_a_plan_and_back() {
    let problem = annulus(4, 2);
    let slots = addresses();
    let built = build_essential_cycle_problem(4, &slots, &problem, &Vec::new()).unwrap();
    let key = validate_selected_essential_cycle(&built, &[0, 1, 2, 3]).unwrap();
    assert_eq!(
        key,
        EssentialCycleKey { ordered_vertices: vec![vertex(5010), vertex(5011), vertex(5012), vertex(5013)] }
    );
    let plan = face_band_plan_from_essential_cycle(4, &slots, &problem, &built, &key).unwrap();
    assert_eq!(plan.band_count, 2);
    for face in 0..8 {
        assert_eq!(plan.labels[&face], 0);
    }
    for face in 8..16 {
        assert_eq!(plan.labels[&face], 1);
    }
    assert_eq!(essential_cycle_from_face_band_plan(4, &slots, &problem, &built, &plan), Ok(key));
}

#[test]
fn conversions_refuse_a_foreign_problem_or_an_invalid_plan() {
    let problem = annulus(4, 2);
    let slots = addresses();
    let built = build_essential_cycle_problem(4, &slots, &problem, &Vec::new()).unwrap();
    let key = validate_selected_essential_cycle(&built, &[0, 1, 2, 3]).unwrap();
    assert_eq!(
        face_band_plan_from_essential_cycle(6, &slots, &problem, &built, &key),
        Err("essential cycle does not match the supplied W2 problem".to_string())
    );
    let mut plan = face_band_plan_from_essential_cycle(4, &slots, &problem, &built, &key).unwrap();
    plan.labels.insert(0, 1);
    assert_eq!(
        essential_cycle_from_face_band_plan(4, &slots, &problem, &built, &plan),
        Err("face-band plan does not satisfy the matching W2 contract".to_string())
    );
}

#[test]
fn the_order_of_a_selection_does_not_change_the_answer() {
    let problem = annulus(4, 2);
    let built = build_essential_cycle_problem(4, &addresses(), &problem, &Vec::new()).unwrap();
    let expected = validate_selected_essential_cycle(&built, &[0, 1, 2, 3]);
    assert!(expected.is_ok());
    assert_eq!(validate_selected_essential_cycle(&built, &[3, 1, 0, 2]), expected);
    assert_eq!(validate_selected_essential_cycle(&built, &[2, 3, 1, 0]), expected);
    assert_eq!(
        validate_selected_essential_cycle(&built, &[0, 1, 2]),
        validate_selected_essential_cycle(&built, &[2, 0, 1])
    );
}
