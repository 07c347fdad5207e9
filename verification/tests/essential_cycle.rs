use std::collections::BTreeSet;

use earthmesh_refine_certified::essential_cycle::{
    essential_cycle_seam_parity, BitSet, CanonicalFaceId, EssentialCycleProblem,
    EssentialCycleProblemKey,
};

#[test]
fn bit_set_reads_back_what_was_set() {
    let mut bits = BitSet::empty(130);
    assert_eq!(bits.len(), 130);
    assert!(!bits.is_empty());
    assert!(!bits.contains(64));
    assert_eq!(bits.set(64, true), Ok(()));
    assert_eq!(bits.set(129, true), Ok(()));
    assert!(bits.contains(64));
    assert!(bits.contains(129));
    assert!(!bits.contains(63));
    assert!(!bits.contains(130));
    assert_eq!(bits.set(64, false), Ok(()));
    assert!(!bits.contains(64));
    assert_eq!(
        bits.set(130, true),
        Err("bit index 130 is outside length 130".to_string())
    );
    assert!(BitSet::empty(0).is_empty());
}

fn problem_with_seam(len: usize, crossing: &[usize]) -> EssentialCycleProblem {
    let mut seam = BitSet::empty(len);
    for &index in crossing {
        seam.set(index, true).unwrap();
    }
    EssentialCycleProblem {
        source_n: 2,
        transition_faces: vec![CanonicalFaceId { address: 1 }],
        coarse_boundary_faces: BTreeSet::new(),
        fine_boundary_faces: BTreeSet::new(),
        candidate_vertices: Vec::new(),
        candidate_edges: Vec::new(),
        edge_incident_faces: Vec::new(),
        vertex_incident_edges: Vec::new(),
        coarse_boundary_vertices: Vec::new(),
        fine_boundary_vertices: Vec::new(),
        anchor_policies: Vec::new(),
        dual_seam_crossing_edges: seam,
        problem_key: EssentialCycleProblemKey {
            contract_version: 1,
            downstream_contract_version: 1,
            source_n: 2,
            band_count: 2,
            source_face_rings: 0,
            transition_faces: vec![1],
            coarse_boundary_faces: Vec::new(),
            fine_boundary_faces: Vec::new(),
            face_adjacency_edges: Vec::new(),
            candidate_edges: Vec::new(),
            candidate_edge_incident_faces: Vec::new(),
            anchor_policies: Vec::new(),
            retained_parents: Vec::new(),
        },
    }
}

#[test]
fn seam_parity_counts_selected_crossings() {
    let problem = problem_with_seam(8, &[1, 4, 6]);
    assert_eq!(essential_cycle_seam_parity(&problem, &[1, 4]), 0);
    assert_eq!(essential_cycle_seam_parity(&problem, &[1, 2, 4, 6]), 1);
    assert_eq!(essential_cycle_seam_parity(&problem, &[]), 0);
    assert_eq!(essential_cycle_seam_parity(&problem, &[0, 2, 40]), 0);
}

use earthmesh_refine_certified::essential_cycle::{
    canonical_edge, coarse_side, cycle_edges, validate_selected_essential_cycle, CanonicalEdgeId,
    CanonicalVertexId, EssentialCycleKey,
};
use earthmesh_refine_certified::face_band::AnchorBandPolicy;

fn vertex(address: u64) -> CanonicalVertexId {
    CanonicalVertexId::Address(address)
}

fn face(address: u64) -> CanonicalFaceId {
    CanonicalFaceId { address }
}

fn edge(a: u64, b: u64) -> CanonicalEdgeId {
    CanonicalEdgeId { vertices: [vertex(a), vertex(b)] }
}

/// A triangle of primal edges between an inner ring of coarse-side faces
/// (100, 101, 102) and an outer ring of fine-side faces (200, 201, 202);
/// candidates 3 to 5 form a second, separate triangle.
fn ring_problem(crossing: &[usize]) -> EssentialCycleProblem {
    let mut problem = problem_with_seam(6, crossing);
    problem.transition_faces = [100, 101, 102, 200, 201, 202].iter().map(|&a| face(a)).collect();
    problem.coarse_boundary_faces = BTreeSet::from([100]);
    problem.fine_boundary_faces = BTreeSet::from([200]);
    problem.candidate_edges = vec![edge(1, 2), edge(2, 3), edge(1, 3), edge(4, 5), edge(5, 6), edge(4, 6)];
    problem.edge_incident_faces = vec![
        [face(100), face(200)],
        [face(201), face(101)],
        [face(102), face(202)],
        [face(300), face(301)],
        [face(301), face(302)],
        [face(300), face(302)],
    ];
    problem.problem_key.face_adjacency_edges = vec![
        (face(100), face(200)),
        (face(101), face(201)),
        (face(102), face(202)),
        (face(100), face(101)),
        (face(101), face(102)),
        (face(100), face(102)),
        (face(200), face(201)),
        (face(201), face(202)),
        (face(200), face(202)),
    ];
    problem
}

#[test]
fn a_single_separating_cycle_is_accepted_in_canonical_order() {
    let problem = ring_problem(&[0]);
    assert_eq!(
        validate_selected_essential_cycle(&problem, &[2, 0, 1]),
        Ok(EssentialCycleKey { ordered_vertices: vec![vertex(1), vertex(2), vertex(3)] })
    );
    assert_eq!(coarse_side(&problem, &[0, 1, 2]), Ok(BTreeSet::from([100, 101, 102])));
}

#[test]
fn malformed_selections_are_refused() {
    let problem = ring_problem(&[0]);
    let message = Err("selected cycle edges must be non-empty, unique candidates".to_string());
    assert_eq!(validate_selected_essential_cycle(&problem, &[]), message);
    assert_eq!(validate_selected_essential_cycle(&problem, &[0, 1, 1, 2]), message);
    assert_eq!(validate_selected_essential_cycle(&problem, &[0, 1, 9]), message);
}

#[test]
fn open_paths_and_two_cycles_are_refused() {
    let problem = ring_problem(&[0]);
    assert_eq!(
        validate_selected_essential_cycle(&problem, &[0, 1]),
        Err("selected primal edges do not form degree-two cycle vertices".to_string())
    );
    assert_eq!(
        validate_selected_essential_cycle(&problem, &[0, 1, 2, 3, 4, 5]),
        Err("selected primal edges form multiple cycles".to_string())
    );
}

#[test]
fn boundary_anchor_and_parity_rules_are_enforced() {
    let mut touching = ring_problem(&[0]);
    touching.fine_boundary_vertices = vec![vertex(3)];
    assert_eq!(
        validate_selected_essential_cycle(&touching, &[0, 1, 2]),
        Err("selected cycle touches a fixed boundary vertex".to_string())
    );
    let mut missing_anchor = ring_problem(&[0]);
    missing_anchor.anchor_policies = vec![(vertex(2), AnchorBandPolicy::OnSingleInterface), (vertex(9), AnchorBandPolicy::OnSingleInterface)];
    assert_eq!(
        validate_selected_essential_cycle(&missing_anchor, &[0, 1, 2]),
        Err("OnSingleInterface anchor is not on the selected cycle".to_string())
    );
    let mut interior_anchor = ring_problem(&[0]);
    interior_anchor.anchor_policies = vec![(vertex(2), AnchorBandPolicy::InteriorOfSingleBand)];
    assert_eq!(
        validate_selected_essential_cycle(&interior_anchor, &[0, 1, 2]),
        Err("selected cycle violates an anchor interior policy".to_string())
    );
    assert_eq!(
        validate_selected_essential_cycle(&ring_problem(&[0, 1]), &[0, 1, 2]),
        Err("selected cycle has even dual-seam parity".to_string())
    );
}

#[test]
fn coarse_side_needs_a_separating_selection() {
    let mut crossed = ring_problem(&[0]);
    crossed.fine_boundary_faces = BTreeSet::from([101]);
    assert_eq!(
        coarse_side(&crossed, &[0, 1, 2]),
        Err("selected cycle does not separate coarse and fine boundaries".to_string())
    );
    assert_eq!(
        validate_selected_essential_cycle(&crossed, &[0, 1, 2]),
        Err("selected cycle does not separate coarse and fine boundaries".to_string())
    );
    assert_eq!(
        coarse_side(&ring_problem(&[0]), &[0, 7]),
        Err("selected cycle edge index is out of range".to_string())
    );
    let mut no_coarse = ring_problem(&[0]);
    no_coarse.coarse_boundary_faces = BTreeSet::new();
    assert_eq!(
        coarse_side(&no_coarse, &[0, 1, 2]),
        Err("essential-cycle problem has no coarse boundary face".to_string())
    );
    let mut no_fine = ring_problem(&[0]);
    no_fine.fine_boundary_faces = BTreeSet::new();
    assert_eq!(
        coarse_side(&no_fine, &[0, 1, 2]),
        Err("essential-cycle problem has no fine boundary face".to_string())
    );
    let mut split_fine = ring_problem(&[0]);
    split_fine.transition_faces.push(face(400));
    assert_eq!(
        coarse_side(&split_fine, &[0, 1, 2]),
        Err("selected cycle does not leave one connected fine side".to_string())
    );
}

#[test]
fn cycle_edges_walk_the_key_cyclically() {
    let key = EssentialCycleKey { ordered_vertices: vec![vertex(1), vertex(2), vertex(3)] };
    assert_eq!(cycle_edges(&key), Ok(vec![edge(1, 2), edge(2, 3), edge(1, 3)]));
    let short = EssentialCycleKey { ordered_vertices: vec![vertex(1), vertex(2)] };
    assert_eq!(cycle_edges(&short), Err("cycle key requires at least three unique vertices".to_string()));
    let repeated = EssentialCycleKey { ordered_vertices: vec![vertex(1), vertex(2), vertex(1)] };
    assert_eq!(cycle_edges(&repeated), Err("cycle key requires at least three unique vertices".to_string()));
    assert_eq!(canonical_edge(vertex(7), vertex(3)), edge(3, 7));
    let frozen = CanonicalVertexId::FrozenSourceSlot { source_n: 2, slot: 0 };
    assert_eq!(canonical_edge(frozen, vertex(9)).vertices, [vertex(9), frozen]);
}

use earthmesh_refine_certified::essential_cycle::dual_seam;

fn seam_key(adjacency: &[(u64, u64)], incidences: Vec<(CanonicalEdgeId, [CanonicalFaceId; 2])>) -> EssentialCycleProblemKey {
    let mut key = problem_with_seam(1, &[]).problem_key;
    key.coarse_boundary_faces = vec![100];
    key.fine_boundary_faces = vec![200];
    key.face_adjacency_edges = adjacency.iter().map(|&(a, b)| (face(a), face(b))).collect();
    key.candidate_edges = vec![edge(1, 2), edge(2, 3)];
    key.candidate_edge_incident_faces = incidences;
    key
}

#[test]
fn dual_seam_collects_the_crossed_candidates() {
    let key = seam_key(
        &[(100, 101), (101, 201), (201, 200)],
        vec![(edge(1, 2), [face(101), face(201)]), (edge(2, 3), [face(300), face(301)])],
    );
    assert_eq!(dual_seam(&key), Ok(vec![0]));
    let reversed = seam_key(
        &[(100, 101), (101, 201), (201, 200)],
        vec![(edge(1, 2), [face(201), face(101)])],
    );
    assert_eq!(dual_seam(&reversed), Ok(vec![]));
}

#[test]
fn dual_seam_errors_name_their_cause() {
    let unknown = seam_key(&[(100, 200)], vec![(edge(7, 8), [face(100), face(200)])]);
    assert_eq!(
        dual_seam(&unknown),
        Err("dual incidence references a non-candidate edge".to_string())
    );
    let apart = seam_key(&[(100, 101), (201, 200)], Vec::new());
    assert_eq!(
        dual_seam(&apart),
        Err("coarse and fine boundaries have no dual seam".to_string())
    );
}

#[test]
fn a_selection_with_self_loops_is_answered_by_its_walk() {
    let mut problem = ring_problem(&[1]);
    problem.candidate_edges = vec![edge(1, 1), edge(1, 2), edge(2, 3), edge(3, 3), edge(4, 5), edge(5, 6)];
    problem.edge_incident_faces = vec![
        [face(300), face(301)],
        [face(100), face(200)],
        [face(201), face(101)],
        [face(102), face(202)],
        [face(301), face(302)],
        [face(300), face(302)],
    ];
    assert_eq!(
        validate_selected_essential_cycle(&problem, &[0, 1, 2, 3]),
        Ok(EssentialCycleKey { ordered_vertices: vec![vertex(1)] })
    );
    assert_eq!(
        validate_selected_essential_cycle(&problem, &[3, 2, 1, 0]),
        Ok(EssentialCycleKey { ordered_vertices: vec![vertex(1)] })
    );
    assert_eq!(
        validate_selected_essential_cycle(&problem, &[1, 2, 3]),
        Err("selected primal edges do not form degree-two cycle vertices".to_string())
    );
}
