use std::collections::{BTreeMap, BTreeSet};

use earthmesh_refine_certified::face_band::{
    face_band_evidence_json, face_band_plan_json, solve_exact_face_bands, AnchorBandPolicy,
    FaceBandLimits, FaceBandOutcomeKind, FaceBandProblem, FaceBandSolveOutcome,
};

fn edge(a: usize, b: usize) -> (usize, usize) {
    if a < b { (a, b) } else { (b, a) }
}

/// A ring of `n` quads between an inner cycle (0..n), a middle cycle
/// (10..10+n) and an outer cycle (20..20+n), each quad cut into two faces.
fn annulus(n: usize, band_count: usize) -> FaceBandProblem {
    let inner = |i: usize| i % n;
    let middle = |i: usize| 10 + i % n;
    let outer = |i: usize| 20 + i % n;
    let mut triangles = Vec::new();
    for i in 0..n {
        triangles.push([inner(i), inner(i + 1), middle(i)]);
        triangles.push([inner(i + 1), middle(i + 1), middle(i)]);
    }
    for i in 0..n {
        triangles.push([middle(i), middle(i + 1), outer(i)]);
        triangles.push([middle(i + 1), outer(i + 1), outer(i)]);
    }
    let transition_faces = (0..triangles.len()).collect::<Vec<_>>();
    let mut coarse_boundary_faces = BTreeSet::new();
    let mut fine_boundary_faces = BTreeSet::new();
    let mut coarse_boundary_vertices = BTreeSet::new();
    let mut fine_boundary_vertices = BTreeSet::new();
    let mut face_adjacency = BTreeMap::<usize, Vec<usize>>::new();
    let mut face_shared_edges = BTreeMap::new();
    let mut vertex_incident_faces = BTreeMap::<usize, Vec<usize>>::new();
    for (face, triangle) in triangles.iter().enumerate() {
        for &vertex in triangle {
            vertex_incident_faces.entry(vertex).or_default().push(face);
        }
        for side in 0..3 {
            let e = edge(triangle[(side + 1) % 3], triangle[(side + 2) % 3]);
            let neighbour = triangles.iter().enumerate().find(|(other, t)| {
                *other != face
                    && (0..3).any(|s| edge(t[(s + 1) % 3], t[(s + 2) % 3]) == e)
            });
            match neighbour {
                Some((other, _)) => {
                    face_adjacency.entry(face).or_default().push(other);
                    face_shared_edges.insert((face.min(other), face.max(other)), e);
                }
                None if e.1 < 10 => {
                    coarse_boundary_faces.insert(face);
                    coarse_boundary_vertices.extend([e.0, e.1]);
                }
                None => {
                    fine_boundary_faces.insert(face);
                    fine_boundary_vertices.extend([e.0, e.1]);
                }
            }
        }
    }
    for neighbours in face_adjacency.values_mut() {
        neighbours.sort_unstable();
        neighbours.dedup();
    }
    let mut face_vertex_neighbours = BTreeMap::<usize, Vec<usize>>::new();
    for faces in vertex_incident_faces.values() {
        for &face in faces {
            face_vertex_neighbours.entry(face).or_default().extend(faces.iter().copied());
        }
    }
    for faces in face_vertex_neighbours.values_mut() {
        faces.sort_unstable();
        faces.dedup();
    }
    FaceBandProblem {
        face_addresses: transition_faces.iter().map(|&face| (face, 1000 + face as u64)).collect(),
        transition_faces,
        coarse_boundary_faces,
        fine_boundary_faces,
        face_adjacency,
        vertex_incident_faces,
        face_vertex_neighbours,
        band_count,
        anchor_policies: BTreeMap::new(),
        face_shared_edges,
        coarse_boundary_vertices,
        fine_boundary_vertices,
        core_nonempty: true,
        source_face_rings: 0,
    }
}

#[test]
fn a_two_band_annulus_closes_with_the_middle_cycle_as_interface() {
    let problem = annulus(4, 2);
    match solve_exact_face_bands(&problem, FaceBandLimits { maximum_states: 10_000 }) {
        FaceBandSolveOutcome::Closed(plan, evidence) => {
            assert_eq!(plan.band_count, 2);
            assert_eq!(plan.labels.len(), 16);
            assert_eq!(plan.band_face_counts.iter().sum::<usize>(), 16);
            assert_eq!(plan.interface_edges.len(), 1);
            for face in &problem.coarse_boundary_faces {
                assert_eq!(plan.labels[face], 0);
            }
            for face in &problem.fine_boundary_faces {
                assert_eq!(plan.labels[face], 1);
            }
            assert_eq!(evidence.outcome, FaceBandOutcomeKind::Closed);
            assert_eq!(evidence.transition_faces, 16);
            let json = face_band_plan_json(&plan);
            assert_eq!(json, face_band_plan_json(&plan));
            assert!(json.starts_with("{\"band_count\":2,\"face_complex_fingerprint\":"));
            let evidence_json = face_band_evidence_json(&evidence);
            assert_eq!(evidence_json, face_band_evidence_json(&evidence));
        }
        other => panic!("expected a closed plan, got {other:?}"),
    }
}

#[test]
fn face_band_rejects_unsupported_band_counts_and_rings() {
    let problem = annulus(4, 4);
    match solve_exact_face_bands(&problem, FaceBandLimits { maximum_states: 10 }) {
        FaceBandSolveOutcome::InvalidInput { reason } => {
            assert_eq!(reason, "exact face-band solver supports band_count=2 or 3");
        }
        other => panic!("expected invalid input, got {other:?}"),
    }
    let mut problem = annulus(4, 2);
    problem.source_face_rings = 3;
    match solve_exact_face_bands(&problem, FaceBandLimits { maximum_states: 10 }) {
        FaceBandSolveOutcome::InvalidInput { reason } => {
            assert_eq!(reason, "registered face-band expansion supports at most two source-face rings");
        }
        other => panic!("expected invalid input, got {other:?}"),
    }
    let mut problem = annulus(4, 2);
    problem.core_nonempty = false;
    match solve_exact_face_bands(&problem, FaceBandLimits { maximum_states: 10 }) {
        FaceBandSolveOutcome::InvalidInput { reason } => {
            assert_eq!(reason, "face-band problem requires a non-empty coarse core");
        }
        other => panic!("expected invalid input, got {other:?}"),
    }
}

#[test]
fn anchor_policy_and_outcome_names_are_stable() {
    assert_eq!(AnchorBandPolicy::InteriorOfSingleBand.as_str(), "InteriorOfSingleBand");
    assert_eq!(AnchorBandPolicy::OnSingleInterface.as_str(), "OnSingleInterface");
    assert_eq!(AnchorBandPolicy::FineCapConnectedToExterior.as_str(), "FineCapConnectedToExterior");
    assert_eq!(FaceBandOutcomeKind::FamilyExhaustedNoSolution.as_str(), "FamilyExhaustedNoSolution");
    assert_eq!(FaceBandOutcomeKind::SearchBudgetExhausted.as_str(), "SearchBudgetExhausted");
}

#[test]
fn a_zero_state_budget_never_closes() {
    let problem = annulus(4, 2);
    match solve_exact_face_bands(&problem, FaceBandLimits { maximum_states: 0 }) {
        FaceBandSolveOutcome::SearchBudgetExhausted { states_examined, .. } => assert_eq!(states_examined, 0),
        FaceBandSolveOutcome::FamilyExhaustedNoSolution { states_examined, .. } => assert_eq!(states_examined, 0),
        other => panic!("unexpected outcome {:?}", other),
    }
}

#[test]
fn a_closed_search_stays_within_its_budget() {
    let problem = annulus(4, 2);
    match solve_exact_face_bands(&problem, FaceBandLimits { maximum_states: 10_000 }) {
        FaceBandSolveOutcome::Closed(_, evidence) => {
            assert!(evidence.states_examined >= 1);
            assert!(evidence.states_examined <= 10_000);
        }
        other => panic!("unexpected outcome {:?}", other),
    }
}
