use std::collections::BTreeSet;

use earthmesh_refine_certified::polygon_incidence::{
    build_state, enumerate_all, finish_triangle, is_cyclic_subsequence, remove_ear,
    solve_polygon_incidence_witness, validate_target, CutAnnulusPolygon, OccurrenceEdge,
    OccurrenceIncidenceTarget, PolygonIncidenceOutcomeKind, PolygonIncidenceWitnessOutcome,
    SearchContext, VertexOccurrenceId,
};

fn occurrence(global_source_slot: usize, occurrence_ordinal: usize) -> VertexOccurrenceId {
    VertexOccurrenceId {
        global_source_slot,
        occurrence_ordinal,
    }
}

/// The annulus between the cycles 0, 1, 2 and 100, 101, 102, cut open along
/// the bridge from 0 to 100.
fn known_cut() -> CutAnnulusPolygon {
    let occurrences = vec![
        occurrence(0, 0),
        occurrence(1, 0),
        occurrence(2, 0),
        occurrence(0, 1),
        occurrence(100, 1),
        occurrence(102, 0),
        occurrence(101, 0),
        occurrence(100, 0),
    ];
    let boundary_edges = (0..occurrences.len())
        .map(|index| OccurrenceEdge {
            a: occurrences[index],
            b: occurrences[(index + 1) % occurrences.len()],
        })
        .collect();
    CutAnnulusPolygon {
        root_bridge: (0, 100),
        boundary_edges,
        occurrence_to_global: occurrences.iter().map(|o| o.global_source_slot).collect(),
        occurrences,
    }
}

fn known_target() -> OccurrenceIncidenceTarget {
    OccurrenceIncidenceTarget::new(
        vec![0, 1, 2],
        vec![100, 101, 102],
        known_cut(),
        vec![1, 2, 3, 3, 1, 2, 3, 3],
        BTreeSet::new(),
    )
}

#[test]
fn triangle_base_requires_1_1_1() {
    let state = build_state(
        vec![occurrence(0, 0), occurrence(1, 0), occurrence(2, 0)],
        vec![1, 2, 1],
        Vec::new(),
        BTreeSet::new(),
    );
    assert!(finish_triangle(&state).is_none());
}

#[test]
fn ear_removal_decrements_neighbours() {
    let occurrences = (0..4).map(|slot| occurrence(slot, 0)).collect::<Vec<_>>();
    let target = OccurrenceIncidenceTarget::new(
        vec![0, 1, 2],
        vec![3, 4, 5],
        CutAnnulusPolygon {
            root_bridge: (0, 3),
            boundary_edges: Vec::new(),
            occurrence_to_global: vec![0, 1, 2, 3],
            occurrences: occurrences.clone(),
        },
        vec![2, 1, 2, 1],
        BTreeSet::new(),
    );
    let context = SearchContext {
        target: &target,
        lower: BTreeSet::from([0, 1, 2]),
        upper: BTreeSet::from([3, 4, 5]),
        boundary_global_edges: BTreeSet::from([(0, 1), (1, 2), (2, 3), (0, 3)]),
    };
    let state = build_state(occurrences, vec![2, 1, 2, 1], Vec::new(), BTreeSet::new());
    let child = remove_ear(&state, 1, &context).unwrap();
    assert_eq!(child.remaining_incidences, vec![1, 1, 1]);
}

#[test]
fn forbidden_diagonal_rejects() {
    let mut target = known_target();
    target.forbidden_global_edges.insert((0, 2));
    let context = SearchContext {
        target: &target,
        lower: target.lower.iter().copied().collect(),
        upper: target.upper.iter().copied().collect(),
        boundary_global_edges: BTreeSet::new(),
    };
    let state = build_state(
        vec![occurrence(0, 0), occurrence(1, 0), occurrence(2, 0), occurrence(100, 0)],
        vec![2, 1, 2, 1],
        Vec::new(),
        BTreeSet::new(),
    );
    assert!(remove_ear(&state, 1, &context).is_none());
}

#[test]
fn root_bridge_canonicality() {
    let mut target = known_target();
    target.cut.root_bridge = (1, 100);
    let context = SearchContext {
        target: &target,
        lower: target.lower.iter().copied().collect(),
        upper: target.upper.iter().copied().collect(),
        boundary_global_edges: BTreeSet::new(),
    };
    let state = build_state(
        vec![occurrence(0, 0), occurrence(2, 0), occurrence(100, 0), occurrence(101, 0)],
        vec![2, 1, 2, 1],
        Vec::new(),
        BTreeSet::new(),
    );
    assert!(remove_ear(&state, 1, &context).is_none());
}

#[test]
fn same_final_state_deduplicates() {
    let (_, evidence) = enumerate_all(&known_target()).unwrap();
    assert!(evidence.duplicate_states > 0);
}

fn triangulations(first: usize, last: usize) -> Vec<Vec<[usize; 3]>> {
    if last <= first + 1 {
        return vec![Vec::new()];
    }
    let mut out = Vec::new();
    for middle in first + 1..last {
        for left in triangulations(first, middle) {
            for right in triangulations(middle, last) {
                let mut triangles = left.clone();
                triangles.extend(right);
                triangles.push([first, middle, last]);
                out.push(triangles);
            }
        }
    }
    out
}

fn reducible(incidences: &[u8]) -> bool {
    if incidences.len() == 3 {
        return incidences == [1, 1, 1];
    }
    for ear in 0..incidences.len() {
        if incidences[ear] != 1 {
            continue;
        }
        let previous = (ear + incidences.len() - 1) % incidences.len();
        let next = (ear + 1) % incidences.len();
        let mut child = incidences.to_vec();
        let Some(previous_value) = child[previous].checked_sub(1) else {
            continue;
        };
        let Some(next_value) = child[next].checked_sub(1) else {
            continue;
        };
        if previous_value == 0 || next_value == 0 {
            continue;
        }
        child[previous] = previous_value;
        child[next] = next_value;
        child.remove(ear);
        if reducible(&child) {
            return true;
        }
    }
    false
}

#[test]
fn all_polygon_triangulations_have_recoverable_ear_sequence() {
    for vertices in 3..=8 {
        for triangles in triangulations(0, vertices - 1) {
            let mut incidences = vec![0u8; vertices];
            for triangle in triangles {
                for vertex in triangle {
                    incidences[vertex] += 1;
                }
            }
            assert!(reducible(&incidences), "{vertices}: {incidences:?}");
        }
    }
}

#[test]
fn checkpoint_resume_equals_one_shot() {
    let target = known_target();
    let one_shot = solve_polygon_incidence_witness(&target, u64::MAX, None);
    let checkpoint = match solve_polygon_incidence_witness(&target, 1, None) {
        PolygonIncidenceWitnessOutcome::SearchIncomplete { checkpoint, .. } => checkpoint,
        other => panic!("expected checkpoint, got {other:?}"),
    };
    let resumed = solve_polygon_incidence_witness(&target, u64::MAX, Some(&checkpoint));
    assert_eq!(one_shot, resumed);
}

#[test]
fn known_target_is_valid_and_its_witness_realizes_the_incidences() {
    let target = known_target();
    assert_eq!(validate_target(&target), Ok(()));
    match solve_polygon_incidence_witness(&target, u64::MAX, None) {
        PolygonIncidenceWitnessOutcome::Found { witness, evidence } => {
            assert_eq!(evidence.outcome, PolygonIncidenceOutcomeKind::Found);
            assert_eq!(witness.triangles.len(), 6);
            for (index, occurrence) in target.cut.occurrences.iter().enumerate() {
                let count = witness
                    .triangles
                    .iter()
                    .filter(|triangle| triangle.contains(occurrence))
                    .count();
                assert_eq!(count, usize::from(target.incidences[index]));
            }
        }
        other => panic!("expected a witness, got {other:?}"),
    }
}

#[test]
fn invalid_targets_name_their_first_failed_check() {
    let mut short = known_target();
    short.incidences.pop();
    assert_eq!(
        solve_polygon_incidence_witness(&short, 10, None),
        PolygonIncidenceWitnessOutcome::InvalidInput("PIER target shape is invalid".to_string())
    );
    let mut mismatched = known_target();
    mismatched.target_key.incidences[0] = 2;
    assert_eq!(
        validate_target(&mismatched),
        Err("PIER target key mismatch".to_string())
    );
    let sum = OccurrenceIncidenceTarget::new(
        vec![0, 1, 2],
        vec![100, 101, 102],
        known_cut(),
        vec![1, 2, 3, 3, 1, 2, 3, 2],
        BTreeSet::new(),
    );
    assert_eq!(
        validate_target(&sum),
        Err("PIER incidence sum is invalid".to_string())
    );
    let forbidden = OccurrenceIncidenceTarget::new(
        vec![0, 1, 2],
        vec![100, 101, 102],
        known_cut(),
        vec![1, 2, 3, 3, 1, 2, 3, 3],
        BTreeSet::from([(0, 1)]),
    );
    assert_eq!(
        validate_target(&forbidden),
        Err("PIER cut boundary contains a forbidden edge".to_string())
    );
    let overlapping = OccurrenceIncidenceTarget::new(
        vec![0, 1, 2],
        vec![2, 101, 102],
        known_cut(),
        vec![1, 2, 3, 3, 1, 2, 3, 3],
        BTreeSet::new(),
    );
    assert_eq!(
        validate_target(&overlapping),
        Err("PIER boundaries are invalid".to_string())
    );
}

#[test]
fn a_tampered_checkpoint_is_refused() {
    let target = known_target();
    let checkpoint = match solve_polygon_incidence_witness(&target, 1, None) {
        PolygonIncidenceWitnessOutcome::SearchIncomplete { checkpoint, .. } => checkpoint,
        other => panic!("expected checkpoint, got {other:?}"),
    };
    let mut other = known_target();
    other.forbidden_global_edges.insert((1, 101));
    other.target_key.forbidden_global_edges.push((1, 101));
    assert_eq!(
        solve_polygon_incidence_witness(&other, 10, Some(&checkpoint)),
        PolygonIncidenceWitnessOutcome::InvalidInput("PIER checkpoint identity mismatch".to_string())
    );
}

#[test]
fn cyclic_subsequences_go_round_once() {
    let original = vec![occurrence(0, 0), occurrence(1, 0), occurrence(2, 0), occurrence(3, 0)];
    assert!(is_cyclic_subsequence(&original, &vec![occurrence(2, 0), occurrence(3, 0), occurrence(0, 0)]));
    assert!(is_cyclic_subsequence(&original, &vec![occurrence(2, 0), occurrence(1, 0)]));
    assert!(!is_cyclic_subsequence(
        &original,
        &vec![occurrence(2, 0), occurrence(3, 0), occurrence(1, 0), occurrence(0, 0)]
    ));
    assert!(!is_cyclic_subsequence(&original, &Vec::new()));
    assert!(!is_cyclic_subsequence(&original, &vec![occurrence(7, 0)]));
}

#[test]
fn a_budget_of_zero_states_stops_at_once() {
    let target = known_target();
    match solve_polygon_incidence_witness(&target, 0, None) {
        PolygonIncidenceWitnessOutcome::SearchIncomplete { evidence, .. } => {
            assert_eq!(evidence.states, 0);
            assert_eq!(evidence.outcome, PolygonIncidenceOutcomeKind::SearchIncomplete);
        }
        other => panic!("expected an incomplete search, got {other:?}"),
    }
}

#[test]
fn a_cut_that_is_not_canonical_for_its_root_bridge_is_rejected() {
    let mut cut = known_cut();
    cut.occurrences.rotate_left(1);
    cut.occurrence_to_global.rotate_left(1);
    cut.boundary_edges.rotate_left(1);
    let target = OccurrenceIncidenceTarget::new(
        vec![0, 1, 2],
        vec![100, 101, 102],
        cut,
        vec![2, 3, 3, 1, 2, 3, 3, 1],
        BTreeSet::new(),
    );
    assert_eq!(
        validate_target(&target),
        Err("PIER cut is not canonical for its root bridge".to_string())
    );
}

#[test]
fn a_zero_state_search_is_incomplete_with_no_states() {
    match solve_polygon_incidence_witness(&known_target(), 0, None) {
        PolygonIncidenceWitnessOutcome::SearchIncomplete { evidence, .. } => {
            assert_eq!(evidence.states, 0);
            assert_eq!(evidence.outcome, PolygonIncidenceOutcomeKind::SearchIncomplete);
        }
        other => panic!("unexpected outcome {:?}", other),
    }
}
