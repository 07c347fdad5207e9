use std::collections::BTreeSet;

use earthmesh_refine_certified::epochs::{
    order_patches, CandidateResult, CertifiedEpochLimits, CoarseningPatch, EpochCandidateStatus,
    EpochProgress,
};

fn patch(vertex: usize, margin: isize, level: usize, address: u64, seed_face: usize) -> CoarseningPatch {
    CoarseningPatch {
        vertex,
        seed_face,
        address,
        level,
        parent_faces: Vec::new(),
        boundary_cycle: Vec::new(),
        retained_vertices: vec![vertex + 100],
        removable_vertices: Vec::new(),
        transition_halo: Vec::new(),
        requirement_margin: margin,
    }
}

#[test]
fn candidates_are_tried_by_margin_level_address_and_vertex() {
    let ordered = order_patches(vec![
        patch(4, 1, 3, 50, 0),
        patch(2, 2, 1, 70, 0),
        patch(3, 1, 5, 90, 0),
        patch(1, 1, 3, 40, 0),
        patch(5, 1, 3, 40, 0),
    ]);
    let vertices = ordered.iter().map(|p| p.vertex).collect::<Vec<_>>();
    assert_eq!(vertices, vec![2, 3, 1, 5, 4]);
}

#[test]
fn a_repeated_vertex_keeps_its_first_candidate() {
    let ordered = order_patches(vec![patch(7, 1, 2, 10, 11), patch(7, 1, 2, 10, 22), patch(8, 0, 2, 10, 0)]);
    assert_eq!(ordered.len(), 2);
    assert_eq!(ordered[0].seed_face, 11);
    assert_eq!(ordered[1].vertex, 8);
    assert!(order_patches(Vec::new()).is_empty());
}

#[test]
fn attempts_spend_the_budget_and_record_their_outcome() {
    let mut progress = EpochProgress::start(CertifiedEpochLimits { max_adjacent_level_delta: 1, search_state_budget: 10 });
    assert_eq!(progress.epoch(), 1);
    assert!(!progress.budget_spent());
    let stop = progress.record_attempt(3, 30, CandidateResult::ProvenInfeasible { states_examined: 4, reason: "no ear".to_string() });
    assert!(!stop);
    assert_eq!(progress.remaining_budget, 6);
    assert_eq!(progress.states_examined, 4);
    assert_eq!(progress.blocked, BTreeSet::from([3]));
    assert_eq!(progress.attempts[0].status, EpochCandidateStatus::ProvenInfeasible);
    assert_eq!(progress.attempts[0].reason, Some("no ear".to_string()));
    let stop = progress.record_attempt(3, 30, CandidateResult::Committed { states_examined: 9, touched_sites: vec![1, 2, 2] });
    assert!(!stop);
    assert_eq!(progress.remaining_budget, 0);
    assert_eq!(progress.states_examined, 13);
    assert_eq!(progress.committed, 1);
    assert!(progress.blocked.is_empty());
    assert_eq!(progress.dirty_sites, BTreeSet::from([1, 2]));
    assert!(progress.budget_spent());
    progress.record_attempt(5, 50, CandidateResult::Stale);
    assert_eq!(progress.attempts[2].status, EpochCandidateStatus::InvalidBoundary);
    assert_eq!(progress.attempts[2].states_examined, 0);
    assert_eq!(progress.attempts[2].reason, Some("candidate no longer has a closed one-ring".to_string()));
    progress.record_attempt(6, 60, CandidateResult::InvalidBoundary { reason: "open ring".to_string() });
    assert_eq!(progress.attempts[3].reason, Some("open ring".to_string()));
    assert_eq!(progress.remaining_budget, 0);
    let stop = progress.record_attempt(7, 70, CandidateResult::SearchBudgetExhausted { states_examined: 2 });
    assert!(stop);
    assert_eq!(progress.states_examined, 15);
    assert_eq!(progress.attempts.len(), 5);
    assert!(progress.attempts.iter().all(|a| a.epoch == 1));
}

#[test]
fn only_touched_candidates_are_reconsidered() {
    let mut progress = EpochProgress::start(CertifiedEpochLimits { max_adjacent_level_delta: 1, search_state_budget: 100 });
    progress.record_attempt(3, 30, CandidateResult::Committed { states_examined: 1, touched_sites: vec![7, 8] });
    assert!(progress.close_epoch());
    assert_eq!(progress.epoch_commits, vec![1]);
    let refreshed = vec![Some((7, vec![1])), None, Some((2, vec![5, 8])), Some((4, vec![6]))];
    assert_eq!(progress.next_epoch(&refreshed), vec![0, 2]);
    assert_eq!(progress.committed, 0);
    assert!(progress.dirty_sites.is_empty());
    assert_eq!(progress.epoch(), 2);
    assert!(!progress.close_epoch());
    assert_eq!(progress.epoch_commits, vec![1, 0]);
}
