use earthmesh_refine_certified::dqx::{
    dqx_netcdf_global_attributes, dqx_run_evidence_json, is_sha256, AngleContractId,
    DomainQualityVector, DqxRunEvidence, QualityCellAction, QualityOptimizationStatus,
};

fn evidence() -> DqxRunEvidence {
    DqxRunEvidence {
        taskbook_id: "CMRC-DQX-2026-09-03-R1".into(),
        taskbook_sha: "a".repeat(64),
        angle_contract: AngleContractId::DomainQuality38To82V1,
        domain_key: "b".repeat(64),
        priority_field_hash: "c".repeat(64),
        orientation_candidates: 12,
        selected_orientation_key: "orientation-03".into(),
        initial_quality: DomainQualityVector {
            target_preferred_violation_count: 4,
            final_cell_count: 100,
            work_units: 10,
            ..DomainQualityVector::default()
        },
        final_quality: DomainQualityVector {
            final_cell_count: 104,
            work_units: 20,
            ..DomainQualityVector::default()
        },
        components_considered: 8,
        components_committed: 3,
        components_rejected_for_global_hard: 1,
        components_rejected_for_target_quality: 2,
        front_shifts_attempted: 4,
        front_shifts_committed: 2,
        moves_attempted: 6,
        moves_committed: 3,
        flips_attempted: 5,
        flips_committed: 1,
        cache_hits: 9,
        cache_misses: 2,
        full_scans: 1,
        work_units: 20,
        final_status: QualityOptimizationStatus::Improved,
    }
}

#[test]
fn output_schema_names_and_actions_are_frozen() {
    assert_eq!(
        dqx_netcdf_global_attributes(),
        [
            "angle_contract_id",
            "global_angle_min_required",
            "global_angle_max_required",
            "target_preferred_angle_min",
            "target_preferred_angle_max",
            "quality_domain_kind",
            "quality_priority_field_hash",
            "quality_optimization_status",
        ]
    );
    assert_eq!(
        [
            QualityCellAction::NoAction,
            QualityCellAction::Coarsened,
            QualityCellAction::QualityProtected,
            QualityCellAction::FrontShiftSource,
            QualityCellAction::FrontShiftDestination,
            QualityCellAction::VertexRelocated,
            QualityCellAction::EdgeFlipped,
            QualityCellAction::PromotionRestore,
        ]
        .map(QualityCellAction::as_str),
        [
            "none",
            "coarsened",
            "quality_protected",
            "front_shift_source",
            "front_shift_destination",
            "vertex_relocated",
            "edge_flipped",
            "promotion_restore",
        ]
    );
}

#[test]
fn run_evidence_json_is_deterministic_and_rejects_unpublishable_quality() {
    let valid = evidence();
    let json = dqx_run_evidence_json(&valid).unwrap();
    assert_eq!(json, dqx_run_evidence_json(&valid).unwrap());
    assert!(json.contains("\"initial_quality\":{\"global_hard_violation_count\":0"));
    assert!(json.contains("\"final_status\":\"improved\""));

    let mut invalid = valid;
    invalid.final_quality.topology_residuals = 1;
    assert!(dqx_run_evidence_json(&invalid).is_err());

    let mut invalid = evidence();
    invalid.components_considered = 1;
    invalid.components_committed = 1;
    invalid.components_rejected_for_global_hard = 1;
    invalid.components_rejected_for_target_quality = 0;
    assert!(dqx_run_evidence_json(&invalid).is_err());

    let mut invalid = evidence();
    invalid.final_status = QualityOptimizationStatus::PreferredWindowSatisfied;
    invalid.final_quality.target_preferred_violation_count = 1;
    assert!(dqx_run_evidence_json(&invalid).is_err());
}

#[test]
fn run_evidence_json_starts_with_the_schema_and_quotes_strings() {
    let mut value = evidence();
    value.taskbook_id = "a\"b\\c\n\u{1}".into();
    let json = dqx_run_evidence_json(&value).unwrap();
    assert!(json.starts_with("{\"schema_version\":1,\"taskbook_id\":\"a\\\"b\\\\c\\n\\u0001\",\"taskbook_sha\":\""));
    assert!(json.contains("\"angle_contract\":\"domain_quality_38_to_82_v1\""));
    assert!(json.ends_with("\"work_units\":20,\"final_status\":\"improved\"}"));
}

#[test]
fn each_evidence_error_names_its_check() {
    let mut value = evidence();
    value.taskbook_sha = "g".repeat(64);
    assert_eq!(value.validate(), Err("DQX evidence has invalid taskbook identity".to_string()));
    let mut value = evidence();
    value.domain_key = "b".repeat(63);
    assert_eq!(
        value.validate(),
        Err("DQX evidence has an invalid domain or priority-field hash".to_string())
    );
    let mut value = evidence();
    value.components_committed = usize::MAX;
    assert_eq!(value.validate(), Err("DQX evidence component telemetry overflow".to_string()));
    let mut value = evidence();
    value.initial_quality.geometry_move_scaled = -1;
    assert_eq!(value.validate(), Err("DQX evidence contains an invalid quality vector".to_string()));
    let mut value = evidence();
    value.moves_committed = 7;
    assert_eq!(value.validate(), Err("DQX evidence has inconsistent action telemetry".to_string()));
    assert_eq!(evidence().validate(), Ok(()));
}

#[test]
fn sha256_text_is_sixty_four_hex_digits() {
    assert!(is_sha256(&"0123456789abcdefABCDEF".repeat(3)[..64]));
    assert!(!is_sha256(&"a".repeat(65)));
    assert!(!is_sha256(""));
}
