//! Run evidence of domain-quality optimization: its consistency checks and
//! its JSON record, with the stable names of cell actions and statuses.

use vstd::prelude::*;
use crate::json::{decimal, signed_decimal, json_string_text, json_string, push_usize, push_u64, push_i64};

verus! {

/// The version of the output schema.
pub const DQX_OUTPUT_SCHEMA_VERSION: u32 = 1;

/// The names of the global attributes of an exported grid file.
pub fn dqx_netcdf_global_attributes() -> (r: [&'static str; 8])
    ensures
        r[0]@ == "angle_contract_id"@,
        r[1]@ == "global_angle_min_required"@,
        r[2]@ == "global_angle_max_required"@,
        r[3]@ == "target_preferred_angle_min"@,
        r[4]@ == "target_preferred_angle_max"@,
        r[5]@ == "quality_domain_kind"@,
        r[6]@ == "quality_priority_field_hash"@,
        r[7]@ == "quality_optimization_status"@,
{
    [
        "angle_contract_id",
        "global_angle_min_required",
        "global_angle_max_required",
        "target_preferred_angle_min",
        "target_preferred_angle_max",
        "quality_domain_kind",
        "quality_priority_field_hash",
        "quality_optimization_status",
    ]
}

/// The names of the per-cell variables of an exported grid file.
pub fn dqx_netcdf_cell_variables() -> (r: [&'static str; 10])
    ensures
        r[0]@ == "cell_quality_zone"@,
        r[1]@ == "cell_quality_priority_max"@,
        r[2]@ == "cell_quality_priority_mean"@,
        r[3]@ == "cell_distance_to_target"@,
        r[4]@ == "cell_distance_to_boundary"@,
        r[5]@ == "cell_is_transition"@,
        r[6]@ == "cell_min_angle"@,
        r[7]@ == "cell_max_angle"@,
        r[8]@ == "cell_preferred_violation"@,
        r[9]@ == "cell_quality_action"@,
{
    [
        "cell_quality_zone",
        "cell_quality_priority_max",
        "cell_quality_priority_mean",
        "cell_distance_to_target",
        "cell_distance_to_boundary",
        "cell_is_transition",
        "cell_min_angle",
        "cell_max_angle",
        "cell_preferred_violation",
        "cell_quality_action",
    ]
}

/// What the optimization did to a cell.
#[derive(Debug, Clone, Copy, PartialEq, Eq, Structural)]
pub enum QualityCellAction {
    NoAction,
    Coarsened,
    QualityProtected,
    FrontShiftSource,
    FrontShiftDestination,
    VertexRelocated,
    EdgeFlipped,
    PromotionRestore,
}

/// The stable name of a cell action.
pub open spec fn action_label(a: QualityCellAction) -> Seq<char> {
    match a {
        QualityCellAction::NoAction => "none"@,
        QualityCellAction::Coarsened => "coarsened"@,
        QualityCellAction::QualityProtected => "quality_protected"@,
        QualityCellAction::FrontShiftSource => "front_shift_source"@,
        QualityCellAction::FrontShiftDestination => "front_shift_destination"@,
        QualityCellAction::VertexRelocated => "vertex_relocated"@,
        QualityCellAction::EdgeFlipped => "edge_flipped"@,
        QualityCellAction::PromotionRestore => "promotion_restore"@,
    }
}

impl QualityCellAction {
    pub fn as_str(self) -> (r: &'static str)
        ensures
            r@ == action_label(self),
    {
        match self {
            QualityCellAction::NoAction => "none",
            QualityCellAction::Coarsened => "coarsened",
            QualityCellAction::QualityProtected => "quality_protected",
            QualityCellAction::FrontShiftSource => "front_shift_source",
            QualityCellAction::FrontShiftDestination => "front_shift_destination",
            QualityCellAction::VertexRelocated => "vertex_relocated",
            QualityCellAction::EdgeFlipped => "edge_flipped",
            QualityCellAction::PromotionRestore => "promotion_restore",
        }
    }
}

/// How a quality optimization ended.
#[derive(Debug, Clone, Copy, PartialEq, Eq, Structural)]
pub enum QualityOptimizationStatus {
    NotRequested,
    PreferredWindowSatisfied,
    Improved,
    BudgetLimited,
    TopologyLimited,
    ExportCapacityInsufficient,
    NoImprovingCandidate,
}

/// The stable name of an optimization status.
pub open spec fn status_label(s: QualityOptimizationStatus) -> Seq<char> {
    match s {
        QualityOptimizationStatus::NotRequested => "not_requested"@,
        QualityOptimizationStatus::PreferredWindowSatisfied => "preferred_window_satisfied"@,
        QualityOptimizationStatus::Improved => "improved"@,
        QualityOptimizationStatus::BudgetLimited => "budget_limited"@,
        QualityOptimizationStatus::TopologyLimited => "topology_limited"@,
        QualityOptimizationStatus::ExportCapacityInsufficient => "export_capacity_insufficient"@,
        QualityOptimizationStatus::NoImprovingCandidate => "no_improving_candidate"@,
    }
}

impl QualityOptimizationStatus {
    pub fn as_str(self) -> (r: &'static str)
        ensures
            r@ == status_label(self),
    {
        match self {
            QualityOptimizationStatus::NotRequested => "not_requested",
            QualityOptimizationStatus::PreferredWindowSatisfied => "preferred_window_satisfied",
            QualityOptimizationStatus::Improved => "improved",
            QualityOptimizationStatus::BudgetLimited => "budget_limited",
            QualityOptimizationStatus::TopologyLimited => "topology_limited",
            QualityOptimizationStatus::ExportCapacityInsufficient => "export_capacity_insufficient",
            QualityOptimizationStatus::NoImprovingCandidate => "no_improving_candidate",
        }
    }
}

/// The angle contract that a run was held to.
#[derive(Debug, Clone, Copy, PartialEq, Eq, Structural)]
pub enum AngleContractId {
    DomainQuality38To82V1,
}

/// The stable name of an angle contract.
pub open spec fn contract_label(c: AngleContractId) -> Seq<char> {
    match c {
        AngleContractId::DomainQuality38To82V1 => "domain_quality_38_to_82_v1"@,
    }
}

impl AngleContractId {
    pub fn as_str(self) -> (r: &'static str)
        ensures
            r@ == contract_label(self),
    {
        match self {
            AngleContractId::DomainQuality38To82V1 => "domain_quality_38_to_82_v1",
        }
    }
}

/// Lexicographic quality measures of a domain: violation counts, worst
/// violations in micro-degrees and scaled penalties.
#[derive(Debug, Clone, Copy, PartialEq, Eq)]
pub struct DomainQualityVector {
    pub global_hard_violation_count: usize,
    pub global_hard_max_violation_microdeg: i64,
    pub requirement_residuals: usize,
    pub topology_residuals: usize,
    pub dual_residuals: usize,
    pub remap_residuals: usize,
    pub target_preferred_violation_count: usize,
    pub target_worst_preferred_violation_microdeg: i64,
    pub target_preferred_l2_scaled: i64,
    pub target_equilateral_rmse_scaled: i64,
    pub boundary_preferred_violation_count: usize,
    pub boundary_worst_preferred_violation_microdeg: i64,
    pub boundary_preferred_l2_scaled: i64,
    pub transition_faces_in_target: usize,
    pub transition_faces_in_boundary: usize,
    pub export_near_boundary_penalty_scaled: i64,
    pub final_cell_count: usize,
    pub global_preferred_l2_scaled: i64,
    pub geometry_move_scaled: i64,
    pub topology_change_count: usize,
    pub work_units: u64,
}

impl Default for DomainQualityVector {
    fn default() -> (r: Self)
        ensures
            r.global_hard_violation_count == 0,
            r.global_hard_max_violation_microdeg == 0,
            r.requirement_residuals == 0,
            r.topology_residuals == 0,
            r.dual_residuals == 0,
            r.remap_residuals == 0,
            r.target_preferred_violation_count == 0,
            r.target_worst_preferred_violation_microdeg == 0,
            r.target_preferred_l2_scaled == 0,
            r.target_equilateral_rmse_scaled == 0,
            r.boundary_preferred_violation_count == 0,
            r.boundary_worst_preferred_violation_microdeg == 0,
            r.boundary_preferred_l2_scaled == 0,
            r.transition_faces_in_target == 0,
            r.transition_faces_in_boundary == 0,
            r.export_near_boundary_penalty_scaled == 0,
            r.final_cell_count == 0,
            r.global_preferred_l2_scaled == 0,
            r.geometry_move_scaled == 0,
            r.topology_change_count == 0,
            r.work_units == 0,
    {
        DomainQualityVector {
            global_hard_violation_count: 0,
            global_hard_max_violation_microdeg: 0,
            requirement_residuals: 0,
            topology_residuals: 0,
            dual_residuals: 0,
            remap_residuals: 0,
            target_preferred_violation_count: 0,
            target_worst_preferred_violation_microdeg: 0,
            target_preferred_l2_scaled: 0,
            target_equilateral_rmse_scaled: 0,
            boundary_preferred_violation_count: 0,
            boundary_worst_preferred_violation_microdeg: 0,
            boundary_preferred_l2_scaled: 0,
            transition_faces_in_target: 0,
            transition_faces_in_boundary: 0,
            export_near_boundary_penalty_scaled: 0,
            final_cell_count: 0,
            global_preferred_l2_scaled: 0,
            geometry_move_scaled: 0,
            topology_change_count: 0,
            work_units: 0,
        }
    }
}

/// Telemetry and quality of one optimization run.
#[derive(Debug, Clone, PartialEq, Eq)]
pub struct DqxRunEvidence {
    pub taskbook_id: String,
    pub taskbook_sha: String,
    pub angle_contract: AngleContractId,
    pub domain_key: String,
    pub priority_field_hash: String,
    pub orientation_candidates: usize,
    pub selected_orientation_key: String,
    pub initial_quality: DomainQualityVector,
    pub final_quality: DomainQualityVector,
    pub components_considered: usize,
    pub components_committed: usize,
    pub components_rejected_for_global_hard: usize,
    pub components_rejected_for_target_quality: usize,
    pub front_shifts_attempted: usize,
    pub front_shifts_committed: usize,
    pub moves_attempted: usize,
    pub moves_committed: usize,
    pub flips_attempted: usize,
    pub flips_committed: usize,
    pub cache_hits: u64,
    pub cache_misses: u64,
    pub full_scans: usize,
    pub work_units: u64,
    pub final_status: QualityOptimizationStatus,
}

/// A hexadecimal digit, either case.
pub open spec fn is_hex_digit(c: char) -> bool {
    ('0' <= c && c <= '9') || ('a' <= c && c <= 'f') || ('A' <= c && c <= 'F')
}

/// Sixty-four hexadecimal digits.
pub open spec fn sha256_text(s: Seq<char>) -> bool {
    s.len() == 64 && forall|i: int| 0 <= i < s.len() ==> is_hex_digit(#[trigger] s[i])
}

/// Whether `value` is sixty-four hexadecimal digits.
pub fn is_sha256(value: &str) -> (r: bool)
    ensures
        r == sha256_text(value@),
{
    let n = value.unicode_len();
    if n != 64 {
        return false;
    }
    let mut i: usize = 0;
    while i < n
        invariant
            n == value@.len(),
            i <= n,
            forall|k: int| 0 <= k < i ==> is_hex_digit(#[trigger] value@[k]),
        decreases n - i,
    {
        let c = value.get_char(i);
        if !(('0' <= c && c <= '9') || ('a' <= c && c <= 'f') || ('A' <= c && c <= 'F')) {
            return false;
        }
        i = i + 1;
    }
    true
}

/// No penalty or worst violation of the vector is negative.
pub open spec fn vector_valid(v: DomainQualityVector) -> bool {
    &&& v.global_hard_max_violation_microdeg >= 0
    &&& v.target_worst_preferred_violation_microdeg >= 0
    &&& v.target_preferred_l2_scaled >= 0
    &&& v.target_equilateral_rmse_scaled >= 0
    &&& v.boundary_worst_preferred_violation_microdeg >= 0
    &&& v.boundary_preferred_l2_scaled >= 0
    &&& v.export_near_boundary_penalty_scaled >= 0
    &&& v.global_preferred_l2_scaled >= 0
    &&& v.geometry_move_scaled >= 0
}

/// Whether no penalty or worst violation of the vector is negative.
pub fn quality_vector_is_valid(v: DomainQualityVector) -> (r: bool)
    ensures
        r == vector_valid(v),
{
    v.global_hard_max_violation_microdeg >= 0 && v.target_worst_preferred_violation_microdeg >= 0
        && v.target_preferred_l2_scaled >= 0 && v.target_equilateral_rmse_scaled >= 0
        && v.boundary_worst_preferred_violation_microdeg >= 0 && v.boundary_preferred_l2_scaled >= 0
        && v.export_near_boundary_penalty_scaled >= 0 && v.global_preferred_l2_scaled >= 0
        && v.geometry_move_scaled >= 0
}

/// The final quality may be published: no hard violation and no residual.
pub open spec fn publishable(v: DomainQualityVector) -> bool {
    v.global_hard_violation_count == 0 && v.global_hard_max_violation_microdeg == 0 && v.requirement_residuals == 0
        && v.topology_residuals == 0 && v.dual_residuals == 0 && v.remap_residuals == 0
}

/// The components that the run accounts for.
pub open spec fn accounted_components(e: DqxRunEvidence) -> int {
    e.components_committed + e.components_rejected_for_global_hard + e.components_rejected_for_target_quality
}

/// The first check that run evidence fails, or `None`.
pub open spec fn evidence_error(e: DqxRunEvidence) -> Option<Seq<char>> {
    if e.taskbook_id@.len() == 0 || !sha256_text(e.taskbook_sha@) {
        Some("DQX evidence has invalid taskbook identity"@)
    } else if e.angle_contract != AngleContractId::DomainQuality38To82V1 {
        Some("DQX evidence requires the DQX angle contract"@)
    } else if !sha256_text(e.domain_key@) || !sha256_text(e.priority_field_hash@) {
        Some("DQX evidence has an invalid domain or priority-field hash"@)
    } else if accounted_components(e) > usize::MAX {
        Some("DQX evidence component telemetry overflow"@)
    } else if e.selected_orientation_key@.len() == 0 || accounted_components(e) > e.components_considered
        || e.front_shifts_committed > e.front_shifts_attempted || e.moves_committed > e.moves_attempted
        || e.flips_committed > e.flips_attempted {
        Some("DQX evidence has inconsistent action telemetry"@)
    } else if !publishable(e.final_quality) {
        Some("DQX evidence does not carry publishable final quality"@)
    } else if !vector_valid(e.initial_quality) || !vector_valid(e.final_quality) {
        Some("DQX evidence contains an invalid quality vector"@)
    } else if e.final_status == QualityOptimizationStatus::PreferredWindowSatisfied
        && (e.final_quality.target_preferred_violation_count != 0 || e.final_quality.boundary_preferred_violation_count != 0) {
        Some("DQX evidence final status contradicts final quality"@)
    } else {
        None
    }
}

impl DqxRunEvidence {
    /// Check the evidence; the error names the first failed check.
    pub fn validate(&self) -> (r: Result<(), String>)
        ensures
            r is Ok <==> evidence_error(*self) is None,
            r matches Err(reason) ==> evidence_error(*self) == Some(reason@),
    {
        if self.taskbook_id.as_str().unicode_len() == 0 || !is_sha256(self.taskbook_sha.as_str()) {
            return Err("DQX evidence has invalid taskbook identity".to_string());
        }
        if self.angle_contract != AngleContractId::DomainQuality38To82V1 {
            return Err("DQX evidence requires the DQX angle contract".to_string());
        }
        if !is_sha256(self.domain_key.as_str()) || !is_sha256(self.priority_field_hash.as_str()) {
            return Err("DQX evidence has an invalid domain or priority-field hash".to_string());
        }
        let accounted = match self.components_committed.checked_add(self.components_rejected_for_global_hard) {
            Some(partial) => match partial.checked_add(self.components_rejected_for_target_quality) {
                Some(total) => total,
                None => {
                    return Err("DQX evidence component telemetry overflow".to_string());
                }
            },
            None => {
                return Err("DQX evidence component telemetry overflow".to_string());
            }
        };
        if self.selected_orientation_key.as_str().unicode_len() == 0 || accounted > self.components_considered
            || self.front_shifts_committed > self.front_shifts_attempted || self.moves_committed > self.moves_attempted
            || self.flips_committed > self.flips_attempted {
            return Err("DQX evidence has inconsistent action telemetry".to_string());
        }
        let f = self.final_quality;
        if f.global_hard_violation_count != 0 || f.global_hard_max_violation_microdeg != 0 || f.requirement_residuals != 0
            || f.topology_residuals != 0 || f.dual_residuals != 0 || f.remap_residuals != 0 {
            return Err("DQX evidence does not carry publishable final quality".to_string());
        }
        if !quality_vector_is_valid(self.initial_quality) || !quality_vector_is_valid(self.final_quality) {
            return Err("DQX evidence contains an invalid quality vector".to_string());
        }
        if self.final_status == QualityOptimizationStatus::PreferredWindowSatisfied
            && (f.target_preferred_violation_count != 0 || f.boundary_preferred_violation_count != 0) {
            return Err("DQX evidence final status contradicts final quality".to_string());
        }
        Ok(())
    }
}

/// Part 1 of the JSON text of a quality vector.
pub open spec fn quality_vector_part1(v: DomainQualityVector) -> Seq<char> {
    "{\"global_hard_violation_count\":"@ + decimal(v.global_hard_violation_count as nat) + ",\"global_hard_max_violation_microdeg\":"@ + signed_decimal(v.global_hard_max_violation_microdeg as int) + ",\"requirement_residuals\":"@ + decimal(v.requirement_residuals as nat) + ",\"topology_residuals\":"@ + decimal(v.topology_residuals as nat) + ",\"dual_residuals\":"@ + decimal(v.dual_residuals as nat) + ",\"remap_residuals\":"@ + decimal(v.remap_residuals as nat)
}

fn push_quality_part1(out: &mut String, v: DomainQualityVector)
    ensures
        final(out)@ == old(out)@ + quality_vector_part1(v),
{
    let ghost start = out@;
    out.append("{\"global_hard_violation_count\":");
    push_usize(out, v.global_hard_violation_count);
    out.append(",\"global_hard_max_violation_microdeg\":");
    push_i64(out, v.global_hard_max_violation_microdeg);
    out.append(",\"requirement_residuals\":");
    push_usize(out, v.requirement_residuals);
    out.append(",\"topology_residuals\":");
    push_usize(out, v.topology_residuals);
    out.append(",\"dual_residuals\":");
    push_usize(out, v.dual_residuals);
    out.append(",\"remap_residuals\":");
    push_usize(out, v.remap_residuals);
    proof {
        assert(out@ =~= start + quality_vector_part1(v));
    }
}

/// Part 2 of the JSON text of a quality vector.
pub open spec fn quality_vector_part2(v: DomainQualityVector) -> Seq<char> {
    ",\"target_preferred_violation_count\":"@ + decimal(v.target_preferred_violation_count as nat) + ",\"target_worst_preferred_violation_microdeg\":"@ + signed_decimal(v.target_worst_preferred_violation_microdeg as int) + ",\"target_preferred_l2_scaled\":"@ + signed_decimal(v.target_preferred_l2_scaled as int) + ",\"target_equilateral_rmse_scaled\":"@ + signed_decimal(v.target_equilateral_rmse_scaled as int) + ",\"boundary_preferred_violation_count\":"@ + decimal(v.boundary_preferred_violation_count as nat)
}

fn push_quality_part2(out: &mut String, v: DomainQualityVector)
    ensures
        final(out)@ == old(out)@ + quality_vector_part2(v),
{
    let ghost start = out@;
    out.append(",\"target_preferred_violation_count\":");
    push_usize(out, v.target_preferred_violation_count);
    out.append(",\"target_worst_preferred_violation_microdeg\":");
    push_i64(out, v.target_worst_preferred_violation_microdeg);
    out.append(",\"target_preferred_l2_scaled\":");
    push_i64(out, v.target_preferred_l2_scaled);
    out.append(",\"target_equilateral_rmse_scaled\":");
    push_i64(out, v.target_equilateral_rmse_scaled);
    out.append(",\"boundary_preferred_violation_count\":");
    push_usize(out, v.boundary_preferred_violation_count);
    proof {
        assert(out@ =~= start + quality_vector_part2(v));
    }
}

/// Part 3 of the JSON text of a quality vector.
pub open spec fn quality_vector_part3(v: DomainQualityVector) -> Seq<char> {
    ",\"boundary_worst_preferred_violation_microdeg\":"@ + signed_decimal(v.boundary_worst_preferred_violation_microdeg as int) + ",\"boundary_preferred_l2_scaled\":"@ + signed_decimal(v.boundary_preferred_l2_scaled as int) + ",\"transition_faces_in_target\":"@ + decimal(v.transition_faces_in_target as nat) + ",\"transition_faces_in_boundary\":"@ + decimal(v.transition_faces_in_boundary as nat) + ",\"export_near_boundary_penalty_scaled\":"@ + signed_decimal(v.export_near_boundary_penalty_scaled as int)
}

fn push_quality_part3(out: &mut String, v: DomainQualityVector)
    ensures
        final(out)@ == old(out)@ + quality_vector_part3(v),
{
    let ghost start = out@;
    out.append(",\"boundary_worst_preferred_violation_microdeg\":");
    push_i64(out, v.boundary_worst_preferred_violation_microdeg);
    out.append(",\"boundary_preferred_l2_scaled\":");
    push_i64(out, v.boundary_preferred_l2_scaled);
    out.append(",\"transition_faces_in_target\":");
    push_usize(out, v.transition_faces_in_target);
    out.append(",\"transition_faces_in_boundary\":");
    push_usize(out, v.transition_faces_in_boundary);
    out.append(",\"export_near_boundary_penalty_scaled\":");
    push_i64(out, v.export_near_boundary_penalty_scaled);
    proof {
        assert(out@ =~= start + quality_vector_part3(v));
    }
}

/// Part 4 of the JSON text of a quality vector.
pub open spec fn quality_vector_part4(v: DomainQualityVector) -> Seq<char> {
    ",\"final_cell_count\":"@ + decimal(v.final_cell_count as nat) + ",\"global_preferred_l2_scaled\":"@ + signed_decimal(v.global_preferred_l2_scaled as int) + ",\"geometry_move_scaled\":"@ + signed_decimal(v.geometry_move_scaled as int) + ",\"topology_change_count\":"@ + decimal(v.topology_change_count as nat) + ",\"work_units\":"@ + decimal(v.work_units as nat)
}

fn push_quality_part4(out: &mut String, v: DomainQualityVector)
    ensures
        final(out)@ == old(out)@ + quality_vector_part4(v),
{
    let ghost start = out@;
    out.append(",\"final_cell_count\":");
    push_usize(out, v.final_cell_count);
    out.append(",\"global_preferred_l2_scaled\":");
    push_i64(out, v.global_preferred_l2_scaled);
    out.append(",\"geometry_move_scaled\":");
    push_i64(out, v.geometry_move_scaled);
    out.append(",\"topology_change_count\":");
    push_usize(out, v.topology_change_count);
    out.append(",\"work_units\":");
    push_u64(out, v.work_units);
    proof {
        assert(out@ =~= start + quality_vector_part4(v));
    }
}

/// The JSON text of a quality vector.
pub open spec fn quality_vector_json_text(v: DomainQualityVector) -> Seq<char> {
    quality_vector_part1(v) + quality_vector_part2(v) + quality_vector_part3(v) + quality_vector_part4(v) + "}"@
}

fn push_quality_vector(out: &mut String, v: DomainQualityVector)
    ensures
        final(out)@ == old(out)@ + quality_vector_json_text(v),
{
    let ghost start = out@;
    push_quality_part1(out, v);
    push_quality_part2(out, v);
    push_quality_part3(out, v);
    push_quality_part4(out, v);
    out.append("}");
    proof {
        assert(out@ =~= start + quality_vector_json_text(v));
    }
}

/// The JSON text of run evidence.
pub open spec fn evidence_json_text(e: DqxRunEvidence) -> Seq<char> {
    "{\"schema_version\":"@ + decimal(1nat) + ",\"taskbook_id\":"@ + json_string_text(e.taskbook_id@) + ",\"taskbook_sha\":"@ + json_string_text(e.taskbook_sha@) + ",\"angle_contract\":"@ + json_string_text(contract_label(e.angle_contract)) + ",\"domain_key\":"@ + json_string_text(e.domain_key@) + ",\"priority_field_hash\":"@ + json_string_text(e.priority_field_hash@) + ",\"orientation_candidates\":"@ + decimal(e.orientation_candidates as nat) + ",\"selected_orientation_key\":"@ + json_string_text(e.selected_orientation_key@) + ",\"initial_quality\":"@ + quality_vector_json_text(e.initial_quality) + ",\"final_quality\":"@ + quality_vector_json_text(e.final_quality) + ",\"components_considered\":"@ + decimal(e.components_considered as nat) + ",\"components_committed\":"@ + decimal(e.components_committed as nat) + ",\"components_rejected_for_global_hard\":"@ + decimal(e.components_rejected_for_global_hard as nat) + ",\"components_rejected_for_target_quality\":"@ + decimal(e.components_rejected_for_target_quality as nat) + ",\"front_shifts_attempted\":"@ + decimal(e.front_shifts_attempted as nat) + ",\"front_shifts_committed\":"@ + decimal(e.front_shifts_committed as nat) + ",\"moves_attempted\":"@ + decimal(e.moves_attempted as nat) + ",\"moves_committed\":"@ + decimal(e.moves_committed as nat) + ",\"flips_attempted\":"@ + decimal(e.flips_attempted as nat) + ",\"flips_committed\":"@ + decimal(e.flips_committed as nat) + ",\"cache_hits\":"@ + decimal(e.cache_hits as nat) + ",\"cache_misses\":"@ + decimal(e.cache_misses as nat) + ",\"full_scans\":"@ + decimal(e.full_scans as nat) + ",\"work_units\":"@ + decimal(e.work_units as nat) + ",\"final_status\":"@ + json_string_text(status_label(e.final_status)) + "}"@
}

/// The key of field `i` of the evidence record, in record order.
pub open spec fn field_key(i: int) -> Seq<char> {
    if i == 0 {
        "{\"schema_version\":"@
    } else if i == 1 {
        ",\"taskbook_id\":"@
    } else if i == 2 {
        ",\"taskbook_sha\":"@
    } else if i == 3 {
        ",\"angle_contract\":"@
    } else if i == 4 {
        ",\"domain_key\":"@
    } else if i == 5 {
        ",\"priority_field_hash\":"@
    } else if i == 6 {
        ",\"orientation_candidates\":"@
    } else if i == 7 {
        ",\"selected_orientation_key\":"@
    } else if i == 8 {
        ",\"initial_quality\":"@
    } else if i == 9 {
        ",\"final_quality\":"@
    } else if i == 10 {
        ",\"components_considered\":"@
    } else if i == 11 {
        ",\"components_committed\":"@
    } else if i == 12 {
        ",\"components_rejected_for_global_hard\":"@
    } else if i == 13 {
        ",\"components_rejected_for_target_quality\":"@
    } else if i == 14 {
        ",\"front_shifts_attempted\":"@
    } else if i == 15 {
        ",\"front_shifts_committed\":"@
    } else if i == 16 {
        ",\"moves_attempted\":"@
    } else if i == 17 {
        ",\"moves_committed\":"@
    } else if i == 18 {
        ",\"flips_attempted\":"@
    } else if i == 19 {
        ",\"flips_committed\":"@
    } else if i == 20 {
        ",\"cache_hits\":"@
    } else if i == 21 {
        ",\"cache_misses\":"@
    } else if i == 22 {
        ",\"full_scans\":"@
    } else if i == 23 {
        ",\"work_units\":"@
    } else if i == 24 {
        ",\"final_status\":"@
    } else {
        Seq::empty()
    }
}

/// The JSON value of field `i` of the evidence: the evidence field that key
/// `i` names.
pub open spec fn field_value(e: DqxRunEvidence, i: int) -> Seq<char> {
    if i == 0 {
        decimal(1nat)
    } else if i == 1 {
        json_string_text(e.taskbook_id@)
    } else if i == 2 {
        json_string_text(e.taskbook_sha@)
    } else if i == 3 {
        json_string_text(contract_label(e.angle_contract))
    } else if i == 4 {
        json_string_text(e.domain_key@)
    } else if i == 5 {
        json_string_text(e.priority_field_hash@)
    } else if i == 6 {
        decimal(e.orientation_candidates as nat)
    } else if i == 7 {
        json_string_text(e.selected_orientation_key@)
    } else if i == 8 {
        quality_vector_json_text(e.initial_quality)
    } else if i == 9 {
        quality_vector_json_text(e.final_quality)
    } else if i == 10 {
        decimal(e.components_considered as nat)
    } else if i == 11 {
        decimal(e.components_committed as nat)
    } else if i == 12 {
        decimal(e.components_rejected_for_global_hard as nat)
    } else if i == 13 {
        decimal(e.components_rejected_for_target_quality as nat)
    } else if i == 14 {
        decimal(e.front_shifts_attempted as nat)
    } else if i == 15 {
        decimal(e.front_shifts_committed as nat)
    } else if i == 16 {
        decimal(e.moves_attempted as nat)
    } else if i == 17 {
        decimal(e.moves_committed as nat)
    } else if i == 18 {
        decimal(e.flips_attempted as nat)
    } else if i == 19 {
        decimal(e.flips_committed as nat)
    } else if i == 20 {
        decimal(e.cache_hits as nat)
    } else if i == 21 {
        decimal(e.cache_misses as nat)
    } else if i == 22 {
        decimal(e.full_scans as nat)
    } else if i == 23 {
        decimal(e.work_units as nat)
    } else if i == 24 {
        json_string_text(status_label(e.final_status))
    } else {
        Seq::empty()
    }
}

/// Text `key` followed at once by `value` occurs in `text`.
pub open spec fn has_field(text: Seq<char>, key: Seq<char>, value: Seq<char>) -> bool {
    exists|a: Seq<char>, b: Seq<char>| text == a + key + value + b
}

/// The first `n` fields occur in `text`, each key followed by its value.
pub open spec fn fields_present(text: Seq<char>, e: DqxRunEvidence, n: int) -> bool {
    forall|i: int| 0 <= i < n ==> #[trigger] has_field(text, field_key(i), field_value(e, i))
}

proof fn lemma_fields_extend(t: Seq<char>, s: Seq<char>, e: DqxRunEvidence, n: int)
    requires
        fields_present(t, e, n),
    ensures
        fields_present(t + s, e, n),
{
    assert forall|i: int| 0 <= i < n implies #[trigger] has_field(t + s, field_key(i), field_value(e, i)) by {
        assert(has_field(t, field_key(i), field_value(e, i)));
        let (a, b) = choose|a: Seq<char>, b: Seq<char>| t == a + field_key(i) + field_value(e, i) + b;
        assert(t + s =~= a + field_key(i) + field_value(e, i) + (b + s));
    }
}

proof fn lemma_field_added(t: Seq<char>, e: DqxRunEvidence, n: int)
    requires
        0 <= n,
        fields_present(t, e, n),
    ensures
        fields_present(t + field_key(n) + field_value(e, n), e, n + 1),
{
    lemma_fields_extend(t, field_key(n), e, n);
    lemma_fields_extend(t + field_key(n), field_value(e, n), e, n);
    let u = t + field_key(n) + field_value(e, n);
    assert(u =~= t + field_key(n) + field_value(e, n) + Seq::<char>::empty());
    assert(has_field(u, field_key(n), field_value(e, n)));
}

/// The key of field `i` of a quality vector record, in record order.
pub open spec fn quality_key(i: int) -> Seq<char> {
    if i == 0 {
        "{\"global_hard_violation_count\":"@
    } else if i == 1 {
        ",\"global_hard_max_violation_microdeg\":"@
    } else if i == 2 {
        ",\"requirement_residuals\":"@
    } else if i == 3 {
        ",\"topology_residuals\":"@
    } else if i == 4 {
        ",\"dual_residuals\":"@
    } else if i == 5 {
        ",\"remap_residuals\":"@
    } else if i == 6 {
        ",\"target_preferred_violation_count\":"@
    } else if i == 7 {
        ",\"target_worst_preferred_violation_microdeg\":"@
    } else if i == 8 {
        ",\"target_preferred_l2_scaled\":"@
    } else if i == 9 {
        ",\"target_equilateral_rmse_scaled\":"@
    } else if i == 10 {
        ",\"boundary_preferred_violation_count\":"@
    } else if i == 11 {
        ",\"boundary_worst_preferred_violation_microdeg\":"@
    } else if i == 12 {
        ",\"boundary_preferred_l2_scaled\":"@
    } else if i == 13 {
        ",\"transition_faces_in_target\":"@
    } else if i == 14 {
        ",\"transition_faces_in_boundary\":"@
    } else if i == 15 {
        ",\"export_near_boundary_penalty_scaled\":"@
    } else if i == 16 {
        ",\"final_cell_count\":"@
    } else if i == 17 {
        ",\"global_preferred_l2_scaled\":"@
    } else if i == 18 {
        ",\"geometry_move_scaled\":"@
    } else if i == 19 {
        ",\"topology_change_count\":"@
    } else if i == 20 {
        ",\"work_units\":"@
    } else {
        Seq::empty()
    }
}

/// The JSON value of field `i` of quality vector `v`: the vector field that
/// key `i` names.
pub open spec fn quality_value(v: DomainQualityVector, i: int) -> Seq<char> {
    if i == 0 {
        decimal(v.global_hard_violation_count as nat)
    } else if i == 1 {
        signed_decimal(v.global_hard_max_violation_microdeg as int)
    } else if i == 2 {
        decimal(v.requirement_residuals as nat)
    } else if i == 3 {
        decimal(v.topology_residuals as nat)
    } else if i == 4 {
        decimal(v.dual_residuals as nat)
    } else if i == 5 {
        decimal(v.remap_residuals as nat)
    } else if i == 6 {
        decimal(v.target_preferred_violation_count as nat)
    } else if i == 7 {
        signed_decimal(v.target_worst_preferred_violation_microdeg as int)
    } else if i == 8 {
        signed_decimal(v.target_preferred_l2_scaled as int)
    } else if i == 9 {
        signed_decimal(v.target_equilateral_rmse_scaled as int)
    } else if i == 10 {
        decimal(v.boundary_preferred_violation_count as nat)
    } else if i == 11 {
        signed_decimal(v.boundary_worst_preferred_violation_microdeg as int)
    } else if i == 12 {
        signed_decimal(v.boundary_preferred_l2_scaled as int)
    } else if i == 13 {
        decimal(v.transition_faces_in_target as nat)
    } else if i == 14 {
        decimal(v.transition_faces_in_boundary as nat)
    } else if i == 15 {
        signed_decimal(v.export_near_boundary_penalty_scaled as int)
    } else if i == 16 {
        decimal(v.final_cell_count as nat)
    } else if i == 17 {
        signed_decimal(v.global_preferred_l2_scaled as int)
    } else if i == 18 {
        signed_decimal(v.geometry_move_scaled as int)
    } else if i == 19 {
        decimal(v.topology_change_count as nat)
    } else if i == 20 {
        decimal(v.work_units as nat)
    } else {
        Seq::empty()
    }
}

/// Fields `from..n` of the vector occur in `text`, each key followed by its value.
pub open spec fn quality_fields_present(text: Seq<char>, v: DomainQualityVector, from: int, n: int) -> bool {
    forall|i: int| from <= i < n ==> #[trigger] has_field(text, quality_key(i), quality_value(v, i))
}

proof fn lemma_quality_extend(t: Seq<char>, s: Seq<char>, v: DomainQualityVector, from: int, n: int)
    requires
        quality_fields_present(t, v, from, n),
    ensures
        quality_fields_present(t + s, v, from, n),
        quality_fields_present(s + t, v, from, n),
{
    assert forall|i: int| from <= i < n implies #[trigger] has_field(t + s, quality_key(i), quality_value(v, i)) by {
        assert(has_field(t, quality_key(i), quality_value(v, i)));
        let (a, b) = choose|a: Seq<char>, b: Seq<char>| t == a + quality_key(i) + quality_value(v, i) + b;
        assert(t + s =~= a + quality_key(i) + quality_value(v, i) + (b + s));
    }
    assert forall|i: int| from <= i < n implies #[trigger] has_field(s + t, quality_key(i), quality_value(v, i)) by {
        assert(has_field(t, quality_key(i), quality_value(v, i)));
        let (a, b) = choose|a: Seq<char>, b: Seq<char>| t == a + quality_key(i) + quality_value(v, i) + b;
        assert(s + t =~= (s + a) + quality_key(i) + quality_value(v, i) + b);
    }
}

proof fn lemma_quality_added(t: Seq<char>, v: DomainQualityVector, from: int, n: int)
    requires
        from <= n,
        quality_fields_present(t, v, from, n),
    ensures
        quality_fields_present(t + quality_key(n) + quality_value(v, n), v, from, n + 1),
{
    lemma_quality_extend(t, quality_key(n), v, from, n);
    lemma_quality_extend(t + quality_key(n), quality_value(v, n), v, from, n);
    let u = t + quality_key(n) + quality_value(v, n);
    assert(u =~= t + quality_key(n) + quality_value(v, n) + Seq::<char>::empty());
    assert(has_field(u, quality_key(n), quality_value(v, n)));
}

proof fn lemma_quality_part1(v: DomainQualityVector)
    ensures
        quality_fields_present(quality_vector_part1(v), v, 0, 6),
{
    let t0 = Seq::<char>::empty();
    assert(quality_fields_present(t0, v, 0, 0));
    lemma_quality_added(t0, v, 0, 0);
    let t1 = t0 + quality_key(0) + quality_value(v, 0);
    lemma_quality_added(t1, v, 0, 1);
    let t2 = t1 + quality_key(1) + quality_value(v, 1);
    lemma_quality_added(t2, v, 0, 2);
    let t3 = t2 + quality_key(2) + quality_value(v, 2);
    lemma_quality_added(t3, v, 0, 3);
    let t4 = t3 + quality_key(3) + quality_value(v, 3);
    lemma_quality_added(t4, v, 0, 4);
    let t5 = t4 + quality_key(4) + quality_value(v, 4);
    lemma_quality_added(t5, v, 0, 5);
    let t6 = t5 + quality_key(5) + quality_value(v, 5);
    assert(t6 =~= quality_vector_part1(v));
}

proof fn lemma_quality_part2(v: DomainQualityVector)
    ensures
        quality_fields_present(quality_vector_part2(v), v, 6, 11),
{
    let t0 = Seq::<char>::empty();
    assert(quality_fields_present(t0, v, 6, 6));
    lemma_quality_added(t0, v, 6, 6);
    let t1 = t0 + quality_key(6) + quality_value(v, 6);
    lemma_quality_added(t1, v, 6, 7);
    let t2 = t1 + quality_key(7) + quality_value(v, 7);
    lemma_quality_added(t2, v, 6, 8);
    let t3 = t2 + quality_key(8) + quality_value(v, 8);
    lemma_quality_added(t3, v, 6, 9);
    let t4 = t3 + quality_key(9) + quality_value(v, 9);
    lemma_quality_added(t4, v, 6, 10);
    let t5 = t4 + quality_key(10) + quality_value(v, 10);
    assert(t5 =~= quality_vector_part2(v));
}

proof fn lemma_quality_part3(v: DomainQualityVector)
    ensures
        quality_fields_present(quality_vector_part3(v), v, 11, 16),
{
    let t0 = Seq::<char>::empty();
    assert(quality_fields_present(t0, v, 11, 11));
    lemma_quality_added(t0, v, 11, 11);
    let t1 = t0 + quality_key(11) + quality_value(v, 11);
    lemma_quality_added(t1, v, 11, 12);
    let t2 = t1 + quality_key(12) + quality_value(v, 12);
    lemma_quality_added(t2, v, 11, 13);
    let t3 = t2 + quality_key(13) + quality_value(v, 13);
    lemma_quality_added(t3, v, 11, 14);
    let t4 = t3 + quality_key(14) + quality_value(v, 14);
    lemma_quality_added(t4, v, 11, 15);
    let t5 = t4 + quality_key(15) + quality_value(v, 15);
    assert(t5 =~= quality_vector_part3(v));
}

proof fn lemma_quality_part4(v: DomainQualityVector)
    ensures
        quality_fields_present(quality_vector_part4(v), v, 16, 21),
{
    let t0 = Seq::<char>::empty();
    assert(quality_fields_present(t0, v, 16, 16));
    lemma_quality_added(t0, v, 16, 16);
    let t1 = t0 + quality_key(16) + quality_value(v, 16);
    lemma_quality_added(t1, v, 16, 17);
    let t2 = t1 + quality_key(17) + quality_value(v, 17);
    lemma_quality_added(t2, v, 16, 18);
    let t3 = t2 + quality_key(18) + quality_value(v, 18);
    lemma_quality_added(t3, v, 16, 19);
    let t4 = t3 + quality_key(19) + quality_value(v, 19);
    lemma_quality_added(t4, v, 16, 20);
    let t5 = t4 + quality_key(20) + quality_value(v, 20);
    assert(t5 =~= quality_vector_part4(v));
}

/// Each field of a quality vector record carries its own value: every key is
/// followed by the JSON of the vector field that it names.
pub proof fn quality_fields_carry_their_values(v: DomainQualityVector)
    ensures
        quality_fields_present(quality_vector_json_text(v), v, 0, 21),
{
    let p1 = quality_vector_part1(v);
    let p2 = quality_vector_part2(v);
    let p3 = quality_vector_part3(v);
    let p4 = quality_vector_part4(v);
    let c = "}"@;
    lemma_quality_part1(v);
    lemma_quality_part2(v);
    lemma_quality_part3(v);
    lemma_quality_part4(v);
    lemma_quality_extend(p1, p2, v, 0, 6);
    lemma_quality_extend(p1 + p2, p3, v, 0, 6);
    lemma_quality_extend(p1 + p2 + p3, p4, v, 0, 6);
    lemma_quality_extend(p1 + p2 + p3 + p4, c, v, 0, 6);
    lemma_quality_extend(p2, p1, v, 6, 11);
    lemma_quality_extend(p1 + p2, p3, v, 6, 11);
    lemma_quality_extend(p1 + p2 + p3, p4, v, 6, 11);
    lemma_quality_extend(p1 + p2 + p3 + p4, c, v, 6, 11);
    lemma_quality_extend(p3, p1 + p2, v, 11, 16);
    lemma_quality_extend(p1 + p2 + p3, p4, v, 11, 16);
    lemma_quality_extend(p1 + p2 + p3 + p4, c, v, 11, 16);
    lemma_quality_extend(p4, p1 + p2 + p3, v, 16, 21);
    lemma_quality_extend(p1 + p2 + p3 + p4, c, v, 16, 21);
    let q = quality_vector_json_text(v);
    assert forall|i: int| 0 <= i < 21 implies #[trigger] has_field(q, quality_key(i), quality_value(v, i)) by {
        if i < 6 {
            assert(quality_fields_present(p1 + p2 + p3 + p4 + c, v, 0, 6));
        } else if i < 11 {
            assert(quality_fields_present(p1 + p2 + p3 + p4 + c, v, 6, 11));
        } else if i < 16 {
            assert(quality_fields_present(p1 + p2 + p3 + p4 + c, v, 11, 16));
        } else {
            assert(quality_fields_present(p1 + p2 + p3 + p4 + c, v, 16, 21));
        }
    }
}

/// The JSON record of valid run evidence, or the first check it fails.
#[verifier::spinoff_prover]
#[verifier::rlimit(100)]
pub fn dqx_run_evidence_json(e: &DqxRunEvidence) -> (r: Result<String, String>)
    ensures
        r is Ok <==> evidence_error(*e) is None,
        r matches Err(reason) ==> evidence_error(*e) == Some(reason@),
        r matches Ok(text) ==> text@ == evidence_json_text(*e),
        r matches Ok(text) ==> fields_present(text@, *e, 25),
        r is Ok ==> e.taskbook_id@.len() > 0 && e.selected_orientation_key@.len() > 0
            && e.angle_contract == AngleContractId::DomainQuality38To82V1
            && e.front_shifts_committed <= e.front_shifts_attempted && e.moves_committed <= e.moves_attempted
            && e.flips_committed <= e.flips_attempted && accounted_components(*e) <= e.components_considered
            && (e.final_status == QualityOptimizationStatus::PreferredWindowSatisfied
                ==> e.final_quality.target_preferred_violation_count == 0 && e.final_quality.boundary_preferred_violation_count == 0),
        r matches Ok(text) ==> has_field(text@, ",\"initial_quality\":"@, quality_vector_json_text(e.initial_quality))
            && has_field(text@, ",\"final_quality\":"@, quality_vector_json_text(e.final_quality)),
{
    e.validate()?;
    let mut out = String::new();
    proof {
        assert(fields_present(out@, *e, 0));
    }
    let ghost before_0 = out@;
    out.append("{\"schema_version\":");
    push_u64(&mut out, DQX_OUTPUT_SCHEMA_VERSION as u64);
    proof { lemma_field_added(before_0, *e, 0); }
    let ghost before_1 = out@;
    out.append(",\"taskbook_id\":");
    out.append(json_string(e.taskbook_id.as_str()).as_str());
    proof { lemma_field_added(before_1, *e, 1); }
    let ghost before_2 = out@;
    out.append(",\"taskbook_sha\":");
    out.append(json_string(e.taskbook_sha.as_str()).as_str());
    proof { lemma_field_added(before_2, *e, 2); }
    let ghost before_3 = out@;
    out.append(",\"angle_contract\":");
    out.append(json_string(e.angle_contract.as_str()).as_str());
    proof { lemma_field_added(before_3, *e, 3); }
    let ghost before_4 = out@;
    out.append(",\"domain_key\":");
    out.append(json_string(e.domain_key.as_str()).as_str());
    proof { lemma_field_added(before_4, *e, 4); }
    let ghost before_5 = out@;
    out.append(",\"priority_field_hash\":");
    out.append(json_string(e.priority_field_hash.as_str()).as_str());
    proof { lemma_field_added(before_5, *e, 5); }
    let ghost before_6 = out@;
    out.append(",\"orientation_candidates\":");
    push_usize(&mut out, e.orientation_candidates);
    proof { lemma_field_added(before_6, *e, 6); }
    let ghost before_7 = out@;
    out.append(",\"selected_orientation_key\":");
    out.append(json_string(e.selected_orientation_key.as_str()).as_str());
    proof { lemma_field_added(before_7, *e, 7); }
    let ghost before_8 = out@;
    out.append(",\"initial_quality\":");
    push_quality_vector(&mut out, e.initial_quality);
    proof { lemma_field_added(before_8, *e, 8); }
    let ghost before_9 = out@;
    out.append(",\"final_quality\":");
    push_quality_vector(&mut out, e.final_quality);
    proof { lemma_field_added(before_9, *e, 9); }
    let ghost before_10 = out@;
    out.append(",\"components_considered\":");
    push_usize(&mut out, e.components_considered);
    proof { lemma_field_added(before_10, *e, 10); }
    let ghost before_11 = out@;
    out.append(",\"components_committed\":");
    push_usize(&mut out, e.components_committed);
    proof { lemma_field_added(before_11, *e, 11); }
    let ghost before_12 = out@;
    out.append(",\"components_rejected_for_global_hard\":");
    push_usize(&mut out, e.components_rejected_for_global_hard);
    proof { lemma_field_added(before_12, *e, 12); }
    let ghost before_13 = out@;
    out.append(",\"components_rejected_for_target_quality\":");
    push_usize(&mut out, e.components_rejected_for_target_quality);
    proof { lemma_field_added(before_13, *e, 13); }
    let ghost before_14 = out@;
    out.append(",\"front_shifts_attempted\":");
    push_usize(&mut out, e.front_shifts_attempted);
    proof { lemma_field_added(before_14, *e, 14); }
    let ghost before_15 = out@;
    out.append(",\"front_shifts_committed\":");
    push_usize(&mut out, e.front_shifts_committed);
    proof { lemma_field_added(before_15, *e, 15); }
    let ghost before_16 = out@;
    out.append(",\"moves_attempted\":");
    push_usize(&mut out, e.moves_attempted);
    proof { lemma_field_added(before_16, *e, 16); }
    let ghost before_17 = out@;
    out.append(",\"moves_committed\":");
    push_usize(&mut out, e.moves_committed);
    proof { lemma_field_added(before_17, *e, 17); }
    let ghost before_18 = out@;
    out.append(",\"flips_attempted\":");
    push_usize(&mut out, e.flips_attempted);
    proof { lemma_field_added(before_18, *e, 18); }
    let ghost before_19 = out@;
    out.append(",\"flips_committed\":");
    push_usize(&mut out, e.flips_committed);
    proof { lemma_field_added(before_19, *e, 19); }
    let ghost before_20 = out@;
    out.append(",\"cache_hits\":");
    push_u64(&mut out, e.cache_hits);
    proof { lemma_field_added(before_20, *e, 20); }
    let ghost before_21 = out@;
    out.append(",\"cache_misses\":");
    push_u64(&mut out, e.cache_misses);
    proof { lemma_field_added(before_21, *e, 21); }
    let ghost before_22 = out@;
    out.append(",\"full_scans\":");
    push_usize(&mut out, e.full_scans);
    proof { lemma_field_added(before_22, *e, 22); }
    let ghost before_23 = out@;
    out.append(",\"work_units\":");
    push_u64(&mut out, e.work_units);
    proof { lemma_field_added(before_23, *e, 23); }
    let ghost before_24 = out@;
    out.append(",\"final_status\":");
    out.append(json_string(e.final_status.as_str()).as_str());
    proof { lemma_field_added(before_24, *e, 24); }
    let ghost fields_end = out@;
    out.append("}");
    proof {
        lemma_fields_extend(fields_end, "}"@, *e, 25);
        assert(has_field(out@, field_key(8), field_value(*e, 8)));
        assert(has_field(out@, field_key(9), field_value(*e, 9)));
    }
    proof {
        assert(out@ =~= evidence_json_text(*e));
    }
    Ok(out)
}

} // verus!
