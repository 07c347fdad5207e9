//! Exact combinatorial certificates for mesh coarsening: edge and
//! triangle bookkeeping, degree reachability, face-band labelling,
//! essential cycles, polygon-ear recovery and run evidence.

pub mod graph;
pub mod cycles;
pub mod reachability;
pub mod arc_consistency;
pub mod ear_domains;
pub mod records;
pub mod face_band;
pub mod json;
pub mod plan_band;
pub mod essential_cycle;
pub mod full_polygon;
pub mod polygon_incidence;
pub mod dqx;
pub mod hierarchy;
pub mod cycle_labels;
pub mod cycle_problem;
pub mod selection_order;
pub mod epochs;
pub mod signature_laws;
