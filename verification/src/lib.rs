//! Movespan: a Block-STM contention profiler for Aptos Move.
//!
//! The library holds the conflict model over captured access sets, the rules
//! that turn hotspots into refactor advice, report rendering, the
//! classification of storage keys, and the deterministic workload planner.

pub mod access;
pub mod fmt;
pub mod footprint;
pub mod location;
pub mod model;
pub mod model_laws;
pub mod model_spec;
pub mod network;
pub mod report;
pub mod rules;
pub mod state_key;
pub mod text;
pub mod workload;

pub use access::{TxnAccess, Workload};
pub use footprint::{footprint, footprint_rows, FootprintRow};
pub use location::{KeyClass, Location, LocationId, LocationTable};
pub use model::{analyze, Analysis, Hotspot};
pub use network::{network_from_lowercase, parse_network, Network, ReplayConfig};
pub use report::{escape, to_html, to_text, ReportFigures, SuggestionFigures};
pub use rules::{advise, counter_in_lowercase, is_counter, neutralize, suggest, Suggestion};
pub use state_key::{classify, LocationInterner, StateKeyView};
pub use workload::{
    default_weight, function_path_parts, plan_calls, plan_init, ArgSpec, CallSpec, Lcg, PlanError,
    PlannedArg, PlannedCall, WorkloadSpec,
};
