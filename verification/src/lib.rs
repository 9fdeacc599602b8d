//! Sparse deltas between a master tensor and a variant of it.
//!
//! A delta records, for every element the caller's element test reports as
//! changed, its index and its new value; applying the delta to the master
//! rebuilds the variant.  A runtime keeps masters by state id and computes
//! and applies deltas against them.

pub mod state_types;
pub mod delta_f32;
pub mod kv_delta;
pub mod policy;
pub mod runtime;

pub use crate::delta_f32::{apply_delta_f32, compute_delta_f32};
pub use crate::kv_delta::{KvDelta, KvDeltaPatch};
pub use crate::policy::ReusePolicy;
pub use crate::runtime::DeltaRuntime;
pub use crate::state_types::StateId;
