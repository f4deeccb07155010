//! The in-memory index of one volume: every name on it, and how the names hang
//! together.
//!
//! [`model`] is the mathematical content of an index, the vocabulary of every
//! contract that speaks of one; [`store`] is the data structure.
pub mod changes;
pub mod compact;
pub mod frn_map;
pub mod journal;
pub mod laws;
pub mod links;
pub mod model;
pub mod names;
pub mod read;
pub mod report;
pub mod store;
pub mod update;
pub mod upkeep;
pub mod walk;

pub use compact::CompactionPlan;
pub use journal::{Anomaly, ApplyOutcome};
pub use links::{LinkTarget, WtfName};
pub use read::{Entry, PathStatus};
pub use report::IndexStats;
pub use names::{NamePair, Span};
pub use frn_map::{FrnMap, MapKind};
pub use store::{ComponentBytes, IndexMemory, Tally, VolumeIndex, NTFS_ROOT_FRN};
