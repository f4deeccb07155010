//! The query engine: the query grammar, and the executor that scans a
//! [`crate::index::VolumeIndex`] and returns a sorted page of hits.
//!
//! [`parse`] turns a query string into a [`parse::ParsedQuery`]; [`model`] says
//! what such a query means, and [`engine`] answers it, with scope, sort and
//! pagination.
pub mod compiled;
pub mod engine;
mod evaluate;
pub mod grammar;
pub mod laws;
pub mod matching;
pub mod model;
mod order;
pub mod parse;
mod scan;
pub mod scoping;
pub mod size;
pub mod sorting;
pub mod wildcard;

pub use compiled::CompiledQuery;
pub use engine::{
    resolve_scope, run_query, run_query_deferrable, run_query_unsorted, DeferredOutcome, QueryHit,
    QueryOutcome,
};
pub use parse::{parse_query, Filters, Kind, ParsedQuery, QueryError, SizeRange};
pub use wildcard::Wildcard;
