//! What the daemon decides.
pub mod answer;
pub mod connection;
pub mod delivery;
pub mod enrich;
pub mod fleet;
pub mod laws;
pub mod merge;
pub mod paging;
pub mod pulse;
pub mod query_run;
pub mod routing;
pub mod rows;
pub mod service;
pub mod status;
pub mod stream;
pub mod supervisor;
pub mod tail;
pub mod volume;
