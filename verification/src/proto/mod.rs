//! What the daemon and its clients say to each other.
//!
//! A frame is a length and that many bytes. Requests, and all replies but
//! results, are objects; results travel as pages of rows in a binary layout,
//! see [`page`].
pub mod frame;
pub mod number;
pub mod page;

pub use frame::{FrameDecoder, FrameError};
pub use page::{push_item, push_results_header, QueryResults, ResultItem};

use crate::types::{SortSpec, VolumePhase};
use vstd::prelude::*;

verus! {

/// The one protocol version that this daemon speaks.
pub const PROTO_VERSION: u16 = 1;

/// Rows of a full page.
pub const PAGE_ROWS: u32 = 4096;

/// The longest frame a client may send.
pub const MAX_CLIENT_FRAME: u32 = 1_048_576;

/// Why a request is refused.
#[derive(Clone, Copy, Debug, PartialEq, Eq, Structural)]
pub enum ProtoError {
    /// The request or its query cannot be read.
    BadQuery,
    /// The client speaks no version that this daemon speaks.
    Unsupported,
}

/// A search.
#[derive(Clone, Debug)]
pub struct QueryRequest {
    pub query: String,
    /// The folder to search in, with its volume's prefix; none for everywhere.
    pub scope: Option<String>,
    pub sort: SortSpec,
    pub offset: u32,
    pub limit: Option<u32>,
    pub want_size: bool,
    pub want_mtime: bool,
    /// Whether the case counts in the scope's path.
    pub match_case: bool,
}

/// What a client asks.
pub enum Request {
    /// Which version shall be spoken?
    Hello { proto_min: u16, proto_max: u16, client: String },
    /// How do things stand?
    Status,
    /// What matches?
    Query(QueryRequest),
}

/// Memory of one component: what is filled, and what is held.
#[derive(Clone, Copy, Debug, PartialEq, Eq, Structural)]
pub struct MemPair {
    pub used: u64,
    pub alloc: u64,
}

/// Memory of one volume's index.
#[derive(Debug)]
pub struct VolumeMemory {
    pub entries: MemPair,
    pub arena_raw: MemPair,
    pub arena_folded: MemPair,
    pub frn_map: MemPair,
    pub name_tables: MemPair,
    pub dir_children: MemPair,
    pub frn_map_kind: String,
}

/// How one volume stands.
#[derive(Debug)]
pub struct VolumeStatus {
    pub guid: String,
    pub mounts: Vec<String>,
    pub phase: VolumePhase,
    pub entries: u64,
    pub generation: u64,
    pub metadata_pending: bool,
    pub placeholders_created: u64,
    pub delete_of_unknown: u64,
    pub stale_slots: u64,
    pub link_reconciles_dropped: u64,
    pub memory: Option<VolumeMemory>,
}

/// How things stand.
#[derive(Debug)]
pub struct DaemonStatus {
    pub volumes: Vec<VolumeStatus>,
    /// Whether some volume's index is not as complete as it can be made.
    pub volumes_incomplete: bool,
    pub process_working_set: u64,
    pub process_private_bytes: u64,
}

/// What the daemon answers.
#[derive(Debug)]
pub enum Response {
    /// This version will be spoken.
    Hello { proto: u16, server: String, ready: bool },
    /// How things stand.
    Status(DaemonStatus),
    /// A page of results.
    Results(QueryResults),
    /// The request is refused.
    Error { code: ProtoError, message: String },
}

} // verus!
