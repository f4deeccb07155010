//! goz: the logic of an instant file-search engine for NTFS volumes.
//!
//! The crate holds everything that decides or computes: the name index, the
//! query grammar and executor, the wire format, the server's routing, ordering
//! and paging, and the state machines that tail a change journal and supervise
//! the tails. The binary around it performs the I/O.
pub mod bytes;
pub mod daemon;
pub mod fold;
pub mod index;
pub mod memo;
pub mod pieces;
pub mod proto;
pub mod query;
pub mod search;
pub mod seqs;
pub mod stable;
pub mod text;
pub mod types;
pub mod usn;
pub mod winfs;
pub mod wtf8;
