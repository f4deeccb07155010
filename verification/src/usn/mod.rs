//! The NTFS change journal: its records, and the position a reader keeps in it.
pub mod cursor;
pub mod record;
pub mod walk;

pub use cursor::{validate_cursor, JournalInfo, RescanReason, Resync, SavedCursor};
