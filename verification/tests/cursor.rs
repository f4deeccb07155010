//! Saved journal positions.

use goz::usn::{validate_cursor, JournalInfo, RescanReason, Resync, SavedCursor};

fn live() -> JournalInfo {
    JournalInfo {
        journal_id: 7,
        first_usn: 100,
        next_usn: 1000,
        lowest_valid_usn: 0,
        max_usn: i64::MAX,
    }
}

fn saved(next_usn: i64) -> SavedCursor {
    SavedCursor { journal_id: 7, next_usn }
}

#[test]
fn cursor_inside_window_is_in_sync() {
    assert_eq!(validate_cursor(&saved(500), &live()), Resync::InSync);
}

#[test]
fn cursor_at_first_usn_is_in_sync() {
    assert_eq!(validate_cursor(&saved(100), &live()), Resync::InSync);
}

#[test]
fn cursor_at_next_usn_is_in_sync() {
    assert_eq!(validate_cursor(&saved(1000), &live()), Resync::InSync);
}

#[test]
fn journal_id_mismatch_forces_rescan() {
    let stale = SavedCursor { journal_id: 6, next_usn: 500 };
    assert_eq!(
        validate_cursor(&stale, &live()),
        Resync::FullRescan(RescanReason::JournalIdChanged)
    );
}

#[test]
fn journal_id_mismatch_wins_over_purge() {
    let stale = SavedCursor { journal_id: 6, next_usn: 50 };
    assert_eq!(
        validate_cursor(&stale, &live()),
        Resync::FullRescan(RescanReason::JournalIdChanged)
    );
}

#[test]
fn cursor_below_first_usn_is_purged() {
    assert_eq!(
        validate_cursor(&saved(50), &live()),
        Resync::FullRescan(RescanReason::CursorPurged)
    );
}

#[test]
fn purge_is_reported_before_restamp() {
    let live = JournalInfo { lowest_valid_usn: 200, ..live() };
    assert_eq!(
        validate_cursor(&saved(50), &live),
        Resync::FullRescan(RescanReason::CursorPurged)
    );
}

#[test]
fn cursor_below_lowest_valid_usn_is_restamp_discontinuity() {
    let live = JournalInfo { lowest_valid_usn: 200, ..live() };
    assert_eq!(
        validate_cursor(&saved(150), &live),
        Resync::FullRescan(RescanReason::RestampDiscontinuity)
    );
}

#[test]
fn cursor_at_lowest_valid_usn_is_in_sync() {
    let live = JournalInfo { lowest_valid_usn: 200, ..live() };
    assert_eq!(validate_cursor(&saved(200), &live), Resync::InSync);
}

#[test]
fn cursor_from_the_future_is_restamp_discontinuity() {
    assert_eq!(
        validate_cursor(&saved(2000), &live()),
        Resync::FullRescan(RescanReason::RestampDiscontinuity)
    );
}
