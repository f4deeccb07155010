//! Whether a saved position in a journal can be replayed from, or the volume
//! has to be scanned again.
//!
//! [`validate_cursor`] holds the whole decision. A cursor alone must never be
//! saved without the index it belongs to: it would tell an empty index that it
//! is current.

use vstd::prelude::*;

verus! {

/// A position in a volume's journal, with the journal's identity.
#[derive(Clone, Copy, Debug, PartialEq, Eq, Structural)]
pub struct SavedCursor {
    /// The journal the position was taken from.
    pub journal_id: u64,
    /// The next USN to read.
    pub next_usn: i64,
}

/// The state of a live journal.
#[derive(Clone, Copy, Debug, PartialEq, Eq, Structural)]
pub struct JournalInfo {
    /// The journal's identity; it changes when the journal is deleted and made
    /// again, or stamped anew.
    pub journal_id: u64,
    /// The oldest record still there; everything below was purged.
    pub first_usn: i64,
    /// The USN that the next record will get.
    pub next_usn: i64,
    /// USNs below this are older than the journal's current stamp.
    pub lowest_valid_usn: i64,
    /// The ceiling that `next_usn` must not reach. Nearing it makes no position
    /// stale.
    pub max_usn: i64,
}

/// What to do with a saved position.
#[derive(Clone, Copy, Debug, PartialEq, Eq, Structural)]
pub enum Resync {
    /// Replay the journal from it.
    InSync,
    /// Changes were, or may have been, missed: build the volume's index anew.
    FullRescan(RescanReason),
}

/// Why an index is built anew. [`validate_cursor`] gives only the first three;
/// the rest are what a running tail runs into.
#[derive(Clone, Copy, Debug, PartialEq, Eq, Structural)]
pub enum RescanReason {
    /// The journal is another than the one the position was taken from.
    JournalIdChanged,
    /// The journal was purged past the position.
    CursorPurged,
    /// The position lies outside the journal's valid USNs though nothing was
    /// purged: below the lowest valid one, or ahead of the next one.
    RestampDiscontinuity,
    /// There is no journal on the volume.
    JournalNotActive,
    /// The journal is being deleted.
    JournalDeleteInProgress,
    /// The position was purged between its validation and the read.
    EntryDeletedError,
    /// A corrupt buffer: what was missed cannot be told.
    ParserAnomaly,
    /// The tail exited and was revived; in between the volume went untailed.
    TailRevived,
    /// Reads kept failing, whatever the error: the journal cannot be trusted.
    ReadsKeptFailing,
    /// The volume went away and came back; its journal may have moved on
    /// elsewhere.
    VolumeReattached,
}

impl RescanReason {
    /// The reason's name.
    pub open spec fn label_text(self) -> Seq<char> {
        match self {
            RescanReason::JournalIdChanged => "JournalIdChanged"@,
            RescanReason::CursorPurged => "CursorPurged"@,
            RescanReason::RestampDiscontinuity => "RestampDiscontinuity"@,
            RescanReason::JournalNotActive => "JournalNotActive"@,
            RescanReason::JournalDeleteInProgress => "JournalDeleteInProgress"@,
            RescanReason::EntryDeletedError => "EntryDeletedError"@,
            RescanReason::ParserAnomaly => "ParserAnomaly"@,
            RescanReason::TailRevived => "TailRevived"@,
            RescanReason::ReadsKeptFailing => "ReadsKeptFailing"@,
            RescanReason::VolumeReattached => "VolumeReattached"@,
        }
    }

    /// The reason's name.
    pub fn label(self) -> (text: &'static str)
        ensures
            text@ == self.label_text(),
    {
        match self {
            RescanReason::JournalIdChanged => "JournalIdChanged",
            RescanReason::CursorPurged => "CursorPurged",
            RescanReason::RestampDiscontinuity => "RestampDiscontinuity",
            RescanReason::JournalNotActive => "JournalNotActive",
            RescanReason::JournalDeleteInProgress => "JournalDeleteInProgress",
            RescanReason::EntryDeletedError => "EntryDeletedError",
            RescanReason::ParserAnomaly => "ParserAnomaly",
            RescanReason::TailRevived => "TailRevived",
            RescanReason::ReadsKeptFailing => "ReadsKeptFailing",
            RescanReason::VolumeReattached => "VolumeReattached",
        }
    }
}

/// The position lies in the part of the journal that can be read.
pub open spec fn in_window(saved: SavedCursor, live: JournalInfo) -> bool {
    &&& saved.journal_id == live.journal_id
    &&& live.first_usn <= saved.next_usn
    &&& live.lowest_valid_usn <= saved.next_usn
    &&& saved.next_usn <= live.next_usn
}

/// Decides whether a saved position can be replayed from, or the volume needs a
/// full rescan. The first that applies counts: another journal, a purge past
/// the position, a position outside the valid USNs.
pub fn validate_cursor(saved: &SavedCursor, live: &JournalInfo) -> (verdict: Resync)
    ensures
        verdict == Resync::InSync <==> in_window(*saved, *live),
        verdict == Resync::FullRescan(RescanReason::JournalIdChanged) <==> saved.journal_id
            != live.journal_id,
        verdict == Resync::FullRescan(RescanReason::CursorPurged) <==> saved.journal_id
            == live.journal_id && saved.next_usn < live.first_usn,
        verdict == Resync::FullRescan(RescanReason::RestampDiscontinuity) <==> saved.journal_id
            == live.journal_id && saved.next_usn >= live.first_usn && (saved.next_usn
            < live.lowest_valid_usn || saved.next_usn > live.next_usn),
{
    if saved.journal_id != live.journal_id {
        return Resync::FullRescan(RescanReason::JournalIdChanged);
    }
    if saved.next_usn < live.first_usn {
        return Resync::FullRescan(RescanReason::CursorPurged);
    }
    if saved.next_usn < live.lowest_valid_usn {
        return Resync::FullRescan(RescanReason::RestampDiscontinuity);
    }
    if saved.next_usn > live.next_usn {
        return Resync::FullRescan(RescanReason::RestampDiscontinuity);
    }
    Resync::InSync
}

/// A position can be replayed from exactly where it is one of the same journal,
/// nothing behind it was purged, and it lies within the valid numbers.
pub proof fn law_replayable(saved: SavedCursor, live: JournalInfo)
    ensures
        in_window(saved, live) <==> saved.journal_id == live.journal_id && live.first_usn
            <= saved.next_usn && live.lowest_valid_usn <= saved.next_usn && saved.next_usn
            <= live.next_usn,
{
}

/// While a journal only goes on, a position that can be replayed from still can
/// be, until it is purged or stamped out.
pub proof fn law_position_keeps(saved: SavedCursor, live: JournalInfo, later: JournalInfo)
    requires
        in_window(saved, live),
        later.journal_id == live.journal_id,
        later.next_usn >= live.next_usn,
    ensures
        in_window(saved, later) <==> later.first_usn <= saved.next_usn && later.lowest_valid_usn
            <= saved.next_usn,
{
}

/// No two reasons have the same name.
pub proof fn law_reasons_are_told_apart(a: RescanReason, b: RescanReason)
    requires
        a.label_text() == b.label_text(),
    ensures
        a == b,
{
    reveal_strlit("JournalIdChanged");
    reveal_strlit("CursorPurged");
    reveal_strlit("RestampDiscontinuity");
    reveal_strlit("JournalNotActive");
    reveal_strlit("JournalDeleteInProgress");
    reveal_strlit("EntryDeletedError");
    reveal_strlit("ParserAnomaly");
    reveal_strlit("TailRevived");
    reveal_strlit("ReadsKeptFailing");
    reveal_strlit("VolumeReattached");
    assert("JournalIdChanged"@[0] == 'J' && "JournalIdChanged"@[7] == 'I');
    assert("JournalNotActive"@[0] == 'J' && "JournalNotActive"@[7] == 'N');
    assert("ReadsKeptFailing"@[0] == 'R');
    assert("VolumeReattached"@[0] == 'V');
    assert(a.label_text().len() == b.label_text().len());
    assert(a.label_text()[0] == b.label_text()[0]);
    assert(a.label_text()[7] == b.label_text()[7]);
    assert("JournalIdChanged"@.len() == 16);
    assert("CursorPurged"@.len() == 12);
    assert("RestampDiscontinuity"@.len() == 20);
    assert("JournalNotActive"@.len() == 16);
    assert("JournalDeleteInProgress"@.len() == 23);
    assert("EntryDeletedError"@.len() == 17);
    assert("ParserAnomaly"@.len() == 13);
    assert("TailRevived"@.len() == 11);
    assert("ReadsKeptFailing"@.len() == 16);
    assert("VolumeReattached"@.len() == 16);
}

} // verus!
