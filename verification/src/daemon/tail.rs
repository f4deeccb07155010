//! What a journal tail decides.
//!
//! A tail reads its volume's change journal and keeps the index in step. It
//! reports what each read came to, and is told what to do next; the volume's
//! phase changes along, so that a volume that is no longer tracked never looks
//! as if it were.

use super::volume::ScopeCache;
use crate::index::VolumeIndex;
use crate::text::{join_detail, with_detail};
use crate::types::VolumePhase;
use crate::usn::cursor::{JournalInfo, RescanReason};
use crate::usn::record::{
    reason_ops, USN_REASON_BASIC_INFO_CHANGE, USN_REASON_CLOSE, USN_REASON_DATA_EXTEND,
    USN_REASON_DATA_OVERWRITE, USN_REASON_DATA_TRUNCATION, USN_REASON_FILE_CREATE,
    USN_REASON_FILE_DELETE, USN_REASON_HARD_LINK_CHANGE, USN_REASON_RENAME_NEW_NAME,
    USN_REASON_RENAME_OLD_NAME,
};
use crate::usn::walk::{JournalWalk, WalkError};
use vstd::prelude::*;
use vstd::string::StringExecFns;

verus! {

/// The reasons that the journal is asked to report: everything that changes a
/// name, a hard link, or a file's size or times.
pub const REASON_MASK: u32 = USN_REASON_FILE_CREATE | USN_REASON_FILE_DELETE
    | USN_REASON_RENAME_OLD_NAME | USN_REASON_RENAME_NEW_NAME | USN_REASON_HARD_LINK_CHANGE
    | USN_REASON_BASIC_INFO_CHANGE | USN_REASON_DATA_OVERWRITE | USN_REASON_DATA_EXTEND
    | USN_REASON_DATA_TRUNCATION | USN_REASON_CLOSE;

/// Size of the journal read buffer.
pub const READ_BUFFER_BYTES: usize = 524_288;

/// Milliseconds between two reads of a journal that is caught up with.
pub const IDLE_POLL_MS: u64 = 50;

/// Milliseconds that reads may keep failing before the volume stops claiming to
/// be live.
pub const DEGRADE_AFTER_MS: u64 = 5000;

/// Milliseconds that reads may keep failing before the index is built anew.
pub const ESCALATE_AFTER_MS: u64 = 30_000;

/// The first pause before a read is tried again, in milliseconds.
pub const RETRY_BACKOFF_MIN_MS: u64 = 500;

/// The longest pause before a read is tried again, in milliseconds.
pub const RETRY_BACKOFF_MAX_MS: u64 = 30_000;

/// Rescans in a row before the volume is given up on.
pub const MAX_RESCANS: u32 = 3;

/// Every reason that does something to the index is one the journal is asked to
/// report; an update the journal never reports would vanish without a trace.
pub proof fn law_mask_covers_every_op(reason: u32)
    requires
        reason_ops(reason).len() > 0,
    ensures
        reason & REASON_MASK != 0,
{
    let r = reason;
    assert(r & 0x200u32 != 0 || r & 0x1000u32 != 0 || r & 0x100u32 != 0 || r & 0x2000u32 != 0 || r
        & 0x1_0000u32 != 0 || r & 0x8000u32 != 0 || r & 0x1u32 != 0 || r & 0x2u32 != 0 || r & 0x4u32
        != 0 ==> r & (0x100u32 | 0x200u32 | 0x1000u32 | 0x2000u32 | 0x1_0000u32 | 0x8000u32 | 0x1u32
        | 0x2u32 | 0x4u32 | 0x8000_0000u32) != 0) by (bit_vector);
}

/// System error: the journal is being deleted.
pub const ERROR_JOURNAL_DELETE_IN_PROGRESS: u32 = 1178;

/// System error: the volume has no journal.
pub const ERROR_JOURNAL_NOT_ACTIVE: u32 = 1179;

/// System error: the records asked for were purged.
pub const ERROR_JOURNAL_ENTRY_DELETED: u32 = 1181;

/// Why a read of the journal failed.
#[derive(Clone, Copy, Debug, PartialEq, Eq, Structural)]
pub enum ReadError {
    /// The position fell off the end of the journal.
    EntryDeleted,
    /// The journal is gone.
    NotActive,
    /// The journal is being deleted.
    DeleteInProgress,
    /// Anything else; it may pass.
    Other,
}

/// What a system error code means for a tail.
pub fn read_error(code: u32) -> (error: ReadError)
    ensures
        error == ReadError::EntryDeleted <==> code == ERROR_JOURNAL_ENTRY_DELETED,
        error == ReadError::NotActive <==> code == ERROR_JOURNAL_NOT_ACTIVE,
        error == ReadError::DeleteInProgress <==> code == ERROR_JOURNAL_DELETE_IN_PROGRESS,
{
    if code == ERROR_JOURNAL_ENTRY_DELETED {
        ReadError::EntryDeleted
    } else if code == ERROR_JOURNAL_NOT_ACTIVE {
        ReadError::NotActive
    } else if code == ERROR_JOURNAL_DELETE_IN_PROGRESS {
        ReadError::DeleteInProgress
    } else {
        ReadError::Other
    }
}

/// What a read of the journal came to.
#[derive(Clone, Copy, Debug, PartialEq, Eq, Structural)]
pub enum ReadOutcome {
    /// Nothing new; go on at `next_usn`.
    CaughtUp { next_usn: i64 },
    /// Records; once they are taken in, go on at `next_usn`.
    Batch { next_usn: i64 },
    /// The bytes cannot be read as records.
    Corrupt,
    /// The read failed.
    Failed(ReadError),
}

/// What a walk over the bytes that were read came to.
pub fn walk_outcome(walk: &Result<JournalWalk, WalkError>) -> (outcome: ReadOutcome)
    ensures
        outcome == match *walk {
            Ok(w) if w.records@.len() == 0 => ReadOutcome::CaughtUp { next_usn: w.next_usn },
            Ok(w) => ReadOutcome::Batch { next_usn: w.next_usn },
            Err(_) => ReadOutcome::Corrupt,
        },
{
    match walk {
        Ok(w) => if w.records.len() == 0 {
            ReadOutcome::CaughtUp { next_usn: w.next_usn }
        } else {
            ReadOutcome::Batch { next_usn: w.next_usn }
        },
        Err(_) => ReadOutcome::Corrupt,
    }
}

/// What a tail does next.
#[derive(Clone, Copy, Debug, PartialEq, Eq, Structural)]
pub enum TailStep {
    /// Read the journal.
    Read,
    /// Pause for [`IDLE_POLL_MS`], then read.
    Idle,
    /// Take in the records, then read.
    Apply,
    /// Pause, then read again.
    Retry { pause_ms: u64 },
    /// Build the index anew.
    Rescan(RescanReason),
    /// Exit.
    Exit,
}

/// Where a tail stands.
#[derive(Clone, Copy, Debug, PartialEq, Eq, Structural)]
pub struct TailState {
    /// The next USN to read.
    pub start_usn: i64,
    pub journal_id: u64,
    /// Rescans since the last batch.
    pub rescans: u32,
    /// When reads began to fail, on a clock in milliseconds.
    pub failing_since: Option<u64>,
    /// The next pause before a read is tried again.
    pub backoff_ms: u64,
    /// Whether this tail took the volume offline. Then it also brings the volume
    /// back; a phase that something else has set it leaves alone.
    pub degraded: bool,
}

/// The milliseconds from `then` to `now`.
pub open spec fn elapsed(then: u64, now: u64) -> int {
    if now >= then {
        now - then
    } else {
        0
    }
}

impl TailState {
    /// The pause keeps within its bounds, and rescans within their budget: no
    /// more than one is asked for beyond it, and refused.
    pub open spec fn wf(self) -> bool {
        &&& RETRY_BACKOFF_MIN_MS <= self.backoff_ms <= RETRY_BACKOFF_MAX_MS
        &&& self.rescans <= MAX_RESCANS + 1
    }

    /// A rescan was refused, and the tail has given up.
    pub open spec fn gave_up(self) -> bool {
        self.rescans > MAX_RESCANS
    }

    /// A tail at a position.
    pub open spec fn at(start_usn: i64, journal_id: u64, rescans: u32) -> TailState {
        TailState {
            start_usn,
            journal_id,
            rescans,
            failing_since: None,
            backoff_ms: RETRY_BACKOFF_MIN_MS,
            degraded: false,
        }
    }

    /// A read got through.
    pub open spec fn recovered(self) -> TailState {
        TailState::at(self.start_usn, self.journal_id, self.rescans)
    }

    /// A rescan is called for, and counted: it is begun, or, after too many in a
    /// row, refused, and the tail exits.
    pub open spec fn rescanning(self, reason: RescanReason) -> (TailState, TailStep) {
        (
            TailState { rescans: (self.rescans + 1) as u32, ..self },
            if self.rescans >= MAX_RESCANS {
                TailStep::Exit
            } else {
                TailStep::Rescan(reason)
            },
        )
    }

    /// Since when reads have been failing, counting the one at `now`.
    pub open spec fn failing_from(self, now: u64) -> u64 {
        match self.failing_since {
            Some(then) => then,
            None => now,
        }
    }

    /// A read failed in a way that may pass.
    pub open spec fn retrying(self, now: u64) -> (TailState, TailStep) {
        let since = self.failing_from(now);
        let s = TailState { failing_since: Some(since), ..self };
        if elapsed(since, now) >= ESCALATE_AFTER_MS {
            s.rescanning(RescanReason::ReadsKeptFailing)
        } else {
            (
                TailState {
                    degraded: self.degraded || elapsed(since, now) >= DEGRADE_AFTER_MS,
                    backoff_ms: if 2 * self.backoff_ms <= RETRY_BACKOFF_MAX_MS {
                        (2 * self.backoff_ms) as u64
                    } else {
                        RETRY_BACKOFF_MAX_MS
                    },
                    ..s
                },
                TailStep::Retry { pause_ms: self.backoff_ms },
            )
        }
    }

    /// What a read leads to.
    pub open spec fn after_read(self, outcome: ReadOutcome, now: u64) -> (TailState, TailStep) {
        match outcome {
            ReadOutcome::CaughtUp { next_usn } => (
                TailState { start_usn: next_usn, ..self.recovered() },
                TailStep::Idle,
            ),
            ReadOutcome::Batch { next_usn } => (
                TailState { start_usn: next_usn, rescans: 0, ..self.recovered() },
                TailStep::Apply,
            ),
            ReadOutcome::Corrupt => self.recovered().rescanning(RescanReason::ParserAnomaly),
            ReadOutcome::Failed(ReadError::EntryDeleted) => self.rescanning(
                RescanReason::EntryDeletedError,
            ),
            ReadOutcome::Failed(ReadError::NotActive) => self.rescanning(
                RescanReason::JournalNotActive,
            ),
            ReadOutcome::Failed(ReadError::DeleteInProgress) => self.rescanning(
                RescanReason::JournalDeleteInProgress,
            ),
            ReadOutcome::Failed(ReadError::Other) => self.retrying(now),
        }
    }

    /// The reason for the rescan that a read calls for.
    pub open spec fn fault(outcome: ReadOutcome) -> RescanReason {
        match outcome {
            ReadOutcome::Failed(ReadError::EntryDeleted) => RescanReason::EntryDeletedError,
            ReadOutcome::Failed(ReadError::NotActive) => RescanReason::JournalNotActive,
            ReadOutcome::Failed(ReadError::DeleteInProgress) => {
                RescanReason::JournalDeleteInProgress
            },
            ReadOutcome::Failed(ReadError::Other) => RescanReason::ReadsKeptFailing,
            _ => RescanReason::ParserAnomaly,
        }
    }

    /// What a read does to the volume's phase. A rescan shows as one, an exit as
    /// a failure that says why; a volume goes offline once reads have failed for
    /// too long, and comes back with the first read that gets through.
    pub open spec fn phase_after_read(
        self,
        outcome: ReadOutcome,
        now: u64,
        detail: Seq<char>,
        before: VolumePhase,
        after: VolumePhase,
    ) -> bool {
        let (s, step) = self.after_read(outcome, now);
        match step {
            TailStep::Rescan(_) => after is Rescanning,
            TailStep::Exit => after is Failed && after->reason@ == with_detail(
                Self::fault(outcome).label_text(),
                detail + ": too many rescans, giving up"@,
            ),
            TailStep::Retry { .. } => if s.degraded && !self.degraded {
                after is Offline
            } else {
                after == before
            },
            _ => if self.degraded {
                after is Live
            } else {
                after == before
            },
        }
    }
}

/// How building an index anew ended.
pub enum Rebuild {
    /// The tail was told to stop meanwhile.
    Aborted,
    /// It failed, for the reason given.
    Failed(String),
    /// It is built. The journal's position was taken before the build began, so
    /// that a change made meanwhile is replayed; there is none where the volume
    /// has no journal.
    Built(Option<JournalInfo>),
}

impl TailState {
    /// A rescan for this reason makes good for reads that failed: the journal that
    /// they failed on is not read on.
    pub open spec fn ends_streak(reason: RescanReason) -> bool {
        reason is JournalNotActive || reason is JournalDeleteInProgress
            || reason is ReadsKeptFailing
    }

    /// What the end of a rescan leads to. The volume is tracked again, so that it
    /// is no longer this tail that took it offline; how long reads have been
    /// failing is forgotten only where the reason was the journal itself.
    pub open spec fn after_rebuild(self, end: Rebuild, reason: RescanReason) -> (
        TailState,
        TailStep,
    ) {
        match end {
            Rebuild::Built(Some(c)) => (
                if Self::ends_streak(reason) {
                    TailState::at(c.next_usn, c.journal_id, self.rescans)
                } else {
                    TailState {
                        start_usn: c.next_usn,
                        journal_id: c.journal_id,
                        degraded: false,
                        ..self
                    }
                },
                TailStep::Read,
            ),
            _ => (self, TailStep::Exit),
        }
    }

    /// What the end of a rescan does to the volume's phase.
    pub open spec fn phase_after_rebuild(
        end: Rebuild,
        reason: RescanReason,
        before: VolumePhase,
        after: VolumePhase,
    ) -> bool {
        match end {
            Rebuild::Aborted => after == before,
            Rebuild::Failed(detail) => after is Failed && after->reason@ == with_detail(
                reason.label_text(),
                with_detail("rescan rebuild failed"@, detail@),
            ),
            Rebuild::Built(Some(_)) => after is Live,
            // Built and correct, but nothing will keep it so.
            Rebuild::Built(None) => after is Offline,
        }
    }

    /// Starts a tail. Without a position to start from nothing proves that the
    /// index is in step, and it is built anew first; that rescan is the price of
    /// a revival, and not counted against the budget for faults.
    pub fn begin(cursor: Option<JournalInfo>, phase: &mut VolumePhase) -> (res: (TailState, TailStep))
        ensures
            res.0.wf(),
            res.0 == match cursor {
                Some(c) => TailState::at(c.next_usn, c.journal_id, 0),
                None => TailState::at(0, 0, 0),
            },
            res.1 == match cursor {
                Some(_) => TailStep::Read,
                None => TailStep::Rescan(RescanReason::TailRevived),
            },
            cursor is Some ==> *final(phase) == *old(phase),
            cursor is None ==> *final(phase) is Rescanning,
    {
        match cursor {
            Some(c) => (
                TailState {
                    start_usn: c.next_usn,
                    journal_id: c.journal_id,
                    rescans: 0,
                    failing_since: None,
                    backoff_ms: RETRY_BACKOFF_MIN_MS,
                    degraded: false,
                },
                TailStep::Read,
            ),
            None => {
                *phase = VolumePhase::Rescanning;
                (
                    TailState {
                        start_usn: 0,
                        journal_id: 0,
                        rescans: 0,
                        failing_since: None,
                        backoff_ms: RETRY_BACKOFF_MIN_MS,
                        degraded: false,
                    },
                    TailStep::Rescan(RescanReason::TailRevived),
                )
            },
        }
    }

    /// Begins a rescan, or gives up after too many in a row.
    fn bounded_rescan(&mut self, reason: RescanReason, detail: &str, phase: &mut VolumePhase) -> (step:
        TailStep)
        requires
            old(self).rescans < u32::MAX,
        ensures
            (*final(self), step) == old(self).rescanning(reason),
            step is Rescan ==> *final(phase) is Rescanning,
            step is Exit ==> *final(phase) is Failed && final(phase)->reason@ == with_detail(
                reason.label_text(),
                detail@ + ": too many rescans, giving up"@,
            ),
    {
        self.rescans = self.rescans + 1;
        if self.rescans > MAX_RESCANS {
            let mut why = detail.to_string();
            why.append(": too many rescans, giving up");
            *phase = VolumePhase::Failed { reason: join_detail(reason.label(), why.as_str()) };
            return TailStep::Exit;
        }
        *phase = VolumePhase::Rescanning;
        TailStep::Rescan(reason)
    }

    /// Takes note that a read got through.
    fn note_recovery(&mut self, phase: &mut VolumePhase)
        ensures
            *final(self) == old(self).recovered(),
            old(self).degraded ==> *final(phase) is Live,
            !old(self).degraded ==> *final(phase) == *old(phase),
    {
        if self.degraded {
            *phase = VolumePhase::Live;
            self.degraded = false;
        }
        self.failing_since = None;
        self.backoff_ms = RETRY_BACKOFF_MIN_MS;
    }

    /// Decides what follows a read that failed in a way that may pass. It is
    /// tried again, with growing pauses, but neither in silence nor for ever.
    fn retry(&mut self, now: u64, detail: &str, phase: &mut VolumePhase) -> (step: TailStep)
        requires
            old(self).wf(),
        ensures
            !old(self).gave_up() ==> final(self).wf(),
            (*final(self), step) == old(self).retrying(now),
            old(self).phase_after_read(
                ReadOutcome::Failed(ReadError::Other),
                now,
                detail@,
                *old(phase),
                *final(phase),
            ),
    {
        let since: u64 = match self.failing_since {
            Some(then) => then,
            None => now,
        };
        self.failing_since = Some(since);
        let failing_for: u64 = if now >= since {
            now - since
        } else {
            0
        };
        if failing_for >= ESCALATE_AFTER_MS {
            return self.bounded_rescan(RescanReason::ReadsKeptFailing, detail, phase);
        }
        if !self.degraded && failing_for >= DEGRADE_AFTER_MS {
            *phase = VolumePhase::Offline;
            self.degraded = true;
        }
        let pause_ms = self.backoff_ms;
        self.backoff_ms = if 2 * pause_ms <= RETRY_BACKOFF_MAX_MS {
            2 * pause_ms
        } else {
            RETRY_BACKOFF_MAX_MS
        };
        TailStep::Retry { pause_ms }
    }

    /// Decides what follows a read of the journal at `now`. `detail` tells of
    /// the error, where there was one.
    pub fn on_read(
        &mut self,
        outcome: ReadOutcome,
        now: u64,
        detail: &str,
        phase: &mut VolumePhase,
    ) -> (step: TailStep)
        requires
            old(self).wf(),
        ensures
            !old(self).gave_up() ==> final(self).wf(),
            (*final(self), step) == old(self).after_read(outcome, now),
            old(self).phase_after_read(outcome, now, detail@, *old(phase), *final(phase)),
    {
        match outcome {
            ReadOutcome::CaughtUp { next_usn } => {
                self.note_recovery(phase);
                self.start_usn = next_usn;
                TailStep::Idle
            },
            ReadOutcome::Batch { next_usn } => {
                self.note_recovery(phase);
                self.start_usn = next_usn;
                self.rescans = 0;
                TailStep::Apply
            },
            ReadOutcome::Corrupt => {
                self.note_recovery(phase);
                self.bounded_rescan(RescanReason::ParserAnomaly, detail, phase)
            },
            ReadOutcome::Failed(ReadError::EntryDeleted) => self.bounded_rescan(
                RescanReason::EntryDeletedError,
                detail,
                phase,
            ),
            ReadOutcome::Failed(ReadError::NotActive) => self.bounded_rescan(
                RescanReason::JournalNotActive,
                detail,
                phase,
            ),
            ReadOutcome::Failed(ReadError::DeleteInProgress) => self.bounded_rescan(
                RescanReason::JournalDeleteInProgress,
                detail,
                phase,
            ),
            ReadOutcome::Failed(ReadError::Other) => self.retry(now, detail, phase),
        }
    }

    /// Decides what follows a rescan.
    pub fn on_rebuild(&mut self, end: &Rebuild, reason: RescanReason, phase: &mut VolumePhase) -> (step:
        TailStep)
        requires
            old(self).wf(),
        ensures
            final(self).wf(),
            (*final(self), step) == old(self).after_rebuild(*end, reason),
            Self::phase_after_rebuild(*end, reason, *old(phase), *final(phase)),
    {
        match end {
            Rebuild::Aborted => TailStep::Exit,
            Rebuild::Failed(detail) => {
                let why = join_detail("rescan rebuild failed", detail.as_str());
                *phase = VolumePhase::Failed { reason: join_detail(reason.label(), why.as_str()) };
                TailStep::Exit
            },
            Rebuild::Built(Some(c)) => {
                self.start_usn = c.next_usn;
                self.journal_id = c.journal_id;
                self.degraded = false;
                match reason {
                    RescanReason::JournalNotActive
                    | RescanReason::JournalDeleteInProgress
                    | RescanReason::ReadsKeptFailing => {
                        self.failing_since = None;
                        self.backoff_ms = RETRY_BACKOFF_MIN_MS;
                    },
                    _ => {},
                }
                *phase = VolumePhase::Live;
                TailStep::Read
            },
            Rebuild::Built(None) => {
                *phase = VolumePhase::Offline;
                TailStep::Exit
            },
        }
    }
}

/// Puts a rebuilt index in place. The remembered scope goes with the old one: its
/// entry is a slot of that.
pub fn install_index(index: &mut VolumeIndex, cache: &mut Option<ScopeCache>, fresh: VolumeIndex)
    ensures
        *final(index) == fresh,
        *final(cache) is None,
{
    *index = fresh;
    *cache = None;
}

/// How long to sleep before looking again whether to stop: `total` milliseconds
/// are cut into naps, so that a stop never waits for the end of a long pause.
pub fn next_nap(slept_ms: u64, total_ms: u64) -> (nap: Option<u64>)
    ensures
        nap is None <==> slept_ms >= total_ms,
        nap is Some ==> 0 < nap->0 <= 50 && slept_ms + nap->0 <= total_ms,
        nap is Some && slept_ms + 50 <= total_ms ==> nap->0 == 50,
        nap is Some && slept_ms + 50 > total_ms ==> slept_ms + nap->0 == total_ms,
{
    if slept_ms >= total_ms {
        None
    } else if total_ms - slept_ms < 50 {
        Some(total_ms - slept_ms)
    } else {
        Some(50)
    }
}

/// A volume that its tail took offline does not show as complete.
pub open spec fn honest(s: TailState, phase: VolumePhase) -> bool {
    s.degraded ==> !phase.complete()
}

/// However a tail goes on, the phase stays honest.
pub proof fn law_phase_stays_honest(
    s: TailState,
    outcome: ReadOutcome,
    now: u64,
    detail: Seq<char>,
    before: VolumePhase,
    after: VolumePhase,
)
    requires
        honest(s, before),
        s.phase_after_read(outcome, now, detail, before, after),
    ensures
        honest(s.after_read(outcome, now).0, after),
{
}

/// A volume whose reads have kept failing for long enough never claims to be
/// complete: it is offline, being rescanned, or has failed.
pub proof fn law_failing_reads_are_told(
    s: TailState,
    now: u64,
    detail: Seq<char>,
    before: VolumePhase,
    after: VolumePhase,
)
    requires
        honest(s, before),
        elapsed(s.failing_from(now), now) >= DEGRADE_AFTER_MS,
        s.phase_after_read(
            ReadOutcome::Failed(ReadError::Other),
            now,
            detail,
            before,
            after,
        ),
    ensures
        !after.complete(),
{
}

/// Whenever the index may have lost step with its volume, the volume is rescanned
/// or has failed; it never goes on as if nothing had happened.
pub proof fn law_lost_step_is_told(
    s: TailState,
    outcome: ReadOutcome,
    now: u64,
    detail: Seq<char>,
    before: VolumePhase,
    after: VolumePhase,
)
    requires
        s.phase_after_read(outcome, now, detail, before, after),
        outcome is Corrupt || outcome == ReadOutcome::Failed(ReadError::EntryDeleted) || outcome
            == ReadOutcome::Failed(ReadError::NotActive) || outcome == ReadOutcome::Failed(
            ReadError::DeleteInProgress,
        ),
    ensures
        after is Rescanning || after is Failed,
        s.after_read(outcome, now).1 is Rescan <==> after is Rescanning,
{
}

/// A tail that exits on its own leaves no phase that claims to be complete; told
/// to stop, it leaves the phase as it is.
pub proof fn law_exit_is_told(
    s: TailState,
    end: Rebuild,
    reason: RescanReason,
    before: VolumePhase,
    after: VolumePhase,
)
    requires
        before is Rescanning,
        TailState::phase_after_rebuild(end, reason, before, after),
        s.after_rebuild(end, reason).1 is Exit,
    ensures
        !after.complete(),
{
}

/// One turn of a tail: what a read came to and when, and the journal's position
/// as a rescan, where one follows, finds it.
pub struct Turn {
    pub outcome: ReadOutcome,
    pub now: u64,
    pub cursor: JournalInfo,
}

/// How many rescans a tail begins over a number of turns, each of them ending
/// well.
pub open spec fn rescans_begun(s: TailState, turns: Seq<Turn>) -> nat
    decreases turns.len(),
{
    if turns.len() == 0 {
        0
    } else {
        let t = turns[0];
        let (next, step) = s.after_read(t.outcome, t.now);
        let rest = turns.drop_first();
        match step {
            TailStep::Exit => 0,
            TailStep::Rescan(reason) => 1 + rescans_begun(
                next.after_rebuild(Rebuild::Built(Some(t.cursor)), reason).0,
                rest,
            ),
            _ => rescans_begun(next, rest),
        }
    }
}

/// A broken journal cannot keep a tail rebuilding for ever: without a batch in
/// between there are at most [`MAX_RESCANS`] rescans, and none once a tail has
/// given up.
pub proof fn law_rescans_are_bounded(s: TailState, turns: Seq<Turn>)
    requires
        s.wf(),
        forall|k: int| 0 <= k < turns.len() ==> !((#[trigger] turns[k]).outcome is Batch),
    ensures
        rescans_begun(s, turns) <= if s.gave_up() {
            0
        } else {
            MAX_RESCANS - s.rescans
        },
    decreases turns.len(),
{
    if turns.len() > 0 {
        let t = turns[0];
        let (next, step) = s.after_read(t.outcome, t.now);
        let rest = turns.drop_first();
        assert forall|k: int| 0 <= k < rest.len() implies !((
        #[trigger] rest[k]).outcome is Batch) by {
            assert(rest[k] == turns[k + 1]);
        }
        assert(!(turns[0].outcome is Batch));
        match step {
            TailStep::Exit => {},
            TailStep::Rescan(reason) => {
                law_rescans_are_bounded(
                    next.after_rebuild(Rebuild::Built(Some(t.cursor)), reason).0,
                    rest,
                );
            },
            _ => {
                law_rescans_are_bounded(next, rest);
            },
        }
    }
}

/// A read that gets through takes the tail on: it reads on where the journal
/// says, in the same journal, and past failures are forgotten, so that the next
/// pause is the shortest. A batch is taken in, and forgives the rescans before
/// it. A volume that this tail took offline is live again; any other phase is
/// left as it is.
pub proof fn law_read_goes_on(
    s: TailState,
    next_usn: i64,
    now: u64,
    detail: Seq<char>,
    before: VolumePhase,
    after: VolumePhase,
    batch: bool,
)
    requires
        s.phase_after_read(
            if batch {
                ReadOutcome::Batch { next_usn }
            } else {
                ReadOutcome::CaughtUp { next_usn }
            },
            now,
            detail,
            before,
            after,
        ),
    ensures
        ({
            let (t, step) = s.after_read(
                if batch {
                    ReadOutcome::Batch { next_usn }
                } else {
                    ReadOutcome::CaughtUp { next_usn }
                },
                now,
            );
            &&& step == if batch {
                TailStep::Apply
            } else {
                TailStep::Idle
            }
            &&& t.start_usn == next_usn
            &&& t.journal_id == s.journal_id
            &&& t.rescans == if batch {
                0
            } else {
                s.rescans
            }
            &&& t.failing_since is None
            &&& t.backoff_ms == 500
            &&& !t.degraded
            &&& s.degraded ==> after is Live
            &&& !s.degraded ==> after == before
        }),
{
}

/// While reads fail in a way that may pass, the tail tries again from where it
/// was: each pause is twice the one before, up to half a minute.
pub proof fn law_pauses_grow(s: TailState, first: u64, second: u64)
    requires
        s.wf(),
        s.after_read(ReadOutcome::Failed(ReadError::Other), first).1 is Retry,
        s.after_read(ReadOutcome::Failed(ReadError::Other), first).0.after_read(
            ReadOutcome::Failed(ReadError::Other),
            second,
        ).1 is Retry,
    ensures
        ({
            let (t, step) = s.after_read(ReadOutcome::Failed(ReadError::Other), first);
            let (u, again) = t.after_read(ReadOutcome::Failed(ReadError::Other), second);
            &&& step->pause_ms == s.backoff_ms
            &&& 500 <= step->pause_ms <= 30000
            &&& again->pause_ms == if 2 * step->pause_ms < 30000 {
                2 * step->pause_ms
            } else {
                30000
            }
            &&& u.start_usn == s.start_usn
            &&& u.journal_id == s.journal_id
            &&& u.rescans == s.rescans
        }),
{
}

/// How long reads have been failing is counted from the first that failed. The
/// volume goes offline with the first read that fails five seconds after that or
/// later, and the index is built anew, or the tail gives up, with the first that
/// fails half a minute after that or later; until then it tries again.
pub proof fn law_failures_are_timed(
    s: TailState,
    first: u64,
    later: u64,
    detail: Seq<char>,
    before: VolumePhase,
    after: VolumePhase,
)
    requires
        s.failing_since is None,
        !s.degraded,
        first <= later,
        s.after_read(ReadOutcome::Failed(ReadError::Other), first).0.phase_after_read(
            ReadOutcome::Failed(ReadError::Other),
            later,
            detail,
            before,
            after,
        ),
    ensures
        ({
            let (t, step) = s.after_read(ReadOutcome::Failed(ReadError::Other), first);
            let (u, again) = t.after_read(ReadOutcome::Failed(ReadError::Other), later);
            &&& step is Retry
            &&& t.failing_since == Some(first)
            &&& u.failing_since == Some(first)
            &&& later - first < 30000 <==> again is Retry
            &&& later - first >= 30000 <==> again == TailStep::Rescan(
                RescanReason::ReadsKeptFailing,
            ) || again is Exit
            &&& later - first < 5000 ==> after == before && !u.degraded
            &&& 5000 <= later - first < 30000 ==> after is Offline && u.degraded
        }),
{
}

/// A fault of the journal calls for a rescan that says which it was, up to three
/// in a row; a fourth is refused, and the volume has failed.
pub proof fn law_faults_call_for_rescans(s: TailState, outcome: ReadOutcome, now: u64)
    requires
        s.wf(),
    ensures
        ({
            let (t, step) = s.after_read(outcome, now);
            let called = match outcome {
                ReadOutcome::Corrupt => Some(RescanReason::ParserAnomaly),
                ReadOutcome::Failed(ReadError::EntryDeleted) => Some(
                    RescanReason::EntryDeletedError,
                ),
                ReadOutcome::Failed(ReadError::NotActive) => Some(RescanReason::JournalNotActive),
                ReadOutcome::Failed(ReadError::DeleteInProgress) => Some(
                    RescanReason::JournalDeleteInProgress,
                ),
                _ => None,
            };
            called is Some ==> {
                &&& t.rescans == s.rescans + 1
                &&& s.rescans < 3 ==> step == TailStep::Rescan(called->0)
                &&& s.rescans >= 3 ==> step == TailStep::Exit
                &&& t.start_usn == s.start_usn
                &&& t.journal_id == s.journal_id
                &&& outcome is Corrupt ==> t.failing_since is None && t.backoff_ms == 500
                    && !t.degraded
                &&& outcome !is Corrupt ==> t.failing_since == s.failing_since && t.backoff_ms
                    == s.backoff_ms && t.degraded == s.degraded
            }
        }),
{
}

/// A rescan that succeeds has the tail read on from where the journal stood when
/// it began, and the volume live; past failures are forgotten where the reason was
/// the journal itself. Without a journal to follow the tail exits and the volume
/// is offline; one that fails leaves a failed volume that says why;
/// one cut off leaves the phase as it is.
pub proof fn law_rescan_ends(
    s: TailState,
    end: Rebuild,
    reason: RescanReason,
    before: VolumePhase,
    after: VolumePhase,
)
    requires
        TailState::phase_after_rebuild(end, reason, before, after),
    ensures
        ({
            let (t, step) = s.after_rebuild(end, reason);
            &&& end is Aborted ==> step == TailStep::Exit && after == before
            &&& end is Failed ==> step == TailStep::Exit && after is Failed && after->reason@
                == reason.label_text() + ": "@ + ("rescan rebuild failed"@ + ": "@ + end->Failed_0@)
            &&& end is Built && end->Built_0 is None ==> step == TailStep::Exit && after is Offline
            &&& end is Built && end->Built_0 is Some ==> {
                &&& step == TailStep::Read
                &&& after is Live
                &&& t.start_usn == (end->Built_0->0).next_usn
                &&& t.journal_id == (end->Built_0->0).journal_id
                &&& t.rescans == s.rescans
                &&& !t.degraded
                &&& reason is JournalNotActive || reason is JournalDeleteInProgress
                    || reason is ReadsKeptFailing ==> t.failing_since is None && t.backoff_ms == 500
                &&& !(reason is JournalNotActive || reason is JournalDeleteInProgress
                    || reason is ReadsKeptFailing) ==> t.failing_since == s.failing_since
                    && t.backoff_ms == s.backoff_ms
            }
        }),
{
}

/// Every reason that the journal is asked to report, but for the close of a file,
/// does something to the index: nothing is asked for in vain.
pub proof fn law_mask_asks_for_no_more(reason: u32)
    requires
        reason & REASON_MASK & 0x7FFF_FFFF != 0,
    ensures
        reason_ops(reason).len() > 0,
{
    let r = reason;
    assert(r & (0x100u32 | 0x200u32 | 0x1000u32 | 0x2000u32 | 0x1_0000u32 | 0x8000u32 | 0x1u32
        | 0x2u32 | 0x4u32 | 0x8000_0000u32) & 0x7FFF_FFFFu32 != 0 ==> r & 0x200u32 != 0 || r
        & 0x1000u32 != 0 || r & 0x100u32 != 0 || r & 0x2000u32 != 0 || r & 0x1_0000u32 != 0 || r
        & 0x8000u32 != 0 || r & 0x1u32 != 0 || r & 0x2u32 != 0 || r & 0x4u32 != 0) by (bit_vector);
    crate::usn::record::law_ops_of_a_reason(reason);
    let ops = reason_ops(reason);
    if reason & 0x200 == 0 {
        assert(ops.contains(crate::usn::record::IndexOp::Stat) || ops.contains(
            crate::usn::record::IndexOp::RemoveName,
        ) || ops.contains(crate::usn::record::IndexOp::AddName) || ops.contains(
            crate::usn::record::IndexOp::ReconcileLinks,
        ));
    }
}

/// What is shown of a volume while its tail rescans or once it has given up: that
/// it is being rescanned, or that it has failed, with the fault, what it came
/// from and that there were too many rescans.
pub proof fn law_rescans_are_shown(
    s: TailState,
    outcome: ReadOutcome,
    now: u64,
    detail: Seq<char>,
    before: VolumePhase,
    after: VolumePhase,
)
    requires
        s.phase_after_read(outcome, now, detail, before, after),
    ensures
        ({
            let step = s.after_read(outcome, now).1;
            let name = match outcome {
                ReadOutcome::Corrupt => "ParserAnomaly"@,
                ReadOutcome::Failed(ReadError::EntryDeleted) => "EntryDeletedError"@,
                ReadOutcome::Failed(ReadError::NotActive) => "JournalNotActive"@,
                ReadOutcome::Failed(ReadError::DeleteInProgress) => "JournalDeleteInProgress"@,
                _ => "ReadsKeptFailing"@,
            };
            &&& step is Rescan ==> after is Rescanning
            &&& step is Exit ==> after is Failed && after->reason@ == name + ": "@ + (detail
                + ": too many rescans, giving up"@)
            &&& outcome is CaughtUp || outcome is Batch ==> !(step is Rescan) && !(step is Exit)
        }),
{
}

} // verus!
