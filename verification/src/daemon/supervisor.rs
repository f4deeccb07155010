//! What the tail supervisor decides.
//!
//! One verdict per pulse state. A stale beat means a tail wedged in a
//! synchronous read: its I/O is cancelled. Busy is legitimate silence, up to a
//! far larger bound. Retired means that the thread exited: it is revived on a
//! bounded budget, and given up on when that is spent.

use super::pulse::Pulse;
use crate::types::VolumePhase;
use vstd::prelude::*;

verus! {

/// Seconds between two scans.
pub const SCAN_INTERVAL: u64 = 30;

/// Seconds after which a stale beat is presumed a wedge. It has to exceed the
/// longest backoff of a tail and two scan intervals.
pub const BEAT_STALL: u64 = 300;

/// Seconds after which a long operation is presumed a wedge.
pub const BUSY_STALL: u64 = 1800;

/// Revivals a tail gets before it is given up on.
pub const MAX_REVIVES: u32 = 3;

/// Seconds a revived tail has to beat without a break before its history is
/// forgotten. Beating, not age: a rebuild alone can take longer.
pub const HEALTHY_AFTER: u64 = 600;

/// Seconds a beat may be old and still count as health. It has to cover one
/// scan interval and stay far below [`BEAT_STALL`].
pub const BEAT_FRESH: u64 = 60;

/// Milliseconds between two rounds of a teardown.
pub const TEARDOWN_POLL_MS: u64 = 250;

/// Milliseconds that a teardown fights for its tails.
pub const TEARDOWN_WAIT_MS: u64 = 5000;

/// Milliseconds that all revivals in flight get together at a teardown.
pub const PENDING_DRAIN_WAIT_MS: u64 = 3000;

/// Milliseconds that a shutdown waits for the supervisor itself.
pub const SUPERVISOR_JOIN_WAIT_MS: u64 = 15_000;

/// What one look at a tail decides.
#[derive(Clone, Copy, Debug, PartialEq, Eq, Structural)]
pub enum Action {
    /// Healthy, or legitimately busy.
    Nothing,
    /// A revived tail has proven itself: forget its history.
    ResetBudget,
    /// Presumed wedged: cancel its I/O.
    CancelIo { stalled_secs: u64 },
    /// The thread exited, and budget is left: spawn it anew.
    Revive,
    /// The thread exited, and the budget is spent: stop supervising it.
    GiveUp,
}

/// The time from `since` to `now`, none where the clock went backwards.
pub open spec fn elapsed(now: u64, since: u64) -> u64 {
    if now >= since {
        (now - since) as u64
    } else {
        0
    }
}

fn since(now: u64, then: u64) -> (secs: u64)
    ensures
        secs == elapsed(now, then),
{
    if now >= then {
        now - then
    } else {
        0
    }
}

/// The decision table.
pub open spec fn verdict(
    pulse: Pulse,
    now: u64,
    revive_attempts: u32,
    proven_healthy: bool,
) -> Action {
    match pulse {
        Pulse::Retired => if revive_attempts >= MAX_REVIVES {
            Action::GiveUp
        } else {
            Action::Revive
        },
        Pulse::Busy(at) => if elapsed(now, at) >= BUSY_STALL {
            Action::CancelIo { stalled_secs: elapsed(now, at) }
        } else {
            Action::Nothing
        },
        Pulse::Beat(at) => if elapsed(now, at) >= BEAT_STALL {
            Action::CancelIo { stalled_secs: elapsed(now, at) }
        } else if revive_attempts > 0 && proven_healthy {
            Action::ResetBudget
        } else {
            Action::Nothing
        },
    }
}

/// Decides what to do about one tail. `proven_healthy` is whether it has beaten
/// without a break for [`HEALTHY_AFTER`]; one never revived has no history to forget.
pub fn assess(pulse: Pulse, now: u64, revive_attempts: u32, proven_healthy: bool) -> (action:
    Action)
    ensures
        action == verdict(pulse, now, revive_attempts, proven_healthy),
{
    match pulse {
        Pulse::Retired => {
            if revive_attempts >= MAX_REVIVES {
                Action::GiveUp
            } else {
                Action::Revive
            }
        },
        Pulse::Busy(at) => {
            let stalled_secs = since(now, at);
            if stalled_secs >= BUSY_STALL {
                Action::CancelIo { stalled_secs }
            } else {
                Action::Nothing
            }
        },
        Pulse::Beat(at) => {
            let stalled_secs = since(now, at);
            if stalled_secs >= BEAT_STALL {
                Action::CancelIo { stalled_secs }
            } else if revive_attempts > 0 && proven_healthy {
                Action::ResetBudget
            } else {
                Action::Nothing
            }
        },
    }
}

/// The look counts as health: a fresh beat of a live volume.
pub open spec fn healthy(pulse: Pulse, live: bool, now_secs: u64) -> bool {
    match pulse {
        Pulse::Beat(at) => live && elapsed(now_secs, at) < BEAT_FRESH,
        _ => false,
    }
}

/// Carries the start of an unbroken run of healthy looks on by one look.
/// Anything else breaks the run: a beat of a volume that is not live is a loop
/// that tracks nothing, and a stale beat is a loop that stopped turning.
pub fn accrue_health<T>(prev: Option<T>, pulse: Pulse, live: bool, now_secs: u64, now: T) -> (start:
    Option<T>)
    ensures
        start == (if !healthy(pulse, live, now_secs) {
            None::<T>
        } else if prev is Some {
            prev
        } else {
            Some(now)
        }),
{
    match pulse {
        Pulse::Beat(at) => {
            if live && since(now_secs, at) < BEAT_FRESH {
                match prev {
                    Some(start) => Some(start),
                    None => Some(now),
                }
            } else {
                None
            }
        },
        _ => None,
    }
}

/// The revival history of one tail.
#[derive(Clone, Copy, Debug, PartialEq, Eq, Structural)]
pub struct Supervised {
    /// Revivals since the budget was last refunded.
    pub revive_attempts: u32,
    /// When the current unbroken run of healthy looks began, in milliseconds of
    /// a clock that never goes back.
    pub beating_since: Option<u64>,
    /// Whether a revival is under way on its worker thread.
    pub pending: bool,
    /// Whether it was reported that the revival is blocked.
    pub reported_blocked: bool,
}

/// What one scan of one tail asks for.
#[derive(Clone, Copy, Debug, PartialEq, Eq, Structural)]
pub enum ScanStep {
    /// A revival is under way: see what its worker says.
    PollRevival,
    /// Nothing.
    Nothing,
    /// Nothing but a note that the budget was refunded.
    BudgetRefunded,
    /// Cancel the tail's I/O.
    CancelIo { stalled_secs: u64 },
    /// Correct the phase and start a revival.
    LaunchRevival,
    /// Correct the phase and stop supervising the tail.
    GiveUp,
}

/// What a revival's worker says.
#[derive(Clone, Copy, Debug, PartialEq, Eq, Structural)]
pub enum WorkerReport {
    /// It built a new tail.
    Revived,
    /// It failed.
    Failed,
    /// Nothing yet.
    Silent,
    /// It is gone without a word.
    Died,
}

/// What a poll of a revival asks for.
#[derive(Clone, Copy, Debug, PartialEq, Eq, Structural)]
pub enum PollStep {
    /// Put the new tail in the old one's place.
    ReplaceTail,
    /// Leave the old tail; a later scan tries again while budget lasts.
    RetryLater,
    /// Say that the revival is blocked, and cancel the worker's I/O.
    WarnAndCancel,
    /// Cancel the worker's I/O.
    Cancel,
}

impl Supervised {
    /// A tail that was never revived.
    pub fn new() -> (s: Supervised)
        ensures
            s.wf(),
            s.revive_attempts == 0,
            s.beating_since is None,
            !s.pending,
            !s.reported_blocked,
    {
        Supervised { revive_attempts: 0, beating_since: None, pending: false, reported_blocked: false }
    }

    /// The budget is kept to.
    pub open spec fn wf(&self) -> bool {
        self.revive_attempts <= MAX_REVIVES
    }

    /// The start of the run of healthy looks, after one more look. A tail that
    /// was never revived needs none.
    pub open spec fn run_after(&self, pulse: Pulse, live: bool, now_secs: u64, now_ms: u64) -> Option<
        u64,
    > {
        if self.revive_attempts == 0 {
            self.beating_since
        } else if !healthy(pulse, live, now_secs) {
            None
        } else if self.beating_since is Some {
            self.beating_since
        } else {
            Some(now_ms)
        }
    }

    /// The run is long enough for a refund.
    pub open spec fn proven(run: Option<u64>, now_ms: u64) -> bool {
        run is Some && elapsed(now_ms, run->0) >= HEALTHY_AFTER * 1000
    }

    /// What one scan of the tail comes to. A revival is charged for when it is
    /// launched, whatever becomes of it.
    pub open spec fn after_scan(self, pulse: Pulse, live: bool, now_secs: u64, now_ms: u64) -> (
        Supervised,
        ScanStep,
    ) {
        if self.pending {
            (self, ScanStep::PollRevival)
        } else {
            let run = self.run_after(pulse, live, now_secs, now_ms);
            let looked = Supervised { beating_since: run, ..self };
            match verdict(
                pulse,
                now_secs,
                self.revive_attempts,
                Supervised::proven(run, now_ms),
            ) {
                Action::Nothing => (looked, ScanStep::Nothing),
                Action::ResetBudget => (
                    Supervised { revive_attempts: 0, beating_since: None, ..looked },
                    ScanStep::BudgetRefunded,
                ),
                Action::CancelIo { stalled_secs } => (looked, ScanStep::CancelIo { stalled_secs }),
                Action::Revive => (
                    Supervised {
                        revive_attempts: (looked.revive_attempts + 1) as u32,
                        beating_since: None,
                        ..looked
                    },
                    ScanStep::LaunchRevival,
                ),
                Action::GiveUp => (looked, ScanStep::GiveUp),
            }
        }
    }

    /// One scan of the tail.
    pub fn scan(&mut self, pulse: Pulse, live: bool, now_secs: u64, now_ms: u64) -> (step: ScanStep)
        requires
            old(self).wf(),
        ensures
            final(self).wf(),
            (*final(self), step) == old(self).after_scan(pulse, live, now_secs, now_ms),
    {
        if self.pending {
            return ScanStep::PollRevival;
        }
        if self.revive_attempts > 0 {
            self.beating_since = accrue_health(self.beating_since, pulse, live, now_secs, now_ms);
        }
        let proven_healthy = match self.beating_since {
            Some(at) => since(now_ms, at) >= HEALTHY_AFTER * 1000,
            None => false,
        };
        match assess(pulse, now_secs, self.revive_attempts, proven_healthy) {
            Action::Nothing => ScanStep::Nothing,
            Action::ResetBudget => {
                self.revive_attempts = 0;
                self.beating_since = None;
                ScanStep::BudgetRefunded
            },
            Action::CancelIo { stalled_secs } => ScanStep::CancelIo { stalled_secs },
            Action::Revive => {
                self.revive_attempts = self.revive_attempts + 1;
                self.beating_since = None;
                ScanStep::LaunchRevival
            },
            Action::GiveUp => ScanStep::GiveUp,
        }
    }

    /// A revival whose worker is running.
    pub open spec fn under_way(self) -> Supervised {
        Supervised { pending: true, reported_blocked: false, ..self }
    }

    /// What a poll of a revival comes to.
    pub open spec fn after_poll(self, report: WorkerReport) -> (Supervised, PollStep) {
        match report {
            WorkerReport::Revived => (
                Supervised { pending: false, ..self },
                PollStep::ReplaceTail,
            ),
            WorkerReport::Failed => (Supervised { pending: false, ..self }, PollStep::RetryLater),
            WorkerReport::Died => (Supervised { pending: false, ..self }, PollStep::RetryLater),
            WorkerReport::Silent => (
                Supervised { reported_blocked: true, ..self },
                if self.reported_blocked {
                    PollStep::Cancel
                } else {
                    PollStep::WarnAndCancel
                },
            ),
        }
    }

    /// The revival's worker is running.
    pub fn revival_started(&mut self)
        requires
            old(self).wf(),
        ensures
            final(self).wf(),
            *final(self) == old(self).under_way(),
    {
        self.pending = true;
        self.reported_blocked = false;
    }

    /// One poll of a revival under way. Its first comes a scan interval after
    /// the launch; a worker still silent then is presumed blocked.
    pub fn poll_revival(&mut self, report: WorkerReport) -> (step: PollStep)
        requires
            old(self).wf(),
            old(self).pending,
        ensures
            final(self).wf(),
            (*final(self), step) == old(self).after_poll(report),
    {
        match report {
            WorkerReport::Revived => {
                self.pending = false;
                PollStep::ReplaceTail
            },
            WorkerReport::Failed => {
                self.pending = false;
                PollStep::RetryLater
            },
            WorkerReport::Died => {
                self.pending = false;
                PollStep::RetryLater
            },
            WorkerReport::Silent => {
                if self.reported_blocked {
                    PollStep::Cancel
                } else {
                    self.reported_blocked = true;
                    PollStep::WarnAndCancel
                }
            },
        }
    }
}

/// Something that happens to a supervised tail.
pub enum TailEvent {
    /// A scan looks at it.
    Scan { pulse: Pulse, live: bool, now_secs: u64, now_ms: u64 },
    /// The worker of a revival is running.
    Started,
    /// The worker of a revival is polled.
    Polled(WorkerReport),
}

impl Supervised {
    /// Where an event leads to.
    pub open spec fn after_event(self, event: TailEvent) -> Supervised {
        match event {
            TailEvent::Scan { pulse, live, now_secs, now_ms } => self.after_scan(
                pulse,
                live,
                now_secs,
                now_ms,
            ).0,
            TailEvent::Started => self.under_way(),
            TailEvent::Polled(report) => self.after_poll(report).0,
        }
    }

    /// The event is a scan that comes to `step`.
    pub open spec fn comes_to(self, event: TailEvent, step: ScanStep) -> bool {
        match event {
            TailEvent::Scan { pulse, live, now_secs, now_ms } => self.after_scan(
                pulse,
                live,
                now_secs,
                now_ms,
            ).1 == step,
            _ => false,
        }
    }
}

/// How many scans among the events come to `step`.
pub open spec fn times(s: Supervised, events: Seq<TailEvent>, step: ScanStep) -> nat
    decreases events.len(),
{
    if events.len() == 0 {
        0
    } else {
        times(s.after_event(events[0]), events.drop_first(), step) + if s.comes_to(
            events[0],
            step,
        ) {
            1nat
        } else {
            0
        }
    }
}

/// Revivals keep to their budget: whatever happens, there are at most
/// [`MAX_REVIVES`] of them, and as many more for each time that proven health
/// refunds the budget.
pub proof fn law_revivals_are_bounded(s: Supervised, events: Seq<TailEvent>)
    requires
        s.wf(),
    ensures
        times(s, events, ScanStep::LaunchRevival) + s.revive_attempts <= MAX_REVIVES * (1 + times(
            s,
            events,
            ScanStep::BudgetRefunded,
        )),
    decreases events.len(),
{
    if events.len() > 0 {
        let next = s.after_event(events[0]);
        law_revivals_are_bounded(next, events.drop_first());
    }
}

/// The phase of a volume whose tail is about to be revived. Every deliberate
/// exit sets an honest phase itself; one that still claims to track is left by
/// a panic, and must not stay up while the revival is under way.
pub fn phase_at_revival(phase: VolumePhase) -> (corrected: VolumePhase)
    ensures
        corrected == if phase.claims_tracking() {
            VolumePhase::Offline
        } else {
            phase
        },
        !corrected.claims_tracking(),
{
    match phase {
        VolumePhase::Live => VolumePhase::Offline,
        VolumePhase::Rescanning => VolumePhase::Offline,
        other => other,
    }
}

/// The phase of a volume whose tail is given up on.
pub fn phase_at_give_up(phase: VolumePhase) -> (corrected: VolumePhase)
    ensures
        !corrected.claims_tracking(),
        phase.claims_tracking() ==> corrected is Failed && corrected->reason@
            == "tail thread kept dying; live updates stopped"@,
        !phase.claims_tracking() ==> corrected == phase,
{
    match phase {
        VolumePhase::Live | VolumePhase::Rescanning => VolumePhase::Failed {
            reason: "tail thread kept dying; live updates stopped".to_string(),
        },
        other => other,
    }
}

/// What a round of a teardown asks for.
#[derive(Clone, Copy, Debug, PartialEq, Eq, Structural)]
pub enum TeardownStep {
    /// Every tail has exited.
    Done,
    /// Time is up: leave what still runs to the end of the process.
    Abandon,
    /// Sleep for one poll.
    Wait,
    /// Cancel the I/O of every tail left, then sleep for one poll.
    CancelAndWait,
}

/// Decides a round of a teardown, once the tails that exited are joined. The
/// first round leaves the tails a poll of grace; a thread in a pending read
/// never sees its stop flag, so from the second on their I/O is cancelled.
pub fn teardown_step(left: usize, elapsed_ms: u64, first_round: bool) -> (step: TeardownStep)
    ensures
        step == if left == 0 {
            TeardownStep::Done
        } else if elapsed_ms >= TEARDOWN_WAIT_MS {
            TeardownStep::Abandon
        } else if first_round {
            TeardownStep::Wait
        } else {
            TeardownStep::CancelAndWait
        },
{
    if left == 0 {
        TeardownStep::Done
    } else if elapsed_ms >= TEARDOWN_WAIT_MS {
        TeardownStep::Abandon
    } else if first_round {
        TeardownStep::Wait
    } else {
        TeardownStep::CancelAndWait
    }
}

/// Decides a round of the wait for the supervisor thread.
pub fn join_step(finished: bool, elapsed_ms: u64) -> (step: TeardownStep)
    ensures
        step == if finished {
            TeardownStep::Done
        } else if elapsed_ms >= SUPERVISOR_JOIN_WAIT_MS {
            TeardownStep::Abandon
        } else {
            TeardownStep::CancelAndWait
        },
{
    if finished {
        TeardownStep::Done
    } else if elapsed_ms >= SUPERVISOR_JOIN_WAIT_MS {
        TeardownStep::Abandon
    } else {
        TeardownStep::CancelAndWait
    }
}

/// How long the next revival in flight is waited for at a teardown: what is
/// left of the time they share.
pub fn drain_grace_ms(elapsed_ms: u64) -> (grace: u64)
    ensures
        grace <= PENDING_DRAIN_WAIT_MS,
        elapsed_ms + grace == PENDING_DRAIN_WAIT_MS || (grace == 0 && elapsed_ms
            >= PENDING_DRAIN_WAIT_MS),
{
    if elapsed_ms < PENDING_DRAIN_WAIT_MS {
        PENDING_DRAIN_WAIT_MS - elapsed_ms
    } else {
        0
    }
}

/// A tail that exited is revived or given up on, never cancelled.
pub proof fn law_retired_is_never_cancelled(now: u64, attempts: u32, proven: bool)
    ensures
        verdict(Pulse::Retired, now, attempts, proven) !is CancelIo,
        verdict(Pulse::Retired, now, attempts, proven) is Revive <==> attempts < MAX_REVIVES,
{
}

/// A clock that goes back never gets a tail cancelled.
pub proof fn law_backwards_clock_never_cancels(at: u64, now: u64, attempts: u32, proven: bool)
    requires
        now <= at,
    ensures
        verdict(Pulse::Beat(at), now, attempts, proven) !is CancelIo,
        verdict(Pulse::Busy(at), now, attempts, proven) !is CancelIo,
{
}

/// A tail whose pulse is as old as its longest backoff and two scan intervals
/// is not taken for wedged.
pub proof fn law_backoff_is_no_stall(at: u64, now: u64, attempts: u32, proven: bool)
    requires
        at <= now,
        (now - at) * 1000 <= super::tail::RETRY_BACKOFF_MAX_MS + 2 * SCAN_INTERVAL * 1000,
    ensures
        verdict(Pulse::Beat(at), now, attempts, proven) !is CancelIo,
{
}

/// A refund takes a run of healthy looks as long as [`HEALTHY_AFTER`], the last
/// of them this one.
pub proof fn law_refund_takes_proven_health(
    s: Supervised,
    pulse: Pulse,
    live: bool,
    now_secs: u64,
    now_ms: u64,
)
    requires
        verdict(
            pulse,
            now_secs,
            s.revive_attempts,
            Supervised::proven(s.run_after(pulse, live, now_secs, now_ms), now_ms),
        ) == Action::ResetBudget,
    ensures
        healthy(pulse, live, now_secs),
        s.beating_since is Some,
        elapsed(now_ms, s.beating_since->0) >= HEALTHY_AFTER * 1000,
{
}

/// What one look at a tail decides, by its age: a tail whose loop turns is left
/// alone until its last beat is five minutes old, one in a long operation until
/// that has taken half an hour, and then its I/O is cancelled; one that exited
/// is revived three times, and then given up on.
pub proof fn law_ages_decide(at: u64, now: u64, attempts: u32, proven: bool)
    requires
        at <= now,
    ensures
        verdict(Pulse::Beat(at), now, attempts, proven) == if now - at >= 300 {
            Action::CancelIo { stalled_secs: (now - at) as u64 }
        } else if attempts > 0 && proven {
            Action::ResetBudget
        } else {
            Action::Nothing
        },
        verdict(Pulse::Busy(at), now, attempts, proven) == if now - at >= 1800 {
            Action::CancelIo { stalled_secs: (now - at) as u64 }
        } else {
            Action::Nothing
        },
        verdict(Pulse::Retired, now, attempts, proven) == if attempts < 3 {
            Action::Revive
        } else {
            Action::GiveUp
        },
{
}

/// What a scan asks for and what it changes. While a revival is under way it
/// only asks after it. A revival that is launched is charged for; one that is
/// given up on is not. Only proven health forgives the charges.
pub proof fn law_scan_keeps_account(
    s: Supervised,
    pulse: Pulse,
    live: bool,
    now_secs: u64,
    now_ms: u64,
)
    requires
        s.wf(),
    ensures
        ({
            let (t, step) = s.after_scan(pulse, live, now_secs, now_ms);
            &&& s.pending ==> t == s && step is PollRevival
            &&& !s.pending ==> step !is PollRevival
            &&& t.pending == s.pending
            &&& t.reported_blocked == s.reported_blocked
            &&& t.revive_attempts == match step {
                ScanStep::LaunchRevival => s.revive_attempts + 1,
                ScanStep::BudgetRefunded => 0,
                _ => s.revive_attempts as int,
            }
            &&& step is LaunchRevival ==> pulse is Retired
            &&& step is GiveUp ==> pulse is Retired && s.revive_attempts == 3
            &&& !s.pending && pulse is Retired ==> step is LaunchRevival || step is GiveUp
            &&& step is BudgetRefunded ==> s.revive_attempts > 0 && live && pulse is Beat
                && s.beating_since is Some && now_ms - s.beating_since->0 >= 600000
            &&& step is CancelIo ==> pulse is Beat || pulse is Busy
        }),
{
}

/// A run of health begins with the first fresh beat of a live volume, goes on
/// while each look finds one, and ends with the first that does not.
pub proof fn law_health_takes_every_look(
    s: Supervised,
    pulse: Pulse,
    live: bool,
    now_secs: u64,
    now_ms: u64,
)
    requires
        s.revive_attempts > 0,
    ensures
        ({
            let run = s.run_after(pulse, live, now_secs, now_ms);
            let fresh = live && pulse is Beat && (now_secs < pulse->Beat_0 || now_secs
                - pulse->Beat_0 < 60);
            &&& run is Some <==> fresh
            &&& fresh && s.beating_since is Some ==> run == s.beating_since
            &&& fresh && s.beating_since is None ==> run == Some(now_ms)
        }),
{
}

/// What a worker's word does: its tail is put in place where it has one, else
/// the revival is over and may be tried again; a silent one is told of once,
/// and its I/O cancelled every time.
pub proof fn law_worker_is_heard(s: Supervised, report: WorkerReport)
    ensures
        ({
            let (t, step) = s.after_poll(report);
            &&& t.revive_attempts == s.revive_attempts
            &&& t.beating_since == s.beating_since
            &&& report is Revived ==> step is ReplaceTail && !t.pending
            &&& report is Failed || report is Died ==> step is RetryLater && !t.pending
            &&& report is Silent ==> t.pending == s.pending && t.reported_blocked && (step
                is WarnAndCancel <==> !s.reported_blocked) && (step is Cancel
                <==> s.reported_blocked)
        }),
{
}

} // verus!
