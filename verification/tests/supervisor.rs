//! The supervisor's decisions.

use goz::daemon::pulse::Pulse;
use goz::daemon::supervisor::{
    accrue_health, assess, drain_grace_ms, join_step, phase_at_give_up, phase_at_revival,
    teardown_step, Action, PollStep, ScanStep, Supervised, TeardownStep, WorkerReport, BEAT_FRESH,
    BEAT_STALL, BUSY_STALL, HEALTHY_AFTER, MAX_REVIVES, PENDING_DRAIN_WAIT_MS, SCAN_INTERVAL,
    SUPERVISOR_JOIN_WAIT_MS, TEARDOWN_WAIT_MS,
};
use goz::daemon::tail::RETRY_BACKOFF_MAX_MS;
use goz::types::VolumePhase;
use std::time::{Duration, Instant};

const NOW: u64 = 1_752_800_000;

fn beat_ago(secs: u64) -> Pulse {
    Pulse::Beat(NOW - secs)
}

fn busy_for(secs: u64) -> Pulse {
    Pulse::Busy(NOW - secs)
}

#[test]
fn assess_decides_by_pulse_state() {
    assert_eq!(assess(beat_ago(0), NOW, 0, false), Action::Nothing);
    let edge = BEAT_STALL - 1;
    assert_eq!(assess(beat_ago(edge), NOW, 0, false), Action::Nothing);
    let past = BEAT_STALL;
    assert_eq!(
        assess(beat_ago(past), NOW, 0, false),
        Action::CancelIo { stalled_secs: past }
    );
    assert_eq!(assess(busy_for(past), NOW, 0, false), Action::Nothing);
    let long = BUSY_STALL;
    assert_eq!(
        assess(busy_for(long), NOW, 0, false),
        Action::CancelIo { stalled_secs: long }
    );
    assert_eq!(assess(Pulse::Retired, NOW, 0, false), Action::Revive);
    assert_eq!(assess(Pulse::Retired, NOW, MAX_REVIVES - 1, false), Action::Revive);
    assert_eq!(assess(Pulse::Retired, NOW, MAX_REVIVES, false), Action::GiveUp);
}

#[test]
fn budget_refund_requires_a_proven_healthy_beat() {
    assert_eq!(assess(beat_ago(0), NOW, 1, true), Action::ResetBudget);
    assert_eq!(assess(beat_ago(0), NOW, 0, true), Action::Nothing);
    assert_eq!(assess(beat_ago(0), NOW, 1, false), Action::Nothing);
    assert_eq!(assess(busy_for(0), NOW, 1, true), Action::Nothing);
    let past = BEAT_STALL;
    assert_eq!(
        assess(beat_ago(past), NOW, 1, true),
        Action::CancelIo { stalled_secs: past }
    );
}

#[test]
fn health_accrues_only_on_fresh_live_beats() {
    let t0 = Instant::now();
    let started = accrue_health(None, beat_ago(0), true, NOW, t0);
    assert_eq!(started, Some(t0));
    assert_eq!(
        accrue_health(started, beat_ago(0), true, NOW, Instant::now()),
        Some(t0)
    );
    assert_eq!(accrue_health(started, beat_ago(0), false, NOW, t0), None);
    let stale = BEAT_FRESH;
    assert_eq!(accrue_health(started, beat_ago(stale), true, NOW, t0), None);
    assert_eq!(accrue_health(started, busy_for(0), true, NOW, t0), None);
    assert_eq!(accrue_health(started, Pulse::Retired, true, NOW, t0), None);
}

#[test]
fn a_backwards_clock_never_cancels() {
    assert_eq!(assess(Pulse::Beat(NOW + 600), NOW, 0, false), Action::Nothing);
    assert_eq!(assess(Pulse::Busy(NOW + 600), NOW, 0, false), Action::Nothing);
}

#[test]
fn beat_stall_tolerates_a_full_backoff_sleep() {
    let scan = Duration::from_secs(SCAN_INTERVAL);
    assert!(
        Duration::from_secs(BEAT_STALL) >= Duration::from_millis(RETRY_BACKOFF_MAX_MS) + scan + scan,
        "a tail sleeping out its backoff must never look stalled"
    );
    assert!(BUSY_STALL > BEAT_STALL);
    assert!(BEAT_FRESH >= SCAN_INTERVAL);
    assert!(BEAT_FRESH < BEAT_STALL);
    assert!(SUPERVISOR_JOIN_WAIT_MS >= TEARDOWN_WAIT_MS + PENDING_DRAIN_WAIT_MS + TEARDOWN_WAIT_MS);
    assert!(MAX_REVIVES > 0);
}

#[test]
fn a_tail_that_keeps_dying_is_given_up_on() {
    let mut s = Supervised::new();
    for attempt in 1..=MAX_REVIVES {
        assert_eq!(s.scan(Pulse::Retired, false, NOW, 0), ScanStep::LaunchRevival);
        assert_eq!(s.revive_attempts, attempt);
        s.revival_started();
        assert_eq!(s.scan(Pulse::Retired, false, NOW, 0), ScanStep::PollRevival);
        assert_eq!(s.poll_revival(WorkerReport::Failed), PollStep::RetryLater);
    }
    assert_eq!(s.scan(Pulse::Retired, false, NOW, 0), ScanStep::GiveUp);
}

#[test]
fn health_refunds_the_budget_and_a_break_does_not() {
    let mut s = Supervised::new();
    s.scan(Pulse::Retired, false, NOW, 0);
    s.revival_started();
    assert_eq!(s.poll_revival(WorkerReport::Revived), PollStep::ReplaceTail);
    assert_eq!(s.scan(beat_ago(0), true, NOW, 1000), ScanStep::Nothing);
    assert_eq!(s.beating_since, Some(1000));
    let due = 1000 + HEALTHY_AFTER * 1000;
    assert_eq!(s.scan(beat_ago(0), true, NOW, due - 1), ScanStep::Nothing);
    let mut broken = s;
    assert_eq!(broken.scan(beat_ago(0), false, NOW, due), ScanStep::Nothing);
    assert_eq!(broken.beating_since, None);
    assert_eq!(broken.revive_attempts, 1);
    assert_eq!(s.scan(beat_ago(0), true, NOW, due), ScanStep::BudgetRefunded);
    assert_eq!(s, Supervised::new());
}

#[test]
fn a_silent_worker_is_warned_about_once_and_cancelled_each_time() {
    let mut s = Supervised::new();
    s.scan(Pulse::Retired, false, NOW, 0);
    s.revival_started();
    assert_eq!(s.poll_revival(WorkerReport::Silent), PollStep::WarnAndCancel);
    assert_eq!(s.poll_revival(WorkerReport::Silent), PollStep::Cancel);
    assert_eq!(s.poll_revival(WorkerReport::Died), PollStep::RetryLater);
    assert!(!s.pending);
}

#[test]
fn a_phase_that_claims_tracking_is_corrected() {
    assert!(matches!(phase_at_revival(VolumePhase::Live), VolumePhase::Offline));
    assert!(matches!(phase_at_revival(VolumePhase::Rescanning), VolumePhase::Offline));
    assert!(matches!(phase_at_revival(VolumePhase::Snapshot), VolumePhase::Snapshot));
    match phase_at_give_up(VolumePhase::Live) {
        VolumePhase::Failed { reason } => {
            assert_eq!(reason, "tail thread kept dying; live updates stopped");
        }
        other => panic!("{other:?}"),
    }
    match phase_at_give_up(VolumePhase::Failed { reason: "disk gone".to_string() }) {
        VolumePhase::Failed { reason } => assert_eq!(reason, "disk gone"),
        other => panic!("{other:?}"),
    }
}

#[test]
fn a_teardown_is_patient_then_cancels_then_abandons() {
    assert_eq!(teardown_step(0, 9_999, true), TeardownStep::Done);
    assert_eq!(teardown_step(2, 0, true), TeardownStep::Wait);
    assert_eq!(teardown_step(2, 250, false), TeardownStep::CancelAndWait);
    assert_eq!(teardown_step(1, TEARDOWN_WAIT_MS, false), TeardownStep::Abandon);
    assert_eq!(join_step(true, 99_999), TeardownStep::Done);
    assert_eq!(join_step(false, 0), TeardownStep::CancelAndWait);
    assert_eq!(join_step(false, SUPERVISOR_JOIN_WAIT_MS), TeardownStep::Abandon);
    assert_eq!(drain_grace_ms(0), 3000);
    assert_eq!(drain_grace_ms(2999), 1);
    assert_eq!(drain_grace_ms(3001), 0);
}
