//! The daemon as a service, the set of volumes it starts with, and what Windows
//! calls mean.

use goz::daemon::fleet::{
    failed_volume, indexed_volume, phase_after_start, pins_working_set, total_entries,
    volume_states, FailedVolume, TailStart,
};
use goz::daemon::service::{
    final_report, install_step, keep_waiting, needs_start, needs_stop, on_control, open_step,
    restart_delays, started, status_line, CallResult, Control, ControlStep, EngineNews, ExitCode,
    InstallStep, OpenStep, ServiceState, StartStep, Starting, STOP_POLLS,
};
use goz::daemon::status::all_volumes_live;
use goz::index::{FrnMap, VolumeIndex, NTFS_ROOT_FRN};
use goz::types::{Frn, VolumePhase};
use goz::winfs::{cancel_outcome, duplicate_outcome};

#[test]
fn installing_twice_refreshes() {
    assert_eq!(install_step(CallResult::Done), InstallStep::Created);
    assert_eq!(install_step(CallResult::Failed(Some(1073))), InstallStep::Refresh);
    assert_eq!(install_step(CallResult::Failed(Some(5))), InstallStep::Fail);
    assert_eq!(install_step(CallResult::Failed(None)), InstallStep::Fail);
}

#[test]
fn a_service_that_is_not_there_is_no_error() {
    assert_eq!(open_step(CallResult::Done), OpenStep::Opened);
    assert_eq!(open_step(CallResult::Failed(Some(1060))), OpenStep::NotInstalled);
    assert_eq!(open_step(CallResult::Failed(Some(5))), OpenStep::Fail);
    assert_eq!(open_step(CallResult::Failed(None)), OpenStep::Fail);
    assert_eq!(status_line(None), "goz service: NotInstalled");
    assert_eq!(status_line(Some(ServiceState::Running)), "goz service: Running");
}

#[test]
fn a_service_is_started_unless_it_is_up() {
    assert!(!needs_start(Some(ServiceState::Running)));
    assert!(!needs_start(Some(ServiceState::StartPending)));
    assert!(needs_start(Some(ServiceState::Stopped)));
    assert!(needs_start(None));
    assert!(started(CallResult::Done));
    assert!(started(CallResult::Failed(Some(1056))));
    assert!(!started(CallResult::Failed(Some(1))));
    assert!(!started(CallResult::Failed(None)));
}

#[test]
fn a_service_is_stopped_before_it_is_deleted() {
    assert!(needs_stop(Some(ServiceState::Running)));
    assert!(!needs_stop(Some(ServiceState::Stopped)));
    assert!(!needs_stop(None));
    assert!(keep_waiting(0, Some(ServiceState::StopPending)));
    assert!(!keep_waiting(STOP_POLLS, Some(ServiceState::StopPending)));
    assert!(!keep_waiting(0, Some(ServiceState::Stopped)));
    assert!(!keep_waiting(0, None));
    assert_eq!(restart_delays(), [5, 30, 60]);
}

#[test]
fn a_start_goes_up_checkpoint_by_checkpoint() {
    let (mut start, first) = Starting::begin();
    assert_eq!(first.state, ServiceState::StartPending);
    assert_eq!(first.checkpoint, 1);
    assert_eq!(first.wait_hint_secs, 4);
    for n in 2..5 {
        match start.on_news(&EngineNews::Silence) {
            StartStep::Wait(r) => {
                assert_eq!(r.checkpoint, n);
                assert!(!r.accepts_stop);
            }
            _ => panic!("must wait"),
        }
    }
    match start.on_news(&EngineNews::Ready) {
        StartStep::Run(r) => {
            assert_eq!(r.state, ServiceState::Running);
            assert!(r.accepts_stop);
        }
        _ => panic!("must run"),
    }
    assert_eq!(final_report().exit_code, ExitCode::Win32(0));
    assert_eq!(final_report().state, ServiceState::Stopped);
}

#[test]
fn a_failed_start_says_why() {
    let (mut start, _) = Starting::begin();
    match start.on_news(&EngineNews::Failed("no volumes".to_string())) {
        StartStep::Fail(r, why) => {
            assert_eq!(r.exit_code, ExitCode::ServiceSpecific(1));
            assert_eq!(why, "no volumes");
        }
        _ => panic!("must fail"),
    }
    match start.on_news(&EngineNews::Gone) {
        StartStep::Fail(_, why) => {
            assert_eq!(why, "engine thread exited before signalling ready")
        }
        _ => panic!("must fail"),
    }
}

#[test]
fn controls_are_answered() {
    for control in [Control::Stop, Control::Shutdown] {
        match on_control(control) {
            ControlStep::Stop(r) => {
                assert_eq!(r.state, ServiceState::StopPending);
                assert_eq!(r.wait_hint_secs, 10);
            }
            other => panic!("got {other:?}"),
        }
    }
    assert_eq!(on_control(Control::Interrogate), ControlStep::Acknowledge);
    assert_eq!(on_control(Control::Other), ControlStep::NotImplemented);
}

#[test]
fn no_volume_is_left_out_of_the_set() {
    let failed = |guid: &str| FailedVolume {
        guid: guid.to_string(),
        mounts: vec![],
        reason: "locked".to_string(),
    };
    let indexed = |guid: &str| {
        let index = VolumeIndex::new(Frn(NTFS_ROOT_FRN), FrnMap::sparse());
        (guid.to_string(), vec![], index)
    };
    let states = volume_states(
        vec![failed("a"), failed("b")],
        vec![indexed("c"), indexed("d"), indexed("e")],
    );
    let guids: Vec<&str> = states.iter().map(|s| s.guid.as_str()).collect();
    assert_eq!(guids, ["a", "b", "c", "d", "e"]);
    assert!(matches!(states[1].phase, VolumePhase::Failed { .. }));
    assert!(matches!(states[2].phase, VolumePhase::Live));
    assert_eq!(states[1].index.memory().frn_map_kind, "sparse");
    assert_eq!(states[2].index.memory().frn_map_kind, "dense");
    assert!(volume_states(vec![], vec![]).is_empty());
}

#[test]
fn a_volume_that_could_not_be_indexed_is_in_the_set() {
    let index = VolumeIndex::new(Frn(NTFS_ROOT_FRN), FrnMap::sparse());
    let good = indexed_volume("g".to_string(), vec![r"C:\".to_string()], index);
    let bad = failed_volume(FailedVolume {
        guid: "b".to_string(),
        mounts: vec![],
        reason: "locked".to_string(),
    });
    assert!(matches!(&bad.phase, VolumePhase::Failed { reason } if reason == "locked"));
    assert_eq!(bad.index.len(), 0);
    assert_eq!(bad.mount_prefix(), "b");
    let mut set = vec![good];
    assert!(all_volumes_live(&set));
    set.push(bad);
    assert!(!all_volumes_live(&set));
}

#[test]
fn a_volume_starts_live_offline_or_as_a_snapshot() {
    assert!(matches!(phase_after_start(TailStart::Running), VolumePhase::Live));
    assert!(matches!(phase_after_start(TailStart::Failed), VolumePhase::Offline));
    assert!(matches!(phase_after_start(TailStart::NoJournal), VolumePhase::Snapshot));
}

#[test]
fn totals_and_settings() {
    assert_eq!(total_entries(&vec![]), 0);
    assert_eq!(total_entries(&vec![3, 4]), 7);
    assert_eq!(total_entries(&vec![usize::MAX, 4]), usize::MAX);
    assert!(pins_working_set(&Some("1".to_string())));
    assert!(!pins_working_set(&Some("true".to_string())));
    assert!(!pins_working_set(&None));
}

#[test]
fn a_cancel_that_finds_nothing_is_no_error() {
    assert!(cancel_outcome(true, 0).unwrap());
    assert!(!cancel_outcome(false, 1168).unwrap());
    let e = cancel_outcome(false, 6).unwrap_err();
    assert_eq!((e.code, e.context), (6, "CancelSynchronousIo"));
    assert!(duplicate_outcome(true, 0).is_ok());
    let e = duplicate_outcome(false, 5).unwrap_err();
    assert_eq!((e.code, e.context), (5, "DuplicateHandle(GetCurrentThread)"));
}
