//! The tail's decisions.

use goz::daemon::tail::{
    DEGRADE_AFTER_MS, ESCALATE_AFTER_MS, REASON_MASK, RETRY_BACKOFF_MAX_MS, RETRY_BACKOFF_MIN_MS,
};
use goz::types::Frn;
use goz::usn::record::{ops_for, IndexOp, ParsedUsnRecord, USN_REASON_CLOSE};
use std::time::Duration;

fn record_with(reason: u32) -> ParsedUsnRecord {
    ParsedUsnRecord {
        major_version: 2,
        frn: Frn(42),
        parent_frn: Frn(5),
        usn: 0,
        timestamp_ft: 0,
        reason,
        attributes: 0,
        name: b"f.txt".to_vec(),
        name_lossy: false,
    }
}

#[test]
fn reason_mask_covers_every_bit_that_drives_an_index_op() {
    for pos in 0..32 {
        let bit = 1u32 << pos;
        let ops = ops_for(&record_with(bit));
        if !ops.is_empty() {
            assert_ne!(
                REASON_MASK & bit,
                0,
                "reason bit {bit:#010x} yields {ops:?}, but the mask omits it"
            );
        }
    }
}

#[test]
fn retry_policy_is_bounded_and_degrades() {
    let degrade_after = Duration::from_millis(DEGRADE_AFTER_MS);
    let escalate_after = Duration::from_millis(ESCALATE_AFTER_MS);
    let backoff_min = Duration::from_millis(RETRY_BACKOFF_MIN_MS);
    let backoff_max = Duration::from_millis(RETRY_BACKOFF_MAX_MS);
    assert!(
        degrade_after >= Duration::from_secs(1),
        "degrading on the first failure would flap on every spin-up"
    );
    assert!(
        degrade_after <= Duration::from_secs(30),
        "a volume that stopped tracking must be reported promptly"
    );
    assert!(backoff_max > backoff_min);
    assert!(backoff_min <= Duration::from_secs(1));
    assert!(escalate_after > degrade_after);
    assert!(escalate_after >= Duration::from_secs(20));
    assert!(escalate_after <= Duration::from_secs(120));
}

#[test]
fn close_is_requested_even_though_it_drives_no_op_alone() {
    assert!(ops_for(&record_with(USN_REASON_CLOSE)).is_empty());
    assert_ne!(REASON_MASK & USN_REASON_CLOSE, 0);
}

#[test]
fn reasons_become_ops_in_order() {
    assert_eq!(ops_for(&record_with(0x100)), vec![IndexOp::AddName, IndexOp::Stat]);
    assert_eq!(ops_for(&record_with(0x1000)), vec![IndexOp::RemoveName]);
    assert_eq!(ops_for(&record_with(0x8000_2000)), vec![IndexOp::AddName]);
    assert_eq!(ops_for(&record_with(0x1_0000)), vec![IndexOp::ReconcileLinks]);
    assert_eq!(ops_for(&record_with(0x8007)), vec![IndexOp::Stat]);
    assert_eq!(ops_for(&record_with(0x8001_3302)), vec![IndexOp::Delete]);
}
