//! Reading the journal, and what a tail makes of it.

use goz::daemon::enrich::{
    apply_links, apply_stats, dirty_files, judge_links, resolve_links, split_parent, FileStat,
    LinkBatch, LinkVerdict, LinkWalk,
};
use goz::daemon::tail::{
    install_index, next_nap, read_error, walk_outcome, ReadError, ReadOutcome, Rebuild, TailState,
    TailStep, MAX_RESCANS, RETRY_BACKOFF_MAX_MS, RETRY_BACKOFF_MIN_MS,
};
use goz::daemon::volume::ScopeCache;
use goz::index::{FrnMap, VolumeIndex, NTFS_ROOT_FRN};
use goz::types::{filetime_to_unix_ms, Frn, VolumePhase};
use goz::usn::record::{ParsedUsnRecord, FILE_ATTRIBUTE_DIRECTORY, USN_REASON_FILE_CREATE};
use goz::usn::walk::{walk_journal_buffer, WalkError};
use goz::usn::{JournalInfo, RescanReason};

fn cursor(next_usn: i64) -> JournalInfo {
    JournalInfo {
        journal_id: 7,
        first_usn: 0,
        next_usn,
        lowest_valid_usn: 0,
        max_usn: i64::MAX,
    }
}

fn started() -> (TailState, VolumePhase) {
    let mut phase = VolumePhase::Live;
    let (tail, step) = TailState::begin(Some(cursor(100)), &mut phase);
    assert_eq!(step, TailStep::Read);
    (tail, phase)
}

fn failed(e: ReadError) -> ReadOutcome {
    ReadOutcome::Failed(e)
}

fn reason(phase: &VolumePhase) -> &str {
    match phase {
        VolumePhase::Failed { reason } => reason,
        other => panic!("not failed: {other:?}"),
    }
}

#[test]
fn a_tail_goes_on_where_the_journal_says() {
    let (mut tail, mut phase) = started();
    let step = tail.on_read(ReadOutcome::Batch { next_usn: 150 }, 0, "", &mut phase);
    assert_eq!(step, TailStep::Apply);
    let step = tail.on_read(ReadOutcome::CaughtUp { next_usn: 160 }, 0, "", &mut phase);
    assert_eq!(step, TailStep::Idle);
    assert_eq!(tail.start_usn, 160);
    assert_eq!(tail.journal_id, 7);
    assert!(matches!(phase, VolumePhase::Live));
}

#[test]
fn a_passing_failure_costs_a_pause_and_no_phase() {
    let (mut tail, mut phase) = started();
    let step = tail.on_read(failed(ReadError::Other), 1000, "not ready", &mut phase);
    assert_eq!(step, TailStep::Retry { pause_ms: RETRY_BACKOFF_MIN_MS });
    assert!(matches!(phase, VolumePhase::Live));
    tail.on_read(ReadOutcome::CaughtUp { next_usn: 101 }, 1500, "", &mut phase);
    assert_eq!(tail.failing_since, None);
    assert_eq!(tail.backoff_ms, RETRY_BACKOFF_MIN_MS);
}

#[test]
fn reads_that_keep_failing_take_the_volume_offline_then_to_a_rescan() {
    let (mut tail, mut phase) = started();
    tail.on_read(failed(ReadError::Other), 0, "e", &mut phase);
    tail.on_read(failed(ReadError::Other), 4999, "e", &mut phase);
    assert!(matches!(phase, VolumePhase::Live));
    tail.on_read(failed(ReadError::Other), 5000, "e", &mut phase);
    assert!(matches!(phase, VolumePhase::Offline));
    let step = tail.on_read(failed(ReadError::Other), 30_000, "e", &mut phase);
    assert_eq!(step, TailStep::Rescan(RescanReason::ReadsKeptFailing));
    assert!(matches!(phase, VolumePhase::Rescanning));
}

#[test]
fn the_first_read_that_gets_through_brings_the_volume_back() {
    let (mut tail, mut phase) = started();
    tail.on_read(failed(ReadError::Other), 0, "e", &mut phase);
    tail.on_read(failed(ReadError::Other), 6000, "e", &mut phase);
    assert!(matches!(phase, VolumePhase::Offline));
    tail.on_read(ReadOutcome::CaughtUp { next_usn: 1 }, 6500, "", &mut phase);
    assert!(matches!(phase, VolumePhase::Live));
}

#[test]
fn pauses_grow_to_their_bound() {
    let (mut tail, mut phase) = started();
    let mut last = 0;
    for _ in 0..12 {
        match tail.on_read(failed(ReadError::Other), 10, "e", &mut phase) {
            TailStep::Retry { pause_ms } => {
                assert!(pause_ms >= last);
                last = pause_ms;
            }
            other => panic!("got {other:?}"),
        }
    }
    assert_eq!(last, RETRY_BACKOFF_MAX_MS);
}

#[test]
fn a_purged_position_leaves_the_streak_of_failures_as_it_is() {
    let (mut tail, mut phase) = started();
    tail.on_read(failed(ReadError::Other), 0, "e", &mut phase);
    tail.on_read(failed(ReadError::Other), 6000, "e", &mut phase);
    let step = tail.on_read(failed(ReadError::EntryDeleted), 7000, "gone", &mut phase);
    assert_eq!(step, TailStep::Rescan(RescanReason::EntryDeletedError));
    let end = Rebuild::Built(Some(cursor(500)));
    tail.on_rebuild(&end, RescanReason::EntryDeletedError, &mut phase);
    assert!(matches!(phase, VolumePhase::Live));
    assert_eq!(tail.start_usn, 500);
    assert_eq!(tail.failing_since, Some(0));
    assert_eq!(tail.backoff_ms, 4 * RETRY_BACKOFF_MIN_MS);
    // A volume that goes on failing is told at once, and in time rescanned.
    tail.on_read(failed(ReadError::Other), 8000, "e", &mut phase);
    assert!(matches!(phase, VolumePhase::Offline));
    let step = tail.on_read(failed(ReadError::Other), 31_000, "e", &mut phase);
    assert_eq!(step, TailStep::Rescan(RescanReason::ReadsKeptFailing));
}

#[test]
fn a_rescan_over_the_journal_itself_ends_the_streak_of_failures() {
    for (error, reason) in [
        (ReadError::NotActive, RescanReason::JournalNotActive),
        (ReadError::DeleteInProgress, RescanReason::JournalDeleteInProgress),
    ] {
        let (mut tail, mut phase) = started();
        tail.on_read(failed(ReadError::Other), 0, "e", &mut phase);
        tail.on_read(failed(ReadError::Other), 6000, "e", &mut phase);
        let step = tail.on_read(failed(error), 7000, "gone", &mut phase);
        assert_eq!(step, TailStep::Rescan(reason));
        tail.on_rebuild(&Rebuild::Built(Some(cursor(500))), reason, &mut phase);
        assert_eq!((tail.failing_since, tail.backoff_ms), (None, RETRY_BACKOFF_MIN_MS));
        tail.on_read(failed(ReadError::Other), 8000, "e", &mut phase);
        assert!(matches!(phase, VolumePhase::Live));
        tail.on_read(failed(ReadError::Other), 13_000, "e", &mut phase);
        assert!(matches!(phase, VolumePhase::Offline));
    }
}

#[test]
fn too_many_rescans_in_a_row_end_the_tail() {
    let (mut tail, mut phase) = started();
    for _ in 0..MAX_RESCANS {
        let step = tail.on_read(ReadOutcome::Corrupt, 0, "bad", &mut phase);
        assert_eq!(step, TailStep::Rescan(RescanReason::ParserAnomaly));
        let end = Rebuild::Built(Some(cursor(1)));
        assert_eq!(
            tail.on_rebuild(&end, RescanReason::ParserAnomaly, &mut phase),
            TailStep::Read
        );
    }
    let step = tail.on_read(ReadOutcome::Corrupt, 0, "bad", &mut phase);
    assert_eq!(step, TailStep::Exit);
    assert_eq!(reason(&phase), "ParserAnomaly: bad: too many rescans, giving up");
    assert_eq!(tail.rescans, MAX_RESCANS + 1, "the one refused is counted too");
}

#[test]
fn a_batch_in_between_refunds_the_rescans() {
    let (mut tail, mut phase) = started();
    for _ in 0..10 {
        let step = tail.on_read(failed(ReadError::NotActive), 0, "e", &mut phase);
        assert_eq!(step, TailStep::Rescan(RescanReason::JournalNotActive));
        let end = Rebuild::Built(Some(cursor(1)));
        tail.on_rebuild(&end, RescanReason::JournalNotActive, &mut phase);
        tail.on_read(ReadOutcome::Batch { next_usn: 2 }, 0, "", &mut phase);
    }
    let step = tail.on_read(failed(ReadError::DeleteInProgress), 0, "e", &mut phase);
    assert_eq!(step, TailStep::Rescan(RescanReason::JournalDeleteInProgress));
}

#[test]
fn a_revived_tail_rescans_first_and_free_of_charge() {
    let mut phase = VolumePhase::Offline;
    let (mut tail, step) = TailState::begin(None, &mut phase);
    assert_eq!(step, TailStep::Rescan(RescanReason::TailRevived));
    assert!(matches!(phase, VolumePhase::Rescanning));
    assert_eq!(tail.rescans, 0);
    let end = Rebuild::Built(Some(cursor(9)));
    tail.on_rebuild(&end, RescanReason::TailRevived, &mut phase);
    assert!(matches!(phase, VolumePhase::Live));
    assert_eq!(tail.rescans, 0);
}

#[test]
fn each_end_of_a_rescan_shows_in_the_phase() {
    let (mut tail, mut phase) = started();
    let end = Rebuild::Built(None);
    assert_eq!(
        tail.on_rebuild(&end, RescanReason::CursorPurged, &mut phase),
        TailStep::Exit
    );
    assert!(matches!(phase, VolumePhase::Offline));

    let end = Rebuild::Failed("disk".to_string());
    tail.on_rebuild(&end, RescanReason::CursorPurged, &mut phase);
    assert_eq!(reason(&phase), "CursorPurged: rescan rebuild failed: disk");

    let mut phase = VolumePhase::Rescanning;
    assert_eq!(
        tail.on_rebuild(&Rebuild::Aborted, RescanReason::CursorPurged, &mut phase),
        TailStep::Exit
    );
    assert!(matches!(phase, VolumePhase::Rescanning));
}

#[test]
fn error_codes_mean_what_they_mean() {
    assert_eq!(read_error(1181), ReadError::EntryDeleted);
    assert_eq!(read_error(1179), ReadError::NotActive);
    assert_eq!(read_error(1178), ReadError::DeleteInProgress);
    assert_eq!(read_error(87), ReadError::Other);
}

#[test]
fn a_pause_is_cut_into_naps() {
    assert_eq!(next_nap(0, 0), None);
    assert_eq!(next_nap(0, 500), Some(50));
    assert_eq!(next_nap(480, 500), Some(20));
    assert_eq!(next_nap(500, 500), None);
}

fn rec(frn: u64, parent: u64, name: &str, is_dir: bool) -> ParsedUsnRecord {
    ParsedUsnRecord {
        major_version: 2,
        frn: Frn(frn),
        parent_frn: Frn(parent),
        usn: 0,
        timestamp_ft: 0,
        reason: USN_REASON_FILE_CREATE,
        attributes: if is_dir { FILE_ATTRIBUTE_DIRECTORY } else { 0 },
        name: name.as_bytes().to_vec(),
        name_lossy: false,
    }
}

/// `docs\sub` and `docs\a.txt`.
fn sample() -> VolumeIndex {
    let mut index = VolumeIndex::new(Frn(NTFS_ROOT_FRN), FrnMap::sparse());
    index.insert_enum(&rec(10, NTFS_ROOT_FRN, "docs", true));
    index.insert_enum(&rec(11, 10, "sub", true));
    index.insert_enum(&rec(12, 10, "a.txt", false));
    index
}

fn wide(text: &str) -> Vec<u16> {
    text.encode_utf16().collect()
}

#[test]
fn a_rebuilt_index_takes_the_remembered_scope_with_the_old_one() {
    let mut index = sample();
    let mut cache = Some(ScopeCache {
        rel: b"docs".to_vec(),
        entry: 2,
    });
    install_index(
        &mut index,
        &mut cache,
        VolumeIndex::new(Frn(NTFS_ROOT_FRN), FrnMap::sparse()),
    );
    assert!(cache.is_none());
    assert_eq!(index.len(), 0);
}

#[test]
fn paths_split_at_the_last_separator() {
    assert_eq!(split_parent(br"a\b\c"), (&br"a\b"[..], &b"c"[..]));
    assert_eq!(split_parent(b"a/b"), (&b"a"[..], &b"b"[..]));
    assert_eq!(split_parent(b"top"), (&b""[..], &b"top"[..]));
    assert_eq!(split_parent(br"\top"), (&b""[..], &b"top"[..]));
    assert_eq!(split_parent(b""), (&b""[..], &b""[..]));
}

#[test]
fn links_resolve_all_or_not_at_all() {
    let index = sample();
    let sub = index.head_of(Frn(11)).unwrap();
    let targets = resolve_links(&index, &vec![wide(r"\docs\SUB\x.txt"), wide(r"\y.txt")]).unwrap();
    assert_eq!(targets[0].parent, sub);
    assert_eq!(targets[0].name.bytes, b"x.txt");
    assert_eq!(targets[1].parent, index.root());
    assert!(resolve_links(&index, &vec![wide(r"\docs\a"), wide(r"\nowhere\b")]).is_none());

    let lone = vec![vec![0x5C, 0xD800]];
    let targets = resolve_links(&index, &lone).unwrap();
    assert!(targets[0].name.lossy);
}

#[test]
fn a_walk_that_could_not_be_completed_is_counted() {
    let index = sample();
    assert!(matches!(judge_links(&index, &LinkWalk::Gone), LinkVerdict::Dropped));
    assert!(matches!(judge_links(&index, &LinkWalk::Failed), LinkVerdict::Dropped));
    assert!(matches!(
        judge_links(&index, &LinkWalk::Links(vec![])),
        LinkVerdict::Dropped
    ));
    assert!(matches!(
        judge_links(&index, &LinkWalk::Links(vec![wide(r"\nowhere\b")])),
        LinkVerdict::Dropped
    ));
    assert!(matches!(
        judge_links(&index, &LinkWalk::Links(vec![wide(r"\docs\b")])),
        LinkVerdict::Reconcile(t) if t.len() == 1
    ));
}

#[test]
fn a_file_gone_or_locked_keeps_its_names_and_shows_in_the_status() {
    let mut index = sample();
    let mut path = Vec::new();
    index.path_of(index.head_of(Frn(12)).unwrap(), &mut path);
    let mut batch = LinkBatch::new();
    assert!(batch.is_empty());
    batch.note(&index, Frn(12), &LinkWalk::Gone);
    batch.note(&index, Frn(12), &LinkWalk::Links(vec![]));
    assert!(!batch.is_empty() && batch.resolved.is_empty());
    apply_links(&mut index, &batch.resolved, batch.dropped);
    let mut after = Vec::new();
    index.path_of(index.head_of(Frn(12)).unwrap(), &mut after);
    assert_eq!(after, path);
    assert_eq!(index.stats().link_reconciles_dropped, 2);
    assert_eq!(index.generation(), sample().generation());
}

#[test]
fn link_sets_are_applied_and_counted() {
    let mut index = sample();
    let targets = resolve_links(&index, &vec![wide(r"\docs\sub\new.txt")]).unwrap();
    apply_links(&mut index, &vec![(Frn(12), targets)], 2);
    let mut path = Vec::new();
    index.path_of(index.head_of(Frn(12)).unwrap(), &mut path);
    assert_eq!(path, br"docs\sub\new.txt");
    assert_eq!(index.stats().link_reconciles_dropped, 2);
}

#[test]
fn dirty_files_come_once_and_in_order() {
    assert_eq!(
        dirty_files(&vec![Frn(9), Frn(3), Frn(9)], &vec![Frn(3), Frn(1)]),
        [1, 3, 9]
    );
    assert!(dirty_files(&vec![], &vec![]).is_empty());
}

#[test]
fn stats_are_applied() {
    let mut index = sample();
    apply_stats(
        &mut index,
        &vec![
            FileStat { frn: Frn(12), size: 1, mtime: 2 },
            FileStat { frn: Frn(12), size: 3, mtime: 4 },
            FileStat { frn: Frn(999), size: 5, mtime: 6 },
        ],
    );
    let file = index.entry(index.head_of(Frn(12)).unwrap());
    assert_eq!(file.size, Some(3));
    assert_eq!(file.mtime, Some(4));
}

/// One record of the journal, as its bytes.
fn record_bytes(major: u16, frn: u64, parent: u64, name: &[u16]) -> Vec<u8> {
    let mut ids = Vec::new();
    for id in [frn, parent] {
        ids.extend_from_slice(&id.to_le_bytes());
        if major == 3 {
            ids.extend_from_slice(&[0; 8]);
        }
    }
    let name_off = 8 + ids.len() + 36;
    let len = name_off + 2 * name.len();
    let mut out = Vec::new();
    out.extend_from_slice(&(len as u32).to_le_bytes());
    out.extend_from_slice(&major.to_le_bytes());
    out.extend_from_slice(&0u16.to_le_bytes());
    out.extend_from_slice(&ids);
    out.extend_from_slice(&77i64.to_le_bytes());
    out.extend_from_slice(&(-1i64).to_le_bytes());
    out.extend_from_slice(&0x100u32.to_le_bytes());
    out.extend_from_slice(&[0; 8]);
    out.extend_from_slice(&0x10u32.to_le_bytes());
    out.extend_from_slice(&(2 * name.len() as u16).to_le_bytes());
    out.extend_from_slice(&(name_off as u16).to_le_bytes());
    for unit in name {
        out.extend_from_slice(&unit.to_le_bytes());
    }
    out
}

fn buffer(records: &[Vec<u8>]) -> Vec<u8> {
    let mut out = 4096i64.to_le_bytes().to_vec();
    for r in records {
        out.extend_from_slice(r);
    }
    out
}

#[test]
fn records_of_both_versions_are_read() {
    let bytes = buffer(&[
        record_bytes(2, 42, 5, &wide("ab.txt")),
        record_bytes(3, 43, 6, &[0x61, 0xDC00]),
    ]);
    let walk = walk_journal_buffer(&bytes).unwrap();
    assert_eq!(walk.next_usn, 4096);
    assert_eq!(walk.records.len(), 2);
    let r = &walk.records[0];
    assert_eq!((r.frn, r.parent_frn), (Frn(42), Frn(5)));
    assert_eq!((r.usn, r.timestamp_ft), (77, -1));
    assert_eq!((r.reason, r.attributes), (0x100, 0x10));
    assert_eq!(r.name, b"ab.txt");
    assert!(!r.name_lossy && r.is_dir());
    let r = &walk.records[1];
    assert_eq!((r.major_version, r.frn, r.parent_frn), (3, Frn(43), Frn(6)));
    assert!(r.name_lossy);
    assert!(walk_journal_buffer(&buffer(&[])).unwrap().records.is_empty());
}

#[test]
fn bytes_that_are_no_records_are_refused() {
    let error = |bytes: &[u8]| walk_journal_buffer(bytes).err().expect("must be refused");
    assert_eq!(error(&[0; 7]), WalkError::NoPosition);

    let good = record_bytes(2, 1, 2, &wide("a"));
    let mut cut = buffer(&[good.clone()]);
    cut.pop();
    assert_eq!(error(&cut), WalkError::BadLength);

    let mut short = good.clone();
    short[0] = 8;
    assert_eq!(error(&buffer(&[short])), WalkError::BadLength);

    let mut version = good.clone();
    version[4] = 4;
    assert_eq!(error(&buffer(&[version])), WalkError::UnknownVersion);

    let mut name = good.clone();
    name[56] = 200;
    assert_eq!(error(&buffer(&[name])), WalkError::BadName);
    let mut odd = good;
    odd[56] = 1;
    assert_eq!(error(&buffer(&[odd])), WalkError::BadName);
}

#[test]
fn file_times_become_unix_milliseconds() {
    assert_eq!(filetime_to_unix_ms(116_444_736_000_000_000), 0);
    assert_eq!(filetime_to_unix_ms(116_444_736_000_019_999), 1);
    assert_eq!(filetime_to_unix_ms(116_444_735_999_999_999), -1);
    assert_eq!(filetime_to_unix_ms(0), -11_644_473_600_000);
    assert_eq!(filetime_to_unix_ms(-1), -11_644_473_600_001);
}

#[test]
fn a_read_without_records_is_caught_up() {
    let empty = buffer(&[]);
    let walk = walk_journal_buffer(&empty);
    let next_usn = walk.as_ref().unwrap().next_usn;
    assert_eq!(walk_outcome(&walk), ReadOutcome::CaughtUp { next_usn });
    let one = buffer(&[record_bytes(2, 10, 5, &wide("a"))]);
    let walk = walk_journal_buffer(&one);
    assert_eq!(walk_outcome(&walk), ReadOutcome::Batch { next_usn });
    assert_eq!(walk_outcome(&walk_journal_buffer(&one[..20])), ReadOutcome::Corrupt);
}
