//! The index: enumeration, journal batches, links, sizes, paths.

use goz::index::{Anomaly, FrnMap, LinkTarget, PathStatus, VolumeIndex, WtfName, NTFS_ROOT_FRN};
use goz::query::{parse_query, run_query};
use goz::types::{EntryIdx, Frn, SortSpec};
use goz::usn::record::{
    ParsedUsnRecord, FILE_ATTRIBUTE_DIRECTORY, USN_REASON_DATA_EXTEND, USN_REASON_FILE_CREATE,
    USN_REASON_FILE_DELETE, USN_REASON_HARD_LINK_CHANGE, USN_REASON_RENAME_NEW_NAME,
    USN_REASON_RENAME_OLD_NAME,
};

fn rec(frn: u64, parent: u64, name: &str, is_dir: bool, reason: u32) -> ParsedUsnRecord {
    ParsedUsnRecord {
        major_version: 2,
        frn: Frn(frn),
        parent_frn: Frn(parent),
        usn: 0,
        timestamp_ft: 0,
        reason,
        attributes: if is_dir { FILE_ATTRIBUTE_DIRECTORY } else { 0 },
        name: name.as_bytes().to_vec(),
        name_lossy: false,
    }
}

fn seen(frn: u64, parent: u64, name: &str, is_dir: bool) -> ParsedUsnRecord {
    rec(frn, parent, name, is_dir, USN_REASON_FILE_CREATE)
}

fn empty() -> VolumeIndex {
    VolumeIndex::new(Frn(NTFS_ROOT_FRN), FrnMap::sparse())
}

/// `docs\sub\file.txt` and `other`.
fn sample() -> VolumeIndex {
    let mut index = empty();
    index.insert_enum(&seen(10, NTFS_ROOT_FRN, "docs", true));
    index.insert_enum(&seen(11, 10, "sub", true));
    index.insert_enum(&seen(12, 11, "file.txt", false));
    index.insert_enum(&seen(13, NTFS_ROOT_FRN, "other", true));
    index
}

fn path(index: &VolumeIndex, idx: EntryIdx) -> Option<String> {
    let mut buf = Vec::new();
    match index.path_of(idx, &mut buf) {
        PathStatus::Presentable => Some(String::from_utf8(buf).unwrap()),
        PathStatus::LostFound => None,
    }
}

fn path_of(index: &VolumeIndex, frn: u64) -> Option<String> {
    path(index, index.head_of(Frn(frn))?)
}

fn place(parent: EntryIdx, name: &str) -> LinkTarget {
    LinkTarget {
        parent,
        name: WtfName::new(name.as_bytes().to_vec(), false),
    }
}

fn all_paths(index: &VolumeIndex) -> Vec<String> {
    let mut list: Vec<String> = index
        .live_entries()
        .into_iter()
        .filter(|&i| !index.is_synthetic(i))
        .filter_map(|i| path(index, i))
        .collect();
    list.sort();
    list
}

#[test]
fn records_build_paths_whatever_their_order() {
    let mut index = empty();
    assert!(index.insert_enum(&seen(12, 11, "file.txt", false)).is_some());
    assert_eq!(path_of(&index, 12), None, "its directory was not seen yet");
    assert!(index.has_orphans());
    index.insert_enum(&seen(11, 10, "sub", true));
    index.insert_enum(&seen(10, NTFS_ROOT_FRN, "docs", true));
    assert_eq!(path_of(&index, 12).as_deref(), Some(r"docs\sub\file.txt"));
    assert!(!index.has_orphans());
    assert_eq!(index.stats().placeholders_created, 2);
}

#[test]
fn a_record_taken_twice_changes_nothing() {
    let mut index = sample();
    let before = all_paths(&index);
    let first = index.insert_enum(&seen(12, 11, "file.txt", false));
    let again = index.insert_enum(&seen(12, 11, "file.txt", false));
    assert_eq!(first, again);
    assert_eq!(all_paths(&index), before);
    assert_eq!(index.len(), 4);
}

#[test]
fn names_that_no_file_can_have_are_refused() {
    let mut index = empty();
    for name in ["", r"a\b", "a/b", "a\0b"] {
        assert_eq!(index.insert_enum(&seen(20, NTFS_ROOT_FRN, name, false)), None);
    }
    assert_eq!(index.insert_enum(&seen(20, 20, "self", true)), None);
    assert_eq!(index.len(), 0);
}

#[test]
fn a_directory_is_never_put_under_itself() {
    let mut index = empty();
    index.insert_enum(&seen(31, 30, "inner", true));
    assert_eq!(index.insert_enum(&seen(30, 31, "outer", true)), None);
}

#[test]
fn a_renamed_directory_takes_its_contents_along() {
    let mut index = sample();
    index.set_stat(Frn(12), 77, 5);
    let out = index.apply_batch(&vec![
        rec(10, NTFS_ROOT_FRN, "docs", true, USN_REASON_RENAME_OLD_NAME),
        rec(10, 13, "papers", true, USN_REASON_RENAME_NEW_NAME),
    ]);
    assert!(out.anomalies.is_empty());
    assert_eq!(path_of(&index, 12).as_deref(), Some(r"other\papers\sub\file.txt"));
    let file = index.head_of(Frn(12)).unwrap();
    assert_eq!(index.entry(file).size, Some(77));
    assert!(!index.has_orphans());
}

#[test]
fn between_the_two_records_of_a_rename_nothing_is_shown() {
    let mut index = sample();
    index.apply_batch(&vec![rec(
        10,
        NTFS_ROOT_FRN,
        "docs",
        true,
        USN_REASON_RENAME_OLD_NAME,
    )]);
    assert_eq!(path_of(&index, 12), None);
    assert_eq!(all_paths(&index), ["other"]);
}

#[test]
fn a_renamed_file_keeps_size_and_time() {
    let mut index = sample();
    index.set_stat(Frn(12), 4096, 99);
    index.apply_batch(&vec![
        rec(12, 11, "file.txt", false, USN_REASON_RENAME_OLD_NAME),
        rec(12, 10, "moved.txt", false, USN_REASON_RENAME_NEW_NAME),
    ]);
    let file = index.head_of(Frn(12)).unwrap();
    assert_eq!(path(&index, file).as_deref(), Some(r"docs\moved.txt"));
    assert_eq!(index.entry(file).size, Some(4096));
    assert_eq!(index.entry(file).mtime, Some(99));
}

#[test]
fn the_old_name_of_a_file_created_and_renamed_is_not_kept() {
    let mut index = sample();
    index.apply_batch(&vec![
        rec(20, 10, "tmp", false, USN_REASON_FILE_CREATE),
        rec(20, 10, "tmp", false, USN_REASON_FILE_CREATE | USN_REASON_RENAME_OLD_NAME),
        rec(20, 10, "final.doc", false, USN_REASON_FILE_CREATE | USN_REASON_RENAME_NEW_NAME),
    ]);
    assert_eq!(
        all_paths(&index),
        ["docs", r"docs\final.doc", r"docs\sub", r"docs\sub\file.txt", "other"]
    );
}

#[test]
fn a_deleted_file_is_gone() {
    let mut index = sample();
    let out = index.apply_batch(&vec![rec(12, 11, "file.txt", false, USN_REASON_FILE_DELETE)]);
    assert!(out.anomalies.is_empty());
    assert_eq!(index.head_of(Frn(12)), None);
    assert_eq!(index.stats().stale_slots, 1);
    assert_eq!(index.len(), 3);
}

#[test]
fn a_directory_deleted_too_early_hides_what_is_left_in_it() {
    let mut index = sample();
    index.apply_batch(&vec![rec(10, NTFS_ROOT_FRN, "docs", true, USN_REASON_FILE_DELETE)]);
    assert_eq!(all_paths(&index), ["other"]);
    assert!(index.has_orphans());
}

#[test]
fn the_journal_is_told_on() {
    let mut index = sample();
    let out = index.apply_batch(&vec![
        rec(90, 10, "ghost", false, USN_REASON_FILE_DELETE),
        rec(91, 10, "ghost", false, USN_REASON_RENAME_OLD_NAME),
        rec(92, 10, "", false, USN_REASON_RENAME_NEW_NAME),
    ]);
    assert_eq!(
        out.anomalies,
        [
            Anomaly::DeleteOfUnknown(Frn(90)),
            Anomaly::RenameOfUnknown(Frn(91)),
            Anomaly::Refused(Frn(92)),
        ]
    );
    assert_eq!(index.stats().delete_of_unknown, 1);
    assert_eq!(index.generation(), 1);
}

#[test]
fn what_has_to_be_looked_up_is_listed() {
    let mut index = sample();
    let out = index.apply_batch(&vec![
        rec(12, 11, "file.txt", false, USN_REASON_DATA_EXTEND),
        rec(12, 11, "file.txt", false, USN_REASON_HARD_LINK_CHANGE),
        rec(20, 10, "new.txt", false, USN_REASON_FILE_CREATE),
    ]);
    assert_eq!(out.needs_stat, [Frn(12), Frn(20)]);
    assert_eq!(out.needs_link_reconcile, [Frn(12)]);
}

#[test]
fn links_are_brought_in_line() {
    let mut index = sample();
    index.set_stat(Frn(12), 5, 6);
    let docs = index.head_of(Frn(10)).unwrap();
    let other = index.head_of(Frn(13)).unwrap();
    assert!(index.reconcile_links(
        Frn(12),
        &vec![place(docs, "one.txt"), place(other, "two.txt")]
    ));
    assert_eq!(
        all_paths(&index),
        ["docs", r"docs\one.txt", r"docs\sub", "other", r"other\two.txt"]
    );
    let head = index.head_of(Frn(12)).unwrap();
    assert_eq!(index.entry(head).size, Some(5), "names share the size");

    assert!(index.reconcile_links(Frn(12), &vec![]), "no links: the file is gone");
    assert_eq!(index.head_of(Frn(12)), None);
}

#[test]
fn links_that_cannot_be_taken_in_take_nothing_out() {
    let mut index = sample();
    let docs = index.head_of(Frn(10)).unwrap();
    assert!(!index.reconcile_links(Frn(12), &vec![place(docs, r"a\b"), place(docs, "b")]));
    assert_eq!(
        all_paths(&index),
        ["docs", r"docs\b", r"docs\sub", r"docs\sub\file.txt", "other"]
    );
    assert!(!index.reconcile_links(Frn(12), &vec![place(9999, "c")]));
}

#[test]
fn dropped_link_sets_are_counted() {
    let mut index = sample();
    index.note_link_reconciles_dropped(3);
    index.note_link_reconciles_dropped(u64::MAX);
    assert_eq!(index.stats().link_reconciles_dropped, u64::MAX);
}

#[test]
fn a_stat_reaches_every_name() {
    let mut index = sample();
    let docs = index.head_of(Frn(10)).unwrap();
    let sub = index.head_of(Frn(11)).unwrap();
    index.reconcile_links(Frn(12), &vec![place(sub, "file.txt"), place(docs, "link.txt")]);
    index.set_stat(Frn(12), 123, 456);
    let sized: Vec<EntryIdx> = index
        .live_entries()
        .into_iter()
        .filter(|&i| index.entry(i).size == Some(123))
        .collect();
    assert_eq!(sized.len(), 2);
}

#[test]
fn memory_figures_follow_the_content() {
    let index = sample();
    let m = index.memory();
    assert_eq!(m.arena_raw.used, "docssubfile.txtother".len() as u64);
    // The root's empty name has an entry of its own, and each name an end.
    assert_eq!(m.arena_folded.used, m.arena_raw.used + 5);
    assert!(m.dir_children.allocated >= m.dir_children.used);
    assert_eq!(m.frn_map_kind, "sparse");
}

#[test]
fn compaction_gives_back_unused_names_and_shows_nothing() {
    let mut index = sample();
    for i in 0..1200u64 {
        index.insert_enum(&seen(1000 + i, 10, &format!("gone{i}.tmp"), false));
    }
    assert!(index.plan_compaction().is_none(), "every name is borne");
    let batch: Vec<ParsedUsnRecord> = (0..1200u64)
        .map(|i| rec(1000 + i, 10, &format!("gone{i}.tmp"), false, USN_REASON_FILE_DELETE))
        .collect();
    assert!(index.apply_batch(&batch).wants_compact);

    let found = |index: &VolumeIndex| {
        let parsed = parse_query("o").unwrap();
        run_query(index, &parsed, None, SortSpec::default(), 0, None)
    };
    let before = all_paths(&index);
    let results = found(&index);
    assert!(results.total > 0);
    let plan = index.plan_compaction().expect("worth it");
    index.apply_compaction(plan);
    assert_eq!(all_paths(&index), before);
    assert_eq!(found(&index), results);
    assert_eq!(index.memory().arena_raw.used, "docssubfile.txtother".len() as u64);
    assert!(!index.wants_compact());

    // A name that is gone can come back.
    index.insert_enum(&seen(5000, 10, "gone7.tmp", false));
    assert_eq!(path_of(&index, 5000).as_deref(), Some(r"docs\gone7.tmp"));
}

#[test]
fn a_small_index_says_what_it_said_and_goes_on() {
    let mut index = sample();
    // The same record number used again, and one far from all others.
    index.insert_enum(&seen(10 | 3 << 48, NTFS_ROOT_FRN, "again", true));
    index.insert_enum(&seen(1 << 40, 10, "far", false));
    let before = all_paths(&index);
    let used = index.memory();
    index.optimize_storage();
    assert_eq!(all_paths(&index), before);
    let m = index.memory();
    assert_eq!((m.frn_map_kind.as_str(), used.frn_map_kind.as_str()), ("dense", "sparse"));
    assert_eq!(m.arena_raw.used, used.arena_raw.used);
    assert_eq!(m.entries.used, used.entries.used);
    assert!(m.frn_map.used <= m.frn_map.allocated);

    for frn in [10, 10 | 3 << 48, 1 << 40] {
        assert!(index.head_of(Frn(frn)).is_some());
    }
    assert_eq!(path_of(&index, 1 << 40).as_deref(), Some(r"docs\far"));
    index.insert_enum(&seen(11 | 7 << 48, 10 | 3 << 48, "new.txt", false));
    assert_eq!(path_of(&index, 11 | 7 << 48).as_deref(), Some(r"again\new.txt"));
    index.apply_batch(&vec![rec(1 << 40, 10, "far", false, USN_REASON_FILE_DELETE)]);
    assert!(path_of(&index, 1 << 40).is_none());
    index.insert_enum(&seen(1 << 40, 10, "back", false));
    assert_eq!(path_of(&index, 1 << 40).as_deref(), Some(r"docs\back"));
    assert_eq!(index.memory().frn_map_kind, "dense");
    let last = all_paths(&index);
    index.optimize_storage();
    assert_eq!(all_paths(&index), last);
}
