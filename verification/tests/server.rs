//! Routing, scopes, replies, status and greeting, on small volumes.

use goz::daemon::merge::kway_merge;
use goz::daemon::rows::folded_name;
use goz::daemon::status::{
    all_phases_complete, build_status, handle_request, malformed, ProcessMemory,
};
use goz::daemon::stream::{encode_query_binary, stream_query_binary};
use goz::daemon::volume::{
    resolve_scope_cached, route, scope_entry_valid, starts_with_ci, targets, VolScope, VolumeState,
};
use goz::index::{FrnMap, VolumeIndex, NTFS_ROOT_FRN};
use goz::proto::page::decode_page;
use goz::proto::{
    ProtoError, QueryRequest, QueryResults, Request, Response, PAGE_ROWS, PROTO_VERSION,
};
use goz::query::{parse_query, resolve_scope, run_query};
use goz::types::{Frn, SortDir, SortKey, SortSpec, VolumePhase};
use goz::usn::record::{ParsedUsnRecord, FILE_ATTRIBUTE_DIRECTORY, USN_REASON_FILE_CREATE};

const NO_MEMORY: ProcessMemory = ProcessMemory {
    working_set: 0,
    private_bytes: 0,
};

fn dir_record(frn: u64, parent: u64, name: &str) -> ParsedUsnRecord {
    ParsedUsnRecord {
        major_version: 2,
        frn: Frn(frn),
        parent_frn: Frn(parent),
        usn: 0,
        timestamp_ft: 0,
        reason: USN_REASON_FILE_CREATE,
        attributes: FILE_ATTRIBUTE_DIRECTORY,
        name: name.as_bytes().to_vec(),
        name_lossy: false,
    }
}

fn file_record(frn: u64, parent: u64, name: &str) -> ParsedUsnRecord {
    let mut rec = dir_record(frn, parent, name);
    rec.attributes = 0;
    rec
}

fn empty_index() -> VolumeIndex {
    VolumeIndex::new(Frn(NTFS_ROOT_FRN), FrnMap::sparse())
}

/// `Windows\System32`.
fn windows_index() -> VolumeIndex {
    let mut index = empty_index();
    index.insert_enum(&dir_record(100, NTFS_ROOT_FRN, "Windows"));
    index.insert_enum(&dir_record(101, 100, "System32"));
    index
}

/// An index whose name order is the reverse of its path order.
fn merge_index() -> VolumeIndex {
    let mut index = empty_index();
    index.insert_enum(&dir_record(100, NTFS_ROOT_FRN, "a"));
    index.insert_enum(&dir_record(101, NTFS_ROOT_FRN, "z"));
    for (frn, parent, name) in [(102, 100, "z.log"), (103, 101, "a.log")] {
        index.insert_enum(&file_record(frn, parent, name));
    }
    index
}

fn volume(mount: &str, index: VolumeIndex, phase: VolumePhase) -> VolumeState {
    VolumeState {
        guid: r"\\?\Volume{00000000-0000-0000-0000-000000000000}\".to_string(),
        mounts: vec![mount.to_string()],
        index,
        phase,
        metadata_pending: false,
        scope_cache: None,
    }
}

fn live_volume(mount: &str) -> VolumeState {
    volume(mount, windows_index(), VolumePhase::Live)
}

fn query(q: &str) -> QueryRequest {
    QueryRequest {
        query: q.to_string(),
        scope: None,
        sort: SortSpec::default_for(SortKey::Name),
        offset: 0,
        limit: None,
        want_size: true,
        want_mtime: true,
        match_case: false,
    }
}

/// The pages of a reply, read as a client reads them.
fn results(vols: &mut Vec<VolumeState>, q: QueryRequest) -> Vec<QueryResults> {
    let frames = encode_query_binary(vols, &q).expect("the query is answered with pages");
    frames
        .iter()
        .map(|frame| {
            let len = u32::from_le_bytes(frame[0..4].try_into().unwrap()) as usize;
            assert_eq!(len, frame.len() - 4);
            decode_page(&frame[4..]).expect("decodes")
        })
        .collect()
}

fn paths(vols: &mut Vec<VolumeState>, q: QueryRequest) -> Vec<String> {
    results(vols, q)
        .into_iter()
        .flat_map(|p| p.items.into_iter())
        .map(|i| String::from_utf8(i.path).unwrap())
        .collect()
}

fn hello_request(proto_min: u16, proto_max: u16) -> Request {
    Request::Hello {
        proto_min,
        proto_max,
        client: "test".to_string(),
    }
}

#[test]
fn resolved_scope_validates_against_the_path_it_came_from() {
    let index = windows_index();
    for rel in [&b"Windows"[..], b"Windows\\System32"] {
        let entry = resolve_scope(&index, rel, false).expect("scope resolves");
        assert!(
            scope_entry_valid(&index, entry, rel),
            "{} resolved but did not validate",
            String::from_utf8_lossy(rel)
        );
    }
}

#[test]
fn trailing_separator_scope_still_validates() {
    let index = windows_index();
    let entry = resolve_scope(&index, b"Windows\\", false).expect("resolves today");
    let plain = resolve_scope(&index, b"Windows", false).unwrap();
    assert_eq!(entry, plain, "both spellings name the same directory");

    let vols = vec![live_volume(r"C:\")];
    let (_, scope) = targets(&vols, &Some(r"C:\Windows\".to_string()))
        .pop()
        .expect("C: matches");
    let VolScope::Rel(rel) = scope else {
        panic!("a scope must produce Rel")
    };
    assert!(
        scope_entry_valid(&index, entry, &rel),
        "scope {:?} never validates, so the cache misses on every query",
        String::from_utf8_lossy(&rel)
    );
}

#[test]
fn scope_cache_stores_then_reuses() {
    let mut vol = live_volume(r"C:\");

    let first =
        resolve_scope_cached(&mut vol.scope_cache, &vol.index, b"Windows", false).expect("resolves");
    assert!(vol.scope_cache.is_some(), "first call must populate");

    let second =
        resolve_scope_cached(&mut vol.scope_cache, &vol.index, b"Windows", false).expect("resolves");
    assert_eq!(first, second);

    assert!(!scope_entry_valid(&vol.index, first, b"Somewhere\\Else"));
}

#[test]
fn case_sensitive_scope_never_touches_the_cache() {
    let mut vol = live_volume(r"C:\");
    resolve_scope_cached(&mut vol.scope_cache, &vol.index, b"Windows", true).expect("resolves");
    assert!(
        vol.scope_cache.is_none(),
        "match_case must neither read nor write the cache"
    );
}

#[test]
fn targets_route_scope_to_one_volume() {
    let vols = vec![live_volume(r"C:\"), live_volume(r"D:\")];

    assert_eq!(targets(&vols, &None).len(), 2, "no scope means every volume");

    let picked = targets(&vols, &Some(r"c:\windows".to_string()));
    assert_eq!(picked.len(), 1, "scope selects exactly one volume");
    assert_eq!(vols[picked[0].0].mount_prefix(), r"C:\", "case-insensitive match");

    assert!(
        targets(&vols, &Some(r"Z:\nope".to_string())).is_empty(),
        "an unindexed drive yields no targets"
    );
}

#[test]
fn snapshot_volumes_do_not_taint_results() {
    let mut vols = vec![
        live_volume(r"C:\"),
        volume(r"D:\", windows_index(), VolumePhase::Snapshot),
    ];
    assert!(
        !build_status(&vols, NO_MEMORY).volumes_incomplete,
        "a fully indexed journal-less volume must not flag results incomplete"
    );
    assert!(
        !results(&mut vols, query("System32"))[0].volumes_incomplete,
        "and no query page may flag it either"
    );
    let Response::Hello { ready, .. } = handle_request(&vols, NO_MEMORY, &hello_request(1, 1))
    else {
        panic!("must negotiate")
    };
    assert!(ready, "a snapshot volume is ready to serve");
}

#[test]
fn status_is_incomplete_unless_every_volume_is_live() {
    assert!(!build_status(&vec![live_volume(r"C:\")], NO_MEMORY).volumes_incomplete);

    for phase in [
        VolumePhase::Bootstrapping,
        VolumePhase::Rescanning,
        VolumePhase::Offline,
        VolumePhase::Failed {
            reason: "test".into(),
        },
    ] {
        let vols = vec![live_volume(r"C:\"), volume(r"D:\", windows_index(), phase)];
        assert!(
            build_status(&vols, NO_MEMORY).volumes_incomplete,
            "one non-Live volume must taint the whole status"
        );
    }
}

#[test]
fn empty_result_set_still_emits_one_terminal_frame() {
    let mut vols = vec![live_volume(r"C:\")];
    let pages = results(&mut vols, query("no-such-file-anywhere"));
    assert_eq!(pages.len(), 1, "exactly one frame");
    assert!(!pages[0].more, "the only frame must be terminal");
    assert_eq!(pages[0].items.len(), 0);
    assert_eq!(pages[0].total, 0);
}

#[test]
fn unparseable_query_returns_an_error_frame_not_an_empty_page() {
    let mut vols = vec![live_volume(r"C:\")];
    match encode_query_binary(&mut vols, &query("size:>>bogus")) {
        Err(Response::Error { code, message }) => {
            assert_eq!(code, ProtoError::BadQuery);
            assert_eq!(message, "the argument of size: cannot be read");
        }
        Err(other) => panic!("got {other:?}"),
        Ok(frames) => panic!("{} pages instead of an error", frames.len()),
    }
}

#[test]
fn pages_carry_more_until_the_last_and_a_stable_total() {
    let mut index = empty_index();
    index.insert_enum(&dir_record(100, NTFS_ROOT_FRN, "many"));
    let n = PAGE_ROWS as u64 + 1;
    for i in 0..n {
        index.insert_enum(&file_record(1000 + i, 100, &format!("hit{i:05}.log")));
    }
    let mut vols = vec![volume(r"C:\", index, VolumePhase::Live)];

    let pages = results(&mut vols, query("hit"));
    assert_eq!(pages.len(), 2, "PAGE_ROWS + 1 matches must span two frames");
    assert!(pages[0].more, "first page must signal more");
    assert!(!pages[1].more, "last page must be terminal");
    assert_eq!(pages[0].items.len(), PAGE_ROWS as usize);
    assert_eq!(pages[1].items.len(), 1);
    assert_eq!(pages[0].total, n, "total is the whole match count");
    assert_eq!(pages[1].total, n, "total must not drift across pages");
}

#[test]
fn streaming_stops_when_the_consumer_goes_away() {
    let mut index = empty_index();
    index.insert_enum(&dir_record(100, NTFS_ROOT_FRN, "many"));
    for i in 0..(PAGE_ROWS as u64 * 3) {
        index.insert_enum(&file_record(1000 + i, 100, &format!("hit{i:05}.log")));
    }
    let mut vols = vec![volume(r"C:\", index, VolumePhase::Live)];

    let mut stream = stream_query_binary(&mut vols, &query("hit")).expect("the query is read");
    let mut emit = |_page: Vec<u8>| false; // consumer gone after the first page
    let mut emitted = 0usize;
    while let Some(page) = stream.next_page() {
        emitted += 1;
        if !emit(page) {
            break;
        }
    }
    assert_eq!(
        emitted, 1,
        "a dead consumer must stop the encoder after the rejected page"
    );
}

#[test]
fn flags_suppress_metadata_and_paths_carry_the_mount_prefix() {
    let mut vols = vec![live_volume(r"C:\")];
    let mut q = query("System32");
    q.want_size = false;
    q.want_mtime = false;

    let pages = results(&mut vols, q);
    let item = &pages[0].items[0];
    assert!(item.size.is_none(), "want_size: false must suppress size");
    assert!(item.mtime_ft.is_none(), "want_mtime: false must suppress mtime");
    assert!(
        item.path.starts_with(br"C:\"),
        "path {:?} must carry the mount prefix",
        item.path
    );
}

#[test]
fn incomplete_volumes_taint_every_page() {
    let mut vols = vec![
        live_volume(r"C:\"),
        volume(r"D:\", windows_index(), VolumePhase::Rescanning),
    ];
    let pages = results(&mut vols, query("System32"));
    assert!(
        pages.iter().all(|p| p.volumes_incomplete),
        "every page must report the index is incomplete"
    );
}

#[test]
fn offset_and_limit_slice_the_result_set() {
    let mut vols = vec![live_volume(r"C:\")];

    let mut q = query("System32");
    q.offset = 500;
    let pages = results(&mut vols, q);
    assert_eq!(pages.len(), 1);
    assert!(!pages[0].more);
    assert_eq!(pages[0].items.len(), 0, "offset past the end yields no items");

    let mut q = query("Windows");
    q.limit = Some(1);
    let pages = results(&mut vols, q);
    assert_eq!(pages[0].items.len(), 1);
}

#[test]
fn server_folded_name_agrees_with_the_index_key() {
    let index = merge_index();
    let parsed = parse_query("log").expect("query parses");
    let outcome = run_query(
        &index,
        &parsed,
        None,
        SortSpec::default_for(SortKey::Name),
        0,
        None,
    );
    assert_eq!(outcome.hits.len(), 2, "fixture must produce hits to compare");

    for hit in &outcome.hits {
        assert_eq!(
            folded_name(&hit.path),
            index.folded_name(hit.idx),
            "server key for {:?} diverged from the index key the engine sorted by",
            String::from_utf8_lossy(&hit.path)
        );
    }
}

#[test]
fn name_sort_merges_two_volumes_into_one_global_order() {
    let mut vols = vec![
        volume(r"C:\", merge_index(), VolumePhase::Live),
        volume(r"D:\", merge_index(), VolumePhase::Live),
    ];
    let all = paths(&mut vols, query("log"));
    let names: Vec<&str> = all.iter().map(|p| p.rsplit('\\').next().unwrap()).collect();

    assert_eq!(
        names,
        ["a.log", "a.log", "z.log", "z.log"],
        "merged pages must be globally ordered by name, not by path or by volume"
    );
}

#[test]
fn a_covering_limit_returns_the_same_page_as_no_limit() {
    let mut vols = vec![volume(r"C:\", merge_index(), VolumePhase::Live)];
    for key in [
        SortKey::Name,
        SortKey::Path,
        SortKey::Size,
        SortKey::DateModified,
    ] {
        for dir in [SortDir::Asc, SortDir::Desc] {
            let mut page = |limit| {
                let mut q = query("log");
                q.sort = SortSpec { key, dir };
                q.limit = limit;
                paths(&mut vols, q)
            };
            let unlimited = page(None);
            assert!(!unlimited.is_empty(), "fixture must produce hits");
            for limit in [u32::MAX, unlimited.len() as u32, unlimited.len() as u32 + 1] {
                assert_eq!(
                    page(Some(limit)),
                    unlimited,
                    "{key:?}/{dir:?}: -n {limit} covers the set and must equal no limit"
                );
            }
        }
    }
}

#[test]
fn hello_refuses_clients_whose_range_excludes_this_version() {
    let vols = vec![live_volume(r"C:\")];

    match handle_request(&vols, NO_MEMORY, &hello_request(1, 3)) {
        Response::Hello { proto, .. } => assert_eq!(proto, PROTO_VERSION),
        other => panic!("a range covering v1 must negotiate, got {other:?}"),
    }

    match handle_request(&vols, NO_MEMORY, &hello_request(2, 4)) {
        Response::Error { code, .. } => assert_eq!(code, ProtoError::Unsupported),
        other => panic!("proto_min: 2 must be refused, got {other:?}"),
    }

    match handle_request(&vols, NO_MEMORY, &hello_request(0, 0)) {
        Response::Error { code, .. } => assert_eq!(code, ProtoError::Unsupported),
        other => panic!("proto_max: 0 must be refused, got {other:?}"),
    }
}

#[test]
fn hello_ready_never_contradicts_status() {
    for vols in [
        vec![live_volume(r"C:\")],
        vec![
            live_volume(r"C:\"),
            volume(r"D:\", windows_index(), VolumePhase::Bootstrapping),
        ],
    ] {
        let Response::Hello { ready, .. } = handle_request(&vols, NO_MEMORY, &hello_request(1, 1))
        else {
            panic!("a v1 client must negotiate")
        };
        assert_eq!(
            ready,
            !build_status(&vols, NO_MEMORY).volumes_incomplete,
            "ready must track the same bar as volumes_incomplete"
        );
    }
}

#[test]
fn starts_with_ci_respects_length_and_case() {
    assert!(starts_with_ci(r"c:\x", r"C:\"));
    assert!(starts_with_ci(r"C:\", r"C:\"));
    assert!(!starts_with_ci("C:", r"C:\"));
    assert!(!starts_with_ci(r"D:\x", r"C:\"));
}

fn run(items: &[(&str, char)]) -> Vec<(Vec<u8>, char)> {
    items
        .iter()
        .map(|(k, v)| (k.as_bytes().to_vec(), *v))
        .collect()
}

#[test]
fn merge_ascending_is_stable_across_and_within_runs() {
    let a = run(&[("a", '1'), ("c", '2'), ("c", '3')]);
    let b = run(&[("b", '4'), ("c", '5')]);
    assert_eq!(kway_merge(vec![a, b], false), vec!['1', '4', '2', '3', '5']);
}

#[test]
fn merge_descending_picks_largest_head() {
    let a = run(&[("c", '1'), ("a", '2')]);
    let b = run(&[("b", '3')]);
    assert_eq!(kway_merge(vec![a, b], true), vec!['1', '3', '2']);
}

#[test]
fn merge_handles_empty_and_single() {
    assert_eq!(kway_merge::<char>(vec![], false), Vec::<char>::new());
    assert_eq!(
        kway_merge(vec![run(&[("x", '1'), ("y", '2')])], false),
        vec!['1', '2']
    );
    assert_eq!(
        kway_merge(vec![run(&[]), run(&[("a", '1')]), run(&[])], false),
        vec!['1']
    );
}

/// A scope narrows a query to one folder of one volume, and the paths still
/// carry the prefix.
#[test]
fn a_scoped_query_finds_only_what_lies_under_its_folder() {
    let mut vols = vec![
        volume(r"C:\", merge_index(), VolumePhase::Live),
        volume(r"D:\", merge_index(), VolumePhase::Live),
    ];
    let mut q = query("log");
    q.scope = Some(r"d:\Z".to_string());
    assert_eq!(paths(&mut vols, q), [r"D:\z\a.log"]);

    let mut q = query("log");
    q.scope = Some(r"C:\nowhere".to_string());
    assert!(paths(&mut vols, q).is_empty());
}

/// Sizes and dates order the rows of all volumes together, unknown ones last
/// when the largest come first.
#[test]
fn sizes_and_dates_order_across_volumes() {
    let mut c = merge_index();
    c.set_stat(Frn(102), 10, 5);
    let mut d = merge_index();
    d.set_stat(Frn(103), 70, 1);
    let mut vols = vec![
        volume(r"C:\", c, VolumePhase::Live),
        volume(r"D:\", d, VolumePhase::Live),
    ];
    let mut q = query("log");
    q.sort = SortSpec::default_for(SortKey::Size);
    assert_eq!(
        &paths(&mut vols, q)[0..2],
        [r"D:\z\a.log", r"C:\a\z.log"]
    );
    let mut q = query("log");
    q.sort = SortSpec::default_for(SortKey::DateModified);
    assert_eq!(
        &paths(&mut vols, q)[0..2],
        [r"C:\a\z.log", r"D:\z\a.log"]
    );
}

/// A path sort orders by the whole path, volume prefix included.
#[test]
fn path_sort_goes_by_the_whole_path() {
    let mut vols = vec![
        volume(r"D:\", merge_index(), VolumePhase::Live),
        volume(r"C:\", merge_index(), VolumePhase::Live),
    ];
    let mut q = query("log");
    q.sort = SortSpec::default_for(SortKey::Path);
    assert_eq!(
        paths(&mut vols, q),
        [r"C:\a\z.log", r"C:\z\a.log", r"D:\a\z.log", r"D:\z\a.log"]
    );
}

/// A limit below the number of matches takes rows from the front of the order.
#[test]
fn a_cutting_limit_takes_the_front() {
    let mut vols = vec![
        volume(r"C:\", merge_index(), VolumePhase::Live),
        volume(r"D:\", merge_index(), VolumePhase::Live),
    ];
    let mut q = query("log");
    q.limit = Some(1);
    let pages = results(&mut vols, q);
    assert_eq!(pages[0].total, 4);
    assert_eq!(pages[0].items.len(), 1);
    assert_eq!(pages[0].items[0].path, br"C:\z\a.log");

    let mut q = query("log");
    q.offset = 1;
    q.limit = Some(2);
    assert_eq!(paths(&mut vols, q), [r"D:\z\a.log", r"C:\a\z.log"]);
}

/// A volume whose sizes are still being gathered is told on every page.
#[test]
fn pending_metadata_is_told() {
    let mut vols = vec![live_volume(r"C:\")];
    assert!(!results(&mut vols, query("System32"))[0].metadata_pending);
    vols[0].metadata_pending = true;
    assert!(results(&mut vols, query("System32"))[0].metadata_pending);
}

/// A remembered scope that no longer names its folder is looked up again.
#[test]
fn a_moved_scope_folder_is_looked_up_again() {
    let mut vol = live_volume(r"C:\");
    let before =
        resolve_scope_cached(&mut vol.scope_cache, &vol.index, b"Windows", false).unwrap();

    let mut gone = dir_record(100, NTFS_ROOT_FRN, "Windows");
    gone.reason = goz::usn::record::USN_REASON_RENAME_OLD_NAME;
    let mut come = dir_record(100, NTFS_ROOT_FRN, "Old");
    come.reason = goz::usn::record::USN_REASON_RENAME_NEW_NAME;
    let fresh = dir_record(200, NTFS_ROOT_FRN, "Windows");
    vol.index.apply_batch(&vec![gone, come, fresh]);

    let after = resolve_scope_cached(&mut vol.scope_cache, &vol.index, b"windows", false).unwrap();
    assert_ne!(before, after);
    assert_eq!(vol.index.entry(after).frn, Frn(200));
}

#[test]
fn the_status_reports_each_volume() {
    let mut c = live_volume(r"C:\");
    c.index.insert_enum(&file_record(300, 999, "orphan.txt"));
    let vols = vec![c];
    let status = build_status(
        &vols,
        ProcessMemory {
            working_set: 7,
            private_bytes: 9,
        },
    );
    assert_eq!(status.process_working_set, 7);
    assert_eq!(status.process_private_bytes, 9);
    let v = &status.volumes[0];
    assert_eq!(v.mounts, [r"C:\"]);
    assert_eq!(v.entries, 3);
    assert_eq!(v.placeholders_created, 1);
    assert_eq!(v.delete_of_unknown, 0);
    assert_eq!(v.stale_slots, 0);
    let memory = v.memory.as_ref().unwrap();
    assert_eq!(memory.frn_map_kind, "sparse");
    let held = vols[0].index.memory();
    for (told, part) in [
        (&memory.entries, &held.entries),
        (&memory.arena_raw, &held.arena_raw),
        (&memory.arena_folded, &held.arena_folded),
        (&memory.frn_map, &held.frn_map),
        (&memory.name_tables, &held.name_tables),
        (&memory.dir_children, &held.dir_children),
    ] {
        assert_eq!((told.used, told.alloc), (part.used, part.allocated));
        assert!(told.used > 0 && told.used <= told.alloc);
    }
    assert_eq!(memory.arena_raw.used, "WindowsSystem32orphan.txt".len() as u64);
    assert!(memory.entries.used > 0);
    assert!(memory.entries.alloc >= memory.entries.used);
    assert_eq!(memory.arena_raw.used, "WindowsSystem32orphan.txt".len() as u64);
    assert!(memory.frn_map.alloc >= memory.frn_map.used);
}

#[test]
fn a_refused_client_is_told_the_versions() {
    let vols = vec![live_volume(r"C:\")];
    match handle_request(&vols, NO_MEMORY, &hello_request(2, 40)) {
        Response::Error { message, .. } => assert_eq!(
            message,
            "client speaks protocol 2..=40; this daemon speaks 1"
        ),
        other => panic!("got {other:?}"),
    }
    match handle_request(&vols, NO_MEMORY, &hello_request(0, 1)) {
        Response::Hello { server, .. } => assert_eq!(server, "gozd 0.1.0"),
        other => panic!("got {other:?}"),
    }
}

#[test]
fn a_request_that_cannot_be_read_is_answered() {
    match malformed("expected value") {
        Response::Error { code, message } => {
            assert_eq!(code, ProtoError::BadQuery);
            assert_eq!(message, "malformed request: expected value");
        }
        other => panic!("got {other:?}"),
    }
}

#[test]
fn a_scope_goes_to_the_first_prefix_it_starts_with() {
    let prefixes = vec![br"D:\".to_vec(), br"C:\".to_vec(), br"C:\mnt\".to_vec()];
    let picked = route(&prefixes, &Some(r"c:\mnt\data\\".to_string()));
    assert_eq!(picked.len(), 1);
    assert_eq!(picked[0].0, 1);
    match &picked[0].1 {
        VolScope::Rel(rel) => assert_eq!(rel, br"mnt\data"),
        VolScope::All => panic!("a scope names a folder"),
    }
    let all = route(&prefixes, &None);
    assert_eq!(all.iter().map(|t| t.0).collect::<Vec<_>>(), [0, 1, 2]);
    assert!(route(&prefixes, &Some("E:".to_string())).is_empty());
}

/// Two volumes whose names interleave, and whose sizes do in another way.
fn interleaved() -> Vec<VolumeState> {
    let mut vols = Vec::new();
    for (v, mount) in [r"C:\", r"D:\"].into_iter().enumerate() {
        let mut index = empty_index();
        for i in 0..5u64 {
            let n = 2 * i + v as u64;
            index.insert_enum(&file_record(100 + i, NTFS_ROOT_FRN, &format!("f{n}.log")));
            index.set_stat(Frn(100 + i), 7 * n % 10, 0);
        }
        vols.push(volume(mount, index, VolumePhase::Live));
    }
    vols
}

#[test]
fn a_page_over_several_volumes_is_that_part_of_the_whole() {
    let mut vols = interleaved();
    for key in [SortKey::Name, SortKey::Size] {
        for dir in [SortDir::Asc, SortDir::Desc] {
            let mut q = query("log");
            q.sort = SortSpec { key, dir };
            let all = paths(&mut vols, q);
            assert_eq!(all.len(), 10);
            for offset in [0u32, 1, 4, 9, 10, 11, u32::MAX] {
                for limit in [Some(0u32), Some(1), Some(3), Some(10), Some(u32::MAX), None] {
                    let mut q = query("log");
                    q.sort = SortSpec { key, dir };
                    q.offset = offset;
                    q.limit = limit;
                    let start = all.len().min(offset as usize);
                    let end = match limit {
                        Some(n) => all.len().min(start.saturating_add(n as usize)),
                        None => all.len(),
                    };
                    let pages = results(&mut vols, q.clone());
                    assert_eq!(pages.len(), 1);
                    assert!(!pages[0].more);
                    assert_eq!(pages[0].total, 10);
                    assert_eq!(paths(&mut vols, q), all[start..end]);
                }
            }
        }
    }
}

#[test]
fn a_query_leaves_its_scope_behind_and_no_other_trace() {
    let mut vols = vec![live_volume(r"C:\"), live_volume(r"D:\")];
    let mut q = query("System32");
    q.scope = Some(r"D:\windows".to_string());
    let first = paths(&mut vols, q.clone());
    assert_eq!(first, [r"D:\Windows\System32"]);
    assert!(vols[0].scope_cache.is_none());
    let kept = vols[1].scope_cache.as_ref().expect("remembered");
    assert_eq!(kept.rel, b"windows");
    let entry = kept.entry;

    q.limit = Some(5);
    assert_eq!(paths(&mut vols, q.clone()), first);
    assert_eq!(vols[1].scope_cache.as_ref().map(|c| c.entry), Some(entry));

    q.scope = Some(r"D:\nowhere".to_string());
    assert!(paths(&mut vols, q.clone()).is_empty());
    q.query = "ext:".to_string();
    assert!(encode_query_binary(&mut vols, &q).is_err());
    assert_eq!(vols[1].scope_cache.as_ref().map(|c| c.entry), Some(entry));
}

#[test]
fn phases_are_complete_together_or_not() {
    assert!(all_phases_complete(&vec![]));
    assert!(all_phases_complete(&vec![VolumePhase::Live, VolumePhase::Snapshot]));
    assert!(!all_phases_complete(&vec![VolumePhase::Live, VolumePhase::Rescanning]));
    assert!(!all_phases_complete(&vec![VolumePhase::Offline, VolumePhase::Live]));
}
