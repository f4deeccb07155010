//! The query engine on small indexes.

use goz::index::{FrnMap, VolumeIndex, NTFS_ROOT_FRN};
use goz::query::{
    parse_query, resolve_scope, run_query, run_query_deferrable, run_query_unsorted, QueryHit,
};
use goz::types::{Frn, SortDir, SortKey, SortSpec};
use goz::usn::record::{ParsedUsnRecord, FILE_ATTRIBUTE_DIRECTORY, USN_REASON_FILE_CREATE};
use std::collections::BTreeSet;

fn frn(rec: u64) -> Frn {
    Frn(rec | (1u64 << 48))
}

fn root() -> Frn {
    Frn(NTFS_ROOT_FRN)
}

fn enum_rec(f: Frn, parent: Frn, name: &str, is_dir: bool) -> ParsedUsnRecord {
    ParsedUsnRecord {
        major_version: 2,
        frn: f,
        parent_frn: parent,
        usn: 0,
        timestamp_ft: 0,
        reason: USN_REASON_FILE_CREATE,
        attributes: if is_dir { FILE_ATTRIBUTE_DIRECTORY } else { 0 },
        name: name.as_bytes().to_vec(),
        name_lossy: false,
    }
}

fn empty_index() -> VolumeIndex {
    VolumeIndex::new(root(), FrnMap::sparse())
}

/// docs/ (100), docs/sub/ (101), docs/sub/Report.PDF (102, 4KB),
/// docs/notes.txt (103, 200B), photo.JPG (104, 2MB) at the root.
fn sample_index() -> VolumeIndex {
    let mut idx = empty_index();
    for r in [
        enum_rec(frn(100), root(), "docs", true),
        enum_rec(frn(101), frn(100), "sub", true),
        enum_rec(frn(102), frn(101), "Report.PDF", false),
        enum_rec(frn(103), frn(100), "notes.txt", false),
        enum_rec(frn(104), root(), "photo.JPG", false),
    ] {
        assert!(idx.insert_enum(&r).is_some());
    }
    idx.set_stat(frn(102), 4096, 1000);
    idx.set_stat(frn(103), 200, 1000);
    idx.set_stat(frn(104), 2 * 1024 * 1024, 1000);
    idx
}

/// Two files that can be shown, and three whose directory was never seen.
fn index_with_orphans() -> VolumeIndex {
    let mut idx = empty_index();
    idx.insert_enum(&enum_rec(frn(100), root(), "real1.log", false));
    idx.insert_enum(&enum_rec(frn(101), root(), "real2.log", false));
    for (f, n) in [(200, "ghost1.log"), (201, "ghost2.log"), (202, "ghost3.log")] {
        idx.insert_enum(&enum_rec(frn(f), frn(999), n, false));
    }
    idx
}

fn lossy(path: &[u8]) -> String {
    String::from_utf8_lossy(path).into_owned()
}

fn paths(hits: &[QueryHit]) -> Vec<String> {
    hits.iter().map(|h| lossy(&h.path)).collect()
}

fn run(idx: &VolumeIndex, query: &str) -> Vec<String> {
    let parsed = parse_query(query).unwrap();
    let out = run_query(idx, &parsed, None, SortSpec::default(), 0, None);
    paths(&out.hits)
}

fn spec(key: SortKey, dir: SortDir) -> SortSpec {
    SortSpec { key, dir }
}

#[test]
fn orphans_are_excluded_from_total_and_never_eat_the_page() {
    let idx = index_with_orphans();
    let parsed = parse_query("log").unwrap();

    let all = run_query(&idx, &parsed, None, SortSpec::default_for(SortKey::Name), 0, None);
    assert_eq!(all.hits.len(), 2, "only the presentable files are hits");
    assert_eq!(all.total, 2, "total must count what the page can actually return, not orphans");

    for key in [SortKey::Name, SortKey::Path] {
        let page = run_query(&idx, &parsed, None, SortSpec::default_for(key), 0, Some(3));
        assert_eq!(page.hits.len(), 2, "{key:?}: a limited query must still return the real hits");
        assert_eq!(page.total, 2, "{key:?}: total must not count dropped orphans");
    }
}

#[test]
fn case_insensitive_substring_over_names() {
    let idx = sample_index();
    assert_eq!(run(&idx, "report"), vec!["docs\\sub\\Report.PDF"]);
    assert_eq!(run(&idx, "REPORT"), vec!["docs\\sub\\Report.PDF"]);
}

#[test]
fn multi_term_and() {
    let idx = sample_index();
    assert!(run(&idx, "notes zzz").is_empty());
    assert_eq!(run(&idx, "notes txt"), vec!["docs\\notes.txt"]);
}

#[test]
fn ext_filter() {
    let idx = sample_index();
    assert_eq!(run(&idx, "ext:pdf"), vec!["docs\\sub\\Report.PDF"]);
    let mut jpg = run(&idx, "ext:jpg");
    jpg.sort();
    assert_eq!(jpg, vec!["photo.JPG"]);
}

#[test]
fn size_filter_excludes_unknown_and_out_of_range() {
    let idx = sample_index();
    assert_eq!(run(&idx, "size:>1mb"), vec!["photo.JPG"]);
    let mut tiny = run(&idx, "size:tiny");
    tiny.sort();
    assert_eq!(tiny, vec!["docs\\notes.txt", "docs\\sub\\Report.PDF"]);
}

#[test]
fn kind_filters() {
    let idx = sample_index();
    let mut folders = run(&idx, "folder:");
    folders.sort();
    assert_eq!(folders, vec!["docs", "docs\\sub"]);
}

#[test]
fn wildcard_whole_name() {
    let idx = sample_index();
    assert_eq!(run(&idx, "*.pdf"), vec!["docs\\sub\\Report.PDF"]);
    assert!(run(&idx, "*.zip").is_empty());
}

#[test]
fn path_term_matches_full_path() {
    let idx = sample_index();
    let mut hits = run(&idx, "docs\\sub");
    hits.sort();
    assert_eq!(hits, vec!["docs\\sub", "docs\\sub\\Report.PDF"]);
}

#[test]
fn scope_restricts_to_descendants() {
    let idx = sample_index();
    let parsed = parse_query("").unwrap();
    let scope = resolve_scope(&idx, b"docs\\sub", false).unwrap();
    let out = run_query(&idx, &parsed, Some(scope), SortSpec::default(), 0, None);
    assert_eq!(paths(&out.hits), vec!["docs\\sub\\Report.PDF"]);
}

#[test]
fn sort_path_orders_by_parent_then_name() {
    let idx = sample_index();
    let parsed = parse_query("").unwrap();
    let out = run_query(&idx, &parsed, None, spec(SortKey::Path, SortDir::Asc), 0, None);
    assert_eq!(
        paths(&out.hits),
        vec!["docs", "photo.JPG", "docs\\notes.txt", "docs\\sub", "docs\\sub\\Report.PDF"]
    );
}

#[test]
fn offset_and_limit_paginate_but_total_is_full_count() {
    let idx = sample_index();
    let parsed = parse_query("").unwrap();
    let out = run_query(&idx, &parsed, None, spec(SortKey::Name, SortDir::Asc), 1, Some(2));
    assert_eq!(out.total, 5);
    assert_eq!(out.hits.len(), 2);
}

#[test]
fn case_sensitive_query_respects_case() {
    let idx = sample_index();
    assert!(run(&idx, "report case:").is_empty());
    assert_eq!(run(&idx, "Report case:"), vec!["docs\\sub\\Report.PDF"]);
}

#[test]
fn ext_filter_is_case_insensitive_even_under_case_directive() {
    let idx = sample_index();
    assert_eq!(run(&idx, "Report ext:pdf case:"), vec!["docs\\sub\\Report.PDF"]);
    assert_eq!(run(&idx, "Report ext:PDF case:"), vec!["docs\\sub\\Report.PDF"]);
}

/// A flat index of files at the root.
fn flat_index(names: &[String]) -> VolumeIndex {
    let mut idx = empty_index();
    for (i, n) in names.iter().enumerate() {
        idx.insert_enum(&enum_rec(frn(1000 + i as u64), root(), n, false));
    }
    idx
}

/// A file matches where its folded name contains every folded term.
fn oracle(names: &[String], terms: &[String]) -> BTreeSet<String> {
    names
        .iter()
        .filter(|n| {
            let name = goz::fold::fold(n.as_bytes());
            terms.iter().all(|t| {
                let term = goz::fold::fold(t.as_bytes());
                term.is_empty() || name.windows(term.len()).any(|w| w == term.as_slice())
            })
        })
        .cloned()
        .collect()
}

#[test]
fn matcher_agrees_with_a_naive_matcher() {
    let letters: Vec<char> = "aAbBzZ\u{e7}\u{c7}\u{11f}\u{11e}09._".chars().collect();
    let mut seed: u64 = 0x9E37_79B9_7F4A_7C15;
    let mut next = |bound: usize| -> usize {
        seed ^= seed << 13;
        seed ^= seed >> 7;
        seed ^= seed << 17;
        (seed % bound as u64) as usize
    };
    for _ in 0..200 {
        let count = 1 + next(29);
        let mut names: Vec<String> = Vec::new();
        for i in 0..count {
            let len = 1 + next(10);
            let word: String = (0..len).map(|_| letters[next(letters.len())]).collect();
            names.push(format!("{word}_{i}"));
        }
        let mut terms: Vec<String> = Vec::new();
        for _ in 0..next(3) {
            let len = 1 + next(4);
            terms.push((0..len).map(|_| letters[next(10)]).collect());
        }
        let idx = flat_index(&names);
        let found: BTreeSet<String> = run(&idx, &terms.join(" ")).into_iter().collect();
        assert_eq!(found, oracle(&names, &terms), "terms {terms:?}");
    }
}

#[test]
fn every_sort_key_orders_and_reverses() {
    let idx = sample_index();
    let parsed = parse_query("file:").unwrap();
    let by = |key, dir| paths(&run_query(&idx, &parsed, None, spec(key, dir), 0, None).hits);
    assert_eq!(
        by(SortKey::Size, SortDir::Asc),
        vec!["docs\\notes.txt", "docs\\sub\\Report.PDF", "photo.JPG"]
    );
    assert_eq!(
        by(SortKey::Size, SortDir::Desc),
        vec!["photo.JPG", "docs\\sub\\Report.PDF", "docs\\notes.txt"]
    );
    assert_eq!(
        by(SortKey::Name, SortDir::Desc),
        vec!["docs\\sub\\Report.PDF", "photo.JPG", "docs\\notes.txt"]
    );
    // Equal times: the folded name decides.
    assert_eq!(
        by(SortKey::DateModified, SortDir::Asc),
        vec!["docs\\notes.txt", "photo.JPG", "docs\\sub\\Report.PDF"]
    );
}

#[test]
fn ties_are_broken_by_slot_for_every_key() {
    let mut idx = empty_index();
    idx.insert_enum(&enum_rec(frn(10), root(), "d1", true));
    idx.insert_enum(&enum_rec(frn(11), root(), "d2", true));
    for (f, d) in [(20, 10), (21, 11), (22, 10)] {
        let name = if f == 22 { "SAME.TXT" } else { "same.txt" };
        idx.insert_enum(&enum_rec(frn(f), frn(d), name, false));
        idx.set_stat(frn(f), 7, 7);
    }
    let parsed = parse_query("same").unwrap();
    for key in [SortKey::Name, SortKey::Size, SortKey::DateModified] {
        let up: Vec<u32> = run_query(&idx, &parsed, None, spec(key, SortDir::Asc), 0, None)
            .hits
            .iter()
            .map(|h| h.idx)
            .collect();
        let mut down: Vec<u32> = run_query(&idx, &parsed, None, spec(key, SortDir::Desc), 0, None)
            .hits
            .iter()
            .map(|h| h.idx)
            .collect();
        let mut sorted = up.clone();
        sorted.sort();
        assert_eq!(up, sorted);
        down.reverse();
        assert_eq!(up, down);
    }
}

#[test]
fn pages_tile_the_ranking() {
    let names: Vec<String> = (0..57).map(|i| format!("f{:02}", (i * 37) % 57)).collect();
    let idx = flat_index(&names);
    let parsed = parse_query("f").unwrap();
    let all = run_query(&idx, &parsed, None, SortSpec::default(), 0, None);
    assert_eq!(all.total, 57);
    let mut glued: Vec<QueryHit> = Vec::new();
    for start in (0..60).step_by(10) {
        let page = run_query(&idx, &parsed, None, SortSpec::default(), start, Some(10));
        assert_eq!(page.total, 57);
        glued.extend(page.hits);
    }
    assert_eq!(glued, all.hits);
    let beyond = run_query(&idx, &parsed, None, SortSpec::default(), 99, Some(10));
    assert!(beyond.hits.is_empty());
    assert_eq!(beyond.total, 57);
}

#[test]
fn a_large_match_set_is_sorted_too() {
    let names: Vec<String> = (0..100_500u32).map(|i| format!("n{:06}", i.wrapping_mul(7919) % 100_500)).collect();
    let idx = flat_index(&names);
    let parsed = parse_query("n").unwrap();
    let all = run_query(&idx, &parsed, None, SortSpec::default(), 0, None);
    assert_eq!(all.hits.len(), 100_500);
    assert!(all.hits.windows(2).all(|w| w[0].path <= w[1].path));
    // All but a few: a front too long for one core, and one that is short.
    for limit in [100_400u32, 3] {
        let page = run_query(&idx, &parsed, None, SortSpec::default(), 0, Some(limit));
        assert_eq!(page.hits[..], all.hits[..limit as usize]);
    }
}

#[test]
fn unsorted_holds_the_same_matches() {
    let idx = sample_index();
    for query in ["", "o", "folder:", "docs\\", "*.*"] {
        let parsed = parse_query(query).unwrap();
        let sorted = run_query(&idx, &parsed, None, SortSpec::default(), 0, None);
        let plain = run_query_unsorted(&idx, &parsed, None);
        assert_eq!(plain.total, sorted.total);
        let a: BTreeSet<String> = paths(&sorted.hits).into_iter().collect();
        let b: BTreeSet<String> = paths(&plain.hits).into_iter().collect();
        assert_eq!(a, b);
    }
}

#[test]
fn sorting_is_deferred_only_where_the_page_takes_in_every_match() {
    let idx = sample_index();
    let parsed = parse_query("").unwrap();
    let sort = SortSpec::default();
    for (offset, limit, sorted) in [
        (0, None, false),
        (0, Some(5), false),
        (0, Some(u32::MAX), false),
        (0, Some(4), true),
        (1, None, true),
    ] {
        let out = run_query_deferrable(&idx, &parsed, None, sort, offset, limit);
        assert_eq!(out.total, 5);
        assert_eq!(out.sorted, sorted, "offset {offset}, limit {limit:?}");
        let plain = run_query(&idx, &parsed, None, sort, offset, limit);
        assert_eq!(out.hits.len(), plain.hits.len());
        if sorted {
            assert_eq!(out.hits, plain.hits);
        }
    }
}

#[test]
fn a_scope_over_the_walk_limit_gives_the_same_matches() {
    let mut idx = empty_index();
    idx.insert_enum(&enum_rec(frn(1), root(), "big", true));
    idx.insert_enum(&enum_rec(frn(2), root(), "other", true));
    idx.insert_enum(&enum_rec(frn(3), frn(1), "deep", true));
    for i in 0..200_001u64 {
        idx.insert_enum(&enum_rec(frn(10 + i), frn(1), "x", false));
    }
    idx.insert_enum(&enum_rec(frn(900_000), frn(3), "needle.txt", false));
    idx.insert_enum(&enum_rec(frn(900_001), frn(2), "needle.txt", false));
    let scope = resolve_scope(&idx, b"BIG", false).unwrap();
    for query in ["needle", "needle case:", "*.txt"] {
        let parsed = parse_query(query).unwrap();
        let out = run_query(&idx, &parsed, Some(scope), SortSpec::default(), 0, None);
        assert_eq!(paths(&out.hits), vec!["big\\deep\\needle.txt"], "{query}");
    }
}

#[test]
fn scope_paths_resolve_component_by_component() {
    let idx = sample_index();
    let docs = resolve_scope(&idx, b"docs", false).unwrap();
    let sub = resolve_scope(&idx, b"docs\\sub", false).unwrap();
    assert_eq!(resolve_scope(&idx, b"", false), Some(idx.root()));
    assert_eq!(resolve_scope(&idx, b"\\/", false), Some(idx.root()));
    assert_eq!(resolve_scope(&idx, b"/DOCS//Sub\\", false), Some(sub));
    assert_eq!(resolve_scope(&idx, b"DOCS", true), None);
    assert_eq!(resolve_scope(&idx, b"docs", true), Some(docs));
    assert_eq!(resolve_scope(&idx, b"docs/sub", true), Some(sub));
    // A file is no scope.
    assert_eq!(resolve_scope(&idx, b"docs\\notes.txt", false), None);
    assert_eq!(resolve_scope(&idx, b"docs\\missing", false), None);
}

#[test]
fn case_variant_siblings_resolve_exactly_where_the_case_counts() {
    let mut idx = empty_index();
    let lower = idx.insert_enum(&enum_rec(frn(1), root(), "dir", true)).unwrap();
    let upper = idx.insert_enum(&enum_rec(frn(2), root(), "DIR", true)).unwrap();
    assert_eq!(resolve_scope(&idx, b"dir", true), Some(lower));
    assert_eq!(resolve_scope(&idx, b"DIR", true), Some(upper));
    assert_eq!(resolve_scope(&idx, b"Dir", true), None);
    assert_eq!(resolve_scope(&idx, b"Dir", false), Some(lower));
}

#[test]
fn repeated_literals_in_one_name_count_once() {
    let names: Vec<String> = vec!["aaa".into(), "aa.aa".into(), "b".into(), "baab".into()];
    let idx = flat_index(&names);
    assert_eq!(run(&idx, "aa"), vec!["aa.aa", "aaa", "baab"]);
    assert_eq!(run(&idx, "a a a"), vec!["aa.aa", "aaa", "baab"]);
    // The literal may not reach from one name into the next.
    assert!(run(&idx, "aaaa").is_empty());
    assert!(run(&idx, "\u{0}b").is_empty());
}
