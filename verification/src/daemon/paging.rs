//! A page of a reply, held against the whole of it, and one reply against the
//! next.

use super::answer::{
    frames_of, gathered, merged_rows, page_frame, reply_frames, reply_items, row_before, row_item, row_number,
    row_text, scope_in, volume_limit, volume_rows, Ask, Banner, Row,
};
use super::laws::{
    all_matches, law_content_decides_reply, law_covering_limit, law_scope_cache_is_faithful,
    lemma_gathered_matches, lemma_scope_in_use,
};
use super::merge::{concat, lemma_concat_at, lemma_concat_index, offset};
use super::stream::{asked, lemma_targets, same_volumes, vols_wf};
use super::volume::{cached_target, remembers, targets_of, volume_prefixes, VolumeState};
use crate::bytes::{lemma_lex_total, lemma_lex_transitive, lex_less};
use crate::proto::page::Item;
use crate::query::laws::law_matched;
use crate::query::model::{
    lemma_result_order_total, matched, page, page_end, page_start, ranking, result_order,
};
use crate::query::parse::ParsedQuery;
use crate::seqs::{lemma_map_multiset, lemma_permuted_members};
use crate::stable::{
    in_order, lemma_stable_sort_in_order, lemma_stable_sort_map, lemma_stable_sort_permutes,
    stable_sort, weak_order,
};
use crate::types::{EntryIdx, SortSpec, NIL};
use vstd::prelude::*;

verus! {

/// Each comes strictly before all that stand behind it.
pub open spec fn ascending<T>(s: Seq<T>, before: spec_fn(T, T) -> bool) -> bool {
    forall|i: int, j: int| 0 <= i < j < s.len() ==> before(#[trigger] s[i], #[trigger] s[j])
}

/// Coming before is never mutual.
pub open spec fn one_way<T>(before: spec_fn(T, T) -> bool) -> bool {
    forall|a: T, b: T| #[trigger] before(a, b) ==> !before(b, a)
}

/// Of two ascending lists, one within the other, the fronts are the same as far
/// as the front of the larger lies within the smaller.
proof fn lemma_same_front<T>(a: Seq<T>, b: Seq<T>, n: int, before: spec_fn(T, T) -> bool)
    requires
        one_way(before),
        ascending(a, before),
        ascending(b, before),
        0 <= n <= b.len(),
        forall|i: int| 0 <= i < a.len() ==> b.contains(#[trigger] a[i]),
        forall|i: int| 0 <= i < n ==> a.contains(#[trigger] b[i]),
    ensures
        n <= a.len(),
        a.take(n) == b.take(n),
    decreases n,
{
    if n > 0 {
        lemma_same_front(a, b, n - 1, before);
        let x = b[n - 1];
        assert(a.contains(x));
        let j = a.index_of(x);
        assert(a[j] == x);
        if j < n - 1 {
            assert(a.take(n - 1)[j] == b.take(n - 1)[j]);
            assert(before(b[j], b[n - 1]));
            assert(false);
        }
        if j > n - 1 {
            let y = a[n - 1];
            assert(before(y, a[j]));
            assert(b.contains(y));
            let k = b.index_of(y);
            assert(b[k] == y);
            if k > n - 1 {
                assert(before(b[n - 1], b[k]));
            } else if k < n - 1 {
                assert(a.take(n - 1)[k] == b.take(n - 1)[k]);
                assert(before(a[k], a[n - 1]));
            }
            assert(false);
        }
        assert(a.take(n) =~= b.take(n)) by {
            assert forall|i: int| 0 <= i < n implies a.take(n)[i] == b.take(n)[i] by {
                if i < n - 1 {
                    assert(a.take(n - 1)[i] == b.take(n - 1)[i]);
                }
            }
        }
    }
}

/// What stands at `j` in an ascending run stands no earlier in an ascending list
/// of all.
proof fn lemma_no_earlier<T>(
    all: Seq<T>,
    run: Seq<T>,
    j: int,
    i: int,
    before: spec_fn(T, T) -> bool,
)
    requires
        one_way(before),
        ascending(all, before),
        ascending(run, before),
        0 <= j < run.len(),
        0 <= i < all.len(),
        all[i] == run[j],
        forall|t: int| 0 <= t < run.len() ==> all.contains(#[trigger] run[t]),
    ensures
        j <= i,
    decreases j,
{
    if j > 0 {
        assert(all.contains(run[j - 1]));
        let p = all.index_of(run[j - 1]);
        assert(all[p] == run[j - 1]);
        assert(before(run[j - 1], run[j]));
        if p >= i {
            if p > i {
                assert(before(all[i], all[p]));
            }
            assert(false);
        }
        lemma_no_earlier(all, run, j - 1, p, before);
    }
}

/// A run cut to a limit.
pub open spec fn cut_run<T>(run: Seq<T>, limit: Option<u32>) -> Seq<T> {
    match limit {
        Some(l) => if l < run.len() {
            run.take(l as int)
        } else {
            run
        },
        None => run,
    }
}

/// The runs cut to a limit.
pub open spec fn cut_runs<T>(runs: Seq<Seq<T>>, limit: Option<u32>) -> Seq<Seq<T>> {
    runs.map_values(|r: Seq<T>| cut_run(r, limit))
}

/// What a row is ordered by.
pub open spec fn row_key(vols: Seq<VolumeState>, sort: SortSpec) -> spec_fn(Row) -> (
    int,
    Seq<u8>,
) {
    |r: Row| (row_number(vols, sort.key, r), row_text(vols, sort.key, r))
}

/// No two of the rows are ordered by the same.
pub open spec fn keys_differ(vols: Seq<VolumeState>, sort: SortSpec, rows: Seq<Row>) -> bool {
    rows.map_values(row_key(vols, sort)).no_duplicates()
}

/// The order of rows is a weak order.
pub(super) proof fn lemma_row_order(vols: Seq<VolumeState>, sort: SortSpec)
    ensures
        weak_order(row_before(vols, sort)),
        one_way(row_before(vols, sort)),
{
    let before = row_before(vols, sort);
    let text = |r: Row| row_text(vols, sort.key, r);
    assert forall|a: Row, b: Row| #[trigger] before(a, b) implies !before(b, a) by {
        lemma_lex_total(text(a), text(b));
    }
    assert forall|a: Row, b: Row, c: Row| #[trigger] before(a, b) && #[trigger] before(
        b,
        c,
    ) implies before(a, c) by {
        if lex_less(text(a), text(b)) && lex_less(text(b), text(c)) {
            lemma_lex_transitive(text(a), text(b), text(c));
        }
        if lex_less(text(c), text(b)) && lex_less(text(b), text(a)) {
            lemma_lex_transitive(text(c), text(b), text(a));
        }
    }
    assert forall|a: Row, b: Row, c: Row| #[trigger] before(a, c) implies before(a, b)
        || #[trigger] before(b, c) by {
        lemma_lex_total(text(a), text(b));
        lemma_lex_total(text(b), text(c));
        lemma_lex_total(text(a), text(c));
        if lex_less(text(c), text(b)) && lex_less(text(b), text(a)) {
            lemma_lex_transitive(text(c), text(b), text(a));
        }
        if lex_less(text(a), text(b)) && lex_less(text(b), text(c)) {
            lemma_lex_transitive(text(a), text(b), text(c));
        }
    }
}

/// Rows that are in order and differ in their keys ascend.
proof fn lemma_distinct_ascend(vols: Seq<VolumeState>, sort: SortSpec, rows: Seq<Row>)
    requires
        in_order(rows, row_before(vols, sort)),
        keys_differ(vols, sort, rows),
    ensures
        ascending(rows, row_before(vols, sort)),
{
    let before = row_before(vols, sort);
    let keys = rows.map_values(row_key(vols, sort));
    assert forall|i: int, j: int| 0 <= i < j < rows.len() implies before(
        #[trigger] rows[i],
        #[trigger] rows[j],
    ) by {
        assert(!before(rows[j], rows[i]));
        assert(keys[i] != keys[j]);
        lemma_lex_total(
            row_text(vols, sort.key, rows[i]),
            row_text(vols, sort.key, rows[j]),
        );
    }
}

/// Rows in another order differ in their keys as before.
proof fn lemma_permuted_differ(
    vols: Seq<VolumeState>,
    sort: SortSpec,
    a: Seq<Row>,
    b: Seq<Row>,
)
    requires
        a.to_multiset() == b.to_multiset(),
        keys_differ(vols, sort, a),
    ensures
        keys_differ(vols, sort, b),
{
    let f = row_key(vols, sort);
    lemma_map_multiset(a, b, f);
    a.map_values(f).lemma_multiset_has_no_duplicates();
    b.map_values(f).lemma_multiset_has_no_duplicates_conv();
}

/// The runs brought into one order ascend and hold what the runs hold.
proof fn lemma_merged_ascend(vols: Seq<VolumeState>, runs: Seq<Seq<Row>>, sort: SortSpec)
    requires
        keys_differ(vols, sort, concat(runs)),
        forall|r: int|
            0 <= r < runs.len() ==> ascending(#[trigger] runs[r], row_before(vols, sort)),
    ensures
        ascending(merged_rows(vols, runs, sort), row_before(vols, sort)),
        merged_rows(vols, runs, sort).to_multiset() == concat(runs).to_multiset(),
{
    let before = row_before(vols, sort);
    lemma_row_order(vols, sort);
    if runs.len() == 1 {
        assert(runs.drop_last() =~= Seq::<Seq<Row>>::empty());
        assert(concat(runs.drop_last()) =~= Seq::<Row>::empty());
        assert(concat(runs) =~= runs[0]);
    } else if runs.len() > 1 {
        lemma_stable_sort_permutes(concat(runs), before);
        lemma_stable_sort_in_order(concat(runs), before);
        lemma_permuted_differ(vols, sort, concat(runs), stable_sort(concat(runs), before));
        lemma_distinct_ascend(vols, sort, stable_sort(concat(runs), before));
    }
}

/// Runs that were cut differ in their keys as the whole ones do.
proof fn lemma_cut_differ(
    vols: Seq<VolumeState>,
    sort: SortSpec,
    runs: Seq<Seq<Row>>,
    limit: Option<u32>,
)
    requires
        keys_differ(vols, sort, concat(runs)),
    ensures
        keys_differ(vols, sort, concat(cut_runs(runs, limit))),
{
    let cut = cut_runs(runs, limit);
    let f = row_key(vols, sort);
    let some = concat(cut);
    let all = concat(runs);
    assert forall|p: int, q: int| 0 <= p < q < some.len() implies f(some[p]) != f(some[q]) by {
        let a = lemma_concat_index(cut, p);
        let b = lemma_concat_index(cut, q);
        assert(cut[a.0] == cut_run(runs[a.0], limit));
        assert(cut[b.0] == cut_run(runs[b.0], limit));
        lemma_concat_at(runs, a.0, a.1);
        lemma_concat_at(runs, b.0, b.1);
        let i = offset(runs, a.0) + a.1;
        let j = offset(runs, b.0) + b.1;
        if i == j {
            lemma_offset_unique(runs, a, b);
        }
        assert(all.map_values(f)[i] != all.map_values(f)[j]);
    }
    assert(some.map_values(f).no_duplicates());
}

/// Each place in a concatenation is one place in one run.
proof fn lemma_offset_unique<T>(runs: Seq<Seq<T>>, a: (int, int), b: (int, int))
    requires
        0 <= a.0 < runs.len(),
        0 <= a.1 < runs[a.0].len(),
        0 <= b.0 < runs.len(),
        0 <= b.1 < runs[b.0].len(),
        offset(runs, a.0) + a.1 == offset(runs, b.0) + b.1,
    ensures
        a == b,
{
    if a.0 < b.0 {
        super::merge::lemma_offset_ascends(runs, a.0, b.0);
    } else if b.0 < a.0 {
        super::merge::lemma_offset_ascends(runs, b.0, a.0);
    }
}

/// Cutting runs to a limit changes nothing in the front of what they merge to,
/// as far as the limit goes.
proof fn lemma_front_of_merge(
    vols: Seq<VolumeState>,
    runs: Seq<Seq<Row>>,
    sort: SortSpec,
    limit: u32,
)
    requires
        keys_differ(vols, sort, concat(runs)),
        forall|r: int|
            0 <= r < runs.len() ==> ascending(#[trigger] runs[r], row_before(vols, sort)),
        limit <= merged_rows(vols, runs, sort).len(),
    ensures
        ({
            let cut = merged_rows(vols, cut_runs(runs, Some(limit)), sort);
            &&& limit <= cut.len()
            &&& cut.take(limit as int) == merged_rows(vols, runs, sort).take(limit as int)
        }),
{
    let before = row_before(vols, sort);
    let cut = cut_runs(runs, Some(limit));
    let a = merged_rows(vols, cut, sort);
    let b = merged_rows(vols, runs, sort);
    lemma_row_order(vols, sort);
    lemma_cut_differ(vols, sort, runs, Some(limit));
    assert forall|r: int| 0 <= r < cut.len() implies ascending(#[trigger] cut[r], before) by {
        assert(cut[r] == cut_run(runs[r], Some(limit)));
        assert(ascending(runs[r], before));
    }
    lemma_merged_ascend(vols, runs, sort);
    lemma_merged_ascend(vols, cut, sort);
    assert forall|r: int, j: int| 0 <= r < runs.len() && 0 <= j < runs[r].len() implies b.contains(
        #[trigger] runs[r][j],
    ) by {
        lemma_concat_at(runs, r, j);
        assert(concat(runs).contains(runs[r][j]));
        lemma_permuted_members(b, concat(runs), runs[r][j]);
    }
    assert forall|i: int| 0 <= i < a.len() implies b.contains(#[trigger] a[i]) by {
        assert(a.contains(a[i]));
        lemma_permuted_members(a, concat(cut), a[i]);
        let at = lemma_concat_index(cut, concat(cut).index_of(a[i]));
        assert(cut[at.0] == cut_run(runs[at.0], Some(limit)));
        assert(b.contains(runs[at.0][at.1]));
    }
    assert forall|i: int| 0 <= i < limit implies a.contains(#[trigger] b[i]) by {
        assert(b.contains(b[i]));
        lemma_permuted_members(b, concat(runs), b[i]);
        let at = lemma_concat_index(runs, concat(runs).index_of(b[i]));
        assert forall|t: int| 0 <= t < runs[at.0].len() implies b.contains(
            #[trigger] runs[at.0][t],
        ) by {}
        lemma_no_earlier(b, runs[at.0], at.1, i, before);
        assert(cut[at.0] == cut_run(runs[at.0], Some(limit)));
        assert(cut[at.0][at.1] == b[i]);
        lemma_concat_at(cut, at.0, at.1);
        assert(concat(cut).contains(b[i]));
        lemma_permuted_members(a, concat(cut), b[i]);
    }
    lemma_same_front(a, b, limit as int, before);
}

/// A volume's rows, where their keys differ: they ascend, and a limit takes
/// their front.
proof fn lemma_volume_rows_cut(
    vols: Seq<VolumeState>,
    k: int,
    q: ParsedQuery,
    scope: Option<EntryIdx>,
    ask: Ask,
)
    requires
        vols_wf(vols),
        0 <= k < vols.len(),
        scope is Some ==> vols[k].index@.in_range(scope->0),
        !(ask.sort.key is Path),
        keys_differ(
            vols,
            ask.sort,
            matched(vols[k].index@, q, scope).map_values(|i: EntryIdx| (k, i)),
        ),
    ensures
        ({
            let whole = volume_rows(vols, k, q, scope, Ask { offset: 0, limit: None, ..ask });
            &&& ascending(whole, row_before(vols, ask.sort))
            &&& whole.len() == matched(vols[k].index@, q, scope).len()
            &&& whole.len() <= NIL
            &&& volume_rows(vols, k, q, scope, ask) == cut_run(whole, volume_limit(ask))
        }),
{
    let v = vols[k].index@;
    let sort = ask.sort;
    let before = row_before(vols, sort);
    let row = |i: EntryIdx| (k, i);
    let m = matched(v, q, scope);
    let found = m.map_values(row);
    let whole = stable_sort(found, before);
    assert(volume_rows(vols, k, q, scope, Ask { offset: 0, limit: None, ..ask }) == whole);
    assert(vols[k].index.wf());
    law_matched(v, q, scope);
    lemma_row_order(vols, sort);
    lemma_stable_sort_permutes(found, before);
    lemma_stable_sort_in_order(found, before);
    lemma_permuted_differ(vols, sort, found, whole);
    lemma_distinct_ascend(vols, sort, whole);
    if page_end(m.len(), 0, volume_limit(ask)) < m.len() {
        let l = volume_limit(ask)->0;
        let r = ranking(v, q, scope, sort);
        let ranked = r.map_values(row);
        lemma_result_order_total(v, sort);
        m.lemma_sort_by_ensures(result_order(v, sort));
        lemma_map_multiset(m, r, row);
        lemma_permuted_differ(vols, sort, found, ranked);
        lemma_permuted_members(found, ranked, (k, 0));
        let keys = ranked.map_values(row_key(vols, sort));
        assert forall|i: int, j: int| 0 <= i < j < ranked.len() implies before(
            #[trigger] ranked[i],
            #[trigger] ranked[j],
        ) by {
            assert(result_order(v, sort)(r[i], r[j]));
            assert(keys[i] != keys[j]);
            assert(ranked[i] == (k, r[i]) && ranked[j] == (k, r[j]));
            lemma_lex_total(
                row_text(vols, sort.key, ranked[i]),
                row_text(vols, sort.key, ranked[j]),
            );
        }
        assert forall|i: int| 0 <= i < ranked.len() implies whole.contains(#[trigger] ranked[i]) by {
            assert(ranked.contains(ranked[i]));
            lemma_permuted_members(ranked, found, ranked[i]);
            lemma_permuted_members(whole, found, ranked[i]);
        }
        assert forall|i: int| 0 <= i < whole.len() implies ranked.contains(#[trigger] whole[i]) by {
            assert(whole.contains(whole[i]));
            lemma_permuted_members(ranked, found, whole[i]);
            lemma_permuted_members(whole, found, whole[i]);
        }
        lemma_same_front(ranked, whole, whole.len() as int, before);
        assert(ranked =~= whole) by {
            assert(ranked.take(whole.len() as int) =~= ranked);
            assert(whole.take(whole.len() as int) =~= whole);
        }
        assert(page(r, 0, volume_limit(ask)).map_values(row) =~= ranked.take(l as int));
    }
}

/// The same request without a page: everything, from the start.
pub open spec fn whole(ask: Ask) -> Ask {
    Ask { offset: 0, limit: None, ..ask }
}

/// What the first `n` targets give to a page is what they give in all, each run
/// cut to the limit.
proof fn lemma_gathered_cut(
    vols: Seq<VolumeState>,
    targets: Seq<(int, Option<Seq<u8>>)>,
    q: ParsedQuery,
    ask: Ask,
    n: int,
)
    requires
        vols_wf(vols),
        0 <= n <= targets.len(),
        forall|a: int| 0 <= a < targets.len() ==> 0 <= (#[trigger] targets[a]).0 < vols.len(),
        !(ask.sort.key is Path),
        volume_limit(ask) != Some(0u32),
        keys_differ(vols, ask.sort, all_matches(vols, targets, q, ask.match_case, n)),
    ensures
        ({
            let g = gathered(vols, targets, q, ask, n);
            let w = gathered(vols, targets, q, whole(ask), n);
            &&& g.runs == cut_runs(w.runs, volume_limit(ask))
            &&& g.total == w.total
            &&& g.incomplete == w.incomplete
            &&& g.pending == w.pending
            &&& forall|r: int|
                0 <= r < w.runs.len() ==> ascending(
                    #[trigger] w.runs[r],
                    row_before(vols, ask.sort),
                ) && w.runs[r].len() <= NIL
        }),
    decreases n,
{
    let limit = volume_limit(ask);
    if n > 0 {
        let f = row_key(vols, ask.sort);
        let g = gathered(vols, targets, q, ask, n - 1);
        let w = gathered(vols, targets, q, whole(ask), n - 1);
        let t = targets[n - 1];
        let earlier = all_matches(vols, targets, q, ask.match_case, n - 1);
        match scope_in(vols, t, ask.match_case) {
            None => {
                lemma_gathered_cut(vols, targets, q, ask, n - 1);
            },
            Some(scope) => {
                let v = vols[t.0].index@;
                let row = |i: EntryIdx| (t.0, i);
                let found = matched(v, q, scope).map_values(row);
                let both = (earlier + found).map_values(f);
                assert(keys_differ(vols, ask.sort, earlier)) by {
                    assert forall|i: int, j: int| 0 <= i < j < earlier.len() implies f(
                        #[trigger] earlier[i],
                    ) != f(#[trigger] earlier[j]) by {
                        assert(both[i] != both[j]);
                    }
                    assert(earlier.map_values(f).no_duplicates());
                }
                assert(keys_differ(vols, ask.sort, found)) by {
                    assert forall|i: int, j: int| 0 <= i < j < found.len() implies f(
                        #[trigger] found[i],
                    ) != f(#[trigger] found[j]) by {
                        assert(both[earlier.len() + i] != both[earlier.len() + j]);
                    }
                    assert(found.map_values(f).no_duplicates());
                }
                lemma_gathered_cut(vols, targets, q, ask, n - 1);
                assert(0 <= t.0 < vols.len());
                assert(vols[t.0].index.wf());
                if scope is Some {
                    lemma_scope_in_use(v, vols[t.0].scope_cache, t.1->0, ask.match_case);
                }
                lemma_volume_rows_cut(vols, t.0, q, scope, ask);
                let all = volume_rows(vols, t.0, q, scope, whole(ask));
                let some = volume_rows(vols, t.0, q, scope, ask);
                assert(some == cut_run(all, limit));
                assert(cut_runs(w.runs.push(all), limit) =~= cut_runs(w.runs, limit).push(some));
            },
        }
    } else {
        assert(cut_runs(Seq::<Seq<Row>>::empty(), limit) =~= Seq::<Seq<Row>>::empty());
    }
}

/// A page of what the runs merge to is the same, whether or not they were cut to
/// what the page can take.
proof fn lemma_page_of_merge(vols: Seq<VolumeState>, runs: Seq<Seq<Row>>, ask: Ask)
    requires
        volume_limit(ask) != Some(0u32),
        keys_differ(vols, ask.sort, concat(runs)),
        forall|r: int|
            0 <= r < runs.len() ==> ascending(#[trigger] runs[r], row_before(vols, ask.sort))
                && runs[r].len() <= NIL,
    ensures
        page(
            merged_rows(vols, cut_runs(runs, volume_limit(ask)), ask.sort),
            ask.offset,
            ask.limit,
        ) == page(merged_rows(vols, runs, ask.sort), ask.offset, ask.limit),
{
    let before = row_before(vols, ask.sort);
    let limit = volume_limit(ask);
    let cut = cut_runs(runs, limit);
    let b = merged_rows(vols, runs, ask.sort);
    if exists|r: int| 0 <= r < runs.len() && limit is Some && limit->0 < (#[trigger] runs[r]).len() {
        let r = choose|r: int|
            0 <= r < runs.len() && limit is Some && limit->0 < (#[trigger] runs[r]).len();
        let l = limit->0;
        assert(l < NIL);
        assert(l == ask.offset + ask.limit->0);
        lemma_row_order(vols, ask.sort);
        lemma_merged_ascend(vols, runs, ask.sort);
        assert forall|t: int| 0 <= t < runs[r].len() implies b.contains(#[trigger] runs[r][t]) by {
            lemma_concat_at(runs, r, t);
            assert(concat(runs).contains(runs[r][t]));
            lemma_permuted_members(b, concat(runs), runs[r][t]);
        }
        assert(b.contains(runs[r][l as int]));
        lemma_no_earlier(b, runs[r], l as int, b.index_of(runs[r][l as int]), before);
        lemma_front_of_merge(vols, runs, ask.sort, l);
        let a = merged_rows(vols, cut, ask.sort);
        assert(page(a, ask.offset, ask.limit) =~= a.take(l as int).skip(ask.offset as int));
        assert(page(b, ask.offset, ask.limit) =~= b.take(l as int).skip(ask.offset as int));
    } else {
        assert forall|r: int| 0 <= r < runs.len() implies cut[r] == #[trigger] runs[r] by {
            assert(cut[r] == cut_run(runs[r], limit));
        }
        assert(cut =~= runs);
    }
}

/// A page of a reply is that part of the whole reply, also over several volumes:
/// whatever the offset and the limit, its rows are those that stand there in the
/// reply without them, which is in order throughout; a page behind the end has
/// none, and comes in one frame. The number of matches is the same. This is so
/// where no two matches are ordered by the same, say two with the same name in
/// an order by name, and for every order but that by path.
pub proof fn law_page_is_slice(
    vols: Seq<VolumeState>,
    scope: Option<Seq<char>>,
    q: ParsedQuery,
    ask: Ask,
)
    requires
        vols_wf(vols),
        !(ask.sort.key is Path),
        keys_differ(
            vols,
            ask.sort,
            all_matches(
                vols,
                targets_of(vols, scope),
                q,
                ask.match_case,
                targets_of(vols, scope).len() as int,
            ),
        ),
    ensures
        ({
            let targets = targets_of(vols, scope);
            let n = targets.len() as int;
            let g = gathered(vols, targets, q, ask, n);
            let w = gathered(vols, targets, q, whole(ask), n);
            let all = reply_items(vols, w, whole(ask));
            let rows = merged_rows(vols, w.runs, ask.sort);
            &&& ascending(rows, row_before(vols, ask.sort))
            &&& all == rows.map_values(|r: Row| row_item(vols, ask, r))
            &&& reply_items(vols, g, ask) == page(all, ask.offset, ask.limit)
            &&& g.total == w.total
            &&& reply_frames(vols, targets, q, ask) == frames_of(
                Banner { total: w.total as u64, incomplete: w.incomplete, pending: w.pending },
                page(all, ask.offset, ask.limit),
            )
            &&& ask.offset >= all.len() ==> reply_frames(vols, targets, q, ask) == seq![
                page_frame(
                    Banner {
                        total: w.total as u64,
                        incomplete: w.incomplete,
                        pending: w.pending,
                    },
                    false,
                    seq![],
                ),
            ]
        }),
{
    let targets = targets_of(vols, scope);
    let n = targets.len() as int;
    let g = gathered(vols, targets, q, ask, n);
    let w = gathered(vols, targets, q, whole(ask), n);
    let rows = merged_rows(vols, w.runs, ask.sort);
    let item = |r: Row| row_item(vols, ask, r);
    let all = reply_items(vols, w, whole(ask));
    lemma_targets(vols, scope);
    lemma_gathered_cut(vols, targets, q, whole(ask), n);
    lemma_gathered_matches(vols, targets, q, whole(ask), n);
    lemma_permuted_differ(
        vols,
        ask.sort,
        all_matches(vols, targets, q, ask.match_case, n),
        concat(w.runs),
    );
    lemma_merged_ascend(vols, w.runs, ask.sort);
    assert(page(rows, 0, None) =~= rows);
    assert(all =~= rows.map_values(item)) by {
        assert forall|k: int| 0 <= k < rows.len() implies row_item(vols, whole(ask), rows[k])
            == row_item(vols, ask, #[trigger] rows[k]) by {}
    }
    assert(page(all, ask.offset, ask.limit) =~= page(rows, ask.offset, ask.limit).map_values(item));
    if volume_limit(ask) == Some(0u32) {
        lemma_gathered_counts(vols, targets, q, ask, n);
        let some = merged_rows(vols, g.runs, ask.sort);
        assert(page(some, ask.offset, ask.limit) =~= Seq::<Row>::empty());
        assert(page(rows, ask.offset, ask.limit) =~= Seq::<Row>::empty());
    } else {
        lemma_gathered_cut(vols, targets, q, ask, n);
        lemma_page_of_merge(vols, w.runs, ask);
    }
    assert(reply_items(vols, g, ask) =~= page(all, ask.offset, ask.limit));
    if ask.offset >= all.len() {
        assert(page(all, ask.offset, ask.limit) =~= Seq::<Item>::empty());
    }
}

/// How many matches there are, and how complete the volumes, does not hang on
/// the page.
proof fn lemma_gathered_counts(
    vols: Seq<VolumeState>,
    targets: Seq<(int, Option<Seq<u8>>)>,
    q: ParsedQuery,
    ask: Ask,
    n: int,
)
    ensures
        ({
            let g = gathered(vols, targets, q, ask, n);
            let w = gathered(vols, targets, q, whole(ask), n);
            &&& g.total == w.total
            &&& g.incomplete == w.incomplete
            &&& g.pending == w.pending
        }),
    decreases n,
{
    if n > 0 {
        lemma_gathered_counts(vols, targets, q, ask, n - 1);
    }
}

/// Every row is of one of the volumes.
spec fn rows_in_range(vols: Seq<VolumeState>, rows: Seq<Row>) -> bool {
    forall|j: int| 0 <= j < rows.len() ==> 0 <= (#[trigger] rows[j]).0 < vols.len()
}

/// Sorting goes by nothing that a query changes.
proof fn lemma_sorts_alike(
    before: Seq<VolumeState>,
    after: Seq<VolumeState>,
    sort: SortSpec,
    rows: Seq<Row>,
)
    requires
        same_volumes(after, before),
        rows_in_range(before, rows),
    ensures
        stable_sort(rows, row_before(after, sort)) == stable_sort(rows, row_before(before, sort)),
        rows_in_range(before, stable_sort(rows, row_before(before, sort))),
{
    let id = |r: Row| r;
    let a = row_before(after, sort);
    let b = row_before(before, sort);
    assert forall|i: int, j: int| 0 <= i < rows.len() && 0 <= j < rows.len() implies a(
        #[trigger] rows[i],
        #[trigger] rows[j],
    ) == b(id(rows[i]), id(rows[j])) by {
        assert(after[rows[i].0].index == before[rows[i].0].index);
        assert(after[rows[j].0].index == before[rows[j].0].index);
    }
    lemma_stable_sort_map(rows, id, a, b);
    assert(rows.map_values(id) =~= rows);
    assert(stable_sort(rows, a).map_values(id) =~= stable_sort(rows, a));
    let sorted = stable_sort(rows, b);
    lemma_stable_sort_permutes(rows, b);
    assert forall|j: int| 0 <= j < sorted.len() implies 0 <= (#[trigger] sorted[j]).0
        < before.len() by {
        assert(sorted.contains(sorted[j]));
        lemma_permuted_members(sorted, rows, sorted[j]);
        assert(rows[rows.index_of(sorted[j])] == sorted[j]);
    }
}

/// A scope leads where it led before it was asked for.
proof fn lemma_scope_leads_alike(
    before: Seq<VolumeState>,
    after: Seq<VolumeState>,
    targets: Seq<(int, Option<Seq<u8>>)>,
    remembered_case: bool,
    match_case: bool,
    n: int,
)
    requires
        asked(before, after, targets, remembered_case),
        0 <= n < targets.len(),
        0 <= targets[n].0 < before.len(),
    ensures
        scope_in(after, targets[n], match_case) == scope_in(before, targets[n], match_case),
{
    let t = targets[n];
    assert(after[t.0].index == before[t.0].index);
    assert(remembers(
        before[t.0].index@,
        before[t.0].scope_cache,
        after[t.0].scope_cache,
        t.1,
        remembered_case,
    ));
    if t.1 is Some && !match_case && !remembered_case && cached_target(
        before[t.0].index@,
        before[t.0].scope_cache,
        t.1->0,
        false,
    ) is Some {
        law_scope_cache_is_faithful(
            before[t.0].index@,
            before[t.0].scope_cache,
            after[t.0].scope_cache,
            t.1->0,
        );
    }
}

/// What the first `n` targets give is not changed by having been asked for.
proof fn lemma_gathered_again(
    before: Seq<VolumeState>,
    after: Seq<VolumeState>,
    targets: Seq<(int, Option<Seq<u8>>)>,
    q: ParsedQuery,
    ask: Ask,
    remembered_case: bool,
    n: int,
)
    requires
        asked(before, after, targets, remembered_case),
        0 <= n <= targets.len(),
        forall|a: int| 0 <= a < targets.len() ==> 0 <= (#[trigger] targets[a]).0 < before.len(),
    ensures
        gathered(after, targets, q, ask, n) == gathered(before, targets, q, ask, n),
        rows_in_range(before, concat(gathered(before, targets, q, ask, n).runs)),
    decreases n,
{
    if n > 0 {
        lemma_gathered_again(before, after, targets, q, ask, remembered_case, n - 1);
        let g = gathered(before, targets, q, ask, n - 1);
        let t = targets[n - 1];
        assert(after[t.0].index == before[t.0].index);
        lemma_scope_leads_alike(before, after, targets, remembered_case, ask.match_case, n - 1);
        match scope_in(before, t, ask.match_case) {
            None => {},
            Some(scope) => {
                let v = before[t.0].index@;
                let row = |i: EntryIdx| (t.0, i);
                let found = matched(v, q, scope).map_values(row);
                lemma_sorts_alike(before, after, ask.sort, found);
                let rows = volume_rows(before, t.0, q, scope, ask);
                assert(volume_rows(after, t.0, q, scope, ask) == rows);
                assert(rows_in_range(before, rows));
                assert(g.runs.push(rows).drop_last() =~= g.runs);
            },
        }
    }
}

/// Asking changes no reply: once a query was answered, one with the same scope is
/// answered as it would have been before.
pub proof fn law_asking_changes_no_reply(
    before: Seq<VolumeState>,
    after: Seq<VolumeState>,
    scope: Option<Seq<char>>,
    remembered_case: bool,
    q: ParsedQuery,
    ask: Ask,
)
    requires
        asked(before, after, targets_of(before, scope), remembered_case),
    ensures
        targets_of(after, scope) == targets_of(before, scope),
        reply_frames(after, targets_of(after, scope), q, ask) == reply_frames(
            before,
            targets_of(before, scope),
            q,
            ask,
        ),
{
    let targets = targets_of(before, scope);
    let n = targets.len() as int;
    assert(volume_prefixes(after) =~= volume_prefixes(before)) by {
        assert forall|k: int| 0 <= k < before.len() implies (#[trigger] after[k]).prefix_bytes()
            == before[k].prefix_bytes() by {}
    }
    lemma_targets(before, scope);
    lemma_gathered_again(before, after, targets, q, ask, remembered_case, n);
    let g = gathered(before, targets, q, ask, n);
    let rows = merged_rows(before, g.runs, ask.sort);
    if g.runs.len() == 1 {
        assert(g.runs.drop_last() =~= Seq::<Seq<Row>>::empty());
        assert(concat(g.runs.drop_last()) =~= Seq::<Row>::empty());
        assert(concat(g.runs) =~= g.runs[0]);
    } else if g.runs.len() > 1 {
        lemma_sorts_alike(before, after, ask.sort, concat(g.runs));
    }
    assert(merged_rows(after, g.runs, ask.sort) == rows);
    assert(rows_in_range(before, rows));
    let cut = page(rows, ask.offset, ask.limit);
    assert forall|k: int| 0 <= k < cut.len() implies row_item(after, ask, #[trigger] cut[k])
        == row_item(before, ask, cut[k]) by {
        let r = rows[page_start(rows.len(), ask.offset) + k];
        assert(cut[k] == r);
        assert(after[r.0].index == before[r.0].index);
    }
    assert(reply_items(after, g, ask) =~= reply_items(before, g, ask));
}

/// Of two calls one after the other, that with a limit at or above the number of
/// matches is answered as that without one, if they ask for the same otherwise.
pub proof fn law_covering_limit_later(
    before: Seq<VolumeState>,
    after: Seq<VolumeState>,
    scope: Option<Seq<char>>,
    first: ParsedQuery,
    second: ParsedQuery,
    ask: Ask,
    limit: u32,
)
    requires
        asked(before, after, targets_of(before, scope), ask.match_case),
        first.model() == second.model(),
        gathered(
            before,
            targets_of(before, scope),
            first,
            (Ask { limit: None, ..ask }),
            targets_of(before, scope).len() as int,
        ).total <= limit,
    ensures
        reply_frames(
            after,
            targets_of(after, scope),
            second,
            (Ask { limit: Some(limit), ..ask }),
        ) == reply_frames(
            before,
            targets_of(before, scope),
            first,
            (Ask { limit: None, ..ask }),
        ),
        reply_frames(after, targets_of(after, scope), second, (Ask { limit: None, ..ask }))
            == reply_frames(
            before,
            targets_of(before, scope),
            first,
            (Ask { limit: Some(limit), ..ask }),
        ),
{
    let targets = targets_of(before, scope);
    let some = Ask { limit: Some(limit), ..ask };
    let none = Ask { limit: None, ..ask };
    law_covering_limit(before, targets, first, ask, limit);
    law_content_decides_reply(before, targets, first, second, some);
    law_content_decides_reply(before, targets, first, second, none);
    law_asking_changes_no_reply(before, after, scope, ask.match_case, second, some);
    law_asking_changes_no_reply(before, after, scope, ask.match_case, second, none);
}

/// Of two calls one after the other, the second for a page of what the first
/// asked for in full, the page is that part of the whole reply.
pub proof fn law_page_is_slice_later(
    before: Seq<VolumeState>,
    after: Seq<VolumeState>,
    scope: Option<Seq<char>>,
    first: ParsedQuery,
    second: ParsedQuery,
    ask: Ask,
)
    requires
        vols_wf(before),
        asked(before, after, targets_of(before, scope), ask.match_case),
        first.model() == second.model(),
        !(ask.sort.key is Path),
        keys_differ(
            before,
            ask.sort,
            all_matches(
                before,
                targets_of(before, scope),
                first,
                ask.match_case,
                targets_of(before, scope).len() as int,
            ),
        ),
    ensures
        ({
            let targets = targets_of(before, scope);
            let w = gathered(before, targets, first, whole(ask), targets.len() as int);
            let b = Banner {
                total: w.total as u64,
                incomplete: w.incomplete,
                pending: w.pending,
            };
            let all = reply_items(before, w, whole(ask));
            &&& reply_frames(before, targets, first, whole(ask)) == frames_of(b, all)
            &&& reply_frames(after, targets_of(after, scope), second, ask) == frames_of(
                b,
                page(all, ask.offset, ask.limit),
            )
        }),
{
    law_page_is_slice(before, scope, first, ask);
    law_content_decides_reply(before, targets_of(before, scope), first, second, ask);
    law_asking_changes_no_reply(before, after, scope, ask.match_case, second, ask);
}

} // verus!
