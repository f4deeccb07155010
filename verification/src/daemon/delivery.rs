//! What a client gets, said of the entries of the volumes' indexes and of the
//! bytes that are sent.

use super::answer::{
    gathered, merged_rows, page_frame, reply_frames, reply_items, row_before, row_item, row_path,
    scope_in, volume_limit, volume_rows, Ask, Banner, Row,
};
use super::laws::{frame_rows, law_frames, lemma_scope_in_use};
use super::merge::{concat, lemma_concat_index};
use super::paging::lemma_row_order;
use super::stream::vols_wf;
use super::volume::VolumeState;
use crate::bytes::lex_less;
use crate::fold::folded;
use crate::proto::number::{le4, lemma_le4, value4};
use crate::proto::page::{law_page_comes_back, page_bytes, read_page, Header};
use crate::query::laws::{law_matched, law_ranking};
use crate::query::model::{matched, page, ranking, result_order};
use crate::query::parse::ParsedQuery;
use crate::seqs::lemma_permuted_members;
use crate::stable::{
    in_order, lemma_stable_sort_in_order, lemma_stable_sort_permutes, weak_order,
};
use crate::types::{EntryIdx, SortDir, SortSpec};
use vstd::prelude::*;

verus! {

/// The rows of a reply, in the order in which they are sent.
pub open spec fn reply_rows(
    vols: Seq<VolumeState>,
    targets: Seq<(int, Option<Seq<u8>>)>,
    q: ParsedQuery,
    ask: Ask,
) -> Seq<Row> {
    page(
        merged_rows(
            vols,
            gathered(vols, targets, q, ask, targets.len() as int).runs,
            ask.sort,
        ),
        ask.offset,
        ask.limit,
    )
}

/// Every target is a volume.
pub open spec fn targets_there(
    vols: Seq<VolumeState>,
    targets: Seq<(int, Option<Seq<u8>>)>,
) -> bool {
    forall|a: int| 0 <= a < targets.len() ==> 0 <= (#[trigger] targets[a]).0 < vols.len()
}

/// What the frames of a reply say to a client that decodes them. The `f`-th
/// holds the rows from the place 4096 times `f` on, 4096 of them but for the
/// last frame, which alone says that no more follow. Each row is sent as the
/// index of its volume has it: its path behind the volume's prefix, whether it
/// is a directory, its very size where sizes are wanted, and its very time where
/// times are wanted; where they are not wanted, none is sent. The frame's length
/// stands in front of it.
pub proof fn law_rows_are_sent(
    vols: Seq<VolumeState>,
    targets: Seq<(int, Option<Seq<u8>>)>,
    q: ParsedQuery,
    ask: Ask,
    f: int,
)
    requires
        0 <= f < reply_frames(vols, targets, q, ask).len(),
        forall|k: int|
            0 <= k < reply_rows(vols, targets, q, ask).len() ==> {
                let r = #[trigger] reply_rows(vols, targets, q, ask)[k];
                vols[r.0].prefix_bytes().len() + vols[r.0].index@.path_of(r.1)->0.len() <= u32::MAX
            },
    ensures
        ({
            let frames = reply_frames(vols, targets, q, ask);
            let rows = reply_rows(vols, targets, q, ask);
            let left = rows.len() - 4096 * f;
            let g = gathered(vols, targets, q, ask, targets.len() as int);
            let bytes = frames[f];
            &&& bytes.len() >= 4
            &&& bytes.len() - 4 <= u32::MAX ==> value4(bytes.take(4)) == bytes.len() - 4
            &&& read_page(bytes.skip(4)) is Some
            &&& ({
                let (head, items) = read_page(bytes.skip(4))->0;
                &&& head.more <==> f + 1 < frames.len()
                &&& head.more ==> items.len() == 4096
                &&& !head.more ==> items.len() == left && left <= 4096
                &&& head.rows == items.len()
                &&& g.total <= u64::MAX ==> head.total == g.total
                &&& head.volumes_incomplete == g.incomplete
                &&& head.metadata_pending == g.pending
                &&& forall|j: int|
                    0 <= j < items.len() ==> {
                        let r = rows[4096 * f + j];
                        let v = vols[r.0].index@;
                        let item = #[trigger] items[j];
                        &&& item.path == vols[r.0].prefix_bytes() + v.path_of(r.1)->0
                        &&& item.is_dir == v.entry(r.1).is_dir
                        &&& ask.want_size ==> item.size == v.entry(r.1).size
                        &&& !ask.want_size ==> item.size is None
                        &&& ask.want_mtime ==> item.mtime == v.entry(r.1).mtime
                        &&& !ask.want_mtime ==> item.mtime is None
                    }
            })
        }),
{
    let rows = reply_rows(vols, targets, q, ask);
    let g = gathered(vols, targets, q, ask, targets.len() as int);
    let b = Banner { total: g.total as u64, incomplete: g.incomplete, pending: g.pending };
    let items = reply_items(vols, g, ask);
    let frames = reply_frames(vols, targets, q, ask);
    law_frames(b, items);
    assert(items.len() == rows.len());
    let more = f + 1 < frames.len();
    let part = frame_rows(items, f);
    assert(frames[f] == page_frame(b, more, part));
    assert(frames.len() == super::laws::frame_count(items.len()));
    assert(more ==> 4096 * (f + 1) <= items.len());
    assert(!more ==> 4096 * f <= items.len() <= 4096 * (f + 1));
    assert(part.len() <= 4096);
    let head = Header {
        total: b.total,
        generation: 0,
        more,
        volumes_incomplete: b.incomplete,
        metadata_pending: b.pending,
        rows: part.len() as u32,
    };
    assert forall|j: int| 0 <= j < part.len() implies (#[trigger] part[j]) == row_item(
        vols,
        ask,
        rows[4096 * f + j],
    ) && part[j].path.len() <= u32::MAX by {
        assert(part[j] == items[4096 * f + j]);
        let r = rows[4096 * f + j];
        assert(row_path(vols, r) == vols[r.0].index@.path_of(r.1)->0);
    }
    law_page_comes_back(head, part);
    let payload = page_bytes(head, part);
    let bytes = frames[f];
    lemma_le4(payload.len() as u32);
    assert(bytes.take(4) =~= le4(payload.len() as u32));
    assert(bytes.skip(4) =~= payload);
}

/// Every run is what some target gave.
proof fn lemma_runs_from_targets(
    vols: Seq<VolumeState>,
    targets: Seq<(int, Option<Seq<u8>>)>,
    q: ParsedQuery,
    ask: Ask,
    n: int,
    r: int,
) -> (k: int)
    requires
        0 <= n <= targets.len(),
        0 <= r < gathered(vols, targets, q, ask, n).runs.len(),
    ensures
        0 <= k < n,
        scope_in(vols, targets[k], ask.match_case) is Some,
        gathered(vols, targets, q, ask, n).runs[r] == volume_rows(
            vols,
            targets[k].0,
            q,
            scope_in(vols, targets[k], ask.match_case)->0,
            ask,
        ),
    decreases n,
{
    let g = gathered(vols, targets, q, ask, n - 1);
    if r < g.runs.len() {
        lemma_runs_from_targets(vols, targets, q, ask, n - 1, r)
    } else {
        n - 1
    }
}

/// A scope that a target leads to is an entry of its volume.
proof fn lemma_scope_there(
    vols: Seq<VolumeState>,
    targets: Seq<(int, Option<Seq<u8>>)>,
    match_case: bool,
    k: int,
)
    requires
        vols_wf(vols),
        targets_there(vols, targets),
        0 <= k < targets.len(),
        scope_in(vols, targets[k], match_case) is Some,
    ensures
        vols[targets[k].0].index@.wf(),
        ({
            let scope = scope_in(vols, targets[k], match_case)->0;
            scope is Some ==> vols[targets[k].0].index@.live(scope->0)
        }),
{
    let t = targets[k];
    assert(0 <= t.0 < vols.len());
    assert(vols[t.0].index.wf());
    let scope = scope_in(vols, t, match_case)->0;
    if scope is Some {
        lemma_scope_in_use(vols[t.0].index@, vols[t.0].scope_cache, t.1->0, match_case);
    }
}

/// What a volume gives are matches of it.
proof fn lemma_volume_rows_match(
    vols: Seq<VolumeState>,
    k: int,
    q: ParsedQuery,
    scope: Option<EntryIdx>,
    ask: Ask,
    p: int,
)
    requires
        vols[k].index@.wf(),
        scope is Some ==> vols[k].index@.in_range(scope->0),
        0 <= p < volume_rows(vols, k, q, scope, ask).len(),
    ensures
        volume_rows(vols, k, q, scope, ask)[p].0 == k,
        matched(vols[k].index@, q, scope).contains(volume_rows(vols, k, q, scope, ask)[p].1),
{
    let v = vols[k].index@;
    let m = matched(v, q, scope);
    let row = |i: EntryIdx| (k, i);
    let rows = volume_rows(vols, k, q, scope, ask);
    if crate::query::model::page_end(m.len(), 0, volume_limit(ask)) < m.len() {
        let r = ranking(v, q, scope, ask.sort);
        law_ranking(v, q, scope, ask.sort);
        law_matched(v, q, scope);
        let i = page(r, 0, volume_limit(ask))[p];
        assert(r[p] == i);
        assert(r.contains(i));
        assert(m.contains(i));
    } else {
        let all = m.map_values(row);
        lemma_stable_sort_permutes(all, row_before(vols, ask.sort));
        assert(rows.contains(rows[p]));
        lemma_permuted_members(rows, all, rows[p]);
        let at = all.index_of(rows[p]);
        assert(all[at] == row(m[at]));
        assert(m.contains(m[at]));
    }
}

/// Every row of a reply is a match: an entry of one of the volumes that the
/// query looks at, found there in the part that it looks at.
pub proof fn law_rows_are_matches(
    vols: Seq<VolumeState>,
    targets: Seq<(int, Option<Seq<u8>>)>,
    q: ParsedQuery,
    ask: Ask,
    p: int,
) -> (k: int)
    requires
        vols_wf(vols),
        targets_there(vols, targets),
        0 <= p < reply_rows(vols, targets, q, ask).len(),
    ensures
        0 <= k < targets.len(),
        reply_rows(vols, targets, q, ask)[p].0 == targets[k].0,
        scope_in(vols, targets[k], ask.match_case) is Some,
        matched(
            vols[targets[k].0].index@,
            q,
            scope_in(vols, targets[k], ask.match_case)->0,
        ).contains(reply_rows(vols, targets, q, ask)[p].1),
{
    let n = targets.len() as int;
    let runs = gathered(vols, targets, q, ask, n).runs;
    let all = merged_rows(vols, runs, ask.sort);
    let row = reply_rows(vols, targets, q, ask)[p];
    assert(all[ask.offset + p] == row);
    assert(all.contains(row));
    let (r, at) = if runs.len() == 1 {
        (0int, ask.offset + p)
    } else {
        let c = concat(runs);
        lemma_stable_sort_permutes(c, row_before(vols, ask.sort));
        lemma_permuted_members(all, c, row);
        lemma_concat_index(runs, c.index_of(row))
    };
    assert(runs[r][at] == row);
    let k = lemma_runs_from_targets(vols, targets, q, ask, n, r);
    let scope = scope_in(vols, targets[k], ask.match_case)->0;
    lemma_scope_there(vols, targets, ask.match_case, k);
    lemma_volume_rows_match(vols, targets[k].0, q, scope, ask, at);
    k
}

/// How two rows of a reply stand to each other: the later does not come before
/// the earlier in the order of rows, or both are of one volume and its index
/// has them in this order.
proof fn lemma_rows_in_order(
    vols: Seq<VolumeState>,
    targets: Seq<(int, Option<Seq<u8>>)>,
    q: ParsedQuery,
    ask: Ask,
    i: int,
    j: int,
)
    requires
        vols_wf(vols),
        targets_there(vols, targets),
        0 <= i < j < reply_rows(vols, targets, q, ask).len(),
    ensures
        ({
            let a = reply_rows(vols, targets, q, ask)[i];
            let b = reply_rows(vols, targets, q, ask)[j];
            ||| !row_before(vols, ask.sort)(b, a)
            ||| ask.limit is Some && a.0 == b.0 && result_order(vols[a.0].index@, ask.sort)(
                a.1,
                b.1,
            )
        }),
{
    let n = targets.len() as int;
    let runs = gathered(vols, targets, q, ask, n).runs;
    let before = row_before(vols, ask.sort);
    let all = merged_rows(vols, runs, ask.sort);
    let x = ask.offset + i;
    let y = ask.offset + j;
    assert(all[x] == reply_rows(vols, targets, q, ask)[i]);
    assert(all[y] == reply_rows(vols, targets, q, ask)[j]);
    lemma_row_order(vols, ask.sort);
    if runs.len() == 1 {
        let k = lemma_runs_from_targets(vols, targets, q, ask, n, 0);
        let scope = scope_in(vols, targets[k], ask.match_case)->0;
        lemma_scope_there(vols, targets, ask.match_case, k);
        let t = targets[k].0;
        let v = vols[t].index@;
        let m = matched(v, q, scope);
        let row = |e: EntryIdx| (t, e);
        if crate::query::model::page_end(m.len(), 0, volume_limit(ask)) < m.len() {
            let r = ranking(v, q, scope, ask.sort);
            law_ranking(v, q, scope, ask.sort);
            assert(all[x] == row(r[x]) && all[y] == row(r[y]));
            assert(result_order(v, ask.sort)(r[x], r[y]));
        } else {
            lemma_stable_sort_in_order(m.map_values(row), before);
            assert(in_order(all, before));
        }
    } else {
        lemma_stable_sort_in_order(concat(runs), before);
        assert(in_order(all, before));
    }
}

/// The rows of a reply sorted by size, of whatever volumes, come with the
/// smaller size first, or last in a descending order; a size that is not known
/// counts as 0.
pub proof fn law_rows_by_size(
    vols: Seq<VolumeState>,
    targets: Seq<(int, Option<Seq<u8>>)>,
    q: ParsedQuery,
    ask: Ask,
    i: int,
    j: int,
)
    requires
        vols_wf(vols),
        targets_there(vols, targets),
        ask.sort.key is Size,
        0 <= i < j < reply_rows(vols, targets, q, ask).len(),
    ensures
        ({
            let a = reply_rows(vols, targets, q, ask)[i];
            let b = reply_rows(vols, targets, q, ask)[j];
            let x = match vols[a.0].index@.entry(a.1).size {
                Some(s) => s,
                None => 0,
            };
            let y = match vols[b.0].index@.entry(b.1).size {
                Some(s) => s,
                None => 0,
            };
            match ask.sort.dir {
                SortDir::Asc => x <= y,
                SortDir::Desc => x >= y,
            }
        }),
{
    lemma_rows_in_order(vols, targets, q, ask, i, j);
}

/// The rows of a reply sorted by date, of whatever volumes, come with the
/// earlier modification first, or last in a descending order; a time that is
/// not known comes before every other.
pub proof fn law_rows_by_date(
    vols: Seq<VolumeState>,
    targets: Seq<(int, Option<Seq<u8>>)>,
    q: ParsedQuery,
    ask: Ask,
    i: int,
    j: int,
)
    requires
        vols_wf(vols),
        targets_there(vols, targets),
        ask.sort.key is DateModified,
        0 <= i < j < reply_rows(vols, targets, q, ask).len(),
    ensures
        ({
            let a = reply_rows(vols, targets, q, ask)[i];
            let b = reply_rows(vols, targets, q, ask)[j];
            let x = match vols[a.0].index@.entry(a.1).mtime {
                Some(t) => t,
                None => i64::MIN,
            };
            let y = match vols[b.0].index@.entry(b.1).mtime {
                Some(t) => t,
                None => i64::MIN,
            };
            match ask.sort.dir {
                SortDir::Asc => x <= y,
                SortDir::Desc => x >= y,
            }
        }),
{
    lemma_rows_in_order(vols, targets, q, ask, i, j);
}

/// The rows of a reply sorted by name, of whatever volumes, come in the byte
/// order of their folded names, or in its reverse.
pub proof fn law_rows_by_name(
    vols: Seq<VolumeState>,
    targets: Seq<(int, Option<Seq<u8>>)>,
    q: ParsedQuery,
    ask: Ask,
    i: int,
    j: int,
)
    requires
        vols_wf(vols),
        targets_there(vols, targets),
        ask.sort.key is Name,
        0 <= i < j < reply_rows(vols, targets, q, ask).len(),
    ensures
        ({
            let a = reply_rows(vols, targets, q, ask)[i];
            let b = reply_rows(vols, targets, q, ask)[j];
            let x = folded(vols[a.0].index@.name(a.1));
            let y = folded(vols[b.0].index@.name(b.1));
            match ask.sort.dir {
                SortDir::Asc => x == y || lex_less(x, y),
                SortDir::Desc => x == y || lex_less(y, x),
            }
        }),
{
    lemma_rows_in_order(vols, targets, q, ask, i, j);
    let a = reply_rows(vols, targets, q, ask)[i];
    let b = reply_rows(vols, targets, q, ask)[j];
    let x = folded(vols[a.0].index@.name(a.1));
    let y = folded(vols[b.0].index@.name(b.1));
    crate::bytes::lemma_lex_total(x, y);
}

/// The rows of a reply sorted by path and not cut by a limit come in the byte
/// order of their folded paths, prefix included, or in its reverse.
pub proof fn law_rows_by_path(
    vols: Seq<VolumeState>,
    targets: Seq<(int, Option<Seq<u8>>)>,
    q: ParsedQuery,
    ask: Ask,
    i: int,
    j: int,
)
    requires
        vols_wf(vols),
        targets_there(vols, targets),
        ask.sort.key is Path,
        ask.limit is None,
        0 <= i < j < reply_rows(vols, targets, q, ask).len(),
    ensures
        ({
            let a = reply_rows(vols, targets, q, ask)[i];
            let b = reply_rows(vols, targets, q, ask)[j];
            let x = folded(vols[a.0].prefix_bytes() + vols[a.0].index@.path_of(a.1)->0);
            let y = folded(vols[b.0].prefix_bytes() + vols[b.0].index@.path_of(b.1)->0);
            match ask.sort.dir {
                SortDir::Asc => x == y || lex_less(x, y),
                SortDir::Desc => x == y || lex_less(y, x),
            }
        }),
{
    lemma_rows_in_order(vols, targets, q, ask, i, j);
    let a = reply_rows(vols, targets, q, ask)[i];
    let b = reply_rows(vols, targets, q, ask)[j];
    let x = folded(vols[a.0].prefix_bytes() + vols[a.0].index@.path_of(a.1)->0);
    let y = folded(vols[b.0].prefix_bytes() + vols[b.0].index@.path_of(b.1)->0);
    crate::bytes::lemma_lex_total(x, y);
}

/// What a reply says of the volumes it looks at, whether or not the scope's
/// folder is there: that results may be incomplete exactly where some volume is
/// neither live nor a snapshot, and that sizes and times are still being
/// gathered exactly where some volume says so.
pub proof fn law_flags_tell(
    vols: Seq<VolumeState>,
    targets: Seq<(int, Option<Seq<u8>>)>,
    q: ParsedQuery,
    ask: Ask,
    n: int,
)
    requires
        0 <= n <= targets.len(),
    ensures
        gathered(vols, targets, q, ask, n).incomplete <==> exists|k: int|
            0 <= k < n && !(vols[(#[trigger] targets[k]).0].phase is Live)
                && !(vols[targets[k].0].phase is Snapshot),
        gathered(vols, targets, q, ask, n).pending <==> exists|k: int|
            0 <= k < n && vols[(#[trigger] targets[k]).0].metadata_pending,
    decreases n,
{
    if n > 0 {
        law_flags_tell(vols, targets, q, ask, n - 1);
        let t = targets[n - 1];
        assert(!vols[t.0].phase.complete() <==> !(vols[t.0].phase is Live) && !(vols[t.0].phase
            is Snapshot));
        let g = gathered(vols, targets, q, ask, n);
        let h = gathered(vols, targets, q, ask, n - 1);
        assert(g.incomplete == (h.incomplete || !vols[t.0].phase.complete()));
        assert(g.pending == (h.pending || vols[t.0].metadata_pending));
    }
}

/// The matches that a reply counts are those of all volumes it looks at: each
/// adds as many as match there, and one where the scope's folder is missing adds
/// none.
pub proof fn law_total_adds_up(
    vols: Seq<VolumeState>,
    targets: Seq<(int, Option<Seq<u8>>)>,
    q: ParsedQuery,
    ask: Ask,
    n: int,
)
    requires
        0 <= n < targets.len(),
    ensures
        gathered(vols, targets, q, ask, 0).total == 0,
        gathered(vols, targets, q, ask, n + 1).total == gathered(vols, targets, q, ask, n).total
            + match scope_in(vols, targets[n], ask.match_case) {
            Some(scope) => matched(vols[targets[n].0].index@, q, scope).len(),
            None => 0,
        },
{
}

/// How many rows a volume gives: all its matches, or as many as could be on the
/// page.
proof fn lemma_volume_rows_len(
    vols: Seq<VolumeState>,
    k: int,
    q: ParsedQuery,
    scope: Option<EntryIdx>,
    ask: Ask,
)
    requires
        vols[k].index@.wf(),
        scope is Some ==> vols[k].index@.in_range(scope->0),
    ensures
        ({
            let rows = volume_rows(vols, k, q, scope, ask);
            let m = matched(vols[k].index@, q, scope);
            &&& rows.len() <= m.len()
            &&& rows.len() == m.len() || (ask.limit is Some && rows.len() >= ask.offset
                + ask.limit->0)
        }),
{
    let v = vols[k].index@;
    let m = matched(v, q, scope);
    let row = |i: EntryIdx| (k, i);
    law_matched(v, q, scope);
    law_ranking(v, q, scope, ask.sort);
    lemma_stable_sort_permutes(m.map_values(row), row_before(vols, ask.sort));
}

/// How many rows the first `n` targets give.
proof fn lemma_runs_len(
    vols: Seq<VolumeState>,
    targets: Seq<(int, Option<Seq<u8>>)>,
    q: ParsedQuery,
    ask: Ask,
    n: int,
)
    requires
        vols_wf(vols),
        targets_there(vols, targets),
        0 <= n <= targets.len(),
    ensures
        ({
            let g = gathered(vols, targets, q, ask, n);
            let len = concat(g.runs).len();
            &&& len <= g.total
            &&& len == g.total || (ask.limit is Some && len >= ask.offset + ask.limit->0)
        }),
    decreases n,
{
    if n > 0 {
        lemma_runs_len(vols, targets, q, ask, n - 1);
        let g = gathered(vols, targets, q, ask, n);
        let h = gathered(vols, targets, q, ask, n - 1);
        let t = targets[n - 1];
        if scope_in(vols, t, ask.match_case) is Some {
            let scope = scope_in(vols, t, ask.match_case)->0;
            lemma_scope_there(vols, targets, ask.match_case, n - 1);
            lemma_volume_rows_len(vols, t.0, q, scope, ask);
            let rows = volume_rows(vols, t.0, q, scope, ask);
            if rows.len() > 0 {
                assert(g.runs.drop_last() =~= h.runs);
            }
        }
    }
}

/// A reply holds as many rows as it was asked for, as far as there are that many
/// behind the offset: from how many volumes they come makes no difference.
pub proof fn law_page_is_filled(
    vols: Seq<VolumeState>,
    targets: Seq<(int, Option<Seq<u8>>)>,
    q: ParsedQuery,
    ask: Ask,
)
    requires
        vols_wf(vols),
        targets_there(vols, targets),
    ensures
        ({
            let total = gathered(vols, targets, q, ask, targets.len() as int).total;
            let left = if total > ask.offset {
                total - ask.offset
            } else {
                0
            };
            reply_rows(vols, targets, q, ask).len() == match ask.limit {
                Some(n) => if n < left {
                    n as int
                } else {
                    left
                },
                None => left,
            }
        }),
{
    let n = targets.len() as int;
    let g = gathered(vols, targets, q, ask, n);
    lemma_runs_len(vols, targets, q, ask, n);
    lemma_stable_sort_permutes(concat(g.runs), row_before(vols, ask.sort));
    if g.runs.len() == 1 {
        let none = g.runs.drop_last();
        assert(none.len() == 0);
        assert(concat(none).len() == 0);
        assert(concat(g.runs) == concat(none) + g.runs[0]);
    }
    assert(merged_rows(vols, g.runs, ask.sort).len() == concat(g.runs).len());
}

/// Without a limit and an offset every match of every volume that a query looks
/// at is sent.
pub proof fn law_every_match_is_sent(
    vols: Seq<VolumeState>,
    targets: Seq<(int, Option<Seq<u8>>)>,
    q: ParsedQuery,
    ask: Ask,
    k: int,
    i: EntryIdx,
)
    requires
        vols_wf(vols),
        targets_there(vols, targets),
        ask.offset == 0,
        ask.limit is None,
        0 <= k < targets.len(),
        scope_in(vols, targets[k], ask.match_case) is Some,
        matched(
            vols[targets[k].0].index@,
            q,
            scope_in(vols, targets[k], ask.match_case)->0,
        ).contains(i),
    ensures
        reply_rows(vols, targets, q, ask).contains((targets[k].0, i)),
{
    let n = targets.len() as int;
    let t = targets[k].0;
    let row = |e: EntryIdx| (t, e);
    let scope = scope_in(vols, targets[k], ask.match_case)->0;
    let m = matched(vols[t].index@, q, scope);
    let at = m.index_of(i);
    let all = m.map_values(row);
    assert(all[at] == (t, i));
    assert(all.contains((t, i)));
    let rows = volume_rows(vols, t, q, scope, ask);
    lemma_stable_sort_permutes(all, row_before(vols, ask.sort));
    lemma_permuted_members(rows, all, (t, i));
    let p = rows.index_of((t, i));
    let r = lemma_run_of_target(vols, targets, q, ask, n, k);
    let runs = gathered(vols, targets, q, ask, n).runs;
    assert(runs[r] == rows);
    let merged = merged_rows(vols, runs, ask.sort);
    if runs.len() == 1 {
        assert(merged[p] == (t, i));
    } else {
        let c = concat(runs);
        crate::daemon::merge::lemma_concat_at(runs, r, p);
        assert(c.contains((t, i)));
        lemma_stable_sort_permutes(c, row_before(vols, ask.sort));
        lemma_permuted_members(merged, c, (t, i));
    }
    assert(reply_rows(vols, targets, q, ask) =~= merged);
}

/// Which run a target with rows gave.
proof fn lemma_run_of_target(
    vols: Seq<VolumeState>,
    targets: Seq<(int, Option<Seq<u8>>)>,
    q: ParsedQuery,
    ask: Ask,
    n: int,
    k: int,
) -> (r: int)
    requires
        0 <= k < n <= targets.len(),
        scope_in(vols, targets[k], ask.match_case) is Some,
        volume_rows(
            vols,
            targets[k].0,
            q,
            scope_in(vols, targets[k], ask.match_case)->0,
            ask,
        ).len() > 0,
    ensures
        0 <= r < gathered(vols, targets, q, ask, n).runs.len(),
        gathered(vols, targets, q, ask, n).runs[r] == volume_rows(
            vols,
            targets[k].0,
            q,
            scope_in(vols, targets[k], ask.match_case)->0,
            ask,
        ),
    decreases n,
{
    if k == n - 1 {
        gathered(vols, targets, q, ask, n).runs.len() - 1
    } else {
        let r = lemma_run_of_target(vols, targets, q, ask, n - 1, k);
        r
    }
}

/// In an order that an index and the daemon have in common, the order of an
/// index is that of rows.
proof fn lemma_orders_agree(
    vols: Seq<VolumeState>,
    sort: SortSpec,
    t: int,
    a: EntryIdx,
    b: EntryIdx,
)
    requires
        sort.key !is Path,
        result_order(vols[t].index@, sort)(a, b),
    ensures
        !row_before(vols, sort)((t, b), (t, a)),
{
    let v = vols[t].index@;
    crate::bytes::lemma_lex_total(v.folded_name(a), v.folded_name(b));
    lemma_row_order(vols, sort);
}

/// In such an order the merged rows are in order, from however many volumes they
/// come.
proof fn lemma_merged_in_order(
    vols: Seq<VolumeState>,
    targets: Seq<(int, Option<Seq<u8>>)>,
    q: ParsedQuery,
    ask: Ask,
)
    requires
        vols_wf(vols),
        targets_there(vols, targets),
        ask.sort.key !is Path,
    ensures
        in_order(
            merged_rows(
                vols,
                gathered(vols, targets, q, ask, targets.len() as int).runs,
                ask.sort,
            ),
            row_before(vols, ask.sort),
        ),
{
    let n = targets.len() as int;
    let runs = gathered(vols, targets, q, ask, n).runs;
    let before = row_before(vols, ask.sort);
    let all = merged_rows(vols, runs, ask.sort);
    lemma_row_order(vols, ask.sort);
    if runs.len() == 1 {
        let k = lemma_runs_from_targets(vols, targets, q, ask, n, 0);
        let scope = scope_in(vols, targets[k], ask.match_case)->0;
        lemma_scope_there(vols, targets, ask.match_case, k);
        let t = targets[k].0;
        let v = vols[t].index@;
        let m = matched(v, q, scope);
        let row = |e: EntryIdx| (t, e);
        if crate::query::model::page_end(m.len(), 0, volume_limit(ask)) < m.len() {
            let r = ranking(v, q, scope, ask.sort);
            law_ranking(v, q, scope, ask.sort);
            assert forall|x: int, y: int| 0 <= x < y < all.len() implies !before(
                #[trigger] all[y],
                #[trigger] all[x],
            ) by {
                assert(all[x] == row(r[x]) && all[y] == row(r[y]));
                assert(result_order(v, ask.sort)(r[x], r[y]));
                lemma_orders_agree(vols, ask.sort, t, r[x], r[y]);
            }
        } else {
            lemma_stable_sort_in_order(m.map_values(row), before);
        }
    } else if runs.len() > 1 {
        lemma_stable_sort_in_order(concat(runs), before);
    }
}

/// A row that stands among so many rows of a list in order, none of which comes
/// after `x`, cannot come after `x` itself.
proof fn lemma_crowded_out(
    all: Seq<Row>,
    few: Seq<Row>,
    x: Row,
    p: int,
    before: spec_fn(Row, Row) -> bool,
)
    requires
        weak_order(before),
        in_order(all, before),
        few.no_duplicates(),
        forall|j: int| 0 <= j < few.len() ==> all.contains(#[trigger] few[j]),
        forall|j: int| 0 <= j < few.len() ==> !before(x, #[trigger] few[j]),
        0 <= p < all.len(),
        p < few.len(),
    ensures
        !before(x, all[p]),
{
    if before(x, all[p]) {
        let front = all.take(p);
        assert forall|r: Row| #[trigger] few.to_set().contains(r) implies front.to_set().contains(
            r,
        ) by {
            let j = few.index_of(r);
            assert(few[j] == r);
            assert(!before(x, few[j]));
            assert(before(r, all[p]));
            assert(all.contains(few[j]));
            let at = all.index_of(r);
            assert(all[at] == r);
            if at >= p {
                if at > p {
                    assert(!before(all[at], all[p]));
                }
            }
            assert(at < p);
            assert(front[at] == r);
        }
        assert(few.to_set().subset_of(front.to_set()));
        few.unique_seq_to_set();
        front.lemma_cardinality_of_set();
        vstd::set_lib::lemma_len_subset(few.to_set(), front.to_set());
    }
}

/// What a reply with a limit leaves out, from whichever volume, comes before no
/// row that it holds.
proof fn lemma_nothing_better_left(
    vols: Seq<VolumeState>,
    targets: Seq<(int, Option<Seq<u8>>)>,
    q: ParsedQuery,
    ask: Ask,
    k: int,
    i: EntryIdx,
    p: int,
)
    requires
        vols_wf(vols),
        targets_there(vols, targets),
        ask.sort.key !is Path,
        ask.offset == 0,
        0 <= k < targets.len(),
        scope_in(vols, targets[k], ask.match_case) is Some,
        matched(
            vols[targets[k].0].index@,
            q,
            scope_in(vols, targets[k], ask.match_case)->0,
        ).contains(i),
        !reply_rows(vols, targets, q, ask).contains((targets[k].0, i)),
        0 <= p < reply_rows(vols, targets, q, ask).len(),
    ensures
        !row_before(vols, ask.sort)((targets[k].0, i), reply_rows(vols, targets, q, ask)[p]),
{
    let n = targets.len() as int;
    let t = targets[k].0;
    let x = (t, i);
    let runs = gathered(vols, targets, q, ask, n).runs;
    let before = row_before(vols, ask.sort);
    let all = merged_rows(vols, runs, ask.sort);
    let sent = reply_rows(vols, targets, q, ask);
    let scope = scope_in(vols, targets[k], ask.match_case)->0;
    let v = vols[t].index@;
    let m = matched(v, q, scope);
    let row = |e: EntryIdx| (t, e);
    let rows = volume_rows(vols, t, q, scope, ask);
    lemma_row_order(vols, ask.sort);
    lemma_merged_in_order(vols, targets, q, ask);
    lemma_scope_there(vols, targets, ask.match_case, k);
    assert(sent[p] == all[p]);
    if all.contains(x) {
        let at = all.index_of(x);
        assert(all[at] == x);
        if at < sent.len() {
            assert(sent[at] == x);
        }
        assert(p < at);
    } else {
        let at = m.index_of(i);
        assert(m[at] == i);
        if crate::query::model::page_end(m.len(), 0, volume_limit(ask)) < m.len() {
            let r = ranking(v, q, scope, ask.sort);
            law_ranking(v, q, scope, ask.sort);
            law_matched(v, q, scope);
            assert(m.contains(i));
            assert(r.contains(i));
            let y = r.index_of(i);
            assert(r[y] == i);
            assert(rows =~= r.take(rows.len() as int).map_values(row));
            assert(rows.len() == ask.limit->0);
            if rows.len() > 0 {
                let run = lemma_run_of_target(vols, targets, q, ask, n, k);
                lemma_run_is_merged(vols, runs, ask.sort, run);
                assert(runs[run] == rows);
                if y < rows.len() {
                    assert(rows[y] == x);
                    assert(all.contains(rows[y]));
                }
                assert forall|j: int| 0 <= j < rows.len() implies all.contains(
                    #[trigger] rows[j],
                ) && !before(x, rows[j]) by {
                    assert(rows[j] == row(r[j]));
                    assert(result_order(v, ask.sort)(r[j], r[y]));
                    lemma_orders_agree(vols, ask.sort, t, r[j], r[y]);
                }
                assert forall|a: int, b: int| 0 <= a < b < rows.len() implies rows[a]
                    != rows[b] by {
                    crate::query::sorting::law_ranked_once(v, q, scope, ask.sort, a, b);
                    assert(rows[a] == row(r[a]) && rows[b] == row(r[b]));
                }
                lemma_crowded_out(all, rows, x, p, before);
            }
        } else {
            let whole = m.map_values(row);
            assert(whole[at] == x);
            assert(whole.contains(x));
            lemma_stable_sort_permutes(whole, before);
            lemma_permuted_members(rows, whole, x);
            let run = lemma_run_of_target(vols, targets, q, ask, n, k);
            lemma_run_is_merged(vols, runs, ask.sort, run);
            let j = rows.index_of(x);
            assert(all.contains(runs[run][j]));
        }
    }
}

/// Every row of a run is among the merged rows.
proof fn lemma_run_is_merged(vols: Seq<VolumeState>, runs: Seq<Seq<Row>>, sort: SortSpec, r: int)
    requires
        0 <= r < runs.len(),
    ensures
        forall|j: int|
            0 <= j < runs[r].len() ==> merged_rows(vols, runs, sort).contains(
                #[trigger] runs[r][j],
            ),
{
    let all = merged_rows(vols, runs, sort);
    if runs.len() > 1 {
        let c = concat(runs);
        lemma_stable_sort_permutes(c, row_before(vols, sort));
        assert forall|j: int| 0 <= j < runs[r].len() implies all.contains(#[trigger] runs[r][j]) by {
            crate::daemon::merge::lemma_concat_at(runs, r, j);
            assert(c.contains(runs[r][j]));
            lemma_permuted_members(all, c, runs[r][j]);
        }
    }
}

/// The rows that a limit leaves out are not smaller than those that are sent, in
/// an order by size, nor larger, in a descending one: wherever they come from,
/// the first of all matches are sent.
pub proof fn law_first_by_size(
    vols: Seq<VolumeState>,
    targets: Seq<(int, Option<Seq<u8>>)>,
    q: ParsedQuery,
    ask: Ask,
    k: int,
    i: EntryIdx,
    p: int,
)
    requires
        vols_wf(vols),
        targets_there(vols, targets),
        ask.sort.key is Size,
        ask.offset == 0,
        0 <= k < targets.len(),
        scope_in(vols, targets[k], ask.match_case) is Some,
        matched(
            vols[targets[k].0].index@,
            q,
            scope_in(vols, targets[k], ask.match_case)->0,
        ).contains(i),
        !reply_rows(vols, targets, q, ask).contains((targets[k].0, i)),
        0 <= p < reply_rows(vols, targets, q, ask).len(),
    ensures
        ({
            let b = reply_rows(vols, targets, q, ask)[p];
            let left = match vols[targets[k].0].index@.entry(i).size {
                Some(s) => s,
                None => 0,
            };
            let sent = match vols[b.0].index@.entry(b.1).size {
                Some(s) => s,
                None => 0,
            };
            match ask.sort.dir {
                SortDir::Asc => sent <= left,
                SortDir::Desc => sent >= left,
            }
        }),
{
    lemma_nothing_better_left(vols, targets, q, ask, k, i, p);
}

/// The same in an order by date.
pub proof fn law_first_by_date(
    vols: Seq<VolumeState>,
    targets: Seq<(int, Option<Seq<u8>>)>,
    q: ParsedQuery,
    ask: Ask,
    k: int,
    i: EntryIdx,
    p: int,
)
    requires
        vols_wf(vols),
        targets_there(vols, targets),
        ask.sort.key is DateModified,
        ask.offset == 0,
        0 <= k < targets.len(),
        scope_in(vols, targets[k], ask.match_case) is Some,
        matched(
            vols[targets[k].0].index@,
            q,
            scope_in(vols, targets[k], ask.match_case)->0,
        ).contains(i),
        !reply_rows(vols, targets, q, ask).contains((targets[k].0, i)),
        0 <= p < reply_rows(vols, targets, q, ask).len(),
    ensures
        ({
            let b = reply_rows(vols, targets, q, ask)[p];
            let left = match vols[targets[k].0].index@.entry(i).mtime {
                Some(s) => s,
                None => i64::MIN,
            };
            let sent = match vols[b.0].index@.entry(b.1).mtime {
                Some(s) => s,
                None => i64::MIN,
            };
            match ask.sort.dir {
                SortDir::Asc => sent <= left,
                SortDir::Desc => sent >= left,
            }
        }),
{
    lemma_nothing_better_left(vols, targets, q, ask, k, i, p);
}

/// The same in an order by name, by the bytes of the folded names.
pub proof fn law_first_by_name(
    vols: Seq<VolumeState>,
    targets: Seq<(int, Option<Seq<u8>>)>,
    q: ParsedQuery,
    ask: Ask,
    k: int,
    i: EntryIdx,
    p: int,
)
    requires
        vols_wf(vols),
        targets_there(vols, targets),
        ask.sort.key is Name,
        ask.offset == 0,
        0 <= k < targets.len(),
        scope_in(vols, targets[k], ask.match_case) is Some,
        matched(
            vols[targets[k].0].index@,
            q,
            scope_in(vols, targets[k], ask.match_case)->0,
        ).contains(i),
        !reply_rows(vols, targets, q, ask).contains((targets[k].0, i)),
        0 <= p < reply_rows(vols, targets, q, ask).len(),
    ensures
        ({
            let b = reply_rows(vols, targets, q, ask)[p];
            let left = folded(vols[targets[k].0].index@.name(i));
            let sent = folded(vols[b.0].index@.name(b.1));
            match ask.sort.dir {
                SortDir::Asc => sent == left || lex_less(sent, left),
                SortDir::Desc => sent == left || lex_less(left, sent),
            }
        }),
{
    lemma_nothing_better_left(vols, targets, q, ask, k, i, p);
    let b = reply_rows(vols, targets, q, ask)[p];
    crate::bytes::lemma_lex_total(
        folded(vols[targets[k].0].index@.name(i)),
        folded(vols[b.0].index@.name(b.1)),
    );
}

/// A row is sent with what the index has of its entry: the size where sizes are
/// wanted and the time where times are, of files and of folders alike.
pub proof fn law_row_is_told_whole(vols: Seq<VolumeState>, ask: Ask, r: Row)
    ensures
        ({
            let e = vols[r.0].index@.entry(r.1);
            let item = row_item(vols, ask, r);
            &&& item.path == vols[r.0].prefix_bytes() + vols[r.0].index@.path_of(r.1)->0
            &&& item.is_dir == e.is_dir
            &&& ask.want_size ==> item.size == e.size
            &&& !ask.want_size ==> item.size is None
            &&& ask.want_mtime ==> item.mtime == e.mtime
            &&& !ask.want_mtime ==> item.mtime is None
        }),
{
}

} // verus!
