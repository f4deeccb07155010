//! Running a query over all volumes and sending its results page by page.

use super::answer::{frames_of, merged_rows, page_frame, reply_frames, row_before, row_item, volume_limit, volume_rows, Ask, Banner, Row};
use super::merge::{concat, lemma_concat_index, reversed, run_views};
use super::query_run::{has_volume, QueryRun};
use super::rows::{
    hit_before, last_component, lemma_concat_map, lemma_hit_order, order_merged, prefixed,
    sort_collected, VolHit,
};
use super::volume::{all_prefixes, cached_target, first_prefix, remembers, resolve_scope_cached, scope_text, targets_of, volume_prefixes, ScopeCache, VolScope, VolumeState};
use crate::bytes::{append_bytes, lemma_last_position_unique, lemma_last_position, lemma_lex_total};
use crate::fold::folded;
use crate::index::model::{
    indexable, is_separator, join_path, lemma_path_of_child, IndexView, LOST_FOUND,
};
use crate::index::VolumeIndex;
use crate::proto::frame::framed;
use crate::proto::page::{
    header_bytes, item_bytes, page_bytes, push_item, push_results_header, rows_bytes, Header, Item,
};
use crate::proto::{ProtoError, QueryRequest, Response, PAGE_ROWS};
use crate::query::engine::run_query_deferrable;
use crate::query::laws::{law_matched, law_ranking};
use crate::query::model::{matched, page, page_end, page_start, ranking, result_order};
use crate::query::parse::{query_model, ParsedQuery, QueryModel, QueryError};
use crate::query::QueryHit;
use crate::seqs::lemma_permuted_members;
use crate::stable::{
    in_order, lemma_stable_sort_in_order, lemma_stable_sort_map, lemma_stable_sort_permutes,
    stable_sort,
};
use crate::types::{EntryIdx, SortSpec, NIL};
use vstd::prelude::*;
use vstd::relations::sorted_by;
use vstd::utf8::encode_utf8;

verus! {

/// The row that a hit is.
pub open spec fn row_of() -> spec_fn(VolHit) -> Row {
    |h: VolHit| (h.vol as int, h.hit.idx)
}

/// The rows that hits are.
pub open spec fn rows_of(hits: Seq<VolHit>) -> Seq<Row> {
    hits.map_values(row_of())
}

/// The hit shows a live entry of its volume.
pub open spec fn truthful(vols: Seq<VolumeState>, h: VolHit) -> bool {
    &&& h.vol < vols.len()
    &&& vols[h.vol as int].index@.live(h.hit.idx)
    &&& h.hit.idx > LOST_FOUND
    &&& h.hit.shows(vols[h.vol as int].index@, h.hit.idx)
}

/// Every hit shows a live entry of its volume.
pub open spec fn all_truthful(vols: Seq<VolumeState>, hits: Seq<VolHit>) -> bool {
    forall|k: int| 0 <= k < hits.len() ==> truthful(vols, #[trigger] hits[k])
}

/// Every volume's index is well formed.
pub open spec fn vols_wf(vols: Seq<VolumeState>) -> bool {
    forall|k: int| 0 <= k < vols.len() ==> (#[trigger] vols[k]).index.wf()
}

/// The prefixes are those of the volumes.
pub open spec fn prefixes_right(vols: Seq<VolumeState>, prefixes: Seq<Vec<u8>>) -> bool {
    &&& prefixes.len() == vols.len()
    &&& forall|k: int| 0 <= k < vols.len() ==> (#[trigger] prefixes[k])@ == vols[k].prefix_bytes()
}

/// What the request asks of the rows.
pub open spec fn ask_of(q: QueryRequest) -> Ask {
    Ask {
        sort: q.sort,
        offset: q.offset,
        limit: q.limit,
        want_size: q.want_size,
        want_mtime: q.want_mtime,
        match_case: q.match_case,
    }
}

/// The name of an entry is the last component of its path: what hits of
/// different volumes are merged by is what each index sorted them by.
pub proof fn law_name_key(v: IndexView, i: EntryIdx)
    requires
        v.wf(),
        v.in_range(i),
        LOST_FOUND < i,
        v.path_of(i) is Some,
    ensures
        last_component(v.path_of(i)->0) == v.name(i),
        folded(last_component(v.path_of(i)->0)) == v.folded_name(i),
{
    let sep = |b: u8| b == 0x5C;
    assert(v.has_parent(i));
    lemma_path_of_child(v, i);
    let dir = v.path_of(v.entry(i).parent)->0;
    let name = v.name(i);
    let path = join_path(dir, name);
    assert(v.entry(i).name_id < v.names.len());
    assert(indexable(v.names[v.entry(i).name_id as int]));
    assert forall|k: int| 0 <= k < name.len() implies !sep(#[trigger] name[k]) by {
        assert(!is_separator(name[k]));
    }
    if dir.len() > 0 {
        let at = dir.len() as int;
        assert(path[at] == 0x5C);
        assert forall|j: int| at < j < path.len() implies !sep(#[trigger] path[j]) by {
            assert(path[j] == name[j - at - 1]);
        }
        lemma_last_position_unique(path, sep, at);
        assert(path.skip(at + 1) =~= name);
    } else {
        lemma_last_position(path, sep);
    }
}

/// Hits are ordered as their rows are.
proof fn lemma_before_agrees(
    vols: Seq<VolumeState>,
    prefixes: Seq<Vec<u8>>,
    sort: SortSpec,
    a: VolHit,
    b: VolHit,
)
    requires
        vols_wf(vols),
        prefixes_right(vols, prefixes),
        truthful(vols, a),
        truthful(vols, b),
    ensures
        hit_before(prefixes, sort)(a, b) == row_before(vols, sort)(row_of()(a), row_of()(b)),
{
    assert(vols[a.vol as int].index.wf());
    assert(vols[b.vol as int].index.wf());
    law_name_key(vols[a.vol as int].index@, a.hit.idx);
    law_name_key(vols[b.vol as int].index@, b.hit.idx);
    assert(prefixes[a.vol as int]@ == vols[a.vol as int].prefix_bytes());
    assert(prefixes[b.vol as int]@ == vols[b.vol as int].prefix_bytes());
}

/// Sorting hits sorts their rows.
proof fn lemma_sorted_hits(
    vols: Seq<VolumeState>,
    prefixes: Seq<Vec<u8>>,
    sort: SortSpec,
    hits: Seq<VolHit>,
)
    requires
        vols_wf(vols),
        prefixes_right(vols, prefixes),
        all_truthful(vols, hits),
    ensures
        rows_of(stable_sort(hits, hit_before(prefixes, sort))) == stable_sort(
            rows_of(hits),
            row_before(vols, sort),
        ),
        all_truthful(vols, stable_sort(hits, hit_before(prefixes, sort))),
        in_order(stable_sort(hits, hit_before(prefixes, sort)), hit_before(prefixes, sort)),
        stable_sort(hits, hit_before(prefixes, sort)).len() == hits.len(),
{
    let before = hit_before(prefixes, sort);
    let out = stable_sort(hits, before);
    assert forall|i: int, j: int| 0 <= i < hits.len() && 0 <= j < hits.len() implies before(
        #[trigger] hits[i],
        #[trigger] hits[j],
    ) == row_before(vols, sort)(row_of()(hits[i]), row_of()(hits[j])) by {
        lemma_before_agrees(vols, prefixes, sort, hits[i], hits[j]);
    }
    lemma_stable_sort_map(hits, row_of(), before, row_before(vols, sort));
    lemma_stable_sort_permutes(hits, before);
    lemma_hit_order(prefixes, sort);
    lemma_stable_sort_in_order(hits, before);
    assert forall|k: int| 0 <= k < out.len() implies truthful(vols, #[trigger] out[k]) by {
        assert(out.contains(out[k]));
        lemma_permuted_members(out, hits, out[k]);
        let j = hits.index_of(out[k]);
        assert(truthful(vols, hits[j]));
    }
}

/// Hits that an index picked in an order by name are in that order.
proof fn lemma_picked_in_order(
    vols: Seq<VolumeState>,
    prefixes: Seq<Vec<u8>>,
    sort: SortSpec,
    k: int,
    hits: Seq<VolHit>,
)
    requires
        vols_wf(vols),
        prefixes_right(vols, prefixes),
        all_truthful(vols, hits),
        sort.key is Name,
        0 <= k < vols.len(),
        forall|j: int| 0 <= j < hits.len() ==> (#[trigger] hits[j]).vol == k,
        sorted_by(
            hits.map_values(|h: VolHit| h.hit.idx),
            result_order(vols[k].index@, sort),
        ),
    ensures
        in_order(hits, hit_before(prefixes, sort)),
{
    let v = vols[k].index@;
    let before = hit_before(prefixes, sort);
    let idxs = hits.map_values(|h: VolHit| h.hit.idx);
    assert forall|i: int, j: int| 0 <= i < j < hits.len() implies !before(
        #[trigger] hits[j],
        #[trigger] hits[i],
    ) by {
        lemma_before_agrees(vols, prefixes, sort, hits[j], hits[i]);
        assert(idxs[i] == hits[i].hit.idx && idxs[j] == hits[j].hit.idx);
        assert(result_order(v, sort)(idxs[i], idxs[j]));
        lemma_lex_total(v.folded_name(hits[i].hit.idx), v.folded_name(hits[j].hit.idx));
    }
}

/// What one volume gave.
pub struct VolumeAnswer {
    /// Its matches in all.
    pub total: u64,
    /// Whether the hits are sorted.
    pub sorted: bool,
    pub hits: Vec<VolHit>,
}

impl VolumeAnswer {
    /// The entries that the hits show, in their order: the front of the ranking
    /// where they are sorted, else all matches.
    pub open spec fn entries(
        &self,
        v: IndexView,
        parsed: ParsedQuery,
        scope: Option<EntryIdx>,
        ask: Ask,
    ) -> Seq<EntryIdx> {
        if self.sorted {
            page(ranking(v, parsed, scope, ask.sort), 0, volume_limit(ask))
        } else {
            matched(v, parsed, scope)
        }
    }

    /// The answer is what the volume numbered `vol` has to give.
    pub open spec fn answers(
        &self,
        vol: int,
        v: IndexView,
        parsed: ParsedQuery,
        scope: Option<EntryIdx>,
        ask: Ask,
    ) -> bool {
        let m = matched(v, parsed, scope);
        let list = self.entries(v, parsed, scope, ask);
        &&& self.total == m.len()
        &&& self.total <= NIL
        &&& self.sorted == (page_end(m.len(), 0, volume_limit(ask)) < m.len())
        &&& self.hits@.len() == list.len()
        &&& forall|k: int|
            0 <= k < list.len() ==> {
                let h = #[trigger] self.hits@[k];
                &&& h.vol == vol
                &&& h.hit.idx == list[k]
                &&& h.hit.shows(v, list[k])
                &&& v.live(list[k])
                &&& list[k] > LOST_FOUND
            }
        &&& self.sorted ==> sorted_by(list, result_order(v, ask.sort))
    }
}

/// The hits with their volume's number.
fn tag_hits(hits: Vec<QueryHit>, vol: usize) -> (out: Vec<VolHit>)
    ensures
        out@.len() == hits@.len(),
        forall|k: int|
            0 <= k < hits@.len() ==> (#[trigger] out@[k]).vol == vol && out@[k].hit == hits@[k],
{
    let ghost whole = hits@;
    let mut stack = reversed(hits);
    let mut out: Vec<VolHit> = Vec::new();
    assert(stack@.reverse() =~= whole.skip(0));
    while stack.len() > 0
        invariant
            out@.len() <= whole.len(),
            stack@.reverse() == whole.skip(out@.len() as int),
            forall|k: int|
                0 <= k < out@.len() ==> (#[trigger] out@[k]).vol == vol && out@[k].hit == whole[k],
        decreases stack@.len(),
    {
        let ghost left = stack@;
        let ghost n = out@.len() as int;
        if let Some(hit) = stack.pop() {
            proof {
                assert(left.reverse()[0] == hit);
                assert(whole.skip(n)[0] == hit);
                assert(stack@.reverse() =~= left.reverse().drop_first());
                assert(whole.skip(n).drop_first() =~= whole.skip(n + 1));
            }
            out.push(VolHit { vol, hit });
        }
    }
    proof {
        assert(stack@.reverse().len() == 0);
        assert(whole.skip(out@.len() as int).len() == 0);
    }
    out
}

/// How many rows each volume has to give.
pub fn limit_per_volume(offset: u32, limit: Option<u32>) -> (n: Option<u32>)
    ensures
        n == match limit {
            Some(l) => Some(
                if offset + l <= u32::MAX {
                    (offset + l) as u32
                } else {
                    u32::MAX
                },
            ),
            None => None::<u32>,
        },
{
    match limit {
        Some(l) => if l <= u32::MAX - offset {
            Some(offset + l)
        } else {
            Some(u32::MAX)
        },
        None => None,
    }
}

/// Where the volume is searched, given where its folder leads.
pub open spec fn scope_reached(
    v: IndexView,
    cache: Option<ScopeCache>,
    rel: Option<Seq<u8>>,
    match_case: bool,
) -> Option<Option<EntryIdx>> {
    match rel {
        None => Some(None),
        Some(r) => match cached_target(v, cache, r, match_case) {
            Some(e) => Some(Some(e)),
            None => None,
        },
    }
}

/// Runs a query on one volume. The scope is resolved and the query run on one
/// and the same index, so that an entry never comes from another. Where the
/// hits come unsorted, they are all there, and are to be sorted once the index
/// is let go.
pub fn query_volume(
    vol: usize,
    index: &VolumeIndex,
    cache: &mut Option<ScopeCache>,
    parsed: &ParsedQuery,
    q: &QueryRequest,
    scope: &VolScope,
) -> (answer: Option<VolumeAnswer>)
    requires
        index.wf(),
    ensures
        remembers(index@, *old(cache), *final(cache), scope.rel(), q.match_case),
        match scope_reached(index@, *old(cache), scope.rel(), q.match_case) {
            None => answer is None,
            Some(entry) => answer is Some && answer->0.answers(
                vol as int,
                index@,
                *parsed,
                entry,
                ask_of(*q),
            ),
        },
{
    let ghost v = index@;
    let entry: Option<EntryIdx> = match scope {
        VolScope::All => None,
        VolScope::Rel(rel) => match resolve_scope_cached(
            cache,
            index,
            rel.as_slice(),
            q.match_case,
        ) {
            Some(e) => Some(e),
            None => return None,
        },
    };
    let limit = limit_per_volume(q.offset, q.limit);
    let out = run_query_deferrable(index, parsed, entry, q.sort, 0, limit);
    let hits = tag_hits(out.hits, vol);
    proof {
        law_matched(v, *parsed, entry);
        law_ranking(v, *parsed, entry, q.sort);
        let m = matched(v, *parsed, entry);
        let r = ranking(v, *parsed, entry, q.sort);
        let list = if out.sorted {
            page(r, 0, limit)
        } else {
            m
        };
        assert(v.entry(0).synthetic);
        assert(v.entry(LOST_FOUND).synthetic);
        assert forall|k: int| 0 <= k < list.len() implies {
            let h = #[trigger] hits@[k];
            &&& h.vol == vol
            &&& h.hit.idx == list[k]
            &&& h.hit.shows(v, list[k])
            &&& v.live(list[k])
            &&& list[k] > LOST_FOUND
        } by {
            assert(out.hits@[k].shows(v, list[k]));
            if out.sorted {
                assert(list[k] == r[k]);
                assert(r.contains(r[k]));
            } else {
                assert(m.contains(m[k]));
            }
        }
        if out.sorted {
            assert forall|i: int, j: int| 0 <= i < j < list.len() implies #[trigger] result_order(
                v,
                q.sort,
            )(list[i], list[j]) by {
                assert(list[i] == r[i] && list[j] == r[j]);
                assert(result_order(v, q.sort)(r[i], r[j]));
            }
        }
    }
    Some(VolumeAnswer { total: out.total, sorted: out.sorted, hits })
}

/// The run of one volume: its hits, sorted now where they were not.
pub fn finish_run(answer: VolumeAnswer, prefixes: &Vec<Vec<u8>>, sort: SortSpec) -> (run: Vec<
    VolHit,
>)
    requires
        prefixed(prefixes@, answer.hits@),
    ensures
        answer.sorted ==> run@ == answer.hits@,
        !answer.sorted ==> run@ == stable_sort(answer.hits@, hit_before(prefixes@, sort)),
{
    if answer.sorted {
        answer.hits
    } else {
        sort_collected(answer.hits, prefixes, sort)
    }
}

/// What a query gathered from the volumes.
pub struct Collected {
    /// One sorted run for each volume with hits.
    pub runs: Vec<Vec<VolHit>>,
    pub total: u64,
    pub incomplete: bool,
    pub pending: bool,
}

impl Collected {
    /// Nothing gathered yet.
    pub fn new() -> (c: Collected)
        ensures
            c.runs@.len() == 0,
            c.total == 0,
            !c.incomplete,
            !c.pending,
    {
        Collected { runs: Vec::new(), total: 0, incomplete: false, pending: false }
    }

    /// The rows of the runs.
    pub open spec fn run_rows(&self) -> Seq<Seq<Row>> {
        self.runs@.map_values(|r: Vec<VolHit>| rows_of(r@))
    }

    /// The runs are such as can be merged: they show entries of the volumes, and
    /// in an order by name each is in that order.
    pub open spec fn mergeable(
        &self,
        vols: Seq<VolumeState>,
        prefixes: Seq<Vec<u8>>,
        sort: SortSpec,
    ) -> bool {
        forall|r: int|
            0 <= r < self.runs@.len() ==> {
                let run = (#[trigger] self.runs@[r])@;
                &&& all_truthful(vols, run)
                &&& prefixed(prefixes, run)
                &&& sort.key is Name ==> in_order(run, hit_before(prefixes, sort))
            }
    }

    /// Notes how complete a volume is.
    pub fn note(&mut self, complete: bool, metadata_pending: bool)
        ensures
            final(self).runs == old(self).runs,
            final(self).total == old(self).total,
            final(self).incomplete == (old(self).incomplete || !complete),
            final(self).pending == (old(self).pending || metadata_pending),
    {
        if !complete {
            self.incomplete = true;
        }
        if metadata_pending {
            self.pending = true;
        }
    }

    /// Takes in the run of a volume with `total` matches.
    pub fn add_run(&mut self, run: Vec<VolHit>, total: u64)
        requires
            old(self).total + total <= u64::MAX,
        ensures
            final(self).runs@ == if run@.len() > 0 {
                old(self).runs@.push(run)
            } else {
                old(self).runs@
            },
            final(self).total == old(self).total + total,
            final(self).incomplete == old(self).incomplete,
            final(self).pending == old(self).pending,
    {
        self.total = self.total + total;
        if run.len() > 0 {
            self.runs.push(run);
        }
    }
}

/// The run of a volume holds the rows that it should.
pub(super) proof fn lemma_volume_run(
    vols: Seq<VolumeState>,
    prefixes: Seq<Vec<u8>>,
    k: int,
    q: ParsedQuery,
    scope: Option<EntryIdx>,
    ask: Ask,
    hits: Seq<VolHit>,
    list: Seq<EntryIdx>,
    sorted: bool,
    run: Seq<VolHit>,
)
    requires
        vols_wf(vols),
        prefixes_right(vols, prefixes),
        0 <= k < vols.len(),
        sorted == (page_end(matched(vols[k].index@, q, scope).len(), 0, volume_limit(ask)) < matched(
            vols[k].index@,
            q,
            scope,
        ).len()),
        list == if sorted {
            page(ranking(vols[k].index@, q, scope, ask.sort), 0, volume_limit(ask))
        } else {
            matched(vols[k].index@, q, scope)
        },
        hits.len() == list.len(),
        forall|j: int|
            0 <= j < list.len() ==> {
                let h = #[trigger] hits[j];
                &&& h.vol == k
                &&& h.hit.idx == list[j]
                &&& h.hit.shows(vols[k].index@, list[j])
                &&& vols[k].index@.live(list[j])
                &&& list[j] > LOST_FOUND
            },
        sorted ==> sorted_by(list, result_order(vols[k].index@, ask.sort)),
        run == if sorted {
            hits
        } else {
            stable_sort(hits, hit_before(prefixes, ask.sort))
        },
    ensures
        rows_of(run) == volume_rows(vols, k, q, scope, ask),
        all_truthful(vols, run),
        prefixed(prefixes, run),
        ask.sort.key is Name ==> in_order(run, hit_before(prefixes, ask.sort)),
{
    let row = |i: EntryIdx| (k, i);
    assert(all_truthful(vols, hits));
    assert(rows_of(hits) =~= list.map_values(row));
    if sorted {
        if ask.sort.key is Name {
            assert(hits.map_values(|h: VolHit| h.hit.idx) =~= list);
            lemma_picked_in_order(vols, prefixes, ask.sort, k, hits);
        }
    } else {
        lemma_sorted_hits(vols, prefixes, ask.sort, hits);
    }
    assert forall|j: int| 0 <= j < run.len() implies (#[trigger] run[j]).vol < prefixes.len() by {
        assert(truthful(vols, run[j]));
    }
}

/// The volumes are the same but for their scope caches.
pub open spec fn same_volumes(a: Seq<VolumeState>, b: Seq<VolumeState>) -> bool {
    &&& a.len() == b.len()
    &&& forall|k: int|
        0 <= k < a.len() ==> {
            let x = #[trigger] a[k];
            let y = b[k];
            &&& x.guid == y.guid
            &&& x.mounts == y.mounts
            &&& x.index == y.index
            &&& x.phase == y.phase
            &&& x.metadata_pending == y.metadata_pending
        }
}

/// The scopes of the first `n` targets are remembered, and no other volume's has
/// changed.
pub open spec fn scopes_remembered(
    before: Seq<VolumeState>,
    after: Seq<VolumeState>,
    targets: Seq<(int, Option<Seq<u8>>)>,
    match_case: bool,
    n: int,
) -> bool {
    &&& forall|a: int|
        0 <= a < n ==> {
            let k = (#[trigger] targets[a]).0;
            remembers(
                before[k].index@,
                before[k].scope_cache,
                after[k].scope_cache,
                targets[a].1,
                match_case,
            )
        }
    &&& forall|k: int|
        0 <= k < before.len() && (forall|a: int| 0 <= a < n ==> (#[trigger] targets[a]).0 != k)
            ==> (#[trigger] after[k]).scope_cache == before[k].scope_cache
}

/// The volumes as a query leaves them: the same, but that its scope is
/// remembered where it led to a folder.
pub open spec fn asked(
    before: Seq<VolumeState>,
    after: Seq<VolumeState>,
    targets: Seq<(int, Option<Seq<u8>>)>,
    match_case: bool,
) -> bool {
    &&& same_volumes(after, before)
    &&& scopes_remembered(before, after, targets, match_case, targets.len() as int)
}

/// No volume is a target twice, and every target is a volume.
pub proof fn lemma_targets(vols: Seq<VolumeState>, scope: Option<Seq<char>>)
    ensures
        forall|a: int|
            0 <= a < targets_of(vols, scope).len() ==> 0 <= (#[trigger] targets_of(
                vols,
                scope,
            )[a]).0 < vols.len(),
        forall|a: int, b: int|
            0 <= a < b < targets_of(vols, scope).len() ==> (#[trigger] targets_of(
                vols,
                scope,
            )[a]).0 != (#[trigger] targets_of(vols, scope)[b]).0,
        targets_of(vols, scope).len() <= vols.len(),
{
    if let Some(path) = scope {
        lemma_prefix_in_range(volume_prefixes(vols), encode_utf8(path));
    }
}

proof fn lemma_prefix_in_range(prefixes: Seq<Seq<u8>>, path: Seq<u8>)
    ensures
        match first_prefix(prefixes, path) {
            Some(k) => 0 <= k < prefixes.len(),
            None => true,
        },
    decreases prefixes.len(),
{
    if prefixes.len() > 0 {
        lemma_prefix_in_range(prefixes.drop_last(), path);
    }
}

/// Merging the runs merges their rows.
proof fn lemma_merged(
    vols: Seq<VolumeState>,
    prefixes: Seq<Vec<u8>>,
    sort: SortSpec,
    runs: Seq<Vec<VolHit>>,
    out: Seq<VolHit>,
)
    requires
        vols_wf(vols),
        prefixes_right(vols, prefixes),
        forall|r: int| 0 <= r < runs.len() ==> all_truthful(vols, (#[trigger] runs[r])@),
        runs.len() == 0 ==> out == Seq::<VolHit>::empty(),
        runs.len() == 1 ==> out == runs[0]@,
        runs.len() > 1 ==> out == stable_sort(
            concat(run_views(runs)),
            hit_before(prefixes, sort),
        ),
    ensures
        rows_of(out) == merged_rows(
            vols,
            runs.map_values(|r: Vec<VolHit>| rows_of(r@)),
            sort,
        ),
        all_truthful(vols, out),
{
    let rows = runs.map_values(|r: Vec<VolHit>| rows_of(r@));
    if runs.len() == 0 {
        assert(rows_of(out) =~= Seq::<Row>::empty());
    } else if runs.len() == 1 {
        assert(rows[0] == rows_of(runs[0]@));
    } else {
        let all = concat(run_views(runs));
        assert forall|i: int| 0 <= i < all.len() implies truthful(vols, #[trigger] all[i]) by {
            let at = lemma_concat_index(run_views(runs), i);
            assert(all_truthful(vols, runs[at.0]@));
            assert(truthful(vols, runs[at.0]@[at.1]));
        }
        lemma_sorted_hits(vols, prefixes, sort, all);
        lemma_concat_map(run_views(runs), row_of());
        assert(run_views(runs).map_values(|r: Seq<VolHit>| r.map_values(row_of())) =~= rows);
    }
}

/// A hit as it is sent.
pub open spec fn hit_item(
    prefixes: Seq<Vec<u8>>,
    want_size: bool,
    want_mtime: bool,
    h: VolHit,
) -> Item {
    Item {
        path: prefixes[h.vol as int]@ + h.hit.path@,
        is_dir: h.hit.is_dir,
        size: if want_size {
            h.hit.size
        } else {
            None
        },
        mtime: if want_mtime {
            h.hit.mtime
        } else {
            None
        },
    }
}

/// A reply under way. Its pages are encoded one at a time, and the hits of a
/// page are let go with it.
pub struct QueryStream {
    /// The hits still to be sent, last first.
    rows: Vec<VolHit>,
    prefixes: Vec<Vec<u8>>,
    want_size: bool,
    want_mtime: bool,
    total: u64,
    incomplete: bool,
    pending: bool,
    done: bool,
}

impl QueryStream {
    /// The items still to be sent.
    spec fn items_left(&self) -> Seq<Item> {
        self.rows@.reverse().map_values(
            |h: VolHit| hit_item(self.prefixes@, self.want_size, self.want_mtime, h),
        )
    }

    /// The frames still to come.
    pub closed spec fn frames_left(&self) -> Seq<Seq<u8>> {
        if self.done {
            seq![]
        } else {
            frames_of(
                Banner { total: self.total, incomplete: self.incomplete, pending: self.pending },
                self.items_left(),
            )
        }
    }

    /// Every hit's volume has a prefix.
    pub closed spec fn wf(&self) -> bool {
        prefixed(self.prefixes@, self.rows@)
    }

    /// Encodes the frame of the next `count` hits.
    fn encode_page(&mut self, count: usize, more: bool) -> (out: Vec<u8>)
        requires
            old(self).wf(),
            count <= old(self).rows@.len(),
            count <= PAGE_ROWS,
        ensures
            final(self).wf(),
            final(self).rows@ == old(self).rows@.take(old(self).rows@.len() - count),
            final(self).prefixes == old(self).prefixes,
            final(self).want_size == old(self).want_size,
            final(self).want_mtime == old(self).want_mtime,
            final(self).total == old(self).total,
            final(self).incomplete == old(self).incomplete,
            final(self).pending == old(self).pending,
            final(self).done == old(self).done,
            out@ == page_frame(
                (Banner {
                    total: old(self).total,
                    incomplete: old(self).incomplete,
                    pending: old(self).pending,
                }),
                more,
                old(self).items_left().take(count as int),
            ),
    {
        let ghost items = self.items_left();
        let ghost view = |h: VolHit|
            hit_item(self.prefixes@, self.want_size, self.want_mtime, h);
        let n = self.rows.len();
        let mut out: Vec<u8> = Vec::new();
        // The length is filled in when it is known.
        out.push(0);
        out.push(0);
        out.push(0);
        out.push(0);
        push_results_header(
            &mut out,
            self.total,
            0,
            more,
            self.incomplete,
            self.pending,
            count as u32,
        );
        let ghost head = Header {
            total: self.total,
            generation: 0,
            more,
            volumes_incomplete: self.incomplete,
            metadata_pending: self.pending,
            rows: count as u32,
        };
        let ghost start = out@;
        assert(start =~= seq![0u8, 0u8, 0u8, 0u8] + header_bytes(head));
        let mut path: Vec<u8> = Vec::new();
        let mut i: usize = 0;
        proof {
            assert(items.take(0) =~= Seq::<Item>::empty());
            assert(start + rows_bytes(items.take(0)) =~= start);
            assert(self.rows@ =~= self.rows@.take(n as int));
        }
        let ghost whole = self.rows@;
        while i < count
            invariant
                i <= count <= n,
                n == whole.len(),
                prefixed(self.prefixes@, whole),
                self.rows@ == whole.take(n - i),
                self.prefixes == old(self).prefixes,
                self.want_size == old(self).want_size,
                self.want_mtime == old(self).want_mtime,
                self.total == old(self).total,
                self.incomplete == old(self).incomplete,
                self.pending == old(self).pending,
                self.done == old(self).done,
                view == (|h: VolHit|
                    hit_item(old(self).prefixes@, old(self).want_size, old(self).want_mtime, h)),
                items == whole.reverse().map_values(view),
                out@ == start + rows_bytes(items.take(i as int)),
            decreases count - i,
        {
            let ghost before = out@;
            if let Some(h) = self.rows.pop() {
                proof {
                    assert(whole.take(n - i).last() == whole[n - i - 1]);
                    assert(h == whole[n - i - 1]);
                    assert(whole.reverse()[i as int] == h);
                    assert(items[i as int] == view(h));
                    assert(items.take(i + 1).drop_last() =~= items.take(i as int));
                    assert(items.take(i + 1).last() == items[i as int]);
                    assert(whole.take(n - i).drop_last() =~= whole.take(n - i - 1));
                }
                path.clear();
                append_bytes(&mut path, self.prefixes[h.vol].as_slice());
                append_bytes(&mut path, h.hit.path.as_slice());
                assert(path@ =~= self.prefixes@[h.vol as int]@ + h.hit.path@);
                let size = if self.want_size {
                    h.hit.size
                } else {
                    None
                };
                let mtime = if self.want_mtime {
                    h.hit.mtime
                } else {
                    None
                };
                push_item(&mut out, path.as_slice(), h.hit.is_dir, size, mtime);
                proof {
                    assert(out@ == before + item_bytes(items[i as int]));
                    assert(out@ =~= start + rows_bytes(items.take(i + 1)));
                }
            }
            i += 1;
        }
        proof {
            lemma_zero_frame(out@, start, head, items.take(count as int));
            assert forall|k: int| 0 <= k < self.rows@.len() implies (#[trigger] self.rows@[k]).vol
                < self.prefixes@.len() by {
                assert(whole[k].vol < self.prefixes@.len());
            }
        }
        fill_length(&mut out);
        out
    }

    /// The next frame, or nothing when the last one was given. Whoever sends the
    /// frames stops asking when the client is gone; nothing is encoded ahead.
    pub fn next_page(&mut self) -> (page: Option<Vec<u8>>)
        requires
            old(self).wf(),
        ensures
            final(self).wf(),
            match page {
                Some(p) => old(self).frames_left() == seq![p@] + final(self).frames_left(),
                None => old(self).frames_left().len() == 0 && final(self).frames_left().len() == 0,
            },
    {
        if self.done {
            return None;
        }
        let ghost items = self.items_left();
        let ghost whole = self.rows@;
        let n = self.rows.len();
        if n > PAGE_ROWS as usize {
            let page = self.encode_page(PAGE_ROWS as usize, true);
            proof {
                assert(whole.take(n - PAGE_ROWS).reverse() =~= whole.reverse().skip(
                    PAGE_ROWS as int,
                ));
                assert(self.items_left() =~= items.skip(PAGE_ROWS as int));
            }
            Some(page)
        } else {
            let page = self.encode_page(n, false);
            self.done = true;
            proof {
                assert(items.take(n as int) =~= items);
                assert(seq![page@] + Seq::<Seq<u8>>::empty() =~= seq![page@]);
            }
            Some(page)
        }
    }
}

/// Writes the length of what follows into the first four bytes.
fn fill_length(out: &mut Vec<u8>)
    requires
        old(out)@.len() >= 4,
    ensures
        final(out)@ == framed(old(out)@.skip(4)),
{
    let len = (out.len() - 4) as u32;
    out.set(0, (len % 256) as u8);
    out.set(1, (len / 256 % 256) as u8);
    out.set(2, (len / 65536 % 256) as u8);
    out.set(3, (len / 16777216 % 256) as u8);
    assert(out@ =~= framed(old(out)@.skip(4)));
}

/// Four bytes left free, a header and rows are a page with room for its length.
proof fn lemma_zero_frame(out: Seq<u8>, start: Seq<u8>, head: Header, items: Seq<Item>)
    requires
        start == seq![0u8, 0u8, 0u8, 0u8] + header_bytes(head),
        out == start + rows_bytes(items),
    ensures
        out.len() >= 4,
        out.skip(4) == page_bytes(head, items),
{
    assert(out.skip(4) =~= page_bytes(head, items));
}

/// The page of a list, as a list with its first element last.
fn cut_page(list: Vec<VolHit>, offset: u32, limit: Option<u32>) -> (rows: Vec<VolHit>)
    ensures
        rows@.reverse() == page(list@, offset, limit),
{
    let len = list.len();
    let start: usize = if (offset as usize) < len {
        offset as usize
    } else {
        len
    };
    let end: usize = match limit {
        Some(n) => if (n as usize) < len - start {
            start + n as usize
        } else {
            len
        },
        None => len,
    };
    let ghost whole = list@;
    let mut list = list;
    list.truncate(end);
    let mut rows = reversed(list);
    rows.truncate(end - start);
    assert(rows@.reverse() =~= page(whole, offset, limit));
    rows
}

/// Brings what was gathered into one order and makes the reply of it.
pub fn start_stream(c: Collected, prefixes: Vec<Vec<u8>>, q: &QueryRequest) -> (stream: QueryStream)
    requires
        forall|r: int| 0 <= r < c.runs@.len() ==> prefixed(prefixes@, (#[trigger] c.runs@[r])@),
        q.sort.key is Name ==> forall|r: int|
            0 <= r < c.runs@.len() ==> in_order(
                (#[trigger] c.runs@[r])@,
                hit_before(prefixes@, q.sort),
            ),
    ensures
        stream.wf(),
        forall|vols: Seq<VolumeState>|
            vols_wf(vols) && prefixes_right(vols, prefixes@) && #[trigger] c.mergeable(
                vols,
                prefixes@,
                q.sort,
            ) ==> stream.frames_left() == frames_of(
                (Banner { total: c.total, incomplete: c.incomplete, pending: c.pending }),
                page(merged_rows(vols, c.run_rows(), q.sort), q.offset, q.limit).map_values(
                    |r: Row| row_item(vols, ask_of(*q), r),
                ),
            ),
{
    let ghost runs = c.runs@;
    let merged = order_merged(c.runs, &prefixes, q.sort);
    let ghost all = merged@;
    let rows = cut_page(merged, q.offset, q.limit);
    let stream = QueryStream {
        rows,
        prefixes,
        want_size: q.want_size,
        want_mtime: q.want_mtime,
        total: c.total,
        incomplete: c.incomplete,
        pending: c.pending,
        done: false,
    };
    proof {
        let shown_page = page(all, q.offset, q.limit);
        assert(rows@.reverse() == shown_page);
        assert forall|k: int| 0 <= k < rows@.len() implies (#[trigger] rows@[k]).vol
            < prefixes@.len() by {
            let m = rows@.len() - 1 - k;
            assert(rows@.reverse()[m] == rows@[k]);
            let h = rows@[k];
            assert(shown_page[m] == h);
            lemma_on_page(all, q.offset, q.limit, m);
            lemma_merged_prefixed(prefixes@, q.sort, runs, all, h);
        }
        assert forall|vols: Seq<VolumeState>|
            vols_wf(vols) && prefixes_right(vols, prefixes@) && #[trigger] c.mergeable(
                vols,
                prefixes@,
                q.sort,
            ) implies stream.items_left() == page(
            merged_rows(vols, c.run_rows(), q.sort),
            q.offset,
            q.limit,
        ).map_values(|r: Row| row_item(vols, ask_of(*q), r)) by {
            assert forall|r: int| 0 <= r < runs.len() implies all_truthful(
                vols,
                (#[trigger] runs[r])@,
            ) by {}
            lemma_merged(vols, prefixes@, q.sort, runs, all);
            lemma_page_items(vols, prefixes@, *q, all);
        }
    }
    stream
}

/// What stands on a page stands in the list.
proof fn lemma_on_page<T>(all: Seq<T>, offset: u32, limit: Option<u32>, k: int)
    requires
        0 <= k < page(all, offset, limit).len(),
    ensures
        all.contains(page(all, offset, limit)[k]),
{
    assert(all[page_start(all.len(), offset) + k] == page(all, offset, limit)[k]);
}

/// The merged list holds nothing but what the runs hold.
proof fn lemma_merged_prefixed(
    prefixes: Seq<Vec<u8>>,
    sort: SortSpec,
    runs: Seq<Vec<VolHit>>,
    all: Seq<VolHit>,
    h: VolHit,
)
    requires
        forall|r: int| 0 <= r < runs.len() ==> prefixed(prefixes, (#[trigger] runs[r])@),
        runs.len() == 0 ==> all == Seq::<VolHit>::empty(),
        runs.len() == 1 ==> all == runs[0]@,
        runs.len() > 1 ==> all == stable_sort(concat(run_views(runs)), hit_before(prefixes, sort)),
        all.contains(h),
    ensures
        h.vol < prefixes.len(),
{
    if runs.len() == 1 {
        assert(prefixed(prefixes, runs[0]@));
    } else if runs.len() > 1 {
        let c = concat(run_views(runs));
        lemma_stable_sort_permutes(c, hit_before(prefixes, sort));
        lemma_permuted_members(all, c, h);
        let at = lemma_concat_index(run_views(runs), c.index_of(h));
        assert(prefixed(prefixes, runs[at.0]@));
    }
}

/// A page of hits and the page of their rows are sent alike.
proof fn lemma_page_items(
    vols: Seq<VolumeState>,
    prefixes: Seq<Vec<u8>>,
    q: QueryRequest,
    all: Seq<VolHit>,
)
    requires
        prefixes_right(vols, prefixes),
        all_truthful(vols, all),
    ensures
        page(all, q.offset, q.limit).map_values(
            |h: VolHit| hit_item(prefixes, q.want_size, q.want_mtime, h),
        ) == page(rows_of(all), q.offset, q.limit).map_values(
            |r: Row| row_item(vols, ask_of(q), r),
        ),
{
    let shown_page = page(all, q.offset, q.limit);
    let row_page = page(rows_of(all), q.offset, q.limit);
    let item = |r: Row| row_item(vols, ask_of(q), r);
    let view = |h: VolHit| hit_item(prefixes, q.want_size, q.want_mtime, h);
    assert forall|k: int| 0 <= k < shown_page.len() implies #[trigger] shown_page.map_values(
        view,
    )[k] == row_page.map_values(item)[k] by {
        let at = page_start(all.len(), q.offset) + k;
        let h = all[at];
        assert(shown_page[k] == h);
        assert(rows_of(all)[at] == row_of()(h));
        assert(row_page[k] == row_of()(h));
        assert(truthful(vols, h));
        assert(prefixes[h.vol as int]@ == vols[h.vol as int].prefix_bytes());
    }
    assert(shown_page.map_values(view) =~= row_page.map_values(item));
}

/// Runs a query over all volumes. Gives the reply, whose frames are then taken
/// from it one by one; or, where the query cannot be read, the error to send in
/// its place, never an empty page, which would read as no matches.
pub fn stream_query_binary(volumes: &mut Vec<VolumeState>, q: &QueryRequest) -> (res: Result<
    QueryStream,
    Response,
>)
    requires
        vols_wf(old(volumes)@),
        old(volumes)@.len() <= u32::MAX,
    ensures
        if res is Ok {
            asked(
                old(volumes)@,
                final(volumes)@,
                targets_of(old(volumes)@, scope_text(q.scope)),
                q.match_case,
            )
        } else {
            final(volumes)@ == old(volumes)@
        },
        match res {
            Ok(stream) => {
                &&& stream.wf()
                &&& exists|parsed: ParsedQuery|
                    query_model(encode_utf8(q.query@)) == Ok::<QueryModel, QueryError>(
                        parsed.model(),
                    ) && stream.frames_left() == #[trigger] reply_frames(
                        old(volumes)@,
                        targets_of(old(volumes)@, scope_text(q.scope)),
                        parsed,
                        ask_of(*q),
                    )
            },
            Err(r) => query_model(encode_utf8(q.query@)) is Err && r is Error && r->code
                == ProtoError::BadQuery && r->message@ == query_model(
                encode_utf8(q.query@),
            )->Err_0.text(),
        },
{
    let ghost vols = volumes@;
    let prefixes = all_prefixes(volumes);
    assert(crate::pieces::texts(prefixes@).len() == volume_prefixes(vols).len());
    assert forall|k: int| 0 <= k < vols.len() implies (#[trigger] prefixes@[k])@
        == vols[k].prefix_bytes() by {
        assert(crate::pieces::texts(prefixes@)[k] == volume_prefixes(vols)[k]);
    }
    let mut run = match QueryRun::begin(prefixes, q) {
        Ok(run) => run,
        Err(r) => return Err(r),
    };
    let ghost parsed = run.parsed();
    let ghost views = targets_of(vols, scope_text(q.scope));
    proof {
        lemma_targets(vols, scope_text(q.scope));
        assert(run.about(vols));
    }
    loop
        invariant
            vols_wf(vols),
            views == targets_of(vols, scope_text(q.scope)),
            forall|a: int| 0 <= a < views.len() ==> 0 <= (#[trigger] views[a]).0 < vols.len(),
            forall|a: int, b: int|
                0 <= a < b < views.len() ==> (#[trigger] views[a]).0 != (#[trigger] views[b]).0,
            run.request() == *q,
            run.parsed() == parsed,
            run.about(vols),
            run.targets() == views,
            0 <= run.at() <= views.len(),
            same_volumes(volumes@, vols),
            forall|a: int|
                run.at() <= a < views.len() ==> volumes@[(#[trigger] views[a]).0].scope_cache
                    == vols[views[a].0].scope_cache,
            scopes_remembered(vols, volumes@, views, q.match_case, run.at()),
        ensures
            run.at() == views.len(),
        decreases views.len() - run.at(),
    {
        let k: usize = match run.next_volume() {
            Some(k) => k,
            None => break,
        };
        let ghost n = run.at();
        assert(0 <= views[n].0 < vols.len());
        let mut cache = volumes[k].scope_cache.take();
        assert(volumes@[k as int].index == vols[k as int].index);
        assert(has_volume(
            vols,
            k as int,
            volumes@[k as int].phase.complete(),
            volumes@[k as int].metadata_pending,
            volumes@[k as int].index,
            cache,
        ));
        run.ask(
            volumes[k].phase.is_complete(),
            volumes[k].metadata_pending,
            &volumes[k].index,
            &mut cache,
        );
        volumes[k].scope_cache = cache;
        proof {
            assert(scopes_remembered(vols, volumes@, views, q.match_case, n + 1)) by {
                assert forall|a: int| 0 <= a < n + 1 implies {
                    let t = (#[trigger] views[a]).0;
                    remembers(
                        vols[t].index@,
                        vols[t].scope_cache,
                        volumes@[t].scope_cache,
                        views[a].1,
                        q.match_case,
                    )
                } by {
                    if a < n {
                        assert(views[a].0 != views[n].0);
                    }
                }
                assert forall|t: int|
                    0 <= t < vols.len() && (forall|a: int|
                        0 <= a < n + 1 ==> (#[trigger] views[a]).0 != t) implies (
                #[trigger] volumes@[t]).scope_cache == vols[t].scope_cache by {
                    assert(views[n].0 != t);
                }
            }
            assert forall|a: int| n + 1 <= a < views.len() implies volumes@[(
            #[trigger] views[a]).0].scope_cache == vols[views[a].0].scope_cache by {
                assert(views[n].0 != views[a].0);
            }
            assert(run.between(vols));
        }
        run.settle();
    }
    Ok(run.finish())
}

/// All frames of the reply to a query, one behind the other.
pub fn encode_query_binary(volumes: &mut Vec<VolumeState>, q: &QueryRequest) -> (res: Result<
    Vec<Vec<u8>>,
    Response,
>)
    requires
        vols_wf(old(volumes)@),
        old(volumes)@.len() <= u32::MAX,
    ensures
        if res is Ok {
            asked(
                old(volumes)@,
                final(volumes)@,
                targets_of(old(volumes)@, scope_text(q.scope)),
                q.match_case,
            )
        } else {
            final(volumes)@ == old(volumes)@
        },
        match res {
            Ok(frames) => exists|parsed: ParsedQuery|
                query_model(encode_utf8(q.query@)) == Ok::<QueryModel, QueryError>(parsed.model())
                    && crate::pieces::texts(frames@) == #[trigger] reply_frames(
                    old(volumes)@,
                    targets_of(old(volumes)@, scope_text(q.scope)),
                    parsed,
                    ask_of(*q),
                ),
            Err(r) => query_model(encode_utf8(q.query@)) is Err && r is Error && r->code
                == ProtoError::BadQuery && r->message@ == query_model(
                encode_utf8(q.query@),
            )->Err_0.text(),
        },
{
    let mut stream = match stream_query_binary(volumes, q) {
        Ok(stream) => stream,
        Err(r) => return Err(r),
    };
    let ghost all = stream.frames_left();
    let mut frames: Vec<Vec<u8>> = Vec::new();
    assert(crate::pieces::texts(frames@) + all =~= all);
    loop
        invariant
            stream.wf(),
            crate::pieces::texts(frames@) + stream.frames_left() == all,
        ensures
            crate::pieces::texts(frames@) == all,
        decreases stream.frames_left().len(),
    {
        let ghost left = stream.frames_left();
        let ghost had = frames@;
        match stream.next_page() {
            Some(p) => {
                frames.push(p);
                assert(crate::pieces::texts(frames@) =~= crate::pieces::texts(had).push(p@));
                assert(crate::pieces::texts(had) + left =~= crate::pieces::texts(frames@)
                    + stream.frames_left());
            },
            None => {
                assert(crate::pieces::texts(frames@) + left =~= crate::pieces::texts(frames@));
                break ;
            },
        }
    }
    Ok(frames)
}

/// What is asked of the rows is what the request says, field by field.
pub proof fn law_request_is_asked(q: QueryRequest)
    ensures
        ask_of(q).sort == q.sort,
        ask_of(q).offset == q.offset,
        ask_of(q).limit == q.limit,
        ask_of(q).want_size == q.want_size,
        ask_of(q).want_mtime == q.want_mtime,
        ask_of(q).match_case == q.match_case,
{
}

/// A query changes nothing of a volume but what it remembers of a scope, and
/// that only of a volume that it looks at.
pub proof fn law_query_leaves_volumes(
    before: Seq<VolumeState>,
    after: Seq<VolumeState>,
    targets: Seq<(int, Option<Seq<u8>>)>,
    match_case: bool,
    k: int,
)
    requires
        asked(before, after, targets, match_case),
        0 <= k < before.len(),
    ensures
        after.len() == before.len(),
        after[k].guid == before[k].guid,
        after[k].mounts == before[k].mounts,
        after[k].index == before[k].index,
        after[k].phase == before[k].phase,
        after[k].metadata_pending == before[k].metadata_pending,
        (forall|a: int| 0 <= a < targets.len() ==> (#[trigger] targets[a]).0 != k)
            ==> after[k].scope_cache == before[k].scope_cache,
{
    assert(after[k].guid == before[k].guid);
}

/// A hit is sent with all that it says, behind its volume's prefix: the size
/// where sizes are wanted and the time where times are.
pub proof fn law_hit_is_told_whole(
    prefixes: Seq<Vec<u8>>,
    want_size: bool,
    want_mtime: bool,
    h: VolHit,
)
    ensures
        ({
            let item = hit_item(prefixes, want_size, want_mtime, h);
            &&& item.path == prefixes[h.vol as int]@ + h.hit.path@
            &&& item.is_dir == h.hit.is_dir
            &&& want_size ==> item.size == h.hit.size
            &&& !want_size ==> item.size is None
            &&& want_mtime ==> item.mtime == h.hit.mtime
            &&& !want_mtime ==> item.mtime is None
        }),
{
}

} // verus!
