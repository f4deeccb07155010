//! The query executor: scan the index, apply scope and sort, and return a page
//! of hits.

use super::evaluate::{parent_path, paths_right, Candidate};
use super::model::{matched, page, page_end, page_start, ranking};
use super::order::{fill_sort_keys, keyed, order_top};
use super::parse::ParsedQuery;
use super::scan::{all_faithful, gather, idxs};
use crate::bytes::{append_bytes, same_bytes};
use crate::fold::{fold, folded};
use crate::index::model::{
    first_where, join_path, lemma_path_of_child, IndexView, LOST_FOUND, ROOT,
    SEPARATOR,
};
use crate::index::VolumeIndex;
use crate::memo::memo_get;
use crate::pieces::{pieces, split, texts, Cut};
use crate::seqs::lemma_permuted_members;
use crate::types::{EntryIdx, SortKey, SortSpec};
use rustc_hash::FxHashMap;
use vstd::prelude::*;

verus! {

/// One matched entry. The daemon puts the volume's mount prefix before `path`.
#[derive(Clone, Debug, PartialEq, Eq)]
pub struct QueryHit {
    pub idx: EntryIdx,
    /// Full path within the volume, in WTF-8.
    pub path: Vec<u8>,
    pub is_dir: bool,
    pub size: Option<u64>,
    pub mtime: Option<i64>,
}

/// The requested page and the full match count.
#[derive(Clone, Debug, PartialEq, Eq)]
pub struct QueryOutcome {
    /// Matches before offset and limit.
    pub total: u64,
    /// The page.
    pub hits: Vec<QueryHit>,
}

/// What [`run_query_deferrable`] returns.
#[derive(Clone, Debug, PartialEq, Eq)]
pub struct DeferredOutcome {
    /// Matches before offset and limit.
    pub total: u64,
    /// The page.
    pub hits: Vec<QueryHit>,
    /// Whether the page is sorted. Where it is not, it holds every match, and
    /// the caller sorts.
    pub sorted: bool,
}

impl QueryHit {
    /// The hit shows the entry `i`.
    pub open spec fn shows(&self, v: IndexView, i: EntryIdx) -> bool {
        &&& self.idx == i
        &&& v.path_of(i) == Some(self.path@)
        &&& self.is_dir == v.entry(i).is_dir
        &&& self.size == v.entry(i).size
        &&& self.mtime == v.entry(i).mtime
    }
}

/// The hits show the entries of `list`, in its order.
pub open spec fn shown(v: IndexView, hits: Seq<QueryHit>, list: Seq<EntryIdx>) -> bool {
    &&& hits.len() == list.len()
    &&& forall|k: int| 0 <= k < hits.len() ==> (#[trigger] hits[k]).shows(v, list[k])
}

/// Runs a query.
///
/// `scope`, where given, restricts the results to what lies under that
/// directory; see [`resolve_scope`]. The results come sorted per `sort`; `offset`
/// and `limit` select the page, and `total` counts every match.
pub fn run_query(
    index: &VolumeIndex,
    parsed: &ParsedQuery,
    scope: Option<EntryIdx>,
    sort: SortSpec,
    offset: u32,
    limit: Option<u32>,
) -> (out: QueryOutcome)
    requires
        index.wf(),
        scope is Some ==> index@.in_range(scope->0),
    ensures
        out.total == matched(index@, *parsed, scope).len(),
        shown(
            index@,
            out.hits@,
            page(ranking(index@, *parsed, scope, sort), offset, limit),
        ),
{
    run_query_impl(index, parsed, scope, Some(sort), offset, limit)
}

/// Every match, with its path, in scan order; the caller sorts. Every sort key
/// can be had from the hits, so that the sorting needs no index.
pub fn run_query_unsorted(
    index: &VolumeIndex,
    parsed: &ParsedQuery,
    scope: Option<EntryIdx>,
) -> (out: QueryOutcome)
    requires
        index.wf(),
        scope is Some ==> index@.in_range(scope->0),
    ensures
        out.total == matched(index@, *parsed, scope).len(),
        shown(index@, out.hits@, matched(index@, *parsed, scope)),
{
    let out = run_query_impl(index, parsed, scope, None, 0, None);
    proof {
        let m = matched(index@, *parsed, scope);
        assert(page(m, 0, None) =~= m);
    }
    out
}

/// Runs a query, but leaves the sorting to the caller where the page takes in
/// every match: then nothing has to be picked, and the index need not be held
/// while sorting.
pub fn run_query_deferrable(
    index: &VolumeIndex,
    parsed: &ParsedQuery,
    scope: Option<EntryIdx>,
    sort: SortSpec,
    offset: u32,
    limit: Option<u32>,
) -> (out: DeferredOutcome)
    requires
        index.wf(),
        scope is Some ==> index@.in_range(scope->0),
    ensures
        out.total == matched(index@, *parsed, scope).len(),
        out.sorted == (page_start(out.total as nat, offset) > 0 || page_end(
            out.total as nat,
            offset,
            limit,
        ) < out.total),
        out.sorted ==> shown(
            index@,
            out.hits@,
            page(ranking(index@, *parsed, scope, sort), offset, limit),
        ),
        !out.sorted ==> shown(index@, out.hits@, matched(index@, *parsed, scope)),
{
    let (cands, scratch) = gather(index, parsed, scope);
    let total = cands.len() as u64;
    let (start, end) = page_bounds(cands.len(), offset, limit);
    let sorted = start > 0 || end < cands.len();
    let order = if sorted {
        Some(sort)
    } else {
        None
    };
    let hits = present(index, cands, scratch.dir_paths, order, start, end, Ghost(parsed), Ghost(scope));
    proof {
        let m = matched(index@, *parsed, scope);
        if !sorted {
            assert(m.subrange(start as int, end as int) =~= m);
        }
    }
    DeferredOutcome { total, hits, sorted }
}

/// What the results are taken from: the matches sorted, or as scanned.
spec fn source(
    v: IndexView,
    q: ParsedQuery,
    scope: Option<EntryIdx>,
    sort: Option<SortSpec>,
) -> Seq<EntryIdx> {
    match sort {
        Some(s) => ranking(v, q, scope, s),
        None => matched(v, q, scope),
    }
}

/// Where the page begins and ends in a list of `len`.
fn page_bounds(len: usize, offset: u32, limit: Option<u32>) -> (bounds: (usize, usize))
    ensures
        bounds.0 == page_start(len as nat, offset),
        bounds.1 == page_end(len as nat, offset, limit),
        bounds.0 <= bounds.1 <= len,
{
    let start: usize = if (offset as usize) < len {
        offset as usize
    } else {
        len
    };
    let end: usize = match limit {
        Some(n) => if (n as usize) < len - start {
            start + n as usize
        } else {
            len
        },
        None => len,
    };
    (start, end)
}

/// Runs a query; without `sort` the matches come in scan order.
fn run_query_impl(
    index: &VolumeIndex,
    parsed: &ParsedQuery,
    scope: Option<EntryIdx>,
    sort: Option<SortSpec>,
    offset: u32,
    limit: Option<u32>,
) -> (out: QueryOutcome)
    requires
        index.wf(),
        scope is Some ==> index@.in_range(scope->0),
    ensures
        out.total == matched(index@, *parsed, scope).len(),
        shown(index@, out.hits@, page(source(index@, *parsed, scope, sort), offset, limit)),
{
    let (cands, scratch) = gather(index, parsed, scope);
    let total = cands.len() as u64;
    let (start, end) = page_bounds(cands.len(), offset, limit);
    let hits = present(index, cands, scratch.dir_paths, sort, start, end, Ghost(parsed), Ghost(scope));
    QueryOutcome { total, hits }
}

/// Orders as many candidates as the page needs, and builds the page's hits.
fn present(
    index: &VolumeIndex,
    cands: Vec<Candidate>,
    dir_paths: FxHashMap<EntryIdx, Option<Vec<u8>>>,
    sort: Option<SortSpec>,
    start: usize,
    end: usize,
    Ghost(q): Ghost<&ParsedQuery>,
    Ghost(scope): Ghost<Option<EntryIdx>>,
) -> (hits: Vec<QueryHit>)
    requires
        index.wf(),
        all_faithful(index@, cands@),
        idxs(cands@) == matched(index@, *q, scope),
        paths_right(index@, dir_paths@),
        start <= end <= cands@.len(),
    ensures
        source(index@, *q, scope, sort).len() == cands@.len(),
        shown(
            index@,
            hits@,
            source(index@, *q, scope, sort).subrange(start as int, end as int),
        ),
{
    let ghost v = index@;
    let ghost m = matched(v, *q, scope);
    let ghost src = source(v, *q, scope, sort);
    let mut cands = cands;
    let mut dir_paths = dir_paths;
    assert(idxs(cands@).len() == cands@.len());
    if let Some(s) = sort {
        if let SortKey::Path = s.key {
            fill_sort_keys(index, &mut cands);
        }
        let ghost filled = cands@;
        proof {
            assert(idxs(filled).len() == filled.len());
            assert(filled.len() == m.len());
            assert forall|k: int| 0 <= k < cands@.len() implies keyed(v, s, #[trigger] cands@[k]) by {
                assert(cands@[k].faithful(v));
            }
        }
        order_top(index, &mut cands, s, end);
        proof {
            assert forall|k: int| 0 <= k < cands@.len() implies (#[trigger] cands@[k]).faithful(v) by {
                lemma_permuted_members(filled, cands@, cands@[k]);
                assert(cands@.contains(cands@[k]));
                let j = filled.index_of(cands@[k]);
                assert(filled[j].faithful(v));
            }
            filled.to_multiset_ensures();
            cands@.to_multiset_ensures();
            super::model::lemma_result_order_total(v, s);
            m.lemma_sort_by_ensures(super::model::result_order(v, s));
            m.to_multiset_ensures();
            src.to_multiset_ensures();
        }
    }
    assert(idxs(cands@).take(end as int) =~= src.take(end as int));
    let mut hits: Vec<QueryHit> = Vec::new();
    let mut k: usize = start;
    while k < end
        invariant
            index.wf(),
            v == index@,
            start <= k <= end <= cands@.len(),
            src.len() == cands@.len(),
            idxs(cands@).take(end as int) == src.take(end as int),
            forall|j: int| 0 <= j < cands@.len() ==> (#[trigger] cands@[j]).faithful(v),
            paths_right(v, dir_paths@),
            hits@.len() == k - start,
            forall|j: int|
                0 <= j < hits@.len() ==> (#[trigger] hits@[j]).shows(v, src[start + j]),
        decreases end - k,
    {
        proof {
            assert(idxs(cands@).take(end as int)[k as int] == src.take(end as int)[k as int]);
        }
        let hit = build_hit(index, &cands[k], &mut dir_paths);
        hits.push(hit);
        k += 1;
    }
    hits
}

/// The hit of one candidate: its directory's path, which siblings share, and
/// its name.
fn build_hit(
    index: &VolumeIndex,
    c: &Candidate,
    dir_paths: &mut FxHashMap<EntryIdx, Option<Vec<u8>>>,
) -> (hit: QueryHit)
    requires
        index.wf(),
        c.faithful(index@),
        paths_right(index@, old(dir_paths)@),
    ensures
        paths_right(index@, final(dir_paths)@),
        hit.shows(index@, c.idx),
{
    let mut path: Vec<u8> = Vec::new();
    match &c.path {
        Some(p) => {
            append_bytes(&mut path, p.as_slice());
            assert(path@ =~= p@);
        },
        None => {
            let entry = index.entry(c.idx);
            let parent = entry.parent;
            proof {
                assert(index@.entry(0).synthetic);
                assert(index@.entry(LOST_FOUND).synthetic);
                assert(index@.has_parent(c.idx));
                lemma_path_of_child(index@, c.idx);
            }
            parent_path(index, parent, dir_paths);
            if let Some(Some(dir)) = memo_get(dir_paths, parent) {
                if dir.len() > 0 {
                    append_bytes(&mut path, dir.as_slice());
                    path.push(SEPARATOR);
                }
                append_bytes(&mut path, entry.name);
                assert(path@ =~= join_path(dir@, entry.name@));
            }
        },
    }
    QueryHit { idx: c.idx, path, is_dir: c.is_dir, size: c.size, mtime: c.mtime }
}

/// The components of a path, empty ones left out.
pub open spec fn components(path: Seq<u8>) -> Seq<Seq<u8>> {
    pieces(Cut::Separators, path)
}

/// The directory called `name` in `dir`: the first whose folded name is the
/// same, or, where the case counts, the first whose name is.
pub open spec fn subdirectory(
    v: IndexView,
    dir: EntryIdx,
    name: Seq<u8>,
    match_case: bool,
) -> Option<EntryIdx> {
    if match_case {
        first_where(
            v.live_slots(),
            |i: EntryIdx|
                !v.entry(i).synthetic && v.entry(i).is_dir && v.entry(i).parent == dir && v.name(i)
                    == name,
        )
    } else {
        v.child_dir(dir, folded(name))
    }
}

/// The directory reached from `dir` by the names of `comps`.
pub open spec fn descend(
    v: IndexView,
    dir: EntryIdx,
    comps: Seq<Seq<u8>>,
    match_case: bool,
) -> Option<EntryIdx>
    decreases comps.len(),
{
    if comps.len() == 0 {
        Some(dir)
    } else {
        match subdirectory(v, dir, comps[0], match_case) {
            Some(next) => descend(v, next, comps.drop_first(), match_case),
            None => None,
        }
    }
}

/// The directory a scope path leads to.
pub open spec fn scope_target(v: IndexView, path: Seq<u8>, match_case: bool) -> Option<EntryIdx> {
    descend(v, ROOT, components(path), match_case)
}

/// The directory called exactly `name` in `dir`.
fn exact_subdirectory(index: &VolumeIndex, dir: EntryIdx, name: &[u8]) -> (found: Option<EntryIdx>)
    requires
        index.wf(),
    ensures
        found == subdirectory(index@, dir, name@, true),
        found is Some ==> index@.live(found->0),
{
    let ghost v = index@;
    let ghost p = |i: EntryIdx|
        !v.entry(i).synthetic && v.entry(i).is_dir && v.entry(i).parent == dir && v.name(i)
            == name@;
    let live = index.live_entries();
    let mut k: usize = 0;
    assert(live@.skip(0) =~= live@);
    while k < live.len()
        invariant
            index.wf(),
            v == index@,
            live@ == v.live_slots(),
            p == (|i: EntryIdx|
                !v.entry(i).synthetic && v.entry(i).is_dir && v.entry(i).parent == dir && v.name(i)
                    == name@),
            k <= live@.len(),
            subdirectory(v, dir, name@, true) == first_where(live@.skip(k as int), p),
        decreases live@.len() - k,
    {
        let i = live[k];
        proof {
            let all = Seq::new(v.entries.len(), |i: int| i as EntryIdx);
            assert(live@.contains(live@[k as int]));
            crate::seqs::lemma_filter_members(all, |i: EntryIdx| v.live(i), i);
            assert(live@.skip(k as int)[0] == i);
            assert(live@.skip(k as int).drop_first() =~= live@.skip(k + 1));
        }
        let e = index.entry(i);
        if !index.is_synthetic(i) && e.is_dir && e.parent == dir && same_bytes(e.name, name) {
            return Some(i);
        }
        k += 1;
    }
    None
}

/// Resolves a scope folder's path within the volume to its entry, component by
/// component from the root; the empty path is the root. Gives nothing where a
/// component is missing.
pub fn resolve_scope(index: &VolumeIndex, path: &[u8], match_case: bool) -> (dir: Option<EntryIdx>)
    requires
        index.wf(),
    ensures
        dir == scope_target(index@, path@, match_case),
        dir is Some ==> index@.live(dir->0),
{
    let ghost v = index@;
    let comps = split(Cut::Separators, path);
    let ghost names = components(path@);
    let mut cur = index.root();
    let mut k: usize = 0;
    proof {
        assert(v.entry(ROOT).live);
        assert(names.skip(0) =~= names);
    }
    while k < comps.len()
        invariant
            index.wf(),
            v == index@,
            v.live(cur),
            names == components(path@),
            texts(comps@) == names,
            k <= comps@.len(),
            scope_target(v, path@, match_case) == descend(v, cur, names.skip(k as int), match_case),
        decreases comps@.len() - k,
    {
        let comp = comps[k].as_slice();
        proof {
            assert(texts(comps@)[k as int] == comp@);
            assert(names.skip(k as int)[0] == comp@);
            assert(names.skip(k as int).drop_first() =~= names.skip(k + 1));
        }
        let next = if match_case {
            exact_subdirectory(index, cur, comp)
        } else {
            index.child_dir(cur, fold(comp))
        };
        match next {
            Some(dir) => {
                cur = dir;
            },
            None => return None,
        }
        k += 1;
    }
    Some(cur)
}

/// What a hit says of the entry it shows: its slot, its path, whether it is a
/// directory, its size and its time, as the index has them. There is one hit for
/// each entry, in their order.
pub proof fn law_hits_show(v: IndexView, hits: Seq<QueryHit>, list: Seq<EntryIdx>, k: int)
    requires
        shown(v, hits, list),
        0 <= k < list.len(),
    ensures
        hits.len() == list.len(),
        hits[k].idx == list[k],
        v.path_of(list[k]) is Some,
        hits[k].path@ == v.path_of(list[k])->0,
        hits[k].is_dir == v.entry(list[k]).is_dir,
        hits[k].size == v.entry(list[k]).size,
        hits[k].mtime == v.entry(list[k]).mtime,
{
    assert(hits[k].shows(v, list[k]));
}

} // verus!
