//! What holds of every reply.

use super::answer::{
    frames_of, gathered, merged_rows, page_frame, reply_frames, reply_items, row_before, scope_in,
    volume_rows, Ask, Banner, Row,
};
use super::merge::concat;
use super::status::all_complete;
use super::volume::{
    cached_target, still_names, targets_of, ScopeCache, VolumeState,
};
use crate::fold::{folded, folded_units, lemma_folded_around_ascii};
use crate::index::model::{join_path, lemma_path_of_child, IndexView, LOST_FOUND, ROOT, SEPARATOR};
use crate::index::update::lemma_first_where;
use crate::proto::page::Item;
use crate::proto::PAGE_ROWS;
use crate::query::engine::{components, descend, scope_target, subdirectory};
use crate::query::laws::{law_content_decides, lemma_live_slots};
use crate::query::model::{matched, page_end};
use crate::query::parse::ParsedQuery;
use crate::stable::{lemma_stable_sort_permutes, stable_sort};
use crate::types::{EntryIdx, NIL};
use crate::wtf8::units;
use vstd::prelude::*;

verus! {

/// How many frames a reply of `n` rows has.
pub open spec fn frame_count(n: nat) -> nat {
    if n == 0 {
        1
    } else {
        (n + PAGE_ROWS - 1) as nat / PAGE_ROWS as nat
    }
}

/// The rows of the `k`-th frame.
pub open spec fn frame_rows(items: Seq<Item>, k: int) -> Seq<Item> {
    let start = k * PAGE_ROWS;
    let end = start + PAGE_ROWS;
    items.subrange(
        start,
        if end <= items.len() {
            end
        } else {
            items.len() as int
        },
    )
}

/// A reply has a last frame, also where it has no rows. Every frame but the last
/// is full and says that more follow; the last says that none do. All of them
/// bear the same banner: the number of matches in all, and whether the volumes
/// are complete.
pub proof fn law_frames(b: Banner, items: Seq<Item>)
    ensures
        frames_of(b, items).len() == frame_count(items.len()),
        frames_of(b, items).len() > 0,
        forall|k: int|
            0 <= k < frames_of(b, items).len() ==> #[trigger] frames_of(b, items)[k] == page_frame(
                b,
                k + 1 < frames_of(b, items).len(),
                frame_rows(items, k),
            ),
    decreases items.len(),
{
    let frames = frames_of(b, items);
    if items.len() <= PAGE_ROWS {
        assert(frame_rows(items, 0) =~= items);
    } else {
        let rest = items.skip(PAGE_ROWS as int);
        let later = frames_of(b, rest);
        law_frames(b, rest);
        assert(frames =~= seq![page_frame(b, true, items.take(PAGE_ROWS as int))] + later);
        assert(frame_rows(items, 0) =~= items.take(PAGE_ROWS as int));
        assert forall|k: int| 0 <= k < frames.len() implies #[trigger] frames[k] == page_frame(
            b,
            k + 1 < frames.len(),
            frame_rows(items, k),
        ) by {
            if k > 0 {
                assert(frames[k] == later[k - 1]);
                assert(frame_rows(rest, k - 1) =~= frame_rows(items, k));
            }
        }
    }
}

/// What the first `n` targets gave is there in full where no limit cuts it.
proof fn lemma_gathered_within(
    vols: Seq<VolumeState>,
    targets: Seq<(int, Option<Seq<u8>>)>,
    q: ParsedQuery,
    ask: Ask,
    n: int,
)
    requires
        0 <= n <= targets.len(),
        ask.limit is None,
    ensures
        concat(gathered(vols, targets, q, ask, n).runs).len() == gathered(
            vols,
            targets,
            q,
            ask,
            n,
        ).total,
    decreases n,
{
    if n > 0 {
        let g = gathered(vols, targets, q, ask, n - 1);
        lemma_gathered_within(vols, targets, q, ask, n - 1);
        let t = targets[n - 1];
        match scope_in(vols, t, ask.match_case) {
            None => {},
            Some(scope) => {
                let m = matched(vols[t.0].index@, q, scope);
                let row = |i: EntryIdx| (t.0, i);
                let rows = volume_rows(vols, t.0, q, scope, ask);
                lemma_stable_sort_permutes(m.map_values(row), row_before(vols, ask.sort));
                assert(rows.len() == m.len());
                assert(g.runs.push(rows).drop_last() =~= g.runs);
            },
        }
    }
}

/// The matches of the first `n` targets, volume by volume.
pub open spec fn all_matches(
    vols: Seq<VolumeState>,
    targets: Seq<(int, Option<Seq<u8>>)>,
    q: ParsedQuery,
    match_case: bool,
    n: int,
) -> Seq<Row>
    decreases n,
{
    if n <= 0 {
        seq![]
    } else {
        let earlier = all_matches(vols, targets, q, match_case, n - 1);
        let t = targets[n - 1];
        match scope_in(vols, t, match_case) {
            None => earlier,
            Some(scope) => earlier + matched(vols[t.0].index@, q, scope).map_values(
                |i: EntryIdx| (t.0, i),
            ),
        }
    }
}

/// Without a limit the runs of the first `n` targets hold their matches.
pub proof fn lemma_gathered_matches(
    vols: Seq<VolumeState>,
    targets: Seq<(int, Option<Seq<u8>>)>,
    q: ParsedQuery,
    ask: Ask,
    n: int,
)
    requires
        0 <= n <= targets.len(),
        ask.limit is None,
    ensures
        concat(gathered(vols, targets, q, ask, n).runs).to_multiset() == all_matches(
            vols,
            targets,
            q,
            ask.match_case,
            n,
        ).to_multiset(),
    decreases n,
{
    if n > 0 {
        let g = gathered(vols, targets, q, ask, n - 1);
        let earlier = all_matches(vols, targets, q, ask.match_case, n - 1);
        lemma_gathered_matches(vols, targets, q, ask, n - 1);
        let t = targets[n - 1];
        match scope_in(vols, t, ask.match_case) {
            None => {},
            Some(scope) => {
                let row = |i: EntryIdx| (t.0, i);
                let found = matched(vols[t.0].index@, q, scope).map_values(row);
                let rows = volume_rows(vols, t.0, q, scope, ask);
                lemma_stable_sort_permutes(found, row_before(vols, ask.sort));
                assert(rows == stable_sort(found, row_before(vols, ask.sort)));
                vstd::seq_lib::lemma_multiset_commutative(concat(g.runs), rows);
                vstd::seq_lib::lemma_multiset_commutative(earlier, found);
                assert(g.runs.push(rows).drop_last() =~= g.runs);
                if rows.len() == 0 {
                    assert(concat(g.runs) + rows =~= concat(g.runs));
                }
            },
        }
    }
}

/// Without a limit a reply holds every match of every volume that the query
/// looks at, each as often as it matches, and nothing else.
pub proof fn law_reply_holds_every_match(
    vols: Seq<VolumeState>,
    targets: Seq<(int, Option<Seq<u8>>)>,
    q: ParsedQuery,
    ask: Ask,
)
    requires
        ask.limit is None,
    ensures
        merged_rows(
            vols,
            gathered(vols, targets, q, ask, targets.len() as int).runs,
            ask.sort,
        ).to_multiset() == all_matches(
            vols,
            targets,
            q,
            ask.match_case,
            targets.len() as int,
        ).to_multiset(),
{
    let g = gathered(vols, targets, q, ask, targets.len() as int);
    lemma_gathered_matches(vols, targets, q, ask, targets.len() as int);
    if g.runs.len() == 1 {
        assert(g.runs.drop_last() =~= Seq::<Seq<Row>>::empty());
        assert(concat(g.runs.drop_last()) =~= Seq::<Row>::empty());
        assert(concat(g.runs) =~= g.runs[0]);
    } else if g.runs.len() > 1 {
        lemma_stable_sort_permutes(concat(g.runs), row_before(vols, ask.sort));
    }
}

/// A limit that takes in all matches changes nothing in what the volumes give.
proof fn lemma_covering_gathered(
    vols: Seq<VolumeState>,
    targets: Seq<(int, Option<Seq<u8>>)>,
    q: ParsedQuery,
    ask: Ask,
    n: int,
    limit: u32,
)
    requires
        0 <= n <= targets.len(),
        gathered(vols, targets, q, (Ask { limit: None, ..ask }), n).total <= limit,
    ensures
        gathered(vols, targets, q, (Ask { limit: Some(limit), ..ask }), n) == gathered(
            vols,
            targets,
            q,
            (Ask { limit: None, ..ask }),
            n,
        ),
    decreases n,
{
    if n > 0 {
        lemma_covering_gathered(vols, targets, q, ask, n - 1, limit);
    }
}

/// A limit at or above the number of matches gives exactly what no limit gives:
/// the same rows, in the same order, in the same frames.
pub proof fn law_covering_limit(
    vols: Seq<VolumeState>,
    targets: Seq<(int, Option<Seq<u8>>)>,
    q: ParsedQuery,
    ask: Ask,
    limit: u32,
)
    requires
        gathered(vols, targets, q, (Ask { limit: None, ..ask }), targets.len() as int).total
            <= limit,
    ensures
        reply_frames(vols, targets, q, (Ask { limit: Some(limit), ..ask })) == reply_frames(
            vols,
            targets,
            q,
            (Ask { limit: None, ..ask }),
        ),
{
    let n = targets.len() as int;
    let some = Ask { limit: Some(limit), ..ask };
    let none = Ask { limit: None, ..ask };
    lemma_covering_gathered(vols, targets, q, ask, n, limit);
    lemma_gathered_within(vols, targets, q, none, n);
    let g = gathered(vols, targets, q, none, n);
    let all = merged_rows(vols, g.runs, ask.sort);
    assert(all.len() == g.total) by {
        if g.runs.len() == 1 {
            assert(g.runs.drop_last() =~= Seq::<Seq<Row>>::empty());
            assert(concat(g.runs.drop_last()) =~= Seq::<Row>::empty());
            assert(concat(g.runs) =~= g.runs[0]);
        } else if g.runs.len() > 1 {
            lemma_stable_sort_permutes(concat(g.runs), row_before(vols, ask.sort));
        }
    }
    assert(page_end(all.len(), ask.offset, some.limit) == page_end(
        all.len(),
        ask.offset,
        none.limit,
    ));
    assert(reply_items(vols, g, some) =~= reply_items(vols, g, none));
}

/// A reply to a query over all volumes says that results may be incomplete
/// exactly where the status does: where some volume's index is not as complete
/// as it can be made.
pub proof fn law_incomplete_is_told(
    vols: Seq<VolumeState>,
    q: ParsedQuery,
    ask: Ask,
)
    ensures
        gathered(vols, targets_of(vols, None), q, ask, vols.len() as int).incomplete
            == !all_complete(vols),
{
    lemma_incomplete_among(vols, q, ask, vols.len() as int);
    if all_complete(vols) {
    } else {
        let k = choose|k: int| 0 <= k < vols.len() && !(#[trigger] vols[k]).phase.complete();
        assert(!vols[k].phase.complete());
    }
}

proof fn lemma_incomplete_among(vols: Seq<VolumeState>, q: ParsedQuery, ask: Ask, n: int)
    requires
        0 <= n <= vols.len(),
    ensures
        gathered(vols, targets_of(vols, None), q, ask, n).incomplete == exists|k: int|
            0 <= k < n && !(#[trigger] vols[k]).phase.complete(),
    decreases n,
{
    if n > 0 {
        lemma_incomplete_among(vols, q, ask, n - 1);
        let g = gathered(vols, targets_of(vols, None), q, ask, n - 1);
        if g.incomplete {
            let k = choose|k: int| 0 <= k < n - 1 && !(#[trigger] vols[k]).phase.complete();
            assert(0 <= k < n && !vols[k].phase.complete());
        }
        assert(targets_of(vols, None)[n - 1] == (n - 1, None::<Seq<u8>>));
    }
}

/// `comps` put together behind `dir`.
pub open spec fn joined_behind(dir: Seq<u8>, comps: Seq<Seq<u8>>) -> Seq<u8>
    decreases comps.len(),
{
    if comps.len() == 0 {
        dir
    } else {
        joined_behind(join_path(dir, comps[0]), comps.drop_first())
    }
}

/// A path as the index writes paths: its components with one separator between
/// each two, and none at either end.
pub open spec fn plain_path(path: Seq<u8>) -> bool {
    joined_behind(seq![], components(path)) == path
}

/// What folds to nothing is nothing.
proof fn lemma_folded_empty(s: Seq<u8>)
    ensures
        folded(s).len() == 0 <==> s.len() == 0,
{
    if s.len() > 0 {
        assert(units(s).len() > 0);
        assert(folded_units(units(s)).len() > 0);
    }
}

/// Joining paths that fold alike with names that fold alike gives paths that
/// fold alike.
proof fn lemma_join_folds(p: Seq<u8>, r: Seq<u8>, a: Seq<u8>, b: Seq<u8>)
    requires
        folded(p) == folded(r),
        folded(a) == folded(b),
    ensures
        folded(join_path(p, a)) == folded(join_path(r, b)),
{
    lemma_folded_empty(p);
    lemma_folded_empty(r);
    if p.len() > 0 {
        lemma_folded_around_ascii(p, SEPARATOR, a);
        lemma_folded_around_ascii(r, SEPARATOR, b);
    }
}

/// The folder that a step leads to has the path that the step gives, whatever
/// the case.
proof fn lemma_step_path(v: IndexView, dir: EntryIdx, name: Seq<u8>, match_case: bool)
    requires
        v.wf(),
        v.live(dir),
        v.path_of(dir) is Some,
        subdirectory(v, dir, name, match_case) is Some,
    ensures
        ({
            let next = subdirectory(v, dir, name, match_case)->0;
            &&& v.live(next)
            &&& v.path_of(next) == Some(join_path(v.path_of(dir)->0, v.name(next)))
            &&& folded(v.name(next)) == folded(name)
        }),
{
    let next = subdirectory(v, dir, name, match_case)->0;
    if match_case {
        let p = |i: EntryIdx|
            !v.entry(i).synthetic && v.entry(i).is_dir && v.entry(i).parent == dir && v.name(i)
                == name;
        lemma_first_where(v.live_slots(), p);
        lemma_live_slots(v);
    } else {
        let p = |i: EntryIdx| v.entry(i).is_dir && v.folded_name(i) == folded(name);
        lemma_first_where(v.children[dir as int], p);
        assert(v.children[dir as int].contains(next));
    }
    assert(v.live(next) && v.entry(next).parent == dir);
    if next <= LOST_FOUND {
        assert(v.entry(next).parent == NIL);
    }
    lemma_path_of_child(v, next);
}

proof fn lemma_descend_path(
    v: IndexView,
    dir: EntryIdx,
    comps: Seq<Seq<u8>>,
    match_case: bool,
    told: Seq<u8>,
)
    requires
        v.wf(),
        v.live(dir),
        v.path_of(dir) is Some,
        folded(v.path_of(dir)->0) == folded(told),
        descend(v, dir, comps, match_case) is Some,
    ensures
        ({
            let e = descend(v, dir, comps, match_case)->0;
            &&& v.live(e)
            &&& v.path_of(e) is Some
            &&& folded(v.path_of(e)->0) == folded(joined_behind(told, comps))
        }),
    decreases comps.len(),
{
    if comps.len() > 0 {
        let next = subdirectory(v, dir, comps[0], match_case)->0;
        lemma_step_path(v, dir, comps[0], match_case);
        lemma_join_folds(v.path_of(dir)->0, told, v.name(next), comps[0]);
        lemma_descend_path(
            v,
            next,
            comps.drop_first(),
            match_case,
            join_path(told, comps[0]),
        );
    }
}

/// Where a scope leads, an entry is in use.
pub proof fn lemma_scope_in_use(
    v: IndexView,
    cache: Option<ScopeCache>,
    rel: Seq<u8>,
    match_case: bool,
)
    requires
        v.wf(),
        cached_target(v, cache, rel, match_case) is Some,
    ensures
        v.live(cached_target(v, cache, rel, match_case)->0),
{
    assert(v.entry(ROOT).live);
    if scope_target(v, rel, match_case) is Some {
        lemma_descend_path(v, ROOT, components(rel), match_case, seq![]);
    }
}

/// A folder that a plain path led to still has that path: a remembered scope
/// serves when the same folder is searched again.
pub proof fn law_resolved_scope_validates(v: IndexView, rel: Seq<u8>, match_case: bool)
    requires
        v.wf(),
        plain_path(rel),
        scope_target(v, rel, match_case) is Some,
    ensures
        still_names(v, scope_target(v, rel, match_case)->0, rel),
{
    assert(v.entry(ROOT).live);
    lemma_descend_path(v, ROOT, components(rel), match_case, seq![]);
}

/// Remembering a scope never changes where it leads: asked again, on the same
/// index, it leads to the same folder.
pub proof fn law_scope_cache_is_faithful(
    v: IndexView,
    before: Option<ScopeCache>,
    after: Option<ScopeCache>,
    rel: Seq<u8>,
)
    requires
        cached_target(v, before, rel, false) is Some,
        after is Some,
        after->0.rel@ == rel,
        after->0.entry == cached_target(v, before, rel, false)->0,
    ensures
        cached_target(v, after, rel, false) == cached_target(v, before, rel, false),
{
}

proof fn lemma_gathered_same(
    vols: Seq<VolumeState>,
    targets: Seq<(int, Option<Seq<u8>>)>,
    a: ParsedQuery,
    b: ParsedQuery,
    ask: Ask,
    n: int,
)
    requires
        a.model() == b.model(),
    ensures
        gathered(vols, targets, a, ask, n) == gathered(vols, targets, b, ask, n),
    decreases n,
{
    if n > 0 {
        lemma_gathered_same(vols, targets, a, b, ask, n - 1);
        let t = targets[n - 1];
        match scope_in(vols, t, ask.match_case) {
            None => {},
            Some(scope) => {
                law_content_decides(vols[t.0].index@, a, b, scope);
            },
        }
    }
}

/// A reply is decided by what the query says: parsed queries of the same content
/// are answered with the same frames.
pub proof fn law_content_decides_reply(
    vols: Seq<VolumeState>,
    targets: Seq<(int, Option<Seq<u8>>)>,
    a: ParsedQuery,
    b: ParsedQuery,
    ask: Ask,
)
    requires
        a.model() == b.model(),
    ensures
        reply_frames(vols, targets, a, ask) == reply_frames(vols, targets, b, ask),
{
    lemma_gathered_same(vols, targets, a, b, ask, targets.len() as int);
}

} // verus!
