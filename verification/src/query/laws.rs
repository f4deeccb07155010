//! What holds of queries as a whole.

use super::model::{
    answers, chained_slots, ext_ok, extension, has_literal, hay, lemma_path_key_order,
    lemma_result_order_total, matched, name_ok, page, page_end, page_start, path_key, ranking,
    result_order, scan_order, single_ext, sort_number, sort_text, terms_in, SUBTREE_WALK_MAX,
};
use super::parse::{Filters, ParsedQuery};
use super::wildcard::wild_matches;
use crate::bytes::lex_less;
use crate::fold::{folded, lemma_folded_around_ascii};
use crate::index::compact::{law_compaction_is_invisible, lemma_with_compacted};
use crate::index::model::{
    indexable, join_path, lemma_path_of_child, IndexView, LOST_FOUND, ROOT, SEPARATOR,
};
use crate::index::walk::{lemma_descends_rank, lemma_distinct_bounded, lemma_subtree};
use crate::seqs::{lemma_filter_distinct, lemma_filter_members, lemma_permuted_members};
use crate::search::contains_bytes;
use crate::types::{EntryIdx, SortSpec};
use crate::wtf8::units;
use vstd::prelude::*;
use vstd::relations::sorted_by;
use vstd::seq_lib::lemma_sorted_unique;

verus! {

/// The name chains together hold every live entry, once.
proof fn lemma_chained_slots(v: IndexView, k: int)
    requires
        v.wf(),
        0 <= k <= v.names.len(),
    ensures
        chained_slots(v.chains.take(k)).no_duplicates(),
        forall|i: EntryIdx| #[trigger]
            chained_slots(v.chains.take(k)).contains(i) <==> v.live(i) && v.entry(i).name_id < k,
    decreases k,
{
    let all = chained_slots(v.chains.take(k));
    if k == 0 {
        assert(all =~= Seq::<EntryIdx>::empty());
    } else {
        lemma_chained_slots(v, k - 1);
        let front = chained_slots(v.chains.take(k - 1));
        let chain = v.chains[k - 1];
        assert(v.chains.take(k).drop_last() =~= v.chains.take(k - 1));
        assert(all == front + chain);
        assert(chain.no_duplicates());
        assert forall|i: EntryIdx| #[trigger] all.contains(i) <==> v.live(i) && v.entry(i).name_id
            < k by {
            assert(front.contains(i) <==> v.live(i) && v.entry(i).name_id < k - 1);
            assert(chain.contains(i) <==> v.live(i) && v.entry(i).name_id == k - 1);
            if front.contains(i) {
                assert(all[front.index_of(i)] == i);
            }
            if chain.contains(i) {
                assert(all[front.len() + chain.index_of(i)] == i);
            }
            if all.contains(i) {
                let p = all.index_of(i);
                if p < front.len() {
                    assert(front[p] == i);
                } else {
                    assert(chain[p - front.len()] == i);
                }
            }
        }
        assert forall|a: int, b: int| 0 <= a < b < all.len() implies all[a] != all[b] by {
            if b < front.len() {
            } else if a >= front.len() {
                assert(chain[a - front.len()] != chain[b - front.len()]);
            } else {
                assert(front.contains(all[a]));
                assert(chain.contains(all[b]));
            }
        }
    }
}

/// The slots in use are the live ones, once each.
pub proof fn lemma_live_slots(v: IndexView)
    requires
        v.wf(),
    ensures
        v.live_slots().no_duplicates(),
        forall|i: EntryIdx| #[trigger] v.live_slots().contains(i) <==> v.live(i),
{
    let all = Seq::new(v.entries.len(), |i: int| i as EntryIdx);
    let live = |i: EntryIdx| v.live(i);
    lemma_filter_distinct(all, live);
    assert forall|i: EntryIdx| #[trigger] v.live_slots().contains(i) <==> v.live(i) by {
        lemma_filter_members(all, live, i);
        if v.live(i) {
            assert(all[i as int] == i);
        }
    }
}

/// Whichever way a query scans, it finds exactly the live entries that answer
/// it, each once.
pub proof fn law_matched(v: IndexView, q: ParsedQuery, scope: Option<EntryIdx>)
    requires
        v.wf(),
        scope is Some ==> v.in_range(scope->0),
    ensures
        matched(v, q, scope).no_duplicates(),
        forall|i: EntryIdx| #[trigger]
            matched(v, q, scope).contains(i) <==> v.live(i) && answers(v, q, scope, i),
        matched(v, q, scope).len() <= v.entries.len(),
{
    let order = scan_order(v, q, scope);
    let p = |i: EntryIdx| answers(v, q, scope, i);
    lemma_live_slots(v);
    lemma_chained_slots(v, v.names.len() as int);
    assert(v.chains.take(v.names.len() as int) =~= v.chains);
    if scope is Some {
        lemma_subtree(v, scope->0);
    }
    assert(order.no_duplicates());
    lemma_filter_distinct(order, p);
    let m = matched(v, q, scope);
    assert forall|i: EntryIdx| #[trigger] m.contains(i) <==> v.live(i) && answers(
        v,
        q,
        scope,
        i,
    ) by {
        lemma_filter_members(order, p, i);
        if v.live(i) {
            assert(v.in_range(i));
            assert(v.entry(i).name_id < v.names.len());
            assert(chained_slots(v.chains).contains(i));
            assert(v.live_slots().contains(i));
        }
        if order.contains(i) {
            assert(v.live(i)) by {
                if scope is Some && v.subtree(scope->0).len() <= SUBTREE_WALK_MAX {
                    assert(v.subtree(scope->0).contains(i));
                } else if order == chained_slots(v.chains) {
                    assert(chained_slots(v.chains).contains(i));
                } else {
                    assert(v.live_slots().contains(i));
                }
            }
        }
    }
    assert forall|k: int| 0 <= k < m.len() implies #[trigger] m[k] < v.entries.len() by {
        assert(m.contains(m[k]));
    }
    lemma_distinct_bounded(m, v.entries.len());
}

/// The ranking holds exactly the matches, in the order of results.
pub proof fn law_ranking(v: IndexView, q: ParsedQuery, scope: Option<EntryIdx>, sort: SortSpec)
    requires
        v.wf(),
        scope is Some ==> v.in_range(scope->0),
    ensures
        ranking(v, q, scope, sort).len() == matched(v, q, scope).len(),
        sorted_by(ranking(v, q, scope, sort), result_order(v, sort)),
        forall|i: EntryIdx| #[trigger]
            ranking(v, q, scope, sort).contains(i) <==> v.live(i) && answers(v, q, scope, i),
{
    let m = matched(v, q, scope);
    let r = ranking(v, q, scope, sort);
    lemma_result_order_total(v, sort);
    m.lemma_sort_by_ensures(result_order(v, sort));
    law_matched(v, q, scope);
    assert forall|i: EntryIdx| #[trigger] r.contains(i) <==> v.live(i) && answers(
        v,
        q,
        scope,
        i,
    ) by {
        lemma_permuted_members(m, r, i);
        assert(m.contains(i) <==> v.live(i) && answers(v, q, scope, i));
    }
    m.to_multiset_ensures();
    r.to_multiset_ensures();
}

/// The two lists hold the same, each of it once.
proof fn lemma_same_members(a: Seq<EntryIdx>, b: Seq<EntryIdx>)
    requires
        a.no_duplicates(),
        b.no_duplicates(),
        forall|i: EntryIdx| #[trigger] a.contains(i) <==> b.contains(i),
    ensures
        a.to_multiset() == b.to_multiset(),
{
    a.to_multiset_ensures();
    b.to_multiset_ensures();
    a.lemma_multiset_has_no_duplicates();
    b.lemma_multiset_has_no_duplicates();
    assert forall|i: EntryIdx| #[trigger] a.to_multiset().count(i) == b.to_multiset().count(i) by {
        assert(a.contains(i) <==> b.contains(i));
        assert(a.contains(i) <==> a.to_multiset().count(i) > 0);
        assert(b.contains(i) <==> b.to_multiset().count(i) > 0);
    }
    assert(a.to_multiset() =~= b.to_multiset());
}

/// Compaction changes no result: a query finds the same entries in the same
/// order.
pub proof fn law_compaction_keeps_results(
    v: IndexView,
    q: ParsedQuery,
    scope: Option<EntryIdx>,
    sort: SortSpec,
)
    requires
        v.wf(),
        scope is Some ==> v.in_range(scope->0),
    ensures
        ranking(v.with_compacted(), q, scope, sort) == ranking(v, q, scope, sort),
{
    let w = v.with_compacted();
    let rv = ranking(v, q, scope, sort);
    let rw = ranking(w, q, scope, sort);
    lemma_with_compacted(v);
    law_matched(v, q, scope);
    law_matched(w, q, scope);
    law_ranking(v, q, scope, sort);
    law_ranking(w, q, scope, sort);
    lemma_result_order_total(v, sort);
    lemma_result_order_total(w, sort);
    assert forall|i: EntryIdx| #[trigger]
        matched(w, q, scope).contains(i) <==> matched(v, q, scope).contains(i) by {
        assert(w.live(i) <==> v.live(i));
        if v.live(i) {
            law_compaction_is_invisible(v, i);
        }
    }
    lemma_same_members(matched(w, q, scope), matched(v, q, scope));
    matched(v, q, scope).lemma_sort_by_ensures(result_order(v, sort));
    matched(w, q, scope).lemma_sort_by_ensures(result_order(w, sort));
    assert forall|a: int, b: int| 0 <= a < b < rw.len() implies #[trigger] result_order(v, sort)(
        rw[a],
        rw[b],
    ) by {
        assert(rw.contains(rw[a]) && rw.contains(rw[b]));
        assert(result_order(w, sort)(rw[a], rw[b]));
        lemma_compaction_keeps_keys(v, rw[a], sort);
        lemma_compaction_keeps_keys(v, rw[b], sort);
    }
    lemma_sorted_unique(rw, rv, result_order(v, sort));
}

/// What an entry in use is ordered by is not changed by compaction.
proof fn lemma_compaction_keeps_keys(v: IndexView, i: EntryIdx, sort: SortSpec)
    requires
        v.wf(),
        v.with_compacted().live(i),
    ensures
        sort_number(v.with_compacted(), sort.key, i) == sort_number(v, sort.key, i),
        sort_text(v.with_compacted(), sort.key, i) == sort_text(v, sort.key, i),
{
    let w = v.with_compacted();
    assert(v.live(i));
    law_compaction_is_invisible(v, i);
    let p = v.entry(i).parent;
    if v.live(p) {
        law_compaction_is_invisible(v, p);
    } else {
        assert(w.path_of(p) == v.path_of(p));
    }
}

/// A page holds as many rows as asked for, or all that are left: entries that
/// cannot be shown take up no place in it.
pub proof fn law_page_is_full(len: nat, offset: u32, limit: u32)
    ensures
        page_end(len, offset, Some(limit)) - page_start(len, offset) == if limit <= len
            - page_start(len, offset) {
            limit as int
        } else {
            len - page_start(len, offset)
        },
        page_end(len, offset, None) == len,
{
}

/// Two pages one behind the other are one page.
pub proof fn law_pages_tile<T>(s: Seq<T>, offset: u32, first: u32, second: u32)
    requires
        offset + first <= u32::MAX,
        first + second <= u32::MAX,
    ensures
        page(s, offset, Some(first)) + page(s, (offset + first) as u32, Some(second)) == page(
            s,
            offset,
            Some((first + second) as u32),
        ),
{
    let a = page(s, offset, Some(first));
    let b = page(s, (offset + first) as u32, Some(second));
    let c = page(s, offset, Some((first + second) as u32));
    assert(a + b =~= c);
}

/// A scope holds what lies under its folder, not the folder itself.
pub proof fn law_scope_excludes_its_folder(v: IndexView, q: ParsedQuery, root: EntryIdx)
    ensures
        !answers(v, q, Some(root), root),
{
    if v.descends(root, root) {
        lemma_descends_rank(v, root, root);
    }
}

/// Narrowing to a scope takes nothing in that the whole volume does not give.
pub proof fn law_scope_narrows(v: IndexView, q: ParsedQuery, root: EntryIdx, i: EntryIdx)
    ensures
        answers(v, q, Some(root), i) <==> answers(v, q, None, i) && v.descends(i, root),
{
}

/// Every match has a path to show.
pub proof fn law_matches_are_presentable(
    v: IndexView,
    q: ParsedQuery,
    scope: Option<EntryIdx>,
    i: EntryIdx,
)
    requires
        answers(v, q, scope, i),
    ensures
        v.path_of(i) is Some,
{
}

/// No path holds a NUL in its folded form.
proof fn lemma_path_without_nul(v: IndexView, i: EntryIdx)
    requires
        v.wf(),
        v.in_range(i),
        v.path_of(i) is Some,
    ensures
        !folded(v.path_of(i)->0).contains(0u8),
    decreases v.rank[i as int],
{
    if i == ROOT {
        assert(folded(Seq::<u8>::empty()) =~= Seq::<u8>::empty());
    } else {
        if i == LOST_FOUND {
            assert(v.entry(LOST_FOUND).parent == crate::types::NIL);
            assert(!v.has_parent(LOST_FOUND));
        }
        assert(v.has_parent(i));
        let p = v.entry(i).parent;
        lemma_path_of_child(v, i);
        lemma_path_without_nul(v, p);
        let dir = v.path_of(p)->0;
        let name = v.name(i);
        assert(v.entry(i).name_id < v.names.len());
        assert(indexable(v.names[v.entry(i).name_id as int]));
        if dir.len() > 0 {
            lemma_folded_around_ascii(dir, SEPARATOR, name);
            let f = folded(dir) + seq![SEPARATOR] + folded(name);
            assert(folded(join_path(dir, name)) == f);
            if f.contains(0u8) {
                let k = f.index_of(0u8);
                if k < folded(dir).len() {
                    assert(folded(dir)[k] == 0);
                } else if k > folded(dir).len() {
                    assert(folded(name)[k - folded(dir).len() - 1] == 0);
                }
            }
        }
    }
}

/// The order by path is the order by folded directory, then by folded name.
pub proof fn law_path_order(v: IndexView, a: EntryIdx, b: EntryIdx)
    requires
        v.wf(),
        v.in_range(a),
        v.in_range(b),
        LOST_FOUND < a,
        LOST_FOUND < b,
        v.path_of(a) is Some,
        v.path_of(b) is Some,
    ensures
        v.path_of(v.entry(a).parent) is Some,
        v.path_of(v.entry(b).parent) is Some,
        ({
            let da = folded(v.path_of(v.entry(a).parent)->0);
            let db = folded(v.path_of(v.entry(b).parent)->0);
            lex_less(path_key(v, a), path_key(v, b)) <==> lex_less(da, db) || (da == db && lex_less(
                v.folded_name(a),
                v.folded_name(b),
            ))
        }),
{
    assert(v.has_parent(a));
    assert(v.has_parent(b));
    lemma_path_of_child(v, a);
    lemma_path_of_child(v, b);
    lemma_path_without_nul(v, v.entry(a).parent);
    lemma_path_without_nul(v, v.entry(b).parent);
    lemma_path_key_order(
        folded(v.path_of(v.entry(a).parent)->0),
        v.folded_name(a),
        folded(v.path_of(v.entry(b).parent)->0),
        v.folded_name(b),
    );
}

/// Two queries that say the same bind the same literals and answer alike.
proof fn lemma_same_model(v: IndexView, a: ParsedQuery, b: ParsedQuery, scope: Option<EntryIdx>)
    requires
        a.model() == b.model(),
    ensures
        a.match_case == b.match_case,
        has_literal(a) == has_literal(b),
        forall|i: EntryIdx| #[trigger] answers(v, a, scope, i) == answers(v, b, scope, i),
{
    let ma = a.model();
    let mb = b.model();
    assert(a.name_terms@.len() == ma.names.len() && b.name_terms@.len() == mb.names.len());
    assert(a.path_terms@.len() == ma.paths.len() && b.path_terms@.len() == mb.paths.len());
    assert(a.wildcards@.len() == ma.patterns.len() && b.wildcards@.len() == mb.patterns.len());
    assert forall|k: int| 0 <= k < a.name_terms@.len() implies (#[trigger] a.name_terms@[k])@
        == b.name_terms@[k]@ by {
        assert(ma.names[k] == mb.names[k]);
    }
    assert forall|k: int| 0 <= k < a.path_terms@.len() implies (#[trigger] a.path_terms@[k])@
        == b.path_terms@[k]@ by {
        assert(ma.paths[k] == mb.paths[k]);
    }
    assert forall|k: int| 0 <= k < a.wildcards@.len() implies (
    #[trigger] a.wildcards@[k]).tokens() == b.wildcards@[k].tokens() by {
        assert(ma.patterns[k] == mb.patterns[k]);
    }
    assert(a.filters.ext is Some == b.filters.ext is Some);
    if a.filters.ext is Some {
        let xa = a.filters.ext->0@;
        let xb = b.filters.ext->0@;
        assert(ma.ext->0.len() == xa.len() && mb.ext->0.len() == xb.len());
        assert forall|k: int| 0 <= k < xa.len() implies (#[trigger] xa[k])@ == xb[k]@ by {
            assert(ma.ext->0[k] == mb.ext->0[k]);
        }
    }
    assert(single_ext(a) == single_ext(b));
    assert(has_literal(a) == has_literal(b)) by {
        if has_literal(a) && single_ext(a) is None {
            if exists|k: int| 0 <= k < a.name_terms@.len() && (#[trigger] a.name_terms@[k])@.len()
                > 0 {
                let k = choose|k: int|
                    0 <= k < a.name_terms@.len() && (#[trigger] a.name_terms@[k])@.len() > 0;
                assert(b.name_terms@[k]@.len() > 0);
            } else {
                let (k, m) = choose|k: int, m: int|
                    #![trigger a.wildcards@[k].tokens()[m]]
                    0 <= k < a.wildcards@.len() && 0 <= m < a.wildcards@[k].tokens().len()
                        && a.wildcards@[k].tokens()[m] is Literal;
                assert(b.wildcards@[k].tokens()[m] is Literal);
            }
        }
        if has_literal(b) && single_ext(b) is None {
            if exists|k: int| 0 <= k < b.name_terms@.len() && (#[trigger] b.name_terms@[k])@.len()
                > 0 {
                let k = choose|k: int|
                    0 <= k < b.name_terms@.len() && (#[trigger] b.name_terms@[k])@.len() > 0;
                assert(a.name_terms@[k]@.len() > 0);
            } else {
                let (k, m) = choose|k: int, m: int|
                    #![trigger b.wildcards@[k].tokens()[m]]
                    0 <= k < b.wildcards@.len() && 0 <= m < b.wildcards@[k].tokens().len()
                        && b.wildcards@[k].tokens()[m] is Literal;
                assert(a.wildcards@[k].tokens()[m] is Literal);
            }
        }
    }
    assert forall|i: EntryIdx| #[trigger] answers(v, a, scope, i) == answers(v, b, scope, i) by {
        let h = hay(a, v.name(i));
        assert(terms_in(a.name_terms@, h) == terms_in(b.name_terms@, h)) by {
            lemma_same_terms(a.name_terms@, b.name_terms@, h);
        }
        assert(name_ok(a, h) == name_ok(b, h)) by {
            lemma_same_patterns(a, b, h);
        }
        assert(ext_ok(a.filters, v.name(i)) == ext_ok(b.filters, v.name(i))) by {
            lemma_same_exts(a.filters, b.filters, v.name(i));
        }
        if v.path_of(i) is Some {
            lemma_same_terms(a.path_terms@, b.path_terms@, hay(a, v.path_of(i)->0));
        }
    }
}

proof fn lemma_same_terms(a: Seq<Vec<u8>>, b: Seq<Vec<u8>>, hay: Seq<u8>)
    requires
        a.len() == b.len(),
        forall|k: int| 0 <= k < a.len() ==> (#[trigger] a[k])@ == b[k]@,
    ensures
        terms_in(a, hay) == terms_in(b, hay),
{
    if terms_in(a, hay) {
        assert forall|k: int| 0 <= k < b.len() implies contains_bytes(hay, #[trigger] b[k]@) by {
            assert(contains_bytes(hay, a[k]@));
        }
    }
    if terms_in(b, hay) {
        assert forall|k: int| 0 <= k < a.len() implies contains_bytes(hay, #[trigger] a[k]@) by {
            assert(contains_bytes(hay, b[k]@));
        }
    }
}

proof fn lemma_same_patterns(a: ParsedQuery, b: ParsedQuery, hay: Seq<u8>)
    requires
        terms_in(a.name_terms@, hay) == terms_in(b.name_terms@, hay),
        a.wildcards@.len() == b.wildcards@.len(),
        forall|k: int|
            0 <= k < a.wildcards@.len() ==> (#[trigger] a.wildcards@[k]).tokens()
                == b.wildcards@[k].tokens(),
    ensures
        name_ok(a, hay) == name_ok(b, hay),
{
    if name_ok(a, hay) {
        assert forall|k: int| 0 <= k < b.wildcards@.len() implies wild_matches(
            (#[trigger] b.wildcards@[k]).tokens(),
            units(hay),
        ) by {
            assert(wild_matches(a.wildcards@[k].tokens(), units(hay)));
        }
    }
    if name_ok(b, hay) {
        assert forall|k: int| 0 <= k < a.wildcards@.len() implies wild_matches(
            (#[trigger] a.wildcards@[k]).tokens(),
            units(hay),
        ) by {
            assert(wild_matches(b.wildcards@[k].tokens(), units(hay)));
        }
    }
}

proof fn lemma_same_exts(a: Filters, b: Filters, name: Seq<u8>)
    requires
        a.ext is Some == b.ext is Some,
        a.ext is Some ==> a.ext->0@.len() == b.ext->0@.len() && forall|k: int|
            0 <= k < a.ext->0@.len() ==> (#[trigger] a.ext->0@[k])@ == b.ext->0@[k]@,
    ensures
        ext_ok(a, name) == ext_ok(b, name),
{
    if a.ext is Some && extension(name) is Some {
        let e = extension(name)->0;
        let xa = a.ext->0@;
        let xb = b.ext->0@;
        if exists|k: int| 0 <= k < xa.len() && #[trigger] xa[k]@ == folded(e) {
            let k = choose|k: int| 0 <= k < xa.len() && #[trigger] xa[k]@ == folded(e);
            assert(xb[k]@ == folded(e));
        }
        if exists|k: int| 0 <= k < xb.len() && #[trigger] xb[k]@ == folded(e) {
            let k = choose|k: int| 0 <= k < xb.len() && #[trigger] xb[k]@ == folded(e);
            assert(xa[k]@ == folded(e));
        }
    }
}

/// What a query finds is decided by what it says: two parsed queries of the same
/// content find the same, in the same order.
pub proof fn law_content_decides(
    v: IndexView,
    a: ParsedQuery,
    b: ParsedQuery,
    scope: Option<EntryIdx>,
)
    requires
        a.model() == b.model(),
    ensures
        matched(v, a, scope) == matched(v, b, scope),
{
    lemma_same_model(v, a, b, scope);
    assert(scan_order(v, a, scope) == scan_order(v, b, scope));
    let pa = |i: EntryIdx| answers(v, a, scope, i);
    let pb = |i: EntryIdx| answers(v, b, scope, i);
    crate::seqs::lemma_filter_same(scan_order(v, a, scope), pa, pb);
}

} // verus!
