//! What holds of the order in which results come, said of the entries' own
//! sizes, times, names and paths.

use super::laws::{law_path_order, law_ranking};
use super::model::{answers, page, ranking, result_order};
use super::parse::ParsedQuery;
use crate::bytes::lex_less;
use crate::fold::folded;
use crate::index::model::{IndexView, LOST_FOUND};
use crate::types::{EntryIdx, SortDir, SortSpec};
use vstd::prelude::*;
use vstd::relations::sorted_by;

verus! {

/// Two places of a ranking hold two results, the first of which comes first.
proof fn lemma_places(
    v: IndexView,
    q: ParsedQuery,
    scope: Option<EntryIdx>,
    sort: SortSpec,
    a: int,
    b: int,
)
    requires
        v.wf(),
        scope is Some ==> v.in_range(scope->0),
        0 <= a < b < ranking(v, q, scope, sort).len(),
    ensures
        ({
            let r = ranking(v, q, scope, sort);
            &&& result_order(v, sort)(r[a], r[b])
            &&& r[a] != r[b]
            &&& v.live(r[a]) && answers(v, q, scope, r[a]) && r[a] > LOST_FOUND
            &&& v.live(r[b]) && answers(v, q, scope, r[b]) && r[b] > LOST_FOUND
        }),
{
    let r = ranking(v, q, scope, sort);
    law_ranking(v, q, scope, sort);
    super::laws::law_matched(v, q, scope);
    assert(r.contains(r[a]));
    assert(r.contains(r[b]));
    assert(v.entry(0).synthetic);
    assert(v.entry(LOST_FOUND).synthetic);
    assert(sorted_by(r, result_order(v, sort)));
    let m = super::model::matched(v, q, scope);
    super::model::lemma_result_order_total(v, sort);
    m.lemma_sort_by_ensures(result_order(v, sort));
    m.lemma_multiset_has_no_duplicates();
    r.lemma_multiset_has_no_duplicates_conv();
}

/// Results sorted by size come with the smaller size first, or last in a
/// descending order. A size that is not known counts as 0. Equal sizes come by
/// folded name, and equal names by slot, in the same direction.
pub proof fn law_sorted_by_size(
    v: IndexView,
    q: ParsedQuery,
    scope: Option<EntryIdx>,
    sort: SortSpec,
    a: int,
    b: int,
)
    requires
        v.wf(),
        scope is Some ==> v.in_range(scope->0),
        sort.key is Size,
        0 <= a < b < ranking(v, q, scope, sort).len(),
    ensures
        ({
            let (first, last) = match sort.dir {
                SortDir::Asc => (
                    ranking(v, q, scope, sort)[a],
                    ranking(v, q, scope, sort)[b],
                ),
                SortDir::Desc => (
                    ranking(v, q, scope, sort)[b],
                    ranking(v, q, scope, sort)[a],
                ),
            };
            let x = match v.entry(first).size {
                Some(s) => s,
                None => 0,
            };
            let y = match v.entry(last).size {
                Some(s) => s,
                None => 0,
            };
            let m = folded(v.name(first));
            let n = folded(v.name(last));
            x < y || (x == y && (lex_less(m, n) || (m == n && first < last)))
        }),
{
    lemma_places(v, q, scope, sort, a, b);
}

/// Results sorted by date come with the earlier modification first, or last in
/// a descending order. A time that is not known comes before every other. Equal
/// times come by folded name, and equal names by slot, in the same direction.
pub proof fn law_sorted_by_date(
    v: IndexView,
    q: ParsedQuery,
    scope: Option<EntryIdx>,
    sort: SortSpec,
    a: int,
    b: int,
)
    requires
        v.wf(),
        scope is Some ==> v.in_range(scope->0),
        sort.key is DateModified,
        0 <= a < b < ranking(v, q, scope, sort).len(),
    ensures
        ({
            let (first, last) = match sort.dir {
                SortDir::Asc => (
                    ranking(v, q, scope, sort)[a],
                    ranking(v, q, scope, sort)[b],
                ),
                SortDir::Desc => (
                    ranking(v, q, scope, sort)[b],
                    ranking(v, q, scope, sort)[a],
                ),
            };
            let x = match v.entry(first).mtime {
                Some(t) => t,
                None => i64::MIN,
            };
            let y = match v.entry(last).mtime {
                Some(t) => t,
                None => i64::MIN,
            };
            let m = folded(v.name(first));
            let n = folded(v.name(last));
            x < y || (x == y && (lex_less(m, n) || (m == n && first < last)))
        }),
{
    lemma_places(v, q, scope, sort, a, b);
}

/// Results sorted by name come in the byte order of their folded names, equal
/// names by slot.
pub proof fn law_sorted_by_name(
    v: IndexView,
    q: ParsedQuery,
    scope: Option<EntryIdx>,
    sort: SortSpec,
    a: int,
    b: int,
)
    requires
        v.wf(),
        scope is Some ==> v.in_range(scope->0),
        sort.key is Name,
        0 <= a < b < ranking(v, q, scope, sort).len(),
    ensures
        ({
            let (first, last) = match sort.dir {
                SortDir::Asc => (
                    ranking(v, q, scope, sort)[a],
                    ranking(v, q, scope, sort)[b],
                ),
                SortDir::Desc => (
                    ranking(v, q, scope, sort)[b],
                    ranking(v, q, scope, sort)[a],
                ),
            };
            let m = folded(v.name(first));
            let n = folded(v.name(last));
            lex_less(m, n) || (m == n && first < last)
        }),
{
    lemma_places(v, q, scope, sort, a, b);
}

/// Results sorted by path come in the byte order of their folded folders, those
/// of one folder in that of their folded names, equal ones by slot.
pub proof fn law_sorted_by_path(
    v: IndexView,
    q: ParsedQuery,
    scope: Option<EntryIdx>,
    sort: SortSpec,
    a: int,
    b: int,
)
    requires
        v.wf(),
        scope is Some ==> v.in_range(scope->0),
        sort.key is Path,
        0 <= a < b < ranking(v, q, scope, sort).len(),
    ensures
        ({
            let (first, last) = match sort.dir {
                SortDir::Asc => (
                    ranking(v, q, scope, sort)[a],
                    ranking(v, q, scope, sort)[b],
                ),
                SortDir::Desc => (
                    ranking(v, q, scope, sort)[b],
                    ranking(v, q, scope, sort)[a],
                ),
            };
            let d = folded(v.path_of(v.entry(first).parent)->0);
            let e = folded(v.path_of(v.entry(last).parent)->0);
            let m = folded(v.name(first));
            let n = folded(v.name(last));
            &&& v.path_of(v.entry(first).parent) is Some
            &&& v.path_of(v.entry(last).parent) is Some
            &&& lex_less(d, e) || (d == e && (lex_less(m, n) || (m == n && first < last)))
        }),
{
    lemma_places(v, q, scope, sort, a, b);
    let x = ranking(v, q, scope, sort)[a];
    let y = ranking(v, q, scope, sort)[b];
    law_path_order(v, x, y);
    law_path_order(v, y, x);
    let d = folded(v.path_of(v.entry(x).parent)->0);
    let e = folded(v.path_of(v.entry(y).parent)->0);
    crate::bytes::lemma_lex_total(d, e);
    crate::bytes::lemma_lex_total(folded(v.name(x)), folded(v.name(y)));
    crate::bytes::lemma_lex_total(super::model::path_key(v, x), super::model::path_key(v, y));
}

/// No result is given twice, and the ranking of a query holds as many as match.
pub proof fn law_ranked_once(
    v: IndexView,
    q: ParsedQuery,
    scope: Option<EntryIdx>,
    sort: SortSpec,
    a: int,
    b: int,
)
    requires
        v.wf(),
        scope is Some ==> v.in_range(scope->0),
        0 <= a < b < ranking(v, q, scope, sort).len(),
    ensures
        ranking(v, q, scope, sort)[a] != ranking(v, q, scope, sort)[b],
{
    lemma_places(v, q, scope, sort, a, b);
}

/// A page is cut out of the list where it was asked for: its first row is the
/// one at `offset`, and it goes on without a gap up to the limit or the end.
pub proof fn law_page_rows<T>(s: Seq<T>, offset: u32, limit: Option<u32>)
    ensures
        offset >= s.len() ==> page(s, offset, limit).len() == 0,
        offset < s.len() ==> {
            let left = s.len() - offset;
            page(s, offset, limit).len() == match limit {
                Some(n) => if n < left {
                    n as int
                } else {
                    left
                },
                None => left,
            }
        },
        forall|k: int|
            0 <= k < page(s, offset, limit).len() ==> #[trigger] page(s, offset, limit)[k] == s[offset
                + k],
{
}

} // verus!
