//! What a query means: which entries match it, and in which order they come.

use super::parse::{Filters, Kind, ParsedQuery, SizeRange};
use super::wildcard::wild_matches;
use crate::bytes::{last_position, lemma_lex_total, lemma_lex_transitive, lex_less};
use crate::fold::folded;
use crate::index::model::IndexView;
use crate::search::contains_bytes;
use crate::types::{EntryIdx, SortDir, SortKey, SortSpec};
use crate::wtf8::units;
use vstd::prelude::*;
use vstd::relations::{antisymmetric, reflexive, strongly_connected, total_ordering, transitive};

verus! {

/// A folder-scoped query walks the folder's subtree up to this many entries,
/// and scans the volume beyond it.
pub const SUBTREE_WALK_MAX: usize = 200_000;

/// The entry is of the wanted kind.
pub open spec fn kind_ok(kind: Option<Kind>, is_dir: bool) -> bool {
    match kind {
        None => true,
        Some(Kind::File) => !is_dir,
        Some(Kind::Folder) => is_dir,
    }
}

/// The size is known and wanted.
pub open spec fn size_ok(filter: Option<SizeRange>, size: Option<u64>) -> bool {
    match filter {
        None => true,
        Some(range) => size is Some && range.contains(size->0),
    }
}

/// The bytes behind the last dot of a name, if it has one.
pub open spec fn extension(name: Seq<u8>) -> Option<Seq<u8>> {
    match last_position(name, |b: u8| b == 0x2E) {
        Some(dot) => Some(name.skip(dot + 1)),
        None => None,
    }
}

/// The name's extension, whatever its case, is one of those wanted.
pub open spec fn ext_ok(filters: Filters, name: Seq<u8>) -> bool {
    match filters.ext {
        None => true,
        Some(exts) => match extension(name) {
            None => false,
            Some(e) => exists|k: int| 0 <= k < exts@.len() && #[trigger] exts@[k]@ == folded(e),
        },
    }
}

/// Every term is a substring of `hay`.
pub open spec fn terms_in(terms: Seq<Vec<u8>>, hay: Seq<u8>) -> bool {
    forall|k: int| 0 <= k < terms.len() ==> contains_bytes(hay, #[trigger] terms[k]@)
}

/// The text is as the query's name terms and patterns say.
pub open spec fn name_ok(q: ParsedQuery, hay: Seq<u8>) -> bool {
    &&& terms_in(q.name_terms@, hay)
    &&& forall|k: int|
        0 <= k < q.wildcards@.len() ==> wild_matches(
            (#[trigger] q.wildcards@[k]).tokens(),
            units(hay),
        )
}

/// The text that a query's terms are looked up in: as it is where the case
/// counts, else folded.
pub open spec fn hay(q: ParsedQuery, text: Seq<u8>) -> Seq<u8> {
    if q.match_case {
        text
    } else {
        folded(text)
    }
}

/// The entry `i` answers the query.
pub open spec fn answers(v: IndexView, q: ParsedQuery, scope: Option<EntryIdx>, i: EntryIdx) -> bool {
    let e = v.entry(i);
    &&& !e.synthetic
    &&& kind_ok(q.filters.kind, e.is_dir)
    &&& size_ok(q.filters.size, e.size)
    &&& name_ok(q, hay(q, v.name(i)))
    &&& ext_ok(q.filters, v.name(i))
    &&& match scope {
        Some(root) => v.descends(i, root),
        None => true,
    }
    &&& match v.path_of(i) {
        Some(path) => terms_in(q.path_terms@, hay(q, path)),
        None => false,
    }
}

/// The entries of all name chains, by name number.
pub open spec fn chained_slots(chains: Seq<Seq<EntryIdx>>) -> Seq<EntryIdx>
    decreases chains.len(),
{
    if chains.len() == 0 {
        seq![]
    } else {
        chained_slots(chains.drop_last()) + chains.last()
    }
}

/// Some literal text is bound to be in the folded name of every match, so that
/// the name arena can be searched for it.
pub open spec fn has_literal(q: ParsedQuery) -> bool {
    ||| exists|k: int| 0 <= k < q.name_terms@.len() && (#[trigger] q.name_terms@[k])@.len() > 0
    ||| exists|k: int, m: int|
        #![trigger q.wildcards@[k].tokens()[m]]
        0 <= k < q.wildcards@.len() && 0 <= m < q.wildcards@[k].tokens().len()
            && q.wildcards@[k].tokens()[m] is Literal
    ||| single_ext(q) is Some
}

/// The one extension asked for, where there is one and it is not empty.
pub open spec fn single_ext(q: ParsedQuery) -> Option<Seq<u8>> {
    match q.filters.ext {
        Some(exts) => if exts@.len() == 1 && exts@[0]@.len() > 0 {
            Some(exts@[0]@)
        } else {
            None
        },
        None => None,
    }
}

/// The entries in the order in which a query looks at them: a small enough
/// folder by its subtree; else by name number, where the name arena can be
/// searched; else by slot.
pub open spec fn scan_order(v: IndexView, q: ParsedQuery, scope: Option<EntryIdx>) -> Seq<EntryIdx> {
    if scope is Some && v.subtree(scope->0).len() <= SUBTREE_WALK_MAX {
        v.subtree(scope->0)
    } else if !q.match_case && has_literal(q) {
        chained_slots(v.chains)
    } else {
        v.live_slots()
    }
}

/// The matches, in scan order.
pub open spec fn matched(v: IndexView, q: ParsedQuery, scope: Option<EntryIdx>) -> Seq<EntryIdx> {
    scan_order(v, q, scope).filter(|i: EntryIdx| answers(v, q, scope, i))
}

/// The key of the order by path: the folded directory, a NUL, the folded name.
pub open spec fn path_key(v: IndexView, i: EntryIdx) -> Seq<u8> {
    match v.path_of(v.entry(i).parent) {
        Some(dir) => folded(dir) + seq![0u8] + v.folded_name(i),
        None => seq![],
    }
}

/// The number that an entry is ordered by first.
pub open spec fn sort_number(v: IndexView, key: SortKey, i: EntryIdx) -> int {
    match key {
        SortKey::Name => 0,
        SortKey::Path => 0,
        SortKey::Size => match v.entry(i).size {
            Some(s) => s as int,
            None => 0,
        },
        SortKey::DateModified => match v.entry(i).mtime {
            Some(t) => t as int,
            None => i64::MIN as int,
        },
    }
}

/// The text that entries with the same number are ordered by.
pub open spec fn sort_text(v: IndexView, key: SortKey, i: EntryIdx) -> Seq<u8> {
    match key {
        SortKey::Path => path_key(v, i),
        _ => v.folded_name(i),
    }
}

/// `a` comes strictly before `b` in ascending order: by number, then text, then
/// slot.
pub open spec fn precedes(v: IndexView, key: SortKey, a: EntryIdx, b: EntryIdx) -> bool {
    let na = sort_number(v, key, a);
    let nb = sort_number(v, key, b);
    let ta = sort_text(v, key, a);
    let tb = sort_text(v, key, b);
    na < nb || (na == nb && (lex_less(ta, tb) || (ta == tb && a < b)))
}

/// The order of results: `a` is `b` or comes before it.
pub open spec fn result_order(v: IndexView, sort: SortSpec) -> spec_fn(EntryIdx, EntryIdx) -> bool {
    |a: EntryIdx, b: EntryIdx|
        a == b || match sort.dir {
            SortDir::Asc => precedes(v, sort.key, a, b),
            SortDir::Desc => precedes(v, sort.key, b, a),
        }
}

/// The matches, sorted.
pub open spec fn ranking(
    v: IndexView,
    q: ParsedQuery,
    scope: Option<EntryIdx>,
    sort: SortSpec,
) -> Seq<EntryIdx> {
    matched(v, q, scope).sort_by(result_order(v, sort))
}

/// Where the page that starts at `offset` begins in a list of `len`.
pub open spec fn page_start(len: nat, offset: u32) -> int {
    if offset <= len {
        offset as int
    } else {
        len as int
    }
}

/// Where that page ends.
pub open spec fn page_end(len: nat, offset: u32, limit: Option<u32>) -> int {
    match limit {
        Some(n) => if page_start(len, offset) + n <= len {
            page_start(len, offset) + n
        } else {
            len as int
        },
        None => len as int,
    }
}

/// The page of `s` that starts at `offset` and holds at most `limit` rows.
pub open spec fn page<T>(s: Seq<T>, offset: u32, limit: Option<u32>) -> Seq<T> {
    s.subrange(page_start(s.len(), offset), page_end(s.len(), offset, limit))
}

/// One of two different entries precedes the other, and not both.
proof fn lemma_precedes_total(v: IndexView, key: SortKey, a: EntryIdx, b: EntryIdx)
    ensures
        precedes(v, key, a, b) || a == b || precedes(v, key, b, a),
        !(precedes(v, key, a, b) && precedes(v, key, b, a)),
        !precedes(v, key, a, a),
{
    lemma_lex_total(sort_text(v, key, a), sort_text(v, key, b));
    lemma_lex_total(sort_text(v, key, a), sort_text(v, key, a));
}

proof fn lemma_precedes_transitive(v: IndexView, key: SortKey, a: EntryIdx, b: EntryIdx, c: EntryIdx)
    requires
        precedes(v, key, a, b),
        precedes(v, key, b, c),
    ensures
        precedes(v, key, a, c),
{
    let ta = sort_text(v, key, a);
    let tb = sort_text(v, key, b);
    let tc = sort_text(v, key, c);
    if lex_less(ta, tb) && lex_less(tb, tc) {
        lemma_lex_transitive(ta, tb, tc);
    }
}

/// The order of results is total, whatever the key and the direction: ties are
/// broken by slot.
pub proof fn lemma_result_order_total(v: IndexView, sort: SortSpec)
    ensures
        total_ordering(result_order(v, sort)),
{
    let r = result_order(v, sort);
    assert(reflexive(r));
    assert forall|a: EntryIdx, b: EntryIdx| #[trigger] r(a, b) && #[trigger] r(b, a) implies a
        == b by {
        lemma_precedes_total(v, sort.key, a, b);
    }
    assert(antisymmetric(r));
    assert forall|a: EntryIdx, b: EntryIdx, c: EntryIdx| #[trigger]
        r(a, b) && #[trigger] r(b, c) implies r(a, c) by {
        if a != b && b != c {
            match sort.dir {
                SortDir::Asc => {
                    lemma_precedes_transitive(v, sort.key, a, b, c);
                },
                SortDir::Desc => {
                    lemma_precedes_transitive(v, sort.key, c, b, a);
                },
            }
        }
    }
    assert(transitive(r));
    assert forall|a: EntryIdx, b: EntryIdx| #[trigger] r(a, b) || #[trigger] r(b, a) by {
        lemma_precedes_total(v, sort.key, a, b);
    }
    assert(strongly_connected(r));
}

/// The byte order of `dir NUL name` keys is the order of the pairs: the NUL
/// comes before every byte of a directory.
pub proof fn lemma_path_key_order(d1: Seq<u8>, n1: Seq<u8>, d2: Seq<u8>, n2: Seq<u8>)
    requires
        !d1.contains(0u8),
        !d2.contains(0u8),
    ensures
        lex_less(d1 + seq![0u8] + n1, d2 + seq![0u8] + n2) <==> lex_less(d1, d2) || (d1 == d2
            && lex_less(n1, n2)),
    decreases d1.len(),
{
    let k1 = d1 + seq![0u8] + n1;
    let k2 = d2 + seq![0u8] + n2;
    lemma_lex_total(d1, d2);
    if d1.len() == 0 || d2.len() == 0 {
        if d1.len() == 0 && d2.len() == 0 {
            assert(d1 =~= d2);
            assert(k1.drop_first() =~= n1);
            assert(k2.drop_first() =~= n2);
            assert(k1[0] == 0 && k2[0] == 0);
        } else if d1.len() == 0 {
            assert(d2.contains(d2[0]));
            assert(k1[0] == 0 && k2[0] == d2[0]);
        } else {
            assert(d1.contains(d1[0]));
            assert(k1[0] == d1[0] && k2[0] == 0);
        }
    } else {
        assert(k1[0] == d1[0] && k2[0] == d2[0]);
        if d1[0] == d2[0] {
            let e1 = d1.drop_first();
            let e2 = d2.drop_first();
            assert(!e1.contains(0u8)) by {
                if e1.contains(0u8) {
                    let k = e1.index_of(0u8);
                    assert(d1[k + 1] == 0);
                }
            }
            assert(!e2.contains(0u8)) by {
                if e2.contains(0u8) {
                    let k = e2.index_of(0u8);
                    assert(d2[k + 1] == 0);
                }
            }
            lemma_path_key_order(e1, n1, e2, n2);
            assert(k1.drop_first() =~= e1 + seq![0u8] + n1);
            assert(k2.drop_first() =~= e2 + seq![0u8] + n2);
            if e1 == e2 {
                assert(d1 =~= seq![d1[0]] + e1);
                assert(d2 =~= seq![d2[0]] + e2);
            }
        }
    }
}

} // verus!
