//! Gathering the matches of a query.

use super::compiled::{guaranteed, lemma_guaranteed, CompiledQuery};
use super::evaluate::{evaluate, Candidate, Scratch};
use super::model::{answers, chained_slots, matched, scan_order, SUBTREE_WALK_MAX};
use super::parse::ParsedQuery;
use crate::fold::folded;
use crate::index::model::{arena, arena_start, indexable, lemma_arena_holds, IndexView};
use crate::index::walk::lemma_subtree;
use crate::index::{NamePair, VolumeIndex};
use crate::search::{
    contains_bytes, find_all, follows_on, new_finder, non_overlapping, occurs_at, search_start,
};
use crate::seqs::{lemma_filter_none, lemma_filter_push, lemma_filter_same};
use crate::types::{EntryIdx, NIL};
use vstd::prelude::*;

verus! {

/// The entries of a list of candidates.
pub(super) open spec fn idxs(cands: Seq<Candidate>) -> Seq<EntryIdx> {
    cands.map_values(|c: Candidate| c.idx)
}

/// The entry answers the query.
pub(super) open spec fn wanted(
    v: IndexView,
    q: ParsedQuery,
    scope: Option<EntryIdx>,
) -> spec_fn(EntryIdx) -> bool {
    |i: EntryIdx| answers(v, q, scope, i)
}

/// Every candidate says what the index says, and has no sort key yet.
pub(super) open spec fn all_faithful(v: IndexView, cands: Seq<Candidate>) -> bool {
    forall|k: int|
        0 <= k < cands.len() ==> (#[trigger] cands[k]).faithful(v) && cands[k].sort_key is None
}

/// Puts the matches among `list` behind the candidates.
fn scan_list(
    index: &VolumeIndex,
    parsed: &ParsedQuery,
    compiled: &CompiledQuery<'_>,
    list: &[EntryIdx],
    scope: Option<EntryIdx>,
    scratch: &mut Scratch,
    cands: &mut Vec<Candidate>,
)
    requires
        index.wf(),
        compiled.compiles(*parsed),
        forall|k: int| 0 <= k < list@.len() ==> index@.live(#[trigger] list@[k]),
        old(scratch).sound(index@, scope),
        all_faithful(index@, old(cands)@),
    ensures
        final(scratch).sound(index@, scope),
        all_faithful(index@, final(cands)@),
        idxs(final(cands)@) == idxs(old(cands)@) + list@.filter(wanted(index@, *parsed, scope)),
{
    let ghost p = wanted(index@, *parsed, scope);
    let mut k: usize = 0;
    proof {
        assert(list@.take(0) =~= Seq::<EntryIdx>::empty());
        lemma_filter_none(list@.take(0), p);
        assert(idxs(cands@) + Seq::<EntryIdx>::empty() =~= idxs(cands@));
    }
    while k < list.len()
        invariant
            index.wf(),
            compiled.compiles(*parsed),
            forall|k: int| 0 <= k < list@.len() ==> index@.live(#[trigger] list@[k]),
            k <= list@.len(),
            p == wanted(index@, *parsed, scope),
            scratch.sound(index@, scope),
            all_faithful(index@, cands@),
            idxs(cands@) == idxs(old(cands)@) + list@.take(k as int).filter(p),
        decreases list@.len() - k,
    {
        let idx = list[k];
        let ghost before = cands@;
        proof {
            assert(index@.live(list@[k as int]));
            assert(list@.take(k + 1) =~= list@.take(k as int).push(idx));
            lemma_filter_push(list@.take(k as int), idx, p);
        }
        if !index.is_synthetic(idx) {
            if let Some(c) = evaluate(index, parsed, compiled, idx, scope, scratch) {
                cands.push(c);
                proof {
                    assert(idxs(cands@) =~= idxs(before).push(idx));
                    assert(idxs(cands@) =~= idxs(old(cands)@) + list@.take(k + 1).filter(p));
                }
            }
        }
        k += 1;
    }
    assert(list@.take(k as int) =~= list@);
}

/// The name starts do not fall.
proof fn lemma_starts_ascend(names: Seq<Seq<u8>>, i: int, j: int)
    requires
        0 <= i <= j <= names.len(),
    ensures
        arena_start(names, i) <= arena_start(names, j),
        i < j ==> arena_start(names, i) < arena_start(names, j),
    decreases j - i,
{
    if i < j {
        lemma_arena_holds(names, i);
        lemma_starts_ascend(names, i + 1, j);
    }
}

/// Where a name holds a text, the arena holds it at the matching place.
proof fn lemma_in_arena(names: Seq<Seq<u8>>, k: int, needle: Seq<u8>, o: int)
    requires
        0 <= k < names.len(),
        occurs_at(folded(names[k]), needle, o),
    ensures
        occurs_at(arena(names), needle, arena_start(names, k) + o),
        arena_start(names, k) + o + needle.len() < arena_start(names, k + 1),
{
    lemma_arena_holds(names, k);
    let s = arena_start(names, k);
    let f = folded(names[k]);
    let whole = arena(names).subrange(s, s + f.len());
    assert(whole == f);
    assert(arena(names).subrange(s + o, s + o + needle.len()) =~= whole.subrange(
        o,
        o + needle.len(),
    ));
}

/// A text without NUL that stands in the arena stands within one name.
proof fn lemma_within_name(names: Seq<Seq<u8>>, k: int, needle: Seq<u8>, pos: int)
    requires
        0 <= k < names.len(),
        occurs_at(arena(names), needle, pos),
        arena_start(names, k) <= pos < arena_start(names, k + 1),
        !needle.contains(0u8),
    ensures
        pos + needle.len() < arena_start(names, k + 1),
{
    lemma_arena_holds(names, k);
    let nul = arena_start(names, k + 1) - 1;
    if pos + needle.len() > nul {
        assert(arena(names).subrange(pos, pos + needle.len())[nul - pos] == 0);
        assert(needle[nul - pos] == 0);
    }
}

/// A name strictly between those of two successive occurrences (or before the
/// first, or behind the last) does not hold the needle.
proof fn lemma_skipped(names: Seq<Seq<u8>>, needle: Seq<u8>, at: Seq<usize>, m: int, lo: int, c: int)
    requires
        non_overlapping(arena(names), needle, at),
        0 <= m <= at.len(),
        0 <= lo <= c < names.len(),
        indexable(names[c]),
        m > 0 ==> lo > 0 && arena_start(names, lo - 1) <= at[m - 1] < arena_start(names, lo),
        m < at.len() ==> arena_start(names, c + 1) <= at[m],
        needle.len() > 0,
    ensures
        !contains_bytes(folded(names[c]), needle),
{
    if contains_bytes(folded(names[c]), needle) {
        let f = folded(names[c]);
        let o = choose|o: int| occurs_at(f, needle, o);
        lemma_in_arena(names, c, needle, o);
        let j = arena_start(names, c) + o;
        assert(!needle.contains(0u8)) by {
            if needle.contains(0u8) {
                let z = needle.index_of(0u8);
                assert(f.subrange(o, o + needle.len())[z] == 0);
                assert(f[o + z] == 0);
            }
        }
        lemma_starts_ascend(names, lo, c);
        if m > 0 {
            assert(follows_on(arena(names), needle, at, m - 1));
            lemma_within_name(names, lo - 1, needle, at[m - 1] as int);
        }
        assert(arena_start(names, c) >= 0);
        assert(search_start(needle, at, m) <= j);
        if m < at.len() {
            assert(follows_on(arena(names), needle, at, m));
        }
        assert(!occurs_at(arena(names), needle, j));
    }
}

/// The number of the last name that starts at or before `pos`.
fn name_at(pairs: &[NamePair], pos: u32, Ghost(names): Ghost<Seq<Seq<u8>>>) -> (id: usize)
    requires
        pairs@.len() == names.len(),
        forall|k: int|
            0 <= k < pairs@.len() ==> (#[trigger] pairs@[k]).folded.off == arena_start(names, k),
        pos < arena(names).len(),
    ensures
        id < pairs@.len(),
        arena_start(names, id as int) <= pos < arena_start(names, id + 1),
{
    proof {
        assert(names.take(names.len() as int) =~= names);
        assert(names.take(0) =~= Seq::<Seq<u8>>::empty());
        assert(arena_start(names, 0) == 0);
        assert(arena_start(names, names.len() as int) == arena(names).len());
    }
    let mut lo: usize = 0;
    let mut hi: usize = pairs.len();
    while hi - lo > 1
        invariant
            pairs@.len() == names.len(),
            forall|k: int|
                0 <= k < pairs@.len() ==> (#[trigger] pairs@[k]).folded.off == arena_start(
                    names,
                    k,
                ),
            lo < hi <= pairs@.len(),
            arena_start(names, lo as int) <= pos < arena_start(names, hi as int),
        decreases hi - lo,
    {
        let mid = lo + (hi - lo) / 2;
        if pairs[mid].folded.off <= pos {
            lo = mid;
        } else {
            hi = mid;
        }
    }
    lo
}

/// The number of the last name that starts at or before `pos`, looked for from
/// `from` on.
fn advance(pairs: &[NamePair], from: usize, pos: u32, Ghost(names): Ghost<Seq<Seq<u8>>>) -> (id:
    usize)
    requires
        pairs@.len() == names.len(),
        forall|k: int|
            0 <= k < pairs@.len() ==> (#[trigger] pairs@[k]).folded.off == arena_start(names, k),
        from < pairs@.len(),
        arena_start(names, from as int) <= pos < arena(names).len(),
    ensures
        from <= id < pairs@.len(),
        arena_start(names, id as int) <= pos < arena_start(names, id + 1),
{
    let mut cursor: usize = from;
    while cursor < pairs.len() - 1 && pairs[cursor + 1].folded.off <= pos
        invariant
            pairs@.len() == names.len(),
            forall|k: int|
                0 <= k < pairs@.len() ==> (#[trigger] pairs@[k]).folded.off == arena_start(
                    names,
                    k,
                ),
            from <= cursor < pairs@.len(),
            arena_start(names, cursor as int) <= pos,
        decreases pairs@.len() - cursor,
    {
        cursor += 1;
    }
    proof {
        assert(names.take(names.len() as int) =~= names);
        assert(arena_start(names, names.len() as int) == arena(names).len());
    }
    cursor
}

/// The matches among the names up to `k`.
spec fn matched_upto(v: IndexView, q: ParsedQuery, scope: Option<EntryIdx>, k: int) -> Seq<EntryIdx> {
    chained_slots(v.chains.take(k)).filter(wanted(v, q, scope))
}

/// The names between two successive occurrences add no match.
proof fn lemma_skip_to(
    v: IndexView,
    q: ParsedQuery,
    scope: Option<EntryIdx>,
    needle: Seq<u8>,
    at: Seq<usize>,
    m: int,
    lo: int,
    hi: int,
)
    requires
        v.wf(),
        !q.match_case,
        guaranteed(q, needle),
        needle.len() > 0,
        non_overlapping(arena(v.names), needle, at),
        0 <= m <= at.len(),
        0 <= lo <= hi <= v.names.len(),
        m > 0 ==> lo > 0 && arena_start(v.names, lo - 1) <= at[m - 1] < arena_start(v.names, lo),
        m < at.len() ==> arena_start(v.names, hi) <= at[m],
    ensures
        matched_upto(v, q, scope, hi) == matched_upto(v, q, scope, lo),
{
    assert forall|c: int| lo <= c < hi implies !contains_bytes(
        folded(#[trigger] v.names[c]),
        needle,
    ) by {
        lemma_starts_ascend(v.names, c + 1, hi);
        lemma_skipped(v.names, needle, at, m, lo, c);
    }
    lemma_skip_chains(v, q, scope, needle, lo, hi);
}

/// Puts the matches among the bearers of one name behind the candidates.
fn scan_name(
    index: &VolumeIndex,
    parsed: &ParsedQuery,
    compiled: &CompiledQuery<'_>,
    id: u32,
    scope: Option<EntryIdx>,
    scratch: &mut Scratch,
    cands: &mut Vec<Candidate>,
)
    requires
        index.wf(),
        compiled.compiles(*parsed),
        id < index@.names.len(),
        old(scratch).sound(index@, scope),
        all_faithful(index@, old(cands)@),
        idxs(old(cands)@) == matched_upto(index@, *parsed, scope, id as int),
    ensures
        final(scratch).sound(index@, scope),
        all_faithful(index@, final(cands)@),
        idxs(final(cands)@) == matched_upto(index@, *parsed, scope, id + 1),
{
    let ghost v = index@;
    let chain = index.name_chain(id);
    proof {
        assert forall|k: int| 0 <= k < chain@.len() implies v.live(#[trigger] chain@[k]) by {
            assert(v.chains[id as int].contains(chain@[k]));
        }
        assert(v.chains.take(id + 1).drop_last() =~= v.chains.take(id as int));
        Seq::filter_distributes_over_add(
            chained_slots(v.chains.take(id as int)),
            v.chains[id as int],
            wanted(v, *parsed, scope),
        );
    }
    scan_list(index, parsed, compiled, chain, scope, scratch, cands);
}

/// Puts the matches of a query with a usable literal behind the candidates, by
/// name number: the folded arena is searched for the literal, and each name
/// found leads to the entries that bear it.
fn scan_arena(
    index: &VolumeIndex,
    parsed: &ParsedQuery,
    compiled: &CompiledQuery<'_>,
    needle: &[u8],
    scope: Option<EntryIdx>,
    scratch: &mut Scratch,
    cands: &mut Vec<Candidate>,
)
    requires
        index.wf(),
        compiled.compiles(*parsed),
        !parsed.match_case,
        needle@.len() > 0,
        guaranteed(*parsed, needle@),
        old(scratch).sound(index@, scope),
        old(cands)@.len() == 0,
    ensures
        final(scratch).sound(index@, scope),
        all_faithful(index@, final(cands)@),
        idxs(final(cands)@) == chained_slots(index@.chains).filter(
            wanted(index@, *parsed, scope),
        ),
{
    let ghost v = index@;
    let ghost names = v.names;
    let driver = new_finder(needle);
    let hay = index.folded_bytes();
    let pairs = index.name_pairs();
    let at = find_all(&driver, hay);
    let mut cursor: usize = 0;
    // Names below this number are dealt with.
    let mut next: usize = 0;
    let mut m: usize = 0;
    proof {
        assert(v.chains.take(0) =~= Seq::<Seq<EntryIdx>>::empty());
        lemma_filter_none(chained_slots(v.chains.take(0)), wanted(v, *parsed, scope));
        assert(idxs(cands@) =~= Seq::<EntryIdx>::empty());
    }
    while m < at.len()
        invariant
            index.wf(),
            v == index@,
            names == v.names,
            compiled.compiles(*parsed),
            !parsed.match_case,
            needle@.len() > 0,
            guaranteed(*parsed, needle@),
            hay@ == arena(names),
            hay@.len() <= NIL,
            pairs@.len() == names.len(),
            forall|k: int|
                0 <= k < pairs@.len() ==> (#[trigger] pairs@[k]).folded.off == arena_start(
                    names,
                    k,
                ),
            non_overlapping(hay@, needle@, at@),
            m <= at@.len(),
            next <= names.len(),
            m > 0 ==> {
                &&& cursor + 1 == next
                &&& arena_start(names, cursor as int) <= at@[m - 1] < arena_start(
                    names,
                    next as int,
                )
            },
            m == 0 ==> next == 0,
            scratch.sound(v, scope),
            all_faithful(v, cands@),
            idxs(cands@) == matched_upto(v, *parsed, scope, next as int),
        decreases at@.len() - m,
    {
        let at_m: usize = at[m];
        proof {
            lemma_next_occurrence(hay@, needle@, at@, m as int);
        }
        let pos = at_m as u32;
        if m == 0 {
            cursor = name_at(pairs, pos, Ghost(names));
        } else {
            cursor = advance(pairs, cursor, pos, Ghost(names));
        }
        if cursor >= next {
            proof {
                lemma_skip_to(
                    v,
                    *parsed,
                    scope,
                    needle@,
                    at@,
                    m as int,
                    next as int,
                    cursor as int,
                );
            }
            scan_name(index, parsed, compiled, cursor as u32, scope, scratch, cands);
            next = cursor + 1;
        }
        m += 1;
    }
    proof {
        let n = names.len() as int;
        lemma_skip_to(v, *parsed, scope, needle@, at@, at@.len() as int, next as int, n);
        assert(v.chains.take(n) =~= v.chains);
    }
}

/// Occurrences lie in the text, behind one another.
proof fn lemma_next_occurrence(hay: Seq<u8>, needle: Seq<u8>, at: Seq<usize>, m: int)
    requires
        non_overlapping(hay, needle, at),
        0 <= m < at.len(),
        needle.len() > 0,
    ensures
        at[m] < hay.len(),
        m > 0 ==> at[m - 1] <= at[m],
{
    assert(follows_on(hay, needle, at, m));
}

/// Names without the needle add no match.
proof fn lemma_skip_chains(
    v: IndexView,
    q: ParsedQuery,
    scope: Option<EntryIdx>,
    needle: Seq<u8>,
    lo: int,
    hi: int,
)
    requires
        v.wf(),
        !q.match_case,
        guaranteed(q, needle),
        0 <= lo <= hi <= v.names.len(),
        forall|c: int| lo <= c < hi ==> !contains_bytes(folded(#[trigger] v.names[c]), needle),
    ensures
        chained_slots(v.chains.take(hi)).filter(wanted(v, q, scope)) == chained_slots(
            v.chains.take(lo),
        ).filter(wanted(v, q, scope)),
    decreases hi - lo,
{
    if lo < hi {
        let p = wanted(v, q, scope);
        lemma_skip_chains(v, q, scope, needle, lo, hi - 1);
        let chain = v.chains[hi - 1];
        assert(v.chains.take(hi).drop_last() =~= v.chains.take(hi - 1));
        Seq::filter_distributes_over_add(chained_slots(v.chains.take(hi - 1)), chain, p);
        assert(!contains_bytes(folded(v.names[hi - 1]), needle));
        assert forall|k: int| 0 <= k < chain.len() implies !p(#[trigger] chain[k]) by {
            assert(chain.contains(chain[k]));
            assert(v.entry(chain[k]).name_id == hi - 1);
            if answers(v, q, scope, chain[k]) {
                lemma_guaranteed(v, q, scope, chain[k], needle);
            }
        }
        lemma_filter_none(chain, p);
        assert(chained_slots(v.chains.take(hi - 1)).filter(p) + Seq::<EntryIdx>::empty()
            =~= chained_slots(v.chains.take(hi - 1)).filter(p));
    }
}

/// The matches of a query, in scan order. Reports too what was remembered on
/// the way.
pub(super) fn gather(
    index: &VolumeIndex,
    parsed: &ParsedQuery,
    scope: Option<EntryIdx>,
) -> (found: (Vec<Candidate>, Scratch))
    requires
        index.wf(),
        scope is Some ==> index@.in_range(scope->0),
    ensures
        all_faithful(index@, found.0@),
        idxs(found.0@) == matched(index@, *parsed, scope),
        found.1.sound(index@, None),
{
    let ghost v = index@;
    let ghost p = wanted(v, *parsed, scope);
    let compiled = CompiledQuery::new(parsed);
    let mut scratch = Scratch::new();
    let mut cands: Vec<Candidate> = Vec::new();
    assert(idxs(cands@) =~= Seq::<EntryIdx>::empty());
    assert(matched(v, *parsed, scope) == scan_order(v, *parsed, scope).filter(p));
    if let Some(root) = scope {
        if let Some(list) = index.subtree_entries(root, SUBTREE_WALK_MAX) {
            proof {
                lemma_subtree(v, root);
                assert forall|k: int| 0 <= k < list@.len() implies v.live(#[trigger] list@[k]) by {
                    assert(list@.contains(list@[k]));
                }
                assert forall|k: int| 0 <= k < list@.len() implies p(#[trigger] list@[k]) == wanted(
                    v,
                    *parsed,
                    None,
                )(list@[k]) by {
                    assert(list@.contains(list@[k]));
                }
                lemma_filter_same(list@, p, wanted(v, *parsed, None));
            }
            // Membership is by construction, so no ancestry test is needed.
            scan_list(index, parsed, &compiled, list.as_slice(), None, &mut scratch, &mut cands);
            assert(idxs(cands@) =~= matched(v, *parsed, scope));
            return (cands, scratch);
        }
    }
    if !parsed.match_case {
        if let Some(needle) = compiled.driver() {
            scan_arena(
                index,
                parsed,
                &compiled,
                needle.as_slice(),
                scope,
                &mut scratch,
                &mut cands,
            );
            return (cands, scratch);
        }
    }
    let live = index.live_entries();
    proof {
        assert forall|k: int| 0 <= k < live@.len() implies v.live(#[trigger] live@[k]) by {
            let all = Seq::new(v.entries.len(), |i: int| i as EntryIdx);
            assert(live@.contains(live@[k]));
            crate::seqs::lemma_filter_members(all, |i: EntryIdx| v.live(i), live@[k]);
        }
    }
    scan_list(index, parsed, &compiled, live.as_slice(), scope, &mut scratch, &mut cands);
    assert(idxs(cands@) =~= matched(v, *parsed, scope));
    (cands, scratch)
}

} // verus!
