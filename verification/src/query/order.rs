//! Ordering matches, and only as many as the page needs.

use super::evaluate::Candidate;
use super::model::{lemma_result_order_total, path_key, result_order, sort_text};
use super::scan::idxs;
use crate::bytes::{append_bytes, compare_bytes, lemma_lex_total, Relation};
use crate::fold::{fold, folded};
use crate::index::model::{IndexView, LOST_FOUND};
use crate::index::{PathStatus, VolumeIndex};
use crate::memo::{memo_get, memo_insert, memo_new};
use crate::seqs::{lemma_map_multiset, lemma_permuted_members, lemma_sorted_front};
use crate::types::{EntryIdx, SortDir, SortKey, SortSpec};
use core::cmp::Ordering;
use rayon::slice::ParallelSliceMut;
use rustc_hash::FxHashMap;
use vstd::prelude::*;
use vstd::relations::sorted_by;

verus! {

/// From this many candidates on, sorting is spread over the cores.
const PARALLEL_SORT_MIN: usize = 100_000;

/// The candidate carries what it is ordered by.
pub(super) open spec fn keyed(v: IndexView, sort: SortSpec, c: Candidate) -> bool {
    &&& v.in_range(c.idx)
    &&& c.size == v.entry(c.idx).size
    &&& c.mtime == v.entry(c.idx).mtime
    &&& sort.key is Path ==> path_key(v, c.idx) == match c.sort_key {
        Some(key) => key@,
        None => Seq::<u8>::empty(),
    }
}

/// Every candidate carries what it is ordered by.
pub(super) open spec fn all_keyed(v: IndexView, sort: SortSpec, cands: Seq<Candidate>) -> bool {
    forall|k: int| 0 <= k < cands.len() ==> keyed(v, sort, #[trigger] cands[k])
}

/// The first `end` of `s`.
spec fn front<T>(s: Seq<T>, end: usize) -> Seq<T> {
    s.take(end as int)
}

/// What comes behind the first `end` of `s`.
spec fn rest<T>(s: Seq<T>, end: usize) -> Seq<T> {
    s.skip(end as int)
}

/// The entry at `n` is where it belongs: nothing before it comes after it, and
/// nothing behind it comes before it.
spec fn split_at(s: Seq<EntryIdx>, n: usize, leq: spec_fn(EntryIdx, EntryIdx) -> bool) -> bool {
    &&& forall|i: int| 0 <= i <= n ==> leq(#[trigger] s[i], s[n as int])
    &&& forall|j: int| n <= j < s.len() ==> leq(s[n as int], #[trigger] s[j])
}

/// Compares by number, text and slot, smallest first.
fn compare_ascending(index: &VolumeIndex, key: SortKey, a: &Candidate, b: &Candidate) -> (rel:
    Relation)
    requires
        index.wf(),
        keyed(index@, SortSpec { key, dir: SortDir::Asc }, *a),
        keyed(index@, SortSpec { key, dir: SortDir::Asc }, *b),
    ensures
        match rel {
            Relation::Less => super::model::precedes(index@, key, a.idx, b.idx),
            Relation::Equal => a.idx == b.idx,
            Relation::Greater => super::model::precedes(index@, key, b.idx, a.idx),
        },
{
    let by_number = match key {
        SortKey::Size => {
            let x: u64 = a.size.unwrap_or(0);
            let y: u64 = b.size.unwrap_or(0);
            if x < y {
                Relation::Less
            } else if x == y {
                Relation::Equal
            } else {
                Relation::Greater
            }
        },
        SortKey::DateModified => {
            let x: i64 = a.mtime.unwrap_or(i64::MIN);
            let y: i64 = b.mtime.unwrap_or(i64::MIN);
            if x < y {
                Relation::Less
            } else if x == y {
                Relation::Equal
            } else {
                Relation::Greater
            }
        },
        _ => Relation::Equal,
    };
    match by_number {
        Relation::Equal => {},
        _ => return by_number,
    }
    let none: [u8; 0] = [];
    let by_text = match key {
        SortKey::Path => {
            let x: &[u8] = match &a.sort_key {
                Some(k) => k.as_slice(),
                None => none.as_slice(),
            };
            let y: &[u8] = match &b.sort_key {
                Some(k) => k.as_slice(),
                None => none.as_slice(),
            };
            assert(x@ =~= path_key(index@, a.idx));
            assert(y@ =~= path_key(index@, b.idx));
            compare_bytes(x, y)
        },
        _ => compare_bytes(index.folded_name(a.idx), index.folded_name(b.idx)),
    };
    match by_text {
        Relation::Equal => {},
        _ => return by_text,
    }
    if a.idx < b.idx {
        Relation::Less
    } else if a.idx == b.idx {
        Relation::Equal
    } else {
        Relation::Greater
    }
}

/// How two candidates stand in the order of results, direction included.
fn cmp_candidate(index: &VolumeIndex, sort: SortSpec, a: &Candidate, b: &Candidate) -> (ord:
    Ordering)
    requires
        index.wf(),
        keyed(index@, sort, *a),
        keyed(index@, sort, *b),
    ensures
        match ord {
            Ordering::Less => a.idx != b.idx && result_order(index@, sort)(a.idx, b.idx),
            Ordering::Equal => a.idx == b.idx,
            Ordering::Greater => a.idx != b.idx && result_order(index@, sort)(b.idx, a.idx),
        },
{
    proof {
        lemma_lex_total(sort_text(index@, sort.key, a.idx), sort_text(index@, sort.key, a.idx));
    }
    let base = compare_ascending(index, sort.key, a, b);
    match (sort.dir, base) {
        (_, Relation::Equal) => Ordering::Equal,
        (SortDir::Asc, Relation::Less) => Ordering::Less,
        (SortDir::Asc, Relation::Greater) => Ordering::Greater,
        (SortDir::Desc, Relation::Less) => Ordering::Greater,
        (SortDir::Desc, Relation::Greater) => Ordering::Less,
    }
}

/// Sorts the first `end` candidates with `slice::sort_unstable_by`, which
/// permutes a slice into ascending order of a comparator that is a total order.
#[verifier::external_body]
fn sort_front(index: &VolumeIndex, cands: &mut Vec<Candidate>, sort: SortSpec, end: usize)
    requires
        index.wf(),
        end <= old(cands)@.len(),
        all_keyed(index@, sort, old(cands)@),
    ensures
        final(cands)@.len() == old(cands)@.len(),
        rest(final(cands)@, end) == rest(old(cands)@, end),
        front(final(cands)@, end).to_multiset() == front(old(cands)@, end).to_multiset(),
        sorted_by(idxs(front(final(cands)@, end)), result_order(index@, sort)),
{
    cands[..end].sort_unstable_by(|a, b| cmp_candidate(index, sort, a, b));
}

/// Sorts the first `end` candidates with rayon's
/// `ParallelSliceMut::par_sort_unstable_by`, which does what
/// `slice::sort_unstable_by` does on several threads.
#[verifier::external_body]
fn par_sort_front(index: &VolumeIndex, cands: &mut Vec<Candidate>, sort: SortSpec, end: usize)
    requires
        index.wf(),
        end <= old(cands)@.len(),
        all_keyed(index@, sort, old(cands)@),
    ensures
        final(cands)@.len() == old(cands)@.len(),
        rest(final(cands)@, end) == rest(old(cands)@, end),
        front(final(cands)@, end).to_multiset() == front(old(cands)@, end).to_multiset(),
        sorted_by(idxs(front(final(cands)@, end)), result_order(index@, sort)),
{
    cands[..end].par_sort_unstable_by(|a, b| cmp_candidate(index, sort, a, b));
}

/// Brings the candidate that belongs at `n` there with
/// `slice::select_nth_unstable_by`: it permutes the slice so that nothing before
/// `n` comes after it and nothing behind `n` comes before it.
#[verifier::external_body]
fn select_nth(index: &VolumeIndex, cands: &mut Vec<Candidate>, sort: SortSpec, n: usize)
    requires
        index.wf(),
        n < old(cands)@.len(),
        all_keyed(index@, sort, old(cands)@),
    ensures
        final(cands)@.to_multiset() == old(cands)@.to_multiset(),
        split_at(idxs(final(cands)@), n, result_order(index@, sort)),
{
    cands.select_nth_unstable_by(n, |a, b| cmp_candidate(index, sort, a, b));
}

/// A permutation of keyed candidates is keyed.
proof fn lemma_keyed_permuted(v: IndexView, sort: SortSpec, a: Seq<Candidate>, b: Seq<Candidate>)
    requires
        all_keyed(v, sort, a),
        a.to_multiset() == b.to_multiset(),
    ensures
        all_keyed(v, sort, b),
{
    assert forall|k: int| 0 <= k < b.len() implies keyed(v, sort, #[trigger] b[k]) by {
        lemma_permuted_members(a, b, b[k]);
        assert(b.contains(b[k]));
        let j = a.index_of(b[k]);
        assert(keyed(v, sort, a[j]));
    }
}

/// Permuting the front permutes the whole.
proof fn lemma_front_permuted(a: Seq<Candidate>, b: Seq<Candidate>, end: usize)
    requires
        a.len() == b.len(),
        end <= a.len(),
        rest(a, end) == rest(b, end),
        front(a, end).to_multiset() == front(b, end).to_multiset(),
    ensures
        a.to_multiset() == b.to_multiset(),
{
    assert(a =~= front(a, end) + rest(a, end));
    assert(b =~= front(b, end) + rest(b, end));
    vstd::seq_lib::lemma_multiset_commutative(front(a, end), rest(a, end));
    vstd::seq_lib::lemma_multiset_commutative(front(b, end), rest(b, end));
}

/// Brings the first `end` candidates of the order to the front, sorted. Where
/// `end` is only part of a large set, the rest is not sorted.
pub(super) fn order_top(index: &VolumeIndex, cands: &mut Vec<Candidate>, sort: SortSpec, end: usize)
    requires
        index.wf(),
        end <= old(cands)@.len(),
        all_keyed(index@, sort, old(cands)@),
    ensures
        final(cands)@.to_multiset() == old(cands)@.to_multiset(),
        idxs(final(cands)@).take(end as int) == idxs(old(cands)@).sort_by(
            result_order(index@, sort),
        ).take(end as int),
{
    let ghost v = index@;
    let ghost leq = result_order(v, sort);
    let ghost before = cands@;
    proof {
        lemma_result_order_total(v, sort);
        idxs(before).lemma_sort_by_ensures(leq);
    }
    if end == 0 {
        assert(idxs(cands@).take(0) =~= idxs(before).sort_by(leq).take(0));
        return;
    }
    if end < cands.len() {
        select_nth(index, cands, sort, end - 1);
        proof {
            lemma_keyed_permuted(v, sort, before, cands@);
            before.to_multiset_ensures();
            cands@.to_multiset_ensures();
        }
    }
    let ghost mid = cands@;
    if end >= PARALLEL_SORT_MIN {
        par_sort_front(index, cands, sort, end);
    } else {
        sort_front(index, cands, sort, end);
    }
    proof {
        let fin = cands@;
        lemma_front_permuted(mid, fin, end);
        let f = idxs(front(fin, end));
        let r = idxs(rest(fin, end));
        lemma_map_multiset(before, fin, |c: Candidate| c.idx);
        assert(idxs(fin) =~= f + r);
        assert forall|i: int, j: int| 0 <= i < f.len() && 0 <= j < r.len() implies leq(
            #[trigger] f[i],
            #[trigger] r[j],
        ) by {
            let c = front(fin, end)[i];
            lemma_permuted_members(front(mid, end), front(fin, end), c);
            assert(front(fin, end).contains(c));
            let a = front(mid, end).index_of(c);
            assert(front(mid, end)[a] == c);
            let m = idxs(mid);
            assert(m[a] == f[i]);
            assert(rest(mid, end)[j] == rest(fin, end)[j]);
            assert(m[end + j] == r[j]);
            assert(leq(m[a], m[end - 1]));
            assert(leq(m[end - 1], m[end + j]));
        }
        lemma_sorted_front(idxs(before), f, r, leq);
        assert(idxs(fin).take(end as int) =~= f);
    }
}

/// Every remembered folded directory is right.
spec fn dirs_right(v: IndexView, memo: Map<EntryIdx, Option<Vec<u8>>>) -> bool {
    forall|p: EntryIdx| #[trigger]
        memo.contains_key(p) ==> match v.path_of(p) {
            Some(dir) => memo[p] is Some && memo[p]->0@ == folded(dir),
            None => memo[p] is None,
        }
}

/// The key of one candidate in the order by path.
fn path_sort_key(
    index: &VolumeIndex,
    idx: EntryIdx,
    folded_dirs: &mut FxHashMap<EntryIdx, Option<Vec<u8>>>,
) -> (key: Option<Vec<u8>>)
    requires
        index.wf(),
        index@.live(idx),
        idx > LOST_FOUND,
        dirs_right(index@, old(folded_dirs)@),
    ensures
        dirs_right(index@, final(folded_dirs)@),
        path_key(index@, idx) == match key {
            Some(k) => k@,
            None => Seq::<u8>::empty(),
        },
{
    assert(index@.has_parent(idx));
    let parent = index.entry(idx).parent;
    if memo_get(folded_dirs, parent).is_none() {
        let mut buf: Vec<u8> = Vec::new();
        match index.path_of(parent, &mut buf) {
            PathStatus::Presentable => {
                memo_insert(folded_dirs, parent, Some(fold(buf.as_slice())));
            },
            PathStatus::LostFound => {
                memo_insert(folded_dirs, parent, None);
            },
        }
    }
    match memo_get(folded_dirs, parent) {
        Some(Some(dir)) => {
            let mut key: Vec<u8> = Vec::new();
            append_bytes(&mut key, dir.as_slice());
            key.push(0);
            append_bytes(&mut key, index.folded_name(idx));
            assert(key@ =~= path_key(index@, idx));
            Some(key)
        },
        _ => None,
    }
}

/// Gives every candidate its key in the order by path: each is folded once,
/// so that ordering is a plain byte comparison, and siblings share the folded
/// directory.
pub(super) fn fill_sort_keys(index: &VolumeIndex, cands: &mut Vec<Candidate>)
    requires
        index.wf(),
        forall|k: int|
            0 <= k < old(cands)@.len() ==> (#[trigger] old(cands)@[k]).faithful(index@),
    ensures
        idxs(final(cands)@) == idxs(old(cands)@),
        forall|k: int|
            0 <= k < final(cands)@.len() ==> {
                let c = #[trigger] final(cands)@[k];
                &&& c.faithful(index@)
                &&& path_key(index@, c.idx) == match c.sort_key {
                    Some(key) => key@,
                    None => Seq::<u8>::empty(),
                }
            },
{
    let mut folded_dirs: FxHashMap<EntryIdx, Option<Vec<u8>>> = memo_new();
    let mut i: usize = 0;
    while i < cands.len()
        invariant
            index.wf(),
            i <= cands@.len(),
            dirs_right(index@, folded_dirs@),
            idxs(cands@) == idxs(old(cands)@),
            forall|k: int| 0 <= k < cands@.len() ==> (#[trigger] cands@[k]).faithful(index@),
            forall|k: int|
                0 <= k < i ==> path_key(index@, (#[trigger] cands@[k]).idx) == match cands@[k].sort_key {
                    Some(key) => key@,
                    None => Seq::<u8>::empty(),
                },
        decreases cands@.len() - i,
    {
        let ghost was = cands@;
        proof {
            let c = cands@[i as int];
            assert(c.faithful(index@));
            assert(index@.entry(0).synthetic);
            assert(index@.entry(LOST_FOUND).synthetic);
        }
        let key = path_sort_key(index, cands[i].idx, &mut folded_dirs);
        cands[i].sort_key = key;
        assert(idxs(cands@) =~= idxs(was));
        i += 1;
    }
}

} // verus!
