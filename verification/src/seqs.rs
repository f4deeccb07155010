//! Facts about sequences: filtering, permutations, sorted prefixes.

use vstd::prelude::*;
use vstd::relations::{sorted_by, total_ordering};
use vstd::seq_lib::{
    lemma_multiset_commutative, lemma_sorted_unique, to_multiset_build, to_multiset_contains,
    to_multiset_len, to_multiset_remove,
};

verus! {

/// Filtering a list with one more element.
pub proof fn lemma_filter_push<A>(s: Seq<A>, x: A, p: spec_fn(A) -> bool)
    ensures
        s.push(x).filter(p) == if p(x) {
            s.filter(p).push(x)
        } else {
            s.filter(p)
        },
{
    reveal(Seq::filter);
    assert(s.push(x).drop_last() =~= s);
}

/// Two predicates that agree on a list filter it alike.
pub proof fn lemma_filter_same<A>(s: Seq<A>, p: spec_fn(A) -> bool, r: spec_fn(A) -> bool)
    requires
        forall|i: int| 0 <= i < s.len() ==> p(#[trigger] s[i]) == r(s[i]),
    ensures
        s.filter(p) == s.filter(r),
    decreases s.len(),
{
    reveal(Seq::filter);
    if s.len() > 0 {
        assert forall|i: int| 0 <= i < s.drop_last().len() implies p(#[trigger] s.drop_last()[i])
            == r(s.drop_last()[i]) by {
            assert(s.drop_last()[i] == s[i]);
        }
        lemma_filter_same(s.drop_last(), p, r);
    }
}

/// Nothing is left where nothing is wanted.
pub proof fn lemma_filter_none<A>(s: Seq<A>, p: spec_fn(A) -> bool)
    requires
        forall|i: int| 0 <= i < s.len() ==> !p(#[trigger] s[i]),
    ensures
        s.filter(p) == Seq::<A>::empty(),
    decreases s.len(),
{
    reveal(Seq::filter);
    if s.len() > 0 {
        assert forall|i: int| 0 <= i < s.drop_last().len() implies !p(
            #[trigger] s.drop_last()[i],
        ) by {
            assert(s.drop_last()[i] == s[i]);
        }
        lemma_filter_none(s.drop_last(), p);
    }
}

/// What a filtered list holds.
pub proof fn lemma_filter_members<A>(s: Seq<A>, p: spec_fn(A) -> bool, x: A)
    ensures
        s.filter(p).contains(x) <==> s.contains(x) && p(x),
    decreases s.len(),
{
    reveal(Seq::filter);
    if s.len() > 0 {
        let t = s.drop_last();
        lemma_filter_members(t, p, x);
        assert(s =~= t.push(s.last()));
        lemma_push_members(t, s.last(), x);
        lemma_push_members(t.filter(p), s.last(), x);
    }
}

/// What a list holds with one more element behind it.
pub proof fn lemma_push_members<A>(s: Seq<A>, y: A, x: A)
    ensures
        s.push(y).contains(x) <==> s.contains(x) || x == y,
{
    if s.contains(x) {
        assert(s.push(y)[s.index_of(x)] == x);
    }
    assert(s.push(y)[s.len() as int] == y);
}

/// A list of distinct elements stays one under a filter.
pub proof fn lemma_filter_distinct<A>(s: Seq<A>, p: spec_fn(A) -> bool)
    requires
        s.no_duplicates(),
    ensures
        s.filter(p).no_duplicates(),
    decreases s.len(),
{
    reveal(Seq::filter);
    if s.len() > 0 {
        let t = s.drop_last();
        let x = s.last();
        lemma_filter_distinct(t, p);
        lemma_filter_members(t, p, x);
        assert(!t.contains(x)) by {
            if t.contains(x) {
                assert(s[t.index_of(x)] == s[s.len() - 1]);
            }
        }
        let f = t.filter(p);
        if p(x) {
            assert forall|i: int, j: int| 0 <= i < j < f.push(x).len() implies f.push(x)[i]
                != f.push(x)[j] by {
                if j == f.len() {
                    assert(f.contains(f[i]));
                }
            }
        }
    }
}

/// A permutation stays one when a function is applied to every element.
pub proof fn lemma_map_multiset<A, B>(s: Seq<A>, t: Seq<A>, f: spec_fn(A) -> B)
    requires
        s.to_multiset() == t.to_multiset(),
    ensures
        s.map_values(f).to_multiset() == t.map_values(f).to_multiset(),
    decreases s.len(),
{
    broadcast use vstd::seq_lib::group_to_multiset_ensures;
    s.to_multiset_ensures();
    t.to_multiset_ensures();
    if s.len() == 0 {
        assert(s.map_values(f) =~= t.map_values(f));
    } else {
        let x = s.last();
        assert(s.contains(x));
        lemma_permuted_members(s, t, x);
        let j = t.index_of(x);
        let s2 = s.drop_last();
        let t2 = t.remove(j);
        assert(s =~= s2.push(x));
        to_multiset_build(s2, x);
        assert(s2.to_multiset() =~= s.to_multiset().remove(x));
        to_multiset_remove(t, j);
        assert(t2.to_multiset() =~= t.to_multiset().remove(x));
        lemma_map_multiset(s2, t2, f);
        let fs2 = s2.map_values(f);
        let ft = t.map_values(f);
        assert(s.map_values(f) =~= fs2.push(f(x)));
        to_multiset_build(fs2, f(x));
        assert(ft.remove(j) =~= t2.map_values(f));
        to_multiset_remove(ft, j);
        ft.to_multiset_ensures();
        assert(ft[j] == f(x));
        assert(ft.contains(f(x)));
        assert(ft.to_multiset() =~= ft.remove(j).to_multiset().insert(f(x)));
    }
}

/// Permutations hold the same elements.
pub proof fn lemma_permuted_members<A>(s: Seq<A>, t: Seq<A>, x: A)
    requires
        s.to_multiset() == t.to_multiset(),
    ensures
        s.contains(x) == t.contains(x),
        s.len() == t.len(),
{
    to_multiset_contains(s, x);
    to_multiset_contains(t, x);
    to_multiset_len(s);
    to_multiset_len(t);
}

/// A sorted list that nothing in the rest comes before is the front of the
/// whole in order.
pub proof fn lemma_sorted_front<A>(
    s: Seq<A>,
    front: Seq<A>,
    rest: Seq<A>,
    leq: spec_fn(A, A) -> bool,
)
    requires
        total_ordering(leq),
        (front + rest).to_multiset() == s.to_multiset(),
        sorted_by(front, leq),
        forall|i: int, j: int|
            0 <= i < front.len() && 0 <= j < rest.len() ==> leq(
                #[trigger] front[i],
                #[trigger] rest[j],
            ),
    ensures
        front.len() <= s.sort_by(leq).len(),
        s.sort_by(leq).take(front.len() as int) == front,
        s.sort_by(leq).len() == s.len(),
{
    s.lemma_sort_by_ensures(leq);
    rest.lemma_sort_by_ensures(leq);
    let tail = rest.sort_by(leq);
    let whole = front + tail;
    lemma_multiset_commutative(front, rest);
    lemma_multiset_commutative(front, tail);
    assert(whole.to_multiset() == s.to_multiset());
    assert forall|i: int, j: int| 0 <= i < j < whole.len() implies #[trigger] leq(
        whole[i],
        whole[j],
    ) by {
        if j < front.len() {
            assert(leq(front[i], front[j]));
        } else if i >= front.len() {
            assert(leq(tail[i - front.len()], tail[j - front.len()]));
        } else {
            let y = tail[j - front.len()];
            assert(tail.contains(y));
            lemma_permuted_members(rest, tail, y);
            let k = rest.index_of(y);
            assert(leq(front[i], rest[k]));
        }
    }
    assert(sorted_by(whole, leq));
    lemma_sorted_unique(whole, s.sort_by(leq), leq);
    assert(whole.take(front.len() as int) =~= front);
    s.to_multiset_ensures();
    s.sort_by(leq).to_multiset_ensures();
}

} // verus!
