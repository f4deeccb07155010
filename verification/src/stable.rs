//! Stable sorting, as mathematics.

use crate::seqs::lemma_filter_push;
use vstd::prelude::*;

verus! {

/// `x` put into a sorted list behind everything that it does not come before.
pub open spec fn stable_insert<T>(s: Seq<T>, x: T, before: spec_fn(T, T) -> bool) -> Seq<T>
    decreases s.len(),
{
    if s.len() > 0 && before(x, s.last()) {
        stable_insert(s.drop_last(), x, before).push(s.last())
    } else {
        s.push(x)
    }
}

/// The list sorted, elements of which neither comes before the other left in
/// their order.
pub open spec fn stable_sort<T>(s: Seq<T>, before: spec_fn(T, T) -> bool) -> Seq<T>
    decreases s.len(),
{
    if s.len() == 0 {
        s
    } else {
        stable_insert(stable_sort(s.drop_last(), before), s.last(), before)
    }
}

/// Nothing comes before what stands ahead of it.
pub open spec fn in_order<T>(s: Seq<T>, before: spec_fn(T, T) -> bool) -> bool {
    forall|i: int, j: int| 0 <= i < j < s.len() ==> !before(#[trigger] s[j], #[trigger] s[i])
}

/// Coming before is transitive, never mutual, and what comes before one of two
/// equals, or after it, does so of the other.
pub open spec fn weak_order<T>(before: spec_fn(T, T) -> bool) -> bool {
    &&& forall|a: T, b: T| #[trigger] before(a, b) ==> !before(b, a)
    &&& forall|a: T, b: T, c: T| #[trigger]
        before(a, b) && #[trigger] before(b, c) ==> before(a, c)
    &&& forall|a: T, b: T, c: T| #[trigger] before(a, c) ==> before(a, b) || #[trigger] before(b, c)
}

/// One more element, at the end of the input.
pub proof fn lemma_stable_sort_push<T>(s: Seq<T>, x: T, before: spec_fn(T, T) -> bool)
    ensures
        stable_sort(s.push(x), before) == stable_insert(stable_sort(s, before), x, before),
{
    assert(s.push(x).drop_last() =~= s);
}

proof fn lemma_insert_behind_first<T>(x: T, s: Seq<T>, y: T, before: spec_fn(T, T) -> bool)
    requires
        !before(y, x),
    ensures
        stable_insert(seq![x] + s, y, before) == seq![x] + stable_insert(s, y, before),
    decreases s.len(),
{
    let t = seq![x] + s;
    if s.len() == 0 {
        assert(t.last() == x);
        assert(t.push(y) =~= seq![x] + s.push(y));
    } else {
        assert(t.last() == s.last());
        assert(t.drop_last() =~= seq![x] + s.drop_last());
        if before(y, s.last()) {
            lemma_insert_behind_first(x, s.drop_last(), y, before);
            assert((seq![x] + stable_insert(s.drop_last(), y, before)).push(s.last()) =~= seq![x]
                + stable_insert(s.drop_last(), y, before).push(s.last()));
        } else {
            assert(t.push(y) =~= seq![x] + s.push(y));
        }
    }
}

proof fn lemma_insert_first<T>(s: Seq<T>, y: T, before: spec_fn(T, T) -> bool)
    requires
        forall|k: int| 0 <= k < s.len() ==> before(y, #[trigger] s[k]),
    ensures
        stable_insert(s, y, before) == seq![y] + s,
    decreases s.len(),
{
    if s.len() == 0 {
        assert(s.push(y) =~= seq![y] + s);
    } else {
        assert(before(y, s[s.len() - 1]));
        assert forall|k: int| 0 <= k < s.drop_last().len() implies before(
            y,
            #[trigger] s.drop_last()[k],
        ) by {
            assert(s.drop_last()[k] == s[k]);
        }
        lemma_insert_first(s.drop_last(), y, before);
        assert((seq![y] + s.drop_last()).push(s.last()) =~= seq![y] + s);
    }
}

/// What a list with an element inserted holds.
proof fn lemma_insert_members<T>(s: Seq<T>, y: T, before: spec_fn(T, T) -> bool)
    ensures
        stable_insert(s, y, before).to_multiset() == s.to_multiset().insert(y),
        stable_insert(s, y, before).len() == s.len() + 1,
    decreases s.len(),
{
    broadcast use vstd::multiset::group_multiset_axioms;

    vstd::seq_lib::to_multiset_build(s, y);
    if s.len() > 0 && before(y, s.last()) {
        let t = s.drop_last();
        lemma_insert_members(t, y, before);
        vstd::seq_lib::to_multiset_build(stable_insert(t, y, before), s.last());
        vstd::seq_lib::to_multiset_build(t, s.last());
        assert(t.push(s.last()) =~= s);
        assert(t.to_multiset().insert(y).insert(s.last()) =~= t.to_multiset().insert(
            s.last(),
        ).insert(y));
    }
}

/// Sorting permutes.
pub proof fn lemma_stable_sort_permutes<T>(s: Seq<T>, before: spec_fn(T, T) -> bool)
    ensures
        stable_sort(s, before).to_multiset() == s.to_multiset(),
        stable_sort(s, before).len() == s.len(),
    decreases s.len(),
{
    if s.len() > 0 {
        lemma_stable_sort_permutes(s.drop_last(), before);
        lemma_insert_members(stable_sort(s.drop_last(), before), s.last(), before);
        vstd::seq_lib::to_multiset_build(s.drop_last(), s.last());
        assert(s.drop_last().push(s.last()) =~= s);
    }
}

/// The first of the least elements comes first, and the rest follow as they
/// would without it.
pub proof fn lemma_stable_sort_first<T>(s: Seq<T>, m: int, before: spec_fn(T, T) -> bool)
    requires
        0 <= m < s.len(),
        forall|j: int| 0 <= j < s.len() ==> !before(#[trigger] s[j], s[m]),
        forall|j: int| 0 <= j < m ==> before(s[m], #[trigger] s[j]),
    ensures
        stable_sort(s, before) == seq![s[m]] + stable_sort(s.remove(m), before),
    decreases s.len(),
{
    let t = s.drop_last();
    let y = s.last();
    if m < t.len() {
        assert forall|j: int| 0 <= j < t.len() implies !before(#[trigger] t[j], t[m]) by {
            assert(t[j] == s[j]);
        }
        assert forall|j: int| 0 <= j < m implies before(t[m], #[trigger] t[j]) by {
            assert(t[j] == s[j]);
        }
        lemma_stable_sort_first(t, m, before);
        assert(!before(s[s.len() - 1], s[m]));
        lemma_insert_behind_first(s[m], stable_sort(t.remove(m), before), y, before);
        assert(s.remove(m) =~= t.remove(m).push(y));
        lemma_stable_sort_push(t.remove(m), y, before);
    } else {
        assert(s.remove(m) =~= t);
        lemma_stable_sort_permutes(t, before);
        let u = stable_sort(t, before);
        assert forall|k: int| 0 <= k < u.len() implies before(y, #[trigger] u[k]) by {
            assert(u.contains(u[k]));
            crate::seqs::lemma_permuted_members(u, t, u[k]);
            let j = t.index_of(u[k]);
            assert(s[j] == u[k]);
        }
        lemma_insert_first(u, y, before);
    }
}

/// Inserting into a list in order keeps it in order.
proof fn lemma_insert_in_order<T>(s: Seq<T>, x: T, before: spec_fn(T, T) -> bool)
    requires
        weak_order(before),
        in_order(s, before),
    ensures
        in_order(stable_insert(s, x, before), before),
    decreases s.len(),
{
    let r = stable_insert(s, x, before);
    if s.len() > 0 && before(x, s.last()) {
        let t = s.drop_last();
        assert forall|i: int, j: int| 0 <= i < j < t.len() implies !before(
            #[trigger] t[j],
            #[trigger] t[i],
        ) by {
            assert(t[i] == s[i] && t[j] == s[j]);
        }
        lemma_insert_in_order(t, x, before);
        lemma_insert_members(t, x, before);
        let u = stable_insert(t, x, before);
        assert forall|i: int, j: int| 0 <= i < j < r.len() implies !before(
            #[trigger] r[j],
            #[trigger] r[i],
        ) by {
            if j < u.len() {
                assert(r[i] == u[i] && r[j] == u[j]);
            } else {
                assert(u.contains(u[i]));
                assert(u.to_multiset() == t.to_multiset().insert(x));
                vstd::seq_lib::to_multiset_build(t, x);
                crate::seqs::lemma_permuted_members(u, t.push(x), u[i]);
                crate::seqs::lemma_push_members(t, x, u[i]);
                if t.contains(u[i]) {
                    let k = t.index_of(u[i]);
                    assert(s[k] == u[i]);
                    assert(!before(s[s.len() - 1], s[k]));
                } else {
                    assert(!before(s.last(), x));
                }
            }
        }
    } else {
        assert forall|i: int, j: int| 0 <= i < j < r.len() implies !before(
            #[trigger] r[j],
            #[trigger] r[i],
        ) by {
            if j < s.len() {
                assert(r[i] == s[i] && r[j] == s[j]);
            } else if i < s.len() - 1 {
                if before(x, s[i]) {
                    assert(before(x, s.last()) || before(s.last(), s[i]));
                    assert(!before(s[s.len() - 1], s[i]));
                }
            }
        }
    }
}

/// Sorting puts a list in order.
pub proof fn lemma_stable_sort_in_order<T>(s: Seq<T>, before: spec_fn(T, T) -> bool)
    requires
        weak_order(before),
    ensures
        in_order(stable_sort(s, before), before),
    decreases s.len(),
{
    if s.len() > 0 {
        lemma_stable_sort_in_order(s.drop_last(), before);
        lemma_insert_in_order(stable_sort(s.drop_last(), before), s.last(), before);
    }
}

/// Sorting goes along with a function that keeps the order.
pub proof fn lemma_stable_sort_map<A, B>(
    s: Seq<A>,
    f: spec_fn(A) -> B,
    before_a: spec_fn(A, A) -> bool,
    before_b: spec_fn(B, B) -> bool,
)
    requires
        forall|i: int, j: int|
            0 <= i < s.len() && 0 <= j < s.len() ==> before_a(#[trigger] s[i], #[trigger] s[j])
                == before_b(f(s[i]), f(s[j])),
    ensures
        stable_sort(s, before_a).map_values(f) == stable_sort(s.map_values(f), before_b),
    decreases s.len(),
{
    if s.len() == 0 {
        assert(stable_sort(s, before_a).map_values(f) =~= s.map_values(f));
    } else {
        let t = s.drop_last();
        assert forall|i: int, j: int| 0 <= i < t.len() && 0 <= j < t.len() implies before_a(
            #[trigger] t[i],
            #[trigger] t[j],
        ) == before_b(f(t[i]), f(t[j])) by {
            assert(t[i] == s[i] && t[j] == s[j]);
        }
        lemma_stable_sort_map(t, f, before_a, before_b);
        assert(s.map_values(f).drop_last() =~= t.map_values(f));
        let u = stable_sort(t, before_a);
        lemma_stable_sort_permutes(t, before_a);
        assert forall|k: int| 0 <= k < u.len() implies before_a(s.last(), #[trigger] u[k])
            == before_b(f(s.last()), f(u[k])) by {
            assert(u.contains(u[k]));
            crate::seqs::lemma_permuted_members(u, t, u[k]);
            let j = t.index_of(u[k]);
            assert(s[j] == u[k]);
            assert(s[s.len() - 1] == s.last());
        }
        lemma_insert_map(u, s.last(), f, before_a, before_b);
    }
}

proof fn lemma_insert_map<A, B>(
    s: Seq<A>,
    x: A,
    f: spec_fn(A) -> B,
    before_a: spec_fn(A, A) -> bool,
    before_b: spec_fn(B, B) -> bool,
)
    requires
        forall|k: int|
            0 <= k < s.len() ==> before_a(x, #[trigger] s[k]) == before_b(f(x), f(s[k])),
    ensures
        stable_insert(s, x, before_a).map_values(f) == stable_insert(
            s.map_values(f),
            f(x),
            before_b,
        ),
    decreases s.len(),
{
    let fs = s.map_values(f);
    if s.len() > 0 && before_a(x, s.last()) {
        let t = s.drop_last();
        assert forall|k: int| 0 <= k < t.len() implies before_a(x, #[trigger] t[k]) == before_b(
            f(x),
            f(t[k]),
        ) by {
            assert(t[k] == s[k]);
        }
        lemma_insert_map(t, x, f, before_a, before_b);
        assert(s[s.len() - 1] == s.last());
        assert(fs.last() == f(s.last()));
        assert(fs.drop_last() =~= t.map_values(f));
        assert(stable_insert(t, x, before_a).push(s.last()).map_values(f) =~= stable_insert(
            t,
            x,
            before_a,
        ).map_values(f).push(f(s.last())));
    } else {
        if s.len() > 0 {
            assert(s[s.len() - 1] == s.last());
            assert(fs.last() == f(s.last()));
        }
        assert(s.push(x).map_values(f) =~= fs.push(f(x)));
    }
}

/// Putting an element in place leaves the elements that are as good as `y` in
/// their order, the new one behind them.
proof fn lemma_insert_behind_equals<T>(s: Seq<T>, x: T, y: T, before: spec_fn(T, T) -> bool)
    requires
        weak_order(before),
    ensures
        ({
            let same = |z: T| !before(y, z) && !before(z, y);
            stable_insert(s, x, before).filter(same) == if same(x) {
                s.filter(same).push(x)
            } else {
                s.filter(same)
            }
        }),
    decreases s.len(),
{
    let same = |z: T| !before(y, z) && !before(z, y);
    if s.len() > 0 && before(x, s.last()) {
        let t = s.drop_last();
        lemma_insert_behind_equals(t, x, y, before);
        lemma_filter_push(stable_insert(t, x, before), s.last(), same);
        lemma_filter_push(t, s.last(), same);
        assert(t.push(s.last()) =~= s);
        if same(x) {
            assert(before(x, y) || before(y, s.last()));
            assert(!same(s.last()));
        }
    } else {
        lemma_filter_push(s, x, same);
    }
}

/// Elements of which none comes before the other keep their order.
pub proof fn law_equals_keep_order<T>(s: Seq<T>, y: T, before: spec_fn(T, T) -> bool)
    requires
        weak_order(before),
    ensures
        ({
            let same = |z: T| !before(y, z) && !before(z, y);
            stable_sort(s, before).filter(same) == s.filter(same)
        }),
    decreases s.len(),
{
    let same = |z: T| !before(y, z) && !before(z, y);
    if s.len() > 0 {
        let t = s.drop_last();
        law_equals_keep_order(t, y, before);
        lemma_insert_behind_equals(stable_sort(t, before), s.last(), y, before);
        lemma_filter_push(t, s.last(), same);
        assert(t.push(s.last()) =~= s);
    } else {
        assert(stable_sort(s, before) =~= s);
    }
}

} // verus!
