//! Merging runs that are sorted already.

use crate::bytes::{compare_bytes, lemma_lex_total, lemma_lex_transitive, lex_less, Relation};
use crate::stable::{in_order, lemma_stable_sort_first, stable_sort, weak_order};
use vstd::prelude::*;

verus! {

/// `a` comes strictly before `b`, by key.
pub open spec fn key_before<T>(desc: bool) -> spec_fn((Vec<u8>, T), (Vec<u8>, T)) -> bool {
    |a: (Vec<u8>, T), b: (Vec<u8>, T)|
        if desc {
            lex_less(b.0@, a.0@)
        } else {
            lex_less(a.0@, b.0@)
        }
}

/// The run whose head comes next: the earliest of those whose head nothing
/// comes before.
pub open spec fn next_run<T>(runs: Seq<Seq<(Vec<u8>, T)>>, desc: bool) -> Option<int>
    decreases runs.len(),
{
    if runs.len() == 0 {
        None
    } else {
        let best = next_run(runs.drop_last(), desc);
        let last = runs.last();
        if last.len() == 0 {
            best
        } else if best is None || key_before(desc)(last[0], runs[best->0][0]) {
            Some(runs.len() - 1)
        } else {
            best
        }
    }
}

/// How many elements the runs hold together.
pub open spec fn run_total<T>(runs: Seq<Seq<T>>) -> nat
    decreases runs.len(),
{
    if runs.len() == 0 {
        0
    } else {
        run_total(runs.drop_last()) + runs.last().len()
    }
}

/// The runs one behind the other.
pub open spec fn concat<T>(runs: Seq<Seq<T>>) -> Seq<T>
    decreases runs.len(),
{
    if runs.len() == 0 {
        seq![]
    } else {
        concat(runs.drop_last()) + runs.last()
    }
}

/// The runs with the head of one taken off.
pub open spec fn behead<T>(runs: Seq<Seq<T>>, k: int) -> Seq<Seq<T>> {
    runs.update(k, runs[k].drop_first())
}

/// The runs merged: the next head, again and again.
pub open spec fn merged<T>(runs: Seq<Seq<(Vec<u8>, T)>>, desc: bool) -> Seq<(Vec<u8>, T)>
    decreases run_total(runs),
{
    match next_run(runs, desc) {
        None => seq![],
        Some(k) => {
            proof {
                lemma_next_run(runs, desc);
                lemma_behead_total(runs, k);
            }
            seq![runs[k][0]] + merged(behead(runs, k), desc)
        },
    }
}

/// Taking a head off leaves one element less.
pub proof fn lemma_behead_total<T>(runs: Seq<Seq<T>>, k: int)
    requires
        0 <= k < runs.len(),
        runs[k].len() > 0,
    ensures
        run_total(behead(runs, k)) + 1 == run_total(runs),
    decreases runs.len(),
{
    let b = behead(runs, k);
    if k == runs.len() - 1 {
        assert(b.drop_last() =~= runs.drop_last());
    } else {
        lemma_behead_total(runs.drop_last(), k);
        assert(b.drop_last() =~= behead(runs.drop_last(), k));
        assert(b.last() == runs.last());
    }
}

/// What the next run is: nothing heads a run that comes before its head, and
/// every head of an earlier run comes after it.
pub proof fn lemma_next_run<T>(runs: Seq<Seq<(Vec<u8>, T)>>, desc: bool)
    ensures
        match next_run(runs, desc) {
            None => forall|r: int| 0 <= r < runs.len() ==> (#[trigger] runs[r]).len() == 0,
            Some(k) => {
                &&& 0 <= k < runs.len()
                &&& runs[k].len() > 0
                &&& forall|r: int|
                    0 <= r < runs.len() && (#[trigger] runs[r]).len() > 0 ==> !key_before(desc)(
                        runs[r][0],
                        runs[k][0],
                    )
                &&& forall|r: int|
                    0 <= r < k && (#[trigger] runs[r]).len() > 0 ==> key_before(desc)(
                        runs[k][0],
                        runs[r][0],
                    )
            },
        },
    decreases runs.len(),
{
    if runs.len() > 0 {
        let init = runs.drop_last();
        lemma_next_run(init, desc);
        lemma_key_order::<T>(desc);
        let before = key_before::<T>(desc);
        assert forall|r: int| 0 <= r < init.len() implies init[r] == runs[r] by {}
        match next_run(runs, desc) {
            None => {
                assert forall|r: int| 0 <= r < runs.len() implies (#[trigger] runs[r]).len() == 0 by {
                    if r < init.len() {
                        assert(init[r].len() == 0);
                    }
                }
            },
            Some(k) => {
                assert forall|r: int| 0 <= r < runs.len() && (#[trigger] runs[r]).len() > 0 implies {
                    &&& !before(runs[r][0], runs[k][0])
                    &&& r < k ==> before(runs[k][0], runs[r][0])
                } by {
                    if r < init.len() {
                        assert(init[r] == runs[r]);
                        assert(init[r].len() > 0);
                        if k == init.len() {
                            let b = next_run(init, desc)->0;
                            assert(before(runs[k][0], runs[b][0]));
                            assert(!before(init[r][0], init[b][0]));
                            assert(before(runs[k][0], runs[r][0]) || before(
                                runs[r][0],
                                runs[b][0],
                            ));
                        }
                    }
                }
            },
        }
    }
}

/// The order by key is a weak order.
proof fn lemma_key_order<T>(desc: bool)
    ensures
        weak_order(key_before::<T>(desc)),
{
    let before = key_before::<T>(desc);
    assert forall|a: (Vec<u8>, T), b: (Vec<u8>, T)| #[trigger] before(a, b) implies !before(
        b,
        a,
    ) by {
        lemma_lex_total(a.0@, b.0@);
    }
    assert forall|a: (Vec<u8>, T), b: (Vec<u8>, T), c: (Vec<u8>, T)| #[trigger]
        before(a, b) && #[trigger] before(b, c) implies before(a, c) by {
        if desc {
            lemma_lex_transitive(c.0@, b.0@, a.0@);
        } else {
            lemma_lex_transitive(a.0@, b.0@, c.0@);
        }
    }
    assert forall|a: (Vec<u8>, T), b: (Vec<u8>, T), c: (Vec<u8>, T)| #[trigger]
        before(a, c) implies before(a, b) || #[trigger] before(b, c) by {
        lemma_lex_total(a.0@, b.0@);
        lemma_lex_total(b.0@, c.0@);
        if !before(a, b) && !before(b, c) {
            if a.0@ != b.0@ && b.0@ != c.0@ {
                if desc {
                    lemma_lex_transitive(a.0@, b.0@, c.0@);
                } else {
                    lemma_lex_transitive(c.0@, b.0@, a.0@);
                }
            }
            lemma_lex_total(a.0@, c.0@);
        }
    }
}

/// Where the elements of the first `k` runs end in the concatenation.
pub open spec fn offset<T>(runs: Seq<Seq<T>>, k: int) -> int {
    concat(runs.take(k)).len() as int
}

/// Every element of a concatenation comes from a run.
pub proof fn lemma_concat_index<T>(runs: Seq<Seq<T>>, p: int) -> (at: (int, int))
    requires
        0 <= p < concat(runs).len(),
    ensures
        0 <= at.0 < runs.len(),
        0 <= at.1 < runs[at.0].len(),
        p == offset(runs, at.0) + at.1,
        concat(runs)[p] == runs[at.0][at.1],
    decreases runs.len(),
{
    let init = runs.drop_last();
    let n = concat(init).len() as int;
    assert(runs.take(runs.len() - 1) =~= init);
    if p < n {
        let at = lemma_concat_index(init, p);
        assert(init.take(at.0) =~= runs.take(at.0));
        at
    } else {
        (runs.len() - 1, p - n)
    }
}

/// Where an element of a run stands in the concatenation.
pub proof fn lemma_concat_at<T>(runs: Seq<Seq<T>>, k: int, j: int)
    requires
        0 <= k < runs.len(),
        0 <= j < runs[k].len(),
    ensures
        0 <= offset(runs, k) + j < concat(runs).len(),
        concat(runs)[offset(runs, k) + j] == runs[k][j],
    decreases runs.len(),
{
    let init = runs.drop_last();
    if k < runs.len() - 1 {
        lemma_concat_at(init, k, j);
        assert(init.take(k) =~= runs.take(k));
    } else {
        assert(runs.take(k) =~= init);
    }
}

/// Later runs start later.
pub proof fn lemma_offset_ascends<T>(runs: Seq<Seq<T>>, i: int, j: int)
    requires
        0 <= i < j <= runs.len(),
    ensures
        offset(runs, i) + runs[i].len() <= offset(runs, j),
    decreases j - i,
{
    assert(runs.take(j).drop_last() =~= runs.take(j - 1));
    assert(runs.take(j).last() == runs[j - 1]);
    if i < j - 1 {
        lemma_offset_ascends(runs, i, j - 1);
    }
}

/// Taking a head off takes it out of the concatenation.
proof fn lemma_behead_concat<T>(runs: Seq<Seq<T>>, k: int)
    requires
        0 <= k < runs.len(),
        runs[k].len() > 0,
    ensures
        offset(runs, k) < concat(runs).len(),
        concat(runs)[offset(runs, k)] == runs[k][0],
        concat(behead(runs, k)) == concat(runs).remove(offset(runs, k)),
    decreases runs.len(),
{
    let b = behead(runs, k);
    let init = runs.drop_last();
    if k == runs.len() - 1 {
        assert(b.drop_last() =~= init);
        assert(runs.take(k) =~= init);
        assert(concat(b) =~= concat(runs).remove(offset(runs, k)));
    } else {
        lemma_behead_concat(init, k);
        assert(b.drop_last() =~= behead(init, k));
        assert(init.take(k) =~= runs.take(k));
        assert(concat(b) =~= concat(runs).remove(offset(runs, k)));
    }
}

/// Merging runs that are in order sorts their concatenation, and keeps equal
/// keys in their order: those of an earlier run first, and within a run as they
/// stand.
pub proof fn law_merge_is_stable_sort<T>(runs: Seq<Seq<(Vec<u8>, T)>>, desc: bool)
    requires
        forall|r: int| 0 <= r < runs.len() ==> in_order(#[trigger] runs[r], key_before::<T>(desc)),
    ensures
        merged(runs, desc) == stable_sort(concat(runs), key_before::<T>(desc)),
    decreases run_total(runs),
{
    let before = key_before::<T>(desc);
    let c = concat(runs);
    lemma_next_run(runs, desc);
    lemma_key_order::<T>(desc);
    match next_run(runs, desc) {
        None => {
            if c.len() > 0 {
                let at = lemma_concat_index(runs, 0);
                assert(runs[at.0].len() == 0);
            }
            assert(merged(runs, desc) =~= c);
        },
        Some(k) => {
            let m = offset(runs, k);
            let x = runs[k][0];
            lemma_behead_concat(runs, k);
            lemma_behead_total(runs, k);
            assert forall|j: int| 0 <= j < c.len() implies {
                &&& !before(#[trigger] c[j], c[m])
                &&& j < m ==> before(c[m], c[j])
            } by {
                let at = lemma_concat_index(runs, j);
                let r = at.0;
                assert(in_order(runs[r], before));
                assert(runs[r].len() > 0);
                let head = runs[r][0];
                assert(!before(head, x));
                if at.1 > 0 {
                    assert(!before(runs[r][at.1], runs[r][0]));
                }
                if before(c[j], x) {
                    assert(before(c[j], head) || before(head, x));
                }
                if j < m {
                    if r >= k {
                        if r > k {
                            lemma_offset_ascends(runs, k, r);
                        }
                    } else {
                        assert(before(x, head));
                        assert(before(x, c[j]) || before(c[j], head));
                    }
                }
            }
            lemma_stable_sort_first(c, m, before);
            let b = behead(runs, k);
            assert forall|r: int| 0 <= r < b.len() implies in_order(#[trigger] b[r], before) by {
                assert(in_order(runs[r], before));
                if r == k {
                    assert forall|i: int, j: int| 0 <= i < j < b[r].len() implies !before(
                        #[trigger] b[r][j],
                        #[trigger] b[r][i],
                    ) by {
                        assert(b[r][i] == runs[r][i + 1] && b[r][j] == runs[r][j + 1]);
                    }
                }
            }
            law_merge_is_stable_sort(b, desc);
        },
    }
}

/// The contents of a list of runs.
pub open spec fn run_views<E>(runs: Seq<Vec<E>>) -> Seq<Seq<E>> {
    runs.map_values(|r: Vec<E>| r@)
}

/// The runs that stacks stand for, their tops the heads.
spec fn from_stacks<E>(stacks: Seq<Vec<E>>) -> Seq<Seq<E>> {
    stacks.map_values(|s: Vec<E>| s@.reverse())
}

/// The list the other way round.
pub(crate) fn reversed<E>(list: Vec<E>) -> (out: Vec<E>)
    ensures
        out@ == list@.reverse(),
{
    let mut list = list;
    let mut out: Vec<E> = Vec::new();
    let ghost whole = list@;
    while list.len() > 0
        invariant
            list@ == whole.take(list@.len() as int),
            list@.len() <= whole.len(),
            out@ == whole.skip(list@.len() as int).reverse(),
        decreases list@.len(),
    {
        let ghost n = list@.len();
        if let Some(e) = list.pop() {
            out.push(e);
            assert(whole.skip(n - 1) =~= seq![whole[n - 1]] + whole.skip(n as int));
            assert(out@ =~= whole.skip(n - 1).reverse());
            assert(list@ =~= whole.take(n - 1));
        }
    }
    assert(whole.skip(0) =~= whole);
    out
}

/// The stack whose top comes next.
fn find_next<T>(stacks: &Vec<Vec<(Vec<u8>, T)>>, desc: bool) -> (best: Option<usize>)
    ensures
        match best {
            Some(k) => next_run(from_stacks(stacks@), desc) == Some(k as int),
            None => next_run(from_stacks(stacks@), desc) is None,
        },
{
    let ghost runs = from_stacks(stacks@);
    let mut best: Option<usize> = None;
    let mut r: usize = 0;
    assert(runs.take(0) =~= Seq::<Seq<(Vec<u8>, T)>>::empty());
    while r < stacks.len()
        invariant
            r <= stacks@.len(),
            runs == from_stacks(stacks@),
            match best {
                Some(k) => k < r && next_run(runs.take(r as int), desc) == Some(k as int)
                    && stacks@[k as int]@.len() > 0,
                None => next_run(runs.take(r as int), desc) is None,
            },
        decreases stacks@.len() - r,
    {
        proof {
            assert(runs.take(r + 1).drop_last() =~= runs.take(r as int));
            assert(runs.take(r + 1).last() == runs[r as int]);
            assert(runs[r as int].len() == stacks@[r as int]@.len());
        }
        let n = stacks[r].len();
        if n > 0 {
            assert(runs[r as int][0] == stacks@[r as int]@[n - 1]);
            match best {
                None => {
                    best = Some(r);
                },
                Some(k) => {
                    let m = stacks[k].len();
                    assert(runs.take(r + 1)[k as int][0] == stacks@[k as int]@[m - 1]);
                    let rel = compare_bytes(
                        stacks[r][n - 1].0.as_slice(),
                        stacks[k][m - 1].0.as_slice(),
                    );
                    proof {
                        lemma_lex_total(
                            stacks@[r as int]@[n - 1].0@,
                            stacks@[k as int]@[m - 1].0@,
                        );
                    }
                    let take = match rel {
                        Relation::Less => !desc,
                        Relation::Equal => false,
                        Relation::Greater => desc,
                    };
                    if take {
                        best = Some(r);
                    }
                },
            }
        }
        r += 1;
    }
    assert(runs.take(r as int) =~= runs);
    best
}

/// Merges sorted runs of keyed items, ascending or, with `desc`, descending. Of
/// equal keys those of the earliest run come first. There are few runs, so the
/// heads are simply looked through.
pub fn kway_merge<T>(runs: Vec<Vec<(Vec<u8>, T)>>, desc: bool) -> (out: Vec<T>)
    ensures
        out@ == merged(run_views(runs@), desc).map_values(|e: (Vec<u8>, T)| e.1),
{
    let ghost whole = run_views(runs@);
    let ghost item = |e: (Vec<u8>, T)| e.1;
    let mut runs = runs;
    let mut stacks: Vec<Vec<(Vec<u8>, T)>> = Vec::new();
    assert(from_stacks(stacks@) + run_views(runs@) =~= whole);
    while runs.len() > 0
        invariant
            from_stacks(stacks@) + run_views(runs@) == whole,
        decreases runs@.len(),
    {
        let ghost left = runs@;
        let ghost was = stacks@;
        let run = runs.remove(0);
        stacks.push(reversed(run));
        proof {
            assert(run@.reverse().reverse() =~= run@);
            assert(from_stacks(stacks@) =~= from_stacks(was).push(run@));
            assert(run_views(left) =~= seq![run@] + run_views(runs@));
            assert(from_stacks(stacks@) + run_views(runs@) =~= whole);
        }
    }
    assert(from_stacks(stacks@) =~= whole);
    let mut out: Vec<T> = Vec::new();
    assert(out@ + merged(whole, desc).map_values(item) =~= merged(whole, desc).map_values(item));
    loop
        invariant
            item == (|e: (Vec<u8>, T)| e.1),
            out@ + merged(from_stacks(stacks@), desc).map_values(item) == merged(
                whole,
                desc,
            ).map_values(item),
        ensures
            out@ == merged(whole, desc).map_values(item),
        decreases run_total(from_stacks(stacks@)),
    {
        let ghost rs = from_stacks(stacks@);
        proof {
            lemma_next_run(rs, desc);
        }
        match find_next(&stacks, desc) {
            None => {
                proof {
                    assert(merged(rs, desc).map_values(item) =~= Seq::<T>::empty());
                    assert(out@ + Seq::<T>::empty() =~= out@);
                }
                break ;
            },
            Some(k) => {
                let ghost was = stacks@;
                let ghost had = out@;
                proof {
                    lemma_behead_total(rs, k as int);
                    assert(rs[k as int] == was[k as int]@.reverse());
                }
                if let Some(e) = stacks[k].pop() {
                    out.push(e.1);
                    proof {
                        assert(rs[k as int][0] == e);
                        assert(was[k as int]@.drop_last().reverse() =~= rs[k as int].drop_first());
                        assert(from_stacks(stacks@) =~= behead(rs, k as int));
                        assert(merged(rs, desc) == seq![e] + merged(behead(rs, k as int), desc));
                        assert(had + merged(rs, desc).map_values(item) =~= out@ + merged(
                            from_stacks(stacks@),
                            desc,
                        ).map_values(item));
                    }
                }
            },
        }
    }
    out
}

} // verus!
