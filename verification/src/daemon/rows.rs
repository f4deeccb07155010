//! Ordering the hits of several volumes.

use super::merge::{
    concat, key_before, kway_merge, law_merge_is_stable_sort, merged, reversed, run_views,
};
use crate::bytes::{
    append_bytes, compare_bytes, last_position, lemma_last_position, lemma_last_position_unique,
    lemma_lex_total, lemma_lex_transitive, lex_less, Relation,
};
use crate::fold::{fold, folded};
use crate::query::QueryHit;
use crate::stable::{in_order, lemma_stable_sort_map, stable_sort, weak_order};
use crate::types::{SortDir, SortKey, SortSpec};
use core::cmp::Ordering;
use vstd::prelude::*;
use vstd::slice::slice_subrange;

verus! {

/// A hit and the number of the volume it comes from.
pub struct VolHit {
    pub vol: usize,
    pub hit: QueryHit,
}

/// What comes behind the last separator of a path.
pub open spec fn last_component(path: Seq<u8>) -> Seq<u8> {
    match last_position(path, |b: u8| b == 0x5C) {
        Some(k) => path.skip(k + 1),
        None => path,
    }
}

/// The folded file name of a hit's path: what hits of all volumes are ordered
/// by in an order by name.
pub fn folded_name(path: &[u8]) -> (name: Vec<u8>)
    ensures
        name@ == folded(last_component(path@)),
{
    let ghost sep = |b: u8| b == 0x5C;
    let mut start: usize = path.len();
    while start > 0 && path[start - 1] != 0x5C
        invariant
            start <= path@.len(),
            sep == (|b: u8| b == 0x5C),
            forall|j: int| start <= j < path@.len() ==> !sep(#[trigger] path@[j]),
        decreases start,
    {
        start -= 1;
    }
    proof {
        if start > 0 {
            assert(sep(path@[start - 1]));
            lemma_last_position_unique(path@, sep, start - 1);
        } else {
            lemma_last_position(path@, sep);
            assert(path@.skip(0) =~= path@);
        }
        assert(path@.subrange(start as int, path@.len() as int) =~= path@.skip(start as int));
    }
    fold(slice_subrange(path, start, path.len()))
}

/// The folded full path of a hit.
fn full_folded(prefix: &[u8], path: &[u8]) -> (full: Vec<u8>)
    ensures
        full@ == folded(prefix@ + path@),
{
    let mut text: Vec<u8> = Vec::new();
    append_bytes(&mut text, prefix);
    append_bytes(&mut text, path);
    assert(text@ =~= prefix@ + path@);
    fold(text.as_slice())
}

/// The number that a hit is ordered by.
pub open spec fn hit_number(key: SortKey, h: VolHit) -> int {
    match key {
        SortKey::Size => match h.hit.size {
            Some(s) => s as int,
            None => 0,
        },
        SortKey::DateModified => match h.hit.mtime {
            Some(t) => t as int,
            None => i64::MIN as int,
        },
        _ => 0,
    }
}

/// The text that a hit is ordered by.
pub open spec fn hit_text(prefixes: Seq<Vec<u8>>, key: SortKey, h: VolHit) -> Seq<u8> {
    match key {
        SortKey::Name => folded(last_component(h.hit.path@)),
        SortKey::Path => folded(prefixes[h.vol as int]@ + h.hit.path@),
        _ => seq![],
    }
}

/// Smaller by number, then by text.
pub open spec fn smaller(n1: int, t1: Seq<u8>, n2: int, t2: Seq<u8>) -> bool {
    n1 < n2 || (n1 == n2 && lex_less(t1, t2))
}

/// `a` comes strictly before `b`; equals stay as they are.
pub open spec fn hit_before(prefixes: Seq<Vec<u8>>, sort: SortSpec) -> spec_fn(
    VolHit,
    VolHit,
) -> bool {
    |a: VolHit, b: VolHit|
        {
            let na = hit_number(sort.key, a);
            let nb = hit_number(sort.key, b);
            let ta = hit_text(prefixes, sort.key, a);
            let tb = hit_text(prefixes, sort.key, b);
            match sort.dir {
                SortDir::Asc => smaller(na, ta, nb, tb),
                SortDir::Desc => smaller(nb, tb, na, ta),
            }
        }
}

/// A hit with what it is ordered by.
struct Keyed {
    num: i128,
    text: Vec<u8>,
    row: VolHit,
}

/// `a` comes strictly before `b`.
spec fn keyed_before(desc: bool) -> spec_fn(Keyed, Keyed) -> bool {
    |a: Keyed, b: Keyed|
        if desc {
            smaller(b.num as int, b.text@, a.num as int, a.text@)
        } else {
            smaller(a.num as int, a.text@, b.num as int, b.text@)
        }
}

/// How two keyed hits stand.
fn cmp_keyed(a: &Keyed, b: &Keyed, desc: bool) -> (ord: Ordering)
    ensures
        match ord {
            Ordering::Less => keyed_before(desc)(*a, *b),
            Ordering::Equal => !keyed_before(desc)(*a, *b) && !keyed_before(desc)(*b, *a),
            Ordering::Greater => keyed_before(desc)(*b, *a),
        },
{
    let rel = if a.num < b.num {
        Relation::Less
    } else if a.num > b.num {
        Relation::Greater
    } else {
        compare_bytes(a.text.as_slice(), b.text.as_slice())
    };
    proof {
        lemma_lex_total(a.text@, b.text@);
    }
    match (desc, rel) {
        (_, Relation::Equal) => Ordering::Equal,
        (false, Relation::Less) => Ordering::Less,
        (false, Relation::Greater) => Ordering::Greater,
        (true, Relation::Less) => Ordering::Greater,
        (true, Relation::Greater) => Ordering::Less,
    }
}

/// Sorts with `slice::sort_by`, which is stable: equal elements keep their
/// order.
#[verifier::external_body]
fn sort_keyed(rows: &mut Vec<Keyed>, desc: bool)
    ensures
        final(rows)@ == stable_sort(old(rows)@, keyed_before(desc)),
{
    rows.sort_by(|a, b| cmp_keyed(a, b, desc));
}

/// A hit with what it is ordered by.
fn keyed_hit(prefixes: &Vec<Vec<u8>>, key: SortKey, row: VolHit) -> (k: Keyed)
    requires
        row.vol < prefixes@.len(),
    ensures
        k.row == row,
        k.num == hit_number(key, row),
        k.text@ == hit_text(prefixes@, key, row),
{
    match key {
        SortKey::Name => {
            let text = folded_name(row.hit.path.as_slice());
            Keyed { num: 0, text, row }
        },
        SortKey::Path => {
            let text = full_folded(prefixes[row.vol].as_slice(), row.hit.path.as_slice());
            Keyed { num: 0, text, row }
        },
        SortKey::Size => {
            let num: i128 = match row.hit.size {
                Some(s) => s as i128,
                None => 0,
            };
            Keyed { num, text: Vec::new(), row }
        },
        SortKey::DateModified => {
            let num: i128 = match row.hit.mtime {
                Some(t) => t as i128,
                None => i64::MIN as i128,
            };
            Keyed { num, text: Vec::new(), row }
        },
    }
}

/// Every hit's volume has a prefix.
pub open spec fn prefixed(prefixes: Seq<Vec<u8>>, hits: Seq<VolHit>) -> bool {
    forall|k: int| 0 <= k < hits.len() ==> (#[trigger] hits[k]).vol < prefixes.len()
}

/// Sorts hits of any volumes, equals left in their order. Each key is folded
/// once.
pub fn sort_collected(hits: Vec<VolHit>, prefixes: &Vec<Vec<u8>>, sort: SortSpec) -> (out: Vec<
    VolHit,
>)
    requires
        prefixed(prefixes@, hits@),
    ensures
        out@ == stable_sort(hits@, hit_before(prefixes@, sort)),
{
    let ghost before = hit_before(prefixes@, sort);
    let ghost row = |k: Keyed| k.row;
    let desc = match sort.dir {
        SortDir::Asc => false,
        SortDir::Desc => true,
    };
    let ghost whole = hits@;
    let mut stack = reversed(hits);
    let mut keyed: Vec<Keyed> = Vec::new();
    assert(stack@.reverse() =~= whole);
    assert(keyed@.map_values(row) + stack@.reverse() =~= whole);
    while stack.len() > 0
        invariant
            prefixed(prefixes@, whole),
            row == (|k: Keyed| k.row),
            keyed@.map_values(row) + stack@.reverse() == whole,
            forall|k: int|
                0 <= k < keyed@.len() ==> {
                    let e = #[trigger] keyed@[k];
                    e.num == hit_number(sort.key, e.row) && e.text@ == hit_text(
                        prefixes@,
                        sort.key,
                        e.row,
                    )
                },
        decreases stack@.len(),
    {
        let ghost had = keyed@;
        let ghost left = stack@;
        if let Some(h) = stack.pop() {
            proof {
                let n = had.map_values(row).len() as int;
                assert(left.reverse()[0] == h);
                assert((had.map_values(row) + left.reverse())[n] == h);
                assert(whole[n].vol < prefixes@.len());
            }
            keyed.push(keyed_hit(prefixes, sort.key, h));
            proof {
                assert(left.reverse() =~= seq![h] + stack@.reverse());
                assert(keyed@.map_values(row) =~= had.map_values(row).push(h));
                assert(keyed@.map_values(row) + stack@.reverse() =~= whole);
            }
        }
    }
    let ghost unsorted = keyed@;
    proof {
        assert(stack@.reverse() =~= Seq::<VolHit>::empty());
        assert(unsorted.map_values(row) =~= whole);
        lemma_stable_sort_map(unsorted, row, keyed_before(desc), before);
    }
    sort_keyed(&mut keyed, desc);
    let ghost sorted = keyed@;
    let mut stack = reversed(keyed);
    let mut out: Vec<VolHit> = Vec::new();
    assert(out@ + stack@.reverse().map_values(row) =~= sorted.map_values(row)) by {
        assert(stack@.reverse() =~= sorted);
    }
    while stack.len() > 0
        invariant
            row == (|k: Keyed| k.row),
            out@ + stack@.reverse().map_values(row) == sorted.map_values(row),
        decreases stack@.len(),
    {
        let ghost had = out@;
        let ghost left = stack@;
        if let Some(k) = stack.pop() {
            out.push(k.row);
            proof {
                assert(left.reverse() =~= seq![k] + stack@.reverse());
                assert(had + left.reverse().map_values(row) =~= out@
                    + stack@.reverse().map_values(row));
            }
        }
    }
    assert(out@ =~= sorted.map_values(row));
    out
}

/// The order of hits is a weak order.
pub proof fn lemma_hit_order(prefixes: Seq<Vec<u8>>, sort: SortSpec)
    ensures
        weak_order(hit_before(prefixes, sort)),
{
    let before = hit_before(prefixes, sort);
    let text = |h: VolHit| hit_text(prefixes, sort.key, h);
    assert forall|a: VolHit, b: VolHit| #[trigger] before(a, b) implies !before(b, a) by {
        lemma_lex_total(text(a), text(b));
    }
    assert forall|a: VolHit, b: VolHit, c: VolHit| #[trigger]
        before(a, b) && #[trigger] before(b, c) implies before(a, c) by {
        if lex_less(text(a), text(b)) && lex_less(text(b), text(c)) {
            lemma_lex_transitive(text(a), text(b), text(c));
        }
        if lex_less(text(c), text(b)) && lex_less(text(b), text(a)) {
            lemma_lex_transitive(text(c), text(b), text(a));
        }
    }
    assert forall|a: VolHit, b: VolHit, c: VolHit| #[trigger] before(a, c) implies before(a, b)
        || #[trigger] before(b, c) by {
        lemma_lex_total(text(a), text(b));
        lemma_lex_total(text(b), text(c));
        lemma_lex_total(text(a), text(c));
        if lex_less(text(c), text(b)) && lex_less(text(b), text(a)) {
            lemma_lex_transitive(text(c), text(b), text(a));
        }
        if lex_less(text(a), text(b)) && lex_less(text(b), text(c)) {
            lemma_lex_transitive(text(a), text(b), text(c));
        }
    }
}

/// A function applied to runs and to their concatenation.
pub proof fn lemma_concat_map<A, B>(runs: Seq<Seq<A>>, f: spec_fn(A) -> B)
    ensures
        concat(runs).map_values(f) == concat(runs.map_values(|r: Seq<A>| r.map_values(f))),
    decreases runs.len(),
{
    let g = |r: Seq<A>| r.map_values(f);
    if runs.len() == 0 {
        assert(concat(runs).map_values(f) =~= Seq::<B>::empty());
    } else {
        lemma_concat_map(runs.drop_last(), f);
        assert(runs.map_values(g).drop_last() =~= runs.drop_last().map_values(g));
        assert(concat(runs).map_values(f) =~= concat(runs.drop_last()).map_values(f)
            + runs.last().map_values(f));
    }
}

/// The run with each hit's name key beside it.
fn key_run(run: Vec<VolHit>) -> (keyed: Vec<(Vec<u8>, VolHit)>)
    ensures
        keyed@.len() == run@.len(),
        forall|k: int|
            0 <= k < run@.len() ==> (#[trigger] keyed@[k]).1 == run@[k] && keyed@[k].0@ == folded(
                last_component(run@[k].hit.path@),
            ),
{
    let ghost whole = run@;
    let mut stack = reversed(run);
    let mut keyed: Vec<(Vec<u8>, VolHit)> = Vec::new();
    assert(stack@.reverse() =~= whole.skip(0));
    while stack.len() > 0
        invariant
            keyed@.len() <= whole.len(),
            stack@.reverse() == whole.skip(keyed@.len() as int),
            forall|k: int|
                0 <= k < keyed@.len() ==> (#[trigger] keyed@[k]).1 == whole[k] && keyed@[k].0@
                    == folded(last_component(whole[k].hit.path@)),
        decreases stack@.len(),
    {
        let ghost left = stack@;
        let ghost n = keyed@.len() as int;
        if let Some(h) = stack.pop() {
            proof {
                assert(left.reverse()[0] == h);
                assert(whole.skip(n)[0] == h);
                assert(stack@.reverse() =~= left.reverse().drop_first());
                assert(whole.skip(n).drop_first() =~= whole.skip(n + 1));
            }
            let key = folded_name(h.hit.path.as_slice());
            keyed.push((key, h));
        }
    }
    proof {
        assert(stack@.reverse().len() == 0);
        assert(whole.skip(keyed@.len() as int).len() == 0);
    }
    keyed
}

/// Merges sorted runs into one list.
///
/// One run is taken as it is. In an order by name the runs are merged: the
/// folded file name does not depend on the volume, so each run is in that order
/// already. Any other order is made by sorting what all runs hold.
pub fn order_merged(runs: Vec<Vec<VolHit>>, prefixes: &Vec<Vec<u8>>, sort: SortSpec) -> (out: Vec<
    VolHit,
>)
    requires
        forall|r: int| 0 <= r < runs@.len() ==> prefixed(prefixes@, (#[trigger] runs@[r])@),
        runs@.len() > 1 && sort.key is Name ==> forall|r: int|
            0 <= r < runs@.len() ==> in_order(
                (#[trigger] runs@[r])@,
                hit_before(prefixes@, sort),
            ),
    ensures
        runs@.len() == 0 ==> out@ == Seq::<VolHit>::empty(),
        runs@.len() == 1 ==> out@ == runs@[0]@,
        runs@.len() > 1 ==> out@ == stable_sort(
            concat(run_views(runs@)),
            hit_before(prefixes@, sort),
        ),
{
    let mut runs = runs;
    if runs.len() <= 1 {
        return match runs.pop() {
            Some(run) => run,
            None => Vec::new(),
        };
    }
    let ghost whole = runs@;
    let ghost views = run_views(whole);
    let ghost before = hit_before(prefixes@, sort);
    match sort.key {
        SortKey::Name => {},
        _ => {
            let mut all: Vec<VolHit> = Vec::new();
            let mut left = reversed(runs);
            assert(left@.reverse() =~= whole);
            let ghost mut n: int = 0;
            assert(views.take(0) =~= Seq::<Seq<VolHit>>::empty());
            while left.len() > 0
                invariant
                    0 <= n <= whole.len(),
                    left@.reverse() == whole.skip(n),
                    views == run_views(whole),
                    all@ == concat(views.take(n)),
                    forall|r: int|
                        0 <= r < whole.len() ==> prefixed(prefixes@, (#[trigger] whole[r])@),
                    prefixed(prefixes@, all@),
                decreases left@.len(),
            {
                let ghost was = left@;
                let ghost had = all@;
                if let Some(run) = left.pop() {
                    let mut run = run;
                    proof {
                        assert(was.reverse()[0] == run);
                        assert(whole.skip(n)[0] == run);
                        assert(whole.skip(n).len() == was.len());
                        assert(whole[n] == run);
                        assert(prefixed(prefixes@, whole[n]@));
                        assert(left@.reverse() =~= was.reverse().drop_first());
                        assert(whole.skip(n).drop_first() =~= whole.skip(n + 1));
                        assert(views.take(n + 1).drop_last() =~= views.take(n));
                        assert(views[n] == run@);
                    }
                    let ghost rows = run@;
                    all.append(&mut run);
                    proof {
                        assert(all@ =~= had + rows);
                        assert(all@ =~= concat(views.take(n + 1)));
                        n = n + 1;
                    }
                }
            }
            proof {
                assert(whole.skip(n).len() == 0);
                assert(views.take(n) =~= views);
            }
            return sort_collected(all, prefixes, sort);
        },
    }
    let desc = match sort.dir {
        SortDir::Asc => false,
        SortDir::Desc => true,
    };
    let mut left = reversed(runs);
    assert(left@.reverse() =~= whole.skip(0));
    let mut keyed: Vec<Vec<(Vec<u8>, VolHit)>> = Vec::new();
    while left.len() > 0
        invariant
            keyed@.len() <= whole.len(),
            left@.reverse() == whole.skip(keyed@.len() as int),
            forall|r: int|
                0 <= r < keyed@.len() ==> (#[trigger] keyed@[r])@.len() == whole[r]@.len(),
            forall|r: int, k: int|
                0 <= r < keyed@.len() && 0 <= k < keyed@[r]@.len() ==> {
                    &&& (#[trigger] keyed@[r]@[k]).1 == whole[r]@[k]
                    &&& keyed@[r]@[k].0@ == folded(last_component(whole[r]@[k].hit.path@))
                },
        decreases left@.len(),
    {
        let ghost was = left@;
        let ghost n = keyed@.len() as int;
        if let Some(run) = left.pop() {
            proof {
                assert(was.reverse()[0] == run);
                assert(whole.skip(n)[0] == run);
                assert(left@.reverse() =~= was.reverse().drop_first());
                assert(whole.skip(n).drop_first() =~= whole.skip(n + 1));
            }
            keyed.push(key_run(run));
        }
    }
    proof {
        assert(whole.skip(keyed@.len() as int).len() == 0);
        assert(keyed@.len() == whole.len());
        lemma_keyed_runs(run_views(keyed@), views, prefixes@, sort, desc);
    }
    kway_merge(keyed, desc)
}

/// Merging keyed runs sorts the hits.
proof fn lemma_keyed_runs(
    keyed: Seq<Seq<(Vec<u8>, VolHit)>>,
    views: Seq<Seq<VolHit>>,
    prefixes: Seq<Vec<u8>>,
    sort: SortSpec,
    desc: bool,
)
    requires
        sort.key is Name,
        desc == (sort.dir is Desc),
        keyed.len() == views.len(),
        forall|r: int| 0 <= r < keyed.len() ==> (#[trigger] keyed[r]).len() == views[r].len(),
        forall|r: int, k: int|
            0 <= r < keyed.len() && 0 <= k < keyed[r].len() ==> {
                &&& (#[trigger] keyed[r][k]).1 == views[r][k]
                &&& keyed[r][k].0@ == folded(last_component(views[r][k].hit.path@))
            },
        forall|r: int|
            0 <= r < views.len() ==> in_order(#[trigger] views[r], hit_before(prefixes, sort)),
    ensures
        merged(keyed, desc).map_values(|e: (Vec<u8>, VolHit)| e.1) == stable_sort(
            concat(views),
            hit_before(prefixes, sort),
        ),
{
    let item = |e: (Vec<u8>, VolHit)| e.1;
    let before = hit_before(prefixes, sort);
    let by_key = key_before::<VolHit>(desc);
    assert forall|r: int| 0 <= r < keyed.len() implies in_order(#[trigger] keyed[r], by_key) by {
        assert(in_order(views[r], before));
        assert forall|i: int, j: int| 0 <= i < j < keyed[r].len() implies !by_key(
            #[trigger] keyed[r][j],
            #[trigger] keyed[r][i],
        ) by {
            assert(keyed[r][i].1 == views[r][i]);
            assert(keyed[r][j].1 == views[r][j]);
            assert(!before(views[r][j], views[r][i]));
        }
    }
    law_merge_is_stable_sort(keyed, desc);
    let all = concat(keyed);
    assert forall|i: int| 0 <= i < all.len() implies (#[trigger] all[i]).0@ == folded(
        last_component(all[i].1.hit.path@),
    ) by {
        let at = super::merge::lemma_concat_index(keyed, i);
        assert(keyed[at.0][at.1].1 == views[at.0][at.1]);
    }
    lemma_stable_sort_map(all, item, by_key, before);
    lemma_concat_map(keyed, item);
    assert(keyed.map_values(|r: Seq<(Vec<u8>, VolHit)>| r.map_values(item)) =~= views) by {
        assert forall|r: int| 0 <= r < views.len() implies keyed[r].map_values(item)
            == #[trigger] views[r] by {
            assert forall|k: int| 0 <= k < views[r].len() implies keyed[r].map_values(item)[k]
                == views[r][k] by {
                assert(keyed[r][k].1 == views[r][k]);
            }
            assert(keyed[r].map_values(item) =~= views[r]);
        }
    }
}

} // verus!
