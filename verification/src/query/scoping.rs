//! What holds of the folder that a scope's path leads to.

use super::engine::{components, descend, scope_target, subdirectory};
use super::laws::lemma_live_slots;
use crate::fold::folded;
use crate::index::model::{
    indexable, is_separator, join_path, lemma_path_of_child, IndexView, LOST_FOUND, ROOT, SEPARATOR,
};
use crate::index::update::lemma_first_where;
use crate::pieces::{law_cut_apart, law_whole_piece, Cut};
use crate::types::{EntryIdx, NIL};
use vstd::prelude::*;

verus! {

/// The names are the same, or, where the case does not count, fold alike.
pub open spec fn same_name(a: Seq<u8>, b: Seq<u8>, match_case: bool) -> bool {
    if match_case {
        a == b
    } else {
        folded(a) == folded(b)
    }
}

/// The lists hold the same names, one for one.
pub open spec fn same_names(a: Seq<Seq<u8>>, b: Seq<Seq<u8>>, match_case: bool) -> bool {
    &&& a.len() == b.len()
    &&& forall|k: int| 0 <= k < a.len() ==> same_name(#[trigger] a[k], b[k], match_case)
}

/// `a` is a folder with a name, and the only one in its folder with such a name.
pub open spec fn stands_alone(v: IndexView, a: EntryIdx, match_case: bool) -> bool {
    &&& v.entry(a).is_dir
    &&& v.name(a).len() > 0
    &&& forall|j: EntryIdx|
        #[trigger] v.live(j) && v.entry(j).is_dir && v.entry(j).parent == v.entry(a).parent
            && same_name(v.name(j), v.name(a), match_case) ==> j == a
}

/// The folder `d` and those it lies in can be told from their neighbours.
pub open spec fn well_placed(v: IndexView, d: EntryIdx, match_case: bool) -> bool {
    forall|a: EntryIdx|
        a != ROOT && (a == d || v.descends(d, a)) ==> #[trigger] stands_alone(v, a, match_case)
}

/// The components of a path are those of its folder, and its name.
proof fn lemma_components_join(dir: Seq<u8>, name: Seq<u8>)
    requires
        name.len() > 0,
        forall|k: int| 0 <= k < name.len() ==> !is_separator(#[trigger] name[k]),
    ensures
        components(join_path(dir, name)) == components(dir).push(name),
{
    assert forall|k: int| 0 <= k < name.len() implies !Cut::Separators.at(#[trigger] name[k]) by {
        assert(!is_separator(name[k]));
    }
    law_whole_piece(Cut::Separators, name);
    if dir.len() == 0 {
        law_whole_piece(Cut::Separators, dir);
        assert(components(dir).push(name) =~= seq![name]);
    } else {
        law_cut_apart(Cut::Separators, dir, SEPARATOR, name);
        assert(components(dir) + seq![name] =~= components(dir).push(name));
    }
}

/// The last step of a descent comes last.
proof fn lemma_descend_last(
    v: IndexView,
    dir: EntryIdx,
    comps: Seq<Seq<u8>>,
    match_case: bool,
)
    requires
        comps.len() > 0,
    ensures
        descend(v, dir, comps, match_case) == match descend(
            v,
            dir,
            comps.drop_last(),
            match_case,
        ) {
            Some(e) => subdirectory(v, e, comps.last(), match_case),
            None => None,
        },
    decreases comps.len(),
{
    if comps.len() == 1 {
        assert(comps.drop_first().len() == 0);
        assert(comps.drop_last().len() == 0);
        match subdirectory(v, dir, comps[0], match_case) {
            Some(next) => {
                assert(descend(v, next, comps.drop_first(), match_case) == Some(next));
            },
            None => {},
        }
        assert(descend(v, dir, comps.drop_last(), match_case) == Some(dir));
    } else {
        let init = comps.drop_last();
        assert(init[0] == comps[0]);
        assert(comps.drop_first().drop_last() =~= init.drop_first());
        assert(comps.drop_first().last() == comps.last());
        match subdirectory(v, dir, comps[0], match_case) {
            Some(next) => {
                lemma_descend_last(v, next, comps.drop_first(), match_case);
            },
            None => {},
        }
    }
}

/// A folder that can be told from its neighbours is found under its name.
proof fn lemma_step_finds(v: IndexView, d: EntryIdx, name: Seq<u8>, match_case: bool)
    requires
        v.wf(),
        v.live(d),
        LOST_FOUND < d,
        !v.entry(d).synthetic,
        stands_alone(v, d, match_case),
        same_name(name, v.name(d), match_case),
    ensures
        subdirectory(v, v.entry(d).parent, name, match_case) == Some(d),
{
    let dir = v.entry(d).parent;
    assert(v.has_parent(d));
    if match_case {
        let p = |i: EntryIdx|
            !v.entry(i).synthetic && v.entry(i).is_dir && v.entry(i).parent == dir && v.name(i)
                == name;
        lemma_first_where(v.live_slots(), p);
        lemma_live_slots(v);
        assert(v.live_slots().contains(d));
        assert(p(d));
    } else {
        let p = |i: EntryIdx| v.entry(i).is_dir && v.folded_name(i) == folded(name);
        lemma_first_where(v.children[dir as int], p);
        assert(v.children[dir as int].contains(d));
        assert(p(d));
        let found = subdirectory(v, dir, name, match_case)->0;
        assert(v.children[dir as int].contains(found));
    }
}

/// What lies under a folder lies under the folders that it lies in.
pub proof fn law_under_carries_on(v: IndexView, i: EntryIdx, j: EntryIdx, r: EntryIdx)
    requires
        v.descends(i, j),
        v.descends(j, r),
    ensures
        v.descends(i, r),
    decreases v.rank[i as int],
{
    let p = v.entry(i).parent;
    if p != j {
        law_under_carries_on(v, p, j, r);
    }
}

/// What stands in a folder lies under it, and an entry lies under a folder only
/// where it stands in it or in one that lies under it.
pub proof fn law_directly_under(v: IndexView, i: EntryIdx, r: EntryIdx)
    requires
        v.wf(),
        v.live(i),
        LOST_FOUND < i,
    ensures
        v.descends(i, v.entry(i).parent),
        v.descends(i, r) <==> v.entry(i).parent == r || v.descends(v.entry(i).parent, r),
{
    assert(v.has_parent(i));
}

/// What lies under a folder has a path that goes on from the folder's.
pub proof fn law_under_by_path(v: IndexView, i: EntryIdx, r: EntryIdx)
    requires
        v.wf(),
        v.live(i),
        LOST_FOUND < i,
        v.path_of(i) is Some,
        v.descends(i, r),
    ensures
        v.path_of(r) is Some,
        v.path_of(r)->0.len() > 0 ==> v.path_of(i)->0.len() > v.path_of(r)->0.len()
            && v.path_of(i)->0.take(v.path_of(r)->0.len() as int) == v.path_of(r)->0
            && v.path_of(i)->0[v.path_of(r)->0.len() as int] == 0x5C,
    decreases v.rank[i as int],
{
    assert(v.has_parent(i));
    lemma_path_of_child(v, i);
    let p = v.entry(i).parent;
    let dir = v.path_of(p)->0;
    let path = v.path_of(i)->0;
    if p == r {
        assert(path.take(dir.len() as int) =~= dir);
    } else {
        assert(v.descends(p, r));
        assert(v.has_parent(p));
        if p <= LOST_FOUND {
            assert(v.entry(p).parent == NIL);
        }
        law_under_by_path(v, p, r);
        let above = v.path_of(r)->0;
        if above.len() > 0 {
            assert(dir.take(above.len() as int) == above);
            assert(path.take(above.len() as int) =~= dir.take(above.len() as int));
        }
    }
}

/// A folder is found by its path, however deep it lies: by its components as
/// they are, or, where the case does not count, by any that fold alike. It is
/// that very folder which is found, as long as it and the folders it lies in
/// can be told from their neighbours.
pub proof fn law_folder_is_found(v: IndexView, d: EntryIdx, rel: Seq<u8>, match_case: bool)
    requires
        v.wf(),
        v.live(d),
        v.path_of(d) is Some,
        well_placed(v, d, match_case),
        same_names(components(rel), components(v.path_of(d)->0), match_case),
    ensures
        scope_target(v, rel, match_case) == Some(d),
{
    lemma_found_by(v, d, components(rel), match_case);
}

proof fn lemma_found_by(v: IndexView, d: EntryIdx, comps: Seq<Seq<u8>>, match_case: bool)
    requires
        v.wf(),
        v.live(d),
        v.path_of(d) is Some,
        well_placed(v, d, match_case),
        same_names(comps, components(v.path_of(d)->0), match_case),
    ensures
        descend(v, ROOT, comps, match_case) == Some(d),
    decreases v.rank[d as int],
{
    if d == ROOT {
        law_whole_piece(Cut::Separators, Seq::<u8>::empty());
        assert(comps.len() == 0);
    } else {
        if d == LOST_FOUND {
            assert(v.entry(LOST_FOUND).parent == NIL);
            assert(!v.has_parent(LOST_FOUND));
        }
        assert(v.has_parent(d));
        let p = v.entry(d).parent;
        lemma_path_of_child(v, d);
        let dir = v.path_of(p)->0;
        assert(p != LOST_FOUND) by {
            if p == LOST_FOUND {
                assert(v.entry(LOST_FOUND).parent == NIL);
                assert(!v.has_parent(LOST_FOUND));
            }
        }
        assert(stands_alone(v, d, match_case));
        assert(v.entry(d).name_id < v.names.len());
        assert(indexable(v.names[v.entry(d).name_id as int]));
        lemma_components_join(dir, v.name(d));
        let whole = components(v.path_of(d)->0);
        let init = comps.drop_last();
        assert(whole.last() == v.name(d));
        assert(same_name(comps[comps.len() - 1], whole[comps.len() - 1], match_case));
        assert(same_names(init, components(dir), match_case)) by {
            assert forall|k: int| 0 <= k < init.len() implies same_name(
                #[trigger] init[k],
                components(dir)[k],
                match_case,
            ) by {
                assert(same_name(comps[k], whole[k], match_case));
            }
        }
        assert(well_placed(v, p, match_case)) by {
            assert forall|a: EntryIdx| a != ROOT && (a == p || v.descends(p, a)) implies
                #[trigger] stands_alone(v, a, match_case) by {
                assert(v.descends(d, a));
            }
        }
        lemma_found_by(v, p, init, match_case);
        lemma_descend_last(v, ROOT, comps, match_case);
        lemma_step_finds(v, d, comps.last(), match_case);
    }
}

/// A folder's own path leads to it.
pub proof fn law_own_path_leads_home(v: IndexView, d: EntryIdx, match_case: bool)
    requires
        v.wf(),
        v.live(d),
        v.path_of(d) is Some,
        well_placed(v, d, match_case),
    ensures
        scope_target(v, v.path_of(d)->0, match_case) == Some(d),
{
    law_folder_is_found(v, d, v.path_of(d)->0, match_case);
}

/// Wherever a path leads, it is to a folder in use whose own path has the same
/// components: as they are where the case counts, else folded alike.
pub proof fn law_found_folder_is_named(v: IndexView, rel: Seq<u8>, match_case: bool)
    requires
        v.wf(),
        scope_target(v, rel, match_case) is Some,
        forall|i: EntryIdx| #[trigger] v.live(i) && !v.entry(i).synthetic ==> v.name(i).len() > 0,
    ensures
        ({
            let d = scope_target(v, rel, match_case)->0;
            &&& v.live(d)
            &&& v.entry(d).is_dir
            &&& v.path_of(d) is Some
            &&& same_names(components(rel), components(v.path_of(d)->0), match_case)
        }),
{
    lemma_led_to(v, components(rel), match_case);
}

proof fn lemma_led_to(v: IndexView, comps: Seq<Seq<u8>>, match_case: bool)
    requires
        v.wf(),
        descend(v, ROOT, comps, match_case) is Some,
        forall|i: EntryIdx| #[trigger] v.live(i) && !v.entry(i).synthetic ==> v.name(i).len() > 0,
    ensures
        ({
            let d = descend(v, ROOT, comps, match_case)->0;
            &&& v.live(d)
            &&& v.entry(d).is_dir
            &&& v.path_of(d) is Some
            &&& same_names(comps, components(v.path_of(d)->0), match_case)
        }),
    decreases comps.len(),
{
    if comps.len() == 0 {
        assert(v.entry(ROOT).live);
        law_whole_piece(Cut::Separators, Seq::<u8>::empty());
    } else {
        let init = comps.drop_last();
        let name = comps.last();
        lemma_descend_last(v, ROOT, comps, match_case);
        lemma_led_to(v, init, match_case);
        let p = descend(v, ROOT, init, match_case)->0;
        let d = subdirectory(v, p, name, match_case)->0;
        if match_case {
            let is = |i: EntryIdx|
                !v.entry(i).synthetic && v.entry(i).is_dir && v.entry(i).parent == p && v.name(i)
                    == name;
            lemma_first_where(v.live_slots(), is);
            lemma_live_slots(v);
        } else {
            let is = |i: EntryIdx| v.entry(i).is_dir && v.folded_name(i) == folded(name);
            lemma_first_where(v.children[p as int], is);
            assert(v.children[p as int].contains(d));
        }
        assert(v.live(d) && v.entry(d).parent == p);
        if d <= LOST_FOUND {
            assert(v.entry(d).parent == NIL);
        }
        assert(v.has_parent(d));
        assert(p != LOST_FOUND) by {
            if p == LOST_FOUND {
                assert(v.entry(LOST_FOUND).parent == NIL);
                assert(!v.has_parent(LOST_FOUND));
            }
        }
        lemma_path_of_child(v, d);
        assert(v.entry(d).name_id < v.names.len());
        assert(indexable(v.names[v.entry(d).name_id as int]));
        let dir = v.path_of(p)->0;
        lemma_components_join(dir, v.name(d));
        let whole = components(v.path_of(d)->0);
        assert forall|k: int| 0 <= k < comps.len() implies same_name(
            #[trigger] comps[k],
            whole[k],
            match_case,
        ) by {
            if k < init.len() {
                assert(same_name(init[k], components(dir)[k], match_case));
            }
        }
    }
}

} // verus!
