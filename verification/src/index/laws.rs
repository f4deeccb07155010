//! What changing an index keeps and brings about.

use super::changes::{lemma_with_entry, lemma_with_moved, lemma_with_name};
use super::journal::{lemma_with_dropped, shelved};
use super::links::{lemma_extended, Place};
use super::model::{IndexView, LOST_FOUND, ROOT};
use super::update::{lemma_first_where, placeholder};
use crate::types::{EntryIdx, NIL};
use crate::usn::record::ParsedUsnRecord;
use vstd::prelude::*;

verus! {

/// Preparing for a record keeps an index well formed, and changes no entry.
proof fn lemma_prepared(v: IndexView, rec: ParsedUsnRecord)
    requires
        v.wf(),
        v.takes(rec),
    ensures
        v.prepared(rec).wf(),
        v.extended(v.prepared(rec)),
        v.prepared(rec).names.contains(rec.name@),
        v.prepared(rec).entries.len() <= v.entries.len() + 1,
        v.prepared(rec).links_of(rec.parent_frn.0).len() > 0,
        ({
            let dir = v.prepared(rec).links_of(rec.parent_frn.0)[0];
            &&& v.prepared(rec).live(dir)
            &&& dir != LOST_FOUND
            &&& v.prepared(rec).entry(dir).frn == rec.parent_frn.0
            &&& if v.links_of(rec.parent_frn.0).len() > 0 {
                dir == v.links_of(rec.parent_frn.0)[0] && v.prepared(rec).entries == v.entries
                    && v.prepared(rec).rank == v.rank
            } else {
                dir == v.entries.len() && v.prepared(rec).entry(dir) == placeholder(
                    rec.parent_frn.0,
                )
            }
        }),
        forall|i: EntryIdx|
            !v.in_range(i) && #[trigger] v.prepared(rec).in_range(i) ==> v.prepared(rec).entry(i)
                == placeholder(rec.parent_frn.0),
{
    let name = rec.name@;
    let parent = rec.parent_frn.0;
    let v1 = v.with_known_name(name);
    if !v.names.contains(name) {
        lemma_with_name(v, name);
        assert(v1.names.last() == name);
    }
    assert(v1.wf() && v1.names.contains(name));
    assert(v1.links == v.links && v1.entries == v.entries && v1.rank == v.rank);
    assert(v.names.is_prefix_of(v1.names));
    if v1.links_of(parent).len() == 0 {
        assert(v1.entry(LOST_FOUND).live);
        assert(v1.entry(ROOT).live && v1.in_range(ROOT));
        lemma_with_entry(v1, placeholder(parent));
    } else {
        assert(v1.links[parent].contains(v1.links[parent][0]));
    }
}

/// Taking in a record keeps an index well formed.
pub proof fn lemma_with_record(v: IndexView, rec: ParsedUsnRecord)
    requires
        v.wf(),
    ensures
        v.with_record(rec).wf(),
{
    if v.is_news(rec) {
        lemma_prepared(v, rec);
        let w = v.prepared(rec);
        let e = v.record_entry(rec);
        assert(w.names[w.names.index_of(rec.name@)] == rec.name@);
        match v.placeholder_for(rec.frn.0) {
            Some(p) => {
                assert(v.links[rec.frn.0].contains(p));
                lemma_extended(v, w, p);
                if v.links_of(rec.parent_frn.0).len() > 0 {
                    super::update::lemma_descends_same(v, w, e.parent, p);
                } else {
                    assert(w.entry(LOST_FOUND).parent == NIL);
                    assert(!w.has_parent(LOST_FOUND));
                    assert(!w.descends(LOST_FOUND, p));
                }
                lemma_with_moved(w, p, e);
            },
            None => {
                lemma_with_entry(w, e);
            },
        }
    }
}

/// A record taken in is there: an entry with its number bears its name, in the
/// directory with its parent's number. No other entry has changed, and what is
/// new besides is a placeholder for the directory.
pub proof fn law_record_is_there(v: IndexView, rec: ParsedUsnRecord)
    requires
        v.wf(),
        v.takes(rec),
        rec.frn.0 != v.entry(ROOT).frn,
    ensures
        v.record_place(rec) is Some,
        v.with_record(rec).records(v.record_place(rec)->0, rec),
        forall|i: EntryIdx|
            v.in_range(i) && Some(i) != v.record_place(rec) ==> #[trigger] v.with_record(
                rec,
            ).entry(i) == v.entry(i),
        forall|i: EntryIdx|
            !v.in_range(i) && #[trigger] v.with_record(rec).in_range(i) && Some(i)
                != v.record_place(rec) ==> v.with_record(rec).entry(i) == placeholder(
                rec.parent_frn.0,
            ),
{
    let pred = |i: EntryIdx| v.is_link(i, rec.frn.0, rec.parent_frn.0, rec.name@);
    lemma_first_where(v.links_of(rec.frn.0), pred);
    match v.link_of(rec) {
        Some(i) => {
            assert(v.links[rec.frn.0].contains(i));
            assert(v.has_parent(i));
        },
        None => {
            lemma_prepared(v, rec);
            lemma_with_record(v, rec);
            let w = v.prepared(rec);
            let e = v.record_entry(rec);
            assert(w.names[w.names.index_of(rec.name@)] == rec.name@);
            let place = v.record_place(rec)->0;
            let z = v.with_record(rec);
            match v.placeholder_for(rec.frn.0) {
                Some(p) => {
                    assert(v.links[rec.frn.0].contains(p));
                    lemma_extended(v, w, p);
                    assert(z.entry(p) == e);
                    if e.parent == p {
                        assert(w.entry(p).frn == rec.parent_frn.0);
                    }
                    assert(z.entry(e.parent) == w.entry(e.parent));
                },
                None => {
                    assert(z.entry(place) == e);
                    assert(z.entry(e.parent) == w.entry(e.parent));
                },
            }
            assert forall|i: EntryIdx| v.in_range(i) && i != place implies #[trigger] z.entry(i)
                == v.entry(i) by {
                lemma_extended(v, w, i);
            }
            assert forall|i: EntryIdx|
                !v.in_range(i) && #[trigger] z.in_range(i) && i != place implies z.entry(i)
                == placeholder(rec.parent_frn.0) by {
                assert(w.in_range(i));
            }
        },
    }
}

/// Taking in the same record again changes nothing.
pub proof fn law_record_taken_once(v: IndexView, rec: ParsedUsnRecord)
    requires
        v.wf(),
    ensures
        v.with_record(rec).with_record(rec) == v.with_record(rec),
{
    if v.is_news(rec) {
        law_record_is_there(v, rec);
        lemma_with_record(v, rec);
        let z = v.with_record(rec);
        let i = v.record_place(rec)->0;
        assert(z.live(i));
        assert(i != LOST_FOUND && i != ROOT) by {
            assert(z.entry(ROOT).synthetic);
            assert(z.entry(LOST_FOUND).synthetic);
        }
        assert(z.links.contains_key(rec.frn.0));
        assert(z.links[rec.frn.0].contains(i));
        let pred = |j: EntryIdx| z.is_link(j, rec.frn.0, rec.parent_frn.0, rec.name@);
        assert(pred(i));
        lemma_first_where(z.links_of(rec.frn.0), pred);
        assert(z.link_of(rec) is Some);
    }
}

/// What dropping a list of entries does: those entries are gone or shelved, all
/// others are as they were.
pub proof fn lemma_all_dropped(v: IndexView, list: Seq<EntryIdx>)
    requires
        v.wf(),
        list.no_duplicates(),
        forall|k: int| 0 <= k < list.len() ==> v.live(#[trigger] list[k]) && LOST_FOUND < list[k],
    ensures
        v.with_all_dropped(list).wf(),
        v.with_all_dropped(list).entries.len() == v.entries.len(),
        v.with_all_dropped(list).names == v.names,
        forall|i: EntryIdx| #[trigger]
            list.contains(i) && v.with_all_dropped(list).entry(i).live ==> v.with_all_dropped(
                list,
            ).entry(i).synthetic,
        forall|i: EntryIdx|
            v.in_range(i) && !list.contains(i) ==> #[trigger] v.with_all_dropped(list).entry(i)
                == v.entry(i),
    decreases list.len(),
{
    if list.len() > 0 {
        let first = list[0];
        let rest = list.drop_first();
        let w = v.with_dropped(first);
        lemma_with_dropped(v, first);
        assert forall|k: int| 0 <= k < rest.len() implies w.live(#[trigger] rest[k]) && LOST_FOUND
            < rest[k] by {
            assert(rest[k] == list[k + 1]);
            assert(list[k + 1] != first);
            assert(w.entry(rest[k]) == v.entry(rest[k]));
        }
        assert(rest.no_duplicates());
        lemma_all_dropped(w, rest);
        let z = v.with_all_dropped(list);
        assert(!rest.contains(first));
        assert forall|i: EntryIdx| #[trigger] list.contains(i) && z.entry(i).live implies z.entry(
            i,
        ).synthetic by {
            if i == first {
                assert(z.entry(i) == w.entry(i));
            } else {
                let k = list.index_of(i);
                assert(rest[k - 1] == i);
                assert(rest.contains(i));
            }
        }
        assert forall|i: EntryIdx| v.in_range(i) && !list.contains(i) implies #[trigger] z.entry(i)
            == v.entry(i) by {
            assert(list.contains(first));
            if rest.contains(i) {
                assert(list[rest.index_of(i) + 1] == i);
            }
            assert(w.entry(i) == v.entry(i));
        }
    }
}

/// A file's links are entries in use that can be dropped.
proof fn lemma_links_droppable(v: IndexView, frn: u64)
    requires
        v.wf(),
        frn != v.entry(ROOT).frn,
    ensures
        v.links_of(frn).no_duplicates(),
        forall|k: int|
            0 <= k < v.links_of(frn).len() ==> v.live(#[trigger] v.links_of(frn)[k]) && LOST_FOUND
                < v.links_of(frn)[k],
{
    let l = v.links_of(frn);
    assert forall|k: int| 0 <= k < l.len() implies v.live(#[trigger] l[k]) && LOST_FOUND < l[k] by {
        assert(l.contains(l[k]));
    }
}

/// A deleted file is gone: no presentable entry has its number any more. Every
/// other file's entries are as they were.
pub proof fn law_deleted_is_gone(v: IndexView, frn: u64)
    requires
        v.wf(),
        frn != v.entry(ROOT).frn,
    ensures
        v.with_file_dropped(frn).wf(),
        forall|i: EntryIdx| #[trigger]
            v.with_file_dropped(frn).names_file(i, frn) ==> v.with_file_dropped(frn).entry(
                i,
            ).synthetic,
        forall|i: EntryIdx|
            v.in_range(i) && v.entry(i).frn != frn ==> #[trigger] v.with_file_dropped(frn).entry(i)
                == v.entry(i),
{
    lemma_links_droppable(v, frn);
    let l = v.links_of(frn);
    lemma_all_dropped(v, l);
    let z = v.with_file_dropped(frn);
    assert forall|i: EntryIdx| #[trigger] z.names_file(i, frn) implies z.entry(i).synthetic by {
        if !l.contains(i) {
            assert(v.in_range(i));
            assert(z.entry(i) == v.entry(i));
            assert(v.live(i) && v.links.contains_key(frn));
            assert(v.links[frn].contains(i));
        }
    }
    assert forall|i: EntryIdx| v.in_range(i) && v.entry(i).frn != frn implies #[trigger] z.entry(i)
        == v.entry(i) by {
        if l.contains(i) {
            assert(v.links[frn].contains(i));
        }
    }
}

/// Renaming a file with one name, by the record of its old name and then that
/// of its new one, moves its entry: the entry keeps its slot, and size and time
/// with it, and stands at the new place. No other entry changes, so all that
/// hangs under a renamed directory comes along.
pub proof fn law_rename_moves(v: IndexView, before: ParsedUsnRecord, after: ParsedUsnRecord)
    requires
        v.wf(),
        before.frn == after.frn,
        v.link_of(before) is Some,
        v.links_of(before.frn.0).len() == 1,
        after.frn.0 != v.entry(ROOT).frn,
        v.with_name_dropped(before).takes(after),
    ensures
        ({
            let i = v.link_of(before)->0;
            let z = v.with_name_dropped(before).with_record(after);
            &&& z.records(i, after)
            &&& z.entry(i).size == v.entry(i).size
            &&& z.entry(i).mtime == v.entry(i).mtime
            &&& forall|j: EntryIdx|
                v.in_range(j) && j != i ==> #[trigger] z.entry(j) == v.entry(j)
        }),
{
    let frn = before.frn.0;
    let pred = |j: EntryIdx| v.is_link(j, frn, before.parent_frn.0, before.name@);
    lemma_first_where(v.links_of(frn), pred);
    let i = v.link_of(before)->0;
    assert(v.links[frn].contains(i));
    assert(v.live(i));
    lemma_with_dropped(v, i);
    let w = v.with_name_dropped(before);
    assert(w == v.with_shelved(i));
    assert(w.entry(i) == shelved(v.entry(i)));
    assert(w.links == v.links);
    assert(v.links_of(frn)[0] == i) by {
        let k = v.links_of(frn).index_of(i);
        assert(k == 0);
    }
    assert(w.placeholder_for(frn) == Some(i));
    assert forall|j: EntryIdx| #[trigger] w.links_of(frn).contains(j) implies j == i by {}
    let again = |j: EntryIdx| w.is_link(j, frn, after.parent_frn.0, after.name@);
    lemma_first_where(w.links_of(frn), again);
    assert(w.link_of(after) is None);
    assert(w.entry(ROOT) == v.entry(ROOT));
    assert(w.is_news(after));
    law_record_is_there(w, after);
    let z = w.with_record(after);
    assert(w.record_place(after) == Some(i));
    assert(z.entry(i) == w.record_entry(after));
    assert(w.stat_of(frn) == (v.entry(i).size, v.entry(i).mtime));
    assert forall|j: EntryIdx| v.in_range(j) && j != i implies #[trigger] z.entry(j) == v.entry(
        j,
    ) by {
        assert(w.in_range(j));
        assert(w.entry(j) == v.entry(j));
    }
}

/// Adding names to a file extends the index by entries of that file at those
/// places.
pub(super) proof fn lemma_links_added(v: IndexView, frn: u64, list: Seq<Place>)
    requires
        v.wf(),
    ensures
        v.with_links_added(frn, list).wf(),
        v.extended(v.with_links_added(frn, list)),
        forall|i: EntryIdx| #[trigger]
            v.with_links_added(frn, list).in_range(i) && !v.in_range(i) ==> {
                let w = v.with_links_added(frn, list);
                w.entry(i).frn == frn && list.contains(w.place_of(i))
            },
    decreases list.len(),
{
    if list.len() > 0 {
        let init = list.drop_last();
        let place = list.last();
        lemma_links_added(v, frn, init);
        let u = v.with_links_added(frn, init);
        let w = v.with_links_added(frn, list);
        assert(list.contains(place)) by {
            assert(list[list.len() - 1] == place);
        }
        if !u.linked_at(frn, place) && u.takes_link(place) {
            let u1 = u.with_known_name(place.1);
            if !u.names.contains(place.1) {
                lemma_with_name(u, place.1);
                assert(u1.names.last() == place.1);
            }
            let e = u.link_entry(frn, place);
            assert(u1.names[u1.names.index_of(place.1)] == place.1);
            lemma_with_entry(u1, e);
            assert(w == u1.with_entry(e));
            assert(u.extended(w));
            assert(v.extended(w));
        }
        assert forall|i: EntryIdx| #[trigger] w.in_range(i) && !v.in_range(i) implies w.entry(i).frn
            == frn && list.contains(w.place_of(i)) by {
            if u.in_range(i) {
                lemma_extended(u, w, i);
                let k = init.index_of(u.place_of(i));
                assert(init.contains(u.place_of(i)));
                assert(list[k] == init[k]);
            }
        }
    }
}

/// Bringing a file's names in line with those it really has leaves it with
/// exactly these names, if they could all be taken in; and it touches no other
/// file.
pub proof fn law_links_reconciled(v: IndexView, frn: u64, list: Seq<Place>)
    requires
        v.wf(),
        frn != v.entry(ROOT).frn,
        v.with_links_added(frn, list).linked_at_all(frn, list),
    ensures
        v.with_links(frn, list).wf(),
        forall|place: Place| #[trigger]
            list.contains(place) <==> exists|i: EntryIdx| #[trigger]
                v.with_links(frn, list).names_file(i, frn) && v.with_links(frn, list).stands_at(
                    i,
                    place,
                ),
        forall|i: EntryIdx|
            v.in_range(i) && v.entry(i).frn != frn ==> #[trigger] v.with_links(frn, list).entry(i)
                == v.entry(i),
{
    let w = v.with_links_added(frn, list);
    let strays = v.stray_links(frn, list);
    let stray = |i: EntryIdx| v.strays(i, list);
    let z = v.with_links(frn, list);
    lemma_links_added(v, frn, list);
    lemma_links_droppable(v, frn);
    crate::seqs::lemma_filter_distinct(v.links_of(frn), stray);
    assert forall|i: EntryIdx| #[trigger] strays.contains(i) implies v.links_of(frn).contains(i)
        && v.strays(i, list) && v.live(i) && LOST_FOUND < i && v.entry(i).frn == frn by {
        crate::seqs::lemma_filter_members(v.links_of(frn), stray, i);
        let k = v.links_of(frn).index_of(i);
        assert(v.live(v.links_of(frn)[k]));
        assert(v.links[frn].contains(i));
    }
    assert forall|k: int| 0 <= k < strays.len() implies w.live(#[trigger] strays[k]) && LOST_FOUND
        < strays[k] by {
        assert(strays.contains(strays[k]));
        lemma_extended(v, w, strays[k]);
    }
    lemma_all_dropped(w, strays);
    assert(z == w.with_all_dropped(strays));
    assert forall|place: Place| #[trigger] list.contains(place) <==> exists|i: EntryIdx| #[trigger]
        z.names_file(i, frn) && z.stands_at(i, place) by {
        if list.contains(place) {
            let k = list.index_of(place);
            assert(w.linked_at(frn, list[k]));
            let i = choose|i: EntryIdx| #[trigger]
                w.links_of(frn).contains(i) && w.stands_at(i, place);
            assert(w.links[frn].contains(i));
            if strays.contains(i) {
                lemma_extended(v, w, i);
            }
            assert(z.entry(i) == w.entry(i));
            assert(z.names_file(i, frn) && z.stands_at(i, place));
        }
        if exists|i: EntryIdx| #[trigger] z.names_file(i, frn) && z.stands_at(i, place) {
            let i = choose|i: EntryIdx| #[trigger] z.names_file(i, frn) && z.stands_at(i, place);
            assert(w.in_range(i));
            if strays.contains(i) {
                assert(z.entry(i).synthetic);
            }
            assert(z.entry(i) == w.entry(i));
            assert(w.place_of(i) == place);
            if v.in_range(i) {
                lemma_extended(v, w, i);
                assert(z.live(i) && i != LOST_FOUND);
                assert(v.live(i));
                assert(v.links.contains_key(v.entry(i).frn));
                assert(v.links[frn].contains(i));
                crate::seqs::lemma_filter_members(v.links_of(frn), stray, i);
                assert(!v.strays(i, list));
            }
        }
    }
    assert forall|i: EntryIdx| v.in_range(i) && v.entry(i).frn != frn implies #[trigger] z.entry(i)
        == v.entry(i) by {
        lemma_extended(v, w, i);
    }
}

} // verus!
