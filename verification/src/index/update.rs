//! Changing an index: enumeration records, link sets, sizes and times.

use super::model::{first_where, indexable, is_separator, IndexView, Slot, LOST_FOUND, ROOT};
use super::store::{count_up, counted_up, Tally, VolumeIndex};
use crate::bytes::same_bytes;
use crate::fold::{fold, folded};
use crate::types::{EntryIdx, Frn, NIL};
use crate::usn::record::ParsedUsnRecord;
use vstd::prelude::*;
use vstd::slice::slice_to_vec;

verus! {

/// A name an entry can have.
pub open spec fn acceptable(name: Seq<u8>) -> bool {
    name.len() > 0 && indexable(name)
}

/// The folded form of a name an entry can have; nothing for any other.
pub(super) fn accept_name(name: &[u8]) -> (lower: Option<Vec<u8>>)
    ensures
        match lower {
            Some(l) => acceptable(name@) && l@ == folded(name@),
            None => !acceptable(name@),
        },
{
    if name.len() == 0 {
        return None;
    }
    let mut i: usize = 0;
    while i < name.len()
        invariant
            i <= name@.len(),
            forall|j: int| 0 <= j < i ==> !is_separator(#[trigger] name@[j]),
        decreases name@.len() - i,
    {
        if name[i] == 0x5C || name[i] == 0x2F {
            assert(is_separator(name@[i as int]));
            return None;
        }
        i += 1;
    }
    let lower = fold(name);
    let mut j: usize = 0;
    while j < lower.len()
        invariant
            j <= lower@.len(),
            lower@ == folded(name@),
            forall|k: int| 0 <= k < j ==> lower@[k] != 0,
        decreases lower@.len() - j,
    {
        if lower[j] == 0 {
            assert(folded(name@)[j as int] == 0);
            return None;
        }
        j += 1;
    }
    assert(!folded(name@).contains(0u8));
    Some(lower)
}

impl IndexView {
    /// The entry in slot `idx` is what the record says.
    pub open spec fn records(self, idx: EntryIdx, rec: ParsedUsnRecord) -> bool {
        &&& self.live(idx)
        &&& !self.entry(idx).synthetic
        &&& self.entry(idx).frn == rec.frn.0
        &&& self.name(idx) == rec.name@
        &&& self.live(self.entry(idx).parent)
        &&& self.entry(self.entry(idx).parent).frn == rec.parent_frn.0
    }

    /// `i` is a name of the file `frn`, in the directory `parent`.
    pub open spec fn is_link(self, i: EntryIdx, frn: u64, parent: u64, name: Seq<u8>) -> bool {
        &&& self.links_of(frn).contains(i)
        &&& i > LOST_FOUND
        &&& !self.entry(i).synthetic
        &&& self.entry(self.entry(i).parent).frn == parent
        &&& self.name(i) == name
    }

    /// The entry that the record speaks of.
    pub open spec fn link_of(self, rec: ParsedUsnRecord) -> Option<EntryIdx> {
        first_where(
            self.links_of(rec.frn.0),
            |i: EntryIdx| self.is_link(i, rec.frn.0, rec.parent_frn.0, rec.name@),
        )
    }

    /// The placeholder that stands for `frn`, if its first link is one.
    pub open spec fn placeholder_for(self, frn: u64) -> Option<EntryIdx> {
        if self.links_of(frn).len() > 0 && self.is_placeholder(self.links_of(frn)[0]) {
            Some(self.links_of(frn)[0])
        } else {
            None
        }
    }

    /// Taking the record in would hang a directory under itself.
    pub open spec fn would_loop(self, rec: ParsedUsnRecord) -> bool {
        ||| rec.frn == rec.parent_frn
        ||| match self.placeholder_for(rec.frn.0) {
            Some(p) => self.links_of(rec.parent_frn.0).len() > 0 && {
                let q = self.links_of(rec.parent_frn.0)[0];
                q == p || self.descends(q, p)
            },
            None => false,
        }
    }

    /// There is room for one more entry with this name, and for its directory.
    pub open spec fn has_room(self, name: Seq<u8>) -> bool {
        &&& self.entries.len() + 2 < NIL
        &&& self.names.contains(name) || self.fits(name)
    }

    /// The record can be taken into the index.
    pub open spec fn takes(self, rec: ParsedUsnRecord) -> bool {
        &&& acceptable(rec.name@)
        &&& self.has_room(rec.name@)
        &&& !self.would_loop(rec)
    }

    /// The record tells something new, and can be taken in.
    pub open spec fn is_news(self, rec: ParsedUsnRecord) -> bool {
        &&& rec.frn.0 != self.entry(ROOT).frn
        &&& self.takes(rec)
        &&& self.link_of(rec) is None
    }

    /// `name` in the name table.
    pub open spec fn with_known_name(self, name: Seq<u8>) -> IndexView {
        if self.names.contains(name) {
            self
        } else {
            self.with_name(name)
        }
    }

    /// An entry for the file `frn`: a placeholder under lost+found where there
    /// was none.
    pub open spec fn with_directory(self, frn: u64) -> IndexView {
        if self.links_of(frn).len() > 0 {
            self
        } else {
            self.with_entry(placeholder(frn))
        }
    }

    /// What is known of a file's size and time: its names share them.
    pub open spec fn stat_of(self, frn: u64) -> (Option<u64>, Option<i64>) {
        if self.links_of(frn).len() > 0 {
            let e = self.entry(self.links_of(frn)[0]);
            (e.size, e.mtime)
        } else {
            (None, None)
        }
    }

    /// The index before the record's own entry is put in: the name is known and
    /// the directory there.
    pub open spec fn prepared(self, rec: ParsedUsnRecord) -> IndexView {
        self.with_known_name(rec.name@).with_directory(rec.parent_frn.0)
    }

    /// The entry that the record makes.
    pub open spec fn record_entry(self, rec: ParsedUsnRecord) -> Slot {
        let w = self.prepared(rec);
        Slot {
            frn: rec.frn.0,
            parent: w.links_of(rec.parent_frn.0)[0],
            name_id: w.names.index_of(rec.name@) as u32,
            is_dir: rec.is_dir(),
            size: self.stat_of(rec.frn.0).0,
            mtime: self.stat_of(rec.frn.0).1,
            live: true,
            synthetic: false,
        }
    }

    /// The index with the record taken in: the name it gives, in the directory
    /// it gives. A placeholder for the file gives way to it.
    pub open spec fn with_record(self, rec: ParsedUsnRecord) -> IndexView {
        if self.is_news(rec) {
            match self.placeholder_for(rec.frn.0) {
                Some(p) => self.prepared(rec).with_moved(p, self.record_entry(rec)),
                None => self.prepared(rec).with_entry(self.record_entry(rec)),
            }
        } else {
            self
        }
    }

    /// Where the record's entry stands then; nowhere where it was refused.
    pub open spec fn record_place(self, rec: ParsedUsnRecord) -> Option<EntryIdx> {
        if rec.frn.0 == self.entry(ROOT).frn {
            Some(ROOT)
        } else if !self.takes(rec) {
            None
        } else if self.link_of(rec) is Some {
            self.link_of(rec)
        } else if self.placeholder_for(rec.frn.0) is Some {
            self.placeholder_for(rec.frn.0)
        } else {
            Some(self.prepared(rec).entries.len() as EntryIdx)
        }
    }
}

/// The counters with the record taken in.
pub open spec fn record_counted(tally: Tally, v: IndexView, rec: ParsedUsnRecord) -> Tally {
    if v.is_news(rec) && v.links_of(rec.parent_frn.0).len() == 0 {
        Tally { placeholders_created: counted_up(tally.placeholders_created, 1), ..tally }
    } else {
        tally
    }
}

/// The first entry found is one that is as wanted; with none found there is
/// none.
pub proof fn lemma_first_where(s: Seq<EntryIdx>, pred: spec_fn(EntryIdx) -> bool)
    ensures
        match first_where(s, pred) {
            Some(i) => s.contains(i) && pred(i),
            None => forall|i: EntryIdx| #[trigger] s.contains(i) ==> !pred(i),
        },
    decreases s.len(),
{
    if s.len() > 0 {
        assert(s.contains(s[0]));
        lemma_first_where(s.drop_first(), pred);
        let rest = s.drop_first();
        assert forall|i: EntryIdx| #[trigger] s.contains(i) <==> i == s[0] || rest.contains(i) by {
            if s.contains(i) && i != s[0] {
                let k = s.index_of(i);
                assert(rest[k - 1] == i);
            }
            if rest.contains(i) {
                assert(s[rest.index_of(i) + 1] == i);
            }
        }
    }
}

/// A distinct list holds each element at one place.
proof fn lemma_index_of(names: Seq<Seq<u8>>, k: int)
    requires
        0 <= k < names.len(),
        forall|a: int, b: int|
            0 <= a < b < names.len() ==> #[trigger] names[a] != #[trigger] names[b],
    ensures
        names.contains(names[k]),
        names.index_of(names[k]) == k,
{
    let j = names.index_of(names[k]);
    assert(names.contains(names[k]));
    assert(names[j] == names[k]);
}

impl VolumeIndex {
    /// The number of `name`, interned where it is new.
    pub(super) fn name_number(&mut self, name: &[u8], lower: &[u8]) -> (id: u32)
        requires
            old(self).wf(),
            acceptable(name@),
            lower@ == folded(name@),
            old(self)@.names.contains(name@) || old(self)@.fits(name@),
        ensures
            final(self).wf(),
            final(self)@ == old(self)@.with_known_name(name@),
            final(self).map_kind() == old(self).map_kind(),
            final(self).tally() == old(self).tally(),
            id < final(self)@.names.len(),
            final(self)@.names[id as int] == name@,
            id == final(self)@.names.index_of(name@) as u32,
    {
        match self.find_name(name) {
            Some(id) => {
                proof {
                    lemma_index_of(self@.names, id as int);
                }
                id
            },
            None => {
                let id = self.add_name(name, lower);
                proof {
                    lemma_index_of(self@.names, id as int);
                }
                id
            },
        }
    }

    /// Whether `idx` is `under` or lies under it.
    fn is_at_or_under(&self, idx: EntryIdx, under: EntryIdx) -> (res: bool)
        requires
            self.wf(),
            self@.in_range(idx),
        ensures
            res == (idx == under || self@.descends(idx, under)),
    {
        let mut cur = idx;
        while cur != under
            invariant
                self.wf(),
                self@.in_range(cur),
                (idx == under || self@.descends(idx, under)) == (cur == under || self@.descends(
                    cur,
                    under,
                )),
            decreases self@.rank[cur as int],
        {
            if cur <= LOST_FOUND {
                assert(self@.entry(cur).parent == NIL);
                return false;
            }
            assert(self@.has_parent(cur));
            cur = self.slot(cur).parent;
        }
        true
    }

    /// The entry that stands for the file `frn`, a new placeholder under
    /// lost+found where there is none.
    fn directory_for(&mut self, frn: Frn) -> (dir: EntryIdx)
        requires
            old(self).wf(),
            old(self)@.entries.len() + 1 < NIL,
        ensures
            final(self).wf(),
            final(self)@.names == old(self)@.names,
            final(self)@.live(dir),
            dir != LOST_FOUND,
            final(self)@.entry(dir).frn == frn.0,
            final(self)@ == old(self)@.with_directory(frn.0),
            dir == final(self)@.links_of(frn.0)[0],
            old(self)@.links_of(frn.0).len() == 0 ==> dir == old(self)@.entries.len(),
            final(self).map_kind() == old(self).map_kind(),
            final(self).tally() == (if old(self)@.links_of(frn.0).len() == 0 {
                Tally {
                    placeholders_created: counted_up(old(self).tally().placeholders_created, 1),
                    ..old(self).tally()
                }
            } else {
                old(self).tally()
            }),
    {
        let known: Option<EntryIdx> = match self.links_of(frn) {
            Some(links) => {
                if links.len() > 0 {
                    assert(self@.links[frn.0].contains(links@[0]));
                    Some(links[0])
                } else {
                    None
                }
            },
            None => None,
        };
        match known {
            Some(dir) => dir,
            None => {
                proof {
                    assert(self@.entry(LOST_FOUND).live);
                    assert(self@.entry(ROOT).live);
                    assert(self@.in_range(ROOT));
                }
                let slot = Slot {
                    frn: frn.0,
                    parent: LOST_FOUND,
                    name_id: 0,
                    is_dir: true,
                    size: None,
                    mtime: None,
                    live: true,
                    synthetic: true,
                };
                let dir = self.push_slot(slot);
                let tally = self.counters();
                self.set_counters(
                    Tally {
                        placeholders_created: count_up(tally.placeholders_created, 1),
                        ..tally
                    },
                );
                dir
            },
        }
    }
}

/// Who descends from whom is a matter of the entry table alone.
pub proof fn lemma_descends_same(v: IndexView, w: IndexView, i: EntryIdx, p: EntryIdx)
    requires
        v.entries == w.entries,
        v.rank == w.rank,
    ensures
        v.descends(i, p) == w.descends(i, p),
    decreases v.rank[i as int],
{
    if v.has_parent(i) {
        lemma_descends_same(v, w, v.entry(i).parent, p);
    }
}

impl VolumeIndex {
    /// The entry that the record speaks of.
    pub(super) fn find_link(&self, rec: &ParsedUsnRecord) -> (found: Option<EntryIdx>)
        requires
            self.wf(),
        ensures
            found == self@.link_of(*rec),
            found is Some ==> self@.live(found->0) && self@.is_link(
                found->0,
                rec.frn.0,
                rec.parent_frn.0,
                rec.name@,
            ),
    {
        let ghost pred = |i: EntryIdx| self@.is_link(i, rec.frn.0, rec.parent_frn.0, rec.name@);
        let links: &Vec<EntryIdx> = match self.links_of(rec.frn) {
            Some(links) => links,
            None => return None,
        };
        let mut k: usize = 0;
        assert(links@.skip(0) =~= links@);
        while k < links.len()
            invariant
                self.wf(),
                k <= links@.len(),
                self@.links.contains_key(rec.frn.0),
                links@ == self@.links[rec.frn.0],
                pred == (|i: EntryIdx|
                    self@.is_link(i, rec.frn.0, rec.parent_frn.0, rec.name@)),
                self@.link_of(*rec) == first_where(links@.skip(k as int), pred),
            decreases links@.len() - k,
        {
            let i = links[k];
            assert(links@.contains(links@[k as int]));
            assert(self@.live(i));
            assert(links@.skip(k as int)[0] == i);
            assert(links@.skip(k as int).drop_first() =~= links@.skip(k + 1));
            if i > LOST_FOUND {
                assert(self@.has_parent(i));
                let slot = self.slot(i);
                if !slot.synthetic && self.slot(slot.parent).frn == rec.parent_frn.0 && same_bytes(
                    self.raw_name(slot.name_id),
                    rec.name.as_slice(),
                ) {
                    assert(pred(i));
                    return Some(i);
                }
            }
            assert(!pred(i));
            k += 1;
        }
        None
    }

    /// The placeholder that stands for `frn`.
    fn find_placeholder(&self, frn: Frn) -> (p: Option<EntryIdx>)
        requires
            self.wf(),
        ensures
            p == self@.placeholder_for(frn.0),
            p is Some ==> self@.entry(p->0).frn == frn.0,
    {
        match self.links_of(frn) {
            Some(links) => {
                if links.len() > 0 {
                    let i = links[0];
                    assert(self@.links[frn.0].contains(i));
                    if i > LOST_FOUND && self.slot(i).synthetic {
                        return Some(i);
                    }
                }
                None
            },
            None => None,
        }
    }

    /// Whether taking the record in would hang a directory under itself.
    fn loops(&self, rec: &ParsedUsnRecord) -> (res: bool)
        requires
            self.wf(),
        ensures
            res == self@.would_loop(*rec),
    {
        if rec.frn.0 == rec.parent_frn.0 {
            return true;
        }
        match self.find_placeholder(rec.frn) {
            Some(p) => match self.links_of(rec.parent_frn) {
                Some(links) => {
                    if links.len() > 0 {
                        assert(self@.links[rec.parent_frn.0].contains(links@[0]));
                        self.is_at_or_under(links[0], p)
                    } else {
                        false
                    }
                },
                None => false,
            },
            None => false,
        }
    }

    /// What is known of a file's size and time.
    pub(super) fn known_stat(&self, frn: Frn) -> (stat: (Option<u64>, Option<i64>))
        requires
            self.wf(),
        ensures
            stat == self@.stat_of(frn.0),
    {
        match self.links_of(frn) {
            Some(links) => {
                if links.len() > 0 {
                    assert(self@.links[frn.0].contains(links@[0]));
                    let slot = self.slot(links[0]);
                    (slot.size, slot.mtime)
                } else {
                    (None, None)
                }
            },
            None => (None, None),
        }
    }

    /// Takes in one record of the volume's enumeration: the name it gives, in
    /// the directory it gives. A directory not seen yet gets a placeholder under
    /// lost+found, which its own record later replaces. A record that repeats a
    /// known name, or speaks of the root, changes nothing; one that cannot be
    /// taken in is dropped.
    pub fn insert_enum(&mut self, rec: &ParsedUsnRecord) -> (idx: Option<EntryIdx>)
        requires
            old(self).wf(),
        ensures
            final(self).wf(),
            final(self)@ == old(self)@.with_record(*rec),
            final(self).map_kind() == old(self).map_kind(),
            final(self).tally() == record_counted(old(self).tally(), old(self)@, *rec),
            idx == old(self)@.record_place(*rec),
    {
        let ghost v = self@;
        assert(v.entry(ROOT).live);
        assert(v.in_range(ROOT));
        if rec.frn.0 == self.slot(ROOT).frn {
            return Some(ROOT);
        }
        let name: &[u8] = rec.name.as_slice();
        let lower = match accept_name(name) {
            Some(lower) => lower,
            None => return None,
        };
        if self.slot_count() >= NIL - 2 {
            return None;
        }
        if self.find_name(name).is_none() && !self.has_space(name, lower.len()) {
            return None;
        }
        if self.loops(rec) {
            return None;
        }
        if let Some(i) = self.find_link(rec) {
            return Some(i);
        }
        let seat = self.find_placeholder(rec.frn);
        let stat = self.known_stat(rec.frn);
        let id = self.name_number(name, lower.as_slice());
        let ghost v1 = self@;
        assert(v1.links == v.links && v1.entries == v.entries && v1.rank == v.rank);
        let dir = self.directory_for(rec.parent_frn);
        let ghost v2 = self@;
        let slot = Slot {
            frn: rec.frn.0,
            parent: dir,
            name_id: id,
            is_dir: rec.is_dir(),
            size: stat.0,
            mtime: stat.1,
            live: true,
            synthetic: false,
        };
        assert(slot == v.record_entry(*rec));
        match seat {
            Some(p) => {
                proof {
                    assert(v.live(p));
                    assert(v2.entry(p) == v.entry(p));
                    if v.links_of(rec.parent_frn.0).len() > 0 {
                        lemma_descends_same(v, v2, dir, p);
                    } else {
                        assert(v2.entry(LOST_FOUND) == v.entry(LOST_FOUND));
                        assert(v2.entry(LOST_FOUND).parent == NIL);
                        assert(!v2.has_parent(LOST_FOUND));
                        assert(!v2.descends(LOST_FOUND, p));
                        assert(v2.entry(dir).parent == LOST_FOUND);
                    }
                }
                self.move_slot(p, slot);
                Some(p)
            },
            None => {
                let i = self.push_slot(slot);
                Some(i)
            },
        }
    }
}

impl IndexView {
    /// `i` is a name of the file `frn`.
    pub open spec fn names_file(self, i: EntryIdx, frn: u64) -> bool {
        self.live(i) && i != LOST_FOUND && self.entry(i).frn == frn
    }

    /// The size and time noted for every name of a file.
    pub open spec fn with_file_stat(self, frn: u64, size: u64, mtime: i64) -> IndexView {
        IndexView {
            entries: Seq::new(
                self.entries.len(),
                |i: int|
                    if self.names_file(i as EntryIdx, frn) {
                        Slot { size: Some(size), mtime: Some(mtime), ..self.entries[i] }
                    } else {
                        self.entries[i]
                    },
            ),
            ..self
        }
    }
}

impl VolumeIndex {
    /// The names of the file `frn`, as a list of its own.
    pub(super) fn link_list(&self, frn: Frn) -> (list: Vec<EntryIdx>)
        requires
            self.wf(),
        ensures
            list@ == self@.links_of(frn.0),
            list@.no_duplicates(),
            forall|i: EntryIdx| #[trigger] list@.contains(i) <==> self@.names_file(i, frn.0),
    {
        match self.links_of(frn) {
            Some(links) => slice_to_vec(links.as_slice()),
            None => {
                let none: Vec<EntryIdx> = Vec::new();
                assert(none@ =~= Seq::<EntryIdx>::empty());
                none
            },
        }
    }

    /// Notes the size and modification time of a file, for all its names.
    pub fn set_stat(&mut self, frn: Frn, size: u64, mtime: i64)
        requires
            old(self).wf(),
        ensures
            final(self).wf(),
            final(self)@ == old(self)@.with_file_stat(frn.0, size, mtime),
            final(self).map_kind() == old(self).map_kind(),
            final(self).tally() == old(self).tally(),
    {
        let ghost v = self@;
        let list = self.link_list(frn);
        let mut k: usize = 0;
        while k < list.len()
            invariant
                self.wf(),
                k <= list@.len(),
                list@.no_duplicates(),
                forall|i: EntryIdx| #[trigger] list@.contains(i) <==> v.names_file(i, frn.0),
                self@.entries.len() == v.entries.len(),
                self@.names == v.names,
                self@.chains == v.chains,
                self@.children == v.children,
                self@.links == v.links,
                self@.rank == v.rank,
                self.map_kind() == old(self).map_kind(),
                self.tally() == old(self).tally(),
                forall|i: EntryIdx|
                    v.in_range(i) ==> #[trigger] self@.entry(i) == (if list@.take(
                        k as int,
                    ).contains(i) {
                        Slot { size: Some(size), mtime: Some(mtime), ..v.entry(i) }
                    } else {
                        v.entry(i)
                    }),
            decreases list@.len() - k,
        {
            let i = list[k];
            let ghost w = self@;
            proof {
                assert(list@.contains(list@[k as int]));
                assert(v.names_file(i, frn.0));
                assert(self@.entry(i).live);
            }
            self.note_stat(i, size, mtime);
            proof {
                assert(list@.take(k + 1) =~= list@.take(k as int).push(i));
                assert forall|j: EntryIdx| v.in_range(j) implies #[trigger] self@.entry(j) == (
                if list@.take(k + 1).contains(j) {
                    Slot { size: Some(size), mtime: Some(mtime), ..v.entry(j) }
                } else {
                    v.entry(j)
                }) by {
                    crate::seqs::lemma_push_members(list@.take(k as int), i, j);
                    assert(w.entry(j) == (if list@.take(k as int).contains(j) {
                        Slot { size: Some(size), mtime: Some(mtime), ..v.entry(j) }
                    } else {
                        v.entry(j)
                    }));
                }
            }
            k += 1;
        }
        proof {
            assert(list@.take(k as int) =~= list@);
            let want = v.with_file_stat(frn.0, size, mtime);
            assert forall|i: int| 0 <= i < v.entries.len() implies self@.entries[i]
                == want.entries[i] by {
                let j = i as EntryIdx;
                assert(self@.entry(j) == self@.entries[i]);
                assert(list@.contains(j) <==> v.names_file(j, frn.0));
            }
            assert(self@.entries =~= want.entries);
            assert(self@ =~= want);
        }
    }
}

/// The stand-in for a directory that was never seen.
pub open spec fn placeholder(frn: u64) -> Slot {
    Slot {
        frn,
        parent: LOST_FOUND,
        name_id: 0,
        is_dir: true,
        size: None,
        mtime: None,
        live: true,
        synthetic: true,
    }
}

} // verus!
