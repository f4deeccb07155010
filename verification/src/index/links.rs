//! Bringing a file's names in line with those it really has.
//!
//! A journal record names one link of a file, and it may be one that is gone.
//! So the links are looked up on the volume, and the index takes over exactly
//! that set.

use super::model::{IndexView, Slot, LOST_FOUND, ROOT};
use super::store::{count_up, counted_up, Tally, VolumeIndex};
use super::update::{accept_name, acceptable};
use crate::bytes::same_bytes;
use crate::types::{EntryIdx, Frn, NIL};
use vstd::prelude::*;

verus! {

/// A name in WTF-8.
pub struct WtfName {
    pub bytes: Vec<u8>,
    /// Whether the name held an unpaired surrogate.
    pub lossy: bool,
}

impl WtfName {
    pub fn new(bytes: Vec<u8>, lossy: bool) -> (name: WtfName)
        ensures
            name.bytes == bytes,
            name.lossy == lossy,
    {
        WtfName { bytes, lossy }
    }
}

/// A name that a file has: in which directory, and which.
pub struct LinkTarget {
    pub parent: EntryIdx,
    pub name: WtfName,
}

/// The place that a target speaks of.
pub type Place = (EntryIdx, Seq<u8>);

impl LinkTarget {
    pub open spec fn place(&self) -> Place {
        (self.parent, self.name.bytes@)
    }
}

/// The places of a list of targets.
pub open spec fn places(targets: Seq<LinkTarget>) -> Seq<Place> {
    targets.map_values(|t: LinkTarget| t.place())
}

impl IndexView {
    /// Where the entry in slot `i` stands.
    pub open spec fn place_of(self, i: EntryIdx) -> Place {
        (self.entry(i).parent, self.name(i))
    }

    /// The file has a name at this place.
    pub open spec fn linked_at(self, frn: u64, place: Place) -> bool {
        exists|i: EntryIdx| #[trigger]
            self.links_of(frn).contains(i) && self.stands_at(i, place)
    }

    /// The entry in slot `i` stands at this place.
    pub open spec fn stands_at(self, i: EntryIdx, place: Place) -> bool {
        !self.entry(i).synthetic && self.place_of(i) == place
    }

    /// The entry in slot `i` stands at none of the places.
    pub open spec fn strays(self, i: EntryIdx, list: Seq<Place>) -> bool {
        self.entry(i).synthetic || !list.contains(self.place_of(i))
    }

    /// A name can be put at this place.
    pub open spec fn takes_link(self, place: Place) -> bool {
        &&& acceptable(place.1)
        &&& self.has_room(place.1)
        &&& self.live(place.0)
        &&& place.0 != LOST_FOUND
    }

    /// The file is a directory, as far as is known.
    pub open spec fn is_known_dir(self, frn: u64) -> bool {
        self.links_of(frn).len() > 0 && self.entry(self.links_of(frn)[0]).is_dir
    }

    /// The entry for a file's name at `place`.
    pub open spec fn link_entry(self, frn: u64, place: Place) -> Slot {
        Slot {
            frn,
            parent: place.0,
            name_id: self.with_known_name(place.1).names.index_of(place.1) as u32,
            is_dir: self.is_known_dir(frn),
            size: self.stat_of(frn).0,
            mtime: self.stat_of(frn).1,
            live: true,
            synthetic: false,
        }
    }

    /// The file with a name at `place`.
    pub open spec fn with_link(self, frn: u64, place: Place) -> IndexView {
        if self.linked_at(frn, place) || !self.takes_link(place) {
            self
        } else {
            self.with_known_name(place.1).with_entry(self.link_entry(frn, place))
        }
    }

    /// The file with a name at each of the places.
    pub open spec fn with_links_added(self, frn: u64, list: Seq<Place>) -> IndexView
        decreases list.len(),
    {
        if list.len() == 0 {
            self
        } else {
            self.with_links_added(frn, list.drop_last()).with_link(frn, list.last())
        }
    }

    /// The file has a name at each of the places.
    pub open spec fn linked_at_all(self, frn: u64, list: Seq<Place>) -> bool {
        forall|k: int| 0 <= k < list.len() ==> self.linked_at(frn, #[trigger] list[k])
    }

    /// The file's names that stand at none of the places.
    pub open spec fn stray_links(self, frn: u64, list: Seq<Place>) -> Seq<EntryIdx> {
        self.links_of(frn).filter(|i: EntryIdx| self.strays(i, list))
    }

    /// The file with names at exactly these places. Where a name cannot be taken
    /// in, none is taken out either: the set would not be the real one. The root
    /// stays as it is.
    pub open spec fn with_links(self, frn: u64, list: Seq<Place>) -> IndexView {
        if frn == self.entry(ROOT).frn {
            self
        } else {
            let w = self.with_links_added(frn, list);
            if w.linked_at_all(frn, list) {
                w.with_all_dropped(self.stray_links(frn, list))
            } else {
                w
            }
        }
    }

    /// `later` has all this index's entries and names, unchanged, and perhaps
    /// more.
    pub open spec fn extended(self, later: IndexView) -> bool {
        &&& self.entries.is_prefix_of(later.entries)
        &&& self.names.is_prefix_of(later.names)
    }
}

/// What is there stays where it is when an index is extended.
pub proof fn lemma_extended(v: IndexView, w: IndexView, i: EntryIdx)
    requires
        v.wf(),
        v.extended(w),
        v.in_range(i),
    ensures
        w.in_range(i),
        w.entry(i) == v.entry(i),
        w.name(i) == v.name(i),
        w.place_of(i) == v.place_of(i),
{
    assert(v.entries[i as int] == w.entries[i as int]);
    let k = v.entry(i).name_id as int;
    assert(v.names[k] == w.names[k]);
}

impl VolumeIndex {
    /// Whether the file has a name at the place of the target.
    fn has_link_at(&self, frn: Frn, target: &LinkTarget) -> (res: bool)
        requires
            self.wf(),
        ensures
            res == self@.linked_at(frn.0, target.place()),
    {
        let list = self.link_list(frn);
        let mut k: usize = 0;
        while k < list.len()
            invariant
                self.wf(),
                k <= list@.len(),
                list@ == self@.links_of(frn.0),
                forall|i: EntryIdx| #[trigger] list@.contains(i) <==> self@.names_file(i, frn.0),
                forall|j: int|
                    0 <= j < k ==> !self@.stands_at(#[trigger] list@[j], target.place()),
            decreases list@.len() - k,
        {
            let i = list[k];
            assert(list@.contains(list@[k as int]));
            assert(self@.in_range(i));
            let slot = self.slot(i);
            if !slot.synthetic && slot.parent == target.parent && same_bytes(
                self.raw_name(slot.name_id),
                target.name.bytes.as_slice(),
            ) {
                return true;
            }
            k += 1;
        }
        proof {
            if self@.linked_at(frn.0, target.place()) {
                let i = choose|i: EntryIdx| #[trigger]
                    self@.links_of(frn.0).contains(i) && self@.stands_at(i, target.place());
                assert(list@[list@.index_of(i)] == i);
            }
        }
        false
    }

    /// Whether the file has a name at the place of each target.
    fn has_links_at(&self, frn: Frn, targets: &Vec<LinkTarget>) -> (res: bool)
        requires
            self.wf(),
        ensures
            res == self@.linked_at_all(frn.0, places(targets@)),
    {
        let ghost list = places(targets@);
        let mut j: usize = 0;
        while j < targets.len()
            invariant
                self.wf(),
                j <= targets@.len(),
                list == places(targets@),
                forall|m: int| 0 <= m < j ==> self@.linked_at(frn.0, #[trigger] list[m]),
            decreases targets@.len() - j,
        {
            assert(list[j as int] == targets@[j as int].place());
            if !self.has_link_at(frn, &targets[j]) {
                return false;
            }
            j += 1;
        }
        true
    }

    /// Gives a file a name at the place of the target, where it has none there
    /// and the name can be taken in.
    fn add_link(&mut self, frn: Frn, target: &LinkTarget)
        requires
            old(self).wf(),
        ensures
            final(self).wf(),
            final(self)@ == old(self)@.with_link(frn.0, target.place()),
            final(self).map_kind() == old(self).map_kind(),
            final(self).tally() == old(self).tally(),
            old(self)@.extended(final(self)@),
    {
        if self.has_link_at(frn, target) {
            return;
        }
        let name: &[u8] = target.name.bytes.as_slice();
        let lower = match accept_name(name) {
            Some(lower) => lower,
            None => return,
        };
        if self.slot_count() >= NIL - 2 {
            return;
        }
        if self.find_name(name).is_none() && !self.has_space(name, lower.len()) {
            return;
        }
        if target.parent == LOST_FOUND || !self.is_live(target.parent) {
            return;
        }
        let ghost v = self@;
        let stat = self.known_stat(frn);
        let list = self.link_list(frn);
        let is_dir = if list.len() > 0 {
            assert(list@.contains(list@[0]));
            self.slot(list[0]).is_dir
        } else {
            false
        };
        let id = self.name_number(name, lower.as_slice());
        assert(self@.entries == v.entries);
        let slot = Slot {
            frn: frn.0,
            parent: target.parent,
            name_id: id,
            is_dir,
            size: stat.0,
            mtime: stat.1,
            live: true,
            synthetic: false,
        };
        assert(slot == v.link_entry(frn.0, target.place()));
        self.push_slot(slot);
    }

    /// The file's names that stand at none of the targets' places.
    fn find_strays(&self, frn: Frn, targets: &Vec<LinkTarget>) -> (strays: Vec<EntryIdx>)
        requires
            self.wf(),
        ensures
            strays@ == self@.stray_links(frn.0, places(targets@)),
    {
        let ghost list = places(targets@);
        let ghost stray = |i: EntryIdx| self@.strays(i, list);
        let links = self.link_list(frn);
        let mut strays: Vec<EntryIdx> = Vec::new();
        let mut k: usize = 0;
        proof {
            assert(links@.take(0) =~= Seq::<EntryIdx>::empty());
            reveal(Seq::filter);
        }
        while k < links.len()
            invariant
                self.wf(),
                k <= links@.len(),
                list == places(targets@),
                stray == (|i: EntryIdx| self@.strays(i, list)),
                forall|i: EntryIdx| #[trigger] links@.contains(i) <==> self@.names_file(i, frn.0),
                strays@ == links@.take(k as int).filter(stray),
            decreases links@.len() - k,
        {
            let i = links[k];
            assert(links@.contains(links@[k as int]));
            assert(self@.in_range(i));
            let slot = self.slot(i);
            let name = self.raw_name(slot.name_id);
            let mut wanted = false;
            let mut j: usize = 0;
            while j < targets.len()
                invariant
                    j <= targets@.len(),
                    list == places(targets@),
                    name@ == self@.name(i),
                    slot == self@.entry(i),
                    wanted <==> exists|m: int|
                        0 <= m < j && #[trigger] list[m] == self@.place_of(i),
                decreases targets@.len() - j,
            {
                assert(list[j as int] == targets@[j as int].place());
                if slot.parent == targets[j].parent && same_bytes(
                    name,
                    targets[j].name.bytes.as_slice(),
                ) {
                    wanted = true;
                }
                j += 1;
            }
            proof {
                assert(wanted <==> list.contains(self@.place_of(i)));
                assert(links@.take(k + 1) =~= links@.take(k as int).push(i));
                crate::seqs::lemma_filter_push(links@.take(k as int), i, stray);
            }
            if slot.synthetic || !wanted {
                strays.push(i);
            }
            k += 1;
        }
        assert(links@.take(k as int) =~= links@);
        strays
    }

    /// Brings a file's names in line with the targets: names that are missing
    /// are added, then those that are not among the targets taken out. No
    /// targets means that the file is gone. Tells whether the file now has all
    /// the targets' names; where it could not get one, nothing is taken out.
    pub fn reconcile_links(&mut self, frn: Frn, targets: &Vec<LinkTarget>) -> (complete: bool)
        requires
            old(self).wf(),
        ensures
            final(self).wf(),
            final(self)@ == old(self)@.with_links(frn.0, places(targets@)),
            final(self).map_kind() == old(self).map_kind(),
            final(self).tally() == (Tally {
                generation: counted_up(old(self).tally().generation, 1),
                ..old(self).tally()
            }),
            complete == (frn.0 == old(self)@.entry(ROOT).frn || old(self)@.with_links_added(
                frn.0,
                places(targets@),
            ).linked_at_all(frn.0, places(targets@))),
    {
        let ghost v = self@;
        let ghost list = places(targets@);
        let tally = self.counters();
        self.set_counters(Tally { generation: count_up(tally.generation, 1), ..tally });
        assert(self@.entry(ROOT).live);
        assert(self@.in_range(ROOT));
        if frn.0 == self.slot(ROOT).frn {
            return true;
        }
        let strays = self.find_strays(frn, targets);
        let ghost stray = |i: EntryIdx| v.strays(i, list);
        proof {
            assert(v.links_of(frn.0).no_duplicates());
            crate::seqs::lemma_filter_distinct(v.links_of(frn.0), stray);
            assert forall|k: int| 0 <= k < strays@.len() implies v.live(#[trigger] strays@[k])
                && LOST_FOUND < strays@[k] by {
                assert(strays@.contains(strays@[k]));
                crate::seqs::lemma_filter_members(v.links_of(frn.0), stray, strays@[k]);
                assert(v.links_of(frn.0).contains(strays@[k]));
            }
        }
        let mut k: usize = 0;
        assert(list.take(0) =~= Seq::<Place>::empty());
        while k < targets.len()
            invariant
                self.wf(),
                v.extended(self@),
                self.map_kind() == old(self).map_kind(),
                self.tally() == (Tally {
                    generation: counted_up(old(self).tally().generation, 1),
                    ..old(self).tally()
                }),
                k <= targets@.len(),
                list == places(targets@),
                self@ == v.with_links_added(frn.0, list.take(k as int)),
            decreases targets@.len() - k,
        {
            let ghost w = self@;
            proof {
                assert(list.take(k + 1).drop_last() =~= list.take(k as int));
                assert(list.take(k + 1).last() == targets@[k as int].place());
            }
            self.add_link(frn, &targets[k]);
            k += 1;
        }
        assert(list.take(k as int) =~= list);
        if !self.has_links_at(frn, targets) {
            return false;
        }
        proof {
            assert forall|m: int| 0 <= m < strays@.len() implies self@.live(#[trigger] strays@[m])
                && LOST_FOUND < strays@[m] by {
                assert(v.live(strays@[m]));
                lemma_extended(v, self@, strays@[m]);
            }
        }
        self.drop_entries(&strays);
        true
    }

    /// Counts link sets that could not be looked up: names on the volume may be
    /// out of date until the next rescan, and the status says so.
    pub fn note_link_reconciles_dropped(&mut self, n: u64)
        requires
            old(self).wf(),
        ensures
            final(self).wf(),
            final(self)@ == old(self)@,
            final(self).map_kind() == old(self).map_kind(),
            final(self).tally() == (Tally {
                link_reconciles_dropped: counted_up(old(self).tally().link_reconciles_dropped, n),
                ..old(self).tally()
            }),
    {
        let tally = self.counters();
        self.set_counters(
            Tally { link_reconciles_dropped: count_up(tally.link_reconciles_dropped, n), ..tally },
        );
    }
}

} // verus!
