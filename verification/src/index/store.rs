//! The data structure behind an index.
//!
//! Names are interned: every entry refers to its name by its number in the name
//! table.

use super::changes::{
    lemma_with_entry, lemma_with_moved, lemma_with_name, lemma_with_removed, lemma_with_stat,
    lemma_without_at, without,
};
use super::compact::{lemma_kept, lemma_with_compacted};
use super::frn_map::{map_bytes, record_number, FrnMap, MapKind, RECORD_SPAN};
use super::model::{arena, arena_start, indexable, names_len, IndexView, Slot, LOST_FOUND, ROOT};
use super::names::{NamePair, NameTable};
use crate::fold::folded;
use crate::types::{EntryIdx, Frn, NIL};
use std::collections::HashMap;
use vstd::prelude::*;

verus! {

broadcast use vstd::std_specs::hash::group_hash_axioms;

/// The reference number of an NTFS volume's root directory.
pub const NTFS_ROOT_FRN: u64 = 0x0005_0000_0000_0005;

/// The content of a list of lists.
pub open spec fn lists(v: Seq<Vec<EntryIdx>>) -> Seq<Seq<EntryIdx>> {
    v.map_values(|l: Vec<EntryIdx>| l@)
}

/// Puts `x` behind the `k`-th list.
fn push_at(v: &mut Vec<Vec<EntryIdx>>, k: usize, x: EntryIdx)
    requires
        k < old(v)@.len(),
    ensures
        final(v)@.len() == old(v)@.len(),
        lists(final(v)@) == lists(old(v)@).update(k as int, lists(old(v)@)[k as int].push(x)),
{
    v[k].push(x);
    assert(lists(v@) =~= lists(old(v)@).update(k as int, lists(old(v)@)[k as int].push(x)));
}

/// Takes `x` out of a list that holds it at most once.
pub(super) fn take_out(list: &mut Vec<EntryIdx>, x: EntryIdx)
    requires
        old(list)@.no_duplicates(),
    ensures
        final(list)@ == without(old(list)@, x),
{
    let mut i: usize = 0;
    while i < list.len()
        invariant
            *list == *old(list),
            i <= list@.len(),
            forall|j: int| 0 <= j < i ==> list@[j] != x,
            list@.no_duplicates(),
        decreases list@.len() - i,
    {
        if list[i] == x {
            proof {
                lemma_without_at(list@, i as int);
            }
            list.remove(i);
            return;
        }
        i += 1;
    }
    assert(!list@.contains(x));
}

/// Takes `x` out of the `k`-th list.
fn take_out_at(v: &mut Vec<Vec<EntryIdx>>, k: usize, x: EntryIdx)
    requires
        k < old(v)@.len(),
        lists(old(v)@)[k as int].no_duplicates(),
    ensures
        final(v)@.len() == old(v)@.len(),
        lists(final(v)@) == lists(old(v)@).update(
            k as int,
            without(lists(old(v)@)[k as int], x),
        ),
{
    assert(lists(v@)[k as int] == v@[k as int]@);
    take_out(&mut v[k], x);
    assert(lists(v@) =~= lists(old(v)@).update(k as int, without(lists(old(v)@)[k as int], x)));
}

/// How many of the lists are empty.
pub open spec fn empty_lists(all: Seq<Seq<EntryIdx>>) -> nat
    decreases all.len(),
{
    if all.len() == 0 {
        0
    } else {
        empty_lists(all.drop_last()) + if all.last().len() == 0 {
            1nat
        } else {
            0
        }
    }
}

/// Exchanging one list changes the count by that list.
pub proof fn lemma_empty_update(all: Seq<Seq<EntryIdx>>, k: int, list: Seq<EntryIdx>)
    requires
        0 <= k < all.len(),
    ensures
        empty_lists(all.update(k, list)) + (if all[k].len() == 0 {
            1int
        } else {
            0
        }) == empty_lists(all) + (if list.len() == 0 {
            1int
        } else {
            0
        }),
        empty_lists(all) <= all.len(),
    decreases all.len(),
{
    let init = all.drop_last();
    if k == all.len() - 1 {
        assert(all.update(k, list).drop_last() =~= init);
        lemma_empty_bounded(init);
    } else {
        assert(all.update(k, list).drop_last() =~= init.update(k, list));
        lemma_empty_update(init, k, list);
    }
}

/// There are no more empty lists than lists.
pub proof fn lemma_empty_bounded(all: Seq<Seq<EntryIdx>>)
    ensures
        empty_lists(all) <= all.len(),
    decreases all.len(),
{
    if all.len() > 0 {
        lemma_empty_bounded(all.drop_last());
    }
}

/// Where no list is empty, none is counted.
proof fn lemma_none_empty(all: Seq<Seq<EntryIdx>>)
    requires
        forall|k: int| 0 <= k < all.len() ==> (#[trigger] all[k]).len() > 0,
    ensures
        empty_lists(all) == 0,
    decreases all.len(),
{
    if all.len() > 0 {
        assert forall|k: int| 0 <= k < all.drop_last().len() implies (
        #[trigger] all.drop_last()[k]).len() > 0 by {
            assert(all[k].len() > 0);
        }
        lemma_none_empty(all.drop_last());
        assert(all[all.len() - 1].len() > 0);
    }
}

/// Puts `x` behind the `k`-th list, and keeps count of the empty ones.
fn bear(v: &mut Vec<Vec<EntryIdx>>, unborne: &mut usize, k: usize, x: EntryIdx)
    requires
        k < old(v)@.len(),
        *old(unborne) == empty_lists(lists(old(v)@)),
    ensures
        final(v)@.len() == old(v)@.len(),
        lists(final(v)@) == lists(old(v)@).update(k as int, lists(old(v)@)[k as int].push(x)),
        *final(unborne) == empty_lists(lists(final(v)@)),
{
    let ghost all = lists(v@);
    proof {
        lemma_empty_update(all, k as int, all[k as int].push(x));
        assert(all[k as int] == v@[k as int]@);
    }
    if v[k].len() == 0 {
        *unborne = *unborne - 1;
    }
    push_at(v, k, x);
}

/// Takes `x` out of the `k`-th list, and keeps count of the empty ones.
fn unbear(v: &mut Vec<Vec<EntryIdx>>, unborne: &mut usize, k: usize, x: EntryIdx)
    requires
        k < old(v)@.len(),
        lists(old(v)@)[k as int].contains(x),
        lists(old(v)@)[k as int].no_duplicates(),
        *old(unborne) == empty_lists(lists(old(v)@)),
    ensures
        final(v)@.len() == old(v)@.len(),
        lists(final(v)@) == lists(old(v)@).update(
            k as int,
            without(lists(old(v)@)[k as int], x),
        ),
        *final(unborne) == empty_lists(lists(final(v)@)),
{
    let ghost all = lists(v@);
    proof {
        lemma_empty_update(all, k as int, without(all[k as int], x));
        lemma_empty_bounded(all.update(k as int, without(all[k as int], x)));
        assert(all[k as int] == v@[k as int]@);
        assert(v.len() == v@.len());
        assert(all[k as int].len() > 0);
    }
    if v[k].len() == 1 {
        assert(without(all[k as int], x).len() == 0);
        *unborne = *unborne + 1;
    }
    take_out_at(v, k, x);
}

/// What an index has counted since it was made. A full counter stays full.
#[derive(Clone, Copy, Debug, PartialEq, Eq, Structural)]
pub struct Tally {
    /// Placeholders made for directories referred to but not seen.
    pub placeholders_created: u64,
    /// Deletions of files that the index did not have.
    pub delete_of_unknown: u64,
    /// Link sets that could not be looked up.
    pub link_reconciles_dropped: u64,
    /// Changes taken in.
    pub generation: u64,
}

/// A counter gone up by `n`.
pub open spec fn counted_up(count: u64, n: u64) -> u64 {
    if count + n <= u64::MAX {
        (count + n) as u64
    } else {
        u64::MAX
    }
}

/// A counter gone up by `n`.
pub fn count_up(count: u64, n: u64) -> (res: u64)
    ensures
        res == counted_up(count, n),
{
    if n <= u64::MAX - count {
        count + n
    } else {
        u64::MAX
    }
}

/// One volume's names and how they hang together.
pub struct VolumeIndex {
    slots: Vec<Slot>,
    names: NameTable,
    chains: Vec<Vec<EntryIdx>>,
    children: Vec<Vec<EntryIdx>>,
    frn_map: FrnMap,
    /// Names that no entry bears.
    unborne: usize,
    tally: Tally,
    rank: Ghost<Seq<nat>>,
}

impl View for VolumeIndex {
    type V = IndexView;

    closed spec fn view(&self) -> IndexView {
        IndexView {
            entries: self.slots@,
            names: self.names@,
            chains: lists(self.chains@),
            children: lists(self.children@),
            links: self.frn_map@,
            rank: self.rank@,
        }
    }
}

impl VolumeIndex {
    /// The representation is in order.
    pub closed spec fn stored(&self) -> bool {
        &&& self.names.wf()
        &&& self.unborne == empty_lists(lists(self.chains@))
        &&& self.frn_map.wf()
    }

    /// The index is well formed.
    pub open spec fn wf(&self) -> bool {
        self.stored() && self@.wf()
    }

    /// What the index has counted.
    pub closed spec fn tally(&self) -> Tally {
        self.tally
    }

    /// How the file map is held.
    pub closed spec fn map_kind(&self) -> MapKind {
        self.frn_map.kind()
    }

    /// How many rows the file map's table has.
    pub closed spec fn map_rows(&self) -> nat {
        self.frn_map.rows()
    }

    /// A row of the file map's table is taken.
    pub closed spec fn map_row_taken(&self, k: int) -> bool {
        self.frn_map.row_taken(k)
    }

    /// How many files the file map holds apart from its table.
    pub closed spec fn map_apart(&self) -> nat {
        self.frn_map.apart()
    }

    /// What the index has counted.
    pub(super) fn counters(&self) -> (tally: Tally)
        ensures
            tally == self.tally(),
    {
        self.tally
    }

    /// Sets the counters.
    pub(super) fn set_counters(&mut self, tally: Tally)
        requires
            old(self).wf(),
        ensures
            final(self).wf(),
            final(self)@ == old(self)@,
            final(self).map_kind() == old(self).map_kind(),
            final(self).tally() == tally,
    {
        self.tally = tally;
    }

    /// The name numbered `id`.
    pub(super) fn raw_name(&self, id: u32) -> (name: &[u8])
        requires
            self.wf(),
            id < self@.names.len(),
        ensures
            name@ == self@.names[id as int],
    {
        self.names.raw_name(id)
    }

    /// The number of a name, where the index has it.
    pub(super) fn find_name(&self, name: &[u8]) -> (id: Option<u32>)
        requires
            self.wf(),
        ensures
            match id {
                Some(k) => k < self@.names.len() && self@.names[k as int] == name@,
                None => !self@.names.contains(name@),
            },
    {
        self.names.find(name)
    }

    /// Interns a new name.
    pub(super) fn add_name(&mut self, name: &[u8], lower: &[u8]) -> (id: u32)
        requires
            old(self).wf(),
            indexable(name@),
            lower@ == folded(name@),
            !old(self)@.names.contains(name@),
            old(self)@.fits(name@),
        ensures
            final(self).wf(),
            final(self)@ == old(self)@.with_name(name@),
            final(self).map_kind() == old(self).map_kind(),
            final(self).tally() == old(self).tally(),
            id == old(self)@.names.len(),
    {
        let id = self.names.push(name, lower);
        proof {
            lemma_empty_bounded(lists(self.chains@));
            assert(self.chains.len() == self.chains@.len());
        }
        self.unborne = self.unborne + 1;
        self.chains.push(Vec::new());
        proof {
            assert(lists(self.chains@).drop_last() =~= lists(old(self).chains@));
            assert(self@.chains =~= old(self)@.chains.push(seq![])) by {
                assert(self.chains@.last()@ =~= Seq::<EntryIdx>::empty());
            }
            assert(self@ =~= old(self)@.with_name(name@));
            lemma_with_name(old(self)@, name@);
        }
        id
    }

    /// An index of nothing but the volume root, and the lost+found that every
    /// index has.
    pub fn new(root_frn: Frn, frn_map: FrnMap) -> (index: VolumeIndex)
        requires
            frn_map@ == Map::<u64, Seq<EntryIdx>>::empty(),
            frn_map.wf(),
        ensures
            index.wf(),
            index.map_kind() == frn_map.kind(),
            index@ == IndexView::fresh(root_frn.0),
            index.tally() == (Tally {
                placeholders_created: 0,
                delete_of_unknown: 0,
                link_reconciles_dropped: 0,
                generation: 0,
            }),
    {
        let top = Slot {
            frn: root_frn.0,
            parent: NIL,
            name_id: 0,
            is_dir: true,
            size: None,
            mtime: None,
            live: true,
            synthetic: true,
        };
        let mut frn_map = frn_map;
        frn_map.push(root_frn.0, ROOT);
        let lost = Slot { frn: 0, ..top };
        let ghost level: Seq<nat> = seq![0nat, 0nat];
        let index = VolumeIndex {
            slots: vec![top, lost],
            names: NameTable::new(),
            chains: vec![vec![ROOT, LOST_FOUND]],
            children: vec![Vec::new(), Vec::new()],
            frn_map,
            unborne: 0,
            tally: Tally {
                placeholders_created: 0,
                delete_of_unknown: 0,
                link_reconciles_dropped: 0,
                generation: 0,
            },
            rank: Ghost(level),
        };
        proof {
            let v = index@;
            assert(folded(Seq::<u8>::empty()) =~= Seq::<u8>::empty());
            assert(v.names[0] =~= Seq::<u8>::empty());
            assert(v.chains =~= seq![seq![ROOT, LOST_FOUND]]) by {
                assert(index.chains@[0]@ =~= seq![ROOT, LOST_FOUND]);
            }
            assert(v.chains.drop_last() =~= Seq::<Seq<EntryIdx>>::empty());
            assert(empty_lists(v.chains.drop_last()) == 0);
            assert(v.children =~= seq![Seq::<EntryIdx>::empty(), Seq::<EntryIdx>::empty()]) by {
                assert(index.children@[0]@ =~= Seq::<EntryIdx>::empty());
                assert(index.children@[1]@ =~= Seq::<EntryIdx>::empty());
            }
            assert(v.links =~= map![root_frn.0 => seq![ROOT]]);
            assert(v.entries =~= seq![top, lost]);
            assert(v =~= IndexView::fresh(root_frn.0));
            assert(v.shaped());
            assert(v.named());
            assert forall|i: EntryIdx| #[trigger] v.chains[0].contains(i) <==> v.live(i)
                && v.entry(i).name_id == 0 by {
                if v.live(i) {
                    assert(v.chains[0][i as int] == i);
                }
            }
            assert(v.chained());
            assert(v.parented());
            assert forall|i: EntryIdx| #[trigger] v.links[root_frn.0].contains(i) <==> v.live(i) && i
                != LOST_FOUND && v.entry(i).frn == root_frn.0 by {
                if i == ROOT {
                    assert(v.links[root_frn.0][0] == i);
                }
            }
            assert(v.linked());
        }
        index
    }

    /// Adds a live entry under a live directory.
    pub(super) fn push_slot(&mut self, slot: Slot) -> (idx: EntryIdx)
        requires
            old(self).wf(),
            old(self)@.entries.len() + 1 < NIL,
            slot.live,
            old(self)@.live(slot.parent),
            slot.name_id < old(self)@.names.len(),
            slot.synthetic <==> slot.parent == LOST_FOUND,
        ensures
            final(self).wf(),
            final(self)@ == old(self)@.with_entry(slot),
            final(self).map_kind() == old(self).map_kind(),
            final(self).tally() == old(self).tally(),
            idx == old(self)@.entries.len(),
    {
        let idx = self.slots.len() as EntryIdx;
        let ghost level = self.rank@.push(self.rank@[slot.parent as int] + 1);
        self.slots.push(slot);
        bear(&mut self.chains, &mut self.unborne, slot.name_id as usize, idx);
        push_at(&mut self.children, slot.parent as usize, idx);
        self.children.push(Vec::new());
        self.frn_map.push(slot.frn, idx);
        self.rank = Ghost(level);
        proof {
            assert(self.children@.last()@ =~= Seq::<EntryIdx>::empty());
            assert(self@ =~= old(self)@.with_entry(slot));
            lemma_with_entry(old(self)@, slot);
        }
        idx
    }

    /// Gives an entry another place and what else `slot` says.
    pub(super) fn move_slot(&mut self, p: EntryIdx, slot: Slot)
        requires
            old(self).wf(),
            old(self)@.live(p),
            LOST_FOUND < p,
            slot.live,
            slot.frn == old(self)@.entry(p).frn,
            old(self)@.live(slot.parent),
            slot.synthetic <==> slot.parent == LOST_FOUND,
            slot.parent != p,
            !old(self)@.descends(slot.parent, p),
            slot.name_id < old(self)@.names.len(),
        ensures
            final(self).wf(),
            final(self)@ == old(self)@.with_moved(p, slot),
            final(self).map_kind() == old(self).map_kind(),
            final(self).tally() == old(self).tally(),
    {
        let ghost after = self@.with_moved(p, slot);
        proof {
            assert(self@.has_parent(p));
            assert(self@.in_range(p));
            let k = self@.entry(p).name_id as int;
            assert(self@.chains[k].no_duplicates());
            assert(self@.in_range(self@.entry(p).parent));
            assert(self@.children[self@.entry(p).parent as int].no_duplicates());
        }
        let was = self.slots[p as usize];
        unbear(&mut self.chains, &mut self.unborne, was.name_id as usize, p);
        take_out_at(&mut self.children, was.parent as usize, p);
        bear(&mut self.chains, &mut self.unborne, slot.name_id as usize, p);
        push_at(&mut self.children, slot.parent as usize, p);
        self.slots.set(p as usize, slot);
        self.rank = Ghost(after.rank);
        proof {
            assert(self@ =~= after);
            lemma_with_moved(old(self)@, p, slot);
        }
    }

    /// Drops an entry with nothing under it.
    pub(super) fn remove_slot(&mut self, idx: EntryIdx)
        requires
            old(self).wf(),
            old(self)@.live(idx),
            LOST_FOUND < idx,
            old(self)@.children[idx as int].len() == 0,
        ensures
            final(self).wf(),
            final(self)@ == old(self)@.with_removed(idx),
            final(self).map_kind() == old(self).map_kind(),
            final(self).tally() == old(self).tally(),
    {
        proof {
            let v = self@;
            assert(v.has_parent(idx));
            assert(v.in_range(idx));
            assert(v.chains[v.entry(idx).name_id as int].no_duplicates());
            assert(v.in_range(v.entry(idx).parent));
            assert(v.children[v.entry(idx).parent as int].no_duplicates());
            assert(v.links.contains_key(v.entry(idx).frn));
        }
        let slot = self.slots[idx as usize];
        unbear(&mut self.chains, &mut self.unborne, slot.name_id as usize, idx);
        take_out_at(&mut self.children, slot.parent as usize, idx);
        self.frn_map.take_out(slot.frn, idx);
        self.slots.set(idx as usize, Slot { live: false, ..slot });
        proof {
            assert(self@ =~= old(self)@.with_removed(idx));
            lemma_with_removed(old(self)@, idx);
        }
    }

    /// Notes the size and time of one entry.
    pub(super) fn note_stat(&mut self, idx: EntryIdx, size: u64, mtime: i64)
        requires
            old(self).wf(),
            old(self)@.live(idx),
        ensures
            final(self).wf(),
            final(self)@ == old(self)@.with_stat(idx, size, mtime),
            final(self).map_kind() == old(self).map_kind(),
            final(self).tally() == old(self).tally(),
    {
        let slot = self.slots[idx as usize];
        self.slots.set(idx as usize, Slot { size: Some(size), mtime: Some(mtime), ..slot });
        proof {
            assert(self@ =~= old(self)@.with_stat(idx, size, mtime));
            lemma_with_stat(old(self)@, idx, size, mtime);
        }
    }

    /// The names keep within their bounds.
    pub(super) proof fn lemma_name_sizes(&self)
        requires
            self.wf(),
        ensures
            names_len(self@.names) <= NIL,
            arena(self@.names).len() <= NIL,
    {
        self.names.lemma_sizes();
    }

    /// How many names there are.
    pub(super) fn name_count(&self) -> (n: u32)
        requires
            self.wf(),
        ensures
            n == self@.names.len(),
    {
        self.names.len() as u32
    }

    /// How many names no entry bears.
    pub(super) fn unborne_names(&self) -> (n: usize)
        requires
            self.wf(),
        ensures
            n == empty_lists(self@.chains),
    {
        self.unborne
    }

    /// Puts another name table in place: `keep` lists the numbers of the names
    /// it holds, and `numbers` gives each name's new number.
    pub(super) fn renumber(&mut self, table: NameTable, keep: &Vec<u32>, numbers: &Vec<u32>)
        requires
            old(self).wf(),
            table.wf(),
            table@ == old(self)@.kept().map_values(|k: u32| old(self)@.names[k as int]),
            keep@ == old(self)@.kept(),
            numbers@.len() == old(self)@.names.len(),
            forall|k: u32|
                k < numbers@.len() ==> #[trigger] numbers@[k as int] == old(self)@.new_number(k),
        ensures
            final(self).wf(),
            final(self)@ == old(self)@.with_compacted(),
            final(self).map_kind() == old(self).map_kind(),
            final(self).tally() == old(self).tally(),
    {
        let ghost v = self@;
        let ghost want = v.with_compacted();
        proof {
            lemma_with_compacted(v);
            lemma_kept(v, v.names.len());
        }
        let mut was: Vec<Vec<EntryIdx>> = Vec::new();
        std::mem::swap(&mut was, &mut self.chains);
        proof {
            assert(lists(was@) == v.chains);
            assert forall|m: int| 0 <= m < keep@.len() implies #[trigger] keep@[m] < was@.len()
                && was@[keep@[m] as int]@ == v.chains[keep@[m] as int] by {
                assert(v.kept().contains(keep@[m]));
                assert(lists(was@)[keep@[m] as int] == was@[keep@[m] as int]@);
            }
        }
        let mut chains: Vec<Vec<EntryIdx>> = Vec::new();
        let mut j: usize = 0;
        while j < keep.len()
            invariant
                j <= keep@.len(),
                keep@.no_duplicates(),
                forall|m: int| 0 <= m < keep@.len() ==> #[trigger] keep@[m] < was@.len(),
                forall|m: int|
                    j <= m < keep@.len() ==> was@[#[trigger] keep@[m] as int]@
                        == v.chains[keep@[m] as int],
                chains@.len() == j,
                forall|m: int| 0 <= m < j ==> (#[trigger] chains@[m])@ == v.chains[keep@[m] as int],
            decreases keep@.len() - j,
        {
            let k = keep[j] as usize;
            let mut list: Vec<EntryIdx> = Vec::new();
            let ghost before = was@;
            std::mem::swap(&mut list, &mut was[k]);
            chains.push(list);
            proof {
                assert forall|m: int| j + 1 <= m < keep@.len() implies was@[
                    #[trigger] keep@[m] as int]@ == v.chains[keep@[m] as int] by {
                    assert(keep@[m] != keep@[j as int]);
                    assert(was@[keep@[m] as int] == before[keep@[m] as int]);
                }
            }
            j += 1;
        }
        let mut i: usize = 0;
        while i < self.slots.len()
            invariant
                i <= self.slots@.len(),
                self.slots@.len() == v.entries.len(),
                numbers@.len() == v.names.len(),
                v.wf(),
                forall|k: u32|
                    k < numbers@.len() ==> #[trigger] numbers@[k as int] == v.new_number(k),
                want == v.with_compacted(),
                forall|m: int| i <= m < self.slots@.len() ==> self.slots@[m] == v.entries[m],
                forall|m: int| 0 <= m < i ==> self.slots@[m] == want.entries[m],
                self.children == old(self).children,
                self.frn_map == old(self).frn_map,
                self.rank == old(self).rank,
                self.tally == old(self).tally,
            decreases self.slots@.len() - i,
        {
            let slot = self.slots[i];
            proof {
                assert(v.in_range(i as EntryIdx));
                assert(v.entry(i as EntryIdx) == slot);
                assert(numbers@[slot.name_id as int] == v.new_number(slot.name_id));
            }
            let number = numbers[slot.name_id as usize];
            self.slots.set(i, Slot { name_id: number, ..slot });
            i += 1;
        }
        self.names = table;
        self.chains = chains;
        self.unborne = 0;
        proof {
            assert(lists(self.chains@) =~= want.chains) by {
                assert forall|m: int| 0 <= m < self.chains@.len() implies lists(self.chains@)[m]
                    == want.chains[m] by {
                    assert(self.chains@[m]@ == v.chains[keep@[m] as int]);
                }
            }
            assert forall|m: int| 0 <= m < want.chains.len() implies (
            #[trigger] want.chains[m]).len() > 0 by {
                assert(v.kept().contains(v.kept()[m]));
            }
            lemma_none_empty(want.chains);
            assert(self.slots@ =~= want.entries);
            assert(self@ =~= want);
        }
    }

    /// What the slot `idx` holds.
    pub(super) fn slot(&self, idx: EntryIdx) -> (slot: Slot)
        requires
            self.wf(),
            self@.in_range(idx),
        ensures
            slot == self@.entry(idx),
    {
        self.slots[idx as usize]
    }

    /// The number of slots, used and unused.
    pub(super) fn slot_count(&self) -> (n: EntryIdx)
        requires
            self.wf(),
        ensures
            n == self@.entries.len(),
    {
        self.slots.len() as EntryIdx
    }

    /// The live entries directly under `idx`.
    pub(super) fn children_of(&self, idx: EntryIdx) -> (list: &[EntryIdx])
        requires
            self.wf(),
            self@.in_range(idx),
        ensures
            list@ == self@.children[idx as int],
    {
        assert(lists(self.children@)[idx as int] == self.children@[idx as int]@);
        self.children[idx as usize].as_slice()
    }

    /// The names of the file `frn`.
    pub(super) fn links_of(&self, frn: Frn) -> (links: Option<&Vec<EntryIdx>>)
        requires
            self.wf(),
        ensures
            match links {
                Some(l) => self@.links.contains_key(frn.0) && l@ == self@.links[frn.0],
                None => !self@.links.contains_key(frn.0),
            },
    {
        self.frn_map.get(frn.0)
    }

    /// Whether `name`, of this folded length, can be interned.
    pub(super) fn has_space(&self, name: &[u8], folded_len: usize) -> (res: bool)
        requires
            self.wf(),
            folded_len == folded(name@).len(),
        ensures
            res == self@.fits(name@),
    {
        self.names.has_space(name, folded_len)
    }

    /// The folded form of the name numbered `id`.
    pub(super) fn folded_by_number(&self, id: u32) -> (name: &[u8])
        requires
            self.wf(),
            id < self@.names.len(),
        ensures
            name@ == folded(self@.names[id as int]),
    {
        self.names.folded_name(id)
    }

    /// The folded arena: every distinct name once, each ended by a NUL.
    pub fn folded_bytes(&self) -> (hay: &[u8])
        requires
            self.wf(),
        ensures
            hay@ == arena(self@.names),
            hay@.len() <= NIL,
    {
        self.names.folded_bytes()
    }

    /// Where each name stands in the arenas, by number.
    pub fn name_pairs(&self) -> (pairs: &[NamePair])
        requires
            self.wf(),
        ensures
            pairs@.len() == self@.names.len(),
            forall|k: int|
                0 <= k < pairs@.len() ==> (#[trigger] pairs@[k]).folded.off == arena_start(
                    self@.names,
                    k,
                ),
    {
        self.names.pairs()
    }

    /// The live entries that bear the name numbered `id`.
    pub fn name_chain(&self, id: u32) -> (list: &[EntryIdx])
        requires
            self.wf(),
            id < self@.names.len(),
        ensures
            list@ == self@.chains[id as int],
    {
        assert(lists(self.chains@)[id as int] == self.chains@[id as int]@);
        self.chains[id as usize].as_slice()
    }
}

/// Bytes that a part of the index fills, and bytes that it holds.
#[derive(Clone, Copy, Debug, PartialEq, Eq, Structural)]
pub struct ComponentBytes {
    pub used: u64,
    pub allocated: u64,
}

/// What the parts of an index fill and hold.
pub struct IndexMemory {
    pub entries: ComponentBytes,
    pub arena_raw: ComponentBytes,
    pub arena_folded: ComponentBytes,
    pub frn_map: ComponentBytes,
    pub name_tables: ComponentBytes,
    pub dir_children: ComponentBytes,
    pub frn_map_kind: String,
}

/// How many elements the lists hold together.
pub open spec fn lists_len(all: Seq<Seq<EntryIdx>>) -> nat
    decreases all.len(),
{
    if all.len() == 0 {
        0
    } else {
        lists_len(all.drop_last()) + all.last().len()
    }
}

/// `x` as a 64-bit number, the largest where it is too large.
pub open spec fn clamped(x: nat) -> u64 {
    if x <= u64::MAX {
        x as u64
    } else {
        u64::MAX
    }
}

/// The bytes of `n` elements of `size` bytes each.
pub(super) fn bytes_of(n: usize, size: usize) -> (b: u64)
    ensures
        b == clamped(n as nat * size as nat),
{
    match (n as u64).checked_mul(size as u64) {
        Some(b) => b,
        None => u64::MAX,
    }
}

/// How many elements a vector can hold as it is: `Vec::capacity`. It holds at
/// least those that are in it; how much more depends on the allocator.
#[verifier::external_body]
fn vec_capacity<T>(v: &Vec<T>) -> (n: usize)
    ensures
        n >= v@.len(),
{
    v.capacity()
}

/// How many pairs a map can hold as it is: `HashMap::capacity`. It holds at
/// least those that are in it.
#[verifier::external_body]
pub(super) fn map_capacity(m: &HashMap<u64, Vec<EntryIdx>>) -> (n: usize)
    ensures
        n >= m@.len(),
{
    m.capacity()
}

/// The bytes of a vector.
pub(super) fn vec_bytes<T>(v: &Vec<T>) -> (b: ComponentBytes)
    ensures
        b.used == clamped(v@.len() * vstd::layout::size_of::<T>()),
        b.allocated >= b.used,
{
    let size = core::mem::size_of::<T>();
    let n = v.len();
    let held = vec_capacity(v);
    proof {
        assert(n as nat * size as nat <= held as nat * size as nat) by (nonlinear_arith)
            requires
                n <= held,
        ;
    }
    ComponentBytes { used: bytes_of(n, size), allocated: bytes_of(held, size) }
}

/// The bytes of two parts together.
pub(super) fn together(a: ComponentBytes, b: ComponentBytes) -> (c: ComponentBytes)
    requires
        a.allocated >= a.used,
        b.allocated >= b.used,
    ensures
        c.used == clamped(a.used as nat + b.used as nat),
        c.allocated >= c.used,
{
    ComponentBytes {
        used: a.used.saturating_add(b.used),
        allocated: a.allocated.saturating_add(b.allocated),
    }
}

/// The bytes of a table of lists, and of the lists.
fn table_bytes(table: &Vec<Vec<EntryIdx>>) -> (b: ComponentBytes)
    ensures
        b.used == clamped(
            clamped(table@.len() * vstd::layout::size_of::<Vec<EntryIdx>>()) as nat + clamped(
                4 * lists_len(lists(table@)),
            ) as nat,
        ),
        b.allocated >= b.used,
{
    let mut used: u64 = 0;
    let mut held: u64 = 0;
    let mut k: usize = 0;
    assert(lists(table@).take(0) =~= Seq::<Seq<EntryIdx>>::empty());
    while k < table.len()
        invariant
            k <= table@.len(),
            used <= held,
            used == clamped(4 * lists_len(lists(table@).take(k as int))),
        decreases table@.len() - k,
    {
        proof {
            assert(lists(table@).take(k + 1).drop_last() =~= lists(table@).take(k as int));
            assert(lists(table@).take(k + 1).last() == table@[k as int]@);
            assert(table@[k as int].len() == table@[k as int]@.len());
        }
        let n = table[k].len();
        let m = vec_capacity(&table[k]);
        let more = bytes_of(n, 4);
        let most = bytes_of(m, 4);
        used = used.saturating_add(more);
        held = held.saturating_add(most);
        k += 1;
    }
    assert(lists(table@).take(k as int) =~= lists(table@));
    together(vec_bytes(table), ComponentBytes { used, allocated: held })
}

impl IndexView {
    /// The bytes that the entries fill.
    pub open spec fn entries_bytes(self) -> u64 {
        clamped(self.entries.len() * vstd::layout::size_of::<Slot>())
    }

    /// The bytes that the names' places and the lists of their bearers fill.
    pub open spec fn name_tables_bytes(self) -> u64 {
        clamped(
            clamped(self.names.len() * vstd::layout::size_of::<NamePair>()) as nat + clamped(
                clamped(self.names.len() * vstd::layout::size_of::<Vec<EntryIdx>>()) as nat
                    + clamped(4 * lists_len(self.chains)) as nat,
            ) as nat,
        )
    }

    /// The bytes that the lists of children fill.
    pub open spec fn dir_children_bytes(self) -> u64 {
        clamped(
            clamped(self.entries.len() * vstd::layout::size_of::<Vec<EntryIdx>>()) as nat
                + clamped(4 * lists_len(self.children)) as nat,
        )
    }
}

impl VolumeIndex {
    /// The bytes that the file map fills: its table, and the hash map for what
    /// that does not take. The lists that they lead to do not count.
    pub open spec fn frn_map_bytes(&self) -> u64 {
        map_bytes(self.map_rows(), self.map_apart())
    }

    /// What the parts of the index fill and hold.
    pub fn memory(&self) -> (m: IndexMemory)
        requires
            self.wf(),
        ensures
            m.entries.used == self@.entries_bytes(),
            m.arena_raw.used == names_len(self@.names),
            m.arena_folded.used == arena(self@.names).len(),
            m.frn_map.used == self.frn_map_bytes(),
            m.name_tables.used == self@.name_tables_bytes(),
            m.dir_children.used == self@.dir_children_bytes(),
            m.entries.allocated >= m.entries.used,
            m.arena_raw.allocated >= m.arena_raw.used,
            m.arena_folded.allocated >= m.arena_folded.used,
            m.frn_map.allocated >= m.frn_map.used,
            m.name_tables.allocated >= m.name_tables.used,
            m.dir_children.allocated >= m.dir_children.used,
            m.frn_map_kind@ == self.map_kind().label_text(),
    {
        let (raw, low, places) = self.names.footprint();
        IndexMemory {
            entries: vec_bytes(&self.slots),
            arena_raw: raw,
            arena_folded: low,
            frn_map: self.frn_map.footprint(),
            name_tables: together(places, table_bytes(&self.chains)),
            dir_children: table_bytes(&self.children),
            frn_map_kind: self.frn_map.held_as().label().to_string(),
        }
    }

    /// A sparse file map has no table, and a dense one holds no more files apart
    /// from its table than there are.
    pub proof fn law_map_sizes(&self)
        requires
            self.wf(),
        ensures
            self.map_apart() <= self@.links.len(),
            self.map_kind() is Sparse ==> self.map_rows() == 0 && self.map_apart()
                == self@.links.len(),
    {
        self.frn_map.lemma_apart();
    }
}

/// One more than the largest record number of an entry.
pub open spec fn record_end(entries: Seq<Slot>) -> nat
    decreases entries.len(),
{
    if entries.len() == 0 {
        0
    } else {
        let before = record_end(entries.drop_last());
        let n = record_number(entries.last().frn) as nat + 1;
        if before >= n {
            before
        } else {
            n
        }
    }
}

/// How many rows a table for so many entries may have: four for each of them, as
/// far as the machine can count.
pub open spec fn most_rows(entries: nat) -> nat {
    if 4 * entries <= usize::MAX {
        4 * entries
    } else {
        usize::MAX as nat
    }
}

/// How many rows a table for these entries gets: one for each record number, as
/// far as they lie close enough together.
pub open spec fn table_rows(entries: Seq<Slot>) -> nat {
    if record_end(entries) <= most_rows(entries.len()) {
        record_end(entries)
    } else {
        most_rows(entries.len())
    }
}

/// Gives back what a vector holds beyond its elements, with
/// `Vec::shrink_to_fit`, which leaves the elements alone.
#[verifier::external_body]
pub(super) fn shrink_vec<T>(v: &mut Vec<T>)
    ensures
        final(v)@ == old(v)@,
{
    v.shrink_to_fit();
}

/// Gives back what a map holds beyond its pairs, with `HashMap::shrink_to_fit`,
/// which leaves the pairs alone.
#[verifier::external_body]
pub(super) fn shrink_map<V>(m: &mut HashMap<u64, V>)
    ensures
        final(m)@ == old(m)@,
{
    m.shrink_to_fit();
}

/// Gives back what the lists of a table, and the table, hold beyond their
/// elements.
fn shrink_table(table: &mut Vec<Vec<EntryIdx>>)
    ensures
        lists(final(table)@) == lists(old(table)@),
        final(table)@.len() == old(table)@.len(),
{
    let ghost all = lists(table@);
    let mut k: usize = 0;
    while k < table.len()
        invariant
            lists(table@) == all,
            table@.len() == old(table)@.len(),
            k <= table@.len(),
        decreases table@.len() - k,
    {
        let ghost was = table@;
        shrink_vec(&mut table[k]);
        assert(lists(table@) =~= lists(was));
        k += 1;
    }
    shrink_vec(table);
}

impl VolumeIndex {
    /// The index says what `before` says, and its file map is a table: as long as
    /// its record numbers ask for, with no row left free that a file could take.
    pub open spec fn optimized(&self, before: VolumeIndex) -> bool {
        &&& self@ == before@
        &&& self.tally() == before.tally()
        &&& self.map_kind() is Dense
        &&& self.map_rows() == if table_rows(before@.entries) > before.map_rows() {
            table_rows(before@.entries)
        } else {
            before.map_rows()
        }
        &&& forall|i: EntryIdx| #[trigger]
            before@.in_range(i) && before@.links.contains_key(before@.entry(i).frn)
                && record_number(before@.entry(i).frn) < self.map_rows() ==> self.map_row_taken(
                record_number(before@.entry(i).frn) as int,
            )
    }

    /// Makes the index small once it is built: the file map gets its table, and
    /// what growth left over is given back. Nothing changes in what the index
    /// says.
    pub fn optimize_storage(&mut self)
        requires
            old(self).wf(),
        ensures
            final(self).wf(),
            final(self).optimized(*old(self)),
    {
        let ghost v = self@;
        let most: usize = if self.slots.len() <= usize::MAX / 4 {
            4 * self.slots.len()
        } else {
            usize::MAX
        };
        let mut end: u64 = 0;
        let mut k: usize = 0;
        assert(v.entries.take(0) =~= Seq::<Slot>::empty());
        while k < self.slots.len()
            invariant
                *self == *old(self),
                v == self@,
                k <= self.slots@.len(),
                self.slots@ == v.entries,
                end == record_end(v.entries.take(k as int)),
            decreases self.slots@.len() - k,
        {
            proof {
                assert(v.entries.take(k + 1).drop_last() =~= v.entries.take(k as int));
                assert(v.entries.take(k + 1).last() == v.entries[k as int]);
            }
            let n: u64 = self.slots[k].frn % RECORD_SPAN + 1;
            if n > end {
                end = n;
            }
            k += 1;
        }
        assert(v.entries.take(k as int) =~= v.entries);
        let rows: usize = if end <= most as u64 {
            end as usize
        } else {
            most
        };
        self.frn_map.densify(rows);
        let mut k: usize = 0;
        while k < self.slots.len()
            invariant
                self.stored(),
                self@ == v,
                self.tally() == old(self).tally(),
                self.map_kind() is Dense,
                self.map_rows() == if rows > old(self).map_rows() {
                    rows as nat
                } else {
                    old(self).map_rows()
                },
                k <= self.slots@.len(),
                forall|i: int|
                    0 <= i < k && v.links.contains_key((#[trigger] v.entries[i]).frn)
                        && record_number(v.entries[i].frn) < self.map_rows()
                        ==> self.map_row_taken(record_number(v.entries[i].frn) as int),
            decreases self.slots@.len() - k,
        {
            self.frn_map.settle(self.slots[k].frn);
            assert(self@ =~= v);
            k += 1;
        }
        self.frn_map.shrink();
        self.names.shrink();
        shrink_vec(&mut self.slots);
        shrink_table(&mut self.chains);
        shrink_table(&mut self.children);
        assert(self@ =~= v);
    }
}

/// Counters go up by what is counted and stop at the largest number.
pub proof fn law_counters(count: u64, n: u64)
    ensures
        count + n <= 0xFFFF_FFFF_FFFF_FFFF ==> counted_up(count, n) == count + n,
        count + n > 0xFFFF_FFFF_FFFF_FFFF ==> counted_up(count, n) == 0xFFFF_FFFF_FFFF_FFFF,
{
}

/// What the parts of an index fill, as long as it can be counted: every entry,
/// every name and every link in a list counts.
pub proof fn law_memory_filled(v: IndexView)
    requires
        v.entries.len() * vstd::layout::size_of::<Slot>() <= u64::MAX,
        v.names.len() * vstd::layout::size_of::<NamePair>() + v.names.len()
            * vstd::layout::size_of::<Vec<EntryIdx>>() + 4 * lists_len(v.chains) <= u64::MAX,
        v.entries.len() * vstd::layout::size_of::<Vec<EntryIdx>>() + 4 * lists_len(v.children)
            <= u64::MAX,
    ensures
        v.entries_bytes() == v.entries.len() * vstd::layout::size_of::<Slot>(),
        v.name_tables_bytes() == v.names.len() * vstd::layout::size_of::<NamePair>()
            + v.names.len() * vstd::layout::size_of::<Vec<EntryIdx>>() + 4 * lists_len(v.chains),
        v.dir_children_bytes() == v.entries.len() * vstd::layout::size_of::<Vec<EntryIdx>>() + 4
            * lists_len(v.children),
{
}

/// The lists of a table hold together what each of them holds.
pub proof fn law_lists_add_up(all: Seq<Seq<EntryIdx>>, list: Seq<EntryIdx>)
    ensures
        lists_len(Seq::<Seq<EntryIdx>>::empty()) == 0,
        lists_len(all.push(list)) == lists_len(all) + list.len(),
        empty_lists(all.push(list)) == empty_lists(all) + if list.len() == 0 {
            1int
        } else {
            0
        },
{
    assert(all.push(list).drop_last() =~= all);
}

/// A table has a row for every record number of an entry, the record number
/// being the lower six bytes of a file's number, but no more than four rows for
/// each entry.
pub proof fn law_table_rows(entries: Seq<Slot>, k: int)
    requires
        0 <= k < entries.len(),
        4 * entries.len() <= usize::MAX,
    ensures
        table_rows(entries) <= 4 * entries.len(),
        table_rows(entries) > entries[k].frn % 0x1_0000_0000_0000 || table_rows(entries) == 4
            * entries.len(),
        record_end(entries) > entries[k].frn % 0x1_0000_0000_0000,
        exists|j: int|
            0 <= j < entries.len() && record_end(entries) == (#[trigger] entries[j]).frn
                % 0x1_0000_0000_0000 + 1,
{
    lemma_record_end(entries, k);
}

/// The largest record number is below the end.
proof fn lemma_record_end(entries: Seq<Slot>, k: int)
    requires
        0 <= k < entries.len(),
    ensures
        record_end(entries) > entries[k].frn % 0x1_0000_0000_0000,
        exists|j: int|
            0 <= j < entries.len() && record_end(entries) == (#[trigger] entries[j]).frn
                % 0x1_0000_0000_0000 + 1,
    decreases entries.len(),
{
    let init = entries.drop_last();
    let last = entries.len() - 1;
    assert(entries[last] == entries.last());
    if init.len() > 0 {
        let at = if k < last {
            k
        } else {
            0
        };
        lemma_record_end(init, at);
        let j = choose|j: int|
            0 <= j < init.len() && record_end(init) == (#[trigger] init[j]).frn
                % 0x1_0000_0000_0000 + 1;
        assert(entries[j] == init[j]);
        assert(entries[at] == init[at]);
    }
}

} // verus!
