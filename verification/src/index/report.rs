//! What an index tells about itself.

use super::model::{IndexView, Slot};
use super::store::VolumeIndex;
use crate::seqs::lemma_filter_push;
use vstd::prelude::*;

verus! {

/// What an index has counted.
#[derive(Clone, Copy, Debug, PartialEq, Eq, Structural)]
pub struct IndexStats {
    /// Placeholders made for directories referred to but not seen.
    pub placeholders_created: u64,
    /// Deletions of files that the index did not have.
    pub delete_of_unknown: u64,
    /// Slots no longer in use.
    pub stale_slots: u64,
    /// Link sets that could not be looked up.
    pub link_reconciles_dropped: u64,
}

impl IndexView {
    /// The entries for names on the volume.
    pub open spec fn real_entries(self) -> Seq<Slot> {
        self.entries.filter(|e: Slot| e.live && !e.synthetic)
    }

    /// The slots no longer in use.
    pub open spec fn stale_entries(self) -> Seq<Slot> {
        self.entries.filter(|e: Slot| !e.live)
    }
}

impl VolumeIndex {
    /// How many names of the volume the index holds, and how many slots are no
    /// longer in use.
    fn census(&self) -> (n: (usize, usize))
        requires
            self.wf(),
        ensures
            n.0 == self@.real_entries().len(),
            n.1 == self@.stale_entries().len(),
    {
        let ghost held = |e: Slot| e.live && !e.synthetic;
        let ghost stale = |e: Slot| !e.live;
        let ghost all = self@.entries;
        let count = self.slot_count();
        let mut names: usize = 0;
        let mut unused: usize = 0;
        let mut i: u32 = 0;
        proof {
            reveal(Seq::filter);
            assert(all.take(0) =~= Seq::<Slot>::empty());
        }
        while i < count
            invariant
                self.wf(),
                all == self@.entries,
                count == all.len(),
                i <= count,
                names <= i,
                unused <= i,
                held == (|e: Slot| e.live && !e.synthetic),
                stale == (|e: Slot| !e.live),
                names == all.take(i as int).filter(held).len(),
                unused == all.take(i as int).filter(stale).len(),
            decreases count - i,
        {
            let slot = self.slot(i);
            proof {
                assert(all.take(i + 1) =~= all.take(i as int).push(slot));
                lemma_filter_push(all.take(i as int), slot, held);
                lemma_filter_push(all.take(i as int), slot, stale);
            }
            if !slot.live {
                unused += 1;
            } else if !slot.synthetic {
                names += 1;
            }
            i += 1;
        }
        assert(all.take(i as int) =~= all);
        (names, unused)
    }

    /// How many names of the volume the index holds.
    pub fn len(&self) -> (n: usize)
        requires
            self.wf(),
        ensures
            n == self@.real_entries().len(),
    {
        self.census().0
    }

    /// How many changes the index has taken in since it was built.
    pub fn generation(&self) -> (n: u64)
        ensures
            n == self.tally().generation,
    {
        self.counters().generation
    }

    /// What the index has counted.
    pub fn stats(&self) -> (stats: IndexStats)
        requires
            self.wf(),
        ensures
            stats.placeholders_created == self.tally().placeholders_created,
            stats.delete_of_unknown == self.tally().delete_of_unknown,
            stats.stale_slots == self@.stale_entries().len(),
            stats.link_reconciles_dropped == self.tally().link_reconciles_dropped,
    {
        let tally = self.counters();
        IndexStats {
            placeholders_created: tally.placeholders_created,
            delete_of_unknown: tally.delete_of_unknown,
            stale_slots: self.census().1 as u64,
            link_reconciles_dropped: tally.link_reconciles_dropped,
        }
    }
}

/// What an index counts as names of its volume are the entries in use that it did
/// not make up, and as unused the slots not in use: one slot more counts for
/// exactly one of them, or for neither where it is made up.
pub proof fn law_census(v: IndexView, e: Slot)
    ensures
        ({
            let more = IndexView { entries: v.entries.push(e), ..v };
            &&& more.real_entries().len() == v.real_entries().len() + if e.live && !e.synthetic {
                1int
            } else {
                0
            }
            &&& more.stale_entries().len() == v.stale_entries().len() + if e.live {
                0int
            } else {
                1
            }
        }),
        v.entries.len() == 0 ==> v.real_entries().len() == 0 && v.stale_entries().len() == 0,
{
    reveal(Seq::filter);
    lemma_filter_push(v.entries, e, |e: Slot| e.live && !e.synthetic);
    lemma_filter_push(v.entries, e, |e: Slot| !e.live);
}

} // verus!
