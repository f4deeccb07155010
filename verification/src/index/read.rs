//! Reading an index: entries, paths, children, subtrees, names.

use super::model::{
    first_where, join_path, lemma_path_of_child, IndexView, LOST_FOUND, ROOT, SEPARATOR,
};
use super::store::VolumeIndex;
use super::update::lemma_first_where;
use crate::bytes::{append_bytes, same_bytes};
use crate::fold::folded;
use crate::memo::{chain_entries, chain_new, chain_pop, chain_push};
use crate::types::{EntryIdx, Frn};
use vstd::prelude::*;

verus! {

/// One entry, as a reader sees it.
#[derive(Clone, Copy, Debug)]
pub struct Entry<'a> {
    pub frn: Frn,
    /// The directory that holds the name.
    pub parent: EntryIdx,
    pub name: &'a [u8],
    pub is_dir: bool,
    pub size: Option<u64>,
    pub mtime: Option<i64>,
}

/// Whether an entry has a path to show.
#[derive(Clone, Copy, Debug, PartialEq, Eq, Structural)]
pub enum PathStatus {
    Presentable,
    /// The ancestry ends in lost+found.
    LostFound,
}

/// `dir` followed by the names of `chain`, last first.
spec fn path_down(v: IndexView, dir: Seq<u8>, chain: Seq<EntryIdx>) -> Seq<u8>
    decreases chain.len(),
{
    if chain.len() == 0 {
        dir
    } else {
        path_down(v, join_path(dir, v.name(chain.last())), chain.drop_last())
    }
}

/// The numbers from 0 up.
spec fn upto(n: nat) -> Seq<EntryIdx> {
    Seq::new(n, |i: int| i as EntryIdx)
}

impl VolumeIndex {
    /// The volume root.
    pub fn root(&self) -> (idx: EntryIdx)
        ensures
            idx == ROOT,
    {
        ROOT
    }

    /// The entry in slot `idx`.
    pub fn entry(&self, idx: EntryIdx) -> (entry: Entry<'_>)
        requires
            self.wf(),
            self@.in_range(idx),
        ensures
            entry.frn.0 == self@.entry(idx).frn,
            entry.parent == self@.entry(idx).parent,
            entry.name@ == self@.name(idx),
            entry.is_dir == self@.entry(idx).is_dir,
            entry.size == self@.entry(idx).size,
            entry.mtime == self@.entry(idx).mtime,
    {
        let slot = self.slot(idx);
        Entry {
            frn: Frn(slot.frn),
            parent: slot.parent,
            name: self.raw_name(slot.name_id),
            is_dir: slot.is_dir,
            size: slot.size,
            mtime: slot.mtime,
        }
    }

    /// Whether the slot `idx` is in use.
    pub fn is_live(&self, idx: EntryIdx) -> (res: bool)
        requires
            self.wf(),
        ensures
            res == self@.live(idx),
    {
        idx < self.slot_count() && self.slot(idx).live
    }

    /// Whether the entry is the index's own invention.
    pub fn is_synthetic(&self, idx: EntryIdx) -> (res: bool)
        requires
            self.wf(),
            self@.in_range(idx),
        ensures
            res == self@.entry(idx).synthetic,
    {
        self.slot(idx).synthetic
    }

    /// The first of a file's names, where the file is known.
    pub fn head_of(&self, frn: Frn) -> (head: Option<EntryIdx>)
        requires
            self.wf(),
        ensures
            match head {
                Some(i) => self@.links_of(frn.0).len() > 0 && i == self@.links_of(frn.0)[0]
                    && self@.live(i),
                None => self@.links_of(frn.0).len() == 0,
            },
    {
        match self.links_of(frn) {
            Some(links) => {
                if links.len() > 0 {
                    assert(self@.links[frn.0].contains(links@[0]));
                    Some(links[0])
                } else {
                    None
                }
            },
            None => None,
        }
    }

    /// Whether some directory was referred to but never seen, so that some
    /// entries may have no path.
    pub fn has_orphans(&self) -> (res: bool)
        requires
            self.wf(),
        ensures
            res == self@.has_orphans(),
    {
        assert(self@.in_range(LOST_FOUND));
        let lost = self.children_of(LOST_FOUND);
        proof {
            let c = self@.children[LOST_FOUND as int];
            if c.len() > 0 {
                let p = c[0];
                assert(c.contains(p));
                assert(self@.entry(ROOT).parent != LOST_FOUND);
                assert(self@.entry(LOST_FOUND).parent != LOST_FOUND);
                assert(self@.has_parent(p));
                assert(self@.is_placeholder(p));
            }
            if self@.has_orphans() {
                let p = choose|p: EntryIdx| self@.is_placeholder(p);
                assert(self@.has_parent(p));
                assert(c.contains(p));
            }
        }
        lost.len() > 0
    }

    /// Writes the path of `idx` within the volume to `buf`, which is left empty
    /// where there is none.
    pub fn path_of(&self, idx: EntryIdx, buf: &mut Vec<u8>) -> (status: PathStatus)
        requires
            self.wf(),
            self@.in_range(idx),
        ensures
            match status {
                PathStatus::Presentable => self@.path_of(idx) == Some(final(buf)@),
                PathStatus::LostFound => self@.path_of(idx) is None && final(buf)@.len() == 0,
            },
    {
        buf.clear();
        let mut chain = chain_new();
        let mut cur = idx;
        while cur != ROOT
            invariant
                self.wf(),
                self@.in_range(cur),
                buf@.len() == 0,
                forall|k: int|
                    0 <= k < chain_entries(chain).len() ==> self@.in_range(
                        #[trigger] chain_entries(chain)[k],
                    ),
                self@.path_of(idx) == match self@.path_of(cur) {
                    Some(dir) => Some(path_down(self@, dir, chain_entries(chain))),
                    None => None,
                },
            decreases self@.rank[cur as int],
        {
            if cur == LOST_FOUND {
                assert(self@.entry(LOST_FOUND).parent == crate::types::NIL);
                assert(self@.path_of(LOST_FOUND) is None);
                return PathStatus::LostFound;
            }
            proof {
                assert(self@.has_parent(cur));
                lemma_path_of_child(self@, cur);
                let c = chain_entries(chain);
                assert(c.push(cur).drop_last() =~= c);
            }
            let parent = self.slot(cur).parent;
            chain_push(&mut chain, cur);
            cur = parent;
        }
        loop
            invariant
                self.wf(),
                forall|k: int|
                    0 <= k < chain_entries(chain).len() ==> self@.in_range(
                        #[trigger] chain_entries(chain)[k],
                    ),
                self@.path_of(idx) == Some(path_down(self@, buf@, chain_entries(chain))),
            ensures
                self@.path_of(idx) == Some(buf@),
            decreases chain_entries(chain).len(),
        {
            let ghost before = chain_entries(chain);
            match chain_pop(&mut chain) {
                None => {
                    break ;
                },
                Some(e) => {
                    let ghost dir = buf@;
                    assert(before.drop_last() =~= chain_entries(chain));
                    assert(before.last() == e);
                    assert(self@.in_range(before[before.len() - 1]));
                    assert forall|k: int| 0 <= k < chain_entries(chain).len() implies self@.in_range(
                        #[trigger] chain_entries(chain)[k],
                    ) by {
                        assert(chain_entries(chain)[k] == before[k]);
                    }
                    if buf.len() > 0 {
                        buf.push(SEPARATOR);
                    }
                    append_bytes(buf, self.raw_name(self.slot(e).name_id));
                    assert(buf@ =~= join_path(dir, self@.name(e)));
                },
            }
        }
        PathStatus::Presentable
    }

    /// The folded name of the entry in slot `idx`.
    pub fn folded_name(&self, idx: EntryIdx) -> (name: &[u8])
        requires
            self.wf(),
            self@.in_range(idx),
        ensures
            name@ == self@.folded_name(idx),
    {
        self.folded_by_number(self.slot(idx).name_id)
    }

    /// The slots in use, in table order.
    pub fn live_entries(&self) -> (list: Vec<EntryIdx>)
        requires
            self.wf(),
        ensures
            list@ == self@.live_slots(),
    {
        let n = self.slot_count();
        let ghost live = |i: EntryIdx| self@.live(i);
        let mut list: Vec<EntryIdx> = Vec::new();
        let mut i: EntryIdx = 0;
        assert(upto(0).filter(live) =~= Seq::<EntryIdx>::empty()) by {
            reveal(Seq::filter);
        }
        while i < n
            invariant
                self.wf(),
                n == self@.entries.len(),
                i <= n,
                live == (|i: EntryIdx| self@.live(i)),
                list@ == upto(i as nat).filter(live),
            decreases n - i,
        {
            assert(upto(i as nat + 1).drop_last() =~= upto(i as nat));
            assert(upto(i as nat + 1).filter(live) == if live(i) {
                upto(i as nat).filter(live).push(i)
            } else {
                upto(i as nat).filter(live)
            }) by {
                reveal(Seq::filter);
            }
            if self.slot(i).live {
                list.push(i);
            }
            i += 1;
        }
        list
    }

    /// The first live directory directly under `parent` whose folded name is
    /// `folded_name`.
    pub fn child_dir(&self, parent: EntryIdx, lower: Vec<u8>) -> (dir: Option<EntryIdx>)
        requires
            self.wf(),
            self@.in_range(parent),
        ensures
            dir == self@.child_dir(parent, lower@),
            dir is Some ==> self@.live(dir->0) && self@.entry(dir->0).parent == parent,
    {
        let list = self.children_of(parent);
        let ghost pred = |i: EntryIdx| self@.entry(i).is_dir && self@.folded_name(i) == lower@;
        let mut k: usize = 0;
        assert(list@.skip(0) =~= list@);
        while k < list.len()
            invariant
                self.wf(),
                self@.in_range(parent),
                list@ == self@.children[parent as int],
                k <= list@.len(),
                pred == (|i: EntryIdx| self@.entry(i).is_dir && self@.folded_name(i) == lower@),
                self@.child_dir(parent, lower@) == first_where(list@.skip(k as int), pred),
            decreases list@.len() - k,
        {
            let i = list[k];
            assert(list@.contains(list@[k as int]));
            assert(list@.skip(k as int)[0] == i);
            assert(list@.skip(k as int).drop_first() =~= list@.skip(k + 1));
            if self.slot(i).is_dir && same_bytes(self.folded_name(i), lower.as_slice()) {
                return Some(i);
            }
            k += 1;
        }
        None
    }
}

impl IndexView {
    /// The first live directory directly under `parent` with this folded name.
    pub open spec fn child_dir(self, parent: EntryIdx, lower: Seq<u8>) -> Option<EntryIdx> {
        first_where(
            self.children[parent as int],
            |i: EntryIdx| self.entry(i).is_dir && self.folded_name(i) == lower,
        )
    }
}

/// A folder is found among those directly under another by its folded name
/// exactly where one of that name is there.
pub proof fn law_child_folder(v: IndexView, parent: EntryIdx, lower: Seq<u8>, i: EntryIdx)
    requires
        v.wf(),
        v.in_range(parent),
    ensures
        ({
            let dir = v.child_dir(parent, lower);
            &&& dir is Some ==> {
                &&& v.live(dir->0)
                &&& v.entry(dir->0).parent == parent
                &&& v.entry(dir->0).is_dir
                &&& folded(v.name(dir->0)) == lower
            }
            &&& v.live(i) && v.entry(i).parent == parent && v.entry(i).is_dir && folded(v.name(i))
                == lower ==> dir is Some
        }),
{
    let p = |e: EntryIdx| v.entry(e).is_dir && v.folded_name(e) == lower;
    let list = v.children[parent as int];
    lemma_first_where(list, p);
    assert(v.child_dir(parent, lower) == first_where(list, p));
    assert(list.contains(i) <==> v.live(i) && v.entry(i).parent == parent);
    if v.child_dir(parent, lower) is Some {
        let dir = v.child_dir(parent, lower)->0;
        assert(list.contains(dir));
    } else if list.contains(i) {
        assert(!p(list[list.index_of(i)]));
    }
}

} // verus!
