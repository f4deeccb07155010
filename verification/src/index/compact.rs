//! Giving back the room of names that no entry bears any more.
//!
//! The names that are kept are copied into a fresh table first, which leaves the
//! index as it is and can be read meanwhile; putting the table in place then
//! takes only a renumbering.

use super::model::{arena, lemma_arena_holds, names_len, IndexView, Slot, LOST_FOUND, ROOT};
use super::names::{lemma_names_len_take, NameTable};
use super::store::{empty_lists, VolumeIndex};
use crate::seqs::{lemma_filter_distinct, lemma_filter_members, lemma_filter_push};
use crate::types::{EntryIdx, NIL};
use vstd::prelude::*;

verus! {

/// Fewer unused names than this are left alone.
pub const COMPACT_MIN: usize = 1024;

impl IndexView {
    /// Some entry bears the name numbered `k`.
    pub open spec fn borne(self, k: u32) -> bool {
        self.chains[k as int].len() > 0
    }

    /// The numbers of the first `n` names that some entry bears.
    pub open spec fn kept_below(self, n: nat) -> Seq<u32> {
        Seq::new(n, |k: int| k as u32).filter(|k: u32| self.borne(k))
    }

    /// The numbers of the names that some entry bears.
    pub open spec fn kept(self) -> Seq<u32> {
        self.kept_below(self.names.len())
    }

    /// The number that a name has once the others are gone. A name that is gone
    /// leaves its number to the empty one.
    pub open spec fn new_number(self, k: u32) -> u32 {
        if self.borne(k) {
            self.kept().index_of(k) as u32
        } else {
            0
        }
    }

    /// Only the names that some entry bears.
    pub open spec fn with_compacted(self) -> IndexView {
        IndexView {
            names: self.kept().map_values(|k: u32| self.names[k as int]),
            chains: self.kept().map_values(|k: u32| self.chains[k as int]),
            entries: self.entries.map_values(
                |e: Slot| Slot { name_id: self.new_number(e.name_id), ..e },
            ),
            ..self
        }
    }

    /// Enough names are unused for compaction to be worth it: a quarter of them.
    pub open spec fn worth_compacting(self) -> bool {
        let unused = empty_lists(self.chains);
        unused >= COMPACT_MIN && 4 * unused >= self.names.len()
    }
}

/// The kept numbers one name further on.
proof fn lemma_kept_step(v: IndexView, n: nat)
    requires
        n < NIL,
    ensures
        v.kept_below(n + 1) == if v.borne(n as u32) {
            v.kept_below(n).push(n as u32)
        } else {
            v.kept_below(n)
        },
{
    let all = Seq::new(n, |k: int| k as u32);
    let more = Seq::new(n + 1, |k: int| k as u32);
    assert(more =~= all.push(n as u32));
    lemma_filter_push(all, n as u32, |k: u32| v.borne(k));
}

/// Which numbers are kept.
pub proof fn lemma_kept(v: IndexView, n: nat)
    requires
        n <= NIL,
    ensures
        v.kept_below(n).no_duplicates(),
        forall|k: u32| #[trigger] v.kept_below(n).contains(k) <==> k < n && v.borne(k),
        v.kept_below(n).len() <= n,
        n > 0 && v.borne(0) ==> v.kept_below(n).len() > 0 && v.kept_below(n)[0] == 0,
    decreases n,
{
    let all = Seq::new(n, |k: int| k as u32);
    let p = |k: u32| v.borne(k);
    assert forall|i: int, j: int| 0 <= i < j < all.len() implies all[i] != all[j] by {}
    assert(all.no_duplicates());
    lemma_filter_distinct(all, p);
    assert forall|k: u32| #[trigger] v.kept_below(n).contains(k) <==> k < n && v.borne(k) by {
        lemma_filter_members(all, p, k);
        if k < n {
            assert(all[k as int] == k);
        }
    }
    if n > 0 {
        lemma_kept(v, (n - 1) as nat);
        lemma_kept_step(v, (n - 1) as nat);
        if n == 1 {
            assert(v.kept_below(0) =~= Seq::<u32>::empty()) by {
                reveal(Seq::filter);
            }
        }
    } else {
        reveal(Seq::filter);
    }
}

/// A kept name's number is its place among the kept ones.
proof fn lemma_new_number(v: IndexView, m: int)
    requires
        v.names.len() <= NIL,
        0 <= m < v.kept().len(),
    ensures
        v.kept()[m] < v.names.len(),
        v.borne(v.kept()[m]),
        v.new_number(v.kept()[m]) == m,
{
    lemma_kept(v, v.names.len());
    assert(v.kept().contains(v.kept()[m]));
    let j = v.kept().index_of(v.kept()[m]);
    assert(v.kept()[j] == v.kept()[m]);
}

/// The entry of a live slot bears a name that is kept, under its new number.
proof fn lemma_live_number(v: IndexView, i: EntryIdx)
    requires
        v.wf(),
        v.live(i),
    ensures
        v.borne(v.entry(i).name_id),
        v.new_number(v.entry(i).name_id) < v.kept().len(),
        v.kept()[v.new_number(v.entry(i).name_id) as int] == v.entry(i).name_id,
{
    let o = v.entry(i).name_id;
    assert(v.in_range(i));
    assert(v.chains[o as int].contains(i));
    lemma_kept(v, v.names.len());
    assert(v.kept().contains(o));
}

/// Compaction keeps an index well formed.
#[verifier::rlimit(40)]
pub proof fn lemma_with_compacted(v: IndexView)
    requires
        v.wf(),
    ensures
        v.with_compacted().wf(),
{
    let w = v.with_compacted();
    let kept = v.kept();
    lemma_kept(v, v.names.len());
    assert(v.entry(ROOT).live);
    assert(v.entry(ROOT).name_id == 0);
    lemma_live_number(v, ROOT);
    lemma_new_number(v, 0);
    assert(kept[0] == 0);
    assert(v.new_number(0) == 0);
    assert forall|i: EntryIdx| v.in_range(i) implies {
        let a = #[trigger] w.entry(i);
        let b = v.entry(i);
        &&& a == (Slot { name_id: v.new_number(b.name_id), ..b })
        &&& a.name_id < kept.len()
    } by {
        let o = v.entry(i).name_id;
        if v.borne(o) {
            assert(kept.contains(o));
        }
    }
    assert forall|i: EntryIdx| #[trigger] w.live(i) <==> v.live(i) by {
        if v.in_range(i) {
            assert(w.entry(i).live == v.entry(i).live);
        }
    }
    assert(w.shaped()) by {
        assert forall|t: EntryIdx| t <= LOST_FOUND implies {
            &&& (#[trigger] w.entry(t)).live
            &&& w.entry(t).synthetic
            &&& w.entry(t).is_dir
            &&& w.entry(t).parent == NIL
            &&& w.entry(t).name_id == 0
        } by {
            assert(v.entry(t).live);
            assert(v.in_range(t));
        }
    }
    assert forall|i: EntryIdx| LOST_FOUND < i && w.in_range(i) implies {
        &&& #[trigger] w.has_parent(i)
        &&& w.entry(i).live ==> w.live(w.entry(i).parent)
        &&& w.entry(i).live ==> (w.entry(i).synthetic <==> w.entry(i).parent == LOST_FOUND)
    } by {
        assert(v.in_range(i));
        assert(v.has_parent(i));
        assert(w.entry(i).parent == v.entry(i).parent);
    }
    assert(w.rooted());
    assert(w.named()) by {
        assert forall|i: EntryIdx| #[trigger] w.in_range(i) implies w.entry(i).name_id
            < w.names.len() by {
            assert(v.in_range(i));
        }
        assert forall|k: int| 0 <= k < w.names.len() implies super::model::indexable(
            #[trigger] w.names[k],
        ) by {
            lemma_new_number(v, k);
            assert(w.names[k] == v.names[kept[k] as int]);
        }
        assert forall|k: int, l: int| 0 <= k < l < w.names.len() implies #[trigger] w.names[k]
            != #[trigger] w.names[l] by {
            lemma_new_number(v, k);
            lemma_new_number(v, l);
            let a = kept[k] as int;
            let b = kept[l] as int;
            assert(w.names[k] == v.names[a] && w.names[l] == v.names[b]);
            assert(a != b);
            if a < b {
                assert(v.names[a] != v.names[b]);
            } else {
                assert(v.names[b] != v.names[a]);
            }
        }
    }
    assert forall|k: int| 0 <= k < w.names.len() implies {
        &&& (#[trigger] w.chains[k]).no_duplicates()
        &&& forall|i: EntryIdx| #[trigger]
            w.chains[k].contains(i) <==> w.live(i) && w.entry(i).name_id == k
    } by {
        lemma_new_number(v, k);
        let o = kept[k] as int;
        assert(w.chains[k] == v.chains[o]);
        assert(v.chains[o].no_duplicates());
        assert forall|i: EntryIdx| #[trigger] w.chains[k].contains(i) <==> w.live(i)
            && w.entry(i).name_id == k by {
            assert(v.chains[o].contains(i) <==> v.live(i) && v.entry(i).name_id == o);
            if w.live(i) {
                lemma_live_number(v, i);
                assert(w.entry(i).name_id == v.new_number(v.entry(i).name_id));
            }
        }
    }
    assert(w.chained());
    assert forall|o: EntryIdx| w.in_range(o) implies {
        &&& (#[trigger] w.children[o as int]).no_duplicates()
        &&& forall|i: EntryIdx| #[trigger]
            w.children[o as int].contains(i) <==> w.live(i) && w.entry(i).parent == o
    } by {
        assert(v.in_range(o));
        assert(v.children[o as int].no_duplicates());
        assert forall|i: EntryIdx| #[trigger] w.children[o as int].contains(i) <==> w.live(i)
            && w.entry(i).parent == o by {
            assert(v.children[o as int].contains(i) <==> v.live(i) && v.entry(i).parent == o);
            if w.live(i) {
                assert(w.entry(i).parent == v.entry(i).parent);
            }
        }
    }
    assert(w.parented());
    assert forall|f: u64| #[trigger] w.links.contains_key(f) implies {
        &&& w.links[f].no_duplicates()
        &&& forall|i: EntryIdx| #[trigger]
            w.links[f].contains(i) <==> w.live(i) && i != LOST_FOUND && w.entry(i).frn == f
    } by {
        assert(v.links.contains_key(f));
        assert forall|i: EntryIdx| #[trigger] w.links[f].contains(i) <==> w.live(i) && i
            != LOST_FOUND && w.entry(i).frn == f by {
            assert(v.links[f].contains(i) <==> v.live(i) && i != LOST_FOUND && v.entry(i).frn
                == f);
            if w.live(i) {
                assert(w.entry(i).frn == v.entry(i).frn);
            }
        }
    }
    assert forall|i: EntryIdx| #[trigger] w.live(i) && i != LOST_FOUND implies w.links.contains_key(
        w.entry(i).frn,
    ) by {
        assert(v.live(i));
    }
    assert(w.linked());
}

/// Compaction changes nothing that can be seen: every entry in use keeps its
/// name, its place, its path and all that lies under it.
pub proof fn law_compaction_is_invisible(v: IndexView, i: EntryIdx)
    requires
        v.wf(),
        v.live(i),
    ensures
        v.with_compacted().live(i),
        v.with_compacted().name(i) == v.name(i),
        v.with_compacted().entry(i).parent == v.entry(i).parent,
        v.with_compacted().entry(i).frn == v.entry(i).frn,
        v.with_compacted().entry(i).size == v.entry(i).size,
        v.with_compacted().entry(i).mtime == v.entry(i).mtime,
        v.with_compacted().entry(i).is_dir == v.entry(i).is_dir,
        v.with_compacted().entry(i).synthetic == v.entry(i).synthetic,
        v.with_compacted().path_of(i) == v.path_of(i),
        forall|root: EntryIdx| #[trigger]
            v.with_compacted().descends(i, root) == v.descends(i, root),
    decreases v.rank[i as int],
{
    let w = v.with_compacted();
    lemma_live_number(v, i);
    lemma_with_compacted(v);
    assert(w.entry(i) == (Slot { name_id: v.new_number(v.entry(i).name_id), ..v.entry(i) }));
    assert(w.name(i) == v.name(i));
    if LOST_FOUND < i {
        assert(v.has_parent(i));
        assert(w.has_parent(i));
        law_compaction_is_invisible(v, v.entry(i).parent);
    } else {
        assert(v.entry(i).parent == NIL);
        assert(!v.has_parent(i));
        assert(!w.has_parent(i));
    }
    assert forall|root: EntryIdx| #[trigger] w.descends(i, root) == v.descends(i, root) by {
        if LOST_FOUND < i {
            let p = v.entry(i).parent;
            assert(w.descends(p, root) == v.descends(p, root));
        }
    }
}

/// A name table without the names that no entry bears, ready to be put in place.
pub struct CompactionPlan {
    table: NameTable,
    keep: Vec<u32>,
    numbers: Vec<u32>,
}

impl CompactionPlan {
    /// The plan is for an index with this content.
    pub closed spec fn made_for(&self, v: IndexView) -> bool {
        &&& self.table.wf()
        &&& self.table@ == v.kept().map_values(|k: u32| v.names[k as int])
        &&& self.keep@ == v.kept()
        &&& self.numbers@.len() == v.names.len()
        &&& forall|k: u32|
            k < self.numbers@.len() ==> #[trigger] self.numbers@[k as int] == v.new_number(k)
    }
}

/// The place of a number among the kept ones is settled once it is reached.
proof fn lemma_settled_number(v: IndexView, n: nat, k: u32)
    requires
        v.names.len() <= NIL,
        k < n <= v.names.len(),
        v.borne(k),
    ensures
        v.kept_below(k as nat).len() < v.kept().len(),
        v.kept()[v.kept_below(k as nat).len() as int] == k,
        v.new_number(k) == v.kept_below(k as nat).len(),
{
    lemma_kept_step(v, k as nat);
    lemma_kept_prefix(v, k as nat + 1, v.names.len());
    lemma_kept(v, v.names.len());
    let m = v.kept_below(k as nat).len() as int;
    assert(v.kept_below(k as nat + 1)[m] == k);
    assert(v.kept()[m] == k);
    assert(v.kept().contains(k));
    let j = v.kept().index_of(k);
    assert(v.kept()[j] == v.kept()[m]);
}

/// The kept numbers below some bound come first among those below a larger one.
proof fn lemma_kept_prefix(v: IndexView, a: nat, b: nat)
    requires
        a <= b <= NIL,
    ensures
        v.kept_below(a).is_prefix_of(v.kept_below(b)),
    decreases b - a,
{
    if a < b {
        lemma_kept_prefix(v, a, (b - 1) as nat);
        lemma_kept_step(v, (b - 1) as nat);
    }
}

impl VolumeIndex {
    /// Whether enough names are unused for compaction to be worth it.
    pub fn wants_compact(&self) -> (res: bool)
        requires
            self.wf(),
        ensures
            res == self@.worth_compacting(),
    {
        let unused = self.unborne_names();
        let count = self.name_count() as usize;
        let quarter: usize = if count % 4 == 0 {
            count / 4
        } else {
            count / 4 + 1
        };
        unused >= COMPACT_MIN && unused >= quarter
    }

    /// Copies the names that are kept, where that is worth it. The index stays as
    /// it is, and can be read meanwhile.
    pub fn plan_compaction(&self) -> (plan: Option<CompactionPlan>)
        requires
            self.wf(),
        ensures
            match plan {
                Some(p) => self@.worth_compacting() && p.made_for(self@),
                None => !self@.worth_compacting(),
            },
    {
        if !self.wants_compact() {
            return None;
        }
        let ghost v = self@;
        let count = self.name_count();
        let mut table = NameTable::blank();
        let mut keep: Vec<u32> = Vec::new();
        let mut numbers: Vec<u32> = Vec::new();
        let mut k: u32 = 0;
        proof {
            self.lemma_name_sizes();
            assert(v.kept_below(0) =~= Seq::<u32>::empty()) by {
                reveal(Seq::filter);
            }
            assert(table@ =~= v.kept_below(0).map_values(|j: u32| v.names[j as int]));
            assert(v.names.take(0) =~= Seq::<Seq<u8>>::empty());
        }
        while k < count
            invariant
                self.wf(),
                v == self@,
                count == v.names.len(),
                k <= count,
                table.wf(),
                table@ == v.kept_below(k as nat).map_values(|j: u32| v.names[j as int]),
                keep@ == v.kept_below(k as nat),
                keep@.len() <= k,
                names_len(table@) <= names_len(v.names.take(k as int)),
                arena(table@).len() <= arena(v.names.take(k as int)).len(),
                names_len(v.names) <= NIL,
                arena(v.names).len() <= NIL,
                numbers@.len() == k,
                forall|j: u32| j < k ==> #[trigger] numbers@[j as int] == v.new_number(j),
            decreases count - k,
        {
            let ghost was = table@;
            let borne = self.name_chain(k).len() > 0;
            proof {
                lemma_kept_step(v, k as nat);
                lemma_names_len_take(v.names, k as int);
                lemma_arena_holds(v.names, k as int);
                if borne {
                    lemma_settled_number(v, count as nat, k);
                }
            }
            if borne {
                let number = keep.len() as u32;
                table.push(self.raw_name(k), self.folded_by_number(k));
                keep.push(k);
                numbers.push(number);
                proof {
                    assert(table@ =~= v.kept_below(k as nat + 1).map_values(
                        |j: u32| v.names[j as int],
                    ));
                    assert(table@.drop_last() =~= was);
                    assert(table@.last() == v.names[k as int]);
                }
            } else {
                numbers.push(0);
            }
            k += 1;
        }
        Some(CompactionPlan { table, keep, numbers })
    }

    /// Puts a plan in place. It has to be one made of the index as it is.
    pub fn apply_compaction(&mut self, plan: CompactionPlan)
        requires
            old(self).wf(),
            plan.made_for(old(self)@),
        ensures
            final(self).wf(),
            final(self)@ == old(self)@.with_compacted(),
            final(self).map_kind() == old(self).map_kind(),
            final(self).tally() == old(self).tally(),
    {
        self.renumber(plan.table, &plan.keep, &plan.numbers);
    }
}

/// Compaction leaves no name that no entry in use bears.
pub proof fn law_compaction_leaves_no_unused(v: IndexView, k: int)
    requires
        v.wf(),
        0 <= k < v.with_compacted().names.len(),
    ensures
        exists|i: EntryIdx|
            #[trigger] v.with_compacted().live(i) && v.with_compacted().entry(i).name_id == k,
{
    let w = v.with_compacted();
    lemma_with_compacted(v);
    lemma_kept(v, v.names.len());
    let n = v.kept()[k];
    assert(v.kept().contains(n));
    assert(v.borne(n));
    let i = v.chains[n as int][0];
    assert(v.chains[n as int].contains(i));
    assert(w.chains[k] == v.chains[n as int]);
    assert(w.chains[k].contains(i));
    assert(w.live(i) && w.entry(i).name_id == k);
}

/// Compaction is worth it where at least 1024 names and a quarter of all are
/// borne by no entry in use.
pub proof fn law_worth_compacting(v: IndexView)
    ensures
        v.worth_compacting() <==> empty_lists(v.chains) >= 1024 && 4 * empty_lists(v.chains)
            >= v.names.len(),
        v.chains.len() == 0 ==> empty_lists(v.chains) == 0,
        v.chains.len() > 0 ==> empty_lists(v.chains) == empty_lists(v.chains.drop_last()) + if
            v.chains.last().len() == 0 {
            1int
        } else {
            0
        },
{
}

} // verus!
