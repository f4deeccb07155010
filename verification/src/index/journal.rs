//! Changing an index as the journal says.

use super::changes::{lemma_with_moved, lemma_with_removed};
use super::model::{IndexView, Slot, LOST_FOUND, ROOT};
use super::store::{count_up, counted_up, Tally, VolumeIndex};
use super::update::record_counted;
use crate::types::{EntryIdx, Frn, NIL};
use crate::usn::record::{ops_for, reason_ops, IndexOp, ParsedUsnRecord};
use vstd::prelude::*;

verus! {

/// An entry taken from its place and kept under lost+found, where it has no
/// presentable path.
pub open spec fn shelved(e: Slot) -> Slot {
    Slot { parent: LOST_FOUND, synthetic: true, ..e }
}

impl IndexView {
    /// The entry in slot `i` shelved, with what hangs under it.
    pub open spec fn with_shelved(self, i: EntryIdx) -> IndexView {
        self.with_moved(i, shelved(self.entry(i)))
    }

    /// The entry in slot `i` gone; where something still hangs under it, it is
    /// shelved.
    pub open spec fn with_dropped(self, i: EntryIdx) -> IndexView {
        if self.children[i as int].len() == 0 {
            self.with_removed(i)
        } else {
            self.with_shelved(i)
        }
    }

    /// The entries of a list gone, one after the other.
    pub open spec fn with_all_dropped(self, list: Seq<EntryIdx>) -> IndexView
        decreases list.len(),
    {
        if list.len() == 0 {
            self
        } else {
            self.with_dropped(list[0]).with_all_dropped(list.drop_first())
        }
    }

    /// A file gone, with all its names. The root stays.
    pub open spec fn with_file_dropped(self, frn: u64) -> IndexView {
        if frn == self.entry(ROOT).frn {
            self
        } else {
            self.with_all_dropped(self.links_of(frn))
        }
    }

    /// The name that the record gives gone. A file's last name is shelved, as a
    /// rename brings its new name next, and what hangs under it comes along.
    pub open spec fn with_name_dropped(self, rec: ParsedUsnRecord) -> IndexView {
        match self.link_of(rec) {
            Some(i) => if self.links_of(rec.frn.0).len() == 1 {
                self.with_shelved(i)
            } else {
                self.with_dropped(i)
            },
            None => self,
        }
    }

    /// The directory that the record speaks of stands elsewhere.
    pub open spec fn stands_elsewhere(self, rec: ParsedUsnRecord) -> bool {
        &&& rec.is_dir()
        &&& rec.frn.0 != self.entry(ROOT).frn
        &&& self.links_of(rec.frn.0).len() > 0
        &&& !self.entry(self.links_of(rec.frn.0)[0]).synthetic
        &&& self.link_of(rec) is None
    }

    /// A directory has one name: where it stands elsewhere it is taken from
    /// there first.
    pub open spec fn made_free(self, rec: ParsedUsnRecord) -> IndexView {
        if self.stands_elsewhere(rec) {
            self.with_shelved(self.links_of(rec.frn.0)[0])
        } else {
            self
        }
    }
}

/// Something in the journal that does not fit the index.
#[derive(Clone, Copy, Debug, PartialEq, Eq, Structural)]
pub enum Anomaly {
    /// A file was deleted that the index does not have.
    DeleteOfUnknown(Frn),
    /// A name was given up that the index does not have.
    RenameOfUnknown(Frn),
    /// A name cannot be taken in.
    Refused(Frn),
}

/// What taking in a batch has come to.
#[verifier::ext_equal]
pub struct Applied {
    pub index: IndexView,
    pub tally: Tally,
    /// Files whose size and time have to be looked up.
    pub needs_stat: Seq<Frn>,
    /// Files whose names have to be looked up.
    pub needs_links: Seq<Frn>,
    pub anomalies: Seq<Anomaly>,
}

/// `anomaly` behind the others, where it applies.
pub open spec fn noted(anomalies: Seq<Anomaly>, applies: bool, anomaly: Anomaly) -> Seq<Anomaly> {
    if applies {
        anomalies.push(anomaly)
    } else {
        anomalies
    }
}

/// One operation taken in.
pub open spec fn op_applied(a: Applied, op: IndexOp, rec: ParsedUsnRecord) -> Applied {
    let v = a.index;
    match op {
        IndexOp::Delete => {
            let unknown = v.links_of(rec.frn.0).len() == 0;
            Applied {
                index: v.with_file_dropped(rec.frn.0),
                tally: if unknown {
                    Tally { delete_of_unknown: counted_up(a.tally.delete_of_unknown, 1), ..a.tally }
                } else {
                    a.tally
                },
                anomalies: noted(a.anomalies, unknown, Anomaly::DeleteOfUnknown(rec.frn)),
                ..a
            }
        },
        IndexOp::RemoveName => Applied {
            index: v.with_name_dropped(rec),
            anomalies: noted(
                a.anomalies,
                v.link_of(rec) is None,
                Anomaly::RenameOfUnknown(rec.frn),
            ),
            ..a
        },
        IndexOp::AddName => {
            let w = v.made_free(rec);
            Applied {
                index: w.with_record(rec),
                tally: record_counted(a.tally, w, rec),
                anomalies: noted(
                    a.anomalies,
                    w.record_place(rec) is None,
                    Anomaly::Refused(rec.frn),
                ),
                ..a
            }
        },
        IndexOp::ReconcileLinks => Applied { needs_links: a.needs_links.push(rec.frn), ..a },
        IndexOp::Stat => Applied { needs_stat: a.needs_stat.push(rec.frn), ..a },
    }
}

/// Operations taken in, one after the other.
pub open spec fn ops_applied(a: Applied, ops: Seq<IndexOp>, rec: ParsedUsnRecord) -> Applied
    decreases ops.len(),
{
    if ops.len() == 0 {
        a
    } else {
        op_applied(ops_applied(a, ops.drop_last(), rec), ops.last(), rec)
    }
}

/// Records taken in, one after the other.
pub open spec fn batch_applied(a: Applied, records: Seq<ParsedUsnRecord>) -> Applied
    decreases records.len(),
{
    if records.len() == 0 {
        a
    } else {
        let rec = records.last();
        ops_applied(batch_applied(a, records.drop_last()), reason_ops(rec.reason), rec)
    }
}

/// Before anything was taken in.
pub open spec fn nothing_applied(v: IndexView, tally: Tally) -> Applied {
    Applied { index: v, tally, needs_stat: seq![], needs_links: seq![], anomalies: seq![] }
}

/// What taking in a batch leaves to be done.
pub struct ApplyOutcome {
    /// Files whose size and time have to be looked up.
    pub needs_stat: Vec<Frn>,
    /// Files whose names have to be looked up.
    pub needs_link_reconcile: Vec<Frn>,
    pub anomalies: Vec<Anomaly>,
    /// Whether compacting the name table is worth it now.
    pub wants_compact: bool,
}

impl ApplyOutcome {
    /// Nothing to be done.
    pub fn new() -> (out: ApplyOutcome)
        ensures
            out.needs_stat@.len() == 0,
            out.needs_link_reconcile@.len() == 0,
            out.anomalies@.len() == 0,
            !out.wants_compact,
    {
        ApplyOutcome {
            needs_stat: Vec::new(),
            needs_link_reconcile: Vec::new(),
            anomalies: Vec::new(),
            wants_compact: false,
        }
    }

    /// The outcome together with the index it belongs to.
    pub open spec fn with_index(&self, v: IndexView, tally: Tally) -> Applied {
        Applied {
            index: v,
            tally,
            needs_stat: self.needs_stat@,
            needs_links: self.needs_link_reconcile@,
            anomalies: self.anomalies@,
        }
    }
}

/// Lost+found lies under nothing.
proof fn lemma_lost_found_is_top(v: IndexView, i: EntryIdx)
    requires
        v.wf(),
    ensures
        v.live(LOST_FOUND),
        !v.descends(LOST_FOUND, i),
{
    assert(v.entry(LOST_FOUND).parent == NIL);
    assert(!v.has_parent(LOST_FOUND));
}

/// Dropping an entry keeps an index well formed, and changes no other entry.
pub proof fn lemma_with_dropped(v: IndexView, i: EntryIdx)
    requires
        v.wf(),
        v.live(i),
        LOST_FOUND < i,
    ensures
        v.with_dropped(i).wf(),
        v.with_shelved(i).wf(),
        v.with_dropped(i).entries.len() == v.entries.len(),
        v.with_dropped(i).names == v.names,
        v.with_dropped(i).entry(i).live ==> v.with_dropped(i).entry(i).synthetic,
        forall|j: EntryIdx|
            v.in_range(j) && j != i ==> #[trigger] v.with_dropped(i).entry(j) == v.entry(j),
{
    lemma_lost_found_is_top(v, i);
    assert(v.in_range(i));
    lemma_with_moved(v, i, shelved(v.entry(i)));
    if v.children[i as int].len() == 0 {
        lemma_with_removed(v, i);
    }
}

impl VolumeIndex {
    /// Takes an entry from its place and keeps it under lost+found.
    fn shelve(&mut self, i: EntryIdx)
        requires
            old(self).wf(),
            old(self)@.live(i),
            LOST_FOUND < i,
        ensures
            final(self).wf(),
            final(self)@ == old(self)@.with_shelved(i),
            final(self).map_kind() == old(self).map_kind(),
            final(self).tally() == old(self).tally(),
    {
        proof {
            lemma_lost_found_is_top(self@, i);
            assert(self@.in_range(i));
        }
        let slot = self.slot(i);
        self.move_slot(i, Slot { parent: LOST_FOUND, synthetic: true, ..slot });
    }

    /// Drops an entry, or shelves it where something still hangs under it.
    pub(super) fn drop_entry(&mut self, i: EntryIdx)
        requires
            old(self).wf(),
            old(self)@.live(i),
            LOST_FOUND < i,
        ensures
            final(self).wf(),
            final(self)@ == old(self)@.with_dropped(i),
            final(self).map_kind() == old(self).map_kind(),
            final(self).tally() == old(self).tally(),
    {
        if self.children_of(i).len() == 0 {
            self.remove_slot(i);
        } else {
            self.shelve(i);
        }
    }

    /// Drops the entries of a list.
    pub(super) fn drop_entries(&mut self, list: &Vec<EntryIdx>)
        requires
            old(self).wf(),
            list@.no_duplicates(),
            forall|k: int|
                0 <= k < list@.len() ==> old(self)@.live(#[trigger] list@[k]) && LOST_FOUND
                    < list@[k],
        ensures
            final(self).wf(),
            final(self)@ == old(self)@.with_all_dropped(list@),
            final(self).map_kind() == old(self).map_kind(),
            final(self).tally() == old(self).tally(),
    {
        let mut k: usize = 0;
        assert(list@.skip(0) =~= list@);
        while k < list.len()
            invariant
                self.wf(),
                self.map_kind() == old(self).map_kind(),
                self.tally() == old(self).tally(),
                k <= list@.len(),
                list@.no_duplicates(),
                forall|j: int|
                    k <= j < list@.len() ==> self@.live(#[trigger] list@[j]) && LOST_FOUND
                        < list@[j],
                old(self)@.with_all_dropped(list@) == self@.with_all_dropped(
                    list@.skip(k as int),
                ),
            decreases list@.len() - k,
        {
            let ghost v = self@;
            proof {
                lemma_with_dropped(v, list@[k as int]);
                assert(list@.skip(k as int)[0] == list@[k as int]);
                assert(list@.skip(k as int).drop_first() =~= list@.skip(k + 1));
            }
            self.drop_entry(list[k]);
            proof {
                assert forall|j: int| k + 1 <= j < list@.len() implies self@.live(
                    #[trigger] list@[j],
                ) && LOST_FOUND < list@[j] by {
                    assert(v.live(list@[j]));
                    assert(list@[j] != list@[k as int]);
                    assert(self@.entry(list@[j]) == v.entry(list@[j]));
                }
            }
            k += 1;
        }
    }

    /// Drops a file with all its names.
    fn drop_file(&mut self, frn: Frn) -> (known: bool)
        requires
            old(self).wf(),
        ensures
            final(self).wf(),
            final(self)@ == old(self)@.with_file_dropped(frn.0),
            final(self).map_kind() == old(self).map_kind(),
            final(self).tally() == old(self).tally(),
            known == (old(self)@.links_of(frn.0).len() > 0),
    {
        let list = self.link_list(frn);
        assert(self@.entry(ROOT).live);
        assert(self@.in_range(ROOT));
        if frn.0 != self.slot(ROOT).frn {
            proof {
                assert forall|k: int| 0 <= k < list@.len() implies self@.live(#[trigger] list@[k])
                    && LOST_FOUND < list@[k] by {
                    assert(list@.contains(list@[k]));
                    assert(self@.names_file(list@[k], frn.0));
                }
            }
            self.drop_entries(&list);
        }
        list.len() > 0
    }

    /// Drops the name that a record gives.
    fn drop_name(&mut self, rec: &ParsedUsnRecord) -> (known: bool)
        requires
            old(self).wf(),
        ensures
            final(self).wf(),
            final(self)@ == old(self)@.with_name_dropped(*rec),
            final(self).map_kind() == old(self).map_kind(),
            final(self).tally() == old(self).tally(),
            known == (old(self)@.link_of(*rec) is Some),
    {
        let list = self.link_list(rec.frn);
        match self.find_link(rec) {
            Some(i) => {
                if list.len() == 1 {
                    self.shelve(i);
                } else {
                    self.drop_entry(i);
                }
                true
            },
            None => false,
        }
    }

    /// Takes a directory from where it stands, where that is not the place that
    /// the record gives.
    fn make_free(&mut self, rec: &ParsedUsnRecord)
        requires
            old(self).wf(),
        ensures
            final(self).wf(),
            final(self)@ == old(self)@.made_free(*rec),
            final(self).map_kind() == old(self).map_kind(),
            final(self).tally() == old(self).tally(),
    {
        assert(self@.entry(ROOT).live);
        assert(self@.in_range(ROOT));
        if !rec.is_dir() || rec.frn.0 == self.slot(ROOT).frn {
            return;
        }
        let list = self.link_list(rec.frn);
        if list.len() == 0 {
            return;
        }
        let first = list[0];
        proof {
            assert(list@.contains(list@[0]));
            assert(self@.names_file(first, rec.frn.0));
        }
        if !self.slot(first).synthetic && self.find_link(rec).is_none() {
            self.shelve(first);
        }
    }

    /// Takes in one operation.
    fn apply_op(&mut self, op: IndexOp, rec: &ParsedUsnRecord, out: &mut ApplyOutcome)
        requires
            old(self).wf(),
        ensures
            final(self).wf(),
            final(self).map_kind() == old(self).map_kind(),
            final(out).with_index(final(self)@, final(self).tally()) == op_applied(
                old(out).with_index(old(self)@, old(self).tally()),
                op,
                *rec,
            ),
    {
        match op {
            IndexOp::Delete => {
                if !self.drop_file(rec.frn) {
                    let tally = self.counters();
                    self.set_counters(
                        Tally { delete_of_unknown: count_up(tally.delete_of_unknown, 1), ..tally },
                    );
                    out.anomalies.push(Anomaly::DeleteOfUnknown(rec.frn));
                }
            },
            IndexOp::RemoveName => {
                if !self.drop_name(rec) {
                    out.anomalies.push(Anomaly::RenameOfUnknown(rec.frn));
                }
            },
            IndexOp::AddName => {
                self.make_free(rec);
                if self.insert_enum(rec).is_none() {
                    out.anomalies.push(Anomaly::Refused(rec.frn));
                }
            },
            IndexOp::ReconcileLinks => out.needs_link_reconcile.push(rec.frn),
            IndexOp::Stat => out.needs_stat.push(rec.frn),
        }
    }

    /// Takes in the operations of one record.
    fn apply_record(&mut self, rec: &ParsedUsnRecord, out: &mut ApplyOutcome)
        requires
            old(self).wf(),
        ensures
            final(self).wf(),
            final(self).map_kind() == old(self).map_kind(),
            final(out).with_index(final(self)@, final(self).tally()) == ops_applied(
                old(out).with_index(old(self)@, old(self).tally()),
                reason_ops(rec.reason),
                *rec,
            ),
    {
        let ops = ops_for(rec);
        let ghost a = out.with_index(self@, self.tally());
        let mut k: usize = 0;
        assert(ops@.take(0) =~= Seq::<IndexOp>::empty());
        while k < ops.len()
            invariant
                self.wf(),
                k <= ops@.len(),
                self.map_kind() == old(self).map_kind(),
                out.with_index(self@, self.tally()) == ops_applied(a, ops@.take(k as int), *rec),
            decreases ops@.len() - k,
        {
            assert(ops@.take(k + 1).drop_last() =~= ops@.take(k as int));
            assert(ops@.take(k + 1).last() == ops@[k as int]);
            self.apply_op(ops[k], rec, out);
            k += 1;
        }
        assert(ops@.take(k as int) =~= ops@);
    }

    /// Takes in a batch of the journal: names come, go and move at once, and
    /// what else has to be looked up is told.
    pub fn apply_batch(&mut self, records: &Vec<ParsedUsnRecord>) -> (out: ApplyOutcome)
        requires
            old(self).wf(),
        ensures
            final(self).wf(),
            final(self).map_kind() == old(self).map_kind(),
            out.with_index(final(self)@, final(self).tally()) == {
                let a = batch_applied(
                    nothing_applied(old(self)@, old(self).tally()),
                    records@,
                );
                Applied {
                    tally: Tally { generation: counted_up(a.tally.generation, 1), ..a.tally },
                    ..a
                }
            },
            out.wants_compact == final(self)@.worth_compacting(),
    {
        let ghost a = nothing_applied(self@, self.tally());
        let mut out = ApplyOutcome::new();
        let mut k: usize = 0;
        proof {
            assert(records@.take(0) =~= Seq::<ParsedUsnRecord>::empty());
            assert(out.with_index(self@, self.tally()) =~= a);
        }
        while k < records.len()
            invariant
                self.wf(),
                k <= records@.len(),
                self.map_kind() == old(self).map_kind(),
                out.with_index(self@, self.tally()) == batch_applied(a, records@.take(k as int)),
            decreases records@.len() - k,
        {
            assert(records@.take(k + 1).drop_last() =~= records@.take(k as int));
            assert(records@.take(k + 1).last() == records@[k as int]);
            self.apply_record(&records[k], &mut out);
            k += 1;
        }
        assert(records@.take(k as int) =~= records@);
        let tally = self.counters();
        self.set_counters(Tally { generation: count_up(tally.generation, 1), ..tally });
        out.wants_compact = self.wants_compact();
        out
    }
}

} // verus!
