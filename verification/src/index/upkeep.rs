//! What following the journal brings about, said of the records and of the
//! entries themselves.

use super::journal::{
    batch_applied, lemma_with_dropped, nothing_applied, op_applied, ops_applied, shelved, Anomaly,
    Applied,
};
use super::links::Place;
use super::laws::{law_deleted_is_gone, law_record_is_there, law_rename_moves};
use super::model::{arena, names_len, IndexView, Slot, LOST_FOUND, ROOT};
use super::store::Tally;
use super::update::lemma_first_where;
use crate::fold::folded;
use crate::types::{EntryIdx, Frn, NIL};
use crate::usn::record::{law_ops_of_a_reason, reason_ops, IndexOp, ParsedUsnRecord};
use vstd::prelude::*;

verus! {

/// Records can be taken in in one batch or in several: what comes of it is the
/// same.
pub proof fn law_batches_in_a_row(
    a: Applied,
    first: Seq<ParsedUsnRecord>,
    second: Seq<ParsedUsnRecord>,
)
    ensures
        batch_applied(a, first + second) == batch_applied(batch_applied(a, first), second),
        batch_applied(a, Seq::<ParsedUsnRecord>::empty()) == a,
    decreases second.len(),
{
    if second.len() == 0 {
        assert(first + second =~= first);
    } else {
        law_batches_in_a_row(a, first, second.drop_last());
        assert((first + second).drop_last() =~= first + second.drop_last());
        assert((first + second).last() == second.last());
    }
}

/// The reason has size and time looked up: the file was created, its data
/// changed, or its basic information did, and it was not deleted.
pub open spec fn wants_stat(reason: u32) -> bool {
    reason & 0x200 == 0 && (reason & 0x100 != 0 || reason & 0x1 != 0 || reason & 0x2 != 0 || reason
        & 0x4 != 0 || reason & 0x8000 != 0)
}

/// The reason has the links looked up: they changed, and the file was not
/// deleted.
pub open spec fn wants_links(reason: u32) -> bool {
    reason & 0x200 == 0 && reason & 0x1_0000 != 0
}

/// What the operations of one record add to the lists.
proof fn lemma_lists_of_ops(a: Applied, ops: Seq<IndexOp>, rec: ParsedUsnRecord, f: Frn)
    ensures
        ops_applied(a, ops, rec).needs_stat.contains(f) <==> a.needs_stat.contains(f) || (rec.frn
            == f && ops.contains(IndexOp::Stat)),
        ops_applied(a, ops, rec).needs_links.contains(f) <==> a.needs_links.contains(f) || (rec.frn
            == f && ops.contains(IndexOp::ReconcileLinks)),
    decreases ops.len(),
{
    if ops.len() > 0 {
        let init = ops.drop_last();
        lemma_lists_of_ops(a, init, rec, f);
        let b = ops_applied(a, init, rec);
        crate::seqs::lemma_push_members(b.needs_stat, rec.frn, f);
        crate::seqs::lemma_push_members(b.needs_links, rec.frn, f);
        assert(ops =~= init.push(ops.last()));
        crate::seqs::lemma_push_members(init, ops.last(), IndexOp::Stat);
        crate::seqs::lemma_push_members(init, ops.last(), IndexOp::ReconcileLinks);
    }
}

/// A batch names every file whose size and time have to be looked up, and no
/// other: those with a record in it that says that the file was created, or that
/// its data or its basic information changed. The same holds of the files whose
/// links have to be looked up.
pub proof fn law_batch_names_what_to_look_up(
    v: IndexView,
    tally: Tally,
    records: Seq<ParsedUsnRecord>,
    f: Frn,
)
    ensures
        batch_applied(nothing_applied(v, tally), records).needs_stat.contains(f) <==> exists|k: int|
            0 <= k < records.len() && (#[trigger] records[k]).frn == f && wants_stat(
                records[k].reason,
            ),
        batch_applied(nothing_applied(v, tally), records).needs_links.contains(f) <==> exists|
            k: int,
        |
            0 <= k < records.len() && (#[trigger] records[k]).frn == f && wants_links(
                records[k].reason,
            ),
    decreases records.len(),
{
    let a = nothing_applied(v, tally);
    if records.len() > 0 {
        let init = records.drop_last();
        let rec = records.last();
        law_batch_names_what_to_look_up(v, tally, init, f);
        law_ops_of_a_reason(rec.reason);
        lemma_lists_of_ops(batch_applied(a, init), reason_ops(rec.reason), rec, f);
        if reason_ops(rec.reason) == seq![IndexOp::Delete] {
            assert(reason_ops(rec.reason).len() == 1);
            assert(!reason_ops(rec.reason).contains(IndexOp::Stat));
            assert(!reason_ops(rec.reason).contains(IndexOp::ReconcileLinks));
        }
        assert(records[records.len() - 1] == rec);
        if exists|k: int|
            0 <= k < init.len() && (#[trigger] init[k]).frn == f && wants_stat(init[k].reason) {
            let k = choose|k: int|
                0 <= k < init.len() && (#[trigger] init[k]).frn == f && wants_stat(init[k].reason);
            assert(records[k].frn == f && wants_stat(records[k].reason));
        }
        if exists|k: int|
            0 <= k < init.len() && (#[trigger] init[k]).frn == f && wants_links(init[k].reason) {
            let k = choose|k: int|
                0 <= k < init.len() && (#[trigger] init[k]).frn == f && wants_links(
                    init[k].reason,
                );
            assert(records[k].frn == f && wants_links(records[k].reason));
        }
        if exists|k: int|
            0 <= k < records.len() && (#[trigger] records[k]).frn == f && wants_stat(
                records[k].reason,
            ) {
            let k = choose|k: int|
                0 <= k < records.len() && (#[trigger] records[k]).frn == f && wants_stat(
                    records[k].reason,
                );
            if k < init.len() {
                assert(init[k].frn == f && wants_stat(init[k].reason));
            }
        }
        if exists|k: int|
            0 <= k < records.len() && (#[trigger] records[k]).frn == f && wants_links(
                records[k].reason,
            ) {
            let k = choose|k: int|
                0 <= k < records.len() && (#[trigger] records[k]).frn == f && wants_links(
                    records[k].reason,
                );
            if k < init.len() {
                assert(init[k].frn == f && wants_links(init[k].reason));
            }
        }
    }
}

/// What a batch of one record comes to.
proof fn lemma_batch_of_one(a: Applied, rec: ParsedUsnRecord)
    ensures
        batch_applied(a, seq![rec]) == ops_applied(a, reason_ops(rec.reason), rec),
{
    let one = seq![rec];
    assert(one.drop_last() =~= Seq::<ParsedUsnRecord>::empty());
    assert(one.last() == rec);
    assert(batch_applied(a, one.drop_last()) == a);
}

/// Looking things up changes no entry.
proof fn lemma_lookups_change_nothing(a: Applied, ops: Seq<IndexOp>, rec: ParsedUsnRecord)
    requires
        forall|k: int|
            0 <= k < ops.len() ==> #[trigger] ops[k] == IndexOp::Stat || ops[k]
                == IndexOp::ReconcileLinks,
    ensures
        ops_applied(a, ops, rec).index == a.index,
        ops_applied(a, ops, rec).tally == a.tally,
        ops_applied(a, ops, rec).anomalies == a.anomalies,
    decreases ops.len(),
{
    if ops.len() > 0 {
        let init = ops.drop_last();
        assert forall|k: int| 0 <= k < init.len() implies #[trigger] init[k] == IndexOp::Stat
            || init[k] == IndexOp::ReconcileLinks by {
            assert(init[k] == ops[k]);
        }
        lemma_lookups_change_nothing(a, init, rec);
        assert(ops[ops.len() - 1] == ops.last());
    }
}

/// Operations taken in one behind the other.
proof fn lemma_first_op(a: Applied, ops: Seq<IndexOp>, rec: ParsedUsnRecord)
    requires
        ops.len() > 0,
    ensures
        ops_applied(a, ops, rec) == ops_applied(
            op_applied(a, ops[0], rec),
            ops.drop_first(),
            rec,
        ),
    decreases ops.len(),
{
    let init = ops.drop_last();
    if ops.len() == 1 {
        assert(init =~= Seq::<IndexOp>::empty());
        assert(ops.drop_first() =~= Seq::<IndexOp>::empty());
        assert(ops_applied(a, init, rec) == a);
        assert(ops_applied(op_applied(a, ops[0], rec), ops.drop_first(), rec) == op_applied(
            a,
            ops[0],
            rec,
        ));
    } else {
        lemma_first_op(a, init, rec);
        assert(init[0] == ops[0]);
        assert(init.drop_first() =~= ops.drop_first().drop_last());
        assert(ops.drop_first().last() == ops.last());
    }
}

/// What a record does to the entries is what its first operation does, where
/// that is about the name.
proof fn lemma_name_op(a: Applied, rec: ParsedUsnRecord, op: IndexOp)
    requires
        rec.reason & 0x200 == 0,
        op == IndexOp::RemoveName || op == IndexOp::AddName,
        reason_ops(rec.reason).contains(op),
    ensures
        batch_applied(a, seq![rec]).index == op_applied(a, op, rec).index,
        batch_applied(a, seq![rec]).tally == op_applied(a, op, rec).tally,
        batch_applied(a, seq![rec]).anomalies == op_applied(a, op, rec).anomalies,
{
    let ops = reason_ops(rec.reason);
    lemma_batch_of_one(a, rec);
    law_ops_of_a_reason(rec.reason);
    lemma_op_order(rec.reason);
    assert(ops[0] == op);
    lemma_first_op(a, ops, rec);
    let rest = ops.drop_first();
    assert forall|k: int| 0 <= k < rest.len() implies #[trigger] rest[k] == IndexOp::Stat || rest[k]
        == IndexOp::ReconcileLinks by {
        assert(rest[k] == ops[k + 1]);
    }
    lemma_lookups_change_nothing(op_applied(a, op, rec), rest, rec);
}

/// Names come before lookups.
proof fn lemma_op_order(reason: u32)
    requires
        reason & 0x200 == 0,
    ensures
        forall|k: int|
            0 < k < reason_ops(reason).len() ==> #[trigger] reason_ops(reason)[k] == IndexOp::Stat
                || reason_ops(reason)[k] == IndexOp::ReconcileLinks,
{
}

/// A record that says neither that the file is gone nor anything of its name
/// changes no entry.
pub proof fn law_other_records_change_no_entry(
    v: IndexView,
    tally: Tally,
    rec: ParsedUsnRecord,
)
    requires
        rec.reason & 0x200 == 0,
        rec.reason & 0x1000 == 0,
        rec.reason & 0x100 == 0,
        rec.reason & 0x2000 == 0,
    ensures
        batch_applied(nothing_applied(v, tally), seq![rec]).index == v,
        batch_applied(nothing_applied(v, tally), seq![rec]).tally == tally,
        batch_applied(nothing_applied(v, tally), seq![rec]).anomalies == Seq::<Anomaly>::empty(),
{
    let a = nothing_applied(v, tally);
    let ops = reason_ops(rec.reason);
    lemma_batch_of_one(a, rec);
    law_ops_of_a_reason(rec.reason);
    lemma_op_order(rec.reason);
    if ops.len() > 0 {
        assert(ops.contains(ops[0]));
    }
    lemma_lookups_change_nothing(a, ops, rec);
}

/// A record that a file was deleted leaves none of its names: whatever still
/// has its number is out of sight, kept only for what hangs under it. Every
/// other entry is as it was. A file that the index does not have is told of.
pub proof fn law_delete_record(v: IndexView, tally: Tally, rec: ParsedUsnRecord)
    requires
        v.wf(),
        rec.reason & 0x200 != 0,
        rec.frn.0 != v.entry(ROOT).frn,
    ensures
        ({
            let a = batch_applied(nothing_applied(v, tally), seq![rec]);
            let z = a.index;
            &&& z.wf()
            &&& z.entries.len() == v.entries.len()
            &&& z.names == v.names
            &&& forall|i: EntryIdx|
                #[trigger] z.live(i) && i != LOST_FOUND && z.entry(i).frn == rec.frn.0 ==> z.entry(
                    i,
                ).synthetic
            &&& forall|i: EntryIdx|
                v.in_range(i) && v.entry(i).frn != rec.frn.0 ==> #[trigger] z.entry(i) == v.entry(i)
            &&& a.anomalies.contains(Anomaly::DeleteOfUnknown(rec.frn)) <==> forall|i: EntryIdx|
                #[trigger] v.live(i) && i != LOST_FOUND ==> v.entry(i).frn != rec.frn.0
        }),
{
    let a = nothing_applied(v, tally);
    lemma_batch_of_one(a, rec);
    law_ops_of_a_reason(rec.reason);
    let ops = reason_ops(rec.reason);
    assert(ops.len() == 1 && ops[0] == IndexOp::Delete);
    assert(ops.drop_last() =~= Seq::<IndexOp>::empty());
    assert(ops.last() == IndexOp::Delete);
    assert(ops_applied(a, ops.drop_last(), rec) == a);
    let b = op_applied(a, IndexOp::Delete, rec);
    assert(ops_applied(a, ops, rec) == b);
    let frn = rec.frn.0;
    law_deleted_is_gone(v, frn);
    let l = v.links_of(frn);
    let z = b.index;
    assert forall|k: int| 0 <= k < l.len() implies v.live(#[trigger] l[k]) && LOST_FOUND < l[k] by {
        assert(l.contains(l[k]));
    }
    super::laws::lemma_all_dropped(v, l);
    assert forall|i: EntryIdx|
        #[trigger] z.live(i) && i != LOST_FOUND && z.entry(i).frn == frn implies z.entry(
        i,
    ).synthetic by {
        assert(z.names_file(i, frn));
    }
    if l.len() == 0 {
        assert(b.anomalies =~= seq![Anomaly::DeleteOfUnknown(rec.frn)]);
        assert(b.anomalies[0] == Anomaly::DeleteOfUnknown(rec.frn));
        assert forall|i: EntryIdx| #[trigger] v.live(i) && i != LOST_FOUND implies v.entry(i).frn
            != frn by {
            if v.entry(i).frn == frn {
                assert(v.links[frn].contains(i));
            }
        }
    } else {
        assert(v.links[frn].contains(l[0]));
        assert(v.live(l[0]) && l[0] != LOST_FOUND && v.entry(l[0]).frn == frn);
        assert(b.anomalies =~= Seq::<Anomaly>::empty());
    }
}

/// The entry in slot `i` is what the record speaks of: a name of its file, in
/// its directory.
pub open spec fn bears(v: IndexView, i: EntryIdx, rec: ParsedUsnRecord) -> bool {
    &&& v.live(i)
    &&& !v.entry(i).synthetic
    &&& v.entry(i).frn == rec.frn.0
    &&& v.name(i) == rec.name@
    &&& v.live(v.entry(i).parent)
    &&& v.entry(v.entry(i).parent).frn == rec.parent_frn.0
}

/// The record gives a name that a file can have, for a file other than the
/// root, in a directory other than itself and not under itself; and the index
/// has room for it.
pub open spec fn can_be_taken(v: IndexView, rec: ParsedUsnRecord) -> bool {
    &&& rec.frn.0 != v.entry(ROOT).frn
    &&& rec.frn.0 != rec.parent_frn.0
    &&& rec.name@.len() > 0
    &&& forall|k: int|
        0 <= k < rec.name@.len() ==> #[trigger] rec.name@[k] != 0x5C && rec.name@[k] != 0x2F
    &&& !folded(rec.name@).contains(0u8)
    &&& v.entries.len() + 2 < NIL
    &&& v.names.contains(rec.name@) || (v.names.len() < NIL && names_len(v.names) + rec.name@.len()
        <= NIL && arena(v.names).len() + folded(rec.name@).len() + 1 <= NIL)
    &&& forall|i: EntryIdx, j: EntryIdx|
        #![trigger v.descends(j, i)]
        v.live(i) && v.entry(i).frn == rec.frn.0 && v.live(j) && v.entry(j).frn
            == rec.parent_frn.0 ==> !v.descends(j, i)
}

/// Nothing comes under an entry by its being shelved.
proof fn lemma_shelving_adds_nothing(v: IndexView, p: EntryIdx, q: EntryIdx)
    requires
        v.wf(),
        v.live(p),
        LOST_FOUND < p,
        v.with_shelved(p).wf(),
        v.in_range(q),
        v.with_shelved(p).descends(q, p),
    ensures
        v.descends(q, p),
    decreases v.with_shelved(p).rank[q as int],
{
    let w = v.with_shelved(p);
    if q == p {
        crate::index::walk::lemma_descends_rank(w, p, p);
    } else {
        assert(w.entry(q) == v.entry(q));
        if q <= LOST_FOUND {
            assert(v.entry(q).parent == NIL);
        }
        assert(v.has_parent(q));
        let up = v.entry(q).parent;
        if up != p {
            lemma_shelving_adds_nothing(v, p, up);
        }
    }
}

/// A record that can be taken can still be once its directory was taken from
/// where it stood.
proof fn lemma_taken_when_free(v: IndexView, rec: ParsedUsnRecord)
    requires
        v.wf(),
        can_be_taken(v, rec),
    ensures
        v.made_free(rec).wf(),
        v.made_free(rec).takes(rec),
        v.made_free(rec).entry(ROOT) == v.entry(ROOT),
        forall|i: EntryIdx|
            v.in_range(i) && v.entry(i).frn != rec.frn.0 ==> #[trigger] v.made_free(rec).entry(i)
                == v.entry(i),
{
    let w = v.made_free(rec);
    let frn = rec.frn.0;
    assert(super::model::indexable(rec.name@)) by {
        assert forall|k: int| 0 <= k < rec.name@.len() implies !super::model::is_separator(
            #[trigger] rec.name@[k],
        ) by {
            assert(rec.name@[k] != 0x5C && rec.name@[k] != 0x2F);
        }
    }
    if v.stands_elsewhere(rec) {
        let p = v.links_of(frn)[0];
        assert(v.links[frn].contains(p));
        assert(v.live(p) && v.entry(p).frn == frn);
        if p <= LOST_FOUND {
            assert(v.entry(p).synthetic);
        }
        lemma_with_dropped(v, p);
        assert(w == v.with_shelved(p));
        assert(w.links == v.links);
        assert(w.entry(p) == shelved(v.entry(p)));
    }
    if frn != rec.parent_frn.0 && w.placeholder_for(frn) is Some && w.links_of(
        rec.parent_frn.0,
    ).len() > 0 {
        let p = w.placeholder_for(frn)->0;
        let q = w.links_of(rec.parent_frn.0)[0];
        assert(w.links == v.links);
        assert(v.links[frn].contains(p));
        assert(v.links[rec.parent_frn.0].contains(q));
        assert(v.live(p) && v.entry(p).frn == frn);
        assert(v.live(q) && v.entry(q).frn == rec.parent_frn.0);
        assert(q != p);
        assert(!v.descends(q, p));
        if w.descends(q, p) && v.stands_elsewhere(rec) {
            lemma_shelving_adds_nothing(v, p, q);
        }
    }
    assert(!w.would_loop(rec)) by {
        assert(rec.frn != rec.parent_frn);
    }
}

/// A record that a file was created, or that gives the name after a rename,
/// puts the name into the index: an entry in use is what the record speaks of.
/// A name that was not there before is marked as a directory exactly where the
/// record's attributes have the bit 0x10, and has the size and time that the
/// file's other names have. The entries of other files are as they were.
pub proof fn law_name_record(v: IndexView, tally: Tally, rec: ParsedUsnRecord) -> (i: EntryIdx)
    requires
        v.wf(),
        rec.reason & 0x200 == 0,
        rec.reason & 0x1000 == 0,
        rec.reason & 0x100 != 0 || rec.reason & 0x2000 != 0,
        can_be_taken(v, rec),
    ensures
        ({
            let a = batch_applied(nothing_applied(v, tally), seq![rec]);
            let z = a.index;
            &&& bears(z, i, rec)
            &&& a.anomalies == Seq::<Anomaly>::empty()
            &&& bears(v, i, rec) ==> z.entry(i) == v.entry(i)
            &&& !bears(v, i, rec) ==> z.entry(i).is_dir == (rec.attributes & 0x10 != 0)
            &&& forall|j: EntryIdx|
                v.in_range(j) && v.entry(j).frn != rec.frn.0 ==> #[trigger] z.entry(j) == v.entry(j)
            &&& forall|j: EntryIdx|
                #[trigger] v.live(j) && v.entry(j).frn == rec.frn.0 && j != LOST_FOUND && (forall|
                    k: EntryIdx,
                |
                    #[trigger] v.live(k) && v.entry(k).frn == rec.frn.0 && k != LOST_FOUND
                        ==> v.entry(k).size == v.entry(j).size && v.entry(k).mtime == v.entry(
                        j,
                    ).mtime) ==> z.entry(i).size == v.entry(j).size && z.entry(i).mtime == v.entry(
                    j,
                ).mtime
        }),
{
    let a = nothing_applied(v, tally);
    law_ops_of_a_reason(rec.reason);
    lemma_name_op(a, rec, IndexOp::AddName);
    lemma_taken_when_free(v, rec);
    let w = v.made_free(rec);
    let z = w.with_record(rec);
    let frn = rec.frn.0;
    let b = op_applied(a, IndexOp::AddName, rec);
    assert(b.index == z);
    law_record_is_there(w, rec);
    let i = w.record_place(rec)->0;
    assert(z.records(i, rec));
    assert(b.anomalies =~= Seq::<Anomaly>::empty());
    let there = |j: EntryIdx| v.is_link(j, frn, rec.parent_frn.0, rec.name@);
    lemma_first_where(v.links_of(frn), there);
    let still = |j: EntryIdx| w.is_link(j, frn, rec.parent_frn.0, rec.name@);
    lemma_first_where(w.links_of(frn), still);
    assert(w.links == v.links);
    if w.link_of(rec) is Some {
        assert(w.links[frn].contains(i));
        if v.stands_elsewhere(rec) {
            let p = v.links_of(frn)[0];
            assert(v.links[frn].contains(p));
            assert(i != p);
            assert(w.entry(i) == v.entry(i));
            assert(v.has_parent(i));
            assert(v.in_range(v.entry(i).parent));
            assert(there(i));
        }
    } else {
        assert(z.entry(i) == w.record_entry(rec)) by {
            lemma_record_stands(w, rec);
        }
    }
    assert forall|j: EntryIdx|
        #[trigger] v.live(j) && v.entry(j).frn == frn && j != LOST_FOUND && (forall|k: EntryIdx|
            #[trigger] v.live(k) && v.entry(k).frn == frn && k != LOST_FOUND ==> v.entry(k).size
                == v.entry(j).size && v.entry(k).mtime == v.entry(j).mtime) implies z.entry(i).size
        == v.entry(j).size && z.entry(i).mtime == v.entry(j).mtime by {
        assert(v.links[frn].contains(j));
        let first = v.links_of(frn)[0];
        assert(v.links[frn].contains(first));
        assert(v.live(first) && v.entry(first).frn == frn && first != LOST_FOUND);
        assert(w.entry(first).size == v.entry(first).size && w.entry(first).mtime == v.entry(
            first,
        ).mtime);
        if w.link_of(rec) is Some {
            assert(w.links[frn].contains(i));
            assert(z.entry(i) == w.entry(i));
            assert(v.live(i) && v.entry(i).frn == frn && i != LOST_FOUND);
        }
    }
    i
}

/// A record of the volume's enumeration puts its name into the index: an entry
/// in use is what the record speaks of. A name that was not there before is
/// marked as a directory exactly where the attributes have the bit 0x10. Where
/// all that stood for the file was a placeholder, made for what lies under it,
/// the placeholder becomes the entry, and what lies under it comes along. The
/// entries of other files are as they were.
pub proof fn law_enumerated_record(v: IndexView, rec: ParsedUsnRecord) -> (i: EntryIdx)
    requires
        v.wf(),
        can_be_taken(v, rec),
    ensures
        ({
            let z = v.with_record(rec);
            &&& z.wf()
            &&& v.record_place(rec) == Some(i)
            &&& bears(z, i, rec)
            &&& bears(v, i, rec) ==> z == v
            &&& !bears(v, i, rec) ==> z.entry(i).is_dir == (rec.attributes & 0x10 != 0)
            &&& forall|j: EntryIdx| v.in_range(j) && j != i ==> #[trigger] z.entry(j) == v.entry(j)
            &&& forall|p: EntryIdx|
                #[trigger] v.live(p) && p > LOST_FOUND && v.entry(p).synthetic && v.entry(p).frn
                    == rec.frn.0 && (forall|j: EntryIdx|
                    #[trigger] v.live(j) && j != LOST_FOUND && v.entry(j).frn == rec.frn.0 ==> j
                        == p) ==> i == p
        }),
{
    let frn = rec.frn.0;
    assert(super::model::indexable(rec.name@)) by {
        assert forall|k: int| 0 <= k < rec.name@.len() implies !super::model::is_separator(
            #[trigger] rec.name@[k],
        ) by {
            assert(rec.name@[k] != 0x5C && rec.name@[k] != 0x2F);
        }
    }
    assert(v.takes(rec)) by {
        if v.placeholder_for(frn) is Some && v.links_of(rec.parent_frn.0).len() > 0 {
            let p = v.placeholder_for(frn)->0;
            let q = v.links_of(rec.parent_frn.0)[0];
            assert(v.links[frn].contains(p));
            assert(v.links[rec.parent_frn.0].contains(q));
            assert(v.live(p) && v.entry(p).frn == frn);
            assert(v.live(q) && v.entry(q).frn == rec.parent_frn.0);
            assert(!v.descends(q, p));
        }
        assert(rec.frn != rec.parent_frn);
    }
    super::laws::lemma_with_record(v, rec);
    law_record_is_there(v, rec);
    let z = v.with_record(rec);
    let i = v.record_place(rec)->0;
    assert(z.records(i, rec));
    let there = |j: EntryIdx| v.is_link(j, frn, rec.parent_frn.0, rec.name@);
    lemma_first_where(v.links_of(frn), there);
    if v.link_of(rec) is None {
        lemma_record_stands(v, rec);
        if bears(v, i, rec) {
            lemma_bearer_is_link(v, i, rec);
            assert(there(i));
        }
    }
    assert forall|p: EntryIdx|
        #[trigger] v.live(p) && p > LOST_FOUND && v.entry(p).synthetic && v.entry(p).frn == frn && (
        forall|j: EntryIdx|
            #[trigger] v.live(j) && j != LOST_FOUND && v.entry(j).frn == frn ==> j == p) implies i
        == p by {
        assert(v.links.contains_key(v.entry(p).frn));
        assert(v.links[frn].contains(p));
        let first = v.links_of(frn)[0];
        assert(v.links[frn].contains(first));
        assert(v.live(first));
        assert(first == p);
        if v.link_of(rec) is Some {
            assert(v.links[frn].contains(i));
            assert(v.live(i));
        }
    }
    i
}

/// A record that gives the name before a rename takes it out of sight: the
/// entry that it speaks of is gone, or kept out of sight for the name that
/// follows. Every other entry is as it was.
pub proof fn law_old_name_record(v: IndexView, tally: Tally, rec: ParsedUsnRecord, i: EntryIdx) -> (
    taken: EntryIdx)
    requires
        v.wf(),
        rec.reason & 0x200 == 0,
        rec.reason & 0x1000 != 0,
        bears(v, i, rec),
    ensures
        ({
            let a = batch_applied(nothing_applied(v, tally), seq![rec]);
            let z = a.index;
            &&& bears(v, taken, rec)
            &&& z.wf()
            &&& !z.live(taken) || z.entry(taken).synthetic
            &&& a.anomalies == Seq::<Anomaly>::empty()
            &&& forall|j: EntryIdx|
                v.in_range(j) && j != taken ==> #[trigger] z.entry(j) == v.entry(j)
        }),
{
    let a = nothing_applied(v, tally);
    law_ops_of_a_reason(rec.reason);
    lemma_name_op(a, rec, IndexOp::RemoveName);
    let frn = rec.frn.0;
    let there = |j: EntryIdx| v.is_link(j, frn, rec.parent_frn.0, rec.name@);
    lemma_first_where(v.links_of(frn), there);
    lemma_bearer_is_link(v, i, rec);
    assert(there(i));
    let taken = v.link_of(rec)->0;
    assert(v.links[frn].contains(taken));
    assert(v.has_parent(taken));
    lemma_with_dropped(v, taken);
    let b = op_applied(a, IndexOp::RemoveName, rec);
    assert(b.anomalies =~= Seq::<Anomaly>::empty());
    assert(v.with_shelved(taken).entry(taken).synthetic);
    taken
}

/// A record of a name before a rename that the index does not have changes no
/// entry, and is told of.
pub proof fn law_unknown_old_name(v: IndexView, tally: Tally, rec: ParsedUsnRecord)
    requires
        v.wf(),
        rec.reason & 0x200 == 0,
        rec.reason & 0x1000 != 0,
        forall|i: EntryIdx| !bears(v, i, rec),
    ensures
        batch_applied(nothing_applied(v, tally), seq![rec]).index == v,
        batch_applied(nothing_applied(v, tally), seq![rec]).anomalies == seq![
            Anomaly::RenameOfUnknown(rec.frn),
        ],
{
    let a = nothing_applied(v, tally);
    law_ops_of_a_reason(rec.reason);
    lemma_name_op(a, rec, IndexOp::RemoveName);
    let frn = rec.frn.0;
    let there = |j: EntryIdx| v.is_link(j, frn, rec.parent_frn.0, rec.name@);
    lemma_first_where(v.links_of(frn), there);
    if v.link_of(rec) is Some {
        let j = v.link_of(rec)->0;
        assert(v.links[frn].contains(j));
        assert(v.has_parent(j));
        assert(bears(v, j, rec));
    }
    let b = op_applied(a, IndexOp::RemoveName, rec);
    assert(b.anomalies =~= seq![Anomaly::RenameOfUnknown(rec.frn)]);
}

/// What bears a record's name is one of its file's links.
proof fn lemma_bearer_is_link(v: IndexView, i: EntryIdx, rec: ParsedUsnRecord)
    requires
        v.wf(),
        bears(v, i, rec),
    ensures
        i > LOST_FOUND,
        v.links_of(rec.frn.0).contains(i),
        v.is_link(i, rec.frn.0, rec.parent_frn.0, rec.name@),
{
    if i <= LOST_FOUND {
        assert(v.entry(i).synthetic);
    }
    assert(v.links.contains_key(v.entry(i).frn));
    assert(v.links[rec.frn.0].contains(i));
}

/// A rename, told by the record of the old name and then by that of the new one,
/// moves a file with one name: its entry keeps its slot, its size and its time,
/// and bears the new name in the new directory. No other entry changes, so that
/// what hangs under a renamed directory comes along.
pub proof fn law_rename_records(
    v: IndexView,
    tally: Tally,
    before: ParsedUsnRecord,
    after: ParsedUsnRecord,
    i: EntryIdx,
)
    requires
        v.wf(),
        before.reason & 0x200 == 0,
        before.reason & 0x1000 != 0,
        after.reason & 0x200 == 0,
        after.reason & 0x1000 == 0,
        after.reason & 0x2000 != 0,
        before.frn == after.frn,
        bears(v, i, before),
        forall|j: EntryIdx|
            #[trigger] v.live(j) && j != LOST_FOUND && v.entry(j).frn == before.frn.0 ==> j == i,
        can_be_taken(v, after),
    ensures
        ({
            let a = batch_applied(nothing_applied(v, tally), seq![before, after]);
            let z = a.index;
            &&& bears(z, i, after)
            &&& z.entry(i).size == v.entry(i).size
            &&& z.entry(i).mtime == v.entry(i).mtime
            &&& z.entry(i).is_dir == (after.attributes & 0x10 != 0)
            &&& a.anomalies == Seq::<Anomaly>::empty()
            &&& forall|j: EntryIdx|
                v.in_range(j) && j != i ==> #[trigger] z.entry(j) == v.entry(j)
        }),
{
    let a = nothing_applied(v, tally);
    let frn = before.frn.0;
    assert(seq![before, after] =~= seq![before] + seq![after]);
    law_batches_in_a_row(a, seq![before], seq![after]);
    law_ops_of_a_reason(before.reason);
    law_ops_of_a_reason(after.reason);
    lemma_name_op(a, before, IndexOp::RemoveName);
    let b = batch_applied(a, seq![before]);
    lemma_name_op(b, after, IndexOp::AddName);
    lemma_bearer_is_link(v, i, before);
    let there = |j: EntryIdx| v.is_link(j, frn, before.parent_frn.0, before.name@);
    lemma_first_where(v.links_of(frn), there);
    assert(there(i));
    let found = v.link_of(before)->0;
    assert(v.links[frn].contains(found));
    assert(found == i);
    let links = v.links_of(frn);
    assert(links.len() == 1) by {
        assert(links.no_duplicates());
        if links.len() > 1 {
            assert(links.contains(links[0]) && links.contains(links[1]));
            assert(v.live(links[0]) && v.live(links[1]));
        }
    }
    let w = v.with_name_dropped(before);
    assert(w == v.with_shelved(i));
    lemma_with_dropped(v, i);
    assert(b.index == w);
    assert(w.entry(i) == shelved(v.entry(i)));
    assert(w.links == v.links);
    assert(links[0] == i) by {
        assert(links.contains(links[0]));
    }
    assert(w.made_free(after) == w);
    assert(super::model::indexable(after.name@)) by {
        assert forall|k: int| 0 <= k < after.name@.len() implies !super::model::is_separator(
            #[trigger] after.name@[k],
        ) by {
            assert(after.name@[k] != 0x5C && after.name@[k] != 0x2F);
        }
    }
    assert(w.takes(after)) by {
        assert(w.placeholder_for(frn) == Some(i));
        if w.links_of(after.parent_frn.0).len() > 0 {
            let q = w.links_of(after.parent_frn.0)[0];
            assert(v.links[after.parent_frn.0].contains(q));
            assert(v.live(q) && v.entry(q).frn == after.parent_frn.0);
            assert(!v.descends(q, i));
            if w.descends(q, i) {
                lemma_shelving_adds_nothing(v, i, q);
            }
        }
        assert(after.frn != after.parent_frn);
    }
    law_rename_moves(v, before, after);
    let z = w.with_record(after);
    let c = op_applied(b, IndexOp::AddName, after);
    assert(c.index == z);
    assert(b.anomalies =~= Seq::<Anomaly>::empty());
    assert(c.anomalies =~= Seq::<Anomaly>::empty());
    assert(w.entry(ROOT) == v.entry(ROOT));
    let again = |j: EntryIdx| w.is_link(j, frn, after.parent_frn.0, after.name@);
    lemma_first_where(w.links_of(frn), again);
    assert(w.link_of(after) is None) by {
        if w.link_of(after) is Some {
            let j = w.link_of(after)->0;
            assert(v.links[frn].contains(j));
            assert(j == i);
        }
    }
    lemma_record_stands(w, after);
    assert(w.record_place(after) == Some(i));
}

/// The entry that a record makes stands where it is said to.
proof fn lemma_record_stands(v: IndexView, rec: ParsedUsnRecord)
    requires
        v.wf(),
        v.is_news(rec),
    ensures
        v.record_place(rec) is Some,
        v.with_record(rec).entry(v.record_place(rec)->0) == v.record_entry(rec),
{
    match v.placeholder_for(rec.frn.0) {
        Some(p) => {
            assert(v.links[rec.frn.0].contains(p));
            assert(v.in_range(p));
        },
        None => {},
    }
}

/// The sizes and times that were looked up for a file are noted for every one of
/// its names, and for nothing else; nothing but size and time changes.
pub proof fn law_stat_is_noted(v: IndexView, frn: u64, size: u64, mtime: i64, i: EntryIdx)
    requires
        v.wf(),
        v.in_range(i),
    ensures
        ({
            let z = v.with_file_stat(frn, size, mtime);
            &&& z.entries.len() == v.entries.len()
            &&& z.names == v.names
            &&& v.live(i) && i != LOST_FOUND && v.entry(i).frn == frn ==> z.entry(i) == (Slot {
                size: Some(size),
                mtime: Some(mtime),
                ..v.entry(i)
            })
            &&& !(v.live(i) && i != LOST_FOUND && v.entry(i).frn == frn) ==> z.entry(i) == v.entry(
                i,
            )
        }),
{
}

/// The places are ones that names can be put at: in folders in use, under names
/// that files can have, and with room for all of them.
pub open spec fn can_be_linked(v: IndexView, list: Seq<Place>) -> bool {
    let new_names = list.map_values(|p: Place| p.1);
    &&& v.entries.len() + list.len() + 2 < NIL
    &&& v.names.len() + list.len() < NIL
    &&& names_len(v.names) + names_len(new_names) <= NIL
    &&& arena(v.names).len() + arena(new_names).len() <= NIL
    &&& forall|k: int|
        0 <= k < list.len() ==> {
            let place = #[trigger] list[k];
            &&& v.live(place.0)
            &&& place.0 != LOST_FOUND
            &&& place.1.len() > 0
            &&& forall|j: int|
                0 <= j < place.1.len() ==> #[trigger] place.1[j] != 0x5C && place.1[j] != 0x2F
            &&& !folded(place.1).contains(0u8)
        }
}

/// Names that can be added are added.
proof fn lemma_links_get_added(v: IndexView, frn: u64, list: Seq<Place>)
    requires
        v.wf(),
        can_be_linked(v, list),
    ensures
        ({
            let w = v.with_links_added(frn, list);
            let new_names = list.map_values(|p: Place| p.1);
            &&& w.wf()
            &&& v.extended(w)
            &&& w.linked_at_all(frn, list)
            &&& w.entries.len() <= v.entries.len() + list.len()
            &&& w.names.len() <= v.names.len() + list.len()
            &&& names_len(w.names) <= names_len(v.names) + names_len(new_names)
            &&& arena(w.names).len() <= arena(v.names).len() + arena(new_names).len()
        }),
    decreases list.len(),
{
    let w = v.with_links_added(frn, list);
    super::laws::lemma_links_added(v, frn, list);
    let name_of = |p: Place| p.1;
    if list.len() > 0 {
        let init = list.drop_last();
        let place = list.last();
        let all = list.map_values(name_of);
        let some = init.map_values(name_of);
        assert(all.drop_last() =~= some);
        assert(all.last() == place.1);
        assert(can_be_linked(v, init)) by {
            assert forall|k: int| 0 <= k < init.len() implies {
                let place = #[trigger] init[k];
                &&& v.live(place.0)
                &&& place.0 != LOST_FOUND
                &&& place.1.len() > 0
                &&& forall|j: int|
                    0 <= j < place.1.len() ==> #[trigger] place.1[j] != 0x5C && place.1[j] != 0x2F
                &&& !folded(place.1).contains(0u8)
            } by {
                assert(init[k] == list[k]);
            }
        }
        lemma_links_get_added(v, frn, init);
        let u = v.with_links_added(frn, init);
        assert(list[list.len() - 1] == place);
        assert(super::model::indexable(place.1)) by {
            assert forall|k: int| 0 <= k < place.1.len() implies !super::model::is_separator(
                #[trigger] place.1[k],
            ) by {
                assert(place.1[k] != 0x5C && place.1[k] != 0x2F);
            }
        }
        super::links::lemma_extended(v, u, place.0);
        assert(u.live(place.0));
        assert(u.takes_link(place));
        let u1 = u.with_known_name(place.1);
        if !u.names.contains(place.1) {
            assert(u1.names.drop_last() =~= u.names);
            assert(u1.names.last() == place.1);
        }
        if u.linked_at(frn, place) {
            assert(w == u);
        } else {
            let e = u.link_entry(frn, place);
            let n = u.entries.len() as EntryIdx;
            assert(u1.names.contains(place.1)) by {
                if !u.names.contains(place.1) {
                    assert(u1.names[u1.names.len() - 1] == place.1);
                }
            }
            assert(w == u1.with_entry(e));
            assert(w.entry(n) == e);
            assert(w.links_of(frn)[w.links_of(frn).len() - 1] == n);
            assert(w.links_of(frn).contains(n));
            assert(w.names[w.names.index_of(place.1)] == place.1);
            assert(w.stands_at(n, place));
        }
        assert(u.extended(w));
        assert forall|k: int| 0 <= k < list.len() implies w.linked_at(frn, #[trigger] list[k]) by {
            if k < init.len() {
                assert(u.linked_at(frn, init[k]));
                let i = choose|i: EntryIdx| #[trigger]
                    u.links_of(frn).contains(i) && u.stands_at(i, init[k]);
                assert(u.links[frn].contains(i));
                super::links::lemma_extended(u, w, i);
                assert(w.live(i) && i != LOST_FOUND && w.entry(i).frn == frn);
                assert(w.links.contains_key(w.entry(i).frn));
                assert(w.links[frn].contains(i));
                assert(w.links_of(frn).contains(i) && w.stands_at(i, list[k]));
            } else if u.linked_at(frn, place) {
                assert(w == u);
            }
        }
    } else {
        assert(list.map_values(name_of) =~= Seq::<Seq<u8>>::empty());
    }
}

/// Once the links of a file were looked up, it has names at exactly those
/// places: each place holds an entry in use with its number, and no entry in
/// sight with its number stands anywhere else. No other file is touched.
pub proof fn law_links_are_set(v: IndexView, frn: u64, list: Seq<Place>)
    requires
        v.wf(),
        frn != v.entry(ROOT).frn,
        can_be_linked(v, list),
    ensures
        ({
            let z = v.with_links(frn, list);
            &&& z.wf()
            &&& forall|place: Place| #[trigger]
                list.contains(place) <==> exists|i: EntryIdx|
                    #[trigger] z.live(i) && i != LOST_FOUND && z.entry(i).frn == frn && !z.entry(
                        i,
                    ).synthetic && z.entry(i).parent == place.0 && z.name(i) == place.1
            &&& forall|i: EntryIdx|
                v.in_range(i) && v.entry(i).frn != frn ==> #[trigger] z.entry(i) == v.entry(i)
        }),
{
    lemma_links_get_added(v, frn, list);
    super::laws::law_links_reconciled(v, frn, list);
    let z = v.with_links(frn, list);
    assert forall|place: Place| #[trigger] list.contains(place) <==> exists|i: EntryIdx|
        #[trigger] z.live(i) && i != LOST_FOUND && z.entry(i).frn == frn && !z.entry(i).synthetic
            && z.entry(i).parent == place.0 && z.name(i) == place.1 by {
        if list.contains(place) {
            let i = choose|i: EntryIdx| #[trigger] z.names_file(i, frn) && z.stands_at(i, place);
            assert(z.live(i) && z.place_of(i) == place);
        }
        if exists|i: EntryIdx|
            #[trigger] z.live(i) && i != LOST_FOUND && z.entry(i).frn == frn && !z.entry(
                i,
            ).synthetic && z.entry(i).parent == place.0 && z.name(i) == place.1 {
            let i = choose|i: EntryIdx|
                #[trigger] z.live(i) && i != LOST_FOUND && z.entry(i).frn == frn && !z.entry(
                    i,
                ).synthetic && z.entry(i).parent == place.0 && z.name(i) == place.1;
            assert(z.place_of(i) == place);
            assert(z.names_file(i, frn) && z.stands_at(i, place));
        }
    }
}

/// A record of a name that no entry can have is told of as refused: an empty
/// name, one with a separator in it, one that folds to something with a NUL, or
/// one that would hang a file under itself. The root is no such file.
pub proof fn law_refused_record(v: IndexView, tally: Tally, rec: ParsedUsnRecord)
    requires
        v.wf(),
        rec.reason & 0x200 == 0,
        rec.reason & 0x1000 == 0,
        rec.reason & 0x100 != 0 || rec.reason & 0x2000 != 0,
        rec.frn.0 != v.entry(ROOT).frn,
        rec.name@.len() == 0 || rec.name@.contains(0x5C) || rec.name@.contains(0x2F) || folded(
            rec.name@,
        ).contains(0) || rec.frn == rec.parent_frn,
    ensures
        batch_applied(nothing_applied(v, tally), seq![rec]).anomalies == seq![
            Anomaly::Refused(rec.frn),
        ],
        batch_applied(nothing_applied(v, tally), seq![rec]).tally == tally,
        forall|i: EntryIdx|
            v.in_range(i) && v.entry(i).frn != rec.frn.0 ==> #[trigger] batch_applied(
                nothing_applied(v, tally),
                seq![rec],
            ).index.entry(i) == v.entry(i),
{
    let a = nothing_applied(v, tally);
    law_ops_of_a_reason(rec.reason);
    lemma_name_op(a, rec, IndexOp::AddName);
    super::model::law_indexable(rec.name@);
    lemma_made_free(v, rec);
    let w = v.made_free(rec);
    let b = op_applied(a, IndexOp::AddName, rec);
    assert(!w.takes(rec));
    assert(w.record_place(rec) is None);
    assert(b.index == w);
    assert(b.anomalies =~= seq![Anomaly::Refused(rec.frn)]);
}

/// Making room for a directory changes no other file's entries.
proof fn lemma_made_free(v: IndexView, rec: ParsedUsnRecord)
    requires
        v.wf(),
    ensures
        v.made_free(rec).links == v.links,
        v.made_free(rec).entry(ROOT).frn == v.entry(ROOT).frn,
        forall|i: EntryIdx|
            v.in_range(i) && v.entry(i).frn != rec.frn.0 ==> #[trigger] v.made_free(rec).entry(i)
                == v.entry(i),
{
    let frn = rec.frn.0;
    if v.stands_elsewhere(rec) {
        let p = v.links_of(frn)[0];
        assert(v.links[frn].contains(p));
        assert(v.live(p) && v.entry(p).frn == frn);
        if p <= LOST_FOUND {
            assert(v.entry(p).synthetic);
        }
        lemma_with_dropped(v, p);
    }
}

/// A stand-in is counted for a record whose directory the index does not have,
/// and for no record whose directory it has.
pub proof fn law_stand_ins_are_counted(v: IndexView, tally: Tally, rec: ParsedUsnRecord)
    requires
        v.wf(),
        rec.reason & 0x200 == 0,
        rec.reason & 0x1000 == 0,
        rec.reason & 0x100 != 0 || rec.reason & 0x2000 != 0,
        can_be_taken(v, rec),
        tally.placeholders_created < u64::MAX,
    ensures
        ({
            let t = batch_applied(nothing_applied(v, tally), seq![rec]).tally;
            let known = exists|i: EntryIdx|
                #[trigger] v.live(i) && i != LOST_FOUND && v.entry(i).frn == rec.parent_frn.0;
            &&& t.placeholders_created == tally.placeholders_created + if known {
                0int
            } else {
                1
            }
            &&& t.delete_of_unknown == tally.delete_of_unknown
            &&& t.generation == tally.generation
            &&& t.link_reconciles_dropped == tally.link_reconciles_dropped
        }),
{
    let a = nothing_applied(v, tally);
    law_ops_of_a_reason(rec.reason);
    lemma_name_op(a, rec, IndexOp::AddName);
    lemma_taken_when_free(v, rec);
    lemma_made_free(v, rec);
    let w = v.made_free(rec);
    let dir = rec.parent_frn.0;
    if v.links_of(dir).len() > 0 {
        let i = v.links_of(dir)[0];
        super::changes::law_names_of_a_file(v, dir, i);
        assert(v.links_of(dir).contains(i));
        assert(v.live(i) && i != LOST_FOUND && v.entry(i).frn == dir);
    } else {
        assert forall|i: EntryIdx| #[trigger] v.live(i) && i != LOST_FOUND implies v.entry(i).frn
            != dir by {
            super::changes::law_names_of_a_file(v, dir, i);
        }
        let there = |j: EntryIdx| w.is_link(j, rec.frn.0, dir, rec.name@);
        lemma_first_where(w.links_of(rec.frn.0), there);
        if w.link_of(rec) is Some {
            let j = w.link_of(rec)->0;
            assert(w.links[rec.frn.0].contains(j));
            assert(w.live(j));
            assert(w.has_parent(j));
            let p = w.entry(j).parent;
            assert(w.live(p));
            assert(w.entry(p).frn == dir);
            if p != LOST_FOUND {
                assert(w.links.contains_key(dir));
                assert(w.links[dir].contains(p));
            } else {
                assert(w.entry(j).synthetic);
            }
            assert(false);
        }
    }
}

/// A deletion of a file that the index does not have is counted, any other is
/// not.
pub proof fn law_unknown_deletes_are_counted(v: IndexView, tally: Tally, rec: ParsedUsnRecord)
    requires
        v.wf(),
        rec.reason & 0x200 != 0,
        tally.delete_of_unknown < u64::MAX,
    ensures
        ({
            let t = batch_applied(nothing_applied(v, tally), seq![rec]).tally;
            let known = exists|i: EntryIdx|
                #[trigger] v.live(i) && i != LOST_FOUND && v.entry(i).frn == rec.frn.0;
            &&& t.delete_of_unknown == tally.delete_of_unknown + if known {
                0int
            } else {
                1
            }
            &&& t.placeholders_created == tally.placeholders_created
            &&& t.generation == tally.generation
            &&& t.link_reconciles_dropped == tally.link_reconciles_dropped
        }),
{
    let a = nothing_applied(v, tally);
    lemma_batch_of_one(a, rec);
    law_ops_of_a_reason(rec.reason);
    let ops = reason_ops(rec.reason);
    assert(ops.len() == 1 && ops[0] == IndexOp::Delete);
    assert(ops.drop_last() =~= Seq::<IndexOp>::empty());
    assert(ops.last() == IndexOp::Delete);
    assert(ops_applied(a, ops.drop_last(), rec) == a);
    assert(ops_applied(a, ops, rec) == op_applied(a, IndexOp::Delete, rec));
    let frn = rec.frn.0;
    if v.links_of(frn).len() > 0 {
        let i = v.links_of(frn)[0];
        super::changes::law_names_of_a_file(v, frn, i);
        assert(v.links_of(frn).contains(i));
        assert(v.live(i) && i != LOST_FOUND && v.entry(i).frn == frn);
    } else {
        assert forall|i: EntryIdx| #[trigger] v.live(i) && i != LOST_FOUND implies v.entry(i).frn
            != frn by {
            super::changes::law_names_of_a_file(v, frn, i);
        }
    }
}

/// Where some link of a file cannot be set, be it that its name holds a
/// separator or that its folder is no longer in use, no entry of the index is
/// touched: none of the file's names is taken from it.
pub proof fn law_unfit_links_take_nothing(
    v: IndexView,
    frn: u64,
    list: Seq<Place>,
    k: int,
    i: EntryIdx,
)
    requires
        v.wf(),
        0 <= k < list.len(),
        list[k].1.contains(0x5C) || list[k].1.contains(0x2F) || (v.in_range(list[k].0) && !v.live(
            list[k].0,
        )),
        v.in_range(i),
    ensures
        v.with_links(frn, list).entry(i) == v.entry(i),
        v.with_links(frn, list).live(i) == v.live(i),
        v.with_links(frn, list).name(i) == v.name(i),
{
    if frn != v.entry(ROOT).frn {
        let w = v.with_links_added(frn, list);
        super::laws::lemma_links_added(v, frn, list);
        super::links::lemma_extended(v, w, i);
        let place = list[k];
        super::model::law_indexable(place.1);
        if w.linked_at(frn, place) {
            let j = choose|j: EntryIdx| #[trigger]
                w.links_of(frn).contains(j) && w.stands_at(j, place);
            super::changes::law_names_of_a_file(w, frn, j);
            assert(w.live(j) && w.in_range(j));
            assert(w.name(j) == place.1);
            assert(super::model::indexable(w.names[w.entry(j).name_id as int]));
            assert(w.entry(j).parent == place.0);
            if j <= LOST_FOUND {
                assert(w.entry(j).synthetic);
            }
            assert(w.has_parent(j));
            assert(w.live(place.0));
            if v.in_range(place.0) {
                super::links::lemma_extended(v, w, place.0);
            }
        }
        assert(!w.linked_at(frn, list[k]));
    }
}

} // verus!
