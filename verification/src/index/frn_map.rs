//! From file reference numbers to entries.
//!
//! While a volume is read its reference numbers come in no order, and a hash map
//! takes them as they come. Afterwards most of them lie close together, by the
//! record numbers that NTFS gives out, and a table takes less room.

use super::changes::without;
use super::store::{bytes_of, clamped, map_capacity, shrink_map, shrink_vec, take_out, together};
use super::store::{vec_bytes, ComponentBytes};
use crate::types::EntryIdx;
use std::collections::HashMap;
use vstd::prelude::*;

verus! {

broadcast use vstd::std_specs::hash::group_hash_axioms;

/// Record numbers are below this; what is above them in a reference number
/// counts how often the record was used.
pub const RECORD_SPAN: u64 = 0x1_0000_0000_0000;

/// How a file map is held.
#[derive(Clone, Copy, Debug, PartialEq, Eq, Structural)]
pub enum MapKind {
    /// A hash map alone.
    Sparse,
    /// A table by record number, and a hash map for what it does not take.
    Dense,
}

impl MapKind {
    /// The kind as text.
    pub open spec fn label_text(self) -> Seq<char> {
        match self {
            MapKind::Sparse => "sparse"@,
            MapKind::Dense => "dense"@,
        }
    }

    /// The kind as text.
    pub fn label(self) -> (text: &'static str)
        ensures
            text@ == self.label_text(),
    {
        match self {
            MapKind::Sparse => "sparse",
            MapKind::Dense => "dense",
        }
    }
}

/// A file and the entries that are its names.
pub struct FiledLinks {
    frn: u64,
    list: Vec<EntryIdx>,
}

/// The record number in a reference number.
pub open spec fn record_number(frn: u64) -> u64 {
    frn % RECORD_SPAN
}

/// The bytes of a table with so many rows and a hash map of so many files.
pub open spec fn map_bytes(rows: nat, apart: nat) -> u64 {
    clamped(
        clamped(rows * vstd::layout::size_of::<Option<FiledLinks>>()) as nat + clamped(
            apart * vstd::layout::size_of::<(u64, Vec<EntryIdx>)>(),
        ) as nat,
    )
}

/// From file reference numbers to the entries that are the file's names.
pub struct FrnMap {
    kind: MapKind,
    /// Files by record number.
    table: Vec<Option<FiledLinks>>,
    /// Every other file.
    links: HashMap<u64, Vec<EntryIdx>>,
}

impl View for FrnMap {
    type V = Map<u64, Seq<EntryIdx>>;

    closed spec fn view(&self) -> Map<u64, Seq<EntryIdx>> {
        Map::new(
            |frn: u64| self.tabled(frn) || self.links@.contains_key(frn),
            |frn: u64|
                if self.tabled(frn) {
                    self.table@[record_number(frn) as int]->0.list@
                } else {
                    self.links@[frn]@
                },
        )
    }
}

impl FrnMap {
    /// The file is in the table.
    closed spec fn tabled(&self, frn: u64) -> bool {
        &&& record_number(frn) < self.table@.len()
        &&& self.table@[record_number(frn) as int] is Some
        &&& self.table@[record_number(frn) as int]->0.frn == frn
    }

    /// The row of the table is taken.
    pub closed spec fn row_taken(&self, k: int) -> bool {
        0 <= k < self.table@.len() && self.table@[k] is Some
    }

    /// How the map is held.
    pub closed spec fn kind(&self) -> MapKind {
        self.kind
    }

    /// How many rows the table has.
    pub closed spec fn rows(&self) -> nat {
        self.table@.len()
    }

    /// How many files the hash map holds.
    pub closed spec fn apart(&self) -> nat {
        self.links@.len()
    }

    /// A sparse map has no table.
    pub open spec fn wf(&self) -> bool {
        self.kind() is Sparse ==> self.rows() == 0
    }

    /// A map for reference numbers that may lie far apart.
    pub fn sparse() -> (map: FrnMap)
        ensures
            map@ == Map::<u64, Seq<EntryIdx>>::empty(),
            map.kind() is Sparse,
            map.wf(),
    {
        let map = FrnMap { kind: MapKind::Sparse, table: Vec::new(), links: HashMap::new() };
        assert(map@ =~= Map::<u64, Seq<EntryIdx>>::empty());
        map
    }

    /// How the map is held.
    pub(super) fn held_as(&self) -> (kind: MapKind)
        ensures
            kind == self.kind(),
    {
        self.kind
    }

    /// The table row for `frn`, where there is one.
    fn row(&self, frn: u64) -> (row: Option<usize>)
        ensures
            match row {
                Some(k) => k == record_number(frn) && k < self.rows(),
                None => record_number(frn) >= self.rows(),
            },
    {
        let k: u64 = frn % RECORD_SPAN;
        if k < self.table.len() as u64 {
            Some(k as usize)
        } else {
            None
        }
    }

    /// The entries recorded for `frn`.
    pub(super) fn get(&self, frn: u64) -> (links: Option<&Vec<EntryIdx>>)
        ensures
            match links {
                Some(l) => self@.contains_key(frn) && l@ == self@[frn],
                None => !self@.contains_key(frn),
            },
    {
        if let Some(k) = self.row(frn) {
            if let Some(filed) = &self.table[k] {
                if filed.frn == frn {
                    return Some(&filed.list);
                }
            }
        }
        self.links.get(&frn)
    }

    /// Takes the entries recorded for `frn` out of the map, to be put back.
    fn lift(&mut self, frn: u64) -> (list: Vec<EntryIdx>)
        ensures
            list@ == if old(self)@.contains_key(frn) {
                old(self)@[frn]
            } else {
                Seq::<EntryIdx>::empty()
            },
            final(self)@ == old(self)@.remove(frn),
            final(self).kind() == old(self).kind(),
            final(self).rows() == old(self).rows(),
            forall|k: int|
                k != record_number(frn) ==> #[trigger] final(self).row_taken(k) == old(self).row_taken(k),
    {
        if let Some(k) = self.row(frn) {
            let was = self.table[k].take();
            if let Some(filed) = was {
                if filed.frn == frn {
                    self.links.remove(&frn);
                    assert(self@ =~= old(self)@.remove(frn));
                    return filed.list;
                }
                self.table[k] = Some(filed);
            }
            assert(self.table@ =~= old(self).table@);
        }
        match self.links.remove(&frn) {
            Some(list) => {
                assert(self@ =~= old(self)@.remove(frn));
                list
            },
            None => {
                assert(self@ =~= old(self)@.remove(frn));
                Vec::new()
            },
        }
    }

    /// Records entries for `frn`, which has none: in the table, where that has a
    /// free row for it.
    fn file(&mut self, frn: u64, list: Vec<EntryIdx>)
        requires
            !old(self)@.contains_key(frn),
        ensures
            final(self)@ == old(self)@.insert(frn, list@),
            final(self).kind() == old(self).kind(),
            final(self).rows() == old(self).rows(),
            record_number(frn) < old(self).rows() ==> final(self).row_taken(
                record_number(frn) as int,
            ),
            forall|k: int|
                k != record_number(frn) ==> #[trigger] final(self).row_taken(k) == old(self).row_taken(k),
    {
        if let Some(k) = self.row(frn) {
            if self.table[k].is_none() {
                self.table[k] = Some(FiledLinks { frn, list });
                assert(self@ =~= old(self)@.insert(frn, list@));
                return;
            }
        }
        self.links.insert(frn, list);
        assert(self@ =~= old(self)@.insert(frn, list@));
    }

    /// Puts `idx` behind the entries recorded for `frn`.
    pub(super) fn push(&mut self, frn: u64, idx: EntryIdx)
        ensures
            final(self)@ == old(self)@.insert(
                frn,
                (if old(self)@.contains_key(frn) {
                    old(self)@[frn]
                } else {
                    Seq::<EntryIdx>::empty()
                }).push(idx),
            ),
            final(self).kind() == old(self).kind(),
            final(self).rows() == old(self).rows(),
    {
        let mut list = self.lift(frn);
        list.push(idx);
        self.file(frn, list);
        assert(self@ =~= old(self)@.insert(frn, list@));
    }

    /// Takes `idx` out of the entries recorded for `frn`.
    pub(super) fn take_out(&mut self, frn: u64, idx: EntryIdx)
        requires
            old(self)@.contains_key(frn),
            old(self)@[frn].no_duplicates(),
        ensures
            final(self)@ == old(self)@.insert(frn, without(old(self)@[frn], idx)),
            final(self).kind() == old(self).kind(),
            final(self).rows() == old(self).rows(),
    {
        let mut list = self.lift(frn);
        take_out(&mut list, idx);
        self.file(frn, list);
        assert(self@ =~= old(self)@.insert(frn, without(old(self)@[frn], idx)));
    }

    /// Moves the file `frn` into the table, where that has a free row for it.
    pub(super) fn settle(&mut self, frn: u64)
        ensures
            final(self)@ == old(self)@,
            final(self).kind() == old(self).kind(),
            final(self).rows() == old(self).rows(),
            old(self)@.contains_key(frn) && record_number(frn) < old(self).rows() ==> final(self).row_taken(record_number(frn) as int),
            forall|k: int| old(self).row_taken(k) ==> #[trigger] final(self).row_taken(k),
    {
        if self.get(frn).is_some() {
            let list = self.lift(frn);
            self.file(frn, list);
            assert(self@ =~= old(self)@);
            assert forall|k: int| old(self).row_taken(k) implies #[trigger] self.row_taken(k) by {
                assert(k < old(self).rows());
            }
        }
    }

    /// The bytes of the table and of the hash map, without the lists that they
    /// lead to.
    pub(super) fn footprint(&self) -> (bytes: ComponentBytes)
        ensures
            bytes.used == map_bytes(self.rows(), self.apart()),
            bytes.allocated >= bytes.used,
    {
        let pair = core::mem::size_of::<(u64, Vec<EntryIdx>)>();
        let n = self.links.len();
        let held = map_capacity(&self.links);
        assert(n as nat * pair as nat <= held as nat * pair as nat) by (nonlinear_arith)
            requires
                n <= held,
        ;
        together(
            vec_bytes(&self.table),
            ComponentBytes { used: bytes_of(n, pair), allocated: bytes_of(held, pair) },
        )
    }

    /// Gives back what the table and the hash map hold beyond what is in them.
    pub(super) fn shrink(&mut self)
        ensures
            final(self)@ == old(self)@,
            final(self).kind() == old(self).kind(),
            final(self).rows() == old(self).rows(),
            forall|k: int| old(self).row_taken(k) ==> #[trigger] final(self).row_taken(k),
    {
        shrink_vec(&mut self.table);
        shrink_map(&mut self.links);
        assert(self@ =~= old(self)@);
    }

    /// A file that the hash map holds is a file of the map.
    pub(super) proof fn lemma_apart(&self)
        ensures
            self.apart() <= self@.len(),
            self.rows() == 0 ==> self.apart() == self@.len(),
    {
        let filed = self.table@.map_values(|row: Option<FiledLinks>| row->0.frn);
        vstd::seq_lib::seq_to_set_is_finite(filed);
        assert(self@.dom().subset_of(self.links@.dom().union(filed.to_set()))) by {
            assert forall|frn: u64| #[trigger] self@.dom().contains(frn) implies self.links@.dom().union(
                filed.to_set(),
            ).contains(frn) by {
                if self.tabled(frn) {
                    assert(filed[record_number(frn) as int] == frn);
                }
            }
        }
        vstd::set_lib::lemma_set_subset_finite(
            self.links@.dom().union(filed.to_set()),
            self@.dom(),
        );
        assert(self.links@.dom().subset_of(self@.dom()));
        vstd::set_lib::lemma_len_subset(self.links@.dom(), self@.dom());
        if self.rows() == 0 {
            assert(self.links@.dom() =~= self@.dom());
        }
    }

    /// Gives the map a table of at least so many rows, all new ones free.
    pub(super) fn densify(&mut self, rows: usize)
        ensures
            final(self)@ == old(self)@,
            final(self).kind() is Dense,
            final(self).rows() == if rows > old(self).rows() {
                rows as nat
            } else {
                old(self).rows()
            },
    {
        self.kind = MapKind::Dense;
        assert(self@ =~= old(self)@);
        while self.table.len() < rows
            invariant
                self@ == old(self)@,
                self.kind is Dense,
                self.table@.len() == old(self).rows() || self.table@.len() <= rows,
                self.table@.len() >= old(self).rows(),
            decreases rows - self.table@.len(),
        {
            let ghost before = *self;
            self.table.push(None);
            assert(self@ =~= before@);
        }
    }
}

} // verus!
