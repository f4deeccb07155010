//! The name table: every distinct name once, by number.
//!
//! The raw and the folded form of each name are held in two arenas. The folded
//! one is contiguous and NUL-separated, so one substring search over it finds
//! every name that can match.

use super::model::{arena, arena_start, lemma_arena_holds, names_len};
use super::store::{shrink_map, shrink_vec, vec_bytes, ComponentBytes};
use crate::bytes::{append_bytes, same_bytes};
use crate::fold::folded;
use crate::types::NIL;
use std::collections::HashMap;
use vstd::prelude::*;
use vstd::slice::slice_subrange;

verus! {

broadcast use vstd::std_specs::hash::group_hash_axioms;

/// A range of an arena.
#[derive(Clone, Copy, Debug)]
pub struct Span {
    pub off: u32,
    pub len: u32,
}

/// Where the two forms of an interned name stand.
#[derive(Clone, Copy, Debug)]
pub struct NamePair {
    pub raw: Span,
    pub folded: Span,
}

/// The hash that names are interned by (64-bit FNV-1a).
pub open spec fn name_hash(name: Seq<u8>) -> u64
    decreases name.len(),
{
    if name.len() == 0 {
        0xcbf2_9ce4_8422_2325
    } else {
        (name_hash(name.drop_last()) ^ name.last() as u64).wrapping_mul(0x100_0000_01b3)
    }
}

fn hash_name(name: &[u8]) -> (h: u64)
    ensures
        h == name_hash(name@),
{
    let mut h: u64 = 0xcbf2_9ce4_8422_2325;
    let mut i: usize = 0;
    assert(name@.take(0) =~= Seq::<u8>::empty());
    while i < name.len()
        invariant
            i <= name@.len(),
            h == name_hash(name@.take(i as int)),
        decreases name@.len() - i,
    {
        assert(name@.take(i + 1).drop_last() =~= name@.take(i as int));
        h = (h ^ name[i] as u64).wrapping_mul(0x100_0000_01b3);
        i += 1;
    }
    assert(name@.take(i as int) =~= name@);
    h
}

/// There is room for `name` behind `names`.
pub open spec fn room_for(names: Seq<Seq<u8>>, name: Seq<u8>) -> bool {
    &&& names.len() < NIL
    &&& names_len(names) + name.len() <= NIL
    &&& arena(names).len() + folded(name).len() + 1 <= NIL
}

/// The first names are together no longer than all.
pub proof fn lemma_names_len_take(names: Seq<Seq<u8>>, k: int)
    requires
        0 <= k < names.len(),
    ensures
        names_len(names.take(k + 1)) == names_len(names.take(k)) + names[k].len(),
        names_len(names.take(k + 1)) <= names_len(names),
    decreases names.len() - k,
{
    assert(names.take(k + 1).drop_last() =~= names.take(k));
    assert(names.take(k + 1).last() == names[k]);
    if k + 1 < names.len() {
        lemma_names_len_take(names, k + 1);
    } else {
        assert(names.take(k + 1) =~= names);
    }
}

/// The distinct names.
pub struct NameTable {
    raw: Vec<u8>,
    folded: Vec<u8>,
    pairs: Vec<NamePair>,
    buckets: HashMap<u64, Vec<u32>>,
}

impl View for NameTable {
    type V = Seq<Seq<u8>>;

    /// The raw names, cut out of the raw arena.
    closed spec fn view(&self) -> Seq<Seq<u8>> {
        Seq::new(
            self.pairs@.len(),
            |k: int|
                self.raw@.subrange(
                    self.pairs@[k].raw.off as int,
                    self.pairs@[k].raw.off + self.pairs@[k].raw.len,
                ),
        )
    }
}

impl NameTable {
    /// The arenas hold the names.
    closed spec fn arenas_hold(&self) -> bool {
        &&& self.raw@.len() <= NIL
        &&& self.folded@.len() <= NIL
        &&& self.folded@ == arena(self@)
        &&& self.raw@.len() == names_len(self@)
        &&& forall|k: int|
            0 <= k < self.pairs@.len() ==> {
                let p = #[trigger] self.pairs@[k];
                &&& p.raw.off + p.raw.len <= self.raw@.len()
                &&& p.folded.off == arena_start(self@, k)
                &&& p.folded.len == folded(self@[k]).len()
            }
    }

    /// Every name is found under its hash.
    #[verifier::opaque]
    closed spec fn hashed(&self) -> bool {
        &&& forall|k: int|
            0 <= k < self.pairs@.len() ==> {
                let h = name_hash(#[trigger] self@[k]);
                self.buckets@.contains_key(h) && self.buckets@[h]@.contains(k as u32)
            }
        &&& forall|h: u64, j: int|
            self.buckets@.contains_key(h) && 0 <= j < self.buckets@[h]@.len()
                ==> #[trigger] self.buckets@[h]@[j] < self.pairs@.len()
    }

    /// The table is in order.
    pub closed spec fn wf(&self) -> bool {
        &&& self.pairs@.len() <= NIL
        &&& self.arenas_hold()
        &&& self.hashed()
    }

    /// The arenas keep within their bounds.
    pub(super) proof fn lemma_sizes(&self)
        requires
            self.wf(),
        ensures
            names_len(self@) <= NIL,
            arena(self@).len() <= NIL,
    {
    }

    /// A table of no names.
    pub(super) fn blank() -> (table: NameTable)
        ensures
            table.wf(),
            table@ == Seq::<Seq<u8>>::empty(),
    {
        let table = NameTable {
            raw: Vec::new(),
            folded: Vec::new(),
            pairs: Vec::new(),
            buckets: HashMap::new(),
        };
        proof {
            assert(table@ =~= Seq::<Seq<u8>>::empty());
            assert(table.folded@ =~= arena(table@));
            reveal(NameTable::hashed);
        }
        table
    }

    /// A table of one name, the empty one.
    pub(super) fn new() -> (table: NameTable)
        ensures
            table.wf(),
            table@ == seq![Seq::<u8>::empty()],
    {
        let empty: Vec<u8> = Vec::new();
        let h = hash_name(empty.as_slice());
        let mut buckets: HashMap<u64, Vec<u32>> = HashMap::new();
        buckets.insert(h, vec![0u32]);
        let span = Span { off: 0, len: 0 };
        let table = NameTable {
            raw: empty,
            folded: vec![0u8],
            pairs: vec![NamePair { raw: span, folded: span }],
            buckets,
        };
        proof {
            let t = table@;
            assert(t =~= seq![Seq::<u8>::empty()]) by {
                assert(t[0] =~= Seq::<u8>::empty());
            }
            assert(folded(t[0]) =~= Seq::<u8>::empty());
            assert(t.drop_last() =~= Seq::<Seq<u8>>::empty());
            assert(t.take(0) =~= Seq::<Seq<u8>>::empty());
            assert(arena(t.drop_last()) =~= Seq::<u8>::empty());
            assert(arena(t) == arena(t.drop_last()) + folded(t.last()) + seq![0u8]);
            assert(table.folded@ =~= arena(t));
            assert(names_len(t.drop_last()) == 0);
            assert(t.last() =~= Seq::<u8>::empty());
            assert(table.arenas_hold());
            assert(table.buckets@[h]@[0] == 0u32);
            reveal(NameTable::hashed);
            assert(table.hashed());
        }
        table
    }

    /// How many names there are.
    pub(super) fn len(&self) -> (n: usize)
        ensures
            n == self@.len(),
    {
        self.pairs.len()
    }

    /// The name numbered `id`.
    pub(super) fn raw_name(&self, id: u32) -> (name: &[u8])
        requires
            self.wf(),
            id < self@.len(),
        ensures
            name@ == self@[id as int],
    {
        let span = self.pairs[id as usize].raw;
        slice_subrange(self.raw.as_slice(), span.off as usize, span.off as usize + span.len as usize)
    }

    /// The folded form of the name numbered `id`.
    pub(super) fn folded_name(&self, id: u32) -> (name: &[u8])
        requires
            self.wf(),
            id < self@.len(),
        ensures
            name@ == folded(self@[id as int]),
    {
        let span = self.pairs[id as usize].folded;
        proof {
            lemma_arena_holds(self@, id as int);
        }
        slice_subrange(
            self.folded.as_slice(),
            span.off as usize,
            span.off as usize + span.len as usize,
        )
    }

    /// The number of a name, where the table has it.
    pub(super) fn find(&self, name: &[u8]) -> (id: Option<u32>)
        requires
            self.wf(),
        ensures
            match id {
                Some(k) => k < self@.len() && self@[k as int] == name@,
                None => !self@.contains(name@),
            },
    {
        let h = hash_name(name);
        proof {
            reveal(NameTable::hashed);
            if self@.contains(name@) {
                let k = self@.index_of(name@);
                assert(self@[k] == name@);
                assert(self.buckets@[h]@.contains(k as u32));
            }
        }
        let list: &Vec<u32> = match self.buckets.get(&h) {
            Some(list) => list,
            None => return None,
        };
        let found = self.find_among(list, name);
        proof {
            if found is None && self@.contains(name@) {
                let k = self@.index_of(name@);
                let j = list@.index_of(k as u32);
                assert(list@[j] == k as u32);
            }
        }
        found
    }

    /// The number of a name, where it is among those of a list.
    fn find_among(&self, list: &Vec<u32>, name: &[u8]) -> (id: Option<u32>)
        requires
            self.wf(),
            forall|j: int| 0 <= j < list@.len() ==> #[trigger] list@[j] < self@.len(),
        ensures
            match id {
                Some(k) => k < self@.len() && self@[k as int] == name@,
                None => forall|j: int|
                    0 <= j < list@.len() ==> self@[#[trigger] list@[j] as int] != name@,
            },
    {
        let mut i: usize = 0;
        while i < list.len()
            invariant
                self.wf(),
                i <= list@.len(),
                forall|j: int| 0 <= j < list@.len() ==> #[trigger] list@[j] < self@.len(),
                forall|j: int| 0 <= j < i ==> self@[#[trigger] list@[j] as int] != name@,
            decreases list@.len() - i,
        {
            let id = list[i];
            if same_bytes(self.raw_name(id), name) {
                return Some(id);
            }
            i += 1;
        }
        None
    }

    /// Adds a name.
    pub(super) fn push(&mut self, name: &[u8], lower: &[u8]) -> (id: u32)
        requires
            old(self).wf(),
            lower@ == folded(name@),
            room_for(old(self)@, name@),
        ensures
            final(self).wf(),
            final(self)@ == old(self)@.push(name@),
            id == old(self)@.len(),
    {
        let ghost before = self@;
        let id = self.pairs.len() as u32;
        let raw = Span { off: self.raw.len() as u32, len: name.len() as u32 };
        let low = Span { off: self.folded.len() as u32, len: lower.len() as u32 };
        append_bytes(&mut self.raw, name);
        append_bytes(&mut self.folded, lower);
        self.folded.push(0);
        self.pairs.push(NamePair { raw, folded: low });
        let h = hash_name(name);
        let mut list = match self.buckets.remove(&h) {
            Some(list) => list,
            None => Vec::new(),
        };
        list.push(id);
        self.buckets.insert(h, list);
        proof {
            let after = self@;
            assert(after =~= before.push(name@)) by {
                assert forall|k: int| 0 <= k < before.len() implies after[k] == before[k] by {
                    let p = old(self).pairs@[k];
                    assert(self.pairs@[k] == p);
                    assert(self.raw@.subrange(p.raw.off as int, p.raw.off + p.raw.len)
                        =~= old(self).raw@.subrange(p.raw.off as int, p.raw.off + p.raw.len));
                }
                assert(self.raw@.subrange(raw.off as int, raw.off + raw.len) =~= name@);
            }
            assert(after.drop_last() =~= before);
            assert(self.folded@ =~= arena(after));
            assert forall|k: int| 0 <= k < self.pairs@.len() implies {
                let p = #[trigger] self.pairs@[k];
                &&& p.raw.off + p.raw.len <= self.raw@.len()
                &&& p.folded.off == arena_start(after, k)
                &&& p.folded.len == folded(after[k]).len()
            } by {
                assert(after.take(k) =~= before.take(k));
                if k < before.len() {
                    assert(self.pairs@[k] == old(self).pairs@[k]);
                } else {
                    assert(before.take(k) =~= before);
                }
            }
            assert(self.arenas_hold());
            reveal(NameTable::hashed);
            assert forall|k: int| 0 <= k < self.pairs@.len() implies {
                let hk = name_hash(#[trigger] self@[k]);
                self.buckets@.contains_key(hk) && self.buckets@[hk]@.contains(k as u32)
            } by {
                let hk = name_hash(after[k]);
                if k < before.len() {
                    assert(before[k] == after[k]);
                    if hk == h {
                        let j = old(self).buckets@[h]@.index_of(k as u32);
                        assert(list@[j] == k as u32);
                    }
                } else {
                    assert(list@[list@.len() - 1] == k as u32);
                }
            }
            assert(self.hashed());
        }
        id
    }

    /// Whether there is room for `name`, of this folded length.
    pub(super) fn has_space(&self, name: &[u8], folded_len: usize) -> (res: bool)
        requires
            self.wf(),
            folded_len == folded(name@).len(),
        ensures
            res == room_for(self@, name@),
    {
        self.pairs.len() < NIL as usize && name.len() <= NIL as usize - self.raw.len() && folded_len
            < NIL as usize && folded_len + 1 <= NIL as usize - self.folded.len()
    }

    /// The folded arena: every name once, each ended by a NUL.
    pub(super) fn folded_bytes(&self) -> (hay: &[u8])
        requires
            self.wf(),
        ensures
            hay@ == arena(self@),
            hay@.len() <= NIL,
    {
        self.folded.as_slice()
    }

    /// Where each name stands in the arenas, by number.
    pub(super) fn pairs(&self) -> (pairs: &[NamePair])
        requires
            self.wf(),
        ensures
            pairs@.len() == self@.len(),
            forall|k: int|
                0 <= k < pairs@.len() ==> (#[trigger] pairs@[k]).folded.off == arena_start(self@, k),
    {
        self.pairs.as_slice()
    }

    /// Gives back what the arenas and the tables hold beyond what is in them.
    pub(super) fn shrink(&mut self)
        requires
            old(self).wf(),
        ensures
            final(self).wf(),
            final(self)@ == old(self)@,
    {
        shrink_vec(&mut self.raw);
        shrink_vec(&mut self.folded);
        shrink_vec(&mut self.pairs);
        shrink_map(&mut self.buckets);
        proof {
            assert(self@ =~= old(self)@);
            reveal(NameTable::hashed);
        }
    }

    /// The bytes of the raw arena, the folded arena, and the table of places.
    pub(super) fn footprint(&self) -> (parts: (ComponentBytes, ComponentBytes, ComponentBytes))
        requires
            self.wf(),
        ensures
            parts.0.used == names_len(self@),
            parts.1.used == arena(self@).len(),
            parts.2.used == super::store::clamped(
                self@.len() * vstd::layout::size_of::<NamePair>(),
            ),
            parts.0.allocated >= parts.0.used,
            parts.1.allocated >= parts.1.used,
            parts.2.allocated >= parts.2.used,
    {
        broadcast use vstd::layout::layout_of_primitives;

        (vec_bytes(&self.raw), vec_bytes(&self.folded), vec_bytes(&self.pairs))
    }
}

} // verus!
