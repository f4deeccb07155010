//! The per-query memo tables (`rustc-hash` maps) and the ancestry chain (a
//! `smallvec` that stays on the stack for ordinary directory depths).

use crate::types::EntryIdx;
use rustc_hash::FxHashMap;
use vstd::prelude::*;

verus! {

/// The hasher of a `rustc-hash` map.
#[verifier::external_type_specification]
#[verifier::external_body]
pub struct ExFxBuildHasher(rustc_hash::FxBuildHasher);

/// An empty memo table, from `FxHashMap::default`.
#[verifier::external_body]
pub(crate) fn memo_new<V>() -> (memo: FxHashMap<EntryIdx, V>)
    ensures
        memo@.dom() == Set::<EntryIdx>::empty(),
{
    FxHashMap::default()
}

/// Looks an entry up with `FxHashMap::get`.
#[verifier::external_body]
pub(crate) fn memo_get<'m, V>(memo: &'m FxHashMap<EntryIdx, V>, key: EntryIdx) -> (found: Option<
    &'m V,
>)
    ensures
        match found {
            Some(v) => memo@.contains_key(key) && *v == memo@[key],
            None => !memo@.contains_key(key),
        },
{
    memo.get(&key)
}

/// Records an entry with `FxHashMap::insert`, replacing what stood under the
/// key.
#[verifier::external_body]
pub(crate) fn memo_insert<V>(memo: &mut FxHashMap<EntryIdx, V>, key: EntryIdx, value: V)
    ensures
        final(memo)@ == old(memo)@.insert(key, value),
{
    memo.insert(key, value);
}

/// The entries passed on one walk towards the root.
#[verifier::external_body]
pub struct AncestorChain {
    entries: smallvec::SmallVec<[EntryIdx; 32]>,
}

/// The entries of a chain, in the order they were pushed.
pub uninterp spec fn chain_entries(chain: AncestorChain) -> Seq<EntryIdx>;

/// An empty chain, from `SmallVec::new`.
#[verifier::external_body]
pub(crate) fn chain_new() -> (chain: AncestorChain)
    ensures
        chain_entries(chain) == Seq::<EntryIdx>::empty(),
{
    AncestorChain { entries: smallvec::SmallVec::new() }
}

/// Appends with `SmallVec::push`.
#[verifier::external_body]
pub(crate) fn chain_push(chain: &mut AncestorChain, entry: EntryIdx)
    ensures
        chain_entries(*final(chain)) == chain_entries(*old(chain)).push(entry),
{
    chain.entries.push(entry);
}

/// Takes the last entry off with `SmallVec::pop`.
#[verifier::external_body]
pub(crate) fn chain_pop(chain: &mut AncestorChain) -> (entry: Option<EntryIdx>)
    ensures
        match entry {
            Some(e) => chain_entries(*old(chain)) == chain_entries(*final(chain)).push(e),
            None => chain_entries(*old(chain)).len() == 0 && chain_entries(*final(chain)).len()
                == 0,
        },
{
    chain.entries.pop()
}

} // verus!
