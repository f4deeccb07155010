//! The set of volumes that a daemon starts with.

use super::merge::reversed;
use super::status::all_complete;
use super::volume::VolumeState;
use crate::index::model::IndexView;
use crate::index::{FrnMap, Tally, VolumeIndex, NTFS_ROOT_FRN};
use crate::types::{Frn, VolumePhase};
use vstd::prelude::*;

verus! {

/// A volume that could not be indexed.
pub struct FailedVolume {
    pub guid: String,
    pub mounts: Vec<String>,
    pub reason: String,
}

/// The state is that of a volume that could not be indexed.
pub open spec fn failed_state(vol: VolumeState, failed: FailedVolume) -> bool {
    &&& vol.guid == failed.guid
    &&& vol.mounts == failed.mounts
    &&& vol.phase == (VolumePhase::Failed { reason: failed.reason })
    &&& vol.index.wf()
    &&& vol.index@ == IndexView::fresh(NTFS_ROOT_FRN)
    &&& vol.index.map_kind() is Sparse
    &&& vol.index.tally() == (Tally {
        placeholders_created: 0,
        delete_of_unknown: 0,
        link_reconciles_dropped: 0,
        generation: 0,
    })
    &&& !vol.metadata_pending
    &&& vol.scope_cache is None
}

/// The state is that of a volume that was indexed.
pub open spec fn indexed_state(
    vol: VolumeState,
    guid: String,
    mounts: Vec<String>,
    index: VolumeIndex,
) -> bool {
    &&& vol.guid == guid
    &&& vol.mounts == mounts
    &&& vol.index.wf()
    &&& vol.index.optimized(index)
    &&& vol.phase is Live
    &&& !vol.metadata_pending
    &&& vol.scope_cache is None
}

/// The state of a volume that could not be indexed: nothing in it, and said so.
/// It is a volume of the set all the same. What is missing from the set cannot
/// be reported as anything, and a search in it would find nothing and look as if
/// there were nothing to find.
pub fn failed_volume(failed: FailedVolume) -> (vol: VolumeState)
    ensures
        failed_state(vol, failed),
{
    VolumeState {
        guid: failed.guid,
        mounts: failed.mounts,
        index: VolumeIndex::new(Frn(NTFS_ROOT_FRN), FrnMap::sparse()),
        phase: VolumePhase::Failed { reason: failed.reason },
        metadata_pending: false,
        scope_cache: None,
    }
}

/// The state of a volume that was indexed. Sizes and times were gathered with
/// it, and the index is made small before it is served.
pub fn indexed_volume(guid: String, mounts: Vec<String>, index: VolumeIndex) -> (vol: VolumeState)
    requires
        index.wf(),
    ensures
        indexed_state(vol, guid, mounts, index),
{
    let mut index = index;
    index.optimize_storage();
    VolumeState {
        guid,
        mounts,
        index,
        phase: VolumePhase::Live,
        metadata_pending: false,
        scope_cache: None,
    }
}

/// The set of volumes: those that could not be indexed, then those that were.
/// None is left out.
pub fn volume_states(
    failed: Vec<FailedVolume>,
    indexed: Vec<(String, Vec<String>, VolumeIndex)>,
) -> (states: Vec<VolumeState>)
    requires
        forall|k: int| 0 <= k < indexed@.len() ==> (#[trigger] indexed@[k]).2.wf(),
    ensures
        states@.len() == failed@.len() + indexed@.len(),
        forall|k: int|
            0 <= k < failed@.len() ==> failed_state(#[trigger] states@[k], failed@[k]),
        forall|k: int|
            failed@.len() <= k < states@.len() ==> {
                let v = indexed@[k - failed@.len()];
                indexed_state(#[trigger] states@[k], v.0, v.1, v.2)
            },
{
    let ghost first = failed@;
    let ghost second = indexed@;
    let mut states: Vec<VolumeState> = Vec::new();
    let mut stack = reversed(failed);
    while stack.len() > 0
        invariant
            states@.len() + stack@.len() == first.len(),
            stack@ == first.reverse().take(stack@.len() as int),
            forall|k: int|
                0 <= k < states@.len() ==> failed_state(#[trigger] states@[k], first[k]),
        decreases stack@.len(),
    {
        let ghost left = stack@;
        if let Some(f) = stack.pop() {
            assert(f == first.reverse()[left.len() - 1]);
            assert(stack@ =~= first.reverse().take(stack@.len() as int));
            states.push(failed_volume(f));
        }
    }
    let mut stack = reversed(indexed);
    while stack.len() > 0
        invariant
            states@.len() + stack@.len() == first.len() + second.len(),
            states@.len() >= first.len(),
            forall|k: int| 0 <= k < second.len() ==> (#[trigger] second[k]).2.wf(),
            stack@ == second.reverse().take(stack@.len() as int),
            forall|k: int| 0 <= k < first.len() ==> failed_state(#[trigger] states@[k], first[k]),
            forall|k: int|
                first.len() <= k < states@.len() ==> {
                    let v = second[k - first.len()];
                    indexed_state(#[trigger] states@[k], v.0, v.1, v.2)
                },
        decreases stack@.len(),
    {
        let ghost left = stack@;
        if let Some((guid, mounts, index)) = stack.pop() {
            assert((guid, mounts, index) == second.reverse()[left.len() - 1]);
            assert((guid, mounts, index) == second[second.len() - left.len()]);
            assert(stack@ =~= second.reverse().take(stack@.len() as int));
            states.push(indexed_volume(guid, mounts, index));
        }
    }
    states
}

/// How the tail of a volume that was indexed came up.
#[derive(Clone, Copy, Debug, PartialEq, Eq, Structural)]
pub enum TailStart {
    /// It runs.
    Running,
    /// It could not be started.
    Failed,
    /// There is no journal to tail.
    NoJournal,
}

/// The phase of a volume that was indexed, once its tail was to be started. A
/// volume that can never have a journal is a finished snapshot; one whose tail
/// could not be started is out of date from now on.
pub fn phase_after_start(start: TailStart) -> (phase: VolumePhase)
    ensures
        phase == match start {
            TailStart::Running => VolumePhase::Live,
            TailStart::Failed => VolumePhase::Offline,
            TailStart::NoJournal => VolumePhase::Snapshot,
        },
{
    match start {
        TailStart::Running => VolumePhase::Live,
        TailStart::Failed => VolumePhase::Offline,
        TailStart::NoJournal => VolumePhase::Snapshot,
    }
}

/// The numbers added up.
pub open spec fn sum_of(counts: Seq<usize>) -> nat
    decreases counts.len(),
{
    if counts.len() == 0 {
        0
    } else {
        sum_of(counts.drop_last()) + counts.last() as nat
    }
}

/// How many names the volumes hold together; the largest number where there are
/// more.
pub fn total_entries(counts: &Vec<usize>) -> (total: usize)
    ensures
        total == if sum_of(counts@) <= usize::MAX {
            sum_of(counts@)
        } else {
            usize::MAX as nat
        },
{
    let mut total: usize = 0;
    let mut k: usize = 0;
    assert(counts@.take(0) =~= Seq::<usize>::empty());
    while k < counts.len()
        invariant
            k <= counts@.len(),
            total == if sum_of(counts@.take(k as int)) <= usize::MAX {
                sum_of(counts@.take(k as int))
            } else {
                usize::MAX as nat
            },
        decreases counts@.len() - k,
    {
        proof {
            assert(counts@.take(k + 1).drop_last() =~= counts@.take(k as int));
            assert(counts@.take(k + 1).last() == counts@[k as int]);
        }
        total = total.saturating_add(counts[k]);
        k += 1;
    }
    assert(counts@.take(k as int) =~= counts@);
    total
}

/// Whether the index is to be kept in memory: only where the setting says `1`.
pub fn pins_working_set(setting: &Option<String>) -> (res: bool)
    ensures
        res == (setting is Some && setting->0@ == "1"@),
{
    match setting {
        Some(text) => *text == "1".to_string(),
        None => false,
    }
}

/// A volume that could not be indexed keeps the whole set from being complete:
/// neither the greeting nor the status nor a result passes over it.
pub proof fn law_failed_volume_is_told(volumes: Seq<VolumeState>, k: int)
    requires
        0 <= k < volumes.len(),
        volumes[k].phase is Failed,
    ensures
        !all_complete(volumes),
{
    assert(!volumes[k].phase.complete());
}

/// A volume that could not be indexed is served as one that failed, and says why;
/// it has nothing in it.
pub proof fn law_failed_volume_says_why(vol: VolumeState, failed: FailedVolume)
    requires
        failed_state(vol, failed),
    ensures
        vol.phase is Failed,
        vol.phase->reason == failed.reason,
        vol.guid == failed.guid,
        vol.mounts == failed.mounts,
        !vol.metadata_pending,
        vol.index@.real_entries().len() == 0,
{
    reveal(Seq::filter);
    let v = vol.index@;
    let held = |e: crate::index::model::Slot| e.live && !e.synthetic;
    assert forall|k: int| 0 <= k < v.entries.len() implies !held(#[trigger] v.entries[k]) by {}
    crate::seqs::lemma_filter_none(v.entries, held);
}

/// A volume that was indexed is served with what was indexed, and as live.
pub proof fn law_indexed_volume_is_served(
    vol: VolumeState,
    guid: String,
    mounts: Vec<String>,
    index: VolumeIndex,
)
    requires
        indexed_state(vol, guid, mounts, index),
    ensures
        vol.index@ == index@,
        vol.index.wf(),
        vol.phase is Live,
        vol.guid == guid,
        vol.mounts == mounts,
        !vol.metadata_pending,
{
}

/// The names of all volumes are counted, each volume's once.
pub proof fn law_counts_add_up(counts: Seq<usize>, n: usize)
    ensures
        sum_of(Seq::<usize>::empty()) == 0,
        sum_of(counts.push(n)) == sum_of(counts) + n,
{
    assert(counts.push(n).drop_last() =~= counts);
}

} // verus!
