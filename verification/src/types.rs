//! Plain vocabulary shared by the index, the query engine and the daemon.

use vstd::prelude::*;

verus! {

/// A slot of a [`crate::index::VolumeIndex`]'s entry table.
pub type EntryIdx = u32;

/// The parent of an entry that has none (the volume root and lost+found).
pub const NIL: EntryIdx = 0xFFFF_FFFF;

/// An NTFS file reference number: record number and sequence number packed into
/// one word.
#[derive(Clone, Copy, Debug, PartialEq, Eq, PartialOrd, Ord, Hash, Structural)]
pub struct Frn(pub u64);

/// What results are ordered by.
#[derive(Clone, Copy, Debug, PartialEq, Eq, Structural)]
pub enum SortKey {
    /// Folded file name.
    Name,
    /// Folded parent directory, then folded file name.
    Path,
    /// Size in bytes, an unknown size counting as zero.
    Size,
    /// Last modification, an unknown time sorting before every known one.
    DateModified,
}

/// Which end of the order comes first.
#[derive(Clone, Copy, Debug, PartialEq, Eq, Structural)]
pub enum SortDir {
    /// Smallest first.
    Asc,
    /// Largest first.
    Desc,
}

/// A sort key with its direction.
#[derive(Clone, Copy, Debug, PartialEq, Eq, Structural)]
pub struct SortSpec {
    pub key: SortKey,
    pub dir: SortDir,
}

impl SortSpec {
    /// The direction a client gets when it names only the key: text ascending,
    /// sizes and dates largest first.
    pub open spec fn default_for_spec(key: SortKey) -> SortSpec {
        SortSpec {
            key,
            dir: match key {
                SortKey::Name => SortDir::Asc,
                SortKey::Path => SortDir::Asc,
                SortKey::Size => SortDir::Desc,
                SortKey::DateModified => SortDir::Desc,
            },
        }
    }

    /// The sort a client gets when it names only the key.
    pub fn default_for(key: SortKey) -> (sort: SortSpec)
        ensures
            sort == Self::default_for_spec(key),
    {
        let dir = match key {
            SortKey::Name => SortDir::Asc,
            SortKey::Path => SortDir::Asc,
            SortKey::Size => SortDir::Desc,
            SortKey::DateModified => SortDir::Desc,
        };
        SortSpec { key, dir }
    }
}

impl Default for SortSpec {
    /// By name, ascending.
    fn default() -> (sort: SortSpec)
        ensures
            sort == SortSpec::default_for_spec(SortKey::Name),
    {
        SortSpec::default_for(SortKey::Name)
    }
}

/// Where a volume's index stands.
#[derive(Clone, Debug)]
pub enum VolumePhase {
    /// First enumeration of the volume is running.
    Bootstrapping,
    /// In sync: the journal is being tailed.
    Live,
    /// The journal was lost and the index is being rebuilt.
    Rescanning,
    /// No longer tracking the volume.
    Offline,
    /// Fully indexed, on a volume that can never have a journal.
    Snapshot,
    /// Given up on, with the reason shown to the user.
    Failed { reason: String },
}

impl VolumePhase {
    /// Whether a volume in this phase is as complete as it can be made: in
    /// sync, or a finished snapshot.
    pub open spec fn complete(self) -> bool {
        self is Live || self is Snapshot
    }

    /// Whether results from a volume in this phase may be presented as whole.
    pub fn is_complete(&self) -> (res: bool)
        ensures
            res == self.complete(),
    {
        match self {
            VolumePhase::Live => true,
            VolumePhase::Snapshot => true,
            _ => false,
        }
    }

    /// Whether the phase claims that the index is tracking its volume.
    pub open spec fn claims_tracking(self) -> bool {
        self is Live || self is Rescanning
    }
}

/// How many milliseconds the Unix epoch lies after that of file times.
pub const EPOCH_GAP_MS: i64 = 11_644_473_600_000;

/// A file time, in units of 100 ns, as milliseconds since the Unix epoch.
pub open spec fn unix_ms(ft: i64) -> int {
    ft as int / 10_000 - EPOCH_GAP_MS
}

/// A file time as milliseconds since the Unix epoch, rounded down.
pub fn filetime_to_unix_ms(ft: i64) -> (ms: i64)
    ensures
        ms == unix_ms(ft),
{
    if ft >= 0 {
        (ft as u64 / 10_000) as i64 - EPOCH_GAP_MS
    } else {
        let below: u64 = (-(ft + 1)) as u64;
        -((below / 10_000) as i64) - 1 - EPOCH_GAP_MS
    }
}

/// A volume's index is as complete as it can be made exactly where it is in sync
/// with the journal, or a finished snapshot of a volume without one.
pub proof fn law_complete_phases(phase: VolumePhase)
    ensures
        phase.complete() <==> phase is Live || phase is Snapshot,
{
}

/// A volume is said to be tracked while it is live or being scanned anew.
pub proof fn law_tracking_phases(phase: VolumePhase)
    ensures
        phase.claims_tracking() <==> phase is Live || phase is Rescanning,
{
}

/// A client that names only the key gets that key, texts from the first on and
/// sizes and dates from the largest on.
pub proof fn law_default_order(key: SortKey)
    ensures
        SortSpec::default_for_spec(key).key == key,
        SortSpec::default_for_spec(key).dir is Asc <==> key is Name || key is Path,
        SortSpec::default_for_spec(key).dir is Desc <==> key is Size || key is DateModified,
{
}

/// Ten thousand units of a file time are a millisecond, a part of one is left
/// out, and 1970 began 11,644,473,600,000 milliseconds after the first of them.
pub proof fn law_file_times(ft: i64)
    ensures
        10_000 * (unix_ms(ft) + 11_644_473_600_000) <= ft,
        ft < 10_000 * (unix_ms(ft) + 11_644_473_600_000) + 10_000,
{
}

} // verus!
