//! A volume as the daemon serves it, and how a query's scope leads to one.

use crate::bytes::{
    copy_range, last_position, lemma_last_position, lemma_last_position_unique, same_bytes,
};
use crate::fold::{ascii_lower, fold, folded};
use crate::index::model::IndexView;
use crate::index::{PathStatus, VolumeIndex};
use crate::pieces::{texts, Cut};
use crate::query::engine::{resolve_scope, scope_target};
use crate::types::{EntryIdx, VolumePhase};
use vstd::prelude::*;
use vstd::slice::{slice_subrange, slice_to_vec};
use vstd::utf8::encode_utf8;

verus! {

/// A scope folder that was resolved before.
pub struct ScopeCache {
    /// Its path within the volume.
    pub rel: Vec<u8>,
    /// The entry it led to.
    pub entry: EntryIdx,
}

/// One volume.
pub struct VolumeState {
    /// The volume's GUID path.
    pub guid: String,
    /// Where it is mounted.
    pub mounts: Vec<String>,
    pub index: VolumeIndex,
    pub phase: VolumePhase,
    /// Whether sizes and times are still being gathered.
    pub metadata_pending: bool,
    /// The scope folder last searched.
    pub scope_cache: Option<ScopeCache>,
}

impl VolumeState {
    /// What the volume's paths begin with: its first mount point, or its GUID
    /// path where it has none.
    pub open spec fn prefix(&self) -> Seq<char> {
        if self.mounts@.len() > 0 {
            self.mounts@[0]@
        } else {
            self.guid@
        }
    }

    /// The same as bytes.
    pub open spec fn prefix_bytes(&self) -> Seq<u8> {
        encode_utf8(self.prefix())
    }

    /// What the volume's paths begin with.
    pub fn mount_prefix(&self) -> (prefix: &str)
        ensures
            prefix@ == self.prefix(),
    {
        if self.mounts.len() > 0 {
            self.mounts[0].as_str()
        } else {
            self.guid.as_str()
        }
    }
}

/// What part of a volume a query looks at.
pub enum VolScope {
    /// All of it.
    All,
    /// The folder with this path within the volume.
    Rel(Vec<u8>),
}

impl VolScope {
    /// The folder's path, none for the whole volume.
    pub open spec fn rel(&self) -> Option<Seq<u8>> {
        match self {
            VolScope::All => None,
            VolScope::Rel(rel) => Some(rel@),
        }
    }
}

/// `text` starts with `prefix`, ASCII letters of either case counting as the
/// same.
pub open spec fn starts_like(text: Seq<u8>, prefix: Seq<u8>) -> bool {
    &&& prefix.len() <= text.len()
    &&& forall|k: int|
        0 <= k < prefix.len() ==> ascii_lower(#[trigger] text[k]) == ascii_lower(prefix[k])
}

fn lower(b: u8) -> (l: u8)
    ensures
        l == ascii_lower(b),
{
    if 0x41 <= b && b <= 0x5A {
        b + 0x20
    } else {
        b
    }
}

/// Whether `text` starts with `start`, whatever the case of ASCII letters.
fn starts_with_bytes(text: &[u8], start: &[u8]) -> (res: bool)
    ensures
        res == starts_like(text@, start@),
{
    if text.len() < start.len() {
        return false;
    }
    let mut i: usize = 0;
    while i < start.len()
        invariant
            i <= start@.len() <= text@.len(),
            forall|k: int| 0 <= k < i ==> ascii_lower(#[trigger] text@[k]) == ascii_lower(start@[k]),
        decreases start@.len() - i,
    {
        if lower(text[i]) != lower(start[i]) {
            return false;
        }
        i += 1;
    }
    true
}

/// Whether `haystack` starts with `prefix`, whatever the case of ASCII letters.
pub fn starts_with_ci(haystack: &str, prefix: &str) -> (res: bool)
    ensures
        res == starts_like(encode_utf8(haystack@), encode_utf8(prefix@)),
{
    starts_with_bytes(haystack.as_bytes(), prefix.as_bytes())
}

/// The text without separators at its end.
pub open spec fn trimmed(text: Seq<u8>) -> Seq<u8> {
    match last_position(text, |b: u8| !Cut::Separators.at(b)) {
        Some(k) => text.take(k + 1),
        None => seq![],
    }
}

/// A copy without separators at its end.
fn trim_end(text: &[u8]) -> (out: Vec<u8>)
    ensures
        out@ == trimmed(text@),
{
    let ghost plain = |b: u8| !Cut::Separators.at(b);
    let mut end: usize = text.len();
    while end > 0 && Cut::Separators.at(text[end - 1])
        invariant
            end <= text@.len(),
            plain == (|b: u8| !Cut::Separators.at(b)),
            forall|j: int| end <= j < text@.len() ==> !plain(#[trigger] text@[j]),
        decreases end,
    {
        end -= 1;
    }
    proof {
        if end > 0 {
            assert(plain(text@[end - 1]));
            lemma_last_position_unique(text@, plain, end - 1);
        } else {
            lemma_last_position(text@, plain);
        }
        assert(text@.subrange(0, end as int) =~= text@.take(end as int));
    }
    let out = copy_range(text, 0, end);
    assert(out@ =~= trimmed(text@));
    out
}

/// The first of the prefixes that the path starts with.
pub open spec fn first_prefix(prefixes: Seq<Seq<u8>>, path: Seq<u8>) -> Option<int>
    decreases prefixes.len(),
{
    if prefixes.len() == 0 {
        None
    } else {
        match first_prefix(prefixes.drop_last(), path) {
            Some(k) => Some(k),
            None => if starts_like(path, prefixes.last()) {
                Some(prefixes.len() - 1)
            } else {
                None
            },
        }
    }
}

/// Which of the volumes with these prefixes a query looks at, and which part of
/// each. A scope path names one volume by its prefix, and the folder by the
/// rest, without separators at the end: paths of entries have none there, and
/// the cached resolution of a folder is checked against such a path.
pub open spec fn routed(prefixes: Seq<Seq<u8>>, scope: Option<Seq<char>>) -> Seq<(
    int,
    Option<Seq<u8>>,
)> {
    match scope {
        None => Seq::new(prefixes.len(), |k: int| (k, None::<Seq<u8>>)),
        Some(path) => match first_prefix(prefixes, encode_utf8(path)) {
            Some(k) => seq![
                (k, Some(trimmed(encode_utf8(path).skip(prefixes[k].len() as int)))),
            ],
            None => seq![],
        },
    }
}

/// The prefixes of the volumes.
pub open spec fn volume_prefixes(volumes: Seq<VolumeState>) -> Seq<Seq<u8>> {
    volumes.map_values(|vol: VolumeState| vol.prefix_bytes())
}

/// Which volumes a query looks at, and which part of each.
pub open spec fn targets_of(volumes: Seq<VolumeState>, scope: Option<Seq<char>>) -> Seq<(
    int,
    Option<Seq<u8>>,
)> {
    routed(volume_prefixes(volumes), scope)
}

/// What a list of targets says.
pub open spec fn target_views(targets: Seq<(usize, VolScope)>) -> Seq<(int, Option<Seq<u8>>)> {
    targets.map_values(|t: (usize, VolScope)| (t.0 as int, t.1.rel()))
}

/// The scope's text.
pub open spec fn scope_text(scope: Option<String>) -> Option<Seq<char>> {
    match scope {
        Some(path) => Some(path@),
        None => None,
    }
}

/// Which of the volumes with these prefixes a query looks at, and which part of
/// each.
pub fn route(prefixes: &Vec<Vec<u8>>, scope: &Option<String>) -> (list: Vec<(usize, VolScope)>)
    ensures
        target_views(list@) == routed(texts(prefixes@), scope_text(*scope)),
{
    let mut list: Vec<(usize, VolScope)> = Vec::new();
    match scope {
        None => {
            let mut k: usize = 0;
            while k < prefixes.len()
                invariant
                    k <= prefixes@.len(),
                    list@.len() == k,
                    forall|j: int|
                        0 <= j < k ==> #[trigger] target_views(list@)[j] == (j, None::<Seq<u8>>),
                decreases prefixes@.len() - k,
            {
                let ghost was = list@;
                list.push((k, VolScope::All));
                assert forall|j: int| 0 <= j < k + 1 implies #[trigger] target_views(list@)[j] == (
                    j,
                    None::<Seq<u8>>,
                ) by {
                    if j < k {
                        assert(target_views(was)[j] == (j, None::<Seq<u8>>));
                    }
                }
                k += 1;
            }
            assert(target_views(list@) =~= routed(texts(prefixes@), None));
            list
        },
        Some(path) => {
            let text = path.as_str().as_bytes();
            let ghost all = texts(prefixes@);
            let mut k: usize = 0;
            assert(all.take(0) =~= Seq::<Seq<u8>>::empty());
            while k < prefixes.len()
                invariant
                    k <= prefixes@.len(),
                    all == texts(prefixes@),
                    text@ == encode_utf8(path@),
                    list@.len() == 0,
                    *scope == Some(*path),
                    first_prefix(all.take(k as int), text@) is None,
                decreases prefixes@.len() - k,
            {
                proof {
                    assert(all.take(k + 1).drop_last() =~= all.take(k as int));
                    assert(all.take(k + 1).last() == prefixes@[k as int]@);
                }
                if starts_with_bytes(text, prefixes[k].as_slice()) {
                    let n = prefixes[k].len();
                    proof {
                        assert(first_prefix(all.take(k + 1), text@) == Some(k as int));
                        lemma_first_prefix_of_some(all, text@, k + 1);
                        assert(text@.subrange(n as int, text@.len() as int) =~= text@.skip(
                            n as int,
                        ));
                    }
                    list.push((k, VolScope::Rel(trim_end(slice_subrange(text, n, text.len())))));
                    assert(target_views(list@) =~= routed(all, Some(path@)));
                    return list;
                }
                k += 1;
            }
            assert(all.take(k as int) =~= all);
            assert(target_views(list@) =~= routed(all, Some(path@)));
            list
        },
    }
}

/// The first prefix found among the first ones is the first of all.
proof fn lemma_first_prefix_of_some(prefixes: Seq<Seq<u8>>, path: Seq<u8>, n: int)
    requires
        0 <= n <= prefixes.len(),
        first_prefix(prefixes.take(n), path) is Some,
    ensures
        first_prefix(prefixes, path) == first_prefix(prefixes.take(n), path),
    decreases prefixes.len() - n,
{
    if n == prefixes.len() {
        assert(prefixes.take(n) =~= prefixes);
    } else {
        assert(prefixes.take(n + 1).drop_last() =~= prefixes.take(n));
        lemma_first_prefix_of_some(prefixes, path, n + 1);
    }
}

/// A volume's prefix as bytes.
pub fn prefix_of(vol: &VolumeState) -> (prefix: Vec<u8>)
    ensures
        prefix@ == vol.prefix_bytes(),
{
    slice_to_vec(vol.mount_prefix().as_bytes())
}

/// Every volume's prefix.
pub fn all_prefixes(volumes: &Vec<VolumeState>) -> (prefixes: Vec<Vec<u8>>)
    ensures
        texts(prefixes@) == volume_prefixes(volumes@),
{
    let mut prefixes: Vec<Vec<u8>> = Vec::new();
    let mut k: usize = 0;
    while k < volumes.len()
        invariant
            k <= volumes@.len(),
            prefixes@.len() == k,
            forall|j: int| 0 <= j < k ==> (#[trigger] prefixes@[j])@ == volumes@[j].prefix_bytes(),
        decreases volumes@.len() - k,
    {
        prefixes.push(prefix_of(&volumes[k]));
        k += 1;
    }
    assert(texts(prefixes@) =~= volume_prefixes(volumes@));
    prefixes
}

/// Which volumes a query looks at, and which part of each.
pub fn targets(volumes: &Vec<VolumeState>, scope: &Option<String>) -> (list: Vec<(usize, VolScope)>)
    ensures
        target_views(list@) == targets_of(volumes@, scope_text(*scope)),
{
    route(&all_prefixes(volumes), scope)
}

/// The entry is in use and its path is `rel`, whatever the case.
pub open spec fn still_names(v: IndexView, entry: EntryIdx, rel: Seq<u8>) -> bool {
    &&& v.live(entry)
    &&& match v.path_of(entry) {
        Some(path) => folded(path) == folded(rel),
        None => false,
    }
}

/// Whether a scope entry resolved before still has the path it was resolved
/// from, so that a folder since renamed or removed is not searched in error.
pub fn scope_entry_valid(index: &VolumeIndex, entry: EntryIdx, rel: &[u8]) -> (res: bool)
    requires
        index.wf(),
    ensures
        res == still_names(index@, entry, rel@),
{
    if !index.is_live(entry) {
        return false;
    }
    let mut buf: Vec<u8> = Vec::new();
    match index.path_of(entry, &mut buf) {
        PathStatus::Presentable => same_bytes(fold(buf.as_slice()).as_slice(), fold(rel).as_slice()),
        PathStatus::LostFound => false,
    }
}

/// The remembered resolution serves for `rel`.
pub open spec fn cache_hit(
    v: IndexView,
    cache: Option<ScopeCache>,
    rel: Seq<u8>,
    match_case: bool,
) -> bool {
    !match_case && cache is Some && cache->0.rel@ == rel && still_names(v, cache->0.entry, rel)
}

/// Where a scope leads: to the remembered entry where that serves, else where
/// the path leads.
pub open spec fn cached_target(
    v: IndexView,
    cache: Option<ScopeCache>,
    rel: Seq<u8>,
    match_case: bool,
) -> Option<EntryIdx> {
    if cache_hit(v, cache, rel, match_case) {
        Some(cache->0.entry)
    } else {
        scope_target(v, rel, match_case)
    }
}

/// What is remembered of a scope once it was looked up. Where the case counts,
/// where the folder is missing, and where the whole volume is searched, things
/// stay as they were.
pub open spec fn remembers(
    v: IndexView,
    before: Option<ScopeCache>,
    after: Option<ScopeCache>,
    rel: Option<Seq<u8>>,
    match_case: bool,
) -> bool {
    if rel is Some && !match_case && cached_target(v, before, rel->0, match_case) is Some {
        &&& after is Some
        &&& after->0.rel@ == rel->0
        &&& after->0.entry == cached_target(v, before, rel->0, match_case)->0
    } else {
        after == before
    }
}

/// Resolves a scope folder, remembering the last one: a client that searches as
/// the user types asks for the same folder again and again. Where the case
/// counts, which is rare, nothing is remembered.
pub fn resolve_scope_cached(
    cache: &mut Option<ScopeCache>,
    index: &VolumeIndex,
    rel: &[u8],
    match_case: bool,
) -> (entry: Option<EntryIdx>)
    requires
        index.wf(),
    ensures
        entry == cached_target(index@, *old(cache), rel@, match_case),
        entry is Some ==> index@.live(entry->0),
        remembers(index@, *old(cache), *final(cache), Some(rel@), match_case),
{
    if !match_case {
        if let Some(known) = cache {
            if same_bytes(known.rel.as_slice(), rel) && scope_entry_valid(index, known.entry, rel) {
                return Some(known.entry);
            }
        }
    }
    match resolve_scope(index, rel, match_case) {
        Some(entry) => {
            if !match_case {
                assert(rel@.subrange(0, rel@.len() as int) =~= rel@);
                *cache = Some(ScopeCache { rel: copy_range(rel, 0, rel.len()), entry });
            }
            Some(entry)
        },
        None => None,
    }
}

} // verus!
