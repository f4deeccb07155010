//! What the journal does not tell and has to be looked up on the volume: sizes
//! and times, and the set of a file's hard links.

use crate::bytes::{copy_range, last_position, lemma_last_position, lemma_last_position_unique};
use crate::index::links::{places, Place};
use crate::index::model::{is_separator, IndexView, LOST_FOUND};
use crate::index::store::{count_up, counted_up, Tally};
use crate::index::{LinkTarget, VolumeIndex, WtfName};
use crate::query::engine::{resolve_scope, scope_target};
use crate::seqs::lemma_permuted_members;
use crate::types::Frn;
use crate::wtf8::{from_utf16, joined, well_paired, wide_codes};
use vstd::prelude::*;
use vstd::slice::slice_subrange;

verus! {

/// Where the last separator of a path stands.
pub open spec fn last_separator(path: Seq<u8>) -> Option<int> {
    last_position(path, |b: u8| is_separator(b))
}

/// The directory part of a path: what stands in front of the last separator.
pub open spec fn dir_part(path: Seq<u8>) -> Seq<u8> {
    match last_separator(path) {
        Some(i) => path.take(i),
        None => seq![],
    }
}

/// The name part of a path: what stands behind the last separator.
pub open spec fn name_part(path: Seq<u8>) -> Seq<u8> {
    match last_separator(path) {
        Some(i) => path.skip(i + 1),
        None => path,
    }
}

/// Splits a path into directory and name. A name at the volume's root has an
/// empty directory, which leads to the root.
pub fn split_parent(path: &[u8]) -> (parts: (&[u8], &[u8]))
    ensures
        parts.0@ == dir_part(path@),
        parts.1@ == name_part(path@),
{
    let ghost sep = |b: u8| is_separator(b);
    let mut i: usize = path.len();
    while i > 0 && path[i - 1] != 0x5C && path[i - 1] != 0x2F
        invariant
            i <= path@.len(),
            sep == (|b: u8| is_separator(b)),
            forall|j: int| i <= j < path@.len() ==> !sep(#[trigger] path@[j]),
        decreases i,
    {
        i -= 1;
    }
    if i > 0 {
        proof {
            assert(sep(path@[i - 1]));
            lemma_last_position_unique(path@, sep, i - 1);
            assert(path@.subrange(0, i - 1) =~= path@.take(i - 1));
            assert(path@.subrange(i as int, path@.len() as int) =~= path@.skip(i as int));
        }
        (slice_subrange(path, 0, i - 1), slice_subrange(path, i, path.len()))
    } else {
        proof {
            lemma_last_position(path@, sep);
            assert(last_separator(path@) is None);
            assert(path@.subrange(0, 0) =~= Seq::<u8>::empty());
        }
        (slice_subrange(path, 0, 0), path)
    }
}

/// The bytes of a wide path.
pub open spec fn wide_path(wide: Seq<u16>) -> Seq<u8> {
    joined(wide_codes(wide))
}

/// Where a link stands: in the folder that its directory part leads to. Nowhere
/// where that is not in the index yet.
pub open spec fn link_place(v: IndexView, wide: Seq<u16>) -> Option<Place> {
    match scope_target(v, dir_part(wide_path(wide)), false) {
        Some(dir) => Some((dir, name_part(wide_path(wide)))),
        None => None,
    }
}

/// Every link's folder is in the index.
pub open spec fn links_resolve(v: IndexView, links: Seq<Vec<u16>>) -> bool {
    forall|k: int| 0 <= k < links.len() ==> link_place(v, (#[trigger] links[k])@) is Some
}

/// Where the links stand.
pub open spec fn link_places(v: IndexView, links: Seq<Vec<u16>>) -> Seq<Place> {
    links.map_values(|l: Vec<u16>| link_place(v, l@)->0)
}

/// The targets speak of the links' places, and tell which names were no
/// well-formed UTF-16.
pub open spec fn targets_right(
    v: IndexView,
    links: Seq<Vec<u16>>,
    targets: Seq<LinkTarget>,
) -> bool {
    &&& places(targets) == link_places(v, links)
    &&& forall|k: int|
        0 <= k < links.len() ==> (#[trigger] targets[k]).name.lossy == !well_paired(links[k]@)
}

/// Looks up the folders of a file's links. All of them or none: a part of the
/// set would take the other names from the file.
pub fn resolve_links(index: &VolumeIndex, links: &Vec<Vec<u16>>) -> (targets: Option<
    Vec<LinkTarget>,
>)
    requires
        index.wf(),
    ensures
        match targets {
            Some(t) => links_resolve(index@, links@) && targets_right(index@, links@, t@),
            None => !links_resolve(index@, links@),
        },
{
    let ghost v = index@;
    let mut targets: Vec<LinkTarget> = Vec::new();
    let mut k: usize = 0;
    while k < links.len()
        invariant
            index.wf(),
            v == index@,
            k <= links@.len(),
            targets@.len() == k,
            forall|j: int|
                0 <= j < k ==> link_place(v, (#[trigger] links@[j])@) == Some(targets@[j].place()),
            forall|j: int|
                0 <= j < k ==> (#[trigger] targets@[j]).name.lossy == !well_paired(links@[j]@),
        decreases links@.len() - k,
    {
        let mut bytes: Vec<u8> = Vec::new();
        let well_formed = from_utf16(links[k].as_slice(), &mut bytes);
        assert(bytes@ =~= wide_path(links@[k as int]@));
        let (dir, name) = split_parent(bytes.as_slice());
        match resolve_scope(index, dir, false) {
            Some(parent) => {
                assert(name@.subrange(0, name@.len() as int) =~= name@);
                let target = LinkTarget {
                    parent,
                    name: WtfName::new(copy_range(name, 0, name.len()), !well_formed),
                };
                targets.push(target);
                assert(link_place(v, links@[k as int]@) == Some(target.place()));
            },
            None => {
                assert(link_place(v, links@[k as int]@) is None);
                return None;
            },
        }
        k += 1;
    }
    assert(places(targets@) =~= link_places(v, links@)) by {
        assert forall|j: int| 0 <= j < links@.len() implies #[trigger] places(targets@)[j]
            == link_places(v, links@)[j] by {
            assert(link_place(v, links@[j]@) == Some(targets@[j].place()));
        }
    }
    Some(targets)
}

/// What looking up a file's links on the volume came to.
pub enum LinkWalk {
    /// Its paths, in UTF-16.
    Links(Vec<Vec<u16>>),
    /// The file is gone or locked.
    Gone,
    /// The walk failed.
    Failed,
}

/// What to do about a file's links.
pub enum LinkVerdict {
    /// Leave them, and count that they could not be looked up.
    Dropped,
    /// Bring them in line with these.
    Reconcile(Vec<LinkTarget>),
}

/// Decides what to do about a file's links. A walk that could not be completed,
/// be it that the file is gone or locked or that a folder is not in the index
/// yet, is never taken for a file without names: that would take a live file out
/// of the index. It is counted, so that the gap shows.
pub fn judge_links(index: &VolumeIndex, walk: &LinkWalk) -> (verdict: LinkVerdict)
    requires
        index.wf(),
    ensures
        match walk {
            LinkWalk::Gone => verdict is Dropped,
            LinkWalk::Failed => verdict is Dropped,
            LinkWalk::Links(links) => if links@.len() > 0 && links_resolve(index@, links@) {
                verdict is Reconcile && targets_right(index@, links@, verdict->Reconcile_0@)
                    && verdict->Reconcile_0@.len() > 0
            } else {
                verdict is Dropped
            },
        },
{
    match walk {
        LinkWalk::Gone => LinkVerdict::Dropped,
        LinkWalk::Failed => LinkVerdict::Dropped,
        LinkWalk::Links(links) => {
            if links.len() == 0 {
                return LinkVerdict::Dropped;
            }
            match resolve_links(index, links) {
                Some(targets) => {
                    assert(places(targets@).len() == targets@.len());
                    LinkVerdict::Reconcile(targets)
                },
                None => LinkVerdict::Dropped,
            }
        },
    }
}

/// What the walks over a number of files came to.
pub struct LinkBatch {
    /// The files whose links could be looked up, and these.
    pub resolved: Vec<(Frn, Vec<LinkTarget>)>,
    /// How many could not.
    pub dropped: u64,
}

impl LinkBatch {
    /// No walk yet.
    pub fn new() -> (batch: LinkBatch)
        ensures
            batch.resolved@.len() == 0,
            batch.dropped == 0,
    {
        LinkBatch { resolved: Vec::new(), dropped: 0 }
    }

    /// Takes note of what the walk over a file's links came to.
    pub fn note(&mut self, index: &VolumeIndex, frn: Frn, walk: &LinkWalk)
        requires
            index.wf(),
        ensures
            if walk is Links && walk->Links_0@.len() > 0 && links_resolve(
                index@,
                walk->Links_0@,
            ) {
                &&& final(self).resolved@.len() == old(self).resolved@.len() + 1
                &&& final(self).resolved@.drop_last() == old(self).resolved@
                &&& final(self).resolved@.last().0 == frn
                &&& targets_right(index@, walk->Links_0@, final(self).resolved@.last().1@)
                &&& final(self).dropped == old(self).dropped
            } else {
                &&& final(self).resolved == old(self).resolved
                &&& final(self).dropped == counted_up(old(self).dropped, 1)
            },
    {
        match judge_links(index, walk) {
            LinkVerdict::Dropped => {
                self.dropped = count_up(self.dropped, 1);
            },
            LinkVerdict::Reconcile(targets) => {
                let ghost had = self.resolved@;
                self.resolved.push((frn, targets));
                assert(self.resolved@.drop_last() =~= had);
            },
        }
    }

    /// Whether there is nothing to apply.
    pub fn is_empty(&self) -> (res: bool)
        ensures
            res == (self.resolved@.len() == 0 && self.dropped == 0),
    {
        self.resolved.len() == 0 && self.dropped == 0
    }
}

/// A count that goes up by one so many times.
pub open spec fn counted_times(count: u64, times: nat) -> u64
    decreases times,
{
    if times == 0 {
        count
    } else {
        counted_up(counted_times(count, (times - 1) as nat), 1)
    }
}

/// The files of a list brought in line, one after the other.
pub open spec fn with_all_links(v: IndexView, list: Seq<(Frn, Vec<LinkTarget>)>) -> IndexView
    decreases list.len(),
{
    if list.len() == 0 {
        v
    } else {
        with_all_links(v, list.drop_last()).with_links(list.last().0.0, places(list.last().1@))
    }
}

/// Brings the links of files in line, and counts those that could not be looked
/// up.
pub fn apply_links(index: &mut VolumeIndex, resolved: &Vec<(Frn, Vec<LinkTarget>)>, dropped: u64)
    requires
        old(index).wf(),
    ensures
        final(index).wf(),
        final(index)@ == with_all_links(old(index)@, resolved@),
        final(index).map_kind() == old(index).map_kind(),
        final(index).tally() == (Tally {
            link_reconciles_dropped: counted_up(
                old(index).tally().link_reconciles_dropped,
                dropped,
            ),
            generation: counted_times(old(index).tally().generation, resolved@.len()),
            ..old(index).tally()
        }),
{
    index.note_link_reconciles_dropped(dropped);
    let ghost v = index@;
    let ghost tally = index.tally();
    let mut k: usize = 0;
    assert(resolved@.take(0) =~= Seq::<(Frn, Vec<LinkTarget>)>::empty());
    while k < resolved.len()
        invariant
            index.wf(),
            k <= resolved@.len(),
            index@ == with_all_links(v, resolved@.take(k as int)),
            index.map_kind() == old(index).map_kind(),
            index.tally() == (Tally {
                generation: counted_times(tally.generation, k as nat),
                ..tally
            }),
        decreases resolved@.len() - k,
    {
        proof {
            assert(resolved@.take(k + 1).drop_last() =~= resolved@.take(k as int));
            assert(resolved@.take(k + 1).last() == resolved@[k as int]);
        }
        index.reconcile_links(resolved[k].0, &resolved[k].1);
        k += 1;
    }
    assert(resolved@.take(k as int) =~= resolved@);
}

/// Sorts numbers with `slice::sort_unstable`, which permutes them into ascending
/// order.
#[verifier::external_body]
fn sort_numbers(numbers: &mut Vec<u64>)
    ensures
        final(numbers)@.to_multiset() == old(numbers)@.to_multiset(),
        forall|i: int, j: int|
            0 <= i < j < final(numbers)@.len() ==> final(numbers)@[i] <= final(numbers)@[j],
{
    numbers.sort_unstable();
}

/// A number among the files of a list.
pub open spec fn is_among(files: Seq<Frn>, n: u64) -> bool {
    files.contains(Frn(n))
}

fn append_numbers(numbers: &mut Vec<u64>, files: &Vec<Frn>)
    ensures
        forall|n: u64| #[trigger]
            final(numbers)@.contains(n) <==> old(numbers)@.contains(n) || is_among(files@, n),
{
    let ghost was = numbers@;
    let mut k: usize = 0;
    assert forall|n: u64| #[trigger] numbers@.contains(n) <==> was.contains(n) || is_among(
        files@.take(0),
        n,
    ) by {}
    while k < files.len()
        invariant
            k <= files@.len(),
            forall|n: u64| #[trigger]
                numbers@.contains(n) <==> was.contains(n) || is_among(files@.take(k as int), n),
        decreases files@.len() - k,
    {
        let ghost had = numbers@;
        numbers.push(files[k].0);
        proof {
            let more = files@.take(k + 1);
            assert(more =~= files@.take(k as int).push(files@[k as int]));
            assert forall|n: u64| #[trigger] numbers@.contains(n) <==> was.contains(n) || is_among(
                more,
                n,
            ) by {
                crate::seqs::lemma_push_members(had, files@[k as int].0, n);
                crate::seqs::lemma_push_members(files@.take(k as int), files@[k as int], Frn(n));
                assert(had.contains(n) <==> was.contains(n) || is_among(files@.take(k as int), n));
            }
        }
        k += 1;
    }
    assert(files@.take(k as int) =~= files@);
}

/// The files whose size and time have to be looked up: those that changed, and
/// those whose links did. Each comes once, in ascending order.
pub fn dirty_files(needs_stat: &Vec<Frn>, needs_links: &Vec<Frn>) -> (dirty: Vec<u64>)
    ensures
        forall|i: int, j: int| 0 <= i < j < dirty@.len() ==> dirty@[i] < dirty@[j],
        forall|n: u64| #[trigger]
            dirty@.contains(n) <==> is_among(needs_stat@, n) || is_among(needs_links@, n),
{
    let mut numbers: Vec<u64> = Vec::new();
    append_numbers(&mut numbers, needs_stat);
    append_numbers(&mut numbers, needs_links);
    let ghost unsorted = numbers@;
    sort_numbers(&mut numbers);
    let ghost all = numbers@;
    proof {
        assert forall|n: u64| #[trigger] all.contains(n) <==> unsorted.contains(n) by {
            lemma_permuted_members(all, unsorted, n);
        }
    }
    let mut dirty: Vec<u64> = Vec::new();
    let mut k: usize = 0;
    while k < numbers.len()
        invariant
            k <= numbers@.len(),
            numbers@ == all,
            forall|i: int, j: int| 0 <= i < j < all.len() ==> all[i] <= all[j],
            forall|i: int, j: int| 0 <= i < j < dirty@.len() ==> dirty@[i] < dirty@[j],
            forall|i: int| 0 <= i < dirty@.len() ==> all.contains(#[trigger] dirty@[i]),
            dirty@.len() > 0 ==> k > 0 && dirty@.last() == all[k - 1],
            dirty@.len() == 0 ==> k == 0,
            forall|i: int| 0 <= i < k ==> dirty@.contains(#[trigger] all[i]),
        decreases numbers@.len() - k,
    {
        let n = numbers[k];
        let ghost had = dirty@;
        if dirty.len() == 0 || dirty[dirty.len() - 1] != n {
            dirty.push(n);
            proof {
                assert(all.contains(all[k as int]));
                assert forall|i: int| 0 <= i < k + 1 implies dirty@.contains(#[trigger] all[i]) by {
                    crate::seqs::lemma_push_members(had, n, all[i]);
                }
                assert forall|i: int, j: int| 0 <= i < j < dirty@.len() implies dirty@[i]
                    < dirty@[j] by {
                    if j == had.len() {
                        assert(all[k - 1] <= all[k as int]);
                        if i < had.len() - 1 {
                            assert(had[i] < had[had.len() - 1]);
                        }
                    }
                }
            }
        } else {
            assert(dirty@[dirty@.len() - 1] == n);
        }
        k += 1;
    }
    proof {
        assert forall|n: u64| #[trigger] dirty@.contains(n) <==> is_among(needs_stat@, n)
            || is_among(needs_links@, n) by {
            if dirty@.contains(n) {
                assert(dirty@[dirty@.index_of(n)] == n);
            }
            if all.contains(n) {
                assert(all[all.index_of(n)] == n);
            }
        }
    }
    dirty
}

/// A file's size and time, as looked up.
#[derive(Clone, Copy, Debug, PartialEq, Eq, Structural)]
pub struct FileStat {
    pub frn: Frn,
    pub size: u64,
    pub mtime: i64,
}

/// The sizes and times of a list noted, one after the other.
pub open spec fn with_stats(v: IndexView, stats: Seq<FileStat>) -> IndexView
    decreases stats.len(),
{
    if stats.len() == 0 {
        v
    } else {
        let s = stats.last();
        with_stats(v, stats.drop_last()).with_file_stat(s.frn.0, s.size, s.mtime)
    }
}

/// Notes the sizes and times that were looked up.
pub fn apply_stats(index: &mut VolumeIndex, stats: &Vec<FileStat>)
    requires
        old(index).wf(),
    ensures
        final(index).wf(),
        final(index)@ == with_stats(old(index)@, stats@),
        final(index).map_kind() == old(index).map_kind(),
        final(index).tally() == old(index).tally(),
{
    let ghost v = index@;
    let ghost tally = index.tally();
    let mut k: usize = 0;
    assert(stats@.take(0) =~= Seq::<FileStat>::empty());
    while k < stats.len()
        invariant
            index.wf(),
            k <= stats@.len(),
            index@ == with_stats(v, stats@.take(k as int)),
            index.map_kind() == old(index).map_kind(),
            index.tally() == tally,
        decreases stats@.len() - k,
    {
        proof {
            assert(stats@.take(k + 1).drop_last() =~= stats@.take(k as int));
            assert(stats@.take(k + 1).last() == stats@[k as int]);
        }
        index.set_stat(stats[k].frn, stats[k].size, stats[k].mtime);
        k += 1;
    }
    assert(stats@.take(k as int) =~= stats@);
}

/// The parts of a path, put together again, are the path; the name holds no
/// separator, and one that does not follow a folder stands at the root.
pub proof fn law_path_is_split(dir: Seq<u8>, sep: u8, name: Seq<u8>)
    requires
        sep == 0x5C || sep == 0x2F,
        !name.contains(0x5C),
        !name.contains(0x2F),
    ensures
        dir_part(dir + seq![sep] + name) == dir,
        name_part(dir + seq![sep] + name) == name,
        dir_part(name) == Seq::<u8>::empty(),
        name_part(name) == name,
{
    let p = |b: u8| is_separator(b);
    let path = dir + seq![sep] + name;
    let at = dir.len() as int;
    assert(path[at] == sep);
    assert forall|j: int| at < j < path.len() implies !p(#[trigger] path[j]) by {
        assert(path[j] == name[j - at - 1]);
        assert(name.contains(name[j - at - 1]));
    }
    lemma_last_position_unique(path, p, at);
    assert(path.take(at) =~= dir);
    assert(path.skip(at + 1) =~= name);
    lemma_last_position(name, p);
    if last_separator(name) is Some {
        let j = last_separator(name)->0;
        assert(name.contains(name[j]));
    }
}

/// A link stands in the folder that its path leads to, whatever the case, under
/// the name behind the last separator, as it is written.
pub proof fn law_link_is_placed(v: IndexView, wide: Seq<u16>, dir: Seq<u8>, name: Seq<u8>)
    requires
        wide_path(wide) == dir + seq![0x5Cu8] + name,
        !name.contains(0x5C),
        !name.contains(0x2F),
    ensures
        link_place(v, wide) is Some <==> scope_target(v, dir, false) is Some,
        link_place(v, wide) is Some ==> link_place(v, wide) == Some(
            (scope_target(v, dir, false)->0, name),
        ),
{
    law_path_is_split(dir, 0x5C, name);
}

/// Sizes and times that were looked up are noted of the files they were looked
/// up for, the last one of a file last; nothing else is told of any entry, and none
/// comes or goes. The folder for what was lost stands for no file.
pub proof fn law_stats_are_noted(v: IndexView, stats: Seq<FileStat>, i: crate::types::EntryIdx)
    requires
        v.in_range(i),
    ensures
        ({
            let w = with_stats(v, stats);
            let e = v.entry(i);
            &&& w.entries.len() == v.entries.len()
            &&& w.names == v.names
            &&& w.in_range(i)
            &&& (i == LOST_FOUND || !e.live || forall|k: int|
                0 <= k < stats.len() ==> (#[trigger] stats[k]).frn.0 != e.frn) ==> w.entry(i) == e
            &&& forall|k: int|
                i != LOST_FOUND && e.live && 0 <= k < stats.len() && (#[trigger] stats[k]).frn.0
                    == e.frn && (forall|j: int|
                    k < j < stats.len() ==> (#[trigger] stats[j]).frn.0 != e.frn)
                    ==> w.entry(i).size == Some(stats[k].size) && w.entry(i).mtime == Some(
                    stats[k].mtime,
                )
            &&& w.entry(i).frn == e.frn
            &&& w.entry(i).parent == e.parent
            &&& w.entry(i).name_id == e.name_id
            &&& w.entry(i).is_dir == e.is_dir
            &&& w.entry(i).live == e.live
            &&& w.entry(i).synthetic == e.synthetic
        }),
    decreases stats.len(),
{
    if stats.len() > 0 {
        let before = stats.drop_last();
        let s = stats.last();
        law_stats_are_noted(v, before, i);
        let u = with_stats(v, before);
        let w = with_stats(v, stats);
        assert(w == u.with_file_stat(s.frn.0, s.size, s.mtime));
        assert forall|k: int| 0 <= k < before.len() implies #[trigger] before[k] == stats[k] by {}
        let e = v.entry(i);
        assert(u.names_file(i, s.frn.0) <==> i != LOST_FOUND && e.live && e.frn == s.frn.0);
        assert(w.entry(i).size == if u.names_file(i, s.frn.0) {
            Some(s.size)
        } else {
            u.entry(i).size
        });
        assert(stats[stats.len() - 1] == s);
        if i != LOST_FOUND && e.live && s.frn.0 != e.frn {
            assert forall|k: int|
                0 <= k < stats.len() && (#[trigger] stats[k]).frn.0 == e.frn && (forall|j: int|
                    k < j < stats.len() ==> (#[trigger] stats[j]).frn.0 != e.frn) implies w.entry(
                i,
            ).size == Some(stats[k].size) && w.entry(i).mtime == Some(stats[k].mtime) by {
                assert(before[k] == stats[k]);
                assert forall|j: int| k < j < before.len() implies (#[trigger] before[j]).frn.0
                    != e.frn by {
                    assert(before[j] == stats[j]);
                }
                assert(w.entry(i) == u.entry(i));
            }
        }
    }
}

/// Files are brought in line one after the other, in the order of the list: a
/// list behind another goes on from where that one ends.
pub proof fn law_links_one_after_another(
    v: IndexView,
    first: Seq<(Frn, Vec<LinkTarget>)>,
    file: (Frn, Vec<LinkTarget>),
)
    ensures
        with_all_links(v, Seq::<(Frn, Vec<LinkTarget>)>::empty()) == v,
        with_all_links(v, first.push(file)) == with_all_links(v, first).with_links(
            file.0.0,
            file.1@.map_values(|t: LinkTarget| (t.parent, t.name.bytes@)),
        ),
{
    assert(first.push(file).drop_last() =~= first);
    assert(places(file.1@) =~= file.1@.map_values(|t: LinkTarget| (t.parent, t.name.bytes@)));
}

/// A file's links are looked up all or not at all: they resolve exactly where the
/// folder of every one of them is there, and then there is one target for each,
/// in their order, with that folder, the link's name, and whether the name was
/// well-formed.
pub proof fn law_links_all_or_none(
    v: IndexView,
    links: Seq<Vec<u16>>,
    targets: Seq<LinkTarget>,
    k: int,
)
    requires
        targets_right(v, links, targets),
        0 <= k < links.len(),
    ensures
        links_resolve(v, links) <==> forall|j: int|
            0 <= j < links.len() ==> scope_target(
                v,
                dir_part(joined(wide_codes((#[trigger] links[j])@))),
                false,
            ) is Some,
        targets.len() == links.len(),
        links_resolve(v, links) ==> scope_target(
            v,
            dir_part(joined(wide_codes(links[k]@))),
            false,
        ) == Some(targets[k].parent) && targets[k].name.bytes@ == name_part(
            joined(wide_codes(links[k]@)),
        ),
        targets[k].name.lossy == !well_paired(links[k]@),
{
    assert(places(targets).len() == link_places(v, links).len());
    assert forall|j: int| 0 <= j < links.len() implies (link_place(v, (#[trigger] links[j])@) is Some
        <==> scope_target(v, dir_part(joined(wide_codes(links[j]@))), false) is Some) by {}
    if links_resolve(v, links) {
        assert(link_place(v, links[k]@) is Some);
        assert(places(targets)[k] == link_places(v, links)[k]);
    }
}

} // verus!
