//! Testing one entry against a query, cheapest predicate first.
//!
//! Kind and size come first, then name substrings and patterns, then the
//! extension, and only for what survives these the scope and the path. Path
//! reconstruction, the one expensive step, is put off until an entry has passed
//! everything else.

use super::compiled::{all_contained, CompiledQuery};
use super::model::{answers, ext_ok, extension, hay, kind_ok, name_ok, size_ok, terms_in};
use super::parse::{Filters, Kind, ParsedQuery, SizeRange};
use super::wildcard::wild_matches;
use crate::bytes::{copy_range, lemma_last_position, lemma_last_position_unique, same_bytes};
use crate::fold::{fold, fold_into, folded};
use crate::index::model::{
    lemma_path_of_child, lemma_presentable_without_orphans, IndexView, LOST_FOUND,
};
use crate::index::{PathStatus, VolumeIndex};
use crate::memo::{
    chain_entries, chain_new, chain_pop, chain_push, memo_get, memo_insert, memo_new,
};
use crate::pieces::texts;
use crate::types::{EntryIdx, NIL};
use crate::wtf8::{units, CodePointBuf};
use rustc_hash::FxHashMap;
use vstd::prelude::*;
use vstd::slice::slice_subrange;

verus! {

/// A matched entry before its path is built.
pub(super) struct Candidate {
    pub idx: EntryIdx,
    pub is_dir: bool,
    pub size: Option<u64>,
    pub mtime: Option<i64>,
    /// The path within the volume, where a path term called for it.
    pub path: Option<Vec<u8>>,
    /// The key of the order by path, where the order is by path.
    pub sort_key: Option<Vec<u8>>,
}

impl Candidate {
    /// The candidate says what the index says.
    pub(super) open spec fn faithful(&self, v: IndexView) -> bool {
        &&& v.live(self.idx)
        &&& !v.entry(self.idx).synthetic
        &&& self.is_dir == v.entry(self.idx).is_dir
        &&& self.size == v.entry(self.idx).size
        &&& self.mtime == v.entry(self.idx).mtime
        &&& v.path_of(self.idx) is Some
        &&& self.path is Some ==> v.path_of(self.idx) == Some(self.path->0@)
    }
}

/// What a scan keeps from one entry to the next.
pub(super) struct Scratch {
    /// Whether an entry lies in the scope.
    pub scope_memo: FxHashMap<EntryIdx, bool>,
    /// The path of a directory, or that it has none.
    pub dir_paths: FxHashMap<EntryIdx, Option<Vec<u8>>>,
    pub code_points: CodePointBuf,
    pub extension: Vec<u8>,
}

/// Every remembered path is right.
pub(super) open spec fn paths_right(
    v: IndexView,
    memo: Map<EntryIdx, Option<Vec<u8>>>,
) -> bool {
    forall|p: EntryIdx| #[trigger]
        memo.contains_key(p) ==> v.path_of(p) == match memo[p] {
            Some(path) => Some(path@),
            None => None,
        }
}

/// Every remembered scope verdict is right.
pub(super) open spec fn verdicts_right(
    v: IndexView,
    root: EntryIdx,
    memo: Map<EntryIdx, bool>,
) -> bool {
    forall|e: EntryIdx| #[trigger] memo.contains_key(e) ==> memo[e] == v.descends(e, root)
}

impl Scratch {
    /// What is remembered is right.
    pub(super) open spec fn sound(&self, v: IndexView, scope: Option<EntryIdx>) -> bool {
        &&& paths_right(v, self.dir_paths@)
        &&& scope is Some ==> verdicts_right(v, scope->0, self.scope_memo@)
    }

    /// Nothing remembered.
    pub(super) fn new() -> (scratch: Scratch)
        ensures
            forall|v: IndexView, scope: Option<EntryIdx>| #[trigger] scratch.sound(v, scope),
    {
        Scratch {
            scope_memo: memo_new(),
            dir_paths: memo_new(),
            code_points: CodePointBuf::new(),
            extension: Vec::new(),
        }
    }
}

fn kind_matches(kind: Option<Kind>, is_dir: bool) -> (res: bool)
    ensures
        res == kind_ok(kind, is_dir),
{
    match kind {
        None => true,
        Some(Kind::File) => !is_dir,
        Some(Kind::Folder) => is_dir,
    }
}

/// A size filter excludes entries whose size is not known: what cannot be
/// confirmed is not claimed.
fn size_matches(filter: Option<SizeRange>, size: Option<u64>) -> (res: bool)
    ensures
        res == size_ok(filter, size),
{
    match filter {
        None => true,
        Some(range) => match size {
            Some(s) => range.contains(s),
            None => false,
        },
    }
}

/// Extensions match whatever their case, even where the case counts otherwise:
/// the wanted ones were folded when the query was parsed.
fn ext_matches(filters: &Filters, name: &[u8], scratch: &mut Vec<u8>) -> (res: bool)
    ensures
        res == ext_ok(*filters, name@),
{
    let exts = match &filters.ext {
        Some(exts) => exts,
        None => return true,
    };
    let ghost dotted = |b: u8| b == 0x2E;
    let mut dot: usize = name.len();
    loop
        invariant
            dot <= name@.len(),
            filters.ext == Some(*exts),
            dotted == (|b: u8| b == 0x2E),
            forall|j: int| dot <= j < name@.len() ==> !dotted(#[trigger] name@[j]),
        ensures
            0 < dot <= name@.len(),
            name@[dot - 1] == 0x2E,
        decreases dot,
    {
        if dot == 0 {
            proof {
                lemma_last_position(name@, dotted);
                assert(extension(name@) is None);
            }
            return false;
        }
        if name[dot - 1] == 0x2E {
            break ;
        }
        assert(!dotted(name@[dot - 1]));
        dot -= 1;
    }
    proof {
        assert forall|j: int| dot - 1 < j < name@.len() implies !dotted(#[trigger] name@[j]) by {}
        lemma_last_position_unique(name@, dotted, dot - 1);
        assert(name@.subrange(dot as int, name@.len() as int) =~= name@.skip(dot as int));
    }
    scratch.clear();
    fold_into(slice_subrange(name, dot, name.len()), scratch);
    assert(scratch@ =~= folded(name@.skip(dot as int)));
    let mut i: usize = 0;
    while i < exts.len()
        invariant
            i <= exts@.len(),
            filters.ext == Some(*exts),
            extension(name@) is Some,
            scratch@ == folded(extension(name@)->0),
            forall|k: int| 0 <= k < i ==> #[trigger] exts@[k]@ != scratch@,
        decreases exts@.len() - i,
    {
        if same_bytes(exts[i].as_slice(), scratch.as_slice()) {
            proof {
                let wanted = filters.ext->0;
                assert(wanted@[i as int]@ == folded(extension(name@)->0));
                assert(ext_ok(*filters, name@));
            }
            return true;
        }
        i += 1;
    }
    false
}

/// Whether every pattern matches `text`.
fn wildcards_match(parsed: &ParsedQuery, text: &[u8], buf: &mut CodePointBuf) -> (res: bool)
    ensures
        res == (forall|k: int|
            0 <= k < parsed.wildcards@.len() ==> wild_matches(
                (#[trigger] parsed.wildcards@[k]).tokens(),
                units(text@),
            )),
{
    let mut i: usize = 0;
    while i < parsed.wildcards.len()
        invariant
            i <= parsed.wildcards@.len(),
            forall|k: int|
                0 <= k < i ==> wild_matches(
                    (#[trigger] parsed.wildcards@[k]).tokens(),
                    units(text@),
                ),
        decreases parsed.wildcards@.len() - i,
    {
        if !parsed.wildcards[i].matches_into(text, buf) {
            return false;
        }
        i += 1;
    }
    true
}

/// Sees to it that the path of `parent`, or that it has none, is remembered;
/// tells whether it has one. Each directory is walked once, for the candidate
/// filter and the page builder together.
pub(super) fn parent_path(
    index: &VolumeIndex,
    parent: EntryIdx,
    memo: &mut FxHashMap<EntryIdx, Option<Vec<u8>>>,
) -> (presentable: bool)
    requires
        index.wf(),
        index@.in_range(parent),
        paths_right(index@, old(memo)@),
    ensures
        paths_right(index@, final(memo)@),
        final(memo)@.contains_key(parent),
        presentable == (index@.path_of(parent) is Some),
{
    if let Some(known) = memo_get(memo, parent) {
        return known.is_some();
    }
    let mut buf: Vec<u8> = Vec::new();
    match index.path_of(parent, &mut buf) {
        PathStatus::Presentable => {
            memo_insert(memo, parent, Some(buf));
            true
        },
        PathStatus::LostFound => {
            memo_insert(memo, parent, None);
            false
        },
    }
}

/// Whether `node` lies under `root`, which does not lie under itself. Every
/// entry passed on the way up is remembered.
pub(super) fn in_scope(
    index: &VolumeIndex,
    node: EntryIdx,
    root: EntryIdx,
    memo: &mut FxHashMap<EntryIdx, bool>,
) -> (res: bool)
    requires
        index.wf(),
        index@.in_range(node),
        verdicts_right(index@, root, old(memo)@),
    ensures
        verdicts_right(index@, root, final(memo)@),
        res == index@.descends(node, root),
{
    let ghost v = index@;
    if node == root {
        proof {
            if v.descends(node, root) {
                crate::index::walk::lemma_descends_rank(v, node, root);
            }
        }
        return false;
    }
    let mut chain = chain_new();
    let mut cur = node;
    let mut verdict = false;
    loop
        invariant
            index.wf(),
            v == index@,
            v.in_range(cur),
            node != root,
            cur == root ==> chain_entries(chain).len() > 0,
            chain_entries(chain).len() == 0 ==> cur == node,
            verdicts_right(v, root, memo@),
            v.descends(node, root) == (cur == root || v.descends(cur, root)),
            forall|k: int|
                0 <= k < chain_entries(chain).len() ==> v.descends(
                    #[trigger] chain_entries(chain)[k],
                    root,
                ) == (cur == root || v.descends(cur, root)),
        ensures
            v == index@,
            verdicts_right(v, root, memo@),
            v.descends(node, root) == verdict,
            forall|k: int|
                0 <= k < chain_entries(chain).len() ==> v.descends(
                    #[trigger] chain_entries(chain)[k],
                    root,
                ) == verdict,
        decreases v.rank[cur as int],
    {
        if cur == root {
            verdict = true;
            break ;
        }
        if let Some(known) = memo_get(memo, cur) {
            verdict = *known;
            break ;
        }
        let parent = index.entry(cur).parent;
        if parent == NIL {
            proof {
                assert(!v.has_parent(cur));
            }
            verdict = false;
            break ;
        }
        proof {
            assert(v.entry(0).parent == NIL);
            assert(v.entry(LOST_FOUND).parent == NIL);
            assert(v.has_parent(cur));
            let c = chain_entries(chain);
            assert forall|k: int| 0 <= k < c.push(cur).len() implies v.descends(
                #[trigger] c.push(cur)[k],
                root,
            ) == (parent == root || v.descends(parent, root)) by {
                if k < c.len() {
                    assert(c.push(cur)[k] == c[k]);
                }
            }
        }
        chain_push(&mut chain, cur);
        cur = parent;
    }
    loop
        invariant
            verdicts_right(v, root, memo@),
            forall|k: int|
                0 <= k < chain_entries(chain).len() ==> v.descends(
                    #[trigger] chain_entries(chain)[k],
                    root,
                ) == verdict,
        ensures
            verdicts_right(v, root, memo@),
        decreases chain_entries(chain).len(),
    {
        let ghost before = chain_entries(chain);
        match chain_pop(&mut chain) {
            None => {
                break ;
            },
            Some(e) => {
                proof {
                    assert(before[before.len() - 1] == e);
                    assert forall|k: int| 0 <= k < chain_entries(chain).len() implies v.descends(
                        #[trigger] chain_entries(chain)[k],
                        root,
                    ) == verdict by {
                        assert(chain_entries(chain)[k] == before[k]);
                    }
                }
                memo_insert(memo, e, verdict);
            },
        }
    }
    verdict
}

/// Tests one entry against every predicate of the query; where a path term made
/// it build the path, the candidate keeps it.
pub(super) fn evaluate(
    index: &VolumeIndex,
    parsed: &ParsedQuery,
    compiled: &CompiledQuery<'_>,
    idx: EntryIdx,
    scope: Option<EntryIdx>,
    scratch: &mut Scratch,
) -> (found: Option<Candidate>)
    requires
        index.wf(),
        compiled.compiles(*parsed),
        index@.live(idx),
        !index@.entry(idx).synthetic,
        old(scratch).sound(index@, scope),
    ensures
        final(scratch).sound(index@, scope),
        match found {
            Some(c) => answers(index@, *parsed, scope, idx) && c.idx == idx && c.faithful(index@)
                && c.sort_key is None,
            None => !answers(index@, *parsed, scope, idx),
        },
{
    let ghost v = index@;
    let entry = index.entry(idx);
    if !kind_matches(parsed.filters.kind, entry.is_dir) {
        return None;
    }
    if !size_matches(parsed.filters.size, entry.size) {
        return None;
    }
    let hay_name = if parsed.match_case {
        entry.name
    } else {
        index.folded_name(idx)
    };
    assert(hay_name@ == hay(*parsed, v.name(idx)));
    if !compiled.names_in(hay_name) {
        proof {
            lemma_terms(parsed.name_terms@, hay_name@);
        }
        return None;
    }
    if !wildcards_match(parsed, hay_name, &mut scratch.code_points) {
        return None;
    }
    proof {
        lemma_terms(parsed.name_terms@, hay_name@);
        assert(name_ok(*parsed, hay(*parsed, v.name(idx))));
    }
    if !ext_matches(&parsed.filters, entry.name, &mut scratch.extension) {
        return None;
    }
    if let Some(root) = scope {
        if !in_scope(index, idx, root, &mut scratch.scope_memo) {
            return None;
        }
    }
    proof {
        assert(v.entry(0).synthetic);
        assert(v.entry(LOST_FOUND).synthetic);
        assert(v.has_parent(idx));
        lemma_path_of_child(v, idx);
    }
    if index.has_orphans() {
        if !parent_path(index, entry.parent, &mut scratch.dir_paths) {
            return None;
        }
    } else {
        proof {
            lemma_presentable_without_orphans(v, idx);
        }
    }
    let mut path: Option<Vec<u8>> = None;
    if parsed.path_terms.len() > 0 {
        let mut buf: Vec<u8> = Vec::new();
        match index.path_of(idx, &mut buf) {
            PathStatus::Presentable => {},
            PathStatus::LostFound => return None,
        }
        let hay_path = if parsed.match_case {
            copy_range(buf.as_slice(), 0, buf.len())
        } else {
            fold(buf.as_slice())
        };
        proof {
            assert(buf@.subrange(0, buf@.len() as int) =~= buf@);
            lemma_terms(parsed.path_terms@, hay_path@);
        }
        if !compiled.paths_in(hay_path.as_slice()) {
            return None;
        }
        path = Some(buf);
    }
    Some(
        Candidate {
            idx,
            is_dir: entry.is_dir,
            size: entry.size,
            mtime: entry.mtime,
            path,
            sort_key: None,
        },
    )
}

/// Terms and their texts say the same.
proof fn lemma_terms(terms: Seq<Vec<u8>>, hay: Seq<u8>)
    ensures
        all_contained(texts(terms), hay) == terms_in(terms, hay),
{
    if all_contained(texts(terms), hay) {
        assert forall|k: int| 0 <= k < terms.len() implies crate::search::contains_bytes(
            hay,
            #[trigger] terms[k]@,
        ) by {
            assert(texts(terms)[k] == terms[k]@);
        }
    }
    if terms_in(terms, hay) {
        assert forall|k: int| 0 <= k < texts(terms).len() implies crate::search::contains_bytes(
            hay,
            #[trigger] texts(terms)[k],
        ) by {
            assert(texts(terms)[k] == terms[k]@);
        }
    }
}

} // verus!
