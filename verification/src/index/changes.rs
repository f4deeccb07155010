//! The ways an index's content changes, each of which keeps it well formed.

use super::model::{indexable, IndexView, Slot, LOST_FOUND};
use crate::types::{EntryIdx, NIL};
use vstd::prelude::*;

verus! {

/// `s` without the entry `i`.
pub open spec fn without(s: Seq<EntryIdx>, i: EntryIdx) -> Seq<EntryIdx> {
    if s.contains(i) {
        s.remove(s.index_of(i))
    } else {
        s
    }
}

/// What is left when one entry is taken out of a list that holds it once.
pub proof fn lemma_without(s: Seq<EntryIdx>, i: EntryIdx)
    requires
        s.no_duplicates(),
    ensures
        without(s, i).no_duplicates(),
        forall|j: EntryIdx| #[trigger] without(s, i).contains(j) <==> s.contains(j) && j != i,
        without(s, i).len() == s.len() - if s.contains(i) {
            1int
        } else {
            0
        },
{
    if s.contains(i) {
        let k = s.index_of(i);
        let t = without(s, i);
        assert forall|j: EntryIdx| #[trigger] t.contains(j) <==> s.contains(j) && j != i by {
            if t.contains(j) {
                let m = t.index_of(j);
                assert(t[m] == s[if m < k {
                    m
                } else {
                    m + 1
                }]);
            }
            if s.contains(j) && j != i {
                let m = s.index_of(j);
                assert(t[if m < k {
                    m
                } else {
                    m - 1
                }] == j);
            }
        }
    }
}

/// Taking out the entry at a known place.
pub proof fn lemma_without_at(s: Seq<EntryIdx>, k: int)
    requires
        s.no_duplicates(),
        0 <= k < s.len(),
    ensures
        without(s, s[k]) == s.remove(k),
{
    assert(s.contains(s[k]));
}

/// What a list holds once an entry is put behind it.
pub proof fn lemma_with(s: Seq<EntryIdx>, i: EntryIdx)
    requires
        s.no_duplicates(),
        !s.contains(i),
    ensures
        s.push(i).no_duplicates(),
        forall|j: EntryIdx| #[trigger] s.push(i).contains(j) <==> s.contains(j) || j == i,
{
    let t = s.push(i);
    assert forall|j: EntryIdx| #[trigger] t.contains(j) <==> s.contains(j) || j == i by {
        if s.contains(j) {
            assert(t[s.index_of(j)] == j);
        }
        if j == i {
            assert(t[s.len() as int] == i);
        }
    }
}

impl IndexView {
    /// The links of a file, none where the file is unknown.
    pub open spec fn links_of(self, frn: u64) -> Seq<EntryIdx> {
        if self.links.contains_key(frn) {
            self.links[frn]
        } else {
            seq![]
        }
    }

    /// A name added to the name table; no entry bears it yet.
    pub open spec fn with_name(self, name: Seq<u8>) -> IndexView {
        IndexView { names: self.names.push(name), chains: self.chains.push(seq![]), ..self }
    }

    /// A live entry in a new slot.
    pub open spec fn with_entry(self, e: Slot) -> IndexView {
        let n = self.entries.len() as EntryIdx;
        IndexView {
            entries: self.entries.push(e),
            chains: self.chains.update(
                e.name_id as int,
                self.chains[e.name_id as int].push(n),
            ),
            children: self.children.update(
                e.parent as int,
                self.children[e.parent as int].push(n),
            ).push(seq![]),
            links: self.links.insert(e.frn, self.links_of(e.frn).push(n)),
            rank: self.rank.push(self.rank[e.parent as int] + 1),
            ..self
        }
    }

    /// The entry in slot `p` turned into `e`, at the place that `e` gives; what
    /// hangs under it goes with it.
    pub open spec fn with_moved(self, p: EntryIdx, e: Slot) -> IndexView {
        let chains = self.chains.update(
            self.entry(p).name_id as int,
            without(self.chains[self.entry(p).name_id as int], p),
        );
        let children = self.children.update(
            self.entry(p).parent as int,
            without(self.children[self.entry(p).parent as int], p),
        );
        IndexView {
            entries: self.entries.update(p as int, e),
            chains: chains.update(e.name_id as int, chains[e.name_id as int].push(p)),
            children: children.update(e.parent as int, children[e.parent as int].push(p)),
            rank: Seq::new(
                self.rank.len(),
                |i: int|
                    if i == p || self.descends(i as EntryIdx, p) {
                        self.rank[i] + self.rank[e.parent as int] + 1
                    } else {
                        self.rank[i]
                    },
            ),
            ..self
        }
    }

    /// The entry in slot `i` gone.
    pub open spec fn with_removed(self, i: EntryIdx) -> IndexView {
        let e = self.entry(i);
        IndexView {
            entries: self.entries.update(i as int, Slot { live: false, ..e }),
            chains: self.chains.update(
                e.name_id as int,
                without(self.chains[e.name_id as int], i),
            ),
            children: self.children.update(
                e.parent as int,
                without(self.children[e.parent as int], i),
            ),
            links: self.links.insert(e.frn, without(self.links_of(e.frn), i)),
            ..self
        }
    }

    /// The entry in slot `i` with its size and time noted.
    pub open spec fn with_stat(self, i: EntryIdx, size: u64, mtime: i64) -> IndexView {
        IndexView {
            entries: self.entries.update(
                i as int,
                Slot { size: Some(size), mtime: Some(mtime), ..self.entry(i) },
            ),
            ..self
        }
    }
}

/// Adding a name keeps an index well formed.
pub proof fn lemma_with_name(v: IndexView, name: Seq<u8>)
    requires
        v.wf(),
        v.names.len() < NIL,
        indexable(name),
        !v.names.contains(name),
    ensures
        v.with_name(name).wf(),
{
    let w = v.with_name(name);
    assert forall|k: int| 0 <= k < w.names.len() implies indexable(#[trigger] w.names[k]) by {
        if k < v.names.len() {
            assert(w.names[k] == v.names[k]);
        }
    }
    assert(w.named()) by {
        assert forall|k: int, l: int| 0 <= k < l < w.names.len() implies #[trigger] w.names[k]
            != #[trigger] w.names[l] by {
            assert(v.names[k] == w.names[k]);
            if l < v.names.len() {
                assert(v.names[l] == w.names[l]);
            }
        }
        assert forall|i: EntryIdx| #[trigger] w.in_range(i) implies w.entry(i).name_id
            < w.names.len() by {
            assert(v.in_range(i));
        }
    }
    assert(w.rooted()) by {
        assert forall|i: EntryIdx| LOST_FOUND < i && w.in_range(i) implies {
            &&& #[trigger] w.has_parent(i)
            &&& w.entry(i).live ==> w.live(w.entry(i).parent)
            &&& w.entry(i).live ==> (w.entry(i).synthetic <==> w.entry(i).parent == LOST_FOUND)
        } by {
            assert(v.has_parent(i));
        }
    }
    assert forall|k: int| 0 <= k < w.names.len() implies {
        &&& (#[trigger] w.chains[k]).no_duplicates()
        &&& forall|i: EntryIdx| #[trigger]
            w.chains[k].contains(i) <==> w.live(i) && w.entry(i).name_id == k
    } by {
        if k < v.names.len() {
            assert(w.chains[k] == v.chains[k]);
        } else {
            assert forall|i: EntryIdx| #[trigger] w.chains[k].contains(i) <==> w.live(i)
                && w.entry(i).name_id == k by {
                if w.live(i) {
                    assert(v.in_range(i));
                }
            }
        }
    }
    assert forall|p: EntryIdx| w.in_range(p) implies {
        &&& (#[trigger] w.children[p as int]).no_duplicates()
        &&& forall|i: EntryIdx| #[trigger]
            w.children[p as int].contains(i) <==> w.live(i) && w.entry(i).parent == p
    } by {
        assert(v.in_range(p));
        assert(v.children[p as int] == w.children[p as int]);
        assert forall|i: EntryIdx| #[trigger] w.children[p as int].contains(i) <==> w.live(i)
            && w.entry(i).parent == p by {
            assert(v.children[p as int].contains(i) <==> v.live(i) && v.entry(i).parent == p);
        }
    }
    assert forall|f: u64| #[trigger] w.links.contains_key(f) implies {
        &&& w.links[f].no_duplicates()
        &&& forall|i: EntryIdx| #[trigger]
            w.links[f].contains(i) <==> w.live(i) && i != LOST_FOUND && w.entry(i).frn == f
    } by {
        assert(v.links.contains_key(f));
        assert forall|i: EntryIdx| #[trigger] w.links[f].contains(i) <==> w.live(i) && i
            != LOST_FOUND && w.entry(i).frn == f by {
            assert(v.links[f].contains(i) <==> v.live(i) && i != LOST_FOUND && v.entry(i).frn
                == f);
        }
    }
    assert forall|i: EntryIdx| #[trigger] w.live(i) && i != LOST_FOUND implies w.links.contains_key(
        w.entry(i).frn,
    ) by {
        assert(v.live(i));
    }
    assert forall|t: EntryIdx| t <= LOST_FOUND implies {
        &&& (#[trigger] w.entry(t)).live
        &&& w.entry(t).synthetic
        &&& w.entry(t).is_dir
        &&& w.entry(t).parent == NIL
        &&& w.entry(t).name_id == 0
    } by {
        assert(v.entry(t) == w.entry(t));
    }
}

/// Adding an entry under a live directory keeps an index well formed.
#[verifier::rlimit(40)]
pub proof fn lemma_with_entry(v: IndexView, e: Slot)
    requires
        v.wf(),
        v.entries.len() + 1 < NIL,
        e.live,
        v.live(e.parent),
        e.name_id < v.names.len(),
        e.synthetic <==> e.parent == LOST_FOUND,
    ensures
        v.with_entry(e).wf(),
{
    let w = v.with_entry(e);
    let n = v.entries.len() as EntryIdx;
    assert(w.entry(n) == e);
    assert forall|i: EntryIdx| v.in_range(i) implies w.in_range(i) && #[trigger] w.entry(i)
        == v.entry(i) by {}
    assert(!v.in_range(n));
    assert forall|t: EntryIdx| t <= LOST_FOUND implies {
        &&& (#[trigger] w.entry(t)).live
        &&& w.entry(t).synthetic
        &&& w.entry(t).is_dir
        &&& w.entry(t).parent == NIL
        &&& w.entry(t).name_id == 0
    } by {
        assert(v.entry(t) == w.entry(t));
    }
    assert(w.shaped());
    assert forall|i: EntryIdx| LOST_FOUND < i && w.in_range(i) implies {
        &&& #[trigger] w.has_parent(i)
        &&& w.entry(i).live ==> w.live(w.entry(i).parent)
        &&& w.entry(i).live ==> (w.entry(i).synthetic <==> w.entry(i).parent == LOST_FOUND)
    } by {
        if i != n {
            assert(v.has_parent(i));
        }
    }
    assert(w.rooted());
    assert(w.named()) by {
        assert forall|i: EntryIdx| #[trigger] w.in_range(i) implies w.entry(i).name_id
            < w.names.len() by {
            if i != n {
                assert(v.in_range(i));
            }
        }
    }
    assert forall|k: int| 0 <= k < w.names.len() implies {
        &&& (#[trigger] w.chains[k]).no_duplicates()
        &&& forall|i: EntryIdx| #[trigger]
            w.chains[k].contains(i) <==> w.live(i) && w.entry(i).name_id == k
    } by {
        assert(v.chains[k].no_duplicates());
        assert(!v.chains[k].contains(n));
        lemma_with(v.chains[k], n);
        assert forall|i: EntryIdx| #[trigger] w.chains[k].contains(i) <==> w.live(i)
            && w.entry(i).name_id == k by {
            assert(v.chains[k].contains(i) <==> v.live(i) && v.entry(i).name_id == k);
        }
    }
    assert(w.chained());
    assert forall|p: EntryIdx| w.in_range(p) implies {
        &&& (#[trigger] w.children[p as int]).no_duplicates()
        &&& forall|i: EntryIdx| #[trigger]
            w.children[p as int].contains(i) <==> w.live(i) && w.entry(i).parent == p
    } by {
        if p == n {
            assert forall|i: EntryIdx| #[trigger] w.children[p as int].contains(i) <==> w.live(i)
                && w.entry(i).parent == p by {
                if w.live(i) && i > LOST_FOUND && i != n {
                    assert(v.has_parent(i));
                }
            }
        } else {
            assert(v.in_range(p));
            assert(v.children[p as int].no_duplicates());
            assert(!v.children[p as int].contains(n));
            lemma_with(v.children[p as int], n);
            assert forall|i: EntryIdx| #[trigger] w.children[p as int].contains(i) <==> w.live(i)
                && w.entry(i).parent == p by {
                assert(v.children[p as int].contains(i) <==> v.live(i) && v.entry(i).parent == p);
            }
        }
    }
    assert(w.parented());
    assert forall|f: u64| #[trigger] w.links.contains_key(f) implies {
        &&& w.links[f].no_duplicates()
        &&& forall|i: EntryIdx| #[trigger]
            w.links[f].contains(i) <==> w.live(i) && i != LOST_FOUND && w.entry(i).frn == f
    } by {
        let l = v.links_of(f);
        assert(l.no_duplicates() && forall|i: EntryIdx| #[trigger]
            l.contains(i) <==> v.live(i) && i != LOST_FOUND && v.entry(i).frn == f) by {
            if !v.links.contains_key(f) {
                assert forall|i: EntryIdx| #[trigger] l.contains(i) <==> v.live(i) && i
                    != LOST_FOUND && v.entry(i).frn == f by {}
            }
        }
        assert(!l.contains(n));
        lemma_with(l, n);
        assert forall|i: EntryIdx| #[trigger] w.links[f].contains(i) <==> w.live(i) && i
            != LOST_FOUND && w.entry(i).frn == f by {
            assert(l.contains(i) <==> v.live(i) && i != LOST_FOUND && v.entry(i).frn == f);
        }
    }
    assert forall|i: EntryIdx| #[trigger] w.live(i) && i != LOST_FOUND implies w.links.contains_key(
        w.entry(i).frn,
    ) by {
        if i != n {
            assert(v.live(i));
        }
    }
    assert(w.linked());
}

/// Who descends from `p` does so through children that descend from `p` too.
proof fn lemma_descends_step(v: IndexView, i: EntryIdx, p: EntryIdx)
    requires
        v.wf(),
        LOST_FOUND < i,
        v.in_range(i),
    ensures
        v.descends(i, p) <==> v.entry(i).parent == p || v.descends(v.entry(i).parent, p),
{
    assert(v.has_parent(i));
}

/// Moving an entry keeps an index well formed, as long as it does not come to
/// hang under itself.
#[verifier::rlimit(60)]
pub proof fn lemma_with_moved(v: IndexView, p: EntryIdx, e: Slot)
    requires
        v.wf(),
        v.live(p),
        LOST_FOUND < p,
        e.live,
        e.frn == v.entry(p).frn,
        v.live(e.parent),
        e.synthetic <==> e.parent == LOST_FOUND,
        e.parent != p,
        !v.descends(e.parent, p),
        e.name_id < v.names.len(),
    ensures
        v.with_moved(p, e).wf(),
{
    let w = v.with_moved(p, e);
    let q = e.parent;
    let old_id = v.entry(p).name_id as int;
    let was = v.entry(p).parent;
    assert(v.has_parent(p));
    assert forall|i: EntryIdx| v.in_range(i) implies #[trigger] w.entry(i) == (if i == p {
        e
    } else {
        v.entry(i)
    }) by {}
    assert forall|i: EntryIdx| #[trigger] w.live(i) <==> v.live(i) by {}
    assert(w.shaped()) by {
        assert forall|t: EntryIdx| t <= LOST_FOUND implies {
            &&& (#[trigger] w.entry(t)).live
            &&& w.entry(t).synthetic
            &&& w.entry(t).is_dir
            &&& w.entry(t).parent == NIL
            &&& w.entry(t).name_id == 0
        } by {
            assert(v.entry(t) == w.entry(t));
        }
    }
    assert forall|i: EntryIdx| LOST_FOUND < i && w.in_range(i) implies {
        &&& #[trigger] w.has_parent(i)
        &&& w.entry(i).live ==> w.live(w.entry(i).parent)
        &&& w.entry(i).live ==> (w.entry(i).synthetic <==> w.entry(i).parent == LOST_FOUND)
    } by {
        assert(v.has_parent(i));
        lemma_descends_step(v, i, p);
    }
    assert(w.rooted());
    assert(w.named()) by {
        assert forall|i: EntryIdx| #[trigger] w.in_range(i) implies w.entry(i).name_id
            < w.names.len() by {
            assert(v.in_range(i));
        }
    }
    assert forall|k: int| 0 <= k < w.names.len() implies {
        &&& (#[trigger] w.chains[k]).no_duplicates()
        &&& forall|i: EntryIdx| #[trigger]
            w.chains[k].contains(i) <==> w.live(i) && w.entry(i).name_id == k
    } by {
        let c = v.chains[k];
        assert(c.no_duplicates());
        lemma_without(c, p);
        let d = if k == old_id {
            without(c, p)
        } else {
            c
        };
        assert(v.in_range(p));
        assert(!d.contains(p));
        lemma_with(d, p);
        assert forall|i: EntryIdx| #[trigger] w.chains[k].contains(i) <==> w.live(i)
            && w.entry(i).name_id == k by {
            assert(c.contains(i) <==> v.live(i) && v.entry(i).name_id == k);
            assert(d.contains(i) <==> c.contains(i) && i != p);
        }
    }
    assert(w.chained());
    assert forall|o: EntryIdx| w.in_range(o) implies {
        &&& (#[trigger] w.children[o as int]).no_duplicates()
        &&& forall|i: EntryIdx| #[trigger]
            w.children[o as int].contains(i) <==> w.live(i) && w.entry(i).parent == o
    } by {
        assert(v.in_range(o));
        let c = v.children[o as int];
        assert(c.no_duplicates());
        lemma_without(c, p);
        let d = if o == was {
            without(c, p)
        } else {
            c
        };
        assert(c.contains(p) <==> v.live(p) && v.entry(p).parent == o);
        assert(!d.contains(p));
        lemma_with(d, p);
        assert forall|i: EntryIdx| #[trigger] w.children[o as int].contains(i) <==> w.live(i)
            && w.entry(i).parent == o by {
            assert(c.contains(i) <==> v.live(i) && v.entry(i).parent == o);
            assert(d.contains(i) <==> c.contains(i) && i != p);
        }
    }
    assert(w.parented());
    assert forall|f: u64| #[trigger] w.links.contains_key(f) implies {
        &&& w.links[f].no_duplicates()
        &&& forall|i: EntryIdx| #[trigger]
            w.links[f].contains(i) <==> w.live(i) && i != LOST_FOUND && w.entry(i).frn == f
    } by {
        assert(v.links.contains_key(f));
        assert forall|i: EntryIdx| #[trigger] w.links[f].contains(i) <==> w.live(i) && i
            != LOST_FOUND && w.entry(i).frn == f by {
            assert(v.links[f].contains(i) <==> v.live(i) && i != LOST_FOUND && v.entry(i).frn
                == f);
        }
    }
    assert forall|i: EntryIdx| #[trigger] w.live(i) && i != LOST_FOUND implies w.links.contains_key(
        w.entry(i).frn,
    ) by {
        assert(v.live(i));
    }
    assert(w.linked());
}

/// Taking out an entry with nothing under it keeps an index well formed.
#[verifier::rlimit(40)]
pub proof fn lemma_with_removed(v: IndexView, r: EntryIdx)
    requires
        v.wf(),
        v.live(r),
        LOST_FOUND < r,
        v.children[r as int].len() == 0,
    ensures
        v.with_removed(r).wf(),
{
    let w = v.with_removed(r);
    assert(v.has_parent(r));
    assert(v.in_range(r));
    assert forall|i: EntryIdx| v.in_range(i) && i != r implies #[trigger] w.entry(i) == v.entry(
        i,
    ) by {}
    assert forall|i: EntryIdx| #[trigger] w.live(i) <==> v.live(i) && i != r by {}
    assert(w.shaped()) by {
        assert forall|t: EntryIdx| t <= LOST_FOUND implies {
            &&& (#[trigger] w.entry(t)).live
            &&& w.entry(t).synthetic
            &&& w.entry(t).is_dir
            &&& w.entry(t).parent == NIL
            &&& w.entry(t).name_id == 0
        } by {
            assert(v.entry(t) == w.entry(t));
        }
    }
    assert forall|i: EntryIdx| LOST_FOUND < i && w.in_range(i) implies {
        &&& #[trigger] w.has_parent(i)
        &&& w.entry(i).live ==> w.live(w.entry(i).parent)
        &&& w.entry(i).live ==> (w.entry(i).synthetic <==> w.entry(i).parent == LOST_FOUND)
    } by {
        assert(v.has_parent(i));
        if w.entry(i).live && v.entry(i).parent == r {
            assert(v.children[r as int].contains(i));
        }
    }
    assert(w.rooted());
    assert(w.named()) by {
        assert forall|i: EntryIdx| #[trigger] w.in_range(i) implies w.entry(i).name_id
            < w.names.len() by {
            assert(v.in_range(i));
        }
    }
    assert forall|k: int| 0 <= k < w.names.len() implies {
        &&& (#[trigger] w.chains[k]).no_duplicates()
        &&& forall|i: EntryIdx| #[trigger]
            w.chains[k].contains(i) <==> w.live(i) && w.entry(i).name_id == k
    } by {
        let c = v.chains[k];
        assert(c.no_duplicates());
        lemma_without(c, r);
        assert forall|i: EntryIdx| #[trigger] w.chains[k].contains(i) <==> w.live(i)
            && w.entry(i).name_id == k by {
            assert(c.contains(i) <==> v.live(i) && v.entry(i).name_id == k);
        }
    }
    assert(w.chained());
    assert forall|o: EntryIdx| w.in_range(o) implies {
        &&& (#[trigger] w.children[o as int]).no_duplicates()
        &&& forall|i: EntryIdx| #[trigger]
            w.children[o as int].contains(i) <==> w.live(i) && w.entry(i).parent == o
    } by {
        assert(v.in_range(o));
        let c = v.children[o as int];
        assert(c.no_duplicates());
        lemma_without(c, r);
        assert forall|i: EntryIdx| #[trigger] w.children[o as int].contains(i) <==> w.live(i)
            && w.entry(i).parent == o by {
            assert(c.contains(i) <==> v.live(i) && v.entry(i).parent == o);
        }
    }
    assert(w.parented());
    assert(v.links.contains_key(v.entry(r).frn));
    assert forall|f: u64| #[trigger] w.links.contains_key(f) implies {
        &&& w.links[f].no_duplicates()
        &&& forall|i: EntryIdx| #[trigger]
            w.links[f].contains(i) <==> w.live(i) && i != LOST_FOUND && w.entry(i).frn == f
    } by {
        assert(v.links.contains_key(f));
        let l = v.links[f];
        lemma_without(l, r);
        assert forall|i: EntryIdx| #[trigger] w.links[f].contains(i) <==> w.live(i) && i
            != LOST_FOUND && w.entry(i).frn == f by {
            assert(l.contains(i) <==> v.live(i) && i != LOST_FOUND && v.entry(i).frn == f);
        }
    }
    assert forall|i: EntryIdx| #[trigger] w.live(i) && i != LOST_FOUND implies w.links.contains_key(
        w.entry(i).frn,
    ) by {
        assert(v.live(i));
    }
    assert(w.linked());
}

/// Noting a size and a time keeps an index well formed.
#[verifier::rlimit(30)]
pub proof fn lemma_with_stat(v: IndexView, r: EntryIdx, size: u64, mtime: i64)
    requires
        v.wf(),
        v.live(r),
    ensures
        v.with_stat(r, size, mtime).wf(),
{
    let w = v.with_stat(r, size, mtime);
    assert forall|i: EntryIdx| v.in_range(i) implies
        {
            let a = #[trigger] w.entry(i);
            let b = v.entry(i);
            &&& a.frn == b.frn
            &&& a.parent == b.parent
            &&& a.name_id == b.name_id
            &&& a.is_dir == b.is_dir
            &&& a.live == b.live
            &&& a.synthetic == b.synthetic
        } by {}
    assert forall|i: EntryIdx| #[trigger] w.live(i) <==> v.live(i) by {}
    assert(w.shaped()) by {
        assert forall|t: EntryIdx| t <= LOST_FOUND implies {
            &&& (#[trigger] w.entry(t)).live
            &&& w.entry(t).synthetic
            &&& w.entry(t).is_dir
            &&& w.entry(t).parent == NIL
            &&& w.entry(t).name_id == 0
        } by {
            assert(v.entry(t).live);
        }
    }
    assert forall|i: EntryIdx| LOST_FOUND < i && w.in_range(i) implies {
        &&& #[trigger] w.has_parent(i)
        &&& w.entry(i).live ==> w.live(w.entry(i).parent)
        &&& w.entry(i).live ==> (w.entry(i).synthetic <==> w.entry(i).parent == LOST_FOUND)
    } by {
        assert(v.has_parent(i));
    }
    assert(w.rooted());
    assert(w.named()) by {
        assert forall|i: EntryIdx| #[trigger] w.in_range(i) implies w.entry(i).name_id
            < w.names.len() by {
            assert(v.in_range(i));
        }
    }
    assert forall|k: int| 0 <= k < w.names.len() implies {
        &&& (#[trigger] w.chains[k]).no_duplicates()
        &&& forall|i: EntryIdx| #[trigger]
            w.chains[k].contains(i) <==> w.live(i) && w.entry(i).name_id == k
    } by {
        assert(v.chains[k].no_duplicates());
        assert forall|i: EntryIdx| #[trigger] w.chains[k].contains(i) <==> w.live(i)
            && w.entry(i).name_id == k by {
            assert(v.chains[k].contains(i) <==> v.live(i) && v.entry(i).name_id == k);
        }
    }
    assert(w.chained());
    assert forall|o: EntryIdx| w.in_range(o) implies {
        &&& (#[trigger] w.children[o as int]).no_duplicates()
        &&& forall|i: EntryIdx| #[trigger]
            w.children[o as int].contains(i) <==> w.live(i) && w.entry(i).parent == o
    } by {
        assert(v.in_range(o));
        assert(v.children[o as int].no_duplicates());
        assert forall|i: EntryIdx| #[trigger] w.children[o as int].contains(i) <==> w.live(i)
            && w.entry(i).parent == o by {
            assert(v.children[o as int].contains(i) <==> v.live(i) && v.entry(i).parent == o);
        }
    }
    assert(w.parented());
    assert forall|f: u64| #[trigger] w.links.contains_key(f) implies {
        &&& w.links[f].no_duplicates()
        &&& forall|i: EntryIdx| #[trigger]
            w.links[f].contains(i) <==> w.live(i) && i != LOST_FOUND && w.entry(i).frn == f
    } by {
        assert(v.links.contains_key(f));
        assert forall|i: EntryIdx| #[trigger] w.links[f].contains(i) <==> w.live(i) && i
            != LOST_FOUND && w.entry(i).frn == f by {
            assert(v.links[f].contains(i) <==> v.live(i) && i != LOST_FOUND && v.entry(i).frn
                == f);
        }
    }
    assert forall|i: EntryIdx| #[trigger] w.live(i) && i != LOST_FOUND implies w.links.contains_key(
        w.entry(i).frn,
    ) by {
        assert(v.live(i));
    }
    assert(w.linked());
}

/// A file's names are the entries in use with its number, each once. lost+found
/// is no file's name.
pub proof fn law_names_of_a_file(v: IndexView, frn: u64, i: EntryIdx)
    requires
        v.wf(),
    ensures
        v.links_of(frn).no_duplicates(),
        v.links_of(frn).contains(i) <==> v.live(i) && i != LOST_FOUND && v.entry(i).frn == frn,
{
    if v.links.contains_key(frn) {
        assert(v.links[frn].contains(i) <==> v.live(i) && i != LOST_FOUND && v.entry(i).frn
            == frn);
    } else if v.live(i) && i != LOST_FOUND {
        assert(v.links.contains_key(v.entry(i).frn));
    }
}

} // verus!
