//! What an index holds, as mathematics.

use super::names::room_for;
use crate::fold::folded;
use crate::types::{EntryIdx, NIL};
use vstd::prelude::*;

verus! {

/// Slot of the volume root.
pub const ROOT: EntryIdx = 0;

/// Slot of lost+found, the parent of directories that are referred to but were
/// never seen. Nothing under it has a presentable path.
pub const LOST_FOUND: EntryIdx = 1;

/// The separator between the components of a path.
pub const SEPARATOR: u8 = 0x5C;

/// One slot of the entry table.
#[derive(Clone, Copy, Debug)]
pub struct Slot {
    /// File reference number.
    pub frn: u64,
    /// Slot of the directory that holds the name, [`NIL`] for the two tops.
    pub parent: EntryIdx,
    /// The name, by its number in the name table.
    pub name_id: u32,
    pub is_dir: bool,
    /// Size in bytes, once known.
    pub size: Option<u64>,
    /// Last modification, once known.
    pub mtime: Option<i64>,
    /// Whether the slot is in use.
    pub live: bool,
    /// Whether the entry is the index's own invention: a top, or the stand-in
    /// for a directory that was never seen.
    pub synthetic: bool,
}

/// The content of an index.
#[verifier::ext_equal]
pub struct IndexView {
    /// The entry table.
    pub entries: Seq<Slot>,
    /// The distinct names, by number.
    pub names: Seq<Seq<u8>>,
    /// For each name the live entries that bear it.
    pub chains: Seq<Seq<EntryIdx>>,
    /// For each slot the live entries directly under it.
    pub children: Seq<Seq<EntryIdx>>,
    /// For each file reference number the live entries that are its names.
    pub links: Map<u64, Seq<EntryIdx>>,
    /// A number per slot that falls on every step towards a top.
    pub rank: Seq<nat>,
}

/// `dir` and `name` put together as a path; the root's own path is empty.
pub open spec fn join_path(dir: Seq<u8>, name: Seq<u8>) -> Seq<u8> {
    if dir.len() == 0 {
        name
    } else {
        dir + seq![SEPARATOR] + name
    }
}

/// A byte that separates path components in what a user types.
pub open spec fn is_separator(b: u8) -> bool {
    b == SEPARATOR || b == 0x2F
}

/// A name the index takes: no separators in it, and neither it nor its folded
/// form holds a NUL, which ends each name in the folded arena.
pub open spec fn indexable(name: Seq<u8>) -> bool {
    &&& forall|k: int| 0 <= k < name.len() ==> !is_separator(#[trigger] name[k])
    &&& !folded(name).contains(0u8)
}

/// The folded names one behind the other, each ended by a NUL.
pub open spec fn arena(names: Seq<Seq<u8>>) -> Seq<u8>
    decreases names.len(),
{
    if names.len() == 0 {
        seq![]
    } else {
        arena(names.drop_last()) + folded(names.last()) + seq![0u8]
    }
}

/// How long the names are together.
pub open spec fn names_len(names: Seq<Seq<u8>>) -> nat
    decreases names.len(),
{
    if names.len() == 0 {
        0
    } else {
        names_len(names.drop_last()) + names.last().len()
    }
}

/// Where the folded form of the name numbered `k` starts in the arena.
pub open spec fn arena_start(names: Seq<Seq<u8>>, k: int) -> int {
    arena(names.take(k)).len() as int
}

/// The first entry of `s` that is as wanted.
pub open spec fn first_where(s: Seq<EntryIdx>, pred: spec_fn(EntryIdx) -> bool) -> Option<EntryIdx>
    decreases s.len(),
{
    if s.len() == 0 {
        None
    } else if pred(s[0]) {
        Some(s[0])
    } else {
        first_where(s.drop_first(), pred)
    }
}

/// The slot of a top: an entry without a parent and without a name.
pub open spec fn top_slot(frn: u64) -> Slot {
    Slot {
        frn,
        parent: NIL,
        name_id: 0,
        is_dir: true,
        size: None,
        mtime: None,
        live: true,
        synthetic: true,
    }
}

impl IndexView {
    /// An index of nothing but the volume root, numbered `root`, and lost+found.
    pub open spec fn fresh(root: u64) -> IndexView {
        IndexView {
            entries: seq![top_slot(root), top_slot(0)],
            names: seq![Seq::<u8>::empty()],
            chains: seq![seq![ROOT, LOST_FOUND]],
            children: seq![Seq::<EntryIdx>::empty(), Seq::<EntryIdx>::empty()],
            links: map![root => seq![ROOT]],
            rank: seq![0nat, 0nat],
        }
    }

    /// `i` is a slot.
    pub open spec fn in_range(self, i: EntryIdx) -> bool {
        i < self.entries.len()
    }

    /// The slot `i`.
    pub open spec fn entry(self, i: EntryIdx) -> Slot {
        self.entries[i as int]
    }

    /// `i` is in use.
    pub open spec fn live(self, i: EntryIdx) -> bool {
        self.in_range(i) && self.entry(i).live
    }

    /// The name of the entry in slot `i`.
    pub open spec fn name(self, i: EntryIdx) -> Seq<u8> {
        self.names[self.entry(i).name_id as int]
    }

    /// The folded name of the entry in slot `i`.
    pub open spec fn folded_name(self, i: EntryIdx) -> Seq<u8> {
        folded(self.name(i))
    }

    /// `i` has a parent, one step nearer to a top.
    pub open spec fn has_parent(self, i: EntryIdx) -> bool {
        &&& self.in_range(i)
        &&& self.in_range(self.entry(i).parent)
        &&& self.rank[self.entry(i).parent as int] < self.rank[i as int]
    }

    /// The path of `i` within the volume; none where the walk towards the root
    /// ends elsewhere.
    pub open spec fn path_of(self, i: EntryIdx) -> Option<Seq<u8>>
        decreases self.rank[i as int],
    {
        if i == ROOT {
            Some(Seq::<u8>::empty())
        } else if !self.has_parent(i) {
            None
        } else {
            match self.path_of(self.entry(i).parent) {
                Some(dir) => Some(join_path(dir, self.name(i))),
                None => None,
            }
        }
    }

    /// `i` lies strictly under `root`.
    pub open spec fn descends(self, i: EntryIdx, root: EntryIdx) -> bool
        decreases self.rank[i as int],
    {
        self.has_parent(i) && (self.entry(i).parent == root || self.descends(
            self.entry(i).parent,
            root,
        ))
    }

    /// `p` stands in for a directory that was referred to but never seen.
    pub open spec fn is_placeholder(self, p: EntryIdx) -> bool {
        self.live(p) && self.entry(p).synthetic && p > LOST_FOUND
    }

    /// Some directory was referred to but never seen.
    pub open spec fn has_orphans(self) -> bool {
        exists|p: EntryIdx| self.is_placeholder(p)
    }

    /// The entry tables have matching sizes and the two tops are in place.
    pub open spec fn shaped(self) -> bool {
        &&& 2 <= self.entries.len() < NIL
        &&& self.children.len() == self.entries.len()
        &&& self.rank.len() == self.entries.len()
        &&& self.chains.len() == self.names.len()
        &&& self.names.len() <= NIL
        &&& forall|t: EntryIdx|
            t <= LOST_FOUND ==> {
                &&& (#[trigger] self.entry(t)).live
                &&& self.entry(t).synthetic
                &&& self.entry(t).is_dir
                &&& self.entry(t).parent == NIL
                &&& self.entry(t).name_id == 0
            }
    }

    /// Every entry but the tops hangs under a directory one step nearer to a
    /// top, and directly under lost+found there are only placeholders.
    pub open spec fn rooted(self) -> bool {
        forall|i: EntryIdx|
            LOST_FOUND < i && self.in_range(i) ==> {
                &&& #[trigger] self.has_parent(i)
                &&& self.entry(i).live ==> self.live(self.entry(i).parent)
                &&& self.entry(i).live ==> (self.entry(i).synthetic <==> self.entry(i).parent
                    == LOST_FOUND)
            }
    }

    /// Every entry has a name, every name is one the index takes, and no name
    /// is held twice.
    pub open spec fn named(self) -> bool {
        &&& forall|i: EntryIdx| #[trigger]
            self.in_range(i) ==> self.entry(i).name_id < self.names.len()
        &&& forall|k: int| 0 <= k < self.names.len() ==> indexable(#[trigger] self.names[k])
        &&& forall|k: int, l: int|
            0 <= k < l < self.names.len() ==> #[trigger] self.names[k] != #[trigger] self.names[l]
    }

    /// Each name's chain lists exactly the live entries that bear the name.
    pub open spec fn chained(self) -> bool {
        forall|k: int|
            0 <= k < self.names.len() ==> {
                &&& (#[trigger] self.chains[k]).no_duplicates()
                &&& forall|i: EntryIdx| #[trigger]
                    self.chains[k].contains(i) <==> self.live(i) && self.entry(i).name_id == k
            }
    }

    /// Each slot's children are exactly the live entries directly under it.
    pub open spec fn parented(self) -> bool {
        forall|p: EntryIdx|
            self.in_range(p) ==> {
                &&& (#[trigger] self.children[p as int]).no_duplicates()
                &&& forall|i: EntryIdx| #[trigger]
                    self.children[p as int].contains(i) <==> self.live(i) && self.entry(i).parent
                        == p
            }
    }

    /// Each file's links are exactly the live entries with its number; lost+found
    /// is no file.
    pub open spec fn linked(self) -> bool {
        &&& forall|f: u64| #[trigger]
            self.links.contains_key(f) ==> {
                &&& self.links[f].no_duplicates()
                &&& forall|i: EntryIdx| #[trigger]
                    self.links[f].contains(i) <==> self.live(i) && i != LOST_FOUND
                        && self.entry(i).frn == f
            }
        &&& forall|i: EntryIdx|
            #[trigger] self.live(i) && i != LOST_FOUND ==> self.links.contains_key(
                self.entry(i).frn,
            )
    }

    /// The index is well formed.
    pub open spec fn wf(self) -> bool {
        &&& self.shaped()
        &&& self.rooted()
        &&& self.named()
        &&& self.chained()
        &&& self.parented()
        &&& self.linked()
    }

    /// There is room to intern `name`.
    pub open spec fn fits(self, name: Seq<u8>) -> bool {
        room_for(self.names, name)
    }

    /// The entries reached by working off `stack` from its end, each entry's
    /// children taking its place.
    pub open spec fn walk(self, stack: Seq<EntryIdx>, fuel: nat) -> Seq<EntryIdx>
        decreases fuel,
    {
        if fuel == 0 || stack.len() == 0 {
            seq![]
        } else {
            seq![stack.last()] + self.walk(
                stack.drop_last() + self.children[stack.last() as int],
                (fuel - 1) as nat,
            )
        }
    }

    /// The entries under `root`, in the order of the subtree walk.
    pub open spec fn subtree(self, root: EntryIdx) -> Seq<EntryIdx> {
        self.walk(self.children[root as int], self.entries.len())
    }

    /// All slots in use, in table order.
    pub open spec fn live_slots(self) -> Seq<EntryIdx> {
        Seq::new(self.entries.len(), |i: int| i as EntryIdx).filter(|i: EntryIdx| self.live(i))
    }
}

/// Each name's folded form stands in the arena where it is said to.
pub proof fn lemma_arena_holds(names: Seq<Seq<u8>>, k: int)
    requires
        0 <= k < names.len(),
    ensures
        0 <= arena_start(names, k),
        arena_start(names, k + 1) == arena_start(names, k) + folded(names[k]).len() + 1,
        arena_start(names, k + 1) <= arena(names).len(),
        arena(names).subrange(
            arena_start(names, k),
            arena_start(names, k) + folded(names[k]).len(),
        ) == folded(names[k]),
        arena(names)[arena_start(names, k + 1) - 1] == 0,
    decreases names.len(),
{
    let init = names.drop_last();
    if k == names.len() - 1 {
        assert(names.take(k) =~= init);
        assert(names.take(k + 1) =~= names);
        assert(arena(names).subrange(
            arena(init).len() as int,
            (arena(init).len() + folded(names[k]).len()) as int,
        ) =~= folded(names[k]));
    } else {
        lemma_arena_holds(init, k);
        assert(names.take(k) =~= init.take(k));
        assert(names.take(k + 1) =~= init.take(k + 1));
        let s = arena_start(names, k);
        let n = folded(names[k]).len();
        assert(arena(names).subrange(s, s + n) =~= arena(init).subrange(s, s + n));
    }
}

/// An entry has a path exactly where its directory has one, and then it is the
/// directory's path with the name put behind it.
pub proof fn lemma_path_of_child(v: IndexView, i: EntryIdx)
    requires
        v.wf(),
        LOST_FOUND < i,
        v.in_range(i),
    ensures
        v.path_of(i) == match v.path_of(v.entry(i).parent) {
            Some(dir) => Some(join_path(dir, v.name(i))),
            None => None,
        },
{
    assert(v.has_parent(i));
}

/// With no placeholder around, every entry but lost+found has a path.
pub proof fn lemma_presentable_without_orphans(v: IndexView, i: EntryIdx)
    requires
        v.wf(),
        !v.has_orphans(),
        v.live(i),
        i != LOST_FOUND,
    ensures
        v.path_of(i) is Some,
    decreases v.rank[i as int],
{
    if i != ROOT {
        assert(v.has_parent(i));
        let p = v.entry(i).parent;
        if p == LOST_FOUND {
            assert(v.is_placeholder(i));
        } else {
            lemma_presentable_without_orphans(v, p);
        }
    }
}

/// The paths of a volume. The root's is empty; what stands in the root has its
/// name for a path; what stands deeper has its folder's path, a backslash and
/// its name. What hangs under lost+found has none.
pub proof fn law_paths(v: IndexView, i: EntryIdx)
    requires
        v.wf(),
        LOST_FOUND < i,
        v.in_range(i),
    ensures
        ({
            let p = v.entry(i).parent;
            &&& v.path_of(0) == Some(Seq::<u8>::empty())
            &&& v.path_of(1) is None
            &&& v.path_of(i) is Some <==> v.path_of(p) is Some
            &&& v.path_of(i) is Some && v.path_of(p)->0.len() == 0 ==> v.path_of(i)->0 == v.name(i)
            &&& v.path_of(i) is Some && v.path_of(p)->0.len() > 0 ==> v.path_of(i)->0
                == v.path_of(p)->0 + seq![0x5Cu8] + v.name(i)
        }),
{
    lemma_path_of_child(v, i);
    assert(v.entry(1).parent == NIL);
    assert(!v.has_parent(1));
}

/// The names that an index takes hold neither of the separators, and no NUL
/// once folded.
pub proof fn law_indexable(name: Seq<u8>)
    ensures
        indexable(name) <==> !name.contains(0x5C) && !name.contains(0x2F) && !folded(
            name,
        ).contains(0),
{
    if name.contains(0x5C) {
        assert(is_separator(name[name.index_of(0x5C)]));
    }
    if name.contains(0x2F) {
        assert(is_separator(name[name.index_of(0x2F)]));
    }
    if !name.contains(0x5C) && !name.contains(0x2F) {
        assert forall|k: int| 0 <= k < name.len() implies !is_separator(#[trigger] name[k]) by {
            assert(name.contains(name[k]));
        }
    }
}

/// An index that is new holds two entries, both its own inventions: the root of
/// the volume, with its number, and lost+found.
pub proof fn law_new_index(root: u64, i: EntryIdx)
    ensures
        ({
            let v = IndexView::fresh(root);
            &&& v.live(i) <==> i == 0 || i == 1
            &&& v.live(i) ==> v.entry(i).synthetic && v.entry(i).is_dir && v.name(i).len() == 0
            &&& v.entry(0).frn == root
            &&& v.path_of(0) == Some(Seq::<u8>::empty())
        }),
{
}

} // verus!
