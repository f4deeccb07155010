//! The subtree walk.

use super::changes::{lemma_without, without};
use super::model::{IndexView, LOST_FOUND};
use super::store::VolumeIndex;
use crate::types::{EntryIdx, NIL};
use vstd::prelude::*;

verus! {

/// How far the walk under `root` has got: `done` was visited, `stack` is seen
/// but not visited yet.
spec fn walked(v: IndexView, root: EntryIdx, done: Seq<EntryIdx>, stack: Seq<EntryIdx>) -> bool {
    let all = done + stack;
    &&& all.no_duplicates()
    &&& forall|k: int|
        0 <= k < all.len() ==> {
            &&& v.live(#[trigger] all[k])
            &&& v.descends(all[k], root)
            &&& v.entry(all[k]).parent == root || done.contains(v.entry(all[k]).parent)
        }
    &&& forall|i: EntryIdx|
        #[trigger] v.live(i) && (v.entry(i).parent == root || done.contains(v.entry(i).parent))
            ==> all.contains(i)
}

/// Nothing descends from itself: the rank falls on every step up.
pub proof fn lemma_descends_rank(v: IndexView, i: EntryIdx, root: EntryIdx)
    requires
        v.descends(i, root),
    ensures
        v.rank[root as int] < v.rank[i as int],
    decreases v.rank[i as int],
{
    if v.entry(i).parent != root {
        lemma_descends_rank(v, v.entry(i).parent, root);
    }
}

/// A list of distinct slots is no longer than the table.
pub proof fn lemma_distinct_bounded(s: Seq<EntryIdx>, n: nat)
    requires
        s.no_duplicates(),
        n <= NIL,
        forall|k: int| 0 <= k < s.len() ==> #[trigger] s[k] < n,
    ensures
        s.len() <= n,
    decreases n,
{
    if n == 0 {
        if s.len() > 0 {
            assert(s[0] < n);
        }
    } else {
        let top = (n - 1) as EntryIdx;
        lemma_without(s, top);
        let t = without(s, top);
        assert forall|k: int| 0 <= k < t.len() implies #[trigger] t[k] < n - 1 by {
            assert(t.contains(t[k]));
            let j = s.index_of(t[k]);
            assert(s[j] < n);
        }
        lemma_distinct_bounded(t, (n - 1) as nat);
    }
}

/// Visiting the next entry.
proof fn lemma_walk_step(v: IndexView, root: EntryIdx, done: Seq<EntryIdx>, stack: Seq<EntryIdx>)
    requires
        v.wf(),
        v.in_range(root),
        walked(v, root, done, stack),
        stack.len() > 0,
    ensures
        walked(
            v,
            root,
            done.push(stack.last()),
            stack.drop_last() + v.children[stack.last() as int],
        ),
        v.in_range(stack.last()),
{
    let x = stack.last();
    let all = done + stack;
    assert(all[all.len() - 1] == x);
    let kids = v.children[x as int];
    let done2 = done.push(x);
    let stack2 = stack.drop_last() + kids;
    let all2 = done2 + stack2;
    assert(v.in_range(x));
    assert(kids.no_duplicates());
    lemma_descends_rank(v, x, root);
    assert(!done.contains(x)) by {
        if done.contains(x) {
            let j = done.index_of(x);
            assert(all[j] == all[all.len() - 1]);
        }
    }
    // Nothing seen so far hangs under x.
    assert forall|c: EntryIdx| #[trigger] kids.contains(c) implies !all.contains(c) by {
        if all.contains(c) {
            let k = all.index_of(c);
            assert(v.live(all[k]));
        }
    }
    assert forall|i: int, j: int| 0 <= i < j < all2.len() implies all2[i] != all2[j] by {
        let base = done.len() + 1 + stack.len() - 1;
        if j < base {
            let a = if i < done.len() {
                i
            } else if i == done.len() {
                all.len() - 1
            } else {
                i - 1
            };
            let b = if j < done.len() {
                j
            } else if j == done.len() {
                all.len() - 1
            } else {
                j - 1
            };
            assert(all2[i] == all[a]);
            assert(all2[j] == all[b]);
        } else if i < base {
            let a = if i < done.len() {
                i
            } else if i == done.len() {
                all.len() - 1
            } else {
                i - 1
            };
            assert(all2[i] == all[a]);
            assert(all2[j] == kids[j - base]);
            assert(kids.contains(kids[j - base]));
            assert(all.contains(all[a]));
        } else {
            assert(all2[i] == kids[i - base]);
            assert(all2[j] == kids[j - base]);
        }
    }
    assert(all2.no_duplicates());
    assert(forall|j: EntryIdx| #[trigger] done2.contains(j) <==> done.contains(j) || j == x) by {
        assert forall|j: EntryIdx| #[trigger] done2.contains(j) <==> done.contains(j) || j == x by {
            if done.contains(j) {
                assert(done2[done.index_of(j)] == j);
            }
            assert(done2[done.len() as int] == x);
        }
    }
    assert forall|k: int| 0 <= k < all2.len() implies {
        &&& v.live(#[trigger] all2[k])
        &&& v.descends(all2[k], root)
        &&& v.entry(all2[k]).parent == root || done2.contains(v.entry(all2[k]).parent)
    } by {
        let base = done.len() + stack.len();
        if k < base {
            let a = if k < done.len() {
                k
            } else if k == done.len() {
                all.len() - 1
            } else {
                k - 1
            };
            assert(all2[k] == all[a]);
        } else {
            let c = kids[k - base];
            assert(all2[k] == c);
            assert(kids.contains(c));
            assert(v.entry(c).parent == x);
            assert(v.entry(0).parent == NIL);
            assert(v.entry(LOST_FOUND).parent == NIL);
            assert(v.has_parent(c));
        }
    }
    assert forall|i: EntryIdx|
        #[trigger] v.live(i) && (v.entry(i).parent == root || done2.contains(
            v.entry(i).parent,
        )) implies all2.contains(i) by {
        if v.entry(i).parent == root || done.contains(v.entry(i).parent) {
            let a = all.index_of(i);
            assert(all[a] == i);
            if a < done.len() {
                assert(all2[a] == i);
            } else if a == all.len() - 1 {
                assert(all2[done.len() as int] == i);
            } else {
                assert(all2[a + 1] == i);
            }
        } else {
            assert(kids.contains(i));
            let b = kids.index_of(i);
            assert(all2[done.len() + stack.len() + b] == i);
        }
    }
}

/// No more entries are seen than there are slots.
proof fn lemma_walked_bounded(
    v: IndexView,
    root: EntryIdx,
    done: Seq<EntryIdx>,
    stack: Seq<EntryIdx>,
)
    requires
        v.wf(),
        walked(v, root, done, stack),
    ensures
        done.len() + stack.len() <= v.entries.len(),
{
    let all = done + stack;
    assert forall|k: int| 0 <= k < all.len() implies #[trigger] all[k] < v.entries.len() by {
        assert(v.live(all[k]));
    }
    lemma_distinct_bounded(all, v.entries.len());
}

/// The walk starts in order.
proof fn lemma_walk_start(v: IndexView, root: EntryIdx)
    requires
        v.wf(),
        v.in_range(root),
    ensures
        walked(v, root, seq![], v.children[root as int]),
{
    let kids = v.children[root as int];
    let none = Seq::<EntryIdx>::empty();
    assert(none + kids =~= kids);
    assert(kids.no_duplicates());
    assert forall|k: int| 0 <= k < kids.len() implies {
        &&& v.live(#[trigger] kids[k])
        &&& v.descends(kids[k], root)
        &&& v.entry(kids[k]).parent == root
    } by {
        assert(kids.contains(kids[k]));
        assert(v.entry(0).parent == NIL);
        assert(v.entry(LOST_FOUND).parent == NIL);
        assert(v.has_parent(kids[k]));
    }
    assert forall|i: EntryIdx| #[trigger] v.live(i) && v.entry(i).parent == root implies (none
        + kids).contains(i) by {
        assert(kids.contains(i));
    }
}

/// The walk runs to its end.
proof fn lemma_walk(
    v: IndexView,
    root: EntryIdx,
    done: Seq<EntryIdx>,
    stack: Seq<EntryIdx>,
    fuel: nat,
)
    requires
        v.wf(),
        v.in_range(root),
        walked(v, root, done, stack),
        done.len() + fuel == v.entries.len(),
    ensures
        walked(v, root, done + v.walk(stack, fuel), seq![]),
    decreases fuel,
{
    lemma_walked_bounded(v, root, done, stack);
    if stack.len() == 0 {
        assert(stack =~= Seq::<EntryIdx>::empty());
        assert(v.walk(stack, fuel) =~= Seq::<EntryIdx>::empty());
        assert(done + v.walk(stack, fuel) =~= done);
    } else {
        lemma_walk_step(v, root, done, stack);
        let x = stack.last();
        let rest = stack.drop_last() + v.children[x as int];
        lemma_walk(v, root, done.push(x), rest, (fuel - 1) as nat);
        assert(done.push(x) + v.walk(rest, (fuel - 1) as nat) =~= done + v.walk(stack, fuel));
    }
}

/// A finished walk visited every descendant.
proof fn lemma_walked_all(v: IndexView, root: EntryIdx, done: Seq<EntryIdx>, i: EntryIdx)
    requires
        v.wf(),
        walked(v, root, done, seq![]),
        v.live(i),
        v.descends(i, root),
    ensures
        done.contains(i),
    decreases v.rank[i as int],
{
    assert(done + Seq::<EntryIdx>::empty() =~= done);
    let p = v.entry(i).parent;
    if p != root {
        assert(v.entry(0).parent == NIL);
        assert(v.entry(LOST_FOUND).parent == NIL);
        assert(v.has_parent(i));
        lemma_walked_all(v, root, done, p);
    }
}

/// The subtree walk visits exactly the live descendants of its root, each once.
pub proof fn lemma_subtree(v: IndexView, root: EntryIdx)
    requires
        v.wf(),
        v.in_range(root),
    ensures
        v.subtree(root).no_duplicates(),
        forall|i: EntryIdx| #[trigger]
            v.subtree(root).contains(i) <==> v.live(i) && v.descends(i, root),
{
    lemma_walk_start(v, root);
    let none = Seq::<EntryIdx>::empty();
    lemma_walk(v, root, none, v.children[root as int], v.entries.len());
    let done = v.subtree(root);
    assert(none + done =~= done);
    assert(done + none =~= done);
    assert forall|i: EntryIdx| #[trigger] done.contains(i) <==> v.live(i) && v.descends(
        i,
        root,
    ) by {
        if done.contains(i) {
            let k = done.index_of(i);
            assert(v.live(done[k]));
        }
        if v.live(i) && v.descends(i, root) {
            lemma_walked_all(v, root, done, i);
        }
    }
}

impl VolumeIndex {
    /// The entries under `root`, unless there are more than `limit` of them.
    pub fn subtree_entries(&self, root: EntryIdx, limit: usize) -> (list: Option<Vec<EntryIdx>>)
        requires
            self.wf(),
            self@.in_range(root),
        ensures
            match list {
                Some(l) => l@ == self@.subtree(root) && l@.len() <= limit,
                None => self@.subtree(root).len() > limit,
            },
    {
        let ghost v = self@;
        let mut done: Vec<EntryIdx> = Vec::new();
        let mut stack: Vec<EntryIdx> = Vec::new();
        stack.extend_from_slice(self.children_of(root));
        let ghost mut fuel: nat = v.entries.len();
        proof {
            assert(stack@ =~= v.children[root as int]);
            lemma_walk_start(v, root);
            assert(done@ =~= Seq::<EntryIdx>::empty());
            assert(done@ + v.walk(stack@, fuel) =~= v.subtree(root));
        }
        while stack.len() > 0
            invariant
                self.wf(),
                v == self@,
                v.in_range(root),
                walked(v, root, done@, stack@),
                done@.len() + fuel == v.entries.len(),
                done@.len() <= limit,
                done@ + v.walk(stack@, fuel) == v.subtree(root),
            decreases fuel,
        {
            let ghost before = stack@;
            let ghost was = done@;
            proof {
                lemma_walk_step(v, root, done@, before);
                lemma_walked_bounded(v, root, done@, before);
                assert((done@ + v.walk(before, fuel)).len() >= done@.len() + 1);
            }
            if done.len() == limit {
                return None;
            }
            let last = stack.len() - 1;
            let x = stack[last];
            stack.truncate(last);
            done.push(x);
            stack.extend_from_slice(self.children_of(x));
            proof {
                assert(stack@ =~= before.drop_last() + v.children[x as int]);
                assert(was + v.walk(before, fuel) =~= done@ + v.walk(stack@, (fuel - 1) as nat));
                fuel = (fuel - 1) as nat;
            }
        }
        assert(done@ =~= v.subtree(root));
        Some(done)
    }
}

} // verus!
