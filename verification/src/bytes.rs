//! Byte strings: the lexicographic order, and the small scans that the rest of
//! the crate builds on.

use vstd::prelude::*;
use vstd::slice::{slice_subrange, slice_to_vec};

verus! {

/// How one value stands to another in a total order.
#[derive(Clone, Copy, Debug, PartialEq, Eq, Structural)]
pub enum Relation {
    Less,
    Equal,
    Greater,
}

/// `a` comes strictly before `b` in lexicographic byte order.
pub open spec fn lex_less(a: Seq<u8>, b: Seq<u8>) -> bool
    decreases a.len(),
{
    if b.len() == 0 {
        false
    } else if a.len() == 0 {
        true
    } else if a[0] != b[0] {
        a[0] < b[0]
    } else {
        lex_less(a.drop_first(), b.drop_first())
    }
}

/// Of two byte strings exactly one of less, equal and greater holds.
pub proof fn lemma_lex_total(a: Seq<u8>, b: Seq<u8>)
    ensures
        lex_less(a, b) || a == b || lex_less(b, a),
        !(lex_less(a, b) && lex_less(b, a)),
        a == b ==> !lex_less(a, b),
    decreases a.len(),
{
    if a.len() > 0 && b.len() > 0 && a[0] == b[0] {
        lemma_lex_total(a.drop_first(), b.drop_first());
        if a.drop_first() == b.drop_first() {
            assert(a =~= seq![a[0]] + a.drop_first());
            assert(b =~= seq![b[0]] + b.drop_first());
        }
    } else if a.len() == 0 && b.len() == 0 {
        assert(a =~= b);
    }
}

/// The order of byte strings, said outright: `a` comes before `b` where, behind
/// what both begin with, `a` ends or has the smaller byte.
pub proof fn law_byte_order(a: Seq<u8>, b: Seq<u8>)
    ensures
        lex_less(a, b) <==> exists|n: int|
            0 <= n <= a.len() && n < b.len() && #[trigger] a.take(n) == b.take(n) && (n == a.len()
                || a[n] < b[n]),
    decreases a.len(),
{
    if b.len() == 0 {
    } else if a.len() == 0 {
        assert(a.take(0) == b.take(0));
    } else if a[0] != b[0] {
        assert(a.take(0) == b.take(0));
        if exists|n: int|
            0 <= n <= a.len() && n < b.len() && #[trigger] a.take(n) == b.take(n) && (n == a.len()
                || a[n] < b[n]) {
            let n = choose|n: int|
                0 <= n <= a.len() && n < b.len() && #[trigger] a.take(n) == b.take(n) && (n
                    == a.len() || a[n] < b[n]);
            if n > 0 {
                assert(a.take(n)[0] == b.take(n)[0]);
            }
        }
    } else {
        let x = a.drop_first();
        let y = b.drop_first();
        law_byte_order(x, y);
        if exists|n: int|
            0 <= n <= x.len() && n < y.len() && #[trigger] x.take(n) == y.take(n) && (n == x.len()
                || x[n] < y[n]) {
            let n = choose|n: int|
                0 <= n <= x.len() && n < y.len() && #[trigger] x.take(n) == y.take(n) && (n
                    == x.len() || x[n] < y[n]);
            assert(a.take(n + 1) =~= seq![a[0]] + x.take(n));
            assert(b.take(n + 1) =~= seq![b[0]] + y.take(n));
            assert(a.take(n + 1) == b.take(n + 1));
        }
        if exists|n: int|
            0 <= n <= a.len() && n < b.len() && #[trigger] a.take(n) == b.take(n) && (n == a.len()
                || a[n] < b[n]) {
            let n = choose|n: int|
                0 <= n <= a.len() && n < b.len() && #[trigger] a.take(n) == b.take(n) && (n
                    == a.len() || a[n] < b[n]);
            assert(n > 0);
            assert(x.take(n - 1) =~= a.take(n).drop_first());
            assert(y.take(n - 1) =~= b.take(n).drop_first());
            assert(x.take(n - 1) == y.take(n - 1));
        }
    }
}

/// The strict order is transitive.
pub proof fn lemma_lex_transitive(a: Seq<u8>, b: Seq<u8>, c: Seq<u8>)
    requires
        lex_less(a, b),
        lex_less(b, c),
    ensures
        lex_less(a, c),
    decreases a.len(),
{
    if a.len() > 0 && a[0] == b[0] && b[0] == c[0] {
        lemma_lex_transitive(a.drop_first(), b.drop_first(), c.drop_first());
    }
}

/// A common prefix does not change how two byte strings compare.
pub proof fn lemma_lex_prefix(p: Seq<u8>, a: Seq<u8>, b: Seq<u8>)
    ensures
        lex_less(p + a, p + b) == lex_less(a, b),
    decreases p.len(),
{
    if p.len() == 0 {
        assert(p + a =~= a);
        assert(p + b =~= b);
    } else {
        assert((p + a).drop_first() =~= p.drop_first() + a);
        assert((p + b).drop_first() =~= p.drop_first() + b);
        lemma_lex_prefix(p.drop_first(), a, b);
    }
}

/// Compares two byte strings in lexicographic order.
pub fn compare_bytes(a: &[u8], b: &[u8]) -> (rel: Relation)
    ensures
        match rel {
            Relation::Less => lex_less(a@, b@),
            Relation::Equal => a@ == b@,
            Relation::Greater => lex_less(b@, a@),
        },
{
    let mut i: usize = 0;
    while i < a.len() && i < b.len() && a[i] == b[i]
        invariant
            i <= a@.len(),
            i <= b@.len(),
            a@.take(i as int) == b@.take(i as int),
        decreases a@.len() - i,
    {
        proof {
            assert(a@.take(i + 1) =~= a@.take(i as int).push(a@[i as int]));
            assert(b@.take(i + 1) =~= b@.take(i as int).push(b@[i as int]));
        }
        i += 1;
    }
    proof {
        let p = a@.take(i as int);
        assert(a@ =~= p + a@.skip(i as int));
        assert(b@ =~= p + b@.skip(i as int));
        lemma_lex_prefix(p, a@.skip(i as int), b@.skip(i as int));
        lemma_lex_prefix(p, b@.skip(i as int), a@.skip(i as int));
    }
    if i < a.len() {
        if i < b.len() {
            if a[i] < b[i] {
                Relation::Less
            } else {
                Relation::Greater
            }
        } else {
            Relation::Greater
        }
    } else if i < b.len() {
        Relation::Less
    } else {
        assert(a@ =~= b@);
        Relation::Equal
    }
}

/// Whether two byte strings are the same.
pub fn same_bytes(a: &[u8], b: &[u8]) -> (res: bool)
    ensures
        res == (a@ == b@),
{
    if a.len() != b.len() {
        return false;
    }
    let mut i: usize = 0;
    while i < a.len()
        invariant
            i <= a@.len(),
            a@.len() == b@.len(),
            forall|j: int| 0 <= j < i ==> a@[j] == b@[j],
        decreases a@.len() - i,
    {
        if a[i] != b[i] {
            return false;
        }
        i += 1;
    }
    assert(a@ =~= b@);
    true
}

/// The position of the last byte of `s` for which `pred` holds, if any.
pub open spec fn last_position(s: Seq<u8>, pred: spec_fn(u8) -> bool) -> Option<int>
    decreases s.len(),
{
    if s.len() == 0 {
        None
    } else if pred(s.last()) {
        Some(s.len() - 1)
    } else {
        last_position(s.drop_last(), pred)
    }
}

/// What [`last_position`] means: nothing after it satisfies the predicate.
pub proof fn lemma_last_position(s: Seq<u8>, pred: spec_fn(u8) -> bool)
    ensures
        match last_position(s, pred) {
            Some(i) => 0 <= i < s.len() && pred(s[i]) && forall|j: int|
                i < j < s.len() ==> !pred(#[trigger] s[j]),
            None => forall|j: int| 0 <= j < s.len() ==> !pred(#[trigger] s[j]),
        },
    decreases s.len(),
{
    if s.len() > 0 && !pred(s.last()) {
        lemma_last_position(s.drop_last(), pred);
        assert forall|j: int| 0 <= j < s.len() - 1 implies s[j] == s.drop_last()[j] by {}
        match last_position(s.drop_last(), pred) {
            Some(i) => {
                assert forall|j: int| i < j < s.len() implies !pred(#[trigger] s[j]) by {
                    if j < s.len() - 1 {
                        assert(!pred(s.drop_last()[j]));
                    }
                }
            },
            None => {
                assert forall|j: int| 0 <= j < s.len() implies !pred(#[trigger] s[j]) by {
                    if j < s.len() - 1 {
                        assert(!pred(s.drop_last()[j]));
                    }
                }
            },
        }
    }
}

/// [`last_position`] is the only position with that meaning.
pub proof fn lemma_last_position_unique(s: Seq<u8>, pred: spec_fn(u8) -> bool, i: int)
    requires
        0 <= i < s.len(),
        pred(s[i]),
        forall|j: int| i < j < s.len() ==> !pred(#[trigger] s[j]),
    ensures
        last_position(s, pred) == Some(i),
{
    lemma_last_position(s, pred);
}

/// Appends a copy of `src` to `dst`.
pub fn append_bytes(dst: &mut Vec<u8>, src: &[u8])
    ensures
        final(dst)@ == old(dst)@ + src@,
{
    dst.extend_from_slice(src);
    assert(dst@ =~= old(dst)@ + src@);
}

/// A copy of `src[from..to]`.
pub fn copy_range(src: &[u8], from: usize, to: usize) -> (out: Vec<u8>)
    requires
        from <= to <= src@.len(),
    ensures
        out@ == src@.subrange(from as int, to as int),
{
    slice_to_vec(slice_subrange(src, from, to))
}

} // verus!
