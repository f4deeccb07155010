//! Whole-name patterns with `*` and `?`.

use crate::bytes::copy_range;
use crate::search::contains_bytes;
use crate::wtf8::{
    joined, lemma_joined_add, lemma_joined_units, push_unit, unit_bytes, units, CodePointBuf,
};
use vstd::prelude::*;

verus! {

/// One element of a pattern.
#[derive(Clone, Copy, Debug, PartialEq, Eq, Structural)]
pub enum WildToken {
    /// This code point.
    Literal(u32),
    /// Any one code point.
    AnyOne,
    /// Any number of code points, none included.
    AnyRun,
}

/// A pattern that a whole name has to match.
pub struct Wildcard {
    tokens: Vec<WildToken>,
}

/// What one code point of a pattern's text stands for.
pub open spec fn token_of(code: u32) -> WildToken {
    if code == 0x2A {
        WildToken::AnyRun
    } else if code == 0x3F {
        WildToken::AnyOne
    } else {
        WildToken::Literal(code)
    }
}

/// The pattern that a text spells.
pub open spec fn pattern(text: Seq<u8>) -> Seq<WildToken> {
    units(text).map_values(|c: u32| token_of(c))
}

/// `codes` as a whole is as the pattern says.
pub open spec fn wild_matches(pat: Seq<WildToken>, codes: Seq<u32>) -> bool
    decreases pat.len(), codes.len(),
{
    if pat.len() == 0 {
        codes.len() == 0
    } else {
        match pat[0] {
            WildToken::Literal(c) => codes.len() > 0 && codes[0] == c && wild_matches(
                pat.drop_first(),
                codes.drop_first(),
            ),
            WildToken::AnyOne => codes.len() > 0 && wild_matches(
                pat.drop_first(),
                codes.drop_first(),
            ),
            WildToken::AnyRun => wild_matches(pat.drop_first(), codes) || (codes.len() > 0
                && wild_matches(pat, codes.drop_first())),
        }
    }
}

/// From `a` up to `b` the pattern holds literals only.
pub open spec fn literal_run(pat: Seq<WildToken>, a: int, b: int) -> bool {
    &&& 0 <= a < b <= pat.len()
    &&& forall|k: int| a <= k < b ==> #[trigger] pat[k] is Literal
}

/// The literals from `a` up to `b`, as bytes.
pub open spec fn run_bytes(pat: Seq<WildToken>, a: int, b: int) -> Seq<u8> {
    joined(run_codes(pat, a, b))
}

/// The literals from `a` up to `b`.
pub open spec fn run_codes(pat: Seq<WildToken>, a: int, b: int) -> Seq<u32> {
    pat.subrange(a, b).map_values(|t: WildToken| t->Literal_0)
}

/// Of the runs of literals that end at `n` or before, the one from `a` up to `b`
/// has the most bytes, and none that ends before it has as many.
pub open spec fn first_longest(pat: Seq<WildToken>, n: int, a: int, b: int) -> bool {
    &&& literal_run(pat, a, b)
    &&& b <= n
    &&& forall|c: int, d: int|
        d <= n && literal_run(pat, c, d) ==> (#[trigger] run_bytes(pat, c, d)).len() <= run_bytes(
            pat,
            a,
            b,
        ).len()
    &&& forall|c: int, d: int|
        d < b && literal_run(pat, c, d) ==> (#[trigger] run_bytes(pat, c, d)).len() < run_bytes(
            pat,
            a,
            b,
        ).len()
}

/// `lit` is the pattern's longest run of literals, as bytes, the first of
/// equally long ones.
pub open spec fn is_longest_literal(pat: Seq<WildToken>, lit: Seq<u8>) -> bool {
    exists|a: int, b: int|
        first_longest(pat, pat.len() as int, a, b) && lit == #[trigger] run_bytes(pat, a, b)
}

/// What a match holds in the place of a run of literals: its code points
/// before the run, the run, and its code points behind it.
proof fn lemma_run_in_match(pat: Seq<WildToken>, codes: Seq<u32>, a: int, b: int) -> (split: (
    Seq<u32>,
    Seq<u32>,
))
    requires
        wild_matches(pat, codes),
        literal_run(pat, a, b),
    ensures
        codes == split.0 + run_codes(pat, a, b) + split.1,
    decreases pat.len(), codes.len(),
{
    let rest = pat.drop_first();
    if a > 0 {
        assert forall|k: int| a - 1 <= k < b - 1 implies #[trigger] rest[k] is Literal by {
            assert(pat[k + 1] is Literal);
        }
        assert(run_codes(rest, a - 1, b - 1) =~= run_codes(pat, a, b));
        if pat[0] is AnyRun && wild_matches(rest, codes) {
            lemma_run_in_match(rest, codes, a - 1, b - 1)
        } else if pat[0] is AnyRun {
            let (x, y) = lemma_run_in_match(pat, codes.drop_first(), a, b);
            assert(codes =~= seq![codes[0]] + codes.drop_first());
            assert(codes =~= (seq![codes[0]] + x) + run_codes(pat, a, b) + y);
            (seq![codes[0]] + x, y)
        } else {
            let (x, y) = lemma_run_in_match(rest, codes.drop_first(), a - 1, b - 1);
            assert(codes =~= seq![codes[0]] + codes.drop_first());
            assert(codes =~= (seq![codes[0]] + x) + run_codes(pat, a, b) + y);
            (seq![codes[0]] + x, y)
        }
    } else {
        assert(pat[0] is Literal);
        let c = pat[0]->Literal_0;
        assert(codes[0] == c);
        if b == 1 {
            assert(run_codes(pat, 0, 1) =~= seq![c]);
            let none = Seq::<u32>::empty();
            assert(codes =~= none + run_codes(pat, 0, 1) + codes.drop_first());
            (none, codes.drop_first())
        } else {
            lemma_prefix_in_match(pat, codes, b);
            let none = Seq::<u32>::empty();
            assert(codes =~= none + run_codes(pat, 0, b) + codes.skip(b));
            (none, codes.skip(b))
        }
    }
}

/// A match starts with the literals that the pattern starts with.
proof fn lemma_prefix_in_match(pat: Seq<WildToken>, codes: Seq<u32>, b: int)
    requires
        wild_matches(pat, codes),
        literal_run(pat, 0, b),
    ensures
        b <= codes.len(),
        codes.take(b) == run_codes(pat, 0, b),
    decreases b,
{
    assert(pat[0] is Literal);
    let rest = pat.drop_first();
    if b == 1 {
        assert(codes.take(1) =~= run_codes(pat, 0, 1));
    } else {
        assert forall|k: int| 0 <= k < b - 1 implies #[trigger] rest[k] is Literal by {
            assert(pat[k + 1] is Literal);
        }
        lemma_prefix_in_match(rest, codes.drop_first(), b - 1);
        assert forall|k: int| 0 <= k < b implies codes.take(b)[k] == run_codes(pat, 0, b)[k] by {
            if k > 0 {
                assert(codes.drop_first().take(b - 1)[k - 1] == run_codes(rest, 0, b - 1)[k - 1]);
            }
        }
        assert(codes.take(b) =~= run_codes(pat, 0, b));
    }
}

/// Every name that matches holds each run of the pattern's literals.
pub proof fn lemma_run_contained(pat: Seq<WildToken>, name: Seq<u8>, a: int, b: int)
    requires
        wild_matches(pat, units(name)),
        literal_run(pat, a, b),
    ensures
        contains_bytes(name, run_bytes(pat, a, b)),
{
    let (x, y) = lemma_run_in_match(pat, units(name), a, b);
    let run = run_codes(pat, a, b);
    lemma_joined_units(name);
    lemma_joined_add(x + run, y);
    lemma_joined_add(x, run);
    assert(name == joined(x) + joined(run) + joined(y));
    crate::search::lemma_contains_middle(joined(x), joined(run), joined(y));
}

/// A run of literals has at least one byte.
pub proof fn lemma_run_not_empty(pat: Seq<WildToken>, a: int, b: int)
    requires
        literal_run(pat, a, b),
    ensures
        run_bytes(pat, a, b).len() > 0,
{
    let codes = run_codes(pat, a, b);
    assert(joined(codes) == unit_bytes(codes[0]) + joined(codes.drop_first()));
}

/// What each element of a pattern stands for on its own: a literal for itself,
/// `?` for any one code point, `*` for any run of them, and no element for
/// nothing.
pub proof fn law_single_elements(c: u32, codes: Seq<u32>)
    ensures
        wild_matches(seq![], codes) <==> codes.len() == 0,
        wild_matches(seq![WildToken::Literal(c)], codes) <==> codes == seq![c],
        wild_matches(seq![WildToken::AnyOne], codes) <==> codes.len() == 1,
        wild_matches(seq![WildToken::AnyRun], codes),
    decreases codes.len(),
{
    let none = Seq::<WildToken>::empty();
    let literal = seq![WildToken::Literal(c)];
    let one = seq![WildToken::AnyOne];
    let run = seq![WildToken::AnyRun];
    assert(literal.drop_first() =~= none);
    assert(one.drop_first() =~= none);
    assert(run.drop_first() =~= none);
    if codes.len() > 0 {
        law_single_elements(c, codes.drop_first());
        assert(wild_matches(none, codes.drop_first()) <==> codes.drop_first().len() == 0);
        if codes.len() == 1 && codes[0] == c {
            assert(codes =~= seq![c]);
        }
    }
}

/// A pattern made of two matches exactly what can be cut into a match of the one
/// and a match of the other.
pub proof fn law_patterns_in_a_row(p: Seq<WildToken>, q: Seq<WildToken>, codes: Seq<u32>)
    ensures
        wild_matches(p + q, codes) <==> exists|n: int|
            0 <= n <= codes.len() && #[trigger] wild_matches(p, codes.take(n)) && wild_matches(
                q,
                codes.skip(n),
            ),
    decreases p.len(), codes.len(),
{
    let both = p + q;
    if p.len() == 0 {
        assert(both =~= q);
        assert(codes.take(0) =~= Seq::<u32>::empty());
        assert(codes.skip(0) =~= codes);
        assert(wild_matches(p, codes.take(0)));
        assert forall|n: int|
            0 <= n <= codes.len() && #[trigger] wild_matches(p, codes.take(n)) implies n == 0 by {
            assert(codes.take(n).len() == n);
        }
    } else {
        assert(both[0] == p[0]);
        assert(both.drop_first() =~= p.drop_first() + q);
        law_patterns_in_a_row(p.drop_first(), q, codes);
        if codes.len() > 0 {
            law_patterns_in_a_row(p.drop_first(), q, codes.drop_first());
            law_patterns_in_a_row(p, q, codes.drop_first());
            let rest = codes.drop_first();
            assert forall|n: int| 1 <= n <= codes.len() implies #[trigger] codes.take(
                n,
            ).drop_first() == rest.take(n - 1) && codes.skip(n) == rest.skip(n - 1) by {
                assert(codes.take(n).drop_first() =~= rest.take(n - 1));
                assert(codes.skip(n) =~= rest.skip(n - 1));
            }
            lemma_row_forth(p, q, codes);
            lemma_row_back(p, q, codes);
        } else {
            assert(codes.take(0) =~= codes);
            assert(codes.skip(0) =~= codes);
            lemma_row_empty(p, q, codes);
        }
    }
}

/// Some cut of `codes` gives a match of `p` and a match of `q`.
spec fn cuts(p: Seq<WildToken>, q: Seq<WildToken>, codes: Seq<u32>) -> bool {
    exists|n: int|
        0 <= n <= codes.len() && #[trigger] wild_matches(p, codes.take(n)) && wild_matches(
            q,
            codes.skip(n),
        )
}

proof fn lemma_row_empty(p: Seq<WildToken>, q: Seq<WildToken>, codes: Seq<u32>)
    requires
        p.len() > 0,
        codes.len() == 0,
        wild_matches((p + q).drop_first(), codes) == cuts(p.drop_first(), q, codes),
        codes.take(0) == codes,
        codes.skip(0) == codes,
    ensures
        wild_matches(p + q, codes) == cuts(p, q, codes),
{
    assert((p + q)[0] == p[0]);
    if cuts(p.drop_first(), q, codes) {
        assert(wild_matches(p.drop_first(), codes.take(0)));
    }
    if wild_matches(p + q, codes) {
        assert(wild_matches(p, codes.take(0)));
    }
    if cuts(p, q, codes) {
        assert(wild_matches(p.drop_first(), codes.take(0)));
    }
}

proof fn lemma_row_forth(p: Seq<WildToken>, q: Seq<WildToken>, codes: Seq<u32>)
    requires
        p.len() > 0,
        codes.len() > 0,
        wild_matches(p.drop_first() + q, codes) == cuts(p.drop_first(), q, codes),
        wild_matches(p.drop_first() + q, codes.drop_first()) == cuts(
            p.drop_first(),
            q,
            codes.drop_first(),
        ),
        wild_matches(p + q, codes.drop_first()) == cuts(p, q, codes.drop_first()),
    ensures
        wild_matches(p + q, codes) ==> cuts(p, q, codes),
{
    let both = p + q;
    let rest = codes.drop_first();
    assert(both[0] == p[0]);
    assert(both.drop_first() =~= p.drop_first() + q);
    if wild_matches(both, codes) {
        if p[0] is AnyRun && wild_matches(both.drop_first(), codes) {
            let n = choose|n: int|
                0 <= n <= codes.len() && #[trigger] wild_matches(p.drop_first(), codes.take(n))
                    && wild_matches(q, codes.skip(n));
            assert(wild_matches(p, codes.take(n)));
        } else {
            let tail = if p[0] is AnyRun {
                p
            } else {
                p.drop_first()
            };
            assert(cuts(tail, q, rest));
            let n = choose|n: int|
                0 <= n <= rest.len() && #[trigger] wild_matches(tail, rest.take(n))
                    && wild_matches(q, rest.skip(n));
            assert(codes.take(n + 1).drop_first() =~= rest.take(n));
            assert(codes.skip(n + 1) =~= rest.skip(n));
            assert(codes.take(n + 1)[0] == codes[0]);
            assert(wild_matches(p, codes.take(n + 1)));
        }
    }
}

proof fn lemma_row_back(p: Seq<WildToken>, q: Seq<WildToken>, codes: Seq<u32>)
    requires
        p.len() > 0,
        codes.len() > 0,
        wild_matches(p.drop_first() + q, codes) == cuts(p.drop_first(), q, codes),
        wild_matches(p.drop_first() + q, codes.drop_first()) == cuts(
            p.drop_first(),
            q,
            codes.drop_first(),
        ),
        wild_matches(p + q, codes.drop_first()) == cuts(p, q, codes.drop_first()),
    ensures
        cuts(p, q, codes) ==> wild_matches(p + q, codes),
{
    let both = p + q;
    let rest = codes.drop_first();
    assert(both[0] == p[0]);
    assert(both.drop_first() =~= p.drop_first() + q);
    if cuts(p, q, codes) {
        let n = choose|n: int|
            0 <= n <= codes.len() && #[trigger] wild_matches(p, codes.take(n)) && wild_matches(
                q,
                codes.skip(n),
            );
        if p[0] is AnyRun && wild_matches(p.drop_first(), codes.take(n)) {
            assert(cuts(p.drop_first(), q, codes));
        } else {
            assert(n > 0);
            assert(codes.take(n).drop_first() =~= rest.take(n - 1));
            assert(codes.skip(n) =~= rest.skip(n - 1));
            assert(codes.take(n)[0] == codes[0]);
            if p[0] is AnyRun {
                assert(wild_matches(p, rest.take(n - 1)));
            } else {
                assert(wild_matches(p.drop_first(), rest.take(n - 1)));
            }
        }
    }
}

/// What a pattern's text spells: `*` a run, `?` any one code point, and any
/// other ASCII byte itself, whatever stands around it.
pub proof fn law_pattern_text(front: Seq<u8>, b: u8, back: Seq<u8>)
    requires
        b < 0x80,
    ensures
        pattern(front + seq![b] + back) == pattern(front) + seq![
            if b == 0x2A {
                WildToken::AnyRun
            } else if b == 0x3F {
                WildToken::AnyOne
            } else {
                WildToken::Literal(b as u32)
            },
        ] + pattern(back),
{
    let text = front + seq![b] + back;
    let tail = seq![b] + back;
    assert(text =~= front + tail);
    crate::wtf8::lemma_units_add(front, tail);
    assert(tail[0] == b);
    assert(tail.skip(1) =~= back);
    assert(units(tail) =~= seq![b as u32] + units(back));
    assert(pattern(text) =~= pattern(front) + seq![token_of(b as u32)] + pattern(back));
}

/// A pattern's text without `*` and `?` spells itself, code point by code point.
pub proof fn law_plain_pattern(text: Seq<u8>)
    requires
        forall|k: int| 0 <= k < units(text).len() ==> #[trigger] units(text)[k] != 0x2A && units(text)[k] != 0x3F,
    ensures
        pattern(text) == units(text).map_values(|c: u32| WildToken::Literal(c)),
{
    assert(pattern(text) =~= units(text).map_values(|c: u32| WildToken::Literal(c)));
}

impl Wildcard {
    /// The pattern's elements.
    pub closed spec fn tokens(&self) -> Seq<WildToken> {
        self.tokens@
    }

    /// The pattern that `text` spells.
    pub fn new(text: &[u8]) -> (w: Wildcard)
        ensures
            w.tokens() == pattern(text@),
    {
        let mut buf = CodePointBuf::new();
        buf.fill(text);
        let codes = buf.as_slice();
        let mut tokens: Vec<WildToken> = Vec::new();
        let mut i: usize = 0;
        while i < codes.len()
            invariant
                codes@ == units(text@),
                i <= codes@.len(),
                tokens@ == codes@.take(i as int).map_values(|c: u32| token_of(c)),
            decreases codes@.len() - i,
        {
            let c = codes[i];
            let t = if c == 0x2A {
                WildToken::AnyRun
            } else if c == 0x3F {
                WildToken::AnyOne
            } else {
                WildToken::Literal(c)
            };
            tokens.push(t);
            assert(codes@.take(i + 1) =~= codes@.take(i as int).push(c));
            i += 1;
            assert(tokens@ =~= codes@.take(i as int).map_values(|c: u32| token_of(c)));
        }
        assert(codes@.take(i as int) =~= codes@);
        Wildcard { tokens }
    }

    /// Whether `name` as a whole is as the pattern says; `buf` is scratch space.
    pub fn matches_into(&self, name: &[u8], buf: &mut CodePointBuf) -> (res: bool)
        ensures
            res == wild_matches(self.tokens(), units(name@)),
    {
        buf.fill(name);
        let codes = buf.as_slice();
        let n = codes.len();
        let ghost pat = self.tokens@;
        // ahead[j]: the tokens behind the current one match the codes from j on.
        let mut ahead: Vec<bool> = Vec::new();
        let mut j: usize = 0;
        while j < n
            invariant
                codes@ == units(name@),
                n == codes@.len(),
                j <= n,
                ahead@.len() == j,
                forall|k: int|
                    0 <= k < j ==> #[trigger] ahead@[k] == wild_matches(
                        pat.skip(pat.len() as int),
                        codes@.skip(k),
                    ),
            decreases n - j,
        {
            ahead.push(false);
            j += 1;
        }
        ahead.push(true);
        let mut i: usize = self.tokens.len();
        while i > 0
            invariant
                codes@ == units(name@),
                n == codes@.len(),
                i <= self.tokens@.len(),
                pat == self.tokens@,
                ahead@.len() == n + 1,
                forall|k: int|
                    0 <= k <= n ==> #[trigger] ahead@[k] == wild_matches(
                        pat.skip(i as int),
                        codes@.skip(k),
                    ),
            decreases i,
        {
            i -= 1;
            let token = self.tokens[i];
            let ghost here = pat.skip(i as int);
            assert(here.drop_first() =~= pat.skip(i + 1));
            assert(here[0] == token);
            let ghost behind = ahead@;
            match token {
                WildToken::AnyRun => {
                    // From the end: here[j] = ahead[j] or here[j + 1].
                    let mut k: usize = n;
                    while k > 0
                        invariant
                            codes@ == units(name@),
                            n == codes@.len(),
                            k <= n,
                            ahead@.len() == n + 1,
                            behind.len() == n + 1,
                            here.len() > 0,
                            here[0] == WildToken::AnyRun,
                            forall|m: int|
                                0 <= m <= n ==> #[trigger] behind[m] == wild_matches(
                                    here.drop_first(),
                                    codes@.skip(m),
                                ),
                            forall|m: int| 0 <= m < k ==> #[trigger] ahead@[m] == behind[m],
                            forall|m: int|
                                k <= m <= n ==> #[trigger] ahead@[m] == wild_matches(
                                    here,
                                    codes@.skip(m),
                                ),
                        decreases k,
                    {
                        k -= 1;
                        assert(codes@.skip(k as int).drop_first() =~= codes@.skip(k + 1));
                        assert(ahead@[k as int] == behind[k as int]);
                        assert(ahead@[k + 1] == wild_matches(here, codes@.skip(k + 1)));
                        let hit = ahead[k] || ahead[k + 1];
                        ahead.set(k, hit);
                    }
                },
                _ => {
                    let mut k: usize = 0;
                    while k < n
                        invariant
                            codes@ == units(name@),
                            n == codes@.len(),
                            k <= n,
                            ahead@.len() == n + 1,
                            behind.len() == n + 1,
                            here.len() > 0,
                            here[0] == token,
                            token !is AnyRun,
                            forall|m: int|
                                0 <= m <= n ==> #[trigger] behind[m] == wild_matches(
                                    here.drop_first(),
                                    codes@.skip(m),
                                ),
                            forall|m: int| k <= m <= n ==> #[trigger] ahead@[m] == behind[m],
                            forall|m: int|
                                0 <= m < k ==> #[trigger] ahead@[m] == wild_matches(
                                    here,
                                    codes@.skip(m),
                                ),
                        decreases n - k,
                    {
                        assert(codes@.skip(k as int).drop_first() =~= codes@.skip(k + 1));
                        assert(ahead@[k + 1] == behind[k + 1]);
                        let same = match token {
                            WildToken::Literal(c) => codes[k] == c,
                            _ => true,
                        };
                        let hit = same && ahead[k + 1];
                        ahead.set(k, hit);
                        k += 1;
                    }
                    ahead.set(n, false);
                },
            }
        }
        assert(pat.skip(0) =~= pat);
        assert(codes@.skip(0) =~= codes@);
        ahead[0]
    }

    /// The longest run of literals, as bytes, the first of equally long ones.
    /// Every name that matches contains it.
    pub fn longest_literal(&self) -> (lit: Option<Vec<u8>>)
        ensures
            match lit {
                Some(l) => is_longest_literal(self.tokens(), l@),
                None => forall|k: int|
                    0 <= k < self.tokens().len() ==> #[trigger] self.tokens()[k] !is Literal,
            },
    {
        let ghost pat = self.tokens@;
        let mut best: Option<Vec<u8>> = None;
        let mut run: Vec<u8> = Vec::new();
        let mut i: usize = 0;
        let ghost mut s: int = 0;
        assert(run@ =~= run_bytes(pat, 0, 0));
        while i < self.tokens.len()
            invariant
                pat == self.tokens@,
                i <= pat.len(),
                0 <= s <= i,
                s == 0 || pat[s - 1] !is Literal,
                forall|k: int| s <= k < i ==> #[trigger] pat[k] is Literal,
                run@ == run_bytes(pat, s, i as int),
                match best {
                    Some(l) => exists|a: int, b: int|
                        first_longest(pat, i as int, a, b) && l@ == #[trigger] run_bytes(pat, a, b),
                    None => forall|k: int| 0 <= k < i ==> #[trigger] pat[k] !is Literal,
                },
            decreases pat.len() - i,
        {
            match self.tokens[i] {
                WildToken::Literal(c) => {
                    let ghost before = run@;
                    push_unit(&mut run, c);
                    proof {
                        assert(run_codes(pat, s, i + 1) =~= run_codes(pat, s, i as int) + seq![c]);
                        lemma_joined_add(run_codes(pat, s, i as int), seq![c]);
                        assert(seq![c].drop_first() =~= Seq::<u32>::empty());
                        assert(joined(seq![c].drop_first()) =~= Seq::<u8>::empty());
                        assert(joined(seq![c]) =~= unit_bytes(c));
                        assert(literal_run(pat, s, i + 1));
                        assert forall|a: int, b: int|
                            b <= i + 1 && literal_run(pat, a, b) && b == i + 1 implies (
                        #[trigger] run_bytes(pat, a, b)).len() <= run@.len() by {
                            if a < s {
                                assert(pat[s - 1] is Literal);
                            }
                            assert(run_codes(pat, s, b) =~= run_codes(pat, s, a) + run_codes(
                                pat,
                                a,
                                b,
                            ));
                            lemma_joined_add(run_codes(pat, s, a), run_codes(pat, a, b));
                        }
                    }
                    let longer = match &best {
                        Some(l) => run.len() > l.len(),
                        None => true,
                    };
                    if longer {
                        best = Some(copy_range(run.as_slice(), 0, run.len()));
                        assert(best->0@ =~= run@);
                        assert(best->0@ == run_bytes(pat, s, i + 1));
                    }
                },
                _ => {
                    run.clear();
                    proof {
                        s = i + 1;
                        assert(run@ =~= run_bytes(pat, s, i + 1));
                        assert forall|a: int, b: int|
                            b <= i + 1 && literal_run(pat, a, b) implies b <= i by {
                            if b == i + 1 {
                                assert(pat[i as int] is Literal);
                            }
                        }
                    }
                },
            }
            i += 1;
        }
        best
    }
}

} // verus!
