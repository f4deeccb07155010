//! A query made ready to run: its substring needles built into finders once,
//! and the literal that the name arena is searched for.

use super::model::{answers, ext_ok, extension, has_literal, name_ok, single_ext};
use super::parse::ParsedQuery;
use super::wildcard::{is_longest_literal, lemma_run_contained, literal_run, run_bytes};
use crate::bytes::{append_bytes, copy_range, lemma_last_position, last_position};
use crate::fold::{folded, lemma_folded_around_ascii};
use crate::index::model::IndexView;
use crate::pieces::texts;
use crate::search::{contains_bytes, finder_needle, is_in, lemma_contains_middle, new_finder};
use crate::types::EntryIdx;
use memchr::memmem::Finder;
use vstd::prelude::*;

verus! {

/// `lit` is text that every match of the query has in its name: a name term, a
/// run of a pattern's literals, or the one extension asked for with its dot.
pub open spec fn guaranteed(q: ParsedQuery, lit: Seq<u8>) -> bool {
    ||| exists|k: int| 0 <= k < q.name_terms@.len() && (#[trigger] q.name_terms@[k])@ == lit
    ||| exists|k: int, a: int, b: int|
        #![trigger run_bytes(q.wildcards@[k].tokens(), a, b)]
        0 <= k < q.wildcards@.len() && literal_run(q.wildcards@[k].tokens(), a, b) && run_bytes(
            q.wildcards@[k].tokens(),
            a,
            b,
        ) == lit
    ||| single_ext(q) is Some && lit == seq![0x2Eu8] + single_ext(q)->0
}

/// `lit` is the candidate at place `k`: the name terms in their order, behind
/// them each pattern's first longest run of literals, last the one extension
/// asked for with its dot.
pub open spec fn offers(q: ParsedQuery, k: int, lit: Seq<u8>) -> bool {
    let names = q.name_terms@.len();
    let patterns = q.wildcards@.len();
    if 0 <= k < names {
        lit == q.name_terms@[k]@
    } else if names <= k < names + patterns {
        is_longest_literal(q.wildcards@[k - names].tokens(), lit)
    } else {
        k == names + patterns && single_ext(q) is Some && lit == seq![0x2Eu8] + single_ext(q)->0
    }
}

/// `lit` is the candidate at place `k`, and every one before it is shorter.
pub open spec fn comes_first(q: ParsedQuery, k: int, lit: Seq<u8>) -> bool {
    &&& offers(q, k, lit)
    &&& forall|j: int, other: Seq<u8>| #[trigger]
        offers(q, j, other) && j < k ==> other.len() < lit.len()
}

/// The length of a literal, 0 where there is none.
spec fn reach(best: Option<Vec<u8>>) -> nat {
    match best {
        Some(b) => b@.len(),
        None => 0,
    }
}

/// `best` is the first longest of the candidates before place `n`, and none
/// where all of them are empty.
spec fn best_before(q: ParsedQuery, n: int, best: Option<Vec<u8>>) -> bool {
    &&& best is Some ==> best->0@.len() > 0 && exists|k: int|
        k < n && #[trigger] comes_first(q, k, best->0@)
    &&& forall|j: int, other: Seq<u8>| #[trigger]
        offers(q, j, other) && j < n ==> other.len() <= reach(best)
}

/// The needles of a list of finders.
pub open spec fn needles(finders: Seq<Finder>) -> Seq<Seq<u8>> {
    finders.map_values(|f: Finder| finder_needle(f))
}

/// Every text of a list is a substring of `hay`.
pub open spec fn all_contained(texts: Seq<Seq<u8>>, hay: Seq<u8>) -> bool {
    forall|k: int| 0 <= k < texts.len() ==> contains_bytes(hay, #[trigger] texts[k])
}

/// A [`ParsedQuery`] whose needles are built into finders once rather than per
/// entry. Patterns and filters are read straight off the query.
pub struct CompiledQuery<'a> {
    name_finders: Vec<Finder<'a>>,
    path_finders: Vec<Finder<'a>>,
    prefilter: Option<Vec<u8>>,
}

/// One finder per term.
fn build_finders<'a>(terms: &'a Vec<Vec<u8>>) -> (finders: Vec<Finder<'a>>)
    ensures
        needles(finders@) == texts(terms@),
{
    let mut finders: Vec<Finder<'a>> = Vec::new();
    let mut i: usize = 0;
    while i < terms.len()
        invariant
            i <= terms@.len(),
            finders@.len() == i,
            forall|k: int| 0 <= k < i ==> finder_needle(#[trigger] finders@[k]) == terms@[k]@,
        decreases terms@.len() - i,
    {
        finders.push(new_finder(terms[i].as_slice()));
        i += 1;
    }
    assert(needles(finders@) =~= texts(terms@));
    finders
}

/// Whether every finder's needle is in `hay`.
fn all_in(finders: &Vec<Finder<'_>>, hay: &[u8]) -> (res: bool)
    ensures
        res == all_contained(needles(finders@), hay@),
{
    let mut i: usize = 0;
    while i < finders.len()
        invariant
            i <= finders@.len(),
            forall|k: int|
                0 <= k < i ==> contains_bytes(hay@, #[trigger] needles(finders@)[k]),
        decreases finders@.len() - i,
    {
        if !is_in(&finders[i], hay) {
            assert(!contains_bytes(hay@, needles(finders@)[i as int]));
            return false;
        }
        i += 1;
    }
    true
}

/// The longer of the best literal so far and a new one; the first stays on a
/// tie, and an empty one is no literal.
fn consider(best: &mut Option<Vec<u8>>, cand: Vec<u8>)
    ensures
        *final(best) == (if cand@.len() > reach(*old(best)) {
            Some(cand)
        } else {
            *old(best)
        }),
{
    let len: usize = match best {
        Some(b) => b.len(),
        None => 0,
    };
    if cand.len() > len {
        *best = Some(cand);
    }
}

/// Considering the candidate at place `n` keeps the first longest one.
proof fn lemma_considered(
    q: ParsedQuery,
    n: int,
    before: Option<Vec<u8>>,
    cand: Option<Vec<u8>>,
    best: Option<Vec<u8>>,
)
    requires
        best_before(q, n, before),
        cand is Some ==> offers(q, n, cand->0@),
        forall|other: Seq<u8>| #[trigger] offers(q, n, other) ==> other.len() <= reach(cand),
        best == (if reach(cand) > reach(before) {
            cand
        } else {
            before
        }),
    ensures
        best_before(q, n + 1, best),
{
    if reach(cand) > reach(before) {
        assert(comes_first(q, n, best->0@));
    }
}

impl<'a> CompiledQuery<'a> {
    /// The needles looked for in names.
    pub closed spec fn name_needles(&self) -> Seq<Seq<u8>> {
        needles(self.name_finders@)
    }

    /// The needles looked for in paths.
    pub closed spec fn path_needles(&self) -> Seq<Seq<u8>> {
        needles(self.path_finders@)
    }

    /// The literal that the name arena is searched for.
    pub closed spec fn prefilter(&self) -> Option<Seq<u8>> {
        match self.prefilter {
            Some(p) => Some(p@),
            None => None,
        }
    }

    /// Made from `q`: the needles are the query's terms, and the literal is the
    /// longest text that every match is bound to have in its name, of equally
    /// long candidates the first.
    pub open spec fn compiles(&self, q: ParsedQuery) -> bool {
        &&& self.name_needles() == texts(q.name_terms@)
        &&& self.path_needles() == texts(q.path_terms@)
        &&& match self.prefilter() {
            Some(p) => {
                &&& has_literal(q)
                &&& p.len() > 0
                &&& guaranteed(q, p)
                &&& exists|k: int| #[trigger] comes_first(q, k, p)
                &&& forall|lit: Seq<u8>| #[trigger] guaranteed(q, lit) ==> lit.len() <= p.len()
            },
            None => !has_literal(q) && forall|lit: Seq<u8>| #[trigger]
                guaranteed(q, lit) ==> lit.len() == 0,
        }
    }

    /// Makes a query ready to run.
    pub fn new(parsed: &'a ParsedQuery) -> (compiled: CompiledQuery<'a>)
        ensures
            compiled.compiles(*parsed),
    {
        let mut best: Option<Vec<u8>> = None;
        let mut i: usize = 0;
        while i < parsed.name_terms.len()
            invariant
                i <= parsed.name_terms@.len(),
                best_before(*parsed, i as int, best),
                best is Some ==> guaranteed(*parsed, best->0@) && has_literal(*parsed),
            decreases parsed.name_terms@.len() - i,
        {
            let term = &parsed.name_terms[i];
            let ghost t = parsed.name_terms@[i as int]@;
            let ghost before = best;
            let cand = copy_range(term.as_slice(), 0, term.len());
            assert(t.subrange(0, t.len() as int) =~= t);
            consider(&mut best, cand);
            assert(guaranteed(*parsed, t));
            proof {
                lemma_considered(*parsed, i as int, before, Some(cand), best);
            }
            i += 1;
        }
        let mut j: usize = 0;
        while j < parsed.wildcards.len()
            invariant
                j <= parsed.wildcards@.len(),
                best_before(*parsed, parsed.name_terms@.len() + j, best),
                best is Some ==> guaranteed(*parsed, best->0@) && has_literal(*parsed),
                forall|k: int, a: int, b: int|
                    0 <= k < j && literal_run(parsed.wildcards@[k].tokens(), a, b) ==> (
                    #[trigger] run_bytes(parsed.wildcards@[k].tokens(), a, b)).len() <= reach(best),
            decreases parsed.wildcards@.len() - j,
        {
            let ghost pat = parsed.wildcards@[j as int].tokens();
            let ghost place = parsed.name_terms@.len() + j;
            let ghost before = best;
            match parsed.wildcards[j].longest_literal() {
                Some(lit) => {
                    proof {
                        let (a, b) = choose|a: int, b: int|
                            literal_run(pat, a, b) && lit@ == #[trigger] run_bytes(pat, a, b);
                        assert(parsed.wildcards@[j as int].tokens()[a] is Literal);
                        assert(guaranteed(*parsed, lit@));
                    }
                    consider(&mut best, lit);
                    proof {
                        lemma_considered(*parsed, place, before, Some(lit), best);
                    }
                },
                None => {
                    assert forall|a: int, b: int| literal_run(pat, a, b) implies false by {
                        assert(pat[a] is Literal);
                    }
                    proof {
                        lemma_considered(*parsed, place, before, None, best);
                    }
                },
            }
            j += 1;
        }
        let ghost place: int = (parsed.name_terms@.len() + parsed.wildcards@.len()) as int;
        let ghost before = best;
        let ghost mut last: Option<Vec<u8>> = None;
        if let Some(exts) = &parsed.filters.ext {
            if exts.len() == 1 && exts[0].len() > 0 {
                let mut lit: Vec<u8> = Vec::new();
                lit.push(0x2E);
                append_bytes(&mut lit, exts[0].as_slice());
                assert(lit@ =~= seq![0x2Eu8] + single_ext(*parsed)->0);
                assert(guaranteed(*parsed, lit@));
                proof {
                    last = Some(lit);
                }
                consider(&mut best, lit);
            }
        }
        proof {
            lemma_considered(*parsed, place, before, last, best);
        }
        let compiled = CompiledQuery {
            name_finders: build_finders(&parsed.name_terms),
            path_finders: build_finders(&parsed.path_terms),
            prefilter: best,
        };
        proof {
            assert forall|k: int| 0 <= k < parsed.name_terms@.len() implies (
            #[trigger] parsed.name_terms@[k])@.len() <= reach(best) by {
                assert(offers(*parsed, k, parsed.name_terms@[k]@));
            }
            if single_ext(*parsed) is Some {
                assert(offers(*parsed, place, seq![0x2Eu8] + single_ext(*parsed)->0));
            }
            if has_literal(*parsed) && best is None {
                if exists|k: int, m: int|
                    #![trigger parsed.wildcards@[k].tokens()[m]]
                    0 <= k < parsed.wildcards@.len() && 0 <= m < parsed.wildcards@[k].tokens().len()
                        && parsed.wildcards@[k].tokens()[m] is Literal {
                    let (k, m) = choose|k: int, m: int|
                        #![trigger parsed.wildcards@[k].tokens()[m]]
                        0 <= k < parsed.wildcards@.len() && 0 <= m
                            < parsed.wildcards@[k].tokens().len()
                            && parsed.wildcards@[k].tokens()[m] is Literal;
                    let pat = parsed.wildcards@[k].tokens();
                    assert(literal_run(pat, m, m + 1));
                    super::wildcard::lemma_run_not_empty(pat, m, m + 1);
                    assert(run_bytes(pat, m, m + 1).len() == 0);
                }
            }
        }
        compiled
    }

    /// The prefilter literal.
    pub fn driver(&self) -> (lit: Option<&Vec<u8>>)
        ensures
            match lit {
                Some(l) => self.prefilter() == Some(l@),
                None => self.prefilter() is None,
            },
    {
        self.prefilter.as_ref()
    }

    /// Whether every name term is in `hay`.
    pub fn names_in(&self, hay: &[u8]) -> (res: bool)
        ensures
            res == all_contained(self.name_needles(), hay@),
    {
        all_in(&self.name_finders, hay)
    }

    /// Whether every path term is in `hay`.
    pub fn paths_in(&self, hay: &[u8]) -> (res: bool)
        ensures
            res == all_contained(self.path_needles(), hay@),
    {
        all_in(&self.path_finders, hay)
    }
}

/// A name with the one wanted extension has it, dot included, in its folded
/// form.
proof fn lemma_ext_contained(name: Seq<u8>, ext: Seq<u8>)
    requires
        extension(name) is Some,
        folded(extension(name)->0) == ext,
    ensures
        contains_bytes(folded(name), seq![0x2Eu8] + ext),
{
    let dotted = |b: u8| b == 0x2E;
    lemma_last_position(name, dotted);
    let dot = last_position(name, dotted)->0;
    let head = name.take(dot);
    let tail = name.skip(dot + 1);
    assert(name =~= head + seq![0x2Eu8] + tail);
    lemma_folded_around_ascii(head, 0x2E, tail);
    let lit = seq![0x2Eu8] + ext;
    let none = Seq::<u8>::empty();
    assert(folded(name) =~= folded(head) + lit + none);
    lemma_contains_middle(folded(head), lit, none);
}

/// What a query guarantees is in the folded name of every match, where the case
/// does not count.
pub proof fn lemma_guaranteed(
    v: IndexView,
    q: ParsedQuery,
    scope: Option<EntryIdx>,
    i: EntryIdx,
    lit: Seq<u8>,
)
    requires
        answers(v, q, scope, i),
        !q.match_case,
        guaranteed(q, lit),
    ensures
        contains_bytes(v.folded_name(i), lit),
{
    let hay = v.folded_name(i);
    assert(name_ok(q, hay));
    if exists|k: int| 0 <= k < q.name_terms@.len() && (#[trigger] q.name_terms@[k])@ == lit {
    } else if exists|k: int, a: int, b: int|
        #![trigger run_bytes(q.wildcards@[k].tokens(), a, b)]
        0 <= k < q.wildcards@.len() && literal_run(q.wildcards@[k].tokens(), a, b) && run_bytes(
            q.wildcards@[k].tokens(),
            a,
            b,
        ) == lit {
        let (k, a, b) = choose|k: int, a: int, b: int|
            #![trigger run_bytes(q.wildcards@[k].tokens(), a, b)]
            0 <= k < q.wildcards@.len() && literal_run(q.wildcards@[k].tokens(), a, b)
                && run_bytes(q.wildcards@[k].tokens(), a, b) == lit;
        lemma_run_contained(q.wildcards@[k].tokens(), hay, a, b);
    } else {
        assert(ext_ok(q.filters, v.name(i)));
        lemma_ext_contained(v.name(i), single_ext(q)->0);
    }
}

} // verus!
