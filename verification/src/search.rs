//! Substring search, by way of `memchr`'s prebuilt finders.

use memchr::memmem::Finder;
use vstd::prelude::*;

verus! {

/// A `memchr` substring finder, fixed to one needle.
#[verifier::external_type_specification]
#[verifier::external_body]
pub struct ExFinder<'n>(memchr::memmem::Finder<'n>);

/// The needle that a finder was built for.
pub uninterp spec fn finder_needle(finder: Finder) -> Seq<u8>;

/// `needle` stands in `hay` at position `i`.
pub open spec fn occurs_at(hay: Seq<u8>, needle: Seq<u8>, i: int) -> bool {
    &&& 0 <= i
    &&& i + needle.len() <= hay.len()
    &&& hay.subrange(i, i + needle.len()) == needle
}

/// `needle` is a substring of `hay`.
pub open spec fn contains_bytes(hay: Seq<u8>, needle: Seq<u8>) -> bool {
    exists|i: int| occurs_at(hay, needle, i)
}

/// Where the search for the `k`-th of the non-overlapping occurrences `at`
/// starts: behind the occurrence before it.
pub open spec fn search_start(needle: Seq<u8>, at: Seq<usize>, k: int) -> int {
    if k <= 0 {
        0
    } else {
        at[k - 1] + if needle.len() == 0 {
            1
        } else {
            needle.len() as int
        }
    }
}

/// The `k`-th of the occurrences `at` is the first at or behind the end of the
/// one before it.
pub open spec fn follows_on(hay: Seq<u8>, needle: Seq<u8>, at: Seq<usize>, k: int) -> bool {
    &&& search_start(needle, at, k) <= at[k]
    &&& occurs_at(hay, needle, at[k] as int)
    &&& forall|j: int| search_start(needle, at, k) <= j < at[k] ==> !occurs_at(hay, needle, j)
}

/// `at` lists the non-overlapping occurrences of `needle` in `hay`, leftmost
/// first: each follows on the one before it, and none follows the last.
pub open spec fn non_overlapping(hay: Seq<u8>, needle: Seq<u8>, at: Seq<usize>) -> bool {
    &&& forall|k: int| 0 <= k < at.len() ==> #[trigger] follows_on(hay, needle, at, k)
    &&& forall|j: int|
        search_start(needle, at, at.len() as int) <= j ==> !occurs_at(hay, needle, j)
}

/// Builds a finder with `memchr::memmem::Finder::new`; the finder keeps the
/// needle it was given.
#[verifier::external_body]
pub(crate) fn new_finder<'n>(needle: &'n [u8]) -> (finder: Finder<'n>)
    ensures
        finder_needle(finder) == needle@,
{
    Finder::new(needle)
}

/// Searches with `memchr::memmem::Finder::find`, which gives the first
/// occurrence of the finder's needle, or nothing where there is none.
#[verifier::external_body]
pub(crate) fn find(finder: &Finder, hay: &[u8]) -> (at: Option<usize>)
    ensures
        match at {
            Some(i) => occurs_at(hay@, finder_needle(*finder), i as int) && forall|j: int|
                0 <= j < i ==> !occurs_at(hay@, finder_needle(*finder), j),
            None => !contains_bytes(hay@, finder_needle(*finder)),
        },
{
    finder.find(hay)
}

/// Collects `memchr::memmem::Finder::find_iter`: the non-overlapping
/// occurrences of the finder's needle, leftmost first.
#[verifier::external_body]
pub(crate) fn find_all(finder: &Finder, hay: &[u8]) -> (at: Vec<usize>)
    ensures
        non_overlapping(hay@, finder_needle(*finder), at@),
{
    finder.find_iter(hay).collect()
}

/// Whether the finder's needle is a substring of `hay`.
pub(crate) fn is_in(finder: &Finder, hay: &[u8]) -> (res: bool)
    ensures
        res == contains_bytes(hay@, finder_needle(*finder)),
{
    find(finder, hay).is_some()
}

/// Every byte string is a substring of itself put in any context.
pub proof fn lemma_contains_middle(a: Seq<u8>, s: Seq<u8>, b: Seq<u8>)
    ensures
        contains_bytes(a + s + b, s),
{
    let hay = a + s + b;
    assert(hay.subrange(a.len() as int, (a.len() + s.len()) as int) =~= s);
    assert(occurs_at(hay, s, a.len() as int));
}

} // verus!
