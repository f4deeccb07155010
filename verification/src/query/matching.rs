//! What holds of the entries that a query finds, said of their own names,
//! paths, sizes and kinds.

use super::laws::law_matched;
use super::model::{answers, ext_ok, extension, hay, matched, name_ok, terms_in};
use super::parse::{Kind, ParsedQuery};
use super::wildcard::wild_matches;
use crate::bytes::{last_position, lemma_last_position, lemma_last_position_unique};
use crate::fold::folded;
use crate::index::model::IndexView;
use crate::pieces::texts;
use crate::search::{contains_bytes, lemma_contains_middle, occurs_at};
use crate::types::EntryIdx;
use crate::wtf8::units;
use vstd::prelude::*;

verus! {

/// `hay` is `front`, `needle` and `back`, one behind the other.
pub open spec fn stands_between(
    hay: Seq<u8>,
    front: Seq<u8>,
    needle: Seq<u8>,
    back: Seq<u8>,
) -> bool {
    hay == front + needle + back
}

/// `needle` stands somewhere in `hay`.
pub open spec fn stands_in(hay: Seq<u8>, needle: Seq<u8>) -> bool {
    exists|front: Seq<u8>, back: Seq<u8>| #[trigger] stands_between(hay, front, needle, back)
}

/// `name` is a stem, a dot and `ext`, which has no dot in it.
pub open spec fn ends_in(name: Seq<u8>, stem: Seq<u8>, ext: Seq<u8>) -> bool {
    name == stem + seq![0x2Eu8] + ext && !ext.contains(0x2Eu8)
}

/// The search finds a needle where it stands, and nowhere else.
pub proof fn law_substring(hay: Seq<u8>, needle: Seq<u8>)
    ensures
        contains_bytes(hay, needle) <==> stands_in(hay, needle),
{
    if contains_bytes(hay, needle) {
        let i = choose|i: int| occurs_at(hay, needle, i);
        let front = hay.take(i);
        let back = hay.skip(i + needle.len());
        assert(front + needle + back =~= hay);
        assert(stands_between(hay, front, needle, back));
    }
    if stands_in(hay, needle) {
        let (front, back) = choose|front: Seq<u8>, back: Seq<u8>| #[trigger]
            stands_between(hay, front, needle, back);
        lemma_contains_middle(front, needle, back);
    }
}

/// The extension of a name that has a dot is what stands behind its last one.
pub proof fn law_extension(stem: Seq<u8>, ext: Seq<u8>)
    requires
        !ext.contains(0x2Eu8),
    ensures
        extension(stem + seq![0x2Eu8] + ext) == Some(ext),
{
    let name = stem + seq![0x2Eu8] + ext;
    let dotted = |b: u8| b == 0x2E;
    let at = stem.len() as int;
    assert(name[at] == 0x2E);
    assert forall|j: int| at < j < name.len() implies !dotted(#[trigger] name[j]) by {
        assert(name[j] == ext[j - at - 1]);
        assert(ext.contains(ext[j - at - 1]));
    }
    lemma_last_position_unique(name, dotted, at);
    assert(name.skip(at + 1) =~= ext);
}

/// A name without a dot has no extension.
pub proof fn law_no_extension(name: Seq<u8>)
    ensures
        extension(name) is None <==> !name.contains(0x2Eu8),
{
    let dotted = |b: u8| b == 0x2E;
    lemma_last_position(name, dotted);
    if name.contains(0x2Eu8) {
        let k = name.index_of(0x2Eu8);
        assert(dotted(name[k]));
    }
    if extension(name) is Some {
        let k = last_position(name, dotted)->0;
        assert(name[k] == 0x2E);
    }
}

/// A name passes the filter for extensions exactly where it ends in a dot and
/// one of those wanted, whichever of the list it is and whatever its case.
pub proof fn law_wanted_extension(q: ParsedQuery, name: Seq<u8>)
    requires
        q.filters.ext is Some,
    ensures
        ext_ok(q.filters, name) <==> exists|stem: Seq<u8>, ext: Seq<u8>, k: int|
            #![trigger ends_in(name, stem, ext), q.filters.ext->0@[k]]
            ends_in(name, stem, ext) && 0 <= k < q.filters.ext->0@.len()
                && q.filters.ext->0@[k]@ == folded(ext),
{
    let exts = q.filters.ext->0;
    let dotted = |b: u8| b == 0x2E;
    lemma_last_position(name, dotted);
    if ext_ok(q.filters, name) {
        let at = last_position(name, dotted)->0;
        let stem = name.take(at);
        let ext = name.skip(at + 1);
        assert(stem + seq![0x2Eu8] + ext =~= name);
        if ext.contains(0x2Eu8) {
            let j = ext.index_of(0x2Eu8);
            assert(dotted(name[at + 1 + j]));
        }
        assert(ends_in(name, stem, ext));
        let k = choose|k: int| 0 <= k < exts@.len() && #[trigger] exts@[k]@ == folded(ext);
        assert(q.filters.ext->0@[k]@ == folded(ext));
    }
    if exists|stem: Seq<u8>, ext: Seq<u8>, k: int|
        #![trigger ends_in(name, stem, ext), q.filters.ext->0@[k]]
        ends_in(name, stem, ext) && 0 <= k < q.filters.ext->0@.len() && q.filters.ext->0@[k]@
            == folded(ext) {
        let (stem, ext, k) = choose|stem: Seq<u8>, ext: Seq<u8>, k: int|
            #![trigger ends_in(name, stem, ext), q.filters.ext->0@[k]]
            ends_in(name, stem, ext) && 0 <= k < q.filters.ext->0@.len() && q.filters.ext->0@[k]@
                == folded(ext);
        law_extension(stem, ext);
        assert(exts@[k]@ == folded(ext));
    }
}

/// Every text of a list stands in `hay`.
proof fn lemma_terms(terms: Seq<Vec<u8>>, hay: Seq<u8>)
    ensures
        terms_in(terms, hay) <==> forall|k: int|
            0 <= k < terms.len() ==> stands_in(hay, #[trigger] terms[k]@),
{
    assert forall|k: int| 0 <= k < terms.len() implies contains_bytes(hay, #[trigger] terms[k]@)
        == stands_in(hay, terms[k]@) by {
        law_substring(hay, terms[k]@);
    }
}

/// What a query finds, said outright. It finds an entry in use exactly where
///
/// - the entry is of the volume and not made up by the index, and has a path;
/// - it is a file, or a folder, where the query wants one;
/// - its size is known and within the range, where the query gives one;
/// - its name, folded unless the case counts, holds every term for names and is
///   as a whole as every pattern says;
/// - its path, folded unless the case counts, holds every term for paths;
/// - its name ends in one of the extensions, where the query gives some;
/// - it lies under the scope's folder, where the query has a scope.
pub proof fn law_found(v: IndexView, q: ParsedQuery, scope: Option<EntryIdx>, i: EntryIdx)
    requires
        v.wf(),
        scope is Some ==> v.in_range(scope->0),
    ensures
        matched(v, q, scope).contains(i) <==> {
            let e = v.entry(i);
            let name = v.name(i);
            let path = v.path_of(i)->0;
            let shown = if q.match_case {
                name
            } else {
                folded(name)
            };
            let along = if q.match_case {
                path
            } else {
                folded(path)
            };
            &&& v.live(i)
            &&& !e.synthetic
            &&& v.path_of(i) is Some
            &&& q.filters.kind == Some(Kind::File) ==> !e.is_dir
            &&& q.filters.kind == Some(Kind::Folder) ==> e.is_dir
            &&& q.filters.size is Some ==> e.size is Some && q.filters.size->0.min <= e.size->0
                && e.size->0 <= q.filters.size->0.max
            &&& forall|k: int|
                0 <= k < q.name_terms@.len() ==> stands_in(shown, #[trigger] q.name_terms@[k]@)
            &&& forall|k: int|
                0 <= k < q.wildcards@.len() ==> wild_matches(
                    (#[trigger] q.wildcards@[k]).tokens(),
                    units(shown),
                )
            &&& forall|k: int|
                0 <= k < q.path_terms@.len() ==> stands_in(along, #[trigger] q.path_terms@[k]@)
            &&& q.filters.ext is Some ==> exists|stem: Seq<u8>, ext: Seq<u8>, k: int|
                #![trigger ends_in(name, stem, ext), q.filters.ext->0@[k]]
                ends_in(name, stem, ext) && 0 <= k < q.filters.ext->0@.len()
                    && q.filters.ext->0@[k]@ == folded(ext)
            &&& scope is Some ==> v.descends(i, scope->0)
        },
{
    law_matched(v, q, scope);
    let name = v.name(i);
    lemma_terms(q.name_terms@, hay(q, name));
    assert(name_ok(q, hay(q, name)) <==> terms_in(q.name_terms@, hay(q, name)) && forall|k: int|
        0 <= k < q.wildcards@.len() ==> wild_matches(
            (#[trigger] q.wildcards@[k]).tokens(),
            units(hay(q, name)),
        ));
    if q.filters.ext is Some {
        law_wanted_extension(q, name);
    }
    if v.path_of(i) is Some {
        lemma_terms(q.path_terms@, hay(q, v.path_of(i)->0));
    }
    assert(matched(v, q, scope).contains(i) <==> v.live(i) && answers(v, q, scope, i));
}

/// The two queries ask the same but for the extensions.
pub open spec fn same_but_ext(a: ParsedQuery, b: ParsedQuery) -> bool {
    &&& a.name_terms == b.name_terms
    &&& a.path_terms == b.path_terms
    &&& a.wildcards == b.wildcards
    &&& a.filters.size == b.filters.size
    &&& a.filters.kind == b.filters.kind
    &&& a.match_case == b.match_case
}

/// A query for several extensions finds what the queries for some and for the
/// others of them find, together.
pub proof fn law_extensions_add_up(
    v: IndexView,
    all: ParsedQuery,
    some: ParsedQuery,
    others: ParsedQuery,
    scope: Option<EntryIdx>,
    i: EntryIdx,
)
    requires
        v.wf(),
        scope is Some ==> v.in_range(scope->0),
        same_but_ext(all, some),
        same_but_ext(all, others),
        all.filters.ext is Some,
        some.filters.ext is Some,
        others.filters.ext is Some,
        texts(all.filters.ext->0@) == texts(some.filters.ext->0@) + texts(others.filters.ext->0@),
    ensures
        matched(v, all, scope).contains(i) <==> matched(v, some, scope).contains(i) || matched(
            v,
            others,
            scope,
        ).contains(i),
{
    law_matched(v, all, scope);
    law_matched(v, some, scope);
    law_matched(v, others, scope);
    let x = all.filters.ext->0@;
    let y = some.filters.ext->0@;
    let z = others.filters.ext->0@;
    let name = v.name(i);
    assert(texts(x).len() == x.len() && texts(y).len() == y.len() && texts(z).len() == z.len());
    assert(ext_ok(all.filters, name) <==> ext_ok(some.filters, name) || ext_ok(
        others.filters,
        name,
    )) by {
        if extension(name) is Some {
            let low = folded(extension(name)->0);
            if exists|k: int| 0 <= k < x.len() && #[trigger] x[k]@ == low {
                let k = choose|k: int| 0 <= k < x.len() && #[trigger] x[k]@ == low;
                assert(texts(x)[k] == low);
                if k < y.len() {
                    assert(texts(y)[k] == low);
                    assert(y[k]@ == low);
                } else {
                    assert(texts(z)[k - y.len()] == low);
                    assert(z[k - y.len()]@ == low);
                }
            }
            if exists|k: int| 0 <= k < y.len() && #[trigger] y[k]@ == low {
                let k = choose|k: int| 0 <= k < y.len() && #[trigger] y[k]@ == low;
                assert(texts(y)[k] == low);
                assert(texts(x)[k] == low);
                assert(x[k]@ == low);
            }
            if exists|k: int| 0 <= k < z.len() && #[trigger] z[k]@ == low {
                let k = choose|k: int| 0 <= k < z.len() && #[trigger] z[k]@ == low;
                assert(texts(z)[k] == low);
                assert(texts(x)[y.len() + k] == low);
                assert(x[y.len() + k]@ == low);
            }
        }
    }
    lemma_same_names(all, some, name);
    lemma_same_names(all, others, name);
}

proof fn lemma_same_names(a: ParsedQuery, b: ParsedQuery, name: Seq<u8>)
    requires
        a.name_terms == b.name_terms,
        a.wildcards == b.wildcards,
        a.match_case == b.match_case,
    ensures
        name_ok(a, hay(a, name)) == name_ok(b, hay(b, name)),
{
}

/// Files and folders are all there is: what a query finds without asking for a
/// kind is what it finds of files and what it finds of folders, and nothing is
/// both.
pub proof fn law_kinds_part(
    v: IndexView,
    all: ParsedQuery,
    files: ParsedQuery,
    folders: ParsedQuery,
    scope: Option<EntryIdx>,
    i: EntryIdx,
)
    requires
        v.wf(),
        scope is Some ==> v.in_range(scope->0),
        all.filters.kind is None,
        files == (ParsedQuery {
            filters: super::parse::Filters { kind: Some(Kind::File), ..all.filters },
            ..all
        }),
        folders == (ParsedQuery {
            filters: super::parse::Filters { kind: Some(Kind::Folder), ..all.filters },
            ..all
        }),
    ensures
        matched(v, all, scope).contains(i) <==> matched(v, files, scope).contains(i) || matched(
            v,
            folders,
            scope,
        ).contains(i),
        !(matched(v, files, scope).contains(i) && matched(v, folders, scope).contains(i)),
        matched(v, files, scope).contains(i) ==> !v.entry(i).is_dir,
        matched(v, folders, scope).contains(i) ==> v.entry(i).is_dir,
{
    law_matched(v, all, scope);
    law_matched(v, files, scope);
    law_matched(v, folders, scope);
    let name = v.name(i);
    lemma_same_names(all, files, name);
    lemma_same_names(all, folders, name);
    assert(ext_ok(all.filters, name) == ext_ok(files.filters, name));
    assert(ext_ok(all.filters, name) == ext_ok(folders.filters, name));
}

} // verus!
