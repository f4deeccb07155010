//! Which volumes a query looks at, and where in them, said of their prefixes and
//! of the scope's text.

use super::answer::scope_in;
use super::volume::{
    cached_target, first_prefix, starts_like, targets_of, trimmed, volume_prefixes,
    ScopeCache, VolumeState,
};
use crate::bytes::{last_position, lemma_last_position, lemma_last_position_unique};
use crate::fold::folded;
use crate::index::model::IndexView;
use crate::pieces::Cut;
use crate::query::engine::{components, scope_target};
use crate::query::scoping::{law_folder_is_found, same_names, well_placed};
use crate::types::EntryIdx;
use vstd::prelude::*;
use vstd::utf8::encode_utf8;

verus! {

/// The bytes are the same, or the same ASCII letter in either case.
pub open spec fn same_letter(a: u8, b: u8) -> bool {
    ||| a == b
    ||| 0x41 <= a <= 0x5A && b == a + 0x20
    ||| 0x41 <= b <= 0x5A && a == b + 0x20
}

/// The text begins with the prefix, the case of ASCII letters aside.
pub open spec fn begins_with(text: Seq<u8>, prefix: Seq<u8>) -> bool {
    &&& prefix.len() <= text.len()
    &&& forall|k: int| 0 <= k < prefix.len() ==> same_letter(#[trigger] text[k], prefix[k])
}

/// All bytes are separators.
pub open spec fn only_separators(s: Seq<u8>) -> bool {
    forall|k: int| 0 <= k < s.len() ==> #[trigger] s[k] == 0x5C || s[k] == 0x2F
}

/// The text ends in a separator.
pub open spec fn ends_in_separator(s: Seq<u8>) -> bool {
    s.len() > 0 && (s.last() == 0x5C || s.last() == 0x2F)
}

/// What a volume's paths begin with: its first mount point, or its GUID path
/// where it is mounted nowhere.
pub proof fn law_volume_prefix(vol: VolumeState)
    ensures
        vol.mounts@.len() > 0 ==> vol.prefix_bytes() == encode_utf8(vol.mounts@[0]@),
        vol.mounts@.len() == 0 ==> vol.prefix_bytes() == encode_utf8(vol.guid@),
{
}

/// The order of case is that of ASCII letters.
proof fn lemma_begins(text: Seq<u8>, prefix: Seq<u8>)
    ensures
        starts_like(text, prefix) <==> begins_with(text, prefix),
{
    if starts_like(text, prefix) {
        assert forall|k: int| 0 <= k < prefix.len() implies same_letter(
            #[trigger] text[k],
            prefix[k],
        ) by {}
    }
    if begins_with(text, prefix) {
        assert forall|k: int| 0 <= k < prefix.len() implies crate::fold::ascii_lower(
            #[trigger] text[k],
        ) == crate::fold::ascii_lower(prefix[k]) by {
            assert(same_letter(text[k], prefix[k]));
        }
    }
}

/// The first prefix that the text begins with, and that there is none before it.
proof fn lemma_first_prefix(prefixes: Seq<Seq<u8>>, text: Seq<u8>)
    ensures
        match first_prefix(prefixes, text) {
            Some(k) => 0 <= k < prefixes.len() && begins_with(text, prefixes[k]) && forall|j: int|
                0 <= j < k ==> !begins_with(text, #[trigger] prefixes[j]),
            None => forall|j: int|
                0 <= j < prefixes.len() ==> !begins_with(text, #[trigger] prefixes[j]),
        },
    decreases prefixes.len(),
{
    if prefixes.len() > 0 {
        let init = prefixes.drop_last();
        lemma_first_prefix(init, text);
        lemma_begins(text, prefixes.last());
        assert forall|j: int| 0 <= j < init.len() implies init[j] == #[trigger] prefixes[j] by {}
        match first_prefix(init, text) {
            Some(k) => {
                assert(init[k] == prefixes[k]);
                assert forall|j: int| 0 <= j < k implies !begins_with(
                    text,
                    #[trigger] prefixes[j],
                ) by {
                    assert(!begins_with(text, init[j]));
                }
            },
            None => {
                assert forall|j: int| 0 <= j < init.len() implies !begins_with(
                    text,
                    #[trigger] prefixes[j],
                ) by {
                    assert(!begins_with(text, init[j]));
                }
            },
        }
    }
}

/// Separators at the end of a text are left off, and nothing else is.
proof fn lemma_trimmed(rel: Seq<u8>, seps: Seq<u8>)
    requires
        !ends_in_separator(rel),
        only_separators(seps),
    ensures
        trimmed(rel + seps) == rel,
{
    let text = rel + seps;
    let plain = |b: u8| !Cut::Separators.at(b);
    assert forall|j: int| rel.len() <= j < text.len() implies !plain(#[trigger] text[j]) by {
        assert(text[j] == seps[j - rel.len()]);
    }
    if rel.len() > 0 {
        assert(text[rel.len() - 1] == rel.last());
        assert(plain(text[rel.len() - 1]));
        lemma_last_position_unique(text, plain, rel.len() - 1);
        assert(text.take(rel.len() as int) =~= rel);
    } else {
        lemma_last_position(text, plain);
        assert(last_position(text, plain) is None);
        assert(rel =~= Seq::<u8>::empty());
    }
}

/// A query without a scope looks at all of every volume.
pub proof fn law_without_scope_everywhere(vols: Seq<VolumeState>, match_case: bool, k: int)
    requires
        0 <= k < vols.len(),
    ensures
        targets_of(vols, None).len() == vols.len(),
        targets_of(vols, None)[k] == (k, None::<Seq<u8>>),
        scope_in(vols, targets_of(vols, None)[k], match_case) == Some(None::<EntryIdx>),
{
}

/// A scope names a volume by its prefix, whatever the case of ASCII letters: the
/// first volume whose prefix it begins with is looked at, and no other, in the
/// folder that the rest of the scope names, without separators at its end.
pub proof fn law_scope_names_volume(
    vols: Seq<VolumeState>,
    scope: Seq<char>,
    k: int,
    rel: Seq<u8>,
    seps: Seq<u8>,
)
    requires
        0 <= k < vols.len(),
        begins_with(encode_utf8(scope), vols[k].prefix_bytes()),
        forall|j: int|
            0 <= j < k ==> !begins_with(encode_utf8(scope), (#[trigger] vols[j]).prefix_bytes()),
        encode_utf8(scope).skip(vols[k].prefix_bytes().len() as int) == rel + seps,
        !ends_in_separator(rel),
        only_separators(seps),
    ensures
        targets_of(vols, Some(scope)) == seq![(k, Some(rel))],
{
    let text = encode_utf8(scope);
    let prefixes = volume_prefixes(vols);
    lemma_first_prefix(prefixes, text);
    assert forall|j: int| 0 <= j < vols.len() implies #[trigger] prefixes[j]
        == vols[j].prefix_bytes() by {}
    assert(first_prefix(prefixes, text) == Some(k)) by {
        assert(begins_with(text, prefixes[k]));
        match first_prefix(prefixes, text) {
            Some(m) => {
                if m < k {
                    assert(!begins_with(text, vols[m].prefix_bytes()));
                } else if k < m {
                    assert(!begins_with(text, prefixes[k]));
                }
            },
            None => {},
        }
    }
    lemma_trimmed(rel, seps);
    assert(targets_of(vols, Some(scope)) =~= seq![(k, Some(rel))]);
}

/// A scope that begins with no volume's prefix names none.
pub proof fn law_unknown_scope(vols: Seq<VolumeState>, scope: Seq<char>)
    requires
        forall|j: int|
            0 <= j < vols.len() ==> !begins_with(
                encode_utf8(scope),
                (#[trigger] vols[j]).prefix_bytes(),
            ),
    ensures
        targets_of(vols, Some(scope)).len() == 0,
{
    let prefixes = volume_prefixes(vols);
    lemma_first_prefix(prefixes, encode_utf8(scope));
    match first_prefix(prefixes, encode_utf8(scope)) {
        Some(m) => {
            assert(prefixes[m] == vols[m].prefix_bytes());
            assert(!begins_with(encode_utf8(scope), vols[m].prefix_bytes()));
        },
        None => {},
    }
}

/// The folder that a query's scope names is the one searched, however deep it
/// lies in its volume; a scope that was not looked up before, or in which the
/// case counts, leads there by its path.
pub proof fn law_scope_searches_its_folder(
    vols: Seq<VolumeState>,
    k: int,
    d: EntryIdx,
    rel: Seq<u8>,
    match_case: bool,
)
    requires
        0 <= k < vols.len(),
        vols[k].index.wf(),
        vols[k].scope_cache is None || match_case,
        vols[k].index@.live(d),
        vols[k].index@.path_of(d) is Some,
        well_placed(vols[k].index@, d, match_case),
        same_names(
            components(rel),
            components(vols[k].index@.path_of(d)->0),
            match_case,
        ),
    ensures
        scope_in(vols, (k, Some(rel)), match_case) == Some(Some(d)),
{
    law_folder_is_found(vols[k].index@, d, rel, match_case);
}

/// What was remembered of a scope only ever leads to an entry in use whose path
/// is the scope's, whatever the case; and remembering loses nothing: where the
/// path leads somewhere, so does the scope.
pub proof fn law_memory_of_scopes(
    v: IndexView,
    cache: Option<ScopeCache>,
    rel: Seq<u8>,
    match_case: bool,
)
    ensures
        scope_target(v, rel, match_case) is Some ==> cached_target(v, cache, rel, match_case)
            is Some,
        match_case ==> cached_target(v, cache, rel, match_case) == scope_target(v, rel, match_case),
        cache is None ==> cached_target(v, cache, rel, match_case) == scope_target(
            v,
            rel,
            match_case,
        ),
        cached_target(v, cache, rel, match_case) != scope_target(v, rel, match_case) ==> {
            let e = cached_target(v, cache, rel, match_case)->0;
            &&& cached_target(v, cache, rel, match_case) is Some
            &&& v.live(e)
            &&& v.path_of(e) is Some
            &&& folded(v.path_of(e)->0) == folded(rel)
        },
{
}

} // verus!
