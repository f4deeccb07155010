//! What a query's text asks for, said of its words.

use super::parse::{
    asks_for_case, case_word, ext_prefix, file_word, folder_word, has_operator, has_separator,
    has_wildcard, is_operator, normal_path, query_model, size_prefix, with_word, with_words, Kind,
    QueryError, QueryModel,
};
use super::size::{size_range, starts_with};
use super::wildcard::{pattern, WildToken};
use crate::fold::folded;
use crate::pieces::{pieces, Cut};
use vstd::prelude::*;

verus! {

/// `case:`, in any case.
pub open spec fn says_case(word: Seq<u8>) -> bool {
    folded(word) == seq![0x63u8, 0x61u8, 0x73u8, 0x65u8, 0x3Au8]
}

/// `file:`, in any case.
pub open spec fn says_file(word: Seq<u8>) -> bool {
    folded(word) == seq![0x66u8, 0x69u8, 0x6Cu8, 0x65u8, 0x3Au8]
}

/// `folder:`, in any case.
pub open spec fn says_folder(word: Seq<u8>) -> bool {
    folded(word) == seq![0x66u8, 0x6Fu8, 0x6Cu8, 0x64u8, 0x65u8, 0x72u8, 0x3Au8]
}

/// `ext:` and a list, in any case.
pub open spec fn says_ext(word: Seq<u8>, list: Seq<u8>) -> bool {
    folded(word) == seq![0x65u8, 0x78u8, 0x74u8, 0x3Au8] + list
}

/// `size:` and an argument, in any case.
pub open spec fn says_size(word: Seq<u8>, arg: Seq<u8>) -> bool {
    folded(word) == seq![0x73u8, 0x69u8, 0x7Au8, 0x65u8, 0x3Au8] + arg
}

/// The word is a filter or `case:`.
pub open spec fn is_filter(word: Seq<u8>) -> bool {
    ||| says_case(word)
    ||| says_file(word)
    ||| says_folder(word)
    ||| exists|list: Seq<u8>| says_ext(word, list)
    ||| exists|arg: Seq<u8>| says_size(word, arg)
}

/// The word holds `:`, `|`, `<`, `>` or a double quote, or starts with `!`.
pub open spec fn is_refused(word: Seq<u8>) -> bool {
    ||| word.contains(0x3A)
    ||| word.contains(0x7C)
    ||| word.contains(0x3C)
    ||| word.contains(0x3E)
    ||| word.contains(0x22)
    ||| word.len() > 0 && word[0] == 0x21
}

/// The word holds a `*` or a `?`.
pub open spec fn is_wild(word: Seq<u8>) -> bool {
    word.contains(0x2A) || word.contains(0x3F)
}

/// The word holds a `\\` or a `/`.
pub open spec fn is_path(word: Seq<u8>) -> bool {
    word.contains(0x5C) || word.contains(0x2F)
}

/// The word is a substring of the name.
pub open spec fn is_name_word() -> spec_fn(Seq<u8>) -> bool {
    |word: Seq<u8>| !is_filter(word) && !is_refused(word) && !is_path(word) && !is_wild(word)
}

/// The word is a substring of the path.
pub open spec fn is_path_word() -> spec_fn(Seq<u8>) -> bool {
    |word: Seq<u8>| !is_filter(word) && !is_refused(word) && is_path(word)
}

/// The word is a pattern for the whole name.
pub open spec fn is_pattern_word() -> spec_fn(Seq<u8>) -> bool {
    |word: Seq<u8>| !is_filter(word) && !is_refused(word) && !is_path(word) && is_wild(word)
}

/// The word as it is where the case counts, else folded.
pub open spec fn as_compared(match_case: bool) -> spec_fn(Seq<u8>) -> Seq<u8> {
    |word: Seq<u8>|
        if match_case {
            word
        } else {
            folded(word)
        }
}

/// `t` is `s` with a `\\` in the place of every `/`.
pub open spec fn backslashed(s: Seq<u8>, t: Seq<u8>) -> bool {
    &&& s.len() == t.len()
    &&& forall|k: int|
        0 <= k < s.len() ==> #[trigger] t[k] == if s[k] == 0x2F {
            0x5Cu8
        } else {
            s[k]
        }
}

/// The classes of words are those that the parser goes by.
proof fn lemma_classes(word: Seq<u8>)
    ensures
        says_case(word) <==> folded(word) == case_word(),
        says_file(word) <==> folded(word) == file_word(),
        says_folder(word) <==> folded(word) == folder_word(),
        (exists|list: Seq<u8>| says_ext(word, list)) <==> starts_with(folded(word), ext_prefix()),
        starts_with(folded(word), ext_prefix()) ==> says_ext(word, folded(word).skip(4)),
        (exists|arg: Seq<u8>| says_size(word, arg)) <==> starts_with(folded(word), size_prefix()),
        starts_with(folded(word), size_prefix()) ==> says_size(word, folded(word).skip(5)),
        forall|list: Seq<u8>| #[trigger] says_ext(word, list) ==> list == folded(word).skip(4),
        forall|arg: Seq<u8>| #[trigger] says_size(word, arg) ==> arg == folded(word).skip(5),
        is_refused(word) <==> has_operator(word),
        is_wild(word) <==> has_wildcard(word),
        is_path(word) <==> has_separator(word),
{
    let low = folded(word);
    if starts_with(low, ext_prefix()) {
        assert(low =~= ext_prefix() + low.skip(4));
        assert(says_ext(word, low.skip(4)));
    }
    if exists|list: Seq<u8>| says_ext(word, list) {
        let list = choose|list: Seq<u8>| says_ext(word, list);
        assert(low.take(4) =~= ext_prefix());
    }
    assert forall|list: Seq<u8>| #[trigger] says_ext(word, list) implies list == low.skip(4) by {
        assert(low.skip(4) =~= list);
    }
    if starts_with(low, size_prefix()) {
        assert(low =~= size_prefix() + low.skip(5));
        assert(says_size(word, low.skip(5)));
    }
    if exists|arg: Seq<u8>| says_size(word, arg) {
        let arg = choose|arg: Seq<u8>| says_size(word, arg);
        assert(low.take(5) =~= size_prefix());
    }
    assert forall|arg: Seq<u8>| #[trigger] says_size(word, arg) implies arg == low.skip(5) by {
        assert(low.skip(5) =~= arg);
    }
    if is_refused(word) {
        if word.contains(0x3A) {
            assert(is_operator(word[word.index_of(0x3A)]));
        } else if word.contains(0x7C) {
            assert(is_operator(word[word.index_of(0x7C)]));
        } else if word.contains(0x3C) {
            assert(is_operator(word[word.index_of(0x3C)]));
        } else if word.contains(0x3E) {
            assert(is_operator(word[word.index_of(0x3E)]));
        } else if word.contains(0x22) {
            assert(is_operator(word[word.index_of(0x22)]));
        }
    }
    if has_operator(word) && !(word.len() > 0 && word[0] == 0x21) {
        let k = choose|k: int| 0 <= k < word.len() && is_operator(#[trigger] word[k]);
        assert(word.contains(word[k]));
    }
    if word.contains(0x2A) {
        assert(word[word.index_of(0x2A)] == 0x2A);
    }
    if word.contains(0x3F) {
        assert(word[word.index_of(0x3F)] == 0x3F);
    }
    if has_wildcard(word) {
        let k = choose|k: int|
            0 <= k < word.len() && ((#[trigger] word[k]) == 0x2A || word[k] == 0x3F);
        assert(word.contains(word[k]));
    }
    if word.contains(0x5C) {
        assert(Cut::Separators.at(word[word.index_of(0x5C)]));
    }
    if word.contains(0x2F) {
        assert(Cut::Separators.at(word[word.index_of(0x2F)]));
    }
    if has_separator(word) {
        let k = choose|k: int| 0 <= k < word.len() && Cut::Separators.at(#[trigger] word[k]);
        assert(word.contains(word[k]));
    }
}

/// A filter of one word in front of others.
proof fn lemma_filter_front(p: spec_fn(Seq<u8>) -> bool, words: Seq<Seq<u8>>)
    requires
        words.len() > 0,
    ensures
        words.filter(p) == (if p(words[0]) {
            seq![words[0]]
        } else {
            Seq::<Seq<u8>>::empty()
        }) + words.drop_first().filter(p),
{
    reveal(Seq::filter);
    let one = seq![words[0]];
    assert(words =~= one + words.drop_first());
    Seq::filter_distributes_over_add(one, words.drop_first(), p);
    assert(one.drop_last() =~= Seq::<Seq<u8>>::empty());
    assert(one.drop_last().filter(p) =~= Seq::<Seq<u8>>::empty());
    assert(one.filter(p) =~= if p(words[0]) {
        one
    } else {
        Seq::<Seq<u8>>::empty()
    });
}

/// What the words of an accepted query add to it.
#[verifier::rlimit(60)]
#[verifier::spinoff_prover]
proof fn lemma_words_add(m: QueryModel, words: Seq<Seq<u8>>)
    requires
        with_words(m, words) is Ok,
    ensures
        ({
            let n = with_words(m, words)->Ok_0;
            let text = as_compared(m.match_case);
            &&& n.match_case == m.match_case
            &&& n.names == m.names + words.filter(is_name_word()).map_values(text)
            &&& n.paths == m.paths + words.filter(is_path_word()).map_values(
                |w: Seq<u8>| normal_path(text(w)),
            )
            &&& n.patterns == m.patterns + words.filter(is_pattern_word()).map_values(
                |w: Seq<u8>| pattern(text(w)),
            )
        }),
    decreases words.len(),
{
    reveal(Seq::filter);
    let text = as_compared(m.match_case);
    let path = |w: Seq<u8>| normal_path(text(w));
    let pat = |w: Seq<u8>| pattern(text(w));
    if words.len() == 0 {
        assert(words.filter(is_name_word()).map_values(text) =~= Seq::<Seq<u8>>::empty());
        assert(words.filter(is_path_word()).map_values(path) =~= Seq::<Seq<u8>>::empty());
        assert(words.filter(is_pattern_word()).map_values(pat) =~= Seq::<Seq<WildToken>>::empty());
        assert(m.names =~= m.names + Seq::<Seq<u8>>::empty());
        assert(m.paths =~= m.paths + Seq::<Seq<u8>>::empty());
        assert(m.patterns =~= m.patterns + Seq::<Seq<WildToken>>::empty());
    } else {
        let w = words[0];
        let rest = words.drop_first();
        let one = with_word(m, w)->Ok_0;
        lemma_classes(w);
        lemma_words_add(one, rest);
        lemma_filter_front(is_name_word(), words);
        lemma_filter_front(is_path_word(), words);
        lemma_filter_front(is_pattern_word(), words);
        let n = with_words(m, words)->Ok_0;
        assert(n.names =~= m.names + words.filter(is_name_word()).map_values(text));
        assert(n.paths =~= m.paths + words.filter(is_path_word()).map_values(path));
        assert(n.patterns =~= m.patterns + words.filter(is_pattern_word()).map_values(pat));
    }
}

/// The texts that an accepted query asks for. Its words are what blanks set
/// apart. Every word that is no filter counts, in its order: one with a
/// separator in it is looked for in the path, with every `/` taken for a `\\`;
/// one with a wildcard in it is a pattern for the name; any other is looked for
/// in the name. The case counts where some word says so, wherever it stands, and
/// then the words are taken as they are; else they are folded.
pub proof fn law_query_texts(text: Seq<u8>)
    requires
        query_model(text) is Ok,
    ensures
        ({
            let m = query_model(text)->Ok_0;
            let words = pieces(Cut::Blanks, text);
            let paths = words.filter(is_path_word());
            &&& m.match_case <==> exists|k: int|
                0 <= k < words.len() && says_case(#[trigger] words[k])
            &&& m.names == words.filter(is_name_word()).map_values(as_compared(m.match_case))
            &&& m.patterns == words.filter(is_pattern_word()).map_values(
                |w: Seq<u8>| pattern(as_compared(m.match_case)(w)),
            )
            &&& m.paths.len() == paths.len()
            &&& forall|k: int|
                0 <= k < paths.len() ==> backslashed(
                    as_compared(m.match_case)(paths[k]),
                    #[trigger] m.paths[k],
                )
        }),
{
    let words = pieces(Cut::Blanks, text);
    let m = query_model(text)->Ok_0;
    let start = QueryModel {
        names: seq![],
        paths: seq![],
        patterns: seq![],
        ext: None,
        size: None,
        kind: None,
        match_case: asks_for_case(words),
    };
    lemma_words_add(start, words);
    assert(m.match_case == asks_for_case(words));
    if asks_for_case(words) {
        let k = choose|k: int|
            0 <= k < words.len() && folded(#[trigger] words[k]) == case_word();
        assert(says_case(words[k]));
    }
    if exists|k: int| 0 <= k < words.len() && says_case(#[trigger] words[k]) {
        let k = choose|k: int| 0 <= k < words.len() && says_case(#[trigger] words[k]);
        assert(folded(words[k]) == case_word());
    }
    let texts = as_compared(m.match_case);
    assert(m.names =~= words.filter(is_name_word()).map_values(texts));
    assert(m.patterns =~= words.filter(is_pattern_word()).map_values(
        |w: Seq<u8>| pattern(texts(w)),
    ));
}

/// Whether a list of words asks for files or for folders.
#[verifier::rlimit(60)]
#[verifier::spinoff_prover]
proof fn lemma_kinds_add(m: QueryModel, words: Seq<Seq<u8>>)
    requires
        with_words(m, words) is Ok,
    ensures
        ({
            let n = with_words(m, words)->Ok_0;
            &&& n.kind == Some(Kind::File) <==> m.kind == Some(Kind::File) || exists|k: int|
                0 <= k < words.len() && says_file(#[trigger] words[k])
            &&& n.kind == Some(Kind::Folder) <==> m.kind == Some(Kind::Folder) || exists|k: int|
                0 <= k < words.len() && says_folder(#[trigger] words[k])
        }),
    decreases words.len(),
{
    if words.len() > 0 {
        let w = words[0];
        let rest = words.drop_first();
        let one = with_word(m, w)->Ok_0;
        lemma_classes(w);
        lemma_one_role(w);
        lemma_kinds_add(one, rest);
        if exists|k: int| 0 <= k < rest.len() && says_file(#[trigger] rest[k]) {
            let k = choose|k: int| 0 <= k < rest.len() && says_file(#[trigger] rest[k]);
            assert(says_file(words[k + 1]));
        }
        if exists|k: int| 0 <= k < words.len() && says_file(#[trigger] words[k]) {
            let k = choose|k: int| 0 <= k < words.len() && says_file(#[trigger] words[k]);
            if k > 0 {
                assert(says_file(rest[k - 1]));
            }
        }
        if exists|k: int| 0 <= k < rest.len() && says_folder(#[trigger] rest[k]) {
            let k = choose|k: int| 0 <= k < rest.len() && says_folder(#[trigger] rest[k]);
            assert(says_folder(words[k + 1]));
        }
        if exists|k: int| 0 <= k < words.len() && says_folder(#[trigger] words[k]) {
            let k = choose|k: int| 0 <= k < words.len() && says_folder(#[trigger] words[k]);
            if k > 0 {
                assert(says_folder(rest[k - 1]));
            }
        }
        assert(says_file(w) ==> says_file(words[0]));
        assert(says_folder(w) ==> says_folder(words[0]));
    }
}

/// Which extensions a list of words asks for.
#[verifier::rlimit(60)]
#[verifier::spinoff_prover]
proof fn lemma_exts_add(m: QueryModel, words: Seq<Seq<u8>>, exts: Seq<Seq<u8>>)
    requires
        with_words(m, words) is Ok,
    ensures
        ({
            let n = with_words(m, words)->Ok_0;
            &&& n.ext == Some(exts) <==> m.ext == Some(exts) || exists|k: int, list: Seq<u8>|
                0 <= k < words.len() && #[trigger] says_ext(words[k], list) && exts == pieces(
                    Cut::Semicolons,
                    list,
                )
            &&& m.ext is Some ==> n.ext == m.ext
        }),
    decreases words.len(),
{
    if words.len() > 0 {
        let w = words[0];
        let rest = words.drop_first();
        let one = with_word(m, w)->Ok_0;
        lemma_classes(w);
        lemma_one_role(w);
        lemma_exts_add(one, rest, exts);
        if exists|k: int, list: Seq<u8>|
            0 <= k < rest.len() && #[trigger] says_ext(rest[k], list) && exts == pieces(
                Cut::Semicolons,
                list,
            ) {
            let (k, list) = choose|k: int, list: Seq<u8>|
                0 <= k < rest.len() && #[trigger] says_ext(rest[k], list) && exts == pieces(
                    Cut::Semicolons,
                    list,
                );
            assert(says_ext(words[k + 1], list));
        }
        if exists|k: int, list: Seq<u8>|
            0 <= k < words.len() && #[trigger] says_ext(words[k], list) && exts == pieces(
                Cut::Semicolons,
                list,
            ) {
            let (k, list) = choose|k: int, list: Seq<u8>|
                0 <= k < words.len() && #[trigger] says_ext(words[k], list) && exts == pieces(
                    Cut::Semicolons,
                    list,
                );
            if k > 0 {
                assert(says_ext(rest[k - 1], list));
            }
        }
        if starts_with(folded(w), ext_prefix()) {
            assert(says_ext(words[0], folded(w).skip(4)));
        }
    }
}

/// Which range of sizes a list of words asks for.
#[verifier::rlimit(60)]
#[verifier::spinoff_prover]
proof fn lemma_sizes_add(m: QueryModel, words: Seq<Seq<u8>>)
    requires
        with_words(m, words) is Ok,
    ensures
        ({
            let n = with_words(m, words)->Ok_0;
            &&& n.size is Some <==> m.size is Some || exists|k: int, arg: Seq<u8>|
                0 <= k < words.len() && #[trigger] says_size(words[k], arg)
            &&& m.size is Some ==> n.size == m.size
            &&& m.size is None ==> forall|k: int, arg: Seq<u8>|
                0 <= k < words.len() && #[trigger] says_size(words[k], arg) ==> n.size
                    == size_range(arg) && n.size is Some
            &&& m.size is Some ==> forall|k: int, arg: Seq<u8>|
                0 <= k < words.len() ==> !(#[trigger] says_size(words[k], arg))
        }),
    decreases words.len(),
{
    if words.len() > 0 {
        let w = words[0];
        let rest = words.drop_first();
        let one = with_word(m, w)->Ok_0;
        lemma_classes(w);
        lemma_one_role(w);
        lemma_sizes_add(one, rest);
        let n = with_words(m, words)->Ok_0;
        if exists|k: int, arg: Seq<u8>|
            0 <= k < rest.len() && #[trigger] says_size(rest[k], arg) {
            let (k, arg) = choose|k: int, arg: Seq<u8>|
                0 <= k < rest.len() && #[trigger] says_size(rest[k], arg);
            assert(says_size(words[k + 1], arg));
        }
        if exists|k: int, arg: Seq<u8>|
            0 <= k < words.len() && #[trigger] says_size(words[k], arg) {
            let (k, arg) = choose|k: int, arg: Seq<u8>|
                0 <= k < words.len() && #[trigger] says_size(words[k], arg);
            if k > 0 {
                assert(says_size(rest[k - 1], arg));
            }
        }
        if starts_with(folded(w), size_prefix()) {
            assert(says_size(words[0], folded(w).skip(5)));
        }
        if m.size is Some {
            assert forall|k: int, arg: Seq<u8>| 0 <= k < words.len() implies !(
            #[trigger] says_size(words[k], arg)) by {
                if k > 0 {
                    assert(!says_size(rest[k - 1], arg));
                }
            }
        }
        if m.size is None {
            assert forall|k: int, arg: Seq<u8>|
                0 <= k < words.len() && #[trigger] says_size(words[k], arg) implies n.size
                == size_range(arg) && n.size is Some by {
                if k > 0 {
                    assert(says_size(rest[k - 1], arg));
                }
            }
        }
    }
}

/// The filters that an accepted query asks for: files only, or folders only,
/// where a word says so; the extensions of the list behind `ext:`, all of them;
/// the range of sizes that the argument of `size:` gives; and nothing where no
/// word says so.
pub proof fn law_query_filters(text: Seq<u8>)
    requires
        query_model(text) is Ok,
    ensures
        ({
            let m = query_model(text)->Ok_0;
            let words = pieces(Cut::Blanks, text);
            &&& m.kind == Some(Kind::File) <==> exists|k: int|
                0 <= k < words.len() && says_file(#[trigger] words[k])
            &&& m.kind == Some(Kind::Folder) <==> exists|k: int|
                0 <= k < words.len() && says_folder(#[trigger] words[k])
            &&& forall|exts: Seq<Seq<u8>>|
                m.ext == Some(exts) <==> exists|k: int, list: Seq<u8>|
                    0 <= k < words.len() && #[trigger] says_ext(words[k], list) && exts == pieces(
                        Cut::Semicolons,
                        list,
                    )
            &&& m.size is Some <==> exists|k: int, arg: Seq<u8>|
                0 <= k < words.len() && #[trigger] says_size(words[k], arg)
            &&& forall|k: int, arg: Seq<u8>|
                0 <= k < words.len() && #[trigger] says_size(words[k], arg) ==> m.size
                    == size_range(arg)
        }),
{
    let words = pieces(Cut::Blanks, text);
    let start = QueryModel {
        names: seq![],
        paths: seq![],
        patterns: seq![],
        ext: None,
        size: None,
        kind: None,
        match_case: asks_for_case(words),
    };
    lemma_kinds_add(start, words);
    lemma_sizes_add(start, words);
    let m = query_model(text)->Ok_0;
    assert forall|exts: Seq<Seq<u8>>|
        m.ext == Some(exts) <==> exists|k: int, list: Seq<u8>|
            0 <= k < words.len() && #[trigger] says_ext(words[k], list) && exts == pieces(
                Cut::Semicolons,
                list,
            ) by {
        lemma_exts_add(start, words, exts);
    }
}

/// The word on its own cannot be taken: it uses an operator, it is a path with a
/// wildcard, `ext:` names no extension, or the argument of `size:` cannot be
/// read.
pub open spec fn is_bad(word: Seq<u8>) -> bool {
    ||| !is_filter(word) && (is_refused(word) || (is_path(word) && is_wild(word)))
    ||| exists|list: Seq<u8>| #[trigger]
        says_ext(word, list) && pieces(Cut::Semicolons, list).len() == 0
    ||| exists|arg: Seq<u8>| #[trigger] says_size(word, arg) && size_range(arg) is None
}

/// Both words give the same filter.
pub open spec fn same_filter(a: Seq<u8>, b: Seq<u8>) -> bool {
    ||| (says_file(a) || says_folder(a)) && (says_file(b) || says_folder(b))
    ||| (exists|list: Seq<u8>| says_ext(a, list)) && (exists|list: Seq<u8>| says_ext(b, list))
    ||| (exists|arg: Seq<u8>| says_size(a, arg)) && (exists|arg: Seq<u8>| says_size(b, arg))
}

/// The word gives no filter that the query has already.
spec fn is_free(m: QueryModel, word: Seq<u8>) -> bool {
    &&& m.kind is Some ==> !says_file(word) && !says_folder(word)
    &&& m.ext is Some ==> !exists|list: Seq<u8>| says_ext(word, list)
    &&& m.size is Some ==> !exists|arg: Seq<u8>| says_size(word, arg)
}

/// A word can be added to a query exactly where it can be taken on its own and
/// its filter is not given yet.
proof fn lemma_word_taken(m: QueryModel, word: Seq<u8>)
    ensures
        with_word(m, word) is Ok <==> !is_bad(word) && is_free(m, word),
{
    lemma_classes(word);
    lemma_one_role(word);
    if starts_with(folded(word), ext_prefix()) {
        let list = folded(word).skip(4);
        assert(says_ext(word, list));
        assert(is_bad(word) <==> pieces(Cut::Semicolons, list).len() == 0);
    } else if starts_with(folded(word), size_prefix()) {
        let arg = folded(word).skip(5);
        assert(says_size(word, arg));
        assert(is_bad(word) <==> size_range(arg) is None);
    }
}

/// What is free once a word was added.
proof fn lemma_free_after(m: QueryModel, w: Seq<u8>, x: Seq<u8>)
    requires
        with_word(m, w) is Ok,
    ensures
        is_free(with_word(m, w)->Ok_0, x) <==> is_free(m, x) && !same_filter(w, x),
{
    lemma_classes(w);
    lemma_one_role(w);
    lemma_classes(x);
    let one = with_word(m, w)->Ok_0;
    assert(one.kind is Some <==> m.kind is Some || says_file(w) || says_folder(w));
    assert(one.ext is Some <==> m.ext is Some || starts_with(folded(w), ext_prefix()));
    assert(one.size is Some <==> m.size is Some || starts_with(folded(w), size_prefix()));
}

/// Every word can be taken on its own, no two give the same filter, and none
/// gives one that the query has already.
spec fn all_taken(m: QueryModel, words: Seq<Seq<u8>>) -> bool {
    &&& forall|k: int| 0 <= k < words.len() ==> !is_bad(#[trigger] words[k])
    &&& forall|i: int, j: int|
        0 <= i < j < words.len() ==> !same_filter(#[trigger] words[i], #[trigger] words[j])
    &&& forall|k: int| 0 <= k < words.len() ==> is_free(m, #[trigger] words[k])
}

/// Whether words can be added to a query.
#[verifier::rlimit(60)]
#[verifier::spinoff_prover]
proof fn lemma_words_taken(m: QueryModel, words: Seq<Seq<u8>>)
    ensures
        with_words(m, words) is Ok <==> all_taken(m, words),
    decreases words.len(),
{
    if words.len() > 0 {
        let w = words[0];
        let rest = words.drop_first();
        lemma_word_taken(m, w);
        if with_word(m, w) is Ok {
            let one = with_word(m, w)->Ok_0;
            lemma_words_taken(one, rest);
            if all_taken(one, rest) {
                assert forall|k: int| 0 <= k < words.len() implies !is_bad(#[trigger] words[k])
                    && is_free(m, words[k]) by {
                    if k > 0 {
                        assert(rest[k - 1] == words[k]);
                        lemma_free_after(m, w, rest[k - 1]);
                    }
                }
                assert forall|i: int, j: int| 0 <= i < j < words.len() implies !same_filter(
                    #[trigger] words[i],
                    #[trigger] words[j],
                ) by {
                    assert(rest[j - 1] == words[j]);
                    if i > 0 {
                        assert(rest[i - 1] == words[i]);
                    } else {
                        lemma_free_after(m, w, rest[j - 1]);
                    }
                }
            }
            if all_taken(m, words) {
                assert forall|k: int| 0 <= k < rest.len() implies !is_bad(#[trigger] rest[k])
                    && is_free(one, rest[k]) by {
                    assert(rest[k] == words[k + 1]);
                    assert(!same_filter(words[0], words[k + 1]));
                    lemma_free_after(m, w, rest[k]);
                }
                assert forall|i: int, j: int| 0 <= i < j < rest.len() implies !same_filter(
                    #[trigger] rest[i],
                    #[trigger] rest[j],
                ) by {
                    assert(rest[i] == words[i + 1] && rest[j] == words[j + 1]);
                }
            }
        } else {
            assert(words[0] == w);
        }
    }
}

/// A word is one filter at most.
proof fn lemma_one_role(word: Seq<u8>)
    ensures
        starts_with(folded(word), ext_prefix()) ==> folded(word) != case_word() && folded(word)
            != file_word() && folded(word) != folder_word() && !starts_with(
            folded(word),
            size_prefix(),
        ),
        starts_with(folded(word), size_prefix()) ==> folded(word) != case_word() && folded(word)
            != file_word() && folded(word) != folder_word(),
{
    let low = folded(word);
    if starts_with(low, ext_prefix()) {
        assert(low.take(4)[0] == 0x65);
        assert(low[0] == 0x65);
        if starts_with(low, size_prefix()) {
            assert(low.take(5)[0] == 0x73);
        }
    }
    if starts_with(low, size_prefix()) {
        assert(low.take(5)[0] == 0x73);
        assert(low[0] == 0x73);
    }
}

/// Which queries are accepted: those in which every word can be taken on its
/// own, and no two give the same filter.
pub proof fn law_query_accepted(text: Seq<u8>)
    ensures
        query_model(text) is Ok <==> {
            let words = pieces(Cut::Blanks, text);
            &&& forall|k: int| 0 <= k < words.len() ==> !is_bad(#[trigger] words[k])
            &&& forall|i: int, j: int|
                0 <= i < j < words.len() ==> !same_filter(#[trigger] words[i], #[trigger] words[j])
        },
{
    let words = pieces(Cut::Blanks, text);
    let start = QueryModel {
        names: seq![],
        paths: seq![],
        patterns: seq![],
        ext: None,
        size: None,
        kind: None,
        match_case: asks_for_case(words),
    };
    lemma_words_taken(start, words);
    assert(forall|k: int| 0 <= k < words.len() ==> is_free(start, #[trigger] words[k]));
}

/// Where adding words to a query fails: the words in front of that place can be
/// added, and the one there cannot.
proof fn lemma_first_refused(m: QueryModel, words: Seq<Seq<u8>>) -> (k: int)
    requires
        with_words(m, words) is Err,
    ensures
        0 <= k < words.len(),
        with_words(m, words.take(k)) is Ok,
        with_word(with_words(m, words.take(k))->Ok_0, words[k]) is Err,
        with_word(with_words(m, words.take(k))->Ok_0, words[k])->Err_0 == with_words(
            m,
            words,
        )->Err_0,
    decreases words.len(),
{
    let w = words[0];
    let rest = words.drop_first();
    if with_word(m, w) is Err {
        assert(words.take(0).len() == 0);
        0
    } else {
        let one = with_word(m, w)->Ok_0;
        let k = lemma_first_refused(one, rest);
        let front = words.take(k + 1);
        assert(front[0] == w);
        assert(front.drop_first() =~= rest.take(k));
        assert(rest[k] == words[k + 1]);
        k + 1
    }
}

/// What a refused query is answered. The first word that cannot be added to
/// those in front of it decides: one that gives a filter which an earlier one
/// gave is a repetition, be it fit or not; else an `ext:` without extensions and
/// a `size:` that cannot be read are told apart, and any other word uses an
/// operator that is not supported.
pub proof fn law_query_refused(text: Seq<u8>) -> (k: int)
    requires
        query_model(text) is Err,
    ensures
        ({
            let words = pieces(Cut::Blanks, text);
            let error = query_model(text)->Err_0;
            let again = exists|j: int| 0 <= j < k && same_filter(#[trigger] words[j], words[k]);
            &&& 0 <= k < words.len()
            &&& forall|j: int| 0 <= j < k ==> !is_bad(#[trigger] words[j])
            &&& forall|i: int, j: int|
                0 <= i < j < k ==> !same_filter(#[trigger] words[i], #[trigger] words[j])
            &&& again || is_bad(words[k])
            &&& error == QueryError::Repeated <==> again
            &&& error == QueryError::NoExtension <==> !again && exists|list: Seq<u8>|
                says_ext(words[k], list)
            &&& error == QueryError::BadSize <==> !again && exists|arg: Seq<u8>|
                says_size(words[k], arg)
            &&& error == QueryError::UnsupportedOperator <==> !again && !is_filter(words[k])
        }),
{
    let words = pieces(Cut::Blanks, text);
    let start = QueryModel {
        names: seq![],
        paths: seq![],
        patterns: seq![],
        ext: None,
        size: None,
        kind: None,
        match_case: asks_for_case(words),
    };
    let k = lemma_first_refused(start, words);
    let front = words.take(k);
    let w = words[k];
    let n = with_words(start, front)->Ok_0;
    lemma_words_taken(start, front);
    lemma_free_behind(start, front, w);
    lemma_refused_by(n, w);
    assert forall|j: int| 0 <= j < k implies !is_bad(#[trigger] words[j]) by {
        assert(front[j] == words[j]);
    }
    assert forall|i: int, j: int| 0 <= i < j < k implies !same_filter(
        #[trigger] words[i],
        #[trigger] words[j],
    ) by {
        assert(front[i] == words[i] && front[j] == words[j]);
    }
    assert(is_free(n, w) <==> !exists|j: int|
        0 <= j < k && same_filter(#[trigger] words[j], w)) by {
        if exists|j: int| 0 <= j < k && same_filter(#[trigger] words[j], w) {
            let j = choose|j: int| 0 <= j < k && same_filter(#[trigger] words[j], w);
            assert(front[j] == words[j]);
            assert(same_filter(front[j], w));
        }
        if !is_free(n, w) {
            if !is_clear(front, w) {
                let j = choose|j: int| 0 <= j < front.len() && same_filter(#[trigger] front[j], w);
                assert(words[j] == front[j]);
            }
        }
    }
    k
}

/// No word of a list gives the same filter.
spec fn is_clear(words: Seq<Seq<u8>>, x: Seq<u8>) -> bool {
    forall|j: int| 0 <= j < words.len() ==> !same_filter(#[trigger] words[j], x)
}

/// A word is free behind a list of words exactly where none of them gives its
/// filter, nor the query that they were added to.
proof fn lemma_free_behind(m: QueryModel, words: Seq<Seq<u8>>, x: Seq<u8>)
    requires
        with_words(m, words) is Ok,
    ensures
        is_free(with_words(m, words)->Ok_0, x) <==> is_free(m, x) && is_clear(words, x),
    decreases words.len(),
{
    if words.len() > 0 {
        let w = words[0];
        let rest = words.drop_first();
        let one = with_word(m, w)->Ok_0;
        lemma_free_behind(one, rest, x);
        lemma_free_after(m, w, x);
        if is_clear(words, x) {
            assert(!same_filter(words[0], x));
            assert forall|j: int| 0 <= j < rest.len() implies !same_filter(
                #[trigger] rest[j],
                x,
            ) by {
                assert(rest[j] == words[j + 1]);
            }
        }
        if is_clear(rest, x) && !same_filter(w, x) {
            assert forall|j: int| 0 <= j < words.len() implies !same_filter(
                #[trigger] words[j],
                x,
            ) by {
                if j > 0 {
                    assert(words[j] == rest[j - 1]);
                }
            }
        }
    }
}

/// Why a word is refused.
proof fn lemma_refused_by(m: QueryModel, w: Seq<u8>)
    requires
        with_word(m, w) is Err,
    ensures
        ({
            let error = with_word(m, w)->Err_0;
            &&& !is_free(m, w) || is_bad(w)
            &&& error == QueryError::Repeated <==> !is_free(m, w)
            &&& error == QueryError::NoExtension <==> is_free(m, w) && exists|list: Seq<u8>|
                says_ext(w, list)
            &&& error == QueryError::BadSize <==> is_free(m, w) && exists|arg: Seq<u8>|
                says_size(w, arg)
            &&& error == QueryError::UnsupportedOperator <==> is_free(m, w) && !is_filter(w)
        }),
{
    lemma_word_taken(m, w);
    lemma_classes(w);
    lemma_one_role(w);
}

} // verus!
