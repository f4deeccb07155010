//! The query grammar.
//!
//! A query is a list of words set apart by blanks; an entry has to satisfy all
//! of them.
//!
//! - `ext:a;b` wants one of the extensions, `size:..` a size, `file:` or
//!   `folder:` a kind of entry, and `case:` makes the case count.
//! - A word with a separator in it is a substring of the path.
//! - A word with `*` or `?` in it is a pattern for the whole name.
//! - Any other word is a substring of the name.
//!
//! Operators that are not supported are refused, not taken as text.

use super::size::{has_prefix, read_size, size_range, starts_with};
use super::wildcard::{pattern, WildToken, Wildcard};
use crate::bytes::{copy_range, same_bytes};
use crate::fold::{fold, folded};
use crate::pieces::{pieces, split, texts, Cut};
use vstd::prelude::*;
use vstd::slice::slice_subrange;
use vstd::utf8::encode_utf8;

verus! {

/// What kind of entry is wanted.
#[derive(Clone, Copy, Debug, PartialEq, Eq, Structural)]
pub enum Kind {
    File,
    Folder,
}

/// The sizes from `min` to `max`, both included.
#[derive(Clone, Copy, Debug, PartialEq, Eq, Structural)]
pub struct SizeRange {
    pub min: u64,
    pub max: u64,
}

impl SizeRange {
    /// `size` is in the range.
    pub open spec fn spec_contains(&self, size: u64) -> bool {
        self.min <= size <= self.max
    }

    /// Whether `size` is in the range.
    #[verifier::when_used_as_spec(spec_contains)]
    pub fn contains(&self, size: u64) -> (res: bool)
        ensures
            res == self.contains(size),
    {
        self.min <= size && size <= self.max
    }
}

/// What a query asks for besides text.
pub struct Filters {
    /// Wanted extensions, folded and without the dot; any will do.
    pub ext: Option<Vec<Vec<u8>>>,
    pub size: Option<SizeRange>,
    pub kind: Option<Kind>,
}

/// A query, taken apart. An entry has to satisfy every part.
pub struct ParsedQuery {
    /// Substrings of the name, folded unless the case counts.
    pub name_terms: Vec<Vec<u8>>,
    /// Substrings of the path within the volume, folded unless the case counts.
    pub path_terms: Vec<Vec<u8>>,
    /// Patterns for the whole name, folded unless the case counts.
    pub wildcards: Vec<Wildcard>,
    pub filters: Filters,
    /// Whether the case counts.
    pub match_case: bool,
}

/// Why a query is refused.
#[derive(Clone, Copy, Debug, PartialEq, Eq, Structural)]
pub enum QueryError {
    /// A word uses an operator that is not supported.
    UnsupportedOperator,
    /// `ext:` names no extension.
    NoExtension,
    /// The argument of `size:` cannot be read.
    BadSize,
    /// A filter is given twice.
    Repeated,
}

impl QueryError {
    /// What the error says to the user.
    pub open spec fn text(self) -> Seq<char> {
        match self {
            QueryError::UnsupportedOperator => "the query uses an operator that is not supported"@,
            QueryError::NoExtension => "ext: names no extension"@,
            QueryError::BadSize => "the argument of size: cannot be read"@,
            QueryError::Repeated => "the query gives a filter twice"@,
        }
    }

    /// What the error says to the user.
    pub fn message(&self) -> (text: String)
        ensures
            text@ == self.text(),
    {
        match self {
            QueryError::UnsupportedOperator => {
                "the query uses an operator that is not supported".to_string()
            },
            QueryError::NoExtension => "ext: names no extension".to_string(),
            QueryError::BadSize => "the argument of size: cannot be read".to_string(),
            QueryError::Repeated => "the query gives a filter twice".to_string(),
        }
    }
}

/// A query as mathematics.
#[verifier::ext_equal]
pub struct QueryModel {
    pub names: Seq<Seq<u8>>,
    pub paths: Seq<Seq<u8>>,
    pub patterns: Seq<Seq<WildToken>>,
    pub ext: Option<Seq<Seq<u8>>>,
    pub size: Option<SizeRange>,
    pub kind: Option<Kind>,
    pub match_case: bool,
}

impl ParsedQuery {
    /// The content of the query.
    pub open spec fn model(&self) -> QueryModel {
        QueryModel {
            names: texts(self.name_terms@),
            paths: texts(self.path_terms@),
            patterns: self.wildcards@.map_values(|w: Wildcard| w.tokens()),
            ext: match self.filters.ext {
                Some(exts) => Some(texts(exts@)),
                None => None,
            },
            size: self.filters.size,
            kind: self.filters.kind,
            match_case: self.match_case,
        }
    }
}

/// `ext:`
pub open spec fn ext_prefix() -> Seq<u8> {
    seq![0x65u8, 0x78u8, 0x74u8, 0x3Au8]
}

/// `size:`
pub open spec fn size_prefix() -> Seq<u8> {
    seq![0x73u8, 0x69u8, 0x7Au8, 0x65u8, 0x3Au8]
}

/// `file:`
pub open spec fn file_word() -> Seq<u8> {
    seq![0x66u8, 0x69u8, 0x6Cu8, 0x65u8, 0x3Au8]
}

/// `folder:`
pub open spec fn folder_word() -> Seq<u8> {
    seq![0x66u8, 0x6Fu8, 0x6Cu8, 0x64u8, 0x65u8, 0x72u8, 0x3Au8]
}

/// `case:`
pub open spec fn case_word() -> Seq<u8> {
    seq![0x63u8, 0x61u8, 0x73u8, 0x65u8, 0x3Au8]
}

/// A byte that no plain word may hold: `:`, `|`, `<`, `>` and the double quote.
pub open spec fn is_operator(b: u8) -> bool {
    b == 0x3A || b == 0x7C || b == 0x3C || b == 0x3E || b == 0x22
}

/// The word uses an operator: one of the bytes above, or a leading `!`.
pub open spec fn has_operator(word: Seq<u8>) -> bool {
    (word.len() > 0 && word[0] == 0x21) || exists|k: int|
        0 <= k < word.len() && is_operator(#[trigger] word[k])
}

/// Some byte of the word is a wildcard.
pub open spec fn has_wildcard(word: Seq<u8>) -> bool {
    exists|k: int| 0 <= k < word.len() && ((#[trigger] word[k]) == 0x2A || word[k] == 0x3F)
}

/// Some byte of the word is a separator.
pub open spec fn has_separator(word: Seq<u8>) -> bool {
    exists|k: int| 0 <= k < word.len() && Cut::Separators.at(#[trigger] word[k])
}

/// The path with `/` written as `\\`.
pub open spec fn normal_path(word: Seq<u8>) -> Seq<u8> {
    word.map_values(
        |b: u8|
            if b == 0x2F {
                0x5Cu8
            } else {
                b
            },
    )
}

/// The query with one more word.
pub open spec fn with_word(m: QueryModel, word: Seq<u8>) -> Result<QueryModel, QueryError> {
    let low = folded(word);
    let text = if m.match_case {
        word
    } else {
        low
    };
    if low == case_word() {
        Ok(m)
    } else if low == file_word() || low == folder_word() {
        if m.kind is Some {
            Err(QueryError::Repeated)
        } else {
            Ok(
                QueryModel {
                    kind: Some(
                        if low == file_word() {
                            Kind::File
                        } else {
                            Kind::Folder
                        },
                    ),
                    ..m
                },
            )
        }
    } else if starts_with(low, ext_prefix()) {
        let exts = pieces(Cut::Semicolons, low.skip(4));
        if m.ext is Some {
            Err(QueryError::Repeated)
        } else if exts.len() == 0 {
            Err(QueryError::NoExtension)
        } else {
            Ok(QueryModel { ext: Some(exts), ..m })
        }
    } else if starts_with(low, size_prefix()) {
        if m.size is Some {
            Err(QueryError::Repeated)
        } else {
            match size_range(low.skip(5)) {
                Some(r) => Ok(QueryModel { size: Some(r), ..m }),
                None => Err(QueryError::BadSize),
            }
        }
    } else if has_operator(word) {
        Err(QueryError::UnsupportedOperator)
    } else if has_separator(word) {
        if has_wildcard(word) {
            Err(QueryError::UnsupportedOperator)
        } else {
            Ok(QueryModel { paths: m.paths.push(normal_path(text)), ..m })
        }
    } else if has_wildcard(word) {
        Ok(QueryModel { patterns: m.patterns.push(pattern(text)), ..m })
    } else {
        Ok(QueryModel { names: m.names.push(text), ..m })
    }
}

/// The query with the words added, up to the first that is refused.
pub open spec fn with_words(m: QueryModel, words: Seq<Seq<u8>>) -> Result<QueryModel, QueryError>
    decreases words.len(),
{
    if words.len() == 0 {
        Ok(m)
    } else {
        match with_word(m, words[0]) {
            Ok(n) => with_words(n, words.drop_first()),
            Err(e) => Err(e),
        }
    }
}

/// Some word says that the case counts.
pub open spec fn asks_for_case(words: Seq<Seq<u8>>) -> bool {
    exists|k: int| 0 <= k < words.len() && folded(#[trigger] words[k]) == case_word()
}

/// What a query text means, or why it is refused.
pub open spec fn query_model(text: Seq<u8>) -> Result<QueryModel, QueryError> {
    let words = pieces(Cut::Blanks, text);
    with_words(
        QueryModel {
            names: seq![],
            paths: seq![],
            patterns: seq![],
            ext: None,
            size: None,
            kind: None,
            match_case: asks_for_case(words),
        },
        words,
    )
}

/// What the bytes of a word say.
struct Shape {
    operator: bool,
    wildcard: bool,
    separator: bool,
}

fn shape_of(word: &[u8]) -> (shape: Shape)
    ensures
        shape.operator == has_operator(word@),
        shape.wildcard == has_wildcard(word@),
        shape.separator == has_separator(word@),
{
    let mut operator = word.len() > 0 && word[0] == 0x21;
    let mut wildcard = false;
    let mut separator = false;
    let mut i: usize = 0;
    while i < word.len()
        invariant
            i <= word@.len(),
            operator == ((word@.len() > 0 && word@[0] == 0x21) || exists|k: int|
                0 <= k < i && is_operator(#[trigger] word@[k])),
            wildcard == exists|k: int|
                0 <= k < i && ((#[trigger] word@[k]) == 0x2A || word@[k] == 0x3F),
            separator == exists|k: int| 0 <= k < i && Cut::Separators.at(#[trigger] word@[k]),
        decreases word@.len() - i,
    {
        let b = word[i];
        if b == 0x3A || b == 0x7C || b == 0x3C || b == 0x3E || b == 0x22 {
            assert(is_operator(word@[i as int]));
            operator = true;
        }
        if b == 0x2A || b == 0x3F {
            assert(word@[i as int] == 0x2A || word@[i as int] == 0x3F);
            wildcard = true;
        }
        if Cut::Separators.at(b) {
            assert(Cut::Separators.at(word@[i as int]));
            separator = true;
        }
        i += 1;
    }
    Shape { operator, wildcard, separator }
}

fn to_normal_path(word: &[u8]) -> (path: Vec<u8>)
    ensures
        path@ == normal_path(word@),
{
    let mut path: Vec<u8> = Vec::new();
    let mut i: usize = 0;
    while i < word.len()
        invariant
            i <= word@.len(),
            path@ == normal_path(word@).take(i as int),
        decreases word@.len() - i,
    {
        let b = if word[i] == 0x2F {
            0x5Cu8
        } else {
            word[i]
        };
        path.push(b);
        assert(path@ =~= normal_path(word@).take(i + 1));
        i += 1;
    }
    assert(normal_path(word@).take(i as int) =~= normal_path(word@));
    path
}

/// The part of a folded word behind a prefix.
fn behind(low: &Vec<u8>, n: usize) -> (t: &[u8])
    requires
        n <= low@.len(),
    ensures
        t@ == low@.skip(n as int),
{
    assert(low@.subrange(n as int, low@.len() as int) =~= low@.skip(n as int));
    slice_subrange(low.as_slice(), n, low.len())
}

/// Adds one word to the query.
#[verifier::rlimit(40)]
fn add_word(q: &mut ParsedQuery, word: &[u8]) -> (res: Result<(), QueryError>)
    ensures
        match res {
            Ok(_) => with_word(old(q).model(), word@) == Ok::<QueryModel, QueryError>(
                final(q).model(),
            ),
            Err(e) => with_word(old(q).model(), word@) == Err::<QueryModel, QueryError>(e),
        },
        final(q).match_case == old(q).match_case,
{
    let ext: [u8; 4] = [0x65, 0x78, 0x74, 0x3A];
    let size: [u8; 5] = [0x73, 0x69, 0x7A, 0x65, 0x3A];
    let file: [u8; 5] = [0x66, 0x69, 0x6C, 0x65, 0x3A];
    let folder: [u8; 7] = [0x66, 0x6F, 0x6C, 0x64, 0x65, 0x72, 0x3A];
    let case: [u8; 5] = [0x63, 0x61, 0x73, 0x65, 0x3A];
    proof {
        assert(ext@ =~= ext_prefix());
        assert(size@ =~= size_prefix());
        assert(file@ =~= file_word());
        assert(folder@ =~= folder_word());
        assert(case@ =~= case_word());
    }
    let ghost was = q.model();
    let low = fold(word);
    if same_bytes(low.as_slice(), case.as_slice()) {
        return Ok(());
    }
    let is_file = same_bytes(low.as_slice(), file.as_slice());
    if is_file || same_bytes(low.as_slice(), folder.as_slice()) {
        if q.filters.kind.is_some() {
            return Err(QueryError::Repeated);
        }
        q.filters.kind = Some(
            if is_file {
                Kind::File
            } else {
                Kind::Folder
            },
        );
        return Ok(());
    }
    if has_prefix(low.as_slice(), ext.as_slice()) {
        if q.filters.ext.is_some() {
            return Err(QueryError::Repeated);
        }
        let exts = split(Cut::Semicolons, behind(&low, 4));
        if exts.len() == 0 {
            assert(texts(exts@).len() == 0);
            return Err(QueryError::NoExtension);
        }
        assert(texts(exts@).len() > 0);
        q.filters.ext = Some(exts);
        return Ok(());
    }
    if has_prefix(low.as_slice(), size.as_slice()) {
        if q.filters.size.is_some() {
            return Err(QueryError::Repeated);
        }
        return match read_size(behind(&low, 5)) {
            Some(r) => {
                q.filters.size = Some(r);
                Ok(())
            },
            None => Err(QueryError::BadSize),
        };
    }
    let shape = shape_of(word);
    if shape.operator || (shape.separator && shape.wildcard) {
        return Err(QueryError::UnsupportedOperator);
    }
    let text = if q.match_case {
        copy_range(word, 0, word.len())
    } else {
        low
    };
    proof {
        assert(word@.subrange(0, word@.len() as int) =~= word@);
    }
    if shape.separator {
        q.path_terms.push(to_normal_path(text.as_slice()));
        assert(q.model().paths =~= was.paths.push(normal_path(text@)));
        assert(q.model() =~= (QueryModel { paths: was.paths.push(normal_path(text@)), ..was }));
    } else if shape.wildcard {
        q.wildcards.push(Wildcard::new(text.as_slice()));
        assert(q.model().patterns =~= was.patterns.push(pattern(text@)));
        assert(q.model() =~= (QueryModel { patterns: was.patterns.push(pattern(text@)), ..was }));
    } else {
        q.name_terms.push(text);
        assert(q.model().names =~= was.names.push(text@));
        assert(q.model() =~= (QueryModel { names: was.names.push(text@), ..was }));
    }
    Ok(())
}

/// Whether some word says that the case counts.
fn finds_case(words: &Vec<Vec<u8>>) -> (res: bool)
    ensures
        res == asks_for_case(texts(words@)),
{
    let case: [u8; 5] = [0x63, 0x61, 0x73, 0x65, 0x3A];
    assert(case@ =~= case_word());
    let mut i: usize = 0;
    while i < words.len()
        invariant
            i <= words@.len(),
            case@ == case_word(),
            forall|k: int|
                0 <= k < i ==> folded(#[trigger] texts(words@)[k]) != case_word(),
        decreases words@.len() - i,
    {
        let low = fold(words[i].as_slice());
        assert(low@ == folded(texts(words@)[i as int]));
        if same_bytes(low.as_slice(), case.as_slice()) {
            return true;
        }
        i += 1;
    }
    false
}

/// Takes a query apart, or refuses it.
pub fn parse_query(query: &str) -> (res: Result<ParsedQuery, QueryError>)
    ensures
        match res {
            Ok(q) => query_model(encode_utf8(query@)) == Ok::<QueryModel, QueryError>(q.model()),
            Err(e) => query_model(encode_utf8(query@)) == Err::<QueryModel, QueryError>(e),
        },
{
    let text = query.as_bytes();
    let words = split(Cut::Blanks, text);
    let mut q = ParsedQuery {
        name_terms: Vec::new(),
        path_terms: Vec::new(),
        wildcards: Vec::new(),
        filters: Filters { ext: None, size: None, kind: None },
        match_case: finds_case(&words),
    };
    let ghost list = texts(words@);
    proof {
        assert(q.model().names =~= Seq::<Seq<u8>>::empty());
        assert(q.model().paths =~= Seq::<Seq<u8>>::empty());
        assert(q.model().patterns =~= Seq::<Seq<WildToken>>::empty());
        assert(list.skip(0) =~= list);
        assert(query_model(text@) == with_words(q.model(), list));
    }
    let mut i: usize = 0;
    while i < words.len()
        invariant
            i <= words@.len(),
            list == texts(words@),
            text@ == encode_utf8(query@),
            query_model(text@) == with_words(q.model(), list.skip(i as int)),
        decreases words@.len() - i,
    {
        proof {
            assert(list.skip(i as int)[0] == words@[i as int]@);
            assert(list.skip(i as int).drop_first() =~= list.skip(i + 1));
        }
        match add_word(&mut q, words[i].as_slice()) {
            Ok(_) => {},
            Err(e) => return Err(e),
        }
        i += 1;
    }
    Ok(q)
}

} // verus!
