//! The query grammar, size arguments and patterns.

use goz::query::parse::{parse_query, Kind, QueryError, SizeRange};
use goz::query::size::read_size;
use goz::query::wildcard::Wildcard;
use goz::query::CompiledQuery;
use goz::wtf8::CodePointBuf;

fn refused(query: &str) -> QueryError {
    match parse_query(query) {
        Ok(_) => panic!("{query:?} must be refused"),
        Err(e) => e,
    }
}

#[test]
fn words_are_sorted_into_terms() {
    let q = parse_query(r"Report sub/Dir *.PDF").unwrap();
    assert_eq!(q.name_terms, [b"report"]);
    assert_eq!(q.path_terms, [br"sub\dir"]);
    assert_eq!(q.wildcards.len(), 1);
    assert!(!q.match_case);
}

#[test]
fn filters_are_read() {
    let q = parse_query("ext:PDF;docx size:1kb..2kb file:").unwrap();
    assert_eq!(q.filters.ext, Some(vec![b"pdf".to_vec(), b"docx".to_vec()]));
    assert_eq!(q.filters.size, Some(SizeRange { min: 1024, max: 2048 }));
    assert_eq!(q.filters.kind, Some(Kind::File));
    assert_eq!(parse_query("FOLDER:").unwrap().filters.kind, Some(Kind::Folder));
}

#[test]
fn the_case_counts_for_every_word_wherever_it_is_asked_for() {
    let q = parse_query("Report case:").unwrap();
    assert!(q.match_case);
    assert_eq!(q.name_terms, [b"Report"]);
}

#[test]
fn each_error_has_its_query_and_its_text() {
    for query in ["a|b", "!a", "a:b", "<a", "a>", "\"a b\"", r"a\*"] {
        assert_eq!(refused(query), QueryError::UnsupportedOperator, "{query}");
    }
    assert_eq!(refused("ext:"), QueryError::NoExtension);
    assert_eq!(refused("ext:;"), QueryError::NoExtension);
    assert_eq!(refused("size:>>bogus"), QueryError::BadSize);
    assert_eq!(refused("size:"), QueryError::BadSize);
    assert_eq!(refused("file: folder:"), QueryError::Repeated);
    assert_eq!(refused("size:1 size:2"), QueryError::Repeated);
    assert_eq!(refused("ext:a ext:b"), QueryError::Repeated);

    assert_eq!(
        QueryError::UnsupportedOperator.message(),
        "the query uses an operator that is not supported"
    );
    assert_eq!(QueryError::NoExtension.message(), "ext: names no extension");
    assert_eq!(QueryError::BadSize.message(), "the argument of size: cannot be read");
    assert_eq!(QueryError::Repeated.message(), "the query gives a filter twice");
}

#[test]
fn size_arguments_give_ranges() {
    let range = |text: &str| read_size(text.as_bytes()).map(|r| (r.min, r.max));
    assert_eq!(range("100"), Some((100, 100)));
    assert_eq!(range("=100"), Some((100, 100)));
    assert_eq!(range(">100"), Some((101, u64::MAX)));
    assert_eq!(range(">=1mb"), Some((1 << 20, u64::MAX)));
    assert_eq!(range("<100"), Some((0, 99)));
    assert_eq!(range("<=100"), Some((0, 100)));
    assert_eq!(range("1kb..1mb"), Some((1 << 10, 1 << 20)));
    assert_eq!(range(">>1"), None);
    assert_eq!(range("99999999999999999999999"), None);
}

#[test]
fn patterns_match_whole_names() {
    let mut buf = CodePointBuf::new();
    let mut matched = |pattern: &str, name: &str| {
        Wildcard::new(pattern.as_bytes()).matches_into(name.as_bytes(), &mut buf)
    };
    assert!(matched("*.pdf", "report.pdf"));
    assert!(!matched("*.pdf", "report.pdf.bak"));
    assert!(matched("r?port*", "report"));
    assert!(!matched("r?port", "rport"));
    assert!(matched("*", ""));
    assert!(matched("?", "\u{1F600}"), "a wildcard stands for a code point");
    assert!(matched("a*b*c", "aXbYbZc"));
    assert!(!matched("a*b*c", "aXbYbZ"));
}

#[test]
fn the_longest_literal_of_a_pattern_drives_the_search() {
    assert_eq!(
        Wildcard::new(b"a*report?.b").longest_literal(),
        Some(b"report".to_vec())
    );
    assert_eq!(Wildcard::new(b"*?*").longest_literal(), None);
    assert_eq!(
        Wildcard::new(b"x*abc*def?gh").longest_literal(),
        Some(b"abc".to_vec()),
        "the first of equally long runs"
    );
}

#[test]
fn the_first_of_equally_long_candidates_drives_the_search() {
    let driver = |query: &str| {
        let parsed = parse_query(query).unwrap();
        CompiledQuery::new(&parsed).driver().cloned()
    };
    assert_eq!(driver("*xyzw* abcd efgh ext:pdf"), Some(b"abcd".to_vec()));
    assert_eq!(driver("ext:pdf *xyzw* *.abc"), Some(b"xyzw".to_vec()));
    assert_eq!(driver("ab ext:pdf"), Some(b".pdf".to_vec()));
    assert_eq!(driver("ext:pdf;doc"), None);
}
