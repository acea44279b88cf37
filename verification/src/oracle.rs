use vstd::prelude::*;

use tree_sitter::StreamingIterator;

verus! {

#[verifier::external_type_specification]
#[verifier::external_body]
pub struct ExLanguage(tree_sitter::Language);

#[verifier::external_type_specification]
#[verifier::external_body]
pub struct ExQuery(tree_sitter::Query);

#[verifier::external_type_specification]
#[verifier::external_body]
pub struct ExQueryError(tree_sitter::QueryError);

#[verifier::external_type_specification]
#[verifier::external_body]
pub struct ExTree(tree_sitter::Tree);

/// Relies on tree_sitter_cpp::LANGUAGE: the compiled C++ grammar.
#[verifier::external_body]
pub(crate) fn cpp_language() -> tree_sitter::Language {
    tree_sitter::Language::from(tree_sitter_cpp::LANGUAGE)
}

/// Relies on tree_sitter_rust::LANGUAGE: the compiled Rust grammar.
#[verifier::external_body]
pub(crate) fn rust_language() -> tree_sitter::Language {
    tree_sitter::Language::from(tree_sitter_rust::LANGUAGE)
}

/// Relies on tree_sitter::Query::new, tree_sitter_cpp::HIGHLIGHT_QUERY and
/// tree_sitter_c::HIGHLIGHT_QUERY: each grammar ships with highlight queries
/// written for it, and the C++ queries are written to sit on top of the C
/// ones (the C++ grammar leaves the shared C vocabulary to them), so the
/// combined source compiles against the C++ grammar.
#[verifier::external_body]
pub(crate) fn cpp_query() -> (r: Result<tree_sitter::Query, tree_sitter::QueryError>)
    ensures
        r is Ok,
{
    tree_sitter::Query::new(
        &tree_sitter::Language::from(tree_sitter_cpp::LANGUAGE),
        &format!("{}\n{}", tree_sitter_cpp::HIGHLIGHT_QUERY, tree_sitter_c::HIGHLIGHT_QUERY),
    )
}

/// Relies on tree_sitter::Query::new and tree_sitter_rust::HIGHLIGHTS_QUERY:
/// the highlight queries bundled with the Rust grammar compile against it.
#[verifier::external_body]
pub(crate) fn rust_query() -> (r: Result<tree_sitter::Query, tree_sitter::QueryError>)
    ensures
        r is Ok,
{
    tree_sitter::Query::new(
        &tree_sitter::Language::from(tree_sitter_rust::LANGUAGE),
        tree_sitter_rust::HIGHLIGHTS_QUERY,
    )
}

/// Relies on tree_sitter::Query::capture_names: the category name of each
/// capture index the query can emit, in index order.
#[verifier::external_body]
pub(crate) fn query_capture_names(query: &tree_sitter::Query) -> Vec<Vec<u8>> {
    query.capture_names().iter().map(|s| s.as_bytes().to_vec()).collect()
}

#[verifier::external_type_specification]
#[verifier::external_body]
pub struct ExParser(tree_sitter::Parser);

/// Relies on tree_sitter::Parser::new: a fresh parser with no language set.
#[verifier::external_body]
pub(crate) fn parser_new() -> tree_sitter::Parser {
    tree_sitter::Parser::new()
}

/// Relies on tree_sitter::Parser::set_language: loads a grammar into the
/// parser; false when the grammar's version does not fit this runtime.
#[verifier::external_body]
pub(crate) fn parser_set_language(parser: &mut tree_sitter::Parser, language: &tree_sitter::Language) -> bool {
    parser.set_language(language).is_ok()
}

/// Relies on tree_sitter::Parser::parse: parses the source bytes; `None`
/// when the parser has no language or parsing was cancelled.
#[verifier::external_body]
pub(crate) fn parser_parse(parser: &mut tree_sitter::Parser, src: &Vec<u8>) -> Option<tree_sitter::Tree> {
    parser.parse(src.as_slice(), None)
}

/// Relies on tree_sitter::QueryCursor::captures and Tree::root_node: every
/// capture the query engine yields against the tree, in its own order, as
/// (start byte, end byte, query-local capture index).
#[verifier::external_body]
pub(crate) fn collect_captures(
    query: &tree_sitter::Query,
    tree: &tree_sitter::Tree,
    src: &Vec<u8>,
) -> Vec<(usize, usize, usize)> {
    let mut cursor = tree_sitter::QueryCursor::new();
    let mut caps = cursor.captures(query, tree.root_node(), src.as_slice());
    let mut out: Vec<(usize, usize, usize)> = Vec::new();
    while let Some((m, i)) = caps.next() {
        let c = m.captures()[*i];
        out.push((c.node.start_byte(), c.node.end_byte(), c.index as usize));
    }
    out
}

/// Relies on String::from_utf8: returns the string whose UTF-8 encoding is
/// exactly the input, and succeeds precisely on valid UTF-8.
#[verifier::external_body]
pub(crate) fn string_from_utf8(bytes: Vec<u8>) -> (r: Option<String>)
    ensures
        r matches Some(s) ==> vstd::utf8::encode_utf8(s@) == bytes@,
        vstd::utf8::valid_utf8(bytes@) ==> r is Some,
{
    String::from_utf8(bytes).ok()
}

} // verus!
