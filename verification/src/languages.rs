//! Per-language grammar bundles.
//!
//! [`bundle`] returns a populated [`TsLanguage`] for one [`Language`]. Rust
//! and Python are wired to their upstream grammar crates; the other
//! languages have no grammar wired in, and a host that needs one builds a
//! [`TsLanguage`] by hand.

use vstd::prelude::*;

use tree_sitter::Language as Grammar;

verus! {

/// `tree_sitter::Language`, a compiled grammar.
#[verifier::external_type_specification]
#[verifier::external_body]
pub struct ExGrammar(Grammar);

/// A grammar with its queries.
pub struct TsLanguage {
    /// The compiled grammar.
    pub language: Grammar,
    /// The highlights query (`highlights.scm`).
    pub highlights_query: String,
    /// The injections query, when the grammar ships one.
    pub injections_query: Option<String>,
    /// The indent query, when there is one.
    pub indent_query: Option<String>,
}

/// A built-in language.
#[derive(Clone, Copy, Debug, PartialEq, Eq, Structural, Hash)]
pub enum Language {
    Rust,
    Python,
    Javascript,
    Typescript,
    Bash,
    Go,
    Json,
    Yaml,
    Toml,
    Html,
    Css,
}

/// The languages with a grammar wired in. The wrappers below hand out the
/// grammar crates' constants; nothing is stated of the grammars or of the
/// query texts.
pub open spec fn is_wired(language: Language) -> bool {
    language == Language::Rust || language == Language::Python
}

/// `tree_sitter_rust::LANGUAGE` as a `tree_sitter::Language`.
#[verifier::external_body]
fn rust_grammar() -> (l: Grammar) {
    tree_sitter_rust::LANGUAGE.into()
}

/// `tree_sitter_rust::HIGHLIGHTS_QUERY` as a `String`.
#[verifier::external_body]
fn rust_highlights() -> (q: String) {
    tree_sitter_rust::HIGHLIGHTS_QUERY.to_string()
}

/// `tree_sitter_rust::INJECTIONS_QUERY` as a `String`.
#[verifier::external_body]
fn rust_injections() -> (q: String) {
    tree_sitter_rust::INJECTIONS_QUERY.to_string()
}

/// `tree_sitter_python::LANGUAGE` as a `tree_sitter::Language`.
#[verifier::external_body]
fn python_grammar() -> (l: Grammar) {
    tree_sitter_python::LANGUAGE.into()
}

/// `tree_sitter_python::HIGHLIGHTS_QUERY` as a `String`.
#[verifier::external_body]
fn python_highlights() -> (q: String) {
    tree_sitter_python::HIGHLIGHTS_QUERY.to_string()
}

/// The grammar bundle of a wired [`Language`]: Rust with its highlights and
/// injections queries, Python with its highlights query (its grammar ships
/// no injections query); neither has an indent query.
pub fn bundle(language: Language) -> (t: TsLanguage)
    requires
        is_wired(language),
    ensures
        t.injections_query is Some <==> language == Language::Rust,
        t.indent_query is None,
{
    match language {
        Language::Rust => TsLanguage {
            language: rust_grammar(),
            highlights_query: rust_highlights(),
            injections_query: Some(rust_injections()),
            indent_query: None,
        },
        _ => TsLanguage {
            language: python_grammar(),
            highlights_query: python_highlights(),
            injections_query: None,
            indent_query: None,
        },
    }
}

} // verus!
