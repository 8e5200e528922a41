//! What can go wrong while a file is analysed.

use vstd::prelude::*;

verus! {

/// The ways in which an analysis fails. No partial result comes with any of
/// them.
#[derive(Debug)]
pub enum CodeIntelError {
    /// The scope and definition pattern of the language did not compile
    /// against its grammar.
    QueryError(tree_sitter::QueryError),
    /// No language is registered under the given id.
    UnsupportedLanguage,
    /// The grammar could not be loaded into the parser.
    LanguageError(tree_sitter::LanguageError),
    /// The parser gave no tree that fits the source.
    ParseError,
}

} // verus!
