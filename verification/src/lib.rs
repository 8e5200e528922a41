//! File-local symbol tables for source code.
//!
//! A source file is parsed into a concrete syntax tree, and a query marks some
//! of its nodes as scope boundaries and some as definitions. From these the
//! crate derives, for every defined name, the span where it is defined and the
//! spans of the identifiers that refer to it, scoped by nesting.

pub mod alike;
pub mod analysis;
pub mod capture;
pub mod error;
pub mod language;
pub mod laws;
pub mod reader;
pub mod resolve;
pub mod scope;
pub mod select;
pub mod symbol;
pub mod syntax;
pub mod treesitter;

pub use crate::error::CodeIntelError;
pub use crate::language::{LanguageSpec, MemoizedQuery};
pub use crate::symbol::Symbol;

use crate::analysis::{captured_symbols, lemma_captured_symbols_consistent, symbols_of_captures};
use crate::capture::Capture;
use crate::language::golang::{lemma_query_is_plain, GO_ID, GO_LOCAL_QUERY};
use crate::language::{find_language, languages, registered};
use crate::reader::{lists, read_tree, same_node};
use crate::symbol::{consistent, symbol_views, SymbolView};
use crate::syntax::{node_fits, well_formed, SyntaxNode, SyntaxTree};
use crate::treesitter::{
    ascii, capture_names, collect_captures, handed, listing, new_parser, parse, parsed_text,
    preorder, query_fault, root_node, run, set_language, slots, tree_grammar, tree_root,
};
use vstd::prelude::*;

verus! {

/// Whether `found` lists the symbols of the tree below `root` over `source`
/// under a run that gave the capture names `names` and the events `events`.
pub open spec fn symbols_below(
    root: tree_sitter::Node,
    names: Seq<String>,
    events: Seq<Capture>,
    source: Seq<u8>,
    found: Seq<SymbolView>,
) -> bool {
    exists|nodes: Seq<SyntaxNode>|
        #![trigger lists(nodes, listing(root))]
        lists(nodes, listing(root)) && nodes.len() <= usize::MAX && well_formed(
            nodes,
            source.len(),
        ) && found == captured_symbols(nodes, names, events, source)
}

/// Whether the tree below `root` does not fit `source`.
pub open spec fn misfit(root: tree_sitter::Node, source: Seq<u8>) -> bool {
    exists|nodes: Seq<SyntaxNode>|
        #![trigger lists(nodes, listing(root))]
        lists(nodes, listing(root)) && !well_formed(nodes, source.len())
}

/// Whether the tree below `root` has more nodes than a list can index.
pub open spec fn too_long(root: tree_sitter::Node) -> bool {
    listing(root).len() > usize::MAX
}

/// Whether `found` lists the symbols of the tree `parsed`, a tree that the
/// parser gave for `source` under the grammar of `language`: its symbols under
/// the capture names of the compiled query of `language` and what a run of
/// that query on the tree and `source` captures.
pub open spec fn analysed_from(
    language: LanguageSpec,
    parsed: tree_sitter::Tree,
    source: Seq<u8>,
    found: Seq<SymbolView>,
) -> bool {
    &&& parsed_text(parsed) == source
    &&& tree_grammar(parsed) == language.lang
    &&& symbols_below(
        tree_root(parsed),
        slots(language.local_query.compiled()),
        run(language.local_query.compiled(), tree_root(parsed), source),
        source,
        found,
    )
}

/// Whether `found` lists the symbols of `source` in `language`: those of a
/// tree that the parser gave for `source` under the grammar of `language`.
pub open spec fn analysed(language: LanguageSpec, source: Seq<u8>, found: Seq<SymbolView>) -> bool {
    exists|parsed: tree_sitter::Tree| #[trigger] analysed_from(language, parsed, source, found)
}

/// Whether the language at place `i` is the first that `registry` holds under
/// `lang_id`.
pub open spec fn chosen(registry: Seq<LanguageSpec>, lang_id: Seq<char>, i: int) -> bool {
    &&& 0 <= i < registry.len()
    &&& registry[i].lang_id@ == lang_id
    &&& forall|j: int| 0 <= j < i ==> (#[trigger] registry[j]).lang_id@ != lang_id
}

/// Reads the tree that the parser gave, if it gave one, and tests that it fits
/// the source. Fails with `ParseError` exactly where the parser gave no tree,
/// or one that has more nodes than a list can index or does not fit the
/// source.
pub fn fitting_tree(answer: &Option<tree_sitter::Tree>, src: &[u8]) -> (outcome: Result<
    SyntaxTree,
    CodeIntelError,
>)
    ensures
        match outcome {
            Ok(tree) => *answer matches Some(parsed) && lists(tree@, listing(tree_root(parsed)))
                && preorder(tree@) && well_formed(tree@, src@.len()),
            Err(e) => e is ParseError && (*answer matches Some(parsed) ==> too_long(
                tree_root(parsed),
            ) || misfit(tree_root(parsed), src@)),
        },
{
    let parsed = match answer {
        Some(parsed) => parsed,
        None => {
            return Err(CodeIntelError::ParseError);
        },
    };
    let tree = match read_tree(parsed) {
        Some(tree) => tree,
        None => {
            return Err(CodeIntelError::ParseError);
        },
    };
    if tree.is_well_formed(src.len()) {
        Ok(tree)
    } else {
        proof {
            assert(lists(tree@, listing(tree_root(*parsed))));
        }
        Err(CodeIntelError::ParseError)
    }
}

/// Derives the symbols of a file from the parser's tree and the outcome of a
/// query run on it. Fails with `ParseError` exactly where the tree has more
/// nodes than a list can index or does not fit the source.
pub fn symbols_under(
    parsed: &tree_sitter::Tree,
    names: &Vec<String>,
    events: &Vec<Capture>,
    src: &[u8],
) -> (outcome: Result<Vec<Symbol>, CodeIntelError>)
    ensures
        match outcome {
            Ok(found) => symbols_below(
                tree_root(*parsed),
                names@,
                events@,
                src@,
                symbol_views(found@),
            ) && consistent(symbol_views(found@), src@),
            Err(e) => e is ParseError && (too_long(tree_root(*parsed)) || misfit(
                tree_root(*parsed),
                src@,
            )),
        },
{
    let tree = match read_tree(parsed) {
        Some(tree) => tree,
        None => {
            return Err(CodeIntelError::ParseError);
        },
    };
    match symbols_of_captures(&tree, names, events, src) {
        Some(found) => {
            proof {
                lemma_captured_symbols_consistent(tree@, names@, events@, src@);
                assert(lists(tree@, listing(tree_root(*parsed))));
                assert(tree@.len() == tree.nodes.len());
            }
            Ok(found)
        },
        None => {
            proof {
                assert(lists(tree@, listing(tree_root(*parsed))));
            }
            Err(CodeIntelError::ParseError)
        },
    }
}

/// Analyses `src` as a file of the first language that `registry` holds under
/// `lang_id`: parses it with the grammar of that language, runs the language's
/// query on the tree, and derives the symbols from the tree and the captures.
///
/// Fails with `UnsupportedLanguage` exactly where the registry holds no such
/// language. A `QueryError` carries the diagnostic with which the language's
/// pattern fails to compile against its grammar. The other failures are the
/// parser's: `LanguageError` where the grammar does not load, `ParseError`
/// where there is no tree, or none that fits the source.
pub fn code_intel_in(src: &[u8], lang_id: &str, registry: &Vec<LanguageSpec>) -> (outcome: Result<
    Vec<Symbol>,
    CodeIntelError,
>)
    ensures
        (outcome matches Err(CodeIntelError::UnsupportedLanguage)) <==> !registered(
            registry@,
            lang_id@,
        ),
        outcome matches Ok(found) ==> consistent(symbol_views(found@), src@) && exists|i: int|
            chosen(registry@, lang_id@, i) && analysed(
                #[trigger] registry@[i],
                src@,
                symbol_views(found@),
            ),
        outcome matches Err(CodeIntelError::QueryError(e)) ==> exists|i: int|
            chosen(registry@, lang_id@, i) && (ascii((#[trigger] registry@[i]).local_query.pattern())
                ==> query_fault(registry@[i].lang, handed(registry@[i].local_query.pattern()))
                == Some(e)),
{
    let language = match find_language(registry, lang_id) {
        Some(i) => &registry[i],
        None => {
            return Err(CodeIntelError::UnsupportedLanguage);
        },
    };
    let mut parser = new_parser();
    match set_language(&mut parser, language.lang) {
        Ok(()) => {},
        Err(e) => {
            return Err(CodeIntelError::LanguageError(e));
        },
    }
    let answer = parse(&mut parser, src);
    let tree = match fitting_tree(&answer, src) {
        Ok(tree) => tree,
        Err(e) => {
            return Err(e);
        },
    };
    let parsed = match &answer {
        Some(parsed) => parsed,
        None => {
            return Err(CodeIntelError::ParseError);
        },
    };
    let query = match language.local_query.query(language.lang) {
        Ok(query) => query,
        Err(e) => {
            return Err(CodeIntelError::QueryError(e));
        },
    };
    let names = capture_names(query);
    let root = root_node(parsed);
    proof {
        assert forall|i: int| 0 <= i < listing(root).len() implies (#[trigger] listing(
            root,
        )[i]).range.end_byte <= src@.len() by {
            assert(same_node(tree@[i], listing(root)[i]));
            assert(node_fits(tree@, i, src@.len()));
        }
    }
    let events = collect_captures(query, root, src);
    match symbols_of_captures(&tree, &names, &events, src) {
        Some(found) => {
            proof {
                lemma_captured_symbols_consistent(tree@, names@, events@, src@);
                assert(lists(tree@, listing(tree_root(*parsed))));
                assert(tree@.len() == tree.nodes.len());
                assert(analysed_from(*language, *parsed, src@, symbol_views(found@)));
            }
            Ok(found)
        },
        None => Err(CodeIntelError::ParseError),
    }
}

/// Analyses `src` as a file of the language `lang_id`, one of the languages
/// that come with the library: Go, under the id `go`.
pub fn code_intel(src: &[u8], lang_id: &str) -> (outcome: Result<Vec<Symbol>, CodeIntelError>)
    ensures
        (outcome matches Err(CodeIntelError::UnsupportedLanguage)) <==> lang_id@ != GO_ID@,
        outcome matches Ok(found) ==> consistent(symbol_views(found@), src@) && exists|
            language: LanguageSpec,
        |
            language.lang_id@ == GO_ID@ && language.local_query.pattern() == GO_LOCAL_QUERY@
                && #[trigger] analysed(language, src@, symbol_views(found@)),
        outcome matches Err(CodeIntelError::QueryError(e)) ==> exists|grammar: tree_sitter::Language|
            #[trigger] query_fault(grammar, GO_LOCAL_QUERY@) == Some(e),
{
    let registry = languages();
    proof {
        lemma_query_is_plain();
        if lang_id@ == GO_ID@ {
            assert(registry@[0].lang_id@ == lang_id@);
        }
    }
    code_intel_in(src, lang_id, &registry)
}

} // verus!
