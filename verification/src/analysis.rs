//! From a tree and its captured nodes to the symbols of the file.

use crate::capture::{
    capture_slot, captured, captured_nodes, find_capture_slot, locate, located, Capture,
    DEFINITION_CAPTURE, SCOPE_CAPTURE,
};
use crate::resolve::{resolve_references, resolved, resolved_table};
use crate::scope::{binding_of, build_scope_table, flatten, scope_table, BindingView};
use crate::symbol::{
    binding_defs, consistent, symbol_of, symbol_views, symbols, Symbol, SymbolView,
};
use crate::syntax::{mark_scopes, scope_marks, well_formed, Range, SyntaxNode, SyntaxTree};
use vstd::prelude::*;

verus! {

/// Resolving the scope table of the definitions alone gives the scope table
/// with the references among the first `n` nodes, and its symbols are the
/// symbols of the file once all nodes are resolved.
pub proof fn lemma_resolved_scope_table(
    nodes: Seq<SyntaxNode>,
    marks: Seq<bool>,
    defs: Seq<usize>,
    source: Seq<u8>,
    n: nat,
)
    ensures
        resolved_table(scope_table(nodes, marks, defs, source, 0), nodes, marks, source, n)
            == scope_table(nodes, marks, defs, source, n),
        scope_table(nodes, marks, defs, source, nodes.len()).map_values(
            |b: BindingView| b.symbol,
        ) == symbols(nodes, marks, defs, source),
{
    let bare = scope_table(nodes, marks, defs, source, 0);
    let full = scope_table(nodes, marks, defs, source, n);
    let binding = binding_defs(nodes, marks, defs, source);
    assert forall|j: int| 0 <= j < bare.len() implies resolved(bare[j], nodes, marks, source, n)
        == full[j] by {
        let d = defs[binding[j]] as int;
        assert(bare[j] == binding_of(nodes, marks, source, d, 0));
        assert(full[j] == binding_of(nodes, marks, source, d, n));
        assert(bare[j].symbol.refs =~= Seq::<Range>::empty());
        assert(resolved(bare[j], nodes, marks, source, n).symbol.refs =~= full[j].symbol.refs);
    }
    assert(resolved_table(bare, nodes, marks, source, n) =~= full);
    let last = scope_table(nodes, marks, defs, source, nodes.len());
    assert forall|j: int| 0 <= j < last.len() implies last[j].symbol == symbols(
        nodes,
        marks,
        defs,
        source,
    )[j] by {
        let d = defs[binding[j]] as int;
        assert(last[j] == binding_of(nodes, marks, source, d, nodes.len()));
        assert(symbols(nodes, marks, defs, source)[j] == symbol_of(nodes, marks, source, d));
    }
    assert(last.map_values(|b: BindingView| b.symbol) =~= symbols(nodes, marks, defs, source));
}

/// Derives the symbols of a file from its syntax tree, the nodes captured as
/// scopes and the nodes captured as definitions, both given by their positions
/// in the tree.
///
/// Each definition is assigned to its nearest enclosing scope; one without a
/// scope is dropped, and of several with the same text in one scope the last
/// one stands. Each identifier-like node is then bound in its nearest
/// enclosing scope only.
pub fn resolve_symbols(
    tree: &SyntaxTree,
    scopes: &Vec<usize>,
    definitions: &Vec<usize>,
    source: &[u8],
) -> (found: Vec<Symbol>)
    requires
        well_formed(tree@, source@.len()),
    ensures
        symbol_views(found@) == symbols(
            tree@,
            scope_marks(tree@.len(), scopes@),
            definitions@,
            source@,
        ),
{
    let marks = mark_scopes(tree.nodes.len(), scopes);
    let mut table = build_scope_table(tree, &marks, definitions, source);
    resolve_references(tree, &marks, source, &mut table);
    proof {
        lemma_resolved_scope_table(tree@, marks@, definitions@, source@, tree@.len());
    }
    flatten(table)
}

/// The symbols of a file, from its syntax tree and the outcome of a query run:
/// the capture names of the query and the events of the run. The nodes
/// captured as `scope` are the scopes, those captured as `definition` the
/// definitions; captures under other names count for nothing.
pub open spec fn captured_symbols(
    nodes: Seq<SyntaxNode>,
    names: Seq<String>,
    events: Seq<Capture>,
    source: Seq<u8>,
) -> Seq<SymbolView> {
    symbols(
        nodes,
        scope_marks(
            nodes.len(),
            located(nodes, captured(events, capture_slot(names, SCOPE_CAPTURE@))),
        ),
        located(nodes, captured(events, capture_slot(names, DEFINITION_CAPTURE@))),
        source,
    )
}

/// Whatever a query run captured on a well-formed tree, the symbols are
/// consistent with the source.
pub proof fn lemma_captured_symbols_consistent(
    nodes: Seq<SyntaxNode>,
    names: Seq<String>,
    events: Seq<Capture>,
    source: Seq<u8>,
)
    requires
        well_formed(nodes, source.len()),
    ensures
        consistent(captured_symbols(nodes, names, events, source), source),
{
    crate::laws::lemma_symbols_consistent(
        nodes,
        scope_marks(
            nodes.len(),
            located(nodes, captured(events, capture_slot(names, SCOPE_CAPTURE@))),
        ),
        located(nodes, captured(events, capture_slot(names, DEFINITION_CAPTURE@))),
        source,
    );
}

/// Derives the symbols of a file from its syntax tree and the outcome of a
/// query run on it. Gives `None` exactly where the tree does not fit the
/// source.
pub fn symbols_of_captures(
    tree: &SyntaxTree,
    names: &Vec<String>,
    events: &Vec<Capture>,
    source: &[u8],
) -> (found: Option<Vec<Symbol>>)
    ensures
        match found {
            Some(found) => well_formed(tree@, source@.len()) && symbol_views(found@)
                == captured_symbols(tree@, names@, events@, source@),
            None => !well_formed(tree@, source@.len()),
        },
{
    if !tree.is_well_formed(source.len()) {
        return None;
    }
    let scope_slot = find_capture_slot(names, SCOPE_CAPTURE);
    let definition_slot = find_capture_slot(names, DEFINITION_CAPTURE);
    let scopes = locate(tree, &captured_nodes(events, scope_slot));
    let definitions = locate(tree, &captured_nodes(events, definition_slot));
    Some(resolve_symbols(tree, &scopes, &definitions, source))
}

} // verus!
