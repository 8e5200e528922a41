//! What holds of the symbols of every file.

use crate::{analysed_from, symbols_below};
use crate::alike::{alike, lemma_alike_captured_symbols};
use crate::analysis::captured_symbols;
use crate::capture::{
    capture_slot, captured, located, Capture, DEFINITION_CAPTURE, SCOPE_CAPTURE,
};
use crate::language::LanguageSpec;
use crate::reader::{lists, same_node};
use crate::select::lemma_positions;
use crate::symbol::{
    binding_defs, consistent, prevailing, prevails, references, referring, referring_nodes,
    refers_to, same_binding, symbol_views, symbols, Symbol, SymbolView,
};
use crate::syntax::{
    nearest_scope, node_fits, scope_marks, text, well_formed, Range, SyntaxNode,
};
use crate::treesitter::{listing, preorder, run, slots, tree_root, up};
use vstd::prelude::*;

verus! {

/// The nearest scope of a node is a marked node at or above it, and its span
/// encloses the span of the node.
pub proof fn lemma_nearest_scope_encloses(
    nodes: Seq<SyntaxNode>,
    marks: Seq<bool>,
    source_len: nat,
    i: int,
)
    requires
        well_formed(nodes, source_len),
        nearest_scope(nodes, marks, i) is Some,
    ensures
        ({
            let s = nearest_scope(nodes, marks, i).unwrap();
            &&& 0 <= s <= i < nodes.len()
            &&& s < marks.len() && marks[s]
            &&& nodes[s].range.encloses(nodes[i].range)
        }),
    decreases i,
{
    assert(node_fits(nodes, i, source_len));
    if !(i < marks.len() && marks[i]) {
        let p = nodes[i].parent.unwrap() as int;
        lemma_nearest_scope_encloses(nodes, marks, source_len, p);
    }
}

/// The references to a name never hold the span of its definition.
pub proof fn lemma_references_exclude_definition(
    nodes: Seq<SyntaxNode>,
    marks: Seq<bool>,
    source: Seq<u8>,
    scope: int,
    def: Range,
    n: nat,
)
    ensures
        !references(nodes, marks, source, scope, def, n).contains(def),
{
    let found = references(nodes, marks, source, scope, def, n);
    let referring_to = referring_nodes(nodes, marks, source, scope, def, n);
    lemma_positions(n, referring(nodes, marks, source, scope, def));
    assert forall|a: int| 0 <= a < found.len() implies found[a] != def by {
        assert(refers_to(nodes, marks, source, scope, def, referring_to[a]));
    }
}

/// No symbol lists the span of its own definition
/// among its references.
pub proof fn lemma_definition_not_a_reference(
    nodes: Seq<SyntaxNode>,
    marks: Seq<bool>,
    defs: Seq<usize>,
    source: Seq<u8>,
)
    ensures
        forall|j: int|
            0 <= j < symbols(nodes, marks, defs, source).len() ==> !(#[trigger] symbols(
                nodes,
                marks,
                defs,
                source,
            )[j]).refs.contains(symbols(nodes, marks, defs, source)[j].def),
{
    let all = symbols(nodes, marks, defs, source);
    let binding = binding_defs(nodes, marks, defs, source);
    assert forall|j: int| 0 <= j < all.len() implies !(#[trigger] all[j]).refs.contains(
        all[j].def,
    ) by {
        let d = defs[binding[j]] as int;
        lemma_references_exclude_definition(
            nodes,
            marks,
            source,
            nearest_scope(nodes, marks, d).unwrap(),
            nodes[d].range,
            nodes.len(),
        );
    }
}

/// Every symbol comes from a definition node that has a
/// nearest scope, and the span of that scope node encloses the span of the
/// definition.
pub proof fn lemma_definition_within_scope(
    nodes: Seq<SyntaxNode>,
    marks: Seq<bool>,
    defs: Seq<usize>,
    source: Seq<u8>,
)
    requires
        well_formed(nodes, source.len()),
    ensures
        symbols(nodes, marks, defs, source).len() == binding_defs(nodes, marks, defs, source).len(),
        forall|j: int|
            0 <= j < symbols(nodes, marks, defs, source).len() ==> {
                let d = defs[#[trigger] binding_defs(nodes, marks, defs, source)[j]] as int;
                let owner = nearest_scope(nodes, marks, d);
                &&& owner is Some
                &&& 0 <= owner.unwrap() < nodes.len()
                &&& marks[owner.unwrap()]
                &&& symbols(nodes, marks, defs, source)[j].def == nodes[d].range
                &&& nodes[owner.unwrap()].range.encloses(symbols(nodes, marks, defs, source)[j].def)
            },
{
    let binding = binding_defs(nodes, marks, defs, source);
    lemma_positions(defs.len(), prevailing(nodes, marks, defs, source));
    assert forall|j: int| 0 <= j < binding.len() implies {
        let d = defs[#[trigger] binding[j]] as int;
        let owner = nearest_scope(nodes, marks, d);
        &&& owner is Some
        &&& 0 <= owner.unwrap() < nodes.len()
        &&& marks[owner.unwrap()]
        &&& symbols(nodes, marks, defs, source)[j].def == nodes[d].range
        &&& nodes[owner.unwrap()].range.encloses(symbols(nodes, marks, defs, source)[j].def)
    } by {
        assert(prevails(nodes, marks, defs, source, binding[j]));
        lemma_nearest_scope_encloses(nodes, marks, source.len(), defs[binding[j]] as int);
    }
}

/// A definition without an enclosing scope gives no symbol.
pub proof fn lemma_unscoped_definition_dropped(
    nodes: Seq<SyntaxNode>,
    marks: Seq<bool>,
    defs: Seq<usize>,
    source: Seq<u8>,
    k: int,
)
    requires
        0 <= k < defs.len(),
        nearest_scope(nodes, marks, defs[k] as int) is None,
    ensures
        !binding_defs(nodes, marks, defs, source).contains(k),
{
    let binding = binding_defs(nodes, marks, defs, source);
    lemma_positions(defs.len(), prevailing(nodes, marks, defs, source));
    if binding.contains(k) {
        let a = choose|a: int| 0 <= a < binding.len() && binding[a] == k;
        assert(prevails(nodes, marks, defs, source, binding[a]));
    }
}

/// Where no definition has an enclosing scope, there are no symbols.
pub proof fn lemma_no_scope_no_symbols(
    nodes: Seq<SyntaxNode>,
    marks: Seq<bool>,
    defs: Seq<usize>,
    source: Seq<u8>,
)
    requires
        forall|k: int| 0 <= k < defs.len() ==> nearest_scope(nodes, marks, defs[k] as int) is None,
    ensures
        symbols(nodes, marks, defs, source).len() == 0,
{
    let binding = binding_defs(nodes, marks, defs, source);
    lemma_positions(defs.len(), prevailing(nodes, marks, defs, source));
    if binding.len() > 0 {
        assert(prevails(nodes, marks, defs, source, binding[0]));
    }
}

/// A node none of whose namesakes is defined in its
/// own nearest scope is a reference of no symbol, whatever is defined further
/// out.
pub proof fn lemma_nearest_scope_only(
    nodes: Seq<SyntaxNode>,
    marks: Seq<bool>,
    defs: Seq<usize>,
    source: Seq<u8>,
    x: int,
)
    requires
        forall|k: int|
            0 <= k < defs.len() ==> !same_binding(nodes, marks, source, x, #[trigger] defs[k] as int),
    ensures
        forall|j: int|
            0 <= j < binding_defs(nodes, marks, defs, source).len() ==> {
                let d = defs[#[trigger] binding_defs(nodes, marks, defs, source)[j]] as int;
                !referring_nodes(
                    nodes,
                    marks,
                    source,
                    nearest_scope(nodes, marks, d).unwrap(),
                    nodes[d].range,
                    nodes.len(),
                ).contains(x)
            },
{
    let binding = binding_defs(nodes, marks, defs, source);
    lemma_positions(defs.len(), prevailing(nodes, marks, defs, source));
    assert forall|j: int| 0 <= j < binding.len() implies {
        let d = defs[#[trigger] binding[j]] as int;
        !referring_nodes(
            nodes,
            marks,
            source,
            nearest_scope(nodes, marks, d).unwrap(),
            nodes[d].range,
            nodes.len(),
        ).contains(x)
    } by {
        let d = defs[binding[j]] as int;
        let scope = nearest_scope(nodes, marks, d).unwrap();
        let referring_to = referring_nodes(nodes, marks, source, scope, nodes[d].range, nodes.len());
        lemma_positions(nodes.len(), referring(nodes, marks, source, scope, nodes[d].range));
        assert(prevails(nodes, marks, defs, source, binding[j]));
        if referring_to.contains(x) {
            let a = choose|a: int| 0 <= a < referring_to.len() && referring_to[a] == x;
            assert(refers_to(nodes, marks, source, scope, nodes[d].range, referring_to[a]));
            assert(same_binding(nodes, marks, source, x, defs[binding[j]] as int));
        }
    }
}

/// A node refers only to a definition that shares its nearest scope and its
/// text.
pub proof fn lemma_reference_shares_scope(
    nodes: Seq<SyntaxNode>,
    marks: Seq<bool>,
    source: Seq<u8>,
    d: int,
    x: int,
)
    requires
        nearest_scope(nodes, marks, d) is Some,
        referring_nodes(
            nodes,
            marks,
            source,
            nearest_scope(nodes, marks, d).unwrap(),
            nodes[d].range,
            nodes.len(),
        ).contains(x),
    ensures
        0 <= x < nodes.len(),
        same_binding(nodes, marks, source, d, x),
{
    let scope = nearest_scope(nodes, marks, d).unwrap();
    let referring_to = referring_nodes(nodes, marks, source, scope, nodes[d].range, nodes.len());
    lemma_positions(nodes.len(), referring(nodes, marks, source, scope, nodes[d].range));
    let a = choose|a: int| 0 <= a < referring_to.len() && referring_to[a] == x;
    assert(refers_to(nodes, marks, source, scope, nodes[d].range, referring_to[a]));
}

/// Of two definitions with the same text in the same scope,
/// the earlier one gives no symbol; the later one gives the symbol unless a
/// definition after it carries the text in that scope again.
pub proof fn lemma_later_definition_wins(
    nodes: Seq<SyntaxNode>,
    marks: Seq<bool>,
    defs: Seq<usize>,
    source: Seq<u8>,
    i: int,
    j: int,
)
    requires
        0 <= i < j < defs.len(),
        same_binding(nodes, marks, source, defs[i] as int, defs[j] as int),
    ensures
        !binding_defs(nodes, marks, defs, source).contains(i),
        (forall|k: int|
            j < k < defs.len() ==> !same_binding(
                nodes,
                marks,
                source,
                #[trigger] defs[k] as int,
                defs[j] as int,
            )) ==> binding_defs(nodes, marks, defs, source).contains(j),
{
    let binding = binding_defs(nodes, marks, defs, source);
    lemma_positions(defs.len(), prevailing(nodes, marks, defs, source));
    if binding.contains(i) {
        let a = choose|a: int| 0 <= a < binding.len() && binding[a] == i;
        assert(prevails(nodes, marks, defs, source, binding[a]));
        assert(same_binding(nodes, marks, source, defs[j] as int, defs[i] as int));
    }
    if forall|k: int|
        j < k < defs.len() ==> !same_binding(
            nodes,
            marks,
            source,
            #[trigger] defs[k] as int,
            defs[j] as int,
        ) {
        assert(prevails(nodes, marks, defs, source, j));
    }
}

/// No two symbols come from definitions with the
/// same text in the same scope.
pub proof fn lemma_names_distinct(
    nodes: Seq<SyntaxNode>,
    marks: Seq<bool>,
    defs: Seq<usize>,
    source: Seq<u8>,
    a: int,
    b: int,
)
    requires
        0 <= a < binding_defs(nodes, marks, defs, source).len(),
        0 <= b < binding_defs(nodes, marks, defs, source).len(),
        a != b,
    ensures
        !same_binding(
            nodes,
            marks,
            source,
            defs[binding_defs(nodes, marks, defs, source)[a]] as int,
            defs[binding_defs(nodes, marks, defs, source)[b]] as int,
        ),
{
    let binding = binding_defs(nodes, marks, defs, source);
    lemma_positions(defs.len(), prevailing(nodes, marks, defs, source));
    assert(prevails(nodes, marks, defs, source, binding[a]));
    assert(prevails(nodes, marks, defs, source, binding[b]));
    if a < b {
        assert(binding[a] < binding[b]);
        assert(!same_binding(
            nodes,
            marks,
            source,
            defs[binding[b]] as int,
            defs[binding[a]] as int,
        ));
    } else {
        assert(binding[b] < binding[a]);
        assert(!same_binding(
            nodes,
            marks,
            source,
            defs[binding[a]] as int,
            defs[binding[b]] as int,
        ));
    }
}

/// Every definition with an enclosing scope is stood for by a symbol: that of
/// the last definition with its text in its scope, which `last` names.
pub proof fn lemma_name_has_symbol(
    nodes: Seq<SyntaxNode>,
    marks: Seq<bool>,
    defs: Seq<usize>,
    source: Seq<u8>,
    i: int,
) -> (last: int)
    requires
        0 <= i < defs.len(),
        nearest_scope(nodes, marks, defs[i] as int) is Some,
    ensures
        i <= last < defs.len(),
        same_binding(nodes, marks, source, defs[i] as int, defs[last] as int),
        binding_defs(nodes, marks, defs, source).contains(last),
        forall|k: int|
            last < k < defs.len() ==> !same_binding(
                nodes,
                marks,
                source,
                #[trigger] defs[k] as int,
                defs[i] as int,
            ),
    decreases defs.len() - i,
{
    lemma_positions(defs.len(), prevailing(nodes, marks, defs, source));
    if prevails(nodes, marks, defs, source, i) {
        i
    } else {
        let j = choose|j: int|
            i < j < defs.len() && same_binding(nodes, marks, source, defs[j] as int, defs[i] as int);
        let last = lemma_name_has_symbol(nodes, marks, defs, source, j);
        assert forall|k: int| last < k < defs.len() implies !same_binding(
            nodes,
            marks,
            source,
            #[trigger] defs[k] as int,
            defs[i] as int,
        ) by {
            if same_binding(nodes, marks, source, defs[k] as int, defs[i] as int) {
                assert(same_binding(nodes, marks, source, defs[k] as int, defs[j] as int));
            }
        }
        last
    }
}

/// The symbols of a well-formed tree are consistent with the source: every
/// span is a span of the source, every reference carries the text of the
/// definition, and no definition is among its own references.
pub proof fn lemma_symbols_consistent(
    nodes: Seq<SyntaxNode>,
    marks: Seq<bool>,
    defs: Seq<usize>,
    source: Seq<u8>,
)
    requires
        well_formed(nodes, source.len()),
    ensures
        consistent(symbols(nodes, marks, defs, source), source),
{
    let all = symbols(nodes, marks, defs, source);
    let binding = binding_defs(nodes, marks, defs, source);
    lemma_positions(defs.len(), prevailing(nodes, marks, defs, source));
    lemma_definition_not_a_reference(nodes, marks, defs, source);
    assert forall|j: int| 0 <= j < all.len() implies {
        &&& (#[trigger] all[j]).def.start_byte <= all[j].def.end_byte <= source.len()
        &&& !all[j].refs.contains(all[j].def)
        &&& forall|r: int|
            0 <= r < all[j].refs.len() ==> {
                &&& (#[trigger] all[j].refs[r]).start_byte <= all[j].refs[r].end_byte
                    <= source.len()
                &&& text(source, all[j].refs[r]) == text(source, all[j].def)
            }
    } by {
        let d = defs[binding[j]] as int;
        assert(prevails(nodes, marks, defs, source, binding[j]));
        assert(node_fits(nodes, d, source.len()));
        let scope = nearest_scope(nodes, marks, d).unwrap();
        let referring_to = referring_nodes(nodes, marks, source, scope, nodes[d].range, nodes.len());
        lemma_positions(nodes.len(), referring(nodes, marks, source, scope, nodes[d].range));
        assert forall|r: int| 0 <= r < all[j].refs.len() implies {
            &&& (#[trigger] all[j].refs[r]).start_byte <= all[j].refs[r].end_byte <= source.len()
            &&& text(source, all[j].refs[r]) == text(source, all[j].def)
        } by {
            let x = referring_to[r];
            assert(refers_to(nodes, marks, source, scope, nodes[d].range, x));
            assert(node_fits(nodes, x, source.len()));
        }
    }
}

/// Two analyses of the same tree under the same query run find the same
/// symbols, in the same order, each with the same references in the same
/// order.
pub proof fn lemma_same_input_same_symbols(
    first: Seq<Symbol>,
    second: Seq<Symbol>,
    nodes: Seq<SyntaxNode>,
    names: Seq<String>,
    events: Seq<Capture>,
    source: Seq<u8>,
)
    requires
        symbol_views(first) == captured_symbols(nodes, names, events, source),
        symbol_views(second) == captured_symbols(nodes, names, events, source),
    ensures
        first.len() == second.len(),
        forall|j: int|
            0 <= j < first.len() ==> (#[trigger] first[j]).def == second[j].def && first[j].refs@
                == second[j].refs@,
{
    assert(symbol_views(first).len() == first.len());
    assert(symbol_views(second).len() == second.len());
    assert forall|j: int| 0 <= j < first.len() implies (#[trigger] first[j]).def == second[j].def
        && first[j].refs@ == second[j].refs@ by {
        assert(symbol_views(first)[j] == first[j]@);
        assert(symbol_views(second)[j] == second[j]@);
    }
}

/// Where the parser gives the same tree and the query run the same capture
/// names and events, the analysis finds the same symbols: the same
/// definitions in the same order, each with the same references in the same
/// order.
pub proof fn lemma_same_tree_same_symbols(
    root: tree_sitter::Node,
    names: Seq<String>,
    events: Seq<Capture>,
    source: Seq<u8>,
    first: Seq<SymbolView>,
    second: Seq<SymbolView>,
)
    requires
        symbols_below(root, names, events, source, first),
        symbols_below(root, names, events, source, second),
    ensures
        first == second,
{
    let a = choose|nodes: Seq<SyntaxNode>|
        #![trigger lists(nodes, listing(root))]
        lists(nodes, listing(root)) && nodes.len() <= usize::MAX && well_formed(
            nodes,
            source.len(),
        ) && first == captured_symbols(nodes, names, events, source);
    let b = choose|nodes: Seq<SyntaxNode>|
        #![trigger lists(nodes, listing(root))]
        lists(nodes, listing(root)) && nodes.len() <= usize::MAX && well_formed(
            nodes,
            source.len(),
        ) && second == captured_symbols(nodes, names, events, source);
    assert forall|i: int| 0 <= i < a.len() implies same_node(#[trigger] a[i], b[i]) by {
        assert(same_node(a[i], listing(root)[i]));
        assert(same_node(b[i], listing(root)[i]));
    }
    assert(alike(a, b));
    lemma_alike_captured_symbols(a, b, names, events, source);
}

/// Two analyses of one source in one language agree where the parser answered
/// with the same tree: they find the same symbols in the same order, each with
/// the same references in the same order.
pub proof fn lemma_same_answer_same_symbols(
    language: LanguageSpec,
    parsed: tree_sitter::Tree,
    source: Seq<u8>,
    first: Seq<SymbolView>,
    second: Seq<SymbolView>,
)
    requires
        analysed_from(language, parsed, source, first),
        analysed_from(language, parsed, source, second),
    ensures
        first == second,
{
    lemma_same_tree_same_symbols(
        tree_root(parsed),
        slots(language.local_query.compiled()),
        run(language.local_query.compiled(), tree_root(parsed), source),
        source,
        first,
        second,
    );
}

/// What an analysis of the tree below `root` finds are the symbols of a list
/// of its nodes that fits the source, under the scopes and definitions that
/// the run captured: all that holds of the symbols of a file holds of them.
pub proof fn lemma_symbols_below(
    root: tree_sitter::Node,
    names: Seq<String>,
    events: Seq<Capture>,
    source: Seq<u8>,
    found: Seq<SymbolView>,
) -> (nodes: Seq<SyntaxNode>)
    requires
        symbols_below(root, names, events, source, found),
    ensures
        lists(nodes, listing(root)),
        well_formed(nodes, source.len()),
        found == symbols(
            nodes,
            scope_marks(
                nodes.len(),
                located(nodes, captured(events, capture_slot(names, SCOPE_CAPTURE@))),
            ),
            located(nodes, captured(events, capture_slot(names, DEFINITION_CAPTURE@))),
            source,
        ),
        consistent(found, source),
{
    let nodes = choose|nodes: Seq<SyntaxNode>|
        #![trigger lists(nodes, listing(root))]
        lists(nodes, listing(root)) && nodes.len() <= usize::MAX && well_formed(
            nodes,
            source.len(),
        ) && found == captured_symbols(nodes, names, events, source);
    crate::analysis::lemma_captured_symbols_consistent(nodes, names, events, source);
    nodes
}

/// Whether the siblings of a list follow one another in the text: a node ends
/// before a later node with the same parent starts.
pub open spec fn siblings_in_order(nodes: Seq<SyntaxNode>) -> bool {
    forall|i: int, j: int|
        0 < i < j < nodes.len() && #[trigger] up(nodes, i) == #[trigger] up(nodes, j)
            ==> nodes[i].range.end_byte <= nodes[j].range.start_byte
}

/// A node `i` between a parent `p` and a child `j` of `p` lies at or below an
/// earlier child of `p`, which this lemma names.
proof fn lemma_child_above(nodes: Seq<SyntaxNode>, source_len: nat, p: int, j: int, i: int) -> (c:
    int)
    requires
        preorder(nodes),
        well_formed(nodes, source_len),
        0 < j < nodes.len(),
        up(nodes, j) == p,
        p < i < j,
    ensures
        p < c <= i,
        up(nodes, c) == p,
        nodes[c].range.encloses(nodes[i].range),
    decreases i,
{
    assert(up(nodes, i) >= up(nodes, j));
    assert(0 <= up(nodes, i) < i);
    assert(node_fits(nodes, i, source_len));
    if up(nodes, i) == p {
        i
    } else {
        lemma_child_above(nodes, source_len, p, j, up(nodes, i))
    }
}

/// A list in pre-order is in document order: where it fits the source and its
/// siblings follow one another in the text, no node starts before a node
/// listed earlier.
pub proof fn lemma_document_order(nodes: Seq<SyntaxNode>, source_len: nat, i: int, j: int)
    requires
        preorder(nodes),
        well_formed(nodes, source_len),
        siblings_in_order(nodes),
        0 <= i < j < nodes.len(),
    ensures
        nodes[i].range.start_byte <= nodes[j].range.start_byte,
    decreases j,
{
    let p = up(nodes, j);
    assert(0 <= p < j);
    assert(node_fits(nodes, j, source_len));
    if i < p {
        lemma_document_order(nodes, source_len, i, p);
    } else if i > p {
        let c = lemma_child_above(nodes, source_len, p, j, i);
        assert(node_fits(nodes, i, source_len));
        assert(up(nodes, c) == up(nodes, j));
    }
}

} // verus!
