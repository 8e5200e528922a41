//! The symbols go by what the nodes of a tree are known by: two lists that
//! hold the same nodes give the same symbols.

use crate::analysis::captured_symbols;
use crate::capture::{capture_slot, captured, known, located, Capture, DEFINITION_CAPTURE, SCOPE_CAPTURE};
use crate::reader::same_node;
use crate::select::{lemma_positions, lemma_positions_agree};
use crate::symbol::{
    binding_defs, prevailing, prevails, references, referring, referring_nodes, refers_to,
    same_binding, symbol_of, symbols,
};
use crate::syntax::{
    is_first_with_id, lemma_position_of_id, nearest_scope, position_of_id, scope_marks, Range,
    SyntaxNode,
};
use vstd::prelude::*;

verus! {

/// Whether two lists hold the same nodes, place by place: the same key, parent,
/// kind and span.
pub open spec fn alike(a: Seq<SyntaxNode>, b: Seq<SyntaxNode>) -> bool {
    &&& a.len() == b.len()
    &&& forall|i: int| 0 <= i < a.len() ==> same_node(#[trigger] a[i], b[i])
}

/// A key is found at the same place in both lists.
pub proof fn lemma_alike_position(a: Seq<SyntaxNode>, b: Seq<SyntaxNode>, id: usize)
    requires
        alike(a, b),
        a.len() <= usize::MAX,
    ensures
        position_of_id(a, id) == position_of_id(b, id),
{
    lemma_position_of_id(a, id);
    lemma_position_of_id(b, id);
    match position_of_id(a, id) {
        Some(p) => {
            assert(same_node(a[p as int], b[p as int]));
            assert forall|j: int| 0 <= j < p implies b[j].id != id by {
                assert(same_node(a[j], b[j]));
            }
            assert(is_first_with_id(b, id, p as int));
        },
        None => {
            if let Some(q) = position_of_id(b, id) {
                assert(same_node(a[q as int], b[q as int]));
            }
        },
    }
}

/// The keys of a list name the same places in both lists.
pub proof fn lemma_alike_located(a: Seq<SyntaxNode>, b: Seq<SyntaxNode>, ids: Seq<usize>)
    requires
        alike(a, b),
        a.len() <= usize::MAX,
    ensures
        located(a, ids) == located(b, ids),
{
    assert forall|k: int| 0 <= k < ids.len() implies #[trigger] known(a, ids)(k) == known(b, ids)(
        k,
    ) by {
        lemma_alike_position(a, b, ids[k]);
    }
    lemma_positions_agree(ids.len(), known(a, ids), known(b, ids));
    let kept = crate::select::positions(ids.len(), known(a, ids));
    lemma_positions(ids.len(), known(a, ids));
    assert forall|j: int| 0 <= j < kept.len() implies located(a, ids)[j] == located(b, ids)[j] by {
        lemma_alike_position(a, b, ids[kept[j]]);
    }
    assert(located(a, ids) =~= located(b, ids));
}

/// A node has the same nearest scope in both lists.
pub proof fn lemma_alike_nearest_scope(
    a: Seq<SyntaxNode>,
    b: Seq<SyntaxNode>,
    marks: Seq<bool>,
    i: int,
)
    requires
        alike(a, b),
    ensures
        nearest_scope(a, marks, i) == nearest_scope(b, marks, i),
    decreases i,
{
    if 0 <= i < a.len() {
        assert(same_node(a[i], b[i]));
        if !(i < marks.len() && marks[i]) {
            if let Some(p) = a[i].parent {
                if p < i {
                    lemma_alike_nearest_scope(a, b, marks, p as int);
                }
            }
        }
    }
}

/// The same scopes and definitions give the same symbols in both lists.
pub proof fn lemma_alike_symbols(
    a: Seq<SyntaxNode>,
    b: Seq<SyntaxNode>,
    marks: Seq<bool>,
    defs: Seq<usize>,
    source: Seq<u8>,
)
    requires
        alike(a, b),
    ensures
        symbols(a, marks, defs, source) == symbols(b, marks, defs, source),
{
    assert forall|x: int| #[trigger] nearest_scope(a, marks, x) == nearest_scope(b, marks, x) by {
        lemma_alike_nearest_scope(a, b, marks, x);
    }
    assert forall|x: int| nearest_scope(a, marks, x) is Some implies 0 <= x < a.len() && same_node(
        #[trigger] a[x],
        b[x],
    ) by {}
    assert forall|x: int, y: int| #[trigger]
        same_binding(a, marks, source, x, y) == same_binding(b, marks, source, x, y) by {
        if nearest_scope(a, marks, x) is Some && nearest_scope(a, marks, x) == nearest_scope(
            a,
            marks,
            y,
        ) {
            assert(same_node(a[x], b[x]));
            assert(same_node(a[y], b[y]));
        }
    }
    assert forall|k: int| #[trigger]
        prevailing(a, marks, defs, source)(k) == prevailing(b, marks, defs, source)(k) by {
        assert(prevails(a, marks, defs, source, k) == prevails(b, marks, defs, source, k));
    }
    lemma_positions_agree(
        defs.len(),
        prevailing(a, marks, defs, source),
        prevailing(b, marks, defs, source),
    );
    let binding = binding_defs(a, marks, defs, source);
    lemma_positions(defs.len(), prevailing(a, marks, defs, source));
    assert forall|j: int| 0 <= j < binding.len() implies symbols(a, marks, defs, source)[j]
        == symbols(b, marks, defs, source)[j] by {
        let d = defs[binding[j]] as int;
        assert(prevails(a, marks, defs, source, binding[j]));
        assert(same_node(a[d], b[d]));
        let scope = nearest_scope(a, marks, d).unwrap();
        let def = a[d].range;
        lemma_alike_references(a, b, marks, source, scope, def);
        assert(symbols(a, marks, defs, source)[j] == symbol_of(a, marks, source, d));
        assert(symbols(b, marks, defs, source)[j] == symbol_of(b, marks, source, d));
    }
    assert(symbols(a, marks, defs, source) =~= symbols(b, marks, defs, source));
}

/// A name has the same references in both lists.
pub proof fn lemma_alike_references(
    a: Seq<SyntaxNode>,
    b: Seq<SyntaxNode>,
    marks: Seq<bool>,
    source: Seq<u8>,
    scope: int,
    def: Range,
)
    requires
        alike(a, b),
    ensures
        references(a, marks, source, scope, def, a.len()) == references(
            b,
            marks,
            source,
            scope,
            def,
            b.len(),
        ),
{
    let keep_a = referring(a, marks, source, scope, def);
    let keep_b = referring(b, marks, source, scope, def);
    assert forall|x: int| 0 <= x < a.len() implies #[trigger] keep_a(x) == keep_b(x) by {
        lemma_alike_nearest_scope(a, b, marks, x);
        assert(same_node(a[x], b[x]));
        assert(refers_to(a, marks, source, scope, def, x) == refers_to(
            b,
            marks,
            source,
            scope,
            def,
            x,
        ));
    }
    lemma_positions_agree(a.len(), keep_a, keep_b);
    lemma_positions(a.len(), keep_a);
    let nodes = referring_nodes(a, marks, source, scope, def, a.len());
    assert forall|j: int| 0 <= j < nodes.len() implies references(
        a,
        marks,
        source,
        scope,
        def,
        a.len(),
    )[j] == references(b, marks, source, scope, def, b.len())[j] by {
        assert(same_node(a[nodes[j]], b[nodes[j]]));
    }
    assert(references(a, marks, source, scope, def, a.len()) =~= references(
        b,
        marks,
        source,
        scope,
        def,
        b.len(),
    ));
}

/// The same query run gives the same symbols in both lists.
pub proof fn lemma_alike_captured_symbols(
    a: Seq<SyntaxNode>,
    b: Seq<SyntaxNode>,
    names: Seq<String>,
    events: Seq<Capture>,
    source: Seq<u8>,
)
    requires
        alike(a, b),
        a.len() <= usize::MAX,
    ensures
        captured_symbols(a, names, events, source) == captured_symbols(b, names, events, source),
{
    let scopes = captured(events, capture_slot(names, SCOPE_CAPTURE@));
    let definitions = captured(events, capture_slot(names, DEFINITION_CAPTURE@));
    lemma_alike_located(a, b, scopes);
    lemma_alike_located(a, b, definitions);
    lemma_alike_symbols(
        a,
        b,
        scope_marks(a.len(), located(a, scopes)),
        located(a, definitions),
        source,
    );
}

} // verus!
