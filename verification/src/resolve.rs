//! The reference resolver: one walk over the tree that binds every identifier
//! to the entry of its text in its nearest enclosing scope.

use crate::scope::{keyed, names, BindingView, ScopeTable};
use crate::symbol::{is_identifier_like, references, referring, refers_to, SymbolView};
use crate::syntax::{find_nearest_scope, nearest_scope, well_formed, Range, SyntaxNode, SyntaxTree};
use vstd::prelude::*;

verus! {

/// `binding` with the references added that are found among the first `n`
/// nodes.
pub open spec fn resolved(
    binding: BindingView,
    nodes: Seq<SyntaxNode>,
    marks: Seq<bool>,
    source: Seq<u8>,
    n: nat,
) -> BindingView {
    BindingView {
        scope: binding.scope,
        symbol: SymbolView {
            def: binding.symbol.def,
            refs: binding.symbol.refs + references(
                nodes,
                marks,
                source,
                binding.scope,
                binding.symbol.def,
                n,
            ),
        },
    }
}

/// `table` with every entry resolved against the first `n` nodes.
pub open spec fn resolved_table(
    table: Seq<BindingView>,
    nodes: Seq<SyntaxNode>,
    marks: Seq<bool>,
    source: Seq<u8>,
    n: nat,
) -> Seq<BindingView> {
    table.map_values(|b: BindingView| resolved(b, nodes, marks, source, n))
}

/// The references among the first `n + 1` nodes are those among the first `n`,
/// followed by node `n` if it refers to the name.
pub proof fn lemma_references_step(
    nodes: Seq<SyntaxNode>,
    marks: Seq<bool>,
    source: Seq<u8>,
    scope: int,
    def: Range,
    n: nat,
)
    ensures
        references(nodes, marks, source, scope, def, n + 1) == if refers_to(
            nodes,
            marks,
            source,
            scope,
            def,
            n as int,
        ) {
            references(nodes, marks, source, scope, def, n).push(nodes[n as int].range)
        } else {
            references(nodes, marks, source, scope, def, n)
        },
{
    let keep = referring(nodes, marks, source, scope, def);
    assert(keep(n as int) == refers_to(nodes, marks, source, scope, def, n as int));
    let further = references(nodes, marks, source, scope, def, n + 1);
    let so_far = references(nodes, marks, source, scope, def, n);
    if refers_to(nodes, marks, source, scope, def, n as int) {
        assert(further =~= so_far.push(nodes[n as int].range));
    } else {
        assert(further =~= so_far);
    }
}

/// Walks the whole tree in document order. Every identifier-like node is looked
/// up in its nearest enclosing scope only; where that scope has an entry for
/// its text, and the node is not the definition itself, its span is added to
/// the entry's references.
pub fn resolve_references(
    tree: &SyntaxTree,
    marks: &Vec<bool>,
    source: &[u8],
    table: &mut ScopeTable,
)
    requires
        well_formed(tree@, source@.len()),
        keyed(old(table)@, source@),
    ensures
        final(table)@ == resolved_table(old(table)@, tree@, marks@, source@, tree@.len()),
{
    let ghost initial = table@;
    let mut x: usize = 0;
    proof {
        assert forall|j: int| 0 <= j < initial.len() implies initial[j] == resolved(
            initial[j],
            tree@,
            marks@,
            source@,
            0,
        ) by {
            let b = initial[j];
            assert(references(tree@, marks@, source@, b.scope, b.symbol.def, 0)
                =~= Seq::<Range>::empty());
            assert(b.symbol.refs + Seq::<Range>::empty() =~= b.symbol.refs);
        }
        assert(table@ =~= resolved_table(initial, tree@, marks@, source@, 0));
    }
    while x < tree.nodes.len()
        invariant
            x <= tree@.len(),
            well_formed(tree@, source@.len()),
            keyed(initial, source@),
            table@ == resolved_table(initial, tree@, marks@, source@, x as nat),
        decreases tree@.len() - x,
    {
        let node = &tree.nodes[x];
        let span = node.range;
        let ghost held = table@;
        let ghost mut hit: Option<int> = None;
        proof {
            assert(crate::syntax::node_fits(tree@, x as int, source@.len()));
            assert forall|j: int| 0 <= j < held.len() implies (#[trigger] held[j]).symbol.def
                == initial[j].symbol.def && held[j].scope == initial[j].scope by {}
        }
        if is_identifier_like(node.kind.as_str()) {
            match find_nearest_scope(tree, marks, x) {
                Some(s) => {
                    match table.find(source, s, span) {
                        Some(j) => {
                            let def = table.bindings[j].symbol.def;
                            if span.start_byte != def.start_byte || span.end_byte != def.end_byte {
                                proof {
                                    hit = Some(j as int);
                                }
                                table.bindings[j].symbol.refs.push(span);
                            }
                        },
                        None => {},
                    }
                },
                None => {},
            }
        }
        proof {
            let expected = resolved_table(initial, tree@, marks@, source@, (x + 1) as nat);
            assert(table@.len() == expected.len());
            assert forall|j: int| 0 <= j < expected.len() implies table@[j] == expected[j] by {
                let b = initial[j];
                lemma_references_step(tree@, marks@, source@, b.scope, b.symbol.def, x as nat);
                let refers = refers_to(tree@, marks@, source@, b.scope, b.symbol.def, x as int);
                assert(held[j] == resolved(b, tree@, marks@, source@, x as nat));
                if hit == Some(j) {
                    assert(refers);
                    assert(table@[j].symbol.refs == held[j].symbol.refs.push(span));
                    assert(table@[j].symbol.refs =~= expected[j].symbol.refs);
                } else {
                    assert(table@[j] == held[j]);
                    if refers {
                        let s = nearest_scope(tree@, marks@, x as int).unwrap();
                        assert(names(held[j], source@, s, span));
                        let found = choose|found: int|
                            0 <= found < held.len() && names(held[found], source@, s, span)
                                && forall|i: int|
                                0 <= i < found ==> !names(#[trigger] held[i], source@, s, span);
                        if found < j {
                            assert(names(initial[found], source@, initial[j].scope, b.symbol.def));
                        } else if j < found {
                            assert(names(
                                initial[j],
                                source@,
                                initial[found].scope,
                                initial[found].symbol.def,
                            ));
                        }
                        assert(false);
                    }
                    assert(table@[j].symbol.refs =~= expected[j].symbol.refs);
                }
            }
            assert(table@ =~= expected);
        }
        x += 1;
    }
}

} // verus!
