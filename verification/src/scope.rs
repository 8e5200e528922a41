//! The scope table: for every scope, the names defined in it.

use crate::select::{lemma_positions, lemma_positions_unique, positions};
use crate::symbol::{
    binding_defs, prevailing, prevails, references, same_binding, symbol_views, Symbol, SymbolView,
};
use crate::syntax::{
    find_nearest_scope, nearest_scope, same_text, text, well_formed, Range, SyntaxNode, SyntaxTree,
};
use vstd::prelude::*;

verus! {

/// One entry of the scope table: a symbol and the scope node that owns it.
#[derive(Debug, Clone)]
pub struct Binding {
    /// The position of the owning scope node in the tree.
    pub scope: usize,
    pub symbol: Symbol,
}

/// A binding as a value.
pub ghost struct BindingView {
    pub scope: int,
    pub symbol: SymbolView,
}

impl View for Binding {
    type V = BindingView;

    open spec fn view(&self) -> BindingView {
        BindingView { scope: self.scope as int, symbol: self.symbol@ }
    }
}

/// The names defined in each scope. No two entries carry the same text in the
/// same scope.
#[derive(Debug, Clone)]
pub struct ScopeTable {
    pub bindings: Vec<Binding>,
}

impl View for ScopeTable {
    type V = Seq<BindingView>;

    open spec fn view(&self) -> Seq<BindingView> {
        self.bindings@.map_values(|b: Binding| b@)
    }
}

/// Whether `binding` is the entry for the text of `name` in `scope`.
pub open spec fn names(binding: BindingView, source: Seq<u8>, scope: int, name: Range) -> bool {
    binding.scope == scope && text(source, binding.symbol.def) == text(source, name)
}

/// Whether `table` is a scope table over `source`: every definition span is a
/// span of the source, and no two entries carry the same text in the same
/// scope.
pub open spec fn keyed(table: Seq<BindingView>, source: Seq<u8>) -> bool {
    &&& forall|j: int|
        0 <= j < table.len() ==> (#[trigger] table[j]).symbol.def.start_byte
            <= table[j].symbol.def.end_byte <= source.len()
    &&& forall|a: int, b: int|
        0 <= a < b < table.len() ==> !names(
            #[trigger] table[a],
            source,
            (#[trigger] table[b]).scope,
            table[b].symbol.def,
        )
}

/// The entry that definition node `d` opens, with the references found among
/// the first `n` nodes.
pub open spec fn binding_of(
    nodes: Seq<SyntaxNode>,
    marks: Seq<bool>,
    source: Seq<u8>,
    d: int,
    n: nat,
) -> BindingView {
    let scope = nearest_scope(nodes, marks, d).unwrap();
    BindingView {
        scope,
        symbol: SymbolView {
            def: nodes[d].range,
            refs: references(nodes, marks, source, scope, nodes[d].range, n),
        },
    }
}

/// The scope table of a file once the first `n` nodes have been resolved: one
/// entry for each definition that binds a name, in the order of those
/// definitions.
pub open spec fn scope_table(
    nodes: Seq<SyntaxNode>,
    marks: Seq<bool>,
    defs: Seq<usize>,
    source: Seq<u8>,
    n: nat,
) -> Seq<BindingView> {
    binding_defs(nodes, marks, defs, source).map_values(
        |k: int| binding_of(nodes, marks, source, defs[k] as int, n),
    )
}

impl ScopeTable {
    /// Finds the entry for the text of `name` in `scope`.
    pub fn find(&self, source: &[u8], scope: usize, name: Range) -> (found: Option<usize>)
        requires
            forall|j: int|
                0 <= j < self@.len() ==> (#[trigger] self@[j]).symbol.def.start_byte
                    <= self@[j].symbol.def.end_byte <= source@.len(),
            name.start_byte <= name.end_byte <= source@.len(),
        ensures
            match found {
                Some(j) => j < self@.len() && names(self@[j as int], source@, scope as int, name)
                    && forall|i: int|
                    0 <= i < j ==> !names(#[trigger] self@[i], source@, scope as int, name),
                None => forall|i: int|
                    0 <= i < self@.len() ==> !names(#[trigger] self@[i], source@, scope as int, name),
            },
    {
        let mut j: usize = 0;
        while j < self.bindings.len()
            invariant
                j <= self.bindings.len(),
                self@.len() == self.bindings.len(),
                forall|i: int|
                    0 <= i < self@.len() ==> (#[trigger] self@[i]).symbol.def.start_byte
                        <= self@[i].symbol.def.end_byte <= source@.len(),
                name.start_byte <= name.end_byte <= source@.len(),
                forall|i: int|
                    0 <= i < j ==> !names(#[trigger] self@[i], source@, scope as int, name),
            decreases self.bindings.len() - j,
        {
            let entry = &self.bindings[j];
            assert(self@[j as int] == entry@);
            if entry.scope == scope && same_text(source, entry.symbol.def, name) {
                return Some(j);
            }
            j += 1;
        }
        None
    }
}

/// Collects the symbols of every scope into one list. References keep their
/// order.
pub fn flatten(table: ScopeTable) -> (symbols: Vec<Symbol>)
    ensures
        symbol_views(symbols@) == table@.map_values(|b: BindingView| b.symbol),
{
    let ghost expected = table@.map_values(|b: BindingView| b.symbol);
    let mut bindings = table.bindings;
    let mut symbols: Vec<Symbol> = Vec::new();
    let mut j: usize = 0;
    while j < bindings.len()
        invariant
            j <= bindings.len(),
            bindings.len() == expected.len(),
            symbols.len() == j,
            forall|i: int| 0 <= i < j ==> (#[trigger] symbols@[i])@ == expected[i],
            forall|i: int| j <= i < bindings.len() ==> (#[trigger] bindings@[i])@.symbol == expected[i],
        decreases bindings.len() - j,
    {
        let mut refs: Vec<Range> = Vec::new();
        core::mem::swap(&mut refs, &mut bindings[j].symbol.refs);
        symbols.push(Symbol { def: bindings[j].symbol.def, refs });
        j += 1;
    }
    proof {
        assert(symbol_views(symbols@) =~= expected);
    }
    symbols
}

/// The binding definitions once one more definition is taken in: nothing
/// changes for a definition without a scope; otherwise the entry at `hit`, if
/// there is one, gives way, and the new definition comes last.
pub open spec fn with_definition(before: Seq<int>, n: int, scoped: bool, hit: Option<int>) -> Seq<
    int,
> {
    if !scoped {
        before
    } else {
        match hit {
            Some(j) => before.remove(j).push(n),
            None => before.push(n),
        }
    }
}

/// Taking in definition `n` after the first `n`: if it has a scope, it
/// replaces the one earlier binding definition with its text in that scope, or
/// extends the list where there is none.
pub proof fn lemma_with_definition(
    nodes: Seq<SyntaxNode>,
    marks: Seq<bool>,
    defs: Seq<usize>,
    source: Seq<u8>,
    n: int,
    hit: Option<int>,
)
    requires
        0 <= n < defs.len(),
        nearest_scope(nodes, marks, defs[n] as int) is Some ==> match hit {
            Some(j) => {
                let before = binding_defs(nodes, marks, defs.take(n), source);
                0 <= j < before.len() && same_binding(
                    nodes,
                    marks,
                    source,
                    defs[before[j]] as int,
                    defs[n] as int,
                )
            },
            None => {
                let before = binding_defs(nodes, marks, defs.take(n), source);
                forall|j: int|
                    0 <= j < before.len() ==> !same_binding(
                        nodes,
                        marks,
                        source,
                        defs[#[trigger] before[j]] as int,
                        defs[n] as int,
                    )
            },
        },
    ensures
        binding_defs(nodes, marks, defs.take(n + 1), source) == with_definition(
            binding_defs(nodes, marks, defs.take(n), source),
            n,
            nearest_scope(nodes, marks, defs[n] as int) is Some,
            hit,
        ),
{
    let earlier = defs.take(n);
    let later = defs.take(n + 1);
    let keep_earlier = prevailing(nodes, marks, earlier, source);
    let keep_later = prevailing(nodes, marks, later, source);
    let before = binding_defs(nodes, marks, earlier, source);
    assert(before == positions(n as nat, keep_earlier));
    let scoped = nearest_scope(nodes, marks, defs[n] as int) is Some;
    let after = with_definition(before, n, scoped, hit);
    lemma_positions(n as nat, keep_earlier);
    // A definition among the first `n` still binds exactly if it did and the
    // new one does not carry its text in its scope.
    assert forall|k: int| 0 <= k < n implies (keep_later(k) <==> keep_earlier(k) && !same_binding(
        nodes,
        marks,
        source,
        defs[n] as int,
        defs[k] as int,
    )) by {
        if keep_later(k) {
            assert(!same_binding(nodes, marks, source, later[n] as int, later[k] as int));
            assert forall|j: int| k < j < earlier.len() implies !same_binding(
                nodes,
                marks,
                source,
                earlier[j] as int,
                earlier[k] as int,
            ) by {
                assert(!same_binding(nodes, marks, source, later[j] as int, later[k] as int));
            }
        }
        if keep_earlier(k) && !same_binding(nodes, marks, source, defs[n] as int, defs[k] as int) {
            assert forall|j: int| k < j < later.len() implies !same_binding(
                nodes,
                marks,
                source,
                later[j] as int,
                later[k] as int,
            ) by {
                if j < n {
                    assert(!same_binding(
                        nodes,
                        marks,
                        source,
                        earlier[j] as int,
                        earlier[k] as int,
                    ));
                }
            }
        }
    }
    assert(keep_later(n) == scoped);
    if !scoped {
        assert forall|k: int| 0 <= k < n + 1 && keep_later(k) implies after.contains(k) by {
            assert(before.contains(k));
        }
    } else {
        match hit {
            Some(j) => {
                let old_def = before[j];
                before.remove_ensures(j);
                // No other binding definition carries the text of the new one
                // in its scope.
                assert forall|a: int| 0 <= a < before.len() && a != j implies !same_binding(
                    nodes,
                    marks,
                    source,
                    defs[n] as int,
                    defs[before[a]] as int,
                ) by {
                    let k = before[a];
                    assert(keep_earlier(k) && keep_earlier(old_def));
                    if same_binding(nodes, marks, source, defs[n] as int, defs[k] as int) {
                        if a < j {
                            assert(k < old_def);
                            assert(!same_binding(
                                nodes,
                                marks,
                                source,
                                earlier[old_def] as int,
                                earlier[k] as int,
                            ));
                        } else {
                            assert(old_def < k);
                            assert(!same_binding(
                                nodes,
                                marks,
                                source,
                                earlier[k] as int,
                                earlier[old_def] as int,
                            ));
                        }
                    }
                }
                assert forall|a: int| 0 <= a < after.len() implies 0 <= #[trigger] after[a] < n
                    + 1 && keep_later(after[a]) by {
                    if a < after.len() - 1 {
                        let from = if a < j {
                            a
                        } else {
                            a + 1
                        };
                        assert(after[a] == before[from]);
                    }
                }
                assert forall|k: int| 0 <= k < n + 1 && keep_later(k) implies after.contains(
                    k,
                ) by {
                    if k < n {
                        assert(before.contains(k));
                        let a = choose|a: int| 0 <= a < before.len() && before[a] == k;
                        assert(a != j);
                        let to = if a < j {
                            a
                        } else {
                            a - 1
                        };
                        assert(after[to] == k);
                    } else {
                        assert(after[after.len() - 1] == k);
                    }
                }
                assert(crate::select::increasing(after)) by {
                    assert forall|a: int, b: int| 0 <= a < b < after.len() implies after[a]
                        < after[b] by {
                        let from_a = if a < j {
                            a
                        } else {
                            a + 1
                        };
                        assert(after[a] == before[from_a]);
                        if b < after.len() - 1 {
                            let from_b = if b < j {
                                b
                            } else {
                                b + 1
                            };
                            assert(after[b] == before[from_b]);
                        }
                    }
                }
            },
            None => {
                assert forall|a: int| 0 <= a < after.len() implies 0 <= #[trigger] after[a] < n
                    + 1 && keep_later(after[a]) by {
                    if a < after.len() - 1 {
                        assert(after[a] == before[a]);
                        assert(!same_binding(
                            nodes,
                            marks,
                            source,
                            defs[before[a]] as int,
                            defs[n] as int,
                        ));
                    }
                }
                assert forall|k: int| 0 <= k < n + 1 && keep_later(k) implies after.contains(
                    k,
                ) by {
                    if k < n {
                        assert(before.contains(k));
                        let a = choose|a: int| 0 <= a < before.len() && before[a] == k;
                        assert(after[a] == k);
                    } else {
                        assert(after[after.len() - 1] == k);
                    }
                }
            },
        }
    }
    lemma_positions_unique(after, (n + 1) as nat, keep_later);
}

/// Builds the scope table: assigns each definition to its nearest enclosing
/// scope under the text it spans. A definition without an enclosing scope is
/// dropped; one that repeats a text in its scope replaces the earlier entry.
pub fn build_scope_table(
    tree: &SyntaxTree,
    marks: &Vec<bool>,
    definitions: &Vec<usize>,
    source: &[u8],
) -> (table: ScopeTable)
    requires
        well_formed(tree@, source@.len()),
    ensures
        table@ == scope_table(tree@, marks@, definitions@, source@, 0),
        keyed(table@, source@),
{
    let mut table = ScopeTable { bindings: Vec::new() };
    let mut n: usize = 0;
    proof {
        assert(definitions@.take(0).len() == 0);
        assert(table@ =~= scope_table(tree@, marks@, definitions@.take(0), source@, 0));
    }
    while n < definitions.len()
        invariant
            n <= definitions.len(),
            well_formed(tree@, source@.len()),
            table@ == scope_table(tree@, marks@, definitions@.take(n as int), source@, 0),
        decreases definitions.len() - n,
    {
        let d = definitions[n];
        let ghost earlier = definitions@.take(n as int);
        let ghost later = definitions@.take(n + 1);
        let ghost before = binding_defs(tree@, marks@, earlier, source@);
        let ghost held = table@;
        proof {
            lemma_positions(n as nat, prevailing(tree@, marks@, earlier, source@));
            assert forall|j: int| 0 <= j < before.len() implies 0 <= #[trigger] before[j] < n
                && nearest_scope(tree@, marks@, definitions@[before[j]] as int) is Some by {
                assert(prevails(tree@, marks@, earlier, source@, before[j]));
            }
        }
        let scope = find_nearest_scope(tree, marks, d);
        let ghost mut hit: Option<int> = None;
        match scope {
            Some(s) => {
                let name = tree.nodes[d].range;
                proof {
                    assert forall|j: int| 0 <= j < table@.len() implies (#[trigger] table@[j])
                        .symbol.def.start_byte <= table@[j].symbol.def.end_byte
                        <= source@.len() by {
                        let k = before[j];
                        assert(table@[j] == binding_of(
                            tree@,
                            marks@,
                            source@,
                            earlier[k] as int,
                            0,
                        ));
                        assert(crate::syntax::node_fits(
                            tree@,
                            definitions@[k] as int,
                            source@.len(),
                        ));
                    }
                    assert(crate::syntax::node_fits(tree@, d as int, source@.len()));
                }
                let found = table.find(source, s, name);
                proof {
                    assert forall|j: int| 0 <= j < before.len() implies (names(
                        held[j],
                        source@,
                        s as int,
                        name,
                    ) <==> same_binding(
                        tree@,
                        marks@,
                        source@,
                        definitions@[#[trigger] before[j]] as int,
                        d as int,
                    )) by {
                        let k = before[j];
                        assert(held[j] == binding_of(tree@, marks@, source@, earlier[k] as int, 0));
                    }
                }
                match found {
                    Some(j) => {
                        proof {
                            hit = Some(j as int);
                        }
                        table.bindings.remove(j);
                    },
                    None => {},
                }
                table.bindings.push(Binding { scope: s, symbol: Symbol { def: name, refs: Vec::new() } });
            },
            None => {},
        }
        proof {
            lemma_with_definition(tree@, marks@, definitions@, source@, n as int, hit);
            let after = binding_defs(tree@, marks@, later, source@);
            let expected = scope_table(tree@, marks@, later, source@, 0);
            assert(table@.len() == expected.len()) by {
                if let Some(j) = hit {
                    before.remove_ensures(j);
                }
            }
            assert forall|a: int| 0 <= a < expected.len() implies table@[a] == expected[a] by {
                if scope is Some && a == expected.len() - 1 {
                    assert(after[a] == n);
                    assert(references(
                        tree@,
                        marks@,
                        source@,
                        scope.unwrap() as int,
                        tree@[d as int].range,
                        0,
                    ) =~= Seq::<Range>::empty());
                    assert(table.bindings@[a].symbol.refs@ =~= Seq::<Range>::empty());
                } else {
                    let from = match hit {
                        Some(j) => {
                            before.remove_ensures(j);
                            held.remove_ensures(j);
                            if a < j {
                                a
                            } else {
                                a + 1
                            }
                        },
                        None => a,
                    };
                    assert(after[a] == before[from]);
                    assert(later[before[from]] == earlier[before[from]]);
                    assert(held[from] == binding_of(
                        tree@,
                        marks@,
                        source@,
                        earlier[before[from]] as int,
                        0,
                    ));
                    assert(table@[a] == held[from]);
                }
            }
            assert(table@ =~= expected);
        }
        n += 1;
    }
    proof {
        assert(definitions@.take(definitions.len() as int) =~= definitions@);
        lemma_scope_table_keyed(tree@, marks@, definitions@, source@, 0);
    }
    table
}

/// The scope table of a well-formed tree is keyed: its definition spans are
/// spans of the source, and no two entries carry the same text in the same
/// scope.
pub proof fn lemma_scope_table_keyed(
    nodes: Seq<SyntaxNode>,
    marks: Seq<bool>,
    defs: Seq<usize>,
    source: Seq<u8>,
    n: nat,
)
    requires
        well_formed(nodes, source.len()),
    ensures
        keyed(scope_table(nodes, marks, defs, source, n), source),
{
    let table = scope_table(nodes, marks, defs, source, n);
    let binding = binding_defs(nodes, marks, defs, source);
    lemma_positions(defs.len(), prevailing(nodes, marks, defs, source));
    assert forall|j: int| 0 <= j < table.len() implies (#[trigger] table[j]).symbol.def.start_byte
        <= table[j].symbol.def.end_byte <= source.len() by {
        assert(prevails(nodes, marks, defs, source, binding[j]));
        assert(crate::syntax::node_fits(nodes, defs[binding[j]] as int, source.len()));
    }
    assert forall|a: int, b: int| 0 <= a < b < table.len() implies !names(
        #[trigger] table[a],
        source,
        (#[trigger] table[b]).scope,
        table[b].symbol.def,
    ) by {
        assert(prevails(nodes, marks, defs, source, binding[a]));
        assert(prevails(nodes, marks, defs, source, binding[b]));
        assert(binding[a] < binding[b]);
        assert(!same_binding(
            nodes,
            marks,
            source,
            defs[binding[b]] as int,
            defs[binding[a]] as int,
        ));
    }
}

} // verus!
