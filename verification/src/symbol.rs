//! Symbols, and what the symbols of a file are.

use crate::select::positions;
use crate::syntax::{nearest_scope, text, Range, SyntaxNode};
use vstd::prelude::*;
use vstd::utf8::encode_utf8;

verus! {

/// A defined name: where it is defined, and where it is referred to, in
/// document order.
#[derive(Debug, Clone)]
pub struct Symbol {
    pub def: Range,
    pub refs: Vec<Range>,
}

/// A symbol as a value: its definition span and the list of its reference
/// spans.
pub ghost struct SymbolView {
    pub def: Range,
    pub refs: Seq<Range>,
}

impl View for Symbol {
    type V = SymbolView;

    open spec fn view(&self) -> SymbolView {
        SymbolView { def: self.def, refs: self.refs@ }
    }
}

/// The symbols of a list, each as a value.
pub open spec fn symbol_views(symbols: Seq<Symbol>) -> Seq<SymbolView> {
    symbols.map_values(|s: Symbol| s@)
}

/// Whether `found` is consistent with `source`: every span is a span of the
/// source, every reference carries the text of its definition, and no
/// definition is among its own references.
pub open spec fn consistent(found: Seq<SymbolView>, source: Seq<u8>) -> bool {
    forall|j: int|
        0 <= j < found.len() ==> {
            &&& (#[trigger] found[j]).def.start_byte <= found[j].def.end_byte <= source.len()
            &&& !found[j].refs.contains(found[j].def)
            &&& forall|r: int|
                0 <= r < found[j].refs.len() ==> {
                    &&& (#[trigger] found[j].refs[r]).start_byte <= found[j].refs[r].end_byte
                        <= source.len()
                    &&& text(source, found[j].refs[r]) == text(source, found[j].def)
                }
        }
}

/// The marker that makes a syntax kind identifier-like.
pub const IDENTIFIER_MARKER: &'static str = "identifier";

/// Whether `needle` occurs in `hay` as a run of consecutive bytes.
pub open spec fn has_run(hay: Seq<u8>, needle: Seq<u8>) -> bool {
    exists|at: int| occurs_at(hay, needle, at)
}

/// Whether `needle` occurs in `hay` starting at position `at`.
pub open spec fn occurs_at(hay: Seq<u8>, needle: Seq<u8>, at: int) -> bool {
    0 <= at && at + needle.len() <= hay.len() && hay.subrange(at, at + needle.len()) == needle
}

/// Whether a syntax kind label marks an identifier: its bytes contain those of
/// the marker.
pub open spec fn identifier_like(kind: Seq<char>) -> bool {
    has_run(encode_utf8(kind), encode_utf8(IDENTIFIER_MARKER@))
}

/// Whether nodes `a` and `b` carry the same text inside the same nearest scope.
pub open spec fn same_binding(
    nodes: Seq<SyntaxNode>,
    marks: Seq<bool>,
    source: Seq<u8>,
    a: int,
    b: int,
) -> bool {
    &&& nearest_scope(nodes, marks, a) is Some
    &&& nearest_scope(nodes, marks, a) == nearest_scope(nodes, marks, b)
    &&& text(source, nodes[a].range) == text(source, nodes[b].range)
}

/// Whether the definition at position `k` of `defs` binds its name: it has an
/// enclosing scope, and no later definition carries the same text in that
/// scope.
pub open spec fn prevails(
    nodes: Seq<SyntaxNode>,
    marks: Seq<bool>,
    defs: Seq<usize>,
    source: Seq<u8>,
    k: int,
) -> bool {
    &&& 0 <= k < defs.len()
    &&& nearest_scope(nodes, marks, defs[k] as int) is Some
    &&& forall|j: int|
        k < j < defs.len() ==> !same_binding(nodes, marks, source, defs[j] as int, defs[k] as int)
}

/// `prevails` as a predicate on the positions of `defs`.
pub open spec fn prevailing(
    nodes: Seq<SyntaxNode>,
    marks: Seq<bool>,
    defs: Seq<usize>,
    source: Seq<u8>,
) -> spec_fn(int) -> bool {
    |k: int| prevails(nodes, marks, defs, source, k)
}

/// The positions in `defs` of the definitions that bind a name, in order.
pub open spec fn binding_defs(
    nodes: Seq<SyntaxNode>,
    marks: Seq<bool>,
    defs: Seq<usize>,
    source: Seq<u8>,
) -> Seq<int> {
    positions(defs.len(), prevailing(nodes, marks, defs, source))
}

/// Whether node `x` refers to the name that is defined at span `def` in scope
/// `scope`: it is identifier-like, `scope` is its nearest scope, it carries the
/// text of `def`, and it is not the definition itself.
pub open spec fn refers_to(
    nodes: Seq<SyntaxNode>,
    marks: Seq<bool>,
    source: Seq<u8>,
    scope: int,
    def: Range,
    x: int,
) -> bool {
    &&& identifier_like(nodes[x].kind@)
    &&& nearest_scope(nodes, marks, x) == Some(scope)
    &&& text(source, nodes[x].range) == text(source, def)
    &&& nodes[x].range != def
}

/// `refers_to` as a predicate on the positions of `nodes`.
pub open spec fn referring(
    nodes: Seq<SyntaxNode>,
    marks: Seq<bool>,
    source: Seq<u8>,
    scope: int,
    def: Range,
) -> spec_fn(int) -> bool {
    |x: int| refers_to(nodes, marks, source, scope, def, x)
}

/// The nodes among the first `n` that refer to the name defined at `def` in
/// `scope`, in document order.
pub open spec fn referring_nodes(
    nodes: Seq<SyntaxNode>,
    marks: Seq<bool>,
    source: Seq<u8>,
    scope: int,
    def: Range,
    n: nat,
) -> Seq<int> {
    positions(n, referring(nodes, marks, source, scope, def))
}

/// The spans of the nodes among the first `n` that refer to the name defined
/// at `def` in `scope`, in document order.
pub open spec fn references(
    nodes: Seq<SyntaxNode>,
    marks: Seq<bool>,
    source: Seq<u8>,
    scope: int,
    def: Range,
    n: nat,
) -> Seq<Range> {
    referring_nodes(nodes, marks, source, scope, def, n).map_values(|x: int| nodes[x].range)
}

/// The symbol that definition node `d` gives rise to.
pub open spec fn symbol_of(
    nodes: Seq<SyntaxNode>,
    marks: Seq<bool>,
    source: Seq<u8>,
    d: int,
) -> SymbolView {
    SymbolView {
        def: nodes[d].range,
        refs: references(
            nodes,
            marks,
            source,
            nearest_scope(nodes, marks, d).unwrap(),
            nodes[d].range,
            nodes.len(),
        ),
    }
}

/// The symbols of a file: one for each definition that binds a name, in the
/// order of those definitions.
pub open spec fn symbols(
    nodes: Seq<SyntaxNode>,
    marks: Seq<bool>,
    defs: Seq<usize>,
    source: Seq<u8>,
) -> Seq<SymbolView> {
    binding_defs(nodes, marks, defs, source).map_values(
        |k: int| symbol_of(nodes, marks, source, defs[k] as int),
    )
}

/// Searches `hay` for a run of bytes equal to `needle`.
pub fn contains_run(hay: &[u8], needle: &[u8]) -> (found: bool)
    ensures
        found == has_run(hay@, needle@),
{
    if needle.len() > hay.len() {
        assert forall|at: int| !occurs_at(hay@, needle@, at) by {}
        return false;
    }
    let last = hay.len() - needle.len();
    let mut at: usize = 0;
    while at <= last
        invariant
            at <= last + 1,
            needle@.len() <= hay@.len() <= usize::MAX,
            last == hay@.len() - needle@.len(),
            forall|before: int| 0 <= before < at ==> !occurs_at(hay@, needle@, before),
        decreases last + 1 - at,
    {
        let mut k: usize = 0;
        while k < needle.len() && hay[at + k] == needle[k]
            invariant
                k <= needle@.len(),
                at <= last,
                needle@.len() <= hay@.len() <= usize::MAX,
                last == hay@.len() - needle@.len(),
                forall|j: int| 0 <= j < k ==> hay@[at + j] == needle@[j],
            decreases needle@.len() - k,
        {
            k += 1;
        }
        if k == needle.len() {
            assert(hay@.subrange(at as int, at + needle@.len()) =~= needle@);
            assert(occurs_at(hay@, needle@, at as int));
            return true;
        }
        assert(!occurs_at(hay@, needle@, at as int)) by {
            if occurs_at(hay@, needle@, at as int) {
                assert(hay@.subrange(at as int, at + needle@.len())[k as int] == needle@[k as int]);
            }
        }
        at += 1;
    }
    assert forall|x: int| !occurs_at(hay@, needle@, x) by {}
    false
}

/// Tests whether a syntax kind label marks an identifier.
pub fn is_identifier_like(kind: &str) -> (like: bool)
    ensures
        like == identifier_like(kind@),
{
    contains_run(kind.as_bytes(), IDENTIFIER_MARKER.as_bytes())
}

} // verus!
