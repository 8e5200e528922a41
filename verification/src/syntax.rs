//! The syntax tree as the resolver reads it: nodes in document order, each with
//! its parent, its kind and the span of source text it covers.

use std::collections::HashMap;
use vstd::prelude::*;
use vstd::std_specs::hash::group_hash_axioms;

verus! {

broadcast use group_hash_axioms;

/// A span of source text: the bytes from `start_byte` up to, not including,
/// `end_byte`.
#[derive(Debug, Clone, Copy, PartialEq, Eq, Structural)]
pub struct Range {
    pub start_byte: usize,
    pub end_byte: usize,
}

impl Range {
    /// Whether `inner` lies within this span.
    pub open spec fn encloses(self, inner: Range) -> bool {
        self.start_byte <= inner.start_byte && inner.end_byte <= self.end_byte
    }
}

/// One node of a syntax tree.
#[derive(Debug, Clone)]
pub struct SyntaxNode {
    /// The parser's key for this node, by which captures name it.
    pub id: usize,
    /// The position of the parent in the tree's node list; `None` at the root.
    pub parent: Option<usize>,
    /// The syntax kind label.
    pub kind: String,
    /// The span of source text covered.
    pub range: Range,
}

/// A syntax tree laid out as a list, in the order of a pre-order walk: every
/// node comes after its parent. The order of the list is document order.
#[derive(Debug, Clone)]
pub struct SyntaxTree {
    pub nodes: Vec<SyntaxNode>,
}

impl View for SyntaxTree {
    type V = Seq<SyntaxNode>;

    open spec fn view(&self) -> Seq<SyntaxNode> {
        self.nodes@
    }
}

/// Whether node `i` fits a source of `source_len` bytes: its span is a span of
/// the source, its parent comes before it, and the parent's span encloses its
/// own.
pub open spec fn node_fits(nodes: Seq<SyntaxNode>, i: int, source_len: nat) -> bool {
    &&& nodes[i].range.start_byte <= nodes[i].range.end_byte <= source_len
    &&& nodes[i].parent matches Some(p) ==> p < i && nodes[p as int].range.encloses(nodes[i].range)
}

/// Whether `nodes` is a tree over a source of `source_len` bytes.
pub open spec fn well_formed(nodes: Seq<SyntaxNode>, source_len: nat) -> bool {
    forall|i: int| 0 <= i < nodes.len() ==> node_fits(nodes, i, source_len)
}

/// The bytes of `source` that `range` spans.
pub open spec fn text(source: Seq<u8>, range: Range) -> Seq<u8> {
    source.subrange(range.start_byte as int, range.end_byte as int)
}

/// For each of `node_count` nodes, whether `scopes` names it as a scope node.
pub open spec fn scope_marks(node_count: nat, scopes: Seq<usize>) -> Seq<bool> {
    Seq::new(node_count, |i: int| scopes.contains(i as usize))
}

/// The nearest enclosing scope of node `i`: the first marked node on the way
/// from `i` itself up through its parents, if there is one.
pub open spec fn nearest_scope(nodes: Seq<SyntaxNode>, marks: Seq<bool>, i: int) -> Option<int>
    decreases i,
{
    if 0 <= i < nodes.len() {
        if i < marks.len() && marks[i] {
            Some(i)
        } else {
            match nodes[i].parent {
                Some(p) => if p < i {
                    nearest_scope(nodes, marks, p as int)
                } else {
                    None
                },
                None => None,
            }
        }
    } else {
        None
    }
}

impl SyntaxTree {
    /// Checks that the tree fits a source of `source_len` bytes.
    pub fn is_well_formed(&self, source_len: usize) -> (ok: bool)
        ensures
            ok == well_formed(self@, source_len as nat),
    {
        let mut i: usize = 0;
        while i < self.nodes.len()
            invariant
                i <= self.nodes.len(),
                forall|j: int| 0 <= j < i ==> node_fits(self@, j, source_len as nat),
            decreases self.nodes.len() - i,
        {
            let node = &self.nodes[i];
            if node.range.start_byte > node.range.end_byte || node.range.end_byte > source_len {
                assert(!node_fits(self@, i as int, source_len as nat));
                return false;
            }
            match node.parent {
                Some(p) => {
                    if p >= i {
                        assert(!node_fits(self@, i as int, source_len as nat));
                        return false;
                    }
                    let outer = self.nodes[p].range;
                    if outer.start_byte > node.range.start_byte || node.range.end_byte
                        > outer.end_byte {
                        assert(!node_fits(self@, i as int, source_len as nat));
                        return false;
                    }
                },
                None => {},
            }
            i += 1;
        }
        true
    }

    /// The position of the first node that the parser knows by `id`.
    pub fn position_of(&self, id: usize) -> (found: Option<usize>)
        ensures
            found == position_of_id(self@, id),
            found matches Some(i) ==> i < self@.len(),
    {
        let mut i: usize = 0;
        while i < self.nodes.len()
            invariant
                i <= self.nodes.len(),
                forall|j: int| 0 <= j < i ==> self@[j].id != id,
            decreases self.nodes.len() - i,
        {
            if self.nodes[i].id == id {
                proof {
                    assert(is_first_with_id(self@, id, i as int));
                    let first = choose|first: int| is_first_with_id(self@, id, first);
                    assert(first == i) by {
                        if first < i {
                            assert(self@[first].id != id);
                        }
                    }
                }
                return Some(i);
            }
            i += 1;
        }
        None
    }

    /// Maps every key that the parser gave to the position of the first node
    /// that it knows by that key.
    pub fn index_by_id(&self) -> (index: HashMap<usize, usize>)
        ensures
            index@ == id_index(self@),
    {
        let mut index: HashMap<usize, usize> = HashMap::new();
        let mut i: usize = 0;
        proof {
            assert forall|id: usize| position_of_id(self@.take(0), id) is None by {
                lemma_position_of_id(self@.take(0), id);
            }
            assert(index@ =~= id_index(self@.take(0)));
        }
        while i < self.nodes.len()
            invariant
                i <= self.nodes.len(),
                index@ == id_index(self@.take(i as int)),
            decreases self.nodes.len() - i,
        {
            let id = self.nodes[i].id;
            proof {
                assert forall|any: usize|
                    #[trigger] position_of_id(self@.take(i + 1), any) == match position_of_id(
                        self@.take(i as int),
                        any,
                    ) {
                        Some(p) => Some(p),
                        None => if any == id {
                            Some(i)
                        } else {
                            None
                        },
                    } by {
                    lemma_position_with_next(self@, i as int, any);
                }
            }
            if !index.contains_key(&id) {
                index.insert(id, i);
            }
            proof {
                assert(index@ =~= id_index(self@.take(i + 1)));
            }
            i += 1;
        }
        proof {
            assert(self@.take(self.nodes.len() as int) =~= self@);
        }
        index
    }
}

/// Where each key is first found: the map from every key that some node has
/// to the first position of a node with that key.
pub open spec fn id_index(nodes: Seq<SyntaxNode>) -> Map<usize, usize> {
    Map::new(
        |id: usize| position_of_id(nodes, id) is Some,
        |id: usize| position_of_id(nodes, id).unwrap(),
    )
}

/// A key that some node has, has a first node.
proof fn lemma_has_first(nodes: Seq<SyntaxNode>, id: usize, j: int)
    requires
        0 <= j < nodes.len(),
        nodes[j].id == id,
    ensures
        exists|i: int| is_first_with_id(nodes, id, i),
    decreases j,
{
    if forall|k: int| 0 <= k < j ==> nodes[k].id != id {
        assert(is_first_with_id(nodes, id, j));
    } else {
        let k = choose|k: int| 0 <= k < j && nodes[k].id == id;
        lemma_has_first(nodes, id, k);
    }
}

/// The position of a key is the one first position of a node with that key;
/// there is none exactly where no node has the key.
pub proof fn lemma_position_of_id(nodes: Seq<SyntaxNode>, id: usize)
    requires
        nodes.len() <= usize::MAX,
    ensures
        match position_of_id(nodes, id) {
            Some(p) => is_first_with_id(nodes, id, p as int),
            None => forall|j: int| 0 <= j < nodes.len() ==> (#[trigger] nodes[j]).id != id,
        },
        forall|i: int| is_first_with_id(nodes, id, i) ==> position_of_id(nodes, id) == Some(i as usize),
{
    assert forall|i: int| is_first_with_id(nodes, id, i) implies position_of_id(nodes, id) == Some(
        i as usize,
    ) by {
        let first = choose|first: int| is_first_with_id(nodes, id, first);
        if first < i {
            assert(nodes[first].id != id);
        }
        if i < first {
            assert(nodes[i].id != id);
        }
    }
    if position_of_id(nodes, id) is None {
        assert forall|j: int| 0 <= j < nodes.len() implies (#[trigger] nodes[j]).id != id by {
            if nodes[j].id == id {
                lemma_has_first(nodes, id, j);
            }
        }
    }
}

/// With one more node, a key keeps its position; a key that had none gets the
/// position of the new node if that node has the key.
proof fn lemma_position_with_next(nodes: Seq<SyntaxNode>, i: int, id: usize)
    requires
        0 <= i < nodes.len() <= usize::MAX,
    ensures
        position_of_id(nodes.take(i + 1), id) == match position_of_id(nodes.take(i), id) {
            Some(p) => Some(p),
            None => if nodes[i].id == id {
                Some(i as usize)
            } else {
                None
            },
        },
{
    let shorter = nodes.take(i);
    let longer = nodes.take(i + 1);
    lemma_position_of_id(shorter, id);
    lemma_position_of_id(longer, id);
    match position_of_id(shorter, id) {
        Some(p) => {
            assert(is_first_with_id(longer, id, p as int)) by {
                assert(longer[p as int] == shorter[p as int]);
                assert forall|j: int| 0 <= j < p implies longer[j].id != id by {
                    assert(longer[j] == shorter[j]);
                }
            }
        },
        None => {
            assert forall|j: int| 0 <= j < i implies longer[j].id != id by {
                assert(longer[j] == shorter[j]);
            }
            if nodes[i].id == id {
                assert(is_first_with_id(longer, id, i));
            } else {
                if position_of_id(longer, id) is Some {
                    let p = position_of_id(longer, id).unwrap() as int;
                    assert(longer[p].id == id);
                    assert(false);
                }
            }
        },
    }
}

/// Whether `i` is the first position in `nodes` of a node with key `id`.
pub open spec fn is_first_with_id(nodes: Seq<SyntaxNode>, id: usize, i: int) -> bool {
    &&& 0 <= i < nodes.len()
    &&& nodes[i].id == id
    &&& forall|j: int| 0 <= j < i ==> nodes[j].id != id
}

/// The first position in `nodes` of a node with key `id`, if any has it.
pub open spec fn position_of_id(nodes: Seq<SyntaxNode>, id: usize) -> Option<usize> {
    if exists|i: int| is_first_with_id(nodes, id, i) {
        Some((choose|i: int| is_first_with_id(nodes, id, i)) as usize)
    } else {
        None
    }
}

/// Marks, for each of `node_count` nodes, whether `scopes` names it.
pub fn mark_scopes(node_count: usize, scopes: &Vec<usize>) -> (marks: Vec<bool>)
    ensures
        marks@ == scope_marks(node_count as nat, scopes@),
{
    let mut marks: Vec<bool> = Vec::new();
    let mut i: usize = 0;
    while i < node_count
        invariant
            i <= node_count,
            marks.len() == i,
            forall|j: int| 0 <= j < i ==> !marks[j],
        decreases node_count - i,
    {
        marks.push(false);
        i += 1;
    }
    let mut k: usize = 0;
    while k < scopes.len()
        invariant
            k <= scopes.len(),
            marks.len() == node_count,
            forall|i: int|
                0 <= i < node_count ==> marks[i] == scopes@.take(k as int).contains(i as usize),
        decreases scopes.len() - k,
    {
        let s = scopes[k];
        proof {
            let before = scopes@.take(k as int);
            let after = scopes@.take(k + 1);
            assert(after =~= before.push(s));
            assert forall|x: usize| after.contains(x) <==> (before.contains(x) || x == s) by {
                if before.contains(x) {
                    let w = choose|w: int| 0 <= w < before.len() && before[w] == x;
                    assert(after[w] == x);
                }
                if x == s {
                    assert(after[k as int] == x);
                }
            }
        }
        if s < node_count {
            marks.set(s, true);
        }
        k += 1;
    }
    proof {
        assert(scopes@.take(scopes.len() as int) =~= scopes@);
        assert(marks@ =~= scope_marks(node_count as nat, scopes@));
    }
    marks
}

/// Walks from node `i` up through its parents to the first marked node.
pub fn find_nearest_scope(tree: &SyntaxTree, marks: &Vec<bool>, i: usize) -> (found: Option<usize>)
    ensures
        nearest_scope(tree@, marks@, i as int) == match found {
            Some(s) => Some(s as int),
            None => None,
        },
        found matches Some(s) ==> s < tree@.len() && s <= i,
{
    if i >= tree.nodes.len() {
        return None;
    }
    let mut at: usize = i;
    loop
        invariant
            at < tree@.len(),
            at <= i,
            nearest_scope(tree@, marks@, i as int) == nearest_scope(tree@, marks@, at as int),
        decreases at,
    {
        if at < marks.len() && marks[at] {
            return Some(at);
        }
        match tree.nodes[at].parent {
            Some(p) => {
                if p < at {
                    at = p;
                } else {
                    return None;
                }
            },
            None => {
                return None;
            },
        }
    }
}

/// Compares the text of two spans of `source`.
pub fn same_text(source: &[u8], a: Range, b: Range) -> (same: bool)
    requires
        a.start_byte <= a.end_byte <= source@.len(),
        b.start_byte <= b.end_byte <= source@.len(),
    ensures
        same == (text(source@, a) == text(source@, b)),
{
    let len = a.end_byte - a.start_byte;
    if b.end_byte - b.start_byte != len {
        assert(text(source@, a).len() != text(source@, b).len());
        return false;
    }
    let mut k: usize = 0;
    while k < len
        invariant
            k <= len,
            len == a.end_byte - a.start_byte,
            len == b.end_byte - b.start_byte,
            a.end_byte <= source@.len(),
            b.end_byte <= source@.len(),
            forall|j: int| 0 <= j < k ==> text(source@, a)[j] == text(source@, b)[j],
        decreases len - k,
    {
        if source[a.start_byte + k] != source[b.start_byte + k] {
            assert(text(source@, a)[k as int] != text(source@, b)[k as int]);
            return false;
        }
        k += 1;
    }
    assert(text(source@, a) =~= text(source@, b));
    true
}

} // verus!
