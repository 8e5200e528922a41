//! Reading the parser's tree into a `SyntaxTree`.

use crate::syntax::{SyntaxNode, SyntaxTree};
use crate::treesitter::{
    current_node, goto_first_child, goto_next_sibling, goto_parent, heads, later_sibling,
    listing, next_sibling, node_id, node_kind, node_range, place, preorder, rooted, tree_root, up,
    walk, walked,
};
use vstd::prelude::*;

verus! {

/// Whether every node but the first comes after its parent, and the first has
/// none.
pub open spec fn parents_first(nodes: Seq<SyntaxNode>) -> bool {
    &&& nodes.len() > 0
    &&& nodes[0].parent is None
    &&& forall|i: int|
        0 < i < nodes.len() ==> ((#[trigger] nodes[i]).parent matches Some(p) && p < i)
}

/// Walks the tree from its root in pre-order, node first and then its children
/// from left to right, and lists every node with its key, its kind, its span
/// and the place of its parent. Gives `None` exactly where the tree has more
/// nodes than a list can index.
pub fn read_tree(parsed: &tree_sitter::Tree) -> (tree: Option<SyntaxTree>)
    ensures
        match tree {
            Some(t) => lists(t@, listing(tree_root(*parsed))) && preorder(t@) && parents_first(t@),
            None => listing(tree_root(*parsed)).len() > usize::MAX,
        },
{
    let mut cursor = walk(parsed);
    let ghost all = walked(cursor);
    let mut nodes: Vec<SyntaxNode> = Vec::new();
    // The places of the nodes above the cursor, outermost first.
    let mut above: Vec<usize> = Vec::new();
    // Whether the cursor rests on a node that is not listed yet.
    let mut fresh = true;
    loop
        invariant
            all == listing(tree_root(*parsed)),
            rooted(cursor),
            walked(cursor) == all,
            preorder(all),
            0 <= place(cursor) < all.len(),
            nodes.len() <= all.len(),
            forall|i: int| 0 <= i < nodes.len() ==> same_node(#[trigger] nodes[i], all[i]),
            (above.len() == 0) == (place(cursor) == 0),
            above.len() > 0 ==> above[0] == 0 && up(all, place(cursor)) == above[above.len() - 1],
            forall|a: int| 0 < a < above.len() ==> up(all, #[trigger] above[a] as int) == above[a - 1],
            fresh ==> place(cursor) == nodes.len(),
            !fresh ==> place(cursor) < nodes.len(),
            !fresh ==> forall|j: int|
                place(cursor) < j < nodes.len() ==> #[trigger] up(all, j) >= place(cursor),
            !fresh ==> nodes.len() == all.len() || up(all, nodes.len() as int) < place(cursor),
        decreases usize::MAX - nodes.len(), if fresh { 0int } else { 1int }, above.len(),
    {
        let ghost at = place(cursor);
        if fresh {
            if nodes.len() == usize::MAX {
                return None;
            }
            let node = current_node(&cursor);
            let parent = if above.len() > 0 {
                Some(above[above.len() - 1])
            } else {
                None
            };
            let listed = nodes.len();
            nodes.push(
                SyntaxNode {
                    id: node_id(&node),
                    parent,
                    kind: node_kind(&node).to_owned(),
                    range: node_range(&node),
                },
            );
            proof {
                assert(heads(listing(node), all, at));
                assert(same_node(nodes@[listed as int], all[at]));
            }
            if goto_first_child(&mut cursor) {
                above.push(listed);
            } else {
                fresh = false;
                proof {
                    if nodes.len() < all.len() {
                        assert(0 <= up(all, nodes.len() as int) < nodes.len());
                    }
                }
            }
        } else if above.len() == 0 {
            proof {
                if nodes.len() < all.len() {
                    assert(0 <= up(all, nodes.len() as int));
                }
                assert forall|i: int| 0 < i < nodes.len() implies ((#[trigger] nodes@[i]).parent
                    matches Some(p) && p < i) by {
                    assert(same_node(nodes@[i], all[i]));
                    assert(0 <= up(all, i) < i);
                }
                assert(same_node(nodes@[0], all[0]));
                assert forall|i: int| 0 <= i < nodes.len() implies #[trigger] up(nodes@, i) == up(
                    all,
                    i,
                ) && nodes@[i].parent == all[i].parent by {
                    assert(same_node(nodes@[i], all[i]));
                }
                assert forall|i: int| 0 < i < nodes.len() implies 0 <= #[trigger] up(nodes@, i) < i
                    && nodes@[i].parent is Some by {
                    assert(0 <= up(all, i) < i && all[i].parent is Some);
                }
                assert forall|i: int, j: int|
                    0 < i < nodes.len() && up(nodes@, i) < j < i implies #[trigger] up(nodes@, j)
                    >= #[trigger] up(nodes@, i) by {
                    assert(up(all, j) >= up(all, i));
                }
                assert(preorder(nodes@));
            }
            return Some(SyntaxTree { nodes });
        } else if goto_next_sibling(&mut cursor) {
            proof {
                lemma_next_sibling_is_next(all, at, nodes.len() as int, place(cursor));
            }
            fresh = true;
        } else {
            proof {
                lemma_done_with_parent(all, at, nodes.len() as int);
            }
            let ghost higher = above@;
            goto_parent(&mut cursor);
            above.pop();
            proof {
                assert(above@ =~= higher.drop_last());
                if above.len() > 0 {
                    assert(up(all, higher[higher.len() - 1] as int) == higher[higher.len() - 2]);
                }
            }
        }
    }
}

/// Whether two nodes agree in key, parent, kind and span.
pub open spec fn same_node(a: SyntaxNode, b: SyntaxNode) -> bool {
    a.id == b.id && a.parent == b.parent && a.kind@ == b.kind@ && a.range == b.range
}

/// Whether `nodes` is the listing `of`, node by node.
pub open spec fn lists(nodes: Seq<SyntaxNode>, of: Seq<SyntaxNode>) -> bool {
    &&& nodes.len() == of.len()
    &&& forall|i: int| 0 <= i < nodes.len() ==> same_node(#[trigger] nodes[i], of[i])
}

/// Where everything from node `p` up to place `k` of a pre-order listing lies
/// at or below `p`, and the node at `k` does not: a next sibling of `p` can
/// only be the node at `k`.
proof fn lemma_next_sibling_is_next(nodes: Seq<SyntaxNode>, p: int, k: int, q: int)
    requires
        preorder(nodes),
        0 < p < k <= nodes.len(),
        forall|j: int| p < j < k ==> #[trigger] up(nodes, j) >= p,
        k == nodes.len() || up(nodes, k) < p,
        next_sibling(nodes, p, q),
    ensures
        q == k,
{
    let g = up(nodes, p);
    assert(0 <= g < p);
    if q < k {
        assert(up(nodes, q) >= p);
    } else if q > k {
        let a = up(nodes, k);
        assert(!later_sibling(nodes, p, k));
        assert(up(nodes, q) == g);
        assert(up(nodes, k) >= up(nodes, q));
        assert(g < a < p);
        assert(up(nodes, p) >= up(nodes, k));
    }
}

/// Where node `p` is the last child of its parent and everything from `p` up
/// to place `k` lies at or below `p`, everything from the parent up to `k`
/// lies at or below the parent, and the node at `k` does not.
proof fn lemma_done_with_parent(nodes: Seq<SyntaxNode>, p: int, k: int)
    requires
        preorder(nodes),
        0 < p < k <= nodes.len(),
        forall|j: int| p < j < k ==> #[trigger] up(nodes, j) >= p,
        k == nodes.len() || up(nodes, k) < p,
        forall|q: int| !later_sibling(nodes, p, q),
    ensures
        forall|j: int| up(nodes, p) < j < k ==> #[trigger] up(nodes, j) >= up(nodes, p),
        k == nodes.len() || up(nodes, k) < up(nodes, p),
{
    let g = up(nodes, p);
    assert(0 <= g < p);
    assert forall|j: int| g < j < k implies #[trigger] up(nodes, j) >= g by {
        if j < p {
            assert(up(nodes, j) >= up(nodes, p));
        }
    }
    if k < nodes.len() {
        let a = up(nodes, k);
        assert(!later_sibling(nodes, p, k));
        if a > g {
            assert(up(nodes, p) >= up(nodes, k));
        }
    }
}

} // verus!
