//! The capture classifier: from the events of a query run to the nodes
//! captured as scopes and the nodes captured as definitions.

use crate::select::positions;
use crate::syntax::{id_index, lemma_position_of_id, position_of_id, SyntaxNode, SyntaxTree};
use vstd::std_specs::hash::group_hash_axioms;
use vstd::prelude::*;
use vstd::utf8::encode_utf8_decode_utf8;

verus! {

broadcast use group_hash_axioms;

/// The capture name that marks a scope boundary.
pub const SCOPE_CAPTURE: &'static str = "scope";

/// The capture name that marks a definition.
pub const DEFINITION_CAPTURE: &'static str = "definition";

/// One event of a query run: a node, and the slot of the capture name under
/// which the query captured it.
#[derive(Debug, Clone, Copy, PartialEq, Eq, Structural)]
pub struct Capture {
    /// The position of the capture name among the query's capture names.
    pub index: u32,
    /// The parser's key of the captured node.
    pub node: usize,
}

/// The slot of `name`: the last position in `names` that carries it.
pub open spec fn capture_slot(names: Seq<String>, name: Seq<char>) -> Option<int>
    decreases names.len(),
{
    if names.len() == 0 {
        None
    } else if names.last()@ == name {
        Some(names.len() - 1)
    } else {
        capture_slot(names.drop_last(), name)
    }
}

/// Whether event `e` was captured under `slot`.
pub open spec fn captured_under(events: Seq<Capture>, slot: int) -> spec_fn(int) -> bool {
    |e: int| events[e].index == slot
}

/// The keys of the nodes captured under `slot`, in the order of the events.
pub open spec fn captured(events: Seq<Capture>, slot: Option<int>) -> Seq<usize> {
    match slot {
        Some(slot) => positions(events.len(), captured_under(events, slot)).map_values(
            |e: int| events[e].node,
        ),
        None => Seq::empty(),
    }
}

/// Whether the key at position `j` of `ids` names a node of the tree.
pub open spec fn known(nodes: Seq<SyntaxNode>, ids: Seq<usize>) -> spec_fn(int) -> bool {
    |j: int| position_of_id(nodes, ids[j]) is Some
}

/// The positions in the tree of the nodes that `ids` names, in the order of
/// `ids`; a key that names no node of the tree is left out.
pub open spec fn located(nodes: Seq<SyntaxNode>, ids: Seq<usize>) -> Seq<usize> {
    positions(ids.len(), known(nodes, ids)).map_values(
        |j: int| position_of_id(nodes, ids[j]).unwrap(),
    )
}

/// Compares two byte strings.
pub fn bytes_equal(a: &[u8], b: &[u8]) -> (equal: bool)
    ensures
        equal == (a@ == b@),
{
    if a.len() != b.len() {
        return false;
    }
    let mut k: usize = 0;
    while k < a.len()
        invariant
            k <= a@.len(),
            a@.len() == b@.len(),
            forall|j: int| 0 <= j < k ==> a@[j] == b@[j],
        decreases a@.len() - k,
    {
        if a[k] != b[k] {
            return false;
        }
        k += 1;
    }
    assert(a@ =~= b@);
    true
}

/// Compares two strings.
pub fn str_equal(a: &str, b: &str) -> (equal: bool)
    ensures
        equal == (a@ == b@),
{
    proof {
        encode_utf8_decode_utf8(a@);
        encode_utf8_decode_utf8(b@);
    }
    bytes_equal(a.as_bytes(), b.as_bytes())
}

/// Looks up the slot of a capture name among the capture names of a query.
pub fn find_capture_slot(names: &Vec<String>, name: &str) -> (slot: Option<usize>)
    ensures
        capture_slot(names@, name@) == match slot {
            Some(s) => Some(s as int),
            None => None,
        },
{
    let mut slot: Option<usize> = None;
    let mut i: usize = 0;
    proof {
        assert(names@.take(0).len() == 0);
    }
    while i < names.len()
        invariant
            i <= names.len(),
            capture_slot(names@.take(i as int), name@) == match slot {
                Some(s) => Some(s as int),
                None => None,
            },
        decreases names.len() - i,
    {
        proof {
            assert(names@.take(i + 1).drop_last() =~= names@.take(i as int));
        }
        if str_equal(names[i].as_str(), name) {
            slot = Some(i);
        }
        i += 1;
    }
    proof {
        assert(names@.take(names.len() as int) =~= names@);
    }
    slot
}

/// Picks the nodes captured under `slot` out of the events of a query run,
/// keeping their order.
pub fn captured_nodes(events: &Vec<Capture>, slot: Option<usize>) -> (ids: Vec<usize>)
    ensures
        ids@ == captured(
            events@,
            match slot {
                Some(s) => Some(s as int),
                None => None,
            },
        ),
{
    let mut ids: Vec<usize> = Vec::new();
    match slot {
        Some(s) => {
            let ghost keep = captured_under(events@, s as int);
            let mut e: usize = 0;
            proof {
                assert(ids@ =~= positions(0, keep).map_values(|e: int| events@[e].node));
            }
            while e < events.len()
                invariant
                    e <= events.len(),
                    keep == captured_under(events@, s as int),
                    ids@ == positions(e as nat, keep).map_values(|e: int| events@[e].node),
                decreases events.len() - e,
            {
                let ghost so_far = positions(e as nat, keep);
                if events[e].index as usize == s {
                    ids.push(events[e].node);
                    proof {
                        assert(keep(e as int));
                        assert(ids@ =~= so_far.push(e as int).map_values(
                            |e: int| events@[e].node,
                        ));
                    }
                } else {
                    proof {
                        assert(!keep(e as int));
                    }
                }
                e += 1;
            }
        },
        None => {},
    }
    ids
}

/// Finds the nodes of the tree that the parser knows by the keys in `ids`,
/// keeping their order.
pub fn locate(tree: &SyntaxTree, ids: &Vec<usize>) -> (places: Vec<usize>)
    ensures
        places@ == located(tree@, ids@),
        forall|j: int| 0 <= j < places.len() ==> places[j] < tree@.len(),
{
    let index = tree.index_by_id();
    let mut places: Vec<usize> = Vec::new();
    let ghost keep = known(tree@, ids@);
    let mut j: usize = 0;
    proof {
        assert(places@ =~= positions(0, keep).map_values(
            |j: int| position_of_id(tree@, ids@[j]).unwrap(),
        ));
    }
    while j < ids.len()
        invariant
            j <= ids.len(),
            keep == known(tree@, ids@),
            index@ == id_index(tree@),
            places@ == positions(j as nat, keep).map_values(
                |j: int| position_of_id(tree@, ids@[j]).unwrap(),
            ),
            forall|a: int| 0 <= a < places.len() ==> places[a] < tree@.len(),
        decreases ids.len() - j,
    {
        let ghost so_far = positions(j as nat, keep);
        proof {
            assert(tree@.len() == tree.nodes.len());
            lemma_position_of_id(tree@, ids@[j as int]);
        }
        match index.get(&ids[j]) {
            Some(p) => {
                places.push(*p);
                proof {
                    assert(keep(j as int));
                    assert(places@ =~= so_far.push(j as int).map_values(
                        |j: int| position_of_id(tree@, ids@[j]).unwrap(),
                    ));
                }
            },
            None => {
                proof {
                    assert(!keep(j as int));
                }
            },
        }
        j += 1;
    }
    places
}

} // verus!
