//! The parser and the query engine, as far as the analysis uses them.
//!
//! The types are opaque, and the contracts of the calls are taken on trust. Of
//! the parser, they say that a tree it gives was parsed from the text and with
//! the grammar it was handed; whether it gives one is left open, and the code
//! that uses it is verified for either answer. Of a tree, they say how a cursor
//! that starts at its root moves over the nodes and what a node is known by. Of
//! a query, they say that its capture names and what a run of it captures go
//! by the arguments alone, and that a pattern of ASCII characters compiles or
//! fails by itself and the grammar.

use crate::capture::Capture;
use crate::syntax::{Range, SyntaxNode};
use vstd::prelude::*;

verus! {

/// The place of the parent of node `i` in a listing, or `-1` where it has
/// none.
pub open spec fn up(nodes: Seq<SyntaxNode>, i: int) -> int {
    match nodes[i].parent {
        Some(p) => p as int,
        None => -1,
    }
}

/// Whether `nodes` lists a tree in pre-order, node first and then its children
/// from left to right: the first node is the root, every other node comes
/// after its parent, and all the nodes between a parent and its child lie
/// below that parent.
pub open spec fn preorder(nodes: Seq<SyntaxNode>) -> bool {
    &&& nodes.len() > 0
    &&& up(nodes, 0) == -1
    &&& forall|i: int|
        0 < i < nodes.len() ==> 0 <= #[trigger] up(nodes, i) < i && nodes[i].parent is Some
    &&& forall|i: int, j: int|
        0 < i < nodes.len() && up(nodes, i) < j < i ==> #[trigger] up(nodes, j) >= #[trigger] up(
            nodes,
            i,
        )
}

/// Whether node `p` of a pre-order listing has a child: the node listed next
/// is its first child.
pub open spec fn has_child(nodes: Seq<SyntaxNode>, p: int) -> bool {
    p + 1 < nodes.len() && up(nodes, p + 1) == p
}

/// Whether node `q` is a later sibling of node `p`.
pub open spec fn later_sibling(nodes: Seq<SyntaxNode>, p: int, q: int) -> bool {
    p < q < nodes.len() && up(nodes, q) == up(nodes, p)
}

/// Whether node `q` is the next sibling of node `p`: the first of its later
/// siblings.
pub open spec fn next_sibling(nodes: Seq<SyntaxNode>, p: int, q: int) -> bool {
    later_sibling(nodes, p, q) && forall|j: int| p < j < q ==> !later_sibling(nodes, p, j)
}

/// Whether the first node of `below` is node `p` of `nodes`, by its key, its
/// kind and its span.
pub open spec fn heads(below: Seq<SyntaxNode>, nodes: Seq<SyntaxNode>, p: int) -> bool {
    &&& below.len() > 0
    &&& below[0].id == nodes[p].id
    &&& below[0].kind@ == nodes[p].kind@
    &&& below[0].range == nodes[p].range
}

/// Whether `c` may stand in a name of a pattern: an ASCII letter or digit, `_`
/// or `-`.
pub open spec fn name_char(c: char) -> bool {
    ||| 'a' <= c <= 'z'
    ||| 'A' <= c <= 'Z'
    ||| '0' <= c <= '9'
    ||| c == '_'
    ||| c == '-'
}

/// Whether `text` holds ASCII characters only.
pub open spec fn ascii(text: Seq<char>) -> bool {
    forall|i: int| 0 <= i < text.len() ==> (#[trigger] text[i]) <= '\x7f'
}

/// Whether a pattern ends safely: it is empty, or its last character is an
/// ASCII character that cannot stand in a name. The compiler cannot report a
/// name that runs to the end of such a pattern.
pub open spec fn ends_safely(pattern: Seq<char>) -> bool {
    pattern.len() == 0 || (pattern.last() <= '\x7f' && !name_char(pattern.last()))
}

/// The text that stands for a pattern before the compiler: the pattern itself
/// where it ends safely, and the pattern followed by a line break where it
/// does not. A line break after a pattern adds nothing to it.
pub open spec fn handed(pattern: Seq<char>) -> Seq<char> {
    if ends_safely(pattern) {
        pattern
    } else {
        pattern.push('\n')
    }
}

/// What a node holds: the visible nodes at and below it, listed in pre-order,
/// each with the parser's key, its kind, its span, and the place of its parent
/// in this listing. The node itself comes first and has no parent here.
pub uninterp spec fn listing(node: tree_sitter::Node) -> Seq<SyntaxNode>;

/// The grammar that a parser holds, if it holds one: what
/// `tree_sitter::Parser::language` returns.
pub uninterp spec fn parser_grammar(parser: tree_sitter::Parser) -> Option<tree_sitter::Language>;

/// The grammar that a tree was parsed with: what `tree_sitter::Tree::language`
/// returns.
pub uninterp spec fn tree_grammar(tree: tree_sitter::Tree) -> tree_sitter::Language;

/// The text that a tree was parsed from.
pub uninterp spec fn parsed_text(tree: tree_sitter::Tree) -> Seq<u8>;

/// The root of a tree: what `tree_sitter::Tree::root_node` returns.
pub uninterp spec fn tree_root(tree: tree_sitter::Tree) -> tree_sitter::Node<'static>;

/// Whether a cursor started at the root of a tree.
pub uninterp spec fn rooted(cursor: tree_sitter::TreeCursor) -> bool;

/// What a cursor walks over: the listing of the node that it started from.
pub uninterp spec fn walked(cursor: tree_sitter::TreeCursor) -> Seq<SyntaxNode>;

/// The place, in what the cursor walks over, of the node that it rests on.
pub uninterp spec fn place(cursor: tree_sitter::TreeCursor) -> int;

/// The capture names of a query, each at the position that capture events
/// name it by: what `tree_sitter::Query::capture_names` returns.
pub uninterp spec fn slots(query: tree_sitter::Query) -> Seq<String>;

/// What a run of a query on a node and its source captures, with a new cursor:
/// every capture in the order the engine gives them, as the slot of its name
/// and the key of its node.
pub uninterp spec fn run(
    query: tree_sitter::Query,
    node: tree_sitter::Node,
    source: Seq<u8>,
) -> Seq<Capture>;

#[verifier::external_type_specification]
#[verifier::external_body]
pub struct ExLanguage(tree_sitter::Language);

#[verifier::external_type_specification]
#[verifier::external_body]
pub struct ExLanguageError(tree_sitter::LanguageError);

#[verifier::external_type_specification]
#[verifier::external_body]
pub struct ExParser(tree_sitter::Parser);

#[verifier::external_type_specification]
#[verifier::external_body]
pub struct ExTree(tree_sitter::Tree);

#[verifier::external_type_specification]
#[verifier::external_body]
pub struct ExNode<'a>(tree_sitter::Node<'a>);

#[verifier::external_type_specification]
#[verifier::external_body]
pub struct ExTreeCursor<'a>(tree_sitter::TreeCursor<'a>);

#[verifier::external_type_specification]
#[verifier::external_body]
pub struct ExQuery(tree_sitter::Query);

#[verifier::external_type_specification]
#[verifier::external_body]
pub struct ExQueryError(tree_sitter::QueryError);

/// `tree_sitter_go::language`: the grammar of Go.
#[verifier::external_body]
pub(crate) fn go_language() -> (language: tree_sitter::Language) {
    tree_sitter_go::language()
}

/// `tree_sitter::Parser::new`: a parser that has no language yet.
#[verifier::external_body]
pub(crate) fn new_parser() -> (parser: tree_sitter::Parser) {
    tree_sitter::Parser::new()
}

/// `tree_sitter::Parser::set_language`: hands the grammar to the parser, or
/// says why the parser does not take it. A parser that took the grammar holds
/// it.
#[verifier::external_body]
pub(crate) fn set_language(
    parser: &mut tree_sitter::Parser,
    language: tree_sitter::Language,
) -> (loaded: Result<(), tree_sitter::LanguageError>)
    ensures
        loaded is Ok ==> parser_grammar(*final(parser)) == Some(language),
{
    parser.set_language(language)
}

/// `tree_sitter::Parser::parse`, with no earlier tree: the syntax tree of
/// `source`, or `None` where the parser gives none. A tree that it gives was
/// parsed from `source`, with the grammar that the parser held.
#[verifier::external_body]
pub(crate) fn parse(parser: &mut tree_sitter::Parser, source: &[u8]) -> (tree: Option<
    tree_sitter::Tree,
>)
    ensures
        tree matches Some(t) ==> parsed_text(t) == source@ && parser_grammar(*old(parser)) == Some(
            tree_grammar(t),
        ),
{
    parser.parse(source, None)
}

/// `tree_sitter::Tree::root_node`: the root of the tree.
#[verifier::external_body]
pub(crate) fn root_node<'a>(tree: &'a tree_sitter::Tree) -> (root: tree_sitter::Node<'a>)
    ensures
        root == tree_root(*tree),
{
    tree.root_node()
}

/// `tree_sitter::Tree::walk`: a cursor that starts at the root of the tree. It
/// walks over the nodes of the tree and rests on the root.
#[verifier::external_body]
pub(crate) fn walk<'a>(tree: &'a tree_sitter::Tree) -> (cursor: tree_sitter::TreeCursor<'a>)
    ensures
        rooted(cursor),
        walked(cursor) == listing(tree_root(*tree)),
        preorder(walked(cursor)),
        place(cursor) == 0,
{
    tree.walk()
}

/// `tree_sitter::TreeCursor::node`: the node that the cursor rests on. Its own
/// listing starts with the node at the cursor's place: same key, kind and span.
/// Claimed of a cursor that started at the root of a tree.
#[verifier::external_body]
pub(crate) fn current_node<'a>(cursor: &tree_sitter::TreeCursor<'a>) -> (node: tree_sitter::Node<
    'a,
>)
    requires
        rooted(*cursor),
    ensures
        heads(listing(node), walked(*cursor), place(*cursor)),
{
    cursor.node()
}

/// `tree_sitter::TreeCursor::goto_first_child`: moves the cursor to the first
/// child of its node and says whether it moved; it stays where the node has no
/// children. In a pre-order listing the first child of a node is the node
/// listed next. Claimed of a cursor that started at the root of a tree.
#[verifier::external_body]
pub(crate) fn goto_first_child<'a>(cursor: &mut tree_sitter::TreeCursor<'a>) -> (moved: bool)
    requires
        rooted(*old(cursor)),
    ensures
        rooted(*final(cursor)),
        walked(*final(cursor)) == walked(*old(cursor)),
        moved == has_child(walked(*old(cursor)), place(*old(cursor))),
        place(*final(cursor)) == if moved {
            place(*old(cursor)) + 1
        } else {
            place(*old(cursor))
        },
{
    cursor.goto_first_child()
}

/// `tree_sitter::TreeCursor::goto_next_sibling`: moves the cursor to the next
/// sibling of its node and says whether it moved; it stays where the node has
/// no later sibling. Claimed of a cursor that started at the root of a tree;
/// of one that rests on the root, only that it does not move unless it says
/// so.
#[verifier::external_body]
pub(crate) fn goto_next_sibling<'a>(cursor: &mut tree_sitter::TreeCursor<'a>) -> (moved: bool)
    requires
        rooted(*old(cursor)),
    ensures
        rooted(*final(cursor)),
        walked(*final(cursor)) == walked(*old(cursor)),
        !moved ==> place(*final(cursor)) == place(*old(cursor)),
        place(*old(cursor)) > 0 && moved ==> next_sibling(
            walked(*old(cursor)),
            place(*old(cursor)),
            place(*final(cursor)),
        ),
        place(*old(cursor)) > 0 && !moved ==> forall|q: int|
            !later_sibling(walked(*old(cursor)), place(*old(cursor)), q),
{
    cursor.goto_next_sibling()
}

/// `tree_sitter::TreeCursor::goto_parent`: moves the cursor to the parent of
/// its node and says whether it moved. Claimed of a cursor that started at the
/// root of a tree, which is a visible node; of one that rests on the root,
/// only that it does not move unless it says so.
#[verifier::external_body]
pub(crate) fn goto_parent<'a>(cursor: &mut tree_sitter::TreeCursor<'a>) -> (moved: bool)
    requires
        rooted(*old(cursor)),
    ensures
        rooted(*final(cursor)),
        walked(*final(cursor)) == walked(*old(cursor)),
        !moved ==> place(*final(cursor)) == place(*old(cursor)),
        place(*old(cursor)) > 0 ==> moved && place(*final(cursor)) == up(
            walked(*old(cursor)),
            place(*old(cursor)),
        ),
{
    cursor.goto_parent()
}

/// `tree_sitter::Node::id`: the parser's key for the node, which is the key
/// that the node's listing gives it.
#[verifier::external_body]
pub(crate) fn node_id<'a>(node: &tree_sitter::Node<'a>) -> (id: usize)
    ensures
        id == listing(*node)[0].id,
{
    node.id()
}

/// `tree_sitter::Node::kind`: the node's syntax kind label, which is the kind
/// that the node's listing gives it.
#[verifier::external_body]
pub(crate) fn node_kind<'a>(node: &tree_sitter::Node<'a>) -> (kind: &'static str)
    ensures
        kind@ == listing(*node)[0].kind@,
{
    node.kind()
}

/// `tree_sitter::Node::range`: the span of source text that the node covers,
/// by its byte offsets, which is the span that the node's listing gives it.
#[verifier::external_body]
pub(crate) fn node_range<'a>(node: &tree_sitter::Node<'a>) -> (range: Range)
    ensures
        range == listing(*node)[0].range,
{
    let range = node.range();
    Range { start_byte: range.start_byte, end_byte: range.end_byte }
}

/// Why a pattern of ASCII characters does not compile against a grammar: the
/// diagnostic that `tree_sitter::Query::new` gives for the two, or `None`
/// where it gives a query.
pub uninterp spec fn query_fault(
    language: tree_sitter::Language,
    pattern: Seq<char>,
) -> Option<tree_sitter::QueryError>;

/// `tree_sitter::Query::new`: compiles a pattern against a grammar, or says
/// why the pattern does not compile. For a pattern of ASCII characters,
/// whether it compiles, and the diagnostic where it does not, go by the
/// grammar and the pattern alone. The pattern has to end safely: the call does
/// not return where it has to report a name that runs to the pattern's end.
#[verifier::external_body]
pub(crate) fn compile_query(language: tree_sitter::Language, pattern: &str) -> (compiled: Result<
    tree_sitter::Query,
    tree_sitter::QueryError,
>)
    requires
        ends_safely(pattern@),
    ensures
        ascii(pattern@) ==> match compiled {
            Ok(_) => query_fault(language, pattern@) is None,
            Err(e) => query_fault(language, pattern@) == Some(e),
        },
{
    tree_sitter::Query::new(language, pattern)
}

/// `tree_sitter::Query::capture_names`: the capture names of the query, each
/// at the position that capture events name it by.
#[verifier::external_body]
pub(crate) fn capture_names(query: &tree_sitter::Query) -> (names: Vec<String>)
    ensures
        names@ == slots(*query),
{
    query.capture_names().to_vec()
}

/// `tree_sitter::QueryCursor::captures`, on a cursor that
/// `tree_sitter::QueryCursor::new` has just made: runs the query on the node
/// and hands out every capture, in the order the engine gives them, as the
/// slot of its name and the key of its node. What is captured goes by the
/// query, the node and the source alone. The nodes at and below `node` have to
/// end within `source`: the engine reads the text of a node by its span.
#[verifier::external_body]
pub(crate) fn collect_captures<'a>(
    query: &tree_sitter::Query,
    node: tree_sitter::Node<'a>,
    source: &[u8],
) -> (events: Vec<Capture>)
    requires
        forall|i: int|
            0 <= i < listing(node).len() ==> (#[trigger] listing(node)[i]).range.end_byte
                <= source@.len(),
    ensures
        events@ == run(*query, node, source@),
{
    tree_sitter::QueryCursor::new().captures(query, node, source).map(
        |(found, at)| Capture { index: found.captures[at].index, node: found.captures[at].node.id() },
    ).collect()
}

} // verus!
