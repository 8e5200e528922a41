use code_intel::analysis::{resolve_symbols, symbols_of_captures};
use code_intel::capture::{
    bytes_equal, captured_nodes, find_capture_slot, locate, str_equal, Capture,
};
use code_intel::resolve::resolve_references;
use code_intel::scope::{build_scope_table, flatten, Binding, ScopeTable};
use code_intel::symbol::{contains_run, is_identifier_like, Symbol};
use code_intel::syntax::{
    find_nearest_scope, mark_scopes, same_text, Range, SyntaxNode, SyntaxTree,
};

const TEXT: &str = "x x x y y    x x    ";

fn span(start_byte: usize, end_byte: usize) -> Range {
    Range { start_byte, end_byte }
}

fn node(id: usize, parent: Option<usize>, kind: &str, range: Range) -> SyntaxNode {
    SyntaxNode { id, parent, kind: kind.to_string(), range }
}

/// A function that defines `x`, uses it, and holds a function literal that
/// uses `x` and defines and uses `y`. The parser's key of node `i` is
/// `100 + i`.
fn sample() -> SyntaxTree {
    SyntaxTree {
        nodes: vec![
            node(100, None, "source_file", span(0, 20)),
            node(101, Some(0), "function_declaration", span(0, 20)),
            node(102, Some(1), "identifier", span(0, 1)),
            node(103, Some(1), "block", span(2, 20)),
            node(104, Some(3), "identifier", span(2, 3)),
            node(105, Some(3), "func_literal", span(4, 12)),
            node(106, Some(5), "identifier", span(4, 5)),
            node(107, Some(5), "identifier", span(6, 7)),
            node(108, Some(5), "field_identifier", span(8, 9)),
            node(109, Some(3), "identifier", span(13, 14)),
            node(110, Some(3), "int_literal", span(15, 16)),
        ],
    }
}

fn spans(symbol: &Symbol) -> (Range, Vec<Range>) {
    (symbol.def, symbol.refs.clone())
}

#[test]
fn sample_tree_is_well_formed() {
    assert_eq!(TEXT.len(), 20);
    assert!(sample().is_well_formed(20));
    assert!(SyntaxTree { nodes: vec![] }.is_well_formed(0));
}

#[test]
fn tree_beyond_the_source_is_not_well_formed() {
    assert!(!sample().is_well_formed(19));
}

#[test]
fn reversed_span_is_not_well_formed() {
    let tree = SyntaxTree { nodes: vec![node(1, None, "source_file", span(3, 2))] };
    assert!(!tree.is_well_formed(10));
}

#[test]
fn parent_must_come_first() {
    let tree = SyntaxTree {
        nodes: vec![node(1, Some(1), "a", span(0, 1)), node(2, None, "b", span(0, 1))],
    };
    assert!(!tree.is_well_formed(10));
    let own = SyntaxTree { nodes: vec![node(1, Some(0), "a", span(0, 1))] };
    assert!(!own.is_well_formed(10));
}

#[test]
fn parent_must_enclose_child() {
    let wide = SyntaxTree {
        nodes: vec![node(1, None, "a", span(2, 5)), node(2, Some(0), "b", span(1, 4))],
    };
    assert!(!wide.is_well_formed(10));
    let long = SyntaxTree {
        nodes: vec![node(1, None, "a", span(2, 5)), node(2, Some(0), "b", span(3, 6))],
    };
    assert!(!long.is_well_formed(10));
    let snug = SyntaxTree {
        nodes: vec![node(1, None, "a", span(2, 5)), node(2, Some(0), "b", span(2, 5))],
    };
    assert!(snug.is_well_formed(5));
}

#[test]
fn position_of_finds_the_first_node_with_a_key() {
    let mut tree = sample();
    assert_eq!(tree.position_of(100), Some(0));
    assert_eq!(tree.position_of(107), Some(7));
    assert_eq!(tree.position_of(7), None);
    tree.nodes[9].id = 104;
    assert_eq!(tree.position_of(104), Some(4));
}

#[test]
fn index_by_id_agrees_with_position_of() {
    let mut tree = sample();
    tree.nodes[9].id = 104;
    let index = tree.index_by_id();
    assert_eq!(index.len(), 10);
    for id in 95..115 {
        assert_eq!(index.get(&id).copied(), tree.position_of(id));
    }
}

#[test]
fn mark_scopes_marks_the_named_nodes() {
    assert_eq!(
        mark_scopes(6, &vec![1, 4, 1, 9]),
        vec![false, true, false, false, true, false]
    );
    assert_eq!(mark_scopes(0, &vec![0]), Vec::<bool>::new());
    assert_eq!(mark_scopes(2, &vec![]), vec![false, false]);
}

#[test]
fn nearest_scope_is_the_first_marked_ancestor() {
    let tree = sample();
    let marks = mark_scopes(tree.nodes.len(), &vec![1, 5]);
    assert_eq!(find_nearest_scope(&tree, &marks, 0), None);
    assert_eq!(find_nearest_scope(&tree, &marks, 1), Some(1));
    assert_eq!(find_nearest_scope(&tree, &marks, 4), Some(1));
    assert_eq!(find_nearest_scope(&tree, &marks, 5), Some(5));
    assert_eq!(find_nearest_scope(&tree, &marks, 8), Some(5));
    assert_eq!(find_nearest_scope(&tree, &marks, 10), Some(1));
    assert_eq!(find_nearest_scope(&tree, &marks, 11), None);
    let short = vec![false, true];
    assert_eq!(find_nearest_scope(&tree, &short, 8), Some(1));
}

#[test]
fn same_text_compares_the_bytes() {
    let source = TEXT.as_bytes();
    assert!(same_text(source, span(0, 1), span(2, 3)));
    assert!(!same_text(source, span(0, 1), span(6, 7)));
    assert!(!same_text(source, span(0, 1), span(0, 2)));
    assert!(same_text(source, span(3, 3), span(20, 20)));
    assert!(same_text(source, span(0, 3), span(2, 5)));
}

#[test]
fn contains_run_finds_a_run_anywhere() {
    assert!(contains_run(b"abcabd", b"abd"));
    assert!(contains_run(b"abcabd", b"abc"));
    assert!(contains_run(b"abcabd", b""));
    assert!(contains_run(b"", b""));
    assert!(!contains_run(b"abcabd", b"abe"));
    assert!(!contains_run(b"ab", b"abc"));
    assert!(contains_run(b"aab", b"ab"));
}

#[test]
fn identifier_like_kinds() {
    assert!(is_identifier_like("identifier"));
    assert!(is_identifier_like("field_identifier"));
    assert!(is_identifier_like("type_identifier"));
    assert!(is_identifier_like("identifier_list"));
    assert!(!is_identifier_like("identifie"));
    assert!(!is_identifier_like("Identifier"));
    assert!(!is_identifier_like("block"));
    assert!(!is_identifier_like(""));
}

#[test]
fn strings_compare_by_their_text() {
    assert!(bytes_equal(b"scope", b"scope"));
    assert!(!bytes_equal(b"scope", b"scopes"));
    assert!(!bytes_equal(b"scope", b"score"));
    assert!(bytes_equal(b"", b""));
    assert!(str_equal("go", "go"));
    assert!(!str_equal("go", "Go"));
    assert!(!str_equal("go", "g"));
    assert!(str_equal("\u{e9}", "\u{e9}"));
    assert!(!str_equal("\u{e9}", "e"));
}

fn names(list: &[&str]) -> Vec<String> {
    list.iter().map(|n| n.to_string()).collect()
}

#[test]
fn capture_slot_is_the_last_position_of_the_name() {
    let capture_names = names(&["scope", "definition", "other", "scope"]);
    assert_eq!(find_capture_slot(&capture_names, "scope"), Some(3));
    assert_eq!(find_capture_slot(&capture_names, "definition"), Some(1));
    assert_eq!(find_capture_slot(&capture_names, "reference"), None);
    assert_eq!(find_capture_slot(&names(&[]), "scope"), None);
}

fn events(list: &[(u32, usize)]) -> Vec<Capture> {
    list.iter().map(|&(index, node)| Capture { index, node }).collect()
}

#[test]
fn captured_nodes_keep_the_order_of_the_events() {
    let run = events(&[(0, 101), (1, 102), (2, 55), (1, 107), (0, 105), (1, 102)]);
    assert_eq!(captured_nodes(&run, Some(0)), vec![101, 105]);
    assert_eq!(captured_nodes(&run, Some(1)), vec![102, 107, 102]);
    assert_eq!(captured_nodes(&run, Some(3)), Vec::<usize>::new());
    assert_eq!(captured_nodes(&run, None), Vec::<usize>::new());
}

#[test]
fn locate_drops_unknown_keys() {
    let tree = sample();
    assert_eq!(locate(&tree, &vec![107, 3, 102, 107, 999]), vec![7, 2, 7]);
    assert_eq!(locate(&tree, &vec![]), Vec::<usize>::new());
}

#[test]
fn symbols_of_the_sample() {
    let tree = sample();
    let found = resolve_symbols(&tree, &vec![1, 5], &vec![2, 7], TEXT.as_bytes());
    assert_eq!(found.len(), 2);
    assert_eq!(spans(&found[0]), (span(0, 1), vec![span(2, 3), span(13, 14)]));
    assert_eq!(spans(&found[1]), (span(6, 7), vec![span(8, 9)]));
}

#[test]
fn definition_without_a_scope_gives_no_symbol() {
    let tree = sample();
    let found = resolve_symbols(&tree, &vec![5], &vec![2, 7], TEXT.as_bytes());
    assert_eq!(found.len(), 1);
    assert_eq!(spans(&found[0]), (span(6, 7), vec![span(8, 9)]));
    let none = resolve_symbols(&tree, &vec![], &vec![2, 7], TEXT.as_bytes());
    assert!(none.is_empty());
    let beyond = resolve_symbols(&tree, &vec![1], &vec![40], TEXT.as_bytes());
    assert!(beyond.is_empty());
}

#[test]
fn identifier_is_looked_up_in_its_nearest_scope_only() {
    let tree = sample();
    let found = resolve_symbols(&tree, &vec![1, 5], &vec![2], TEXT.as_bytes());
    assert_eq!(found.len(), 1);
    assert!(!found[0].refs.contains(&span(4, 5)));
    assert_eq!(found[0].refs, vec![span(2, 3), span(13, 14)]);
    let flat = resolve_symbols(&tree, &vec![1], &vec![2], TEXT.as_bytes());
    assert_eq!(flat[0].refs, vec![span(2, 3), span(4, 5), span(13, 14)]);
}

#[test]
fn last_definition_of_a_name_stands() {
    let tree = sample();
    let found = resolve_symbols(&tree, &vec![1, 5], &vec![2, 4], TEXT.as_bytes());
    assert_eq!(found.len(), 1);
    assert_eq!(spans(&found[0]), (span(2, 3), vec![span(0, 1), span(13, 14)]));
    let turned = resolve_symbols(&tree, &vec![1, 5], &vec![4, 2], TEXT.as_bytes());
    assert_eq!(turned.len(), 1);
    assert_eq!(spans(&turned[0]), (span(0, 1), vec![span(2, 3), span(13, 14)]));
}

#[test]
fn replaced_definition_moves_behind_the_others() {
    let tree = sample();
    let found = resolve_symbols(&tree, &vec![1, 5], &vec![2, 7, 9], TEXT.as_bytes());
    assert_eq!(found.len(), 2);
    assert_eq!(spans(&found[0]), (span(6, 7), vec![span(8, 9)]));
    assert_eq!(spans(&found[1]), (span(13, 14), vec![span(0, 1), span(2, 3)]));
}

#[test]
fn same_name_in_two_scopes_gives_two_symbols() {
    let tree = sample();
    let found = resolve_symbols(&tree, &vec![1, 5], &vec![2, 6], TEXT.as_bytes());
    assert_eq!(found.len(), 2);
    assert_eq!(spans(&found[0]), (span(0, 1), vec![span(2, 3), span(13, 14)]));
    assert_eq!(spans(&found[1]), (span(4, 5), vec![]));
}

#[test]
fn definition_is_not_among_its_references() {
    let tree = sample();
    let found = resolve_symbols(&tree, &vec![1], &vec![2, 4, 6, 9, 7, 8], TEXT.as_bytes());
    for symbol in &found {
        assert!(!symbol.refs.contains(&symbol.def));
    }
}

#[test]
fn definition_lies_within_its_scope() {
    let tree = sample();
    let marks = mark_scopes(tree.nodes.len(), &vec![1, 5]);
    let table = build_scope_table(&tree, &marks, &vec![2, 7, 9], TEXT.as_bytes());
    for binding in &table.bindings {
        let owner = tree.nodes[binding.scope].range;
        assert!(owner.start_byte <= binding.symbol.def.start_byte);
        assert!(binding.symbol.def.end_byte <= owner.end_byte);
    }
}

#[test]
fn scope_table_holds_the_definitions_by_scope() {
    let tree = sample();
    let marks = mark_scopes(tree.nodes.len(), &vec![1, 5]);
    let table = build_scope_table(&tree, &marks, &vec![2, 7, 0, 4], TEXT.as_bytes());
    let held: Vec<(usize, Range, usize)> =
        table.bindings.iter().map(|b| (b.scope, b.symbol.def, b.symbol.refs.len())).collect();
    assert_eq!(held, vec![(5, span(6, 7), 0), (1, span(2, 3), 0)]);
    assert_eq!(table.find(TEXT.as_bytes(), 5, span(8, 9)), Some(0));
    assert_eq!(table.find(TEXT.as_bytes(), 1, span(13, 14)), Some(1));
    assert_eq!(table.find(TEXT.as_bytes(), 1, span(6, 7)), None);
    assert_eq!(table.find(TEXT.as_bytes(), 5, span(0, 1)), None);
}

#[test]
fn resolver_appends_to_what_the_table_holds() {
    let tree = sample();
    let marks = mark_scopes(tree.nodes.len(), &vec![1, 5]);
    let mut table = ScopeTable {
        bindings: vec![Binding {
            scope: 5,
            symbol: Symbol { def: span(8, 9), refs: vec![span(0, 0)] },
        }],
    };
    resolve_references(&tree, &marks, TEXT.as_bytes(), &mut table);
    assert_eq!(table.bindings.len(), 1);
    assert_eq!(table.bindings[0].scope, 5);
    assert_eq!(table.bindings[0].symbol.def, span(8, 9));
    assert_eq!(table.bindings[0].symbol.refs, vec![span(0, 0), span(6, 7)]);
}

#[test]
fn flatten_keeps_symbols_and_their_references() {
    let table = ScopeTable {
        bindings: vec![
            Binding { scope: 3, symbol: Symbol { def: span(1, 2), refs: vec![span(5, 6), span(3, 4)] } },
            Binding { scope: 1, symbol: Symbol { def: span(7, 8), refs: vec![] } },
        ],
    };
    let found = flatten(table);
    assert_eq!(found.len(), 2);
    assert_eq!(spans(&found[0]), (span(1, 2), vec![span(5, 6), span(3, 4)]));
    assert_eq!(spans(&found[1]), (span(7, 8), vec![]));
    assert!(flatten(ScopeTable { bindings: vec![] }).is_empty());
}

#[test]
fn captures_under_other_names_count_for_nothing() {
    let tree = sample();
    let capture_names = names(&["scope", "name", "definition"]);
    let run = events(&[(0, 101), (1, 104), (2, 102), (0, 105), (2, 107), (1, 109), (2, 4000)]);
    let found = symbols_of_captures(&tree, &capture_names, &run, TEXT.as_bytes()).unwrap();
    assert_eq!(found.len(), 2);
    assert_eq!(spans(&found[0]), (span(0, 1), vec![span(2, 3), span(13, 14)]));
    assert_eq!(spans(&found[1]), (span(6, 7), vec![span(8, 9)]));
}

#[test]
fn query_without_the_capture_names_gives_no_symbols() {
    let tree = sample();
    let run = events(&[(0, 101), (1, 102)]);
    let source = TEXT.as_bytes();
    assert!(symbols_of_captures(&tree, &names(&["scope", "name"]), &run, source)
        .unwrap()
        .is_empty());
    assert!(symbols_of_captures(&tree, &names(&["name", "definition"]), &run, source)
        .unwrap()
        .is_empty());
    assert!(symbols_of_captures(&tree, &names(&[]), &run, source).unwrap().is_empty());
}

#[test]
fn tree_that_does_not_fit_the_source_is_not_analysed() {
    let tree = sample();
    let capture_names = names(&["scope", "definition"]);
    let run = events(&[(0, 101), (1, 102)]);
    assert!(symbols_of_captures(&tree, &capture_names, &run, &TEXT.as_bytes()[..19]).is_none());
    assert!(symbols_of_captures(&tree, &capture_names, &run, TEXT.as_bytes()).is_some());
}
