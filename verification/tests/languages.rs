use code_intel::language::golang::{go, GO_ID, GO_LOCAL_QUERY};
use code_intel::language::{find_language, languages, pattern_ends_safely};
use code_intel::reader::read_tree;
use code_intel::{code_intel_in, CodeIntelError, LanguageSpec, MemoizedQuery};

#[test]
fn registry_holds_go() {
    let registry = languages();
    assert_eq!(registry.len(), 1);
    assert_eq!(registry[0].lang_id, "go");
    assert_eq!(GO_ID, "go");
    assert_eq!(find_language(&registry, "go"), Some(0));
    assert_eq!(find_language(&registry, "rust"), None);
    assert_eq!(find_language(&Vec::new(), "go"), None);
}

#[test]
fn first_language_with_the_id_is_found() {
    let mut registry = languages();
    registry.push(go());
    registry.insert(0, LanguageSpec {
        lang_id: "golang",
        lang: tree_sitter_go::language(),
        local_query: MemoizedQuery::new(GO_LOCAL_QUERY),
    });
    assert_eq!(find_language(&registry, "go"), Some(1));
    assert_eq!(find_language(&registry, "golang"), Some(0));
}

#[test]
fn query_is_compiled_once() {
    let memo = MemoizedQuery::new(GO_LOCAL_QUERY);
    let first = memo.query(tree_sitter_go::language()).unwrap();
    let second = memo.query(tree_sitter_go::language()).unwrap();
    assert!(std::ptr::eq(first, second));
    let compiled = memo.query(tree_sitter_go::language()).unwrap();
    let capture_names: Vec<&str> = compiled.capture_names().iter().map(|n| n.as_str()).collect();
    assert_eq!(capture_names, vec!["scope", "definition"]);
}

#[test]
fn failed_compilation_is_tried_again() {
    let memo = MemoizedQuery::new("(no_such_node) @scope\n");
    assert!(memo.query(tree_sitter_go::language()).is_err());
    assert!(memo.query(tree_sitter_go::language()).is_err());
}

#[test]
fn failure_carries_the_diagnostic_of_the_pattern() {
    let pattern = "(function_declaration) @scope\n(no_such_node) @definition\n";
    let memo = MemoizedQuery::new(pattern);
    let failed = memo.query(tree_sitter_go::language()).unwrap_err();
    let direct = tree_sitter::Query::new(tree_sitter_go::language(), pattern).unwrap_err();
    assert_eq!(failed, direct);
    assert_eq!(failed.row, 1);
    assert_eq!(failed.kind, tree_sitter::QueryErrorKind::NodeType);
    let again = memo.query(tree_sitter_go::language()).unwrap_err();
    assert_eq!(again, failed);
}

#[test]
fn pattern_that_compiles_gives_a_query() {
    let memo = MemoizedQuery::new("(identifier) @definition\n");
    let compiled = memo.query(tree_sitter_go::language()).unwrap();
    assert_eq!(compiled.capture_names().len(), 1);
    assert_eq!(compiled.capture_names()[0], "definition");
    assert!(
        tree_sitter::Query::new(tree_sitter_go::language(), "(identifier) @definition\n").is_ok()
    );
}

#[test]
fn pattern_that_does_not_compile_is_a_query_error() {
    let registry = vec![LanguageSpec {
        lang_id: "broken",
        lang: tree_sitter_go::language(),
        local_query: MemoizedQuery::new("(function_declaration @scope\n"),
    }];
    let outcome = code_intel_in(b"func f() {}", "broken", &registry);
    assert!(matches!(outcome, Err(CodeIntelError::QueryError(_))));
}

#[test]
fn empty_registry_supports_nothing() {
    let outcome = code_intel_in(b"func f() {}", "go", &Vec::new());
    assert!(matches!(outcome, Err(CodeIntelError::UnsupportedLanguage)));
}

#[test]
fn registry_of_the_caller_is_used() {
    let registry = vec![LanguageSpec {
        lang_id: "params",
        lang: tree_sitter_go::language(),
        local_query: MemoizedQuery::new(
            "(function_declaration) @scope (parameter_declaration name: (identifier) @definition)",
        ),
    }];
    let source = "func f(a int) {\n\tb := a\n\tuse(a, b)\n}\n";
    let found = code_intel_in(source.as_bytes(), "params", &registry).unwrap();
    assert_eq!(found.len(), 1);
    assert_eq!(&source[found[0].def.start_byte..found[0].def.end_byte], "a");
    assert_eq!(found[0].refs.len(), 2);
    let again = code_intel_in(source.as_bytes(), "params", &registry).unwrap();
    assert_eq!(again.len(), 1);
    assert_eq!(again[0].refs, found[0].refs);
}

fn count_below(node: tree_sitter::Node) -> usize {
    let mut cursor = node.walk();
    let mut count = 1;
    for child in node.children(&mut cursor) {
        count += count_below(child);
    }
    count
}

fn list_below(node: tree_sitter::Node, parent: Option<usize>, out: &mut Vec<(usize, Option<usize>, String, usize, usize)>) {
    let place = out.len();
    out.push((node.id(), parent, node.kind().to_string(), node.start_byte(), node.end_byte()));
    let mut cursor = node.walk();
    for child in node.children(&mut cursor) {
        list_below(child, Some(place), out);
    }
}

#[test]
fn read_tree_lists_the_nodes_in_document_order() {
    let source = "package main\n\nfunc f(a int) int {\n\tb := a + 1\n\treturn b\n}\n";
    let mut parser = tree_sitter::Parser::new();
    parser.set_language(tree_sitter_go::language()).unwrap();
    let parsed = parser.parse(source, None).unwrap();
    let tree = read_tree(&parsed).unwrap();
    assert_eq!(tree.nodes.len(), count_below(parsed.root_node()));
    let mut expected = Vec::new();
    list_below(parsed.root_node(), None, &mut expected);
    let listed: Vec<(usize, Option<usize>, String, usize, usize)> = tree
        .nodes
        .iter()
        .map(|n| (n.id, n.parent, n.kind.clone(), n.range.start_byte, n.range.end_byte))
        .collect();
    assert_eq!(listed, expected);
    assert_eq!(tree.nodes[0].kind, "source_file");
    assert!(tree.is_well_formed(source.len()));
}

#[test]
fn read_tree_of_a_broken_source_lists_every_node() {
    let source = "func f(a int) {\n\tb := a +\n\tuse(b a\n}\nfunc g( {\n";
    let mut parser = tree_sitter::Parser::new();
    parser.set_language(tree_sitter_go::language()).unwrap();
    let parsed = parser.parse(source, None).unwrap();
    let tree = read_tree(&parsed).unwrap();
    let mut expected = Vec::new();
    list_below(parsed.root_node(), None, &mut expected);
    let listed: Vec<(usize, Option<usize>, String, usize, usize)> = tree
        .nodes
        .iter()
        .map(|n| (n.id, n.parent, n.kind.clone(), n.range.start_byte, n.range.end_byte))
        .collect();
    assert_eq!(listed, expected);
}

#[test]
fn read_tree_of_an_empty_source_lists_the_root() {
    let mut parser = tree_sitter::Parser::new();
    parser.set_language(tree_sitter_go::language()).unwrap();
    let parsed = parser.parse("", None).unwrap();
    let tree = read_tree(&parsed).unwrap();
    assert_eq!(tree.nodes.len(), 1);
    assert_eq!(tree.nodes[0].id, parsed.root_node().id());
    assert_eq!(tree.nodes[0].kind, "source_file");
    assert_eq!(tree.nodes[0].parent, None);
}

#[test]
fn read_tree_lists_aliased_nodes_under_their_alias() {
    let source = "package main\n\nfunc f(t T) {\n\tt.field = 1\n}\n";
    let mut parser = tree_sitter::Parser::new();
    parser.set_language(tree_sitter_go::language()).unwrap();
    let parsed = parser.parse(source, None).unwrap();
    let tree = read_tree(&parsed).unwrap();
    let kinds: Vec<&str> = tree.nodes.iter().map(|n| n.kind.as_str()).collect();
    assert!(kinds.contains(&"package_identifier"));
    assert!(kinds.contains(&"type_identifier"));
    assert!(kinds.contains(&"field_identifier"));
    let mut expected = Vec::new();
    list_below(parsed.root_node(), None, &mut expected);
    let listed: Vec<(usize, Option<usize>, String, usize, usize)> = tree
        .nodes
        .iter()
        .map(|n| (n.id, n.parent, n.kind.clone(), n.range.start_byte, n.range.end_byte))
        .collect();
    assert_eq!(listed, expected);
}

#[test]
fn read_tree_is_in_document_order() {
    let source = "func f(a int) {\n\tb := a\n\tuse(a, b)\n}\n\nfunc g() {}\n";
    let mut parser = tree_sitter::Parser::new();
    parser.set_language(tree_sitter_go::language()).unwrap();
    let parsed = parser.parse(source, None).unwrap();
    let tree = read_tree(&parsed).unwrap();
    for pair in tree.nodes.windows(2) {
        assert!(pair[0].range.start_byte <= pair[1].range.start_byte);
    }
    for (i, node) in tree.nodes.iter().enumerate().skip(1) {
        let parent = node.parent.unwrap();
        assert!(parent < i);
        for between in &tree.nodes[parent + 1..i] {
            assert!(between.parent.unwrap() >= parent);
        }
    }
}

#[test]
fn patterns_that_end_safely() {
    assert!(pattern_ends_safely(""));
    assert!(pattern_ends_safely("(identifier) @definition\n"));
    assert!(pattern_ends_safely("(identifier)"));
    assert!(pattern_ends_safely("(identifier) @definition "));
    assert!(pattern_ends_safely(GO_LOCAL_QUERY));
    assert!(!pattern_ends_safely("(identifier) @definition"));
    assert!(!pattern_ends_safely("(nosuch"));
    assert!(!pattern_ends_safely("(a) @b_"));
    assert!(!pattern_ends_safely("(a) @b-"));
    assert!(!pattern_ends_safely("(a) @b9"));
    assert!(!pattern_ends_safely("(a) @Z"));
    assert!(!pattern_ends_safely("; \u{e9}"));
}

#[test]
fn unknown_name_before_the_end_is_reported() {
    let memo = MemoizedQuery::new("(nosuch\n");
    let failed = memo.query(tree_sitter_go::language()).unwrap_err();
    assert_eq!(failed.kind, tree_sitter::QueryErrorKind::NodeType);
    assert_eq!(failed.message, "nosuch");
    assert_eq!(failed.offset, 1);
}

#[test]
fn pattern_that_ends_in_a_name_is_taken_as_it_is() {
    let memo = MemoizedQuery::new("(identifier) @definition");
    let compiled = memo.query(tree_sitter_go::language()).unwrap();
    let direct =
        tree_sitter::Query::new(tree_sitter_go::language(), "(identifier) @definition").unwrap();
    assert_eq!(compiled.capture_names(), direct.capture_names());
    assert_eq!(compiled.pattern_count(), direct.pattern_count());
    assert_eq!(compiled.pattern_count(), 1);
}

#[test]
fn unknown_name_at_the_end_is_reported() {
    let memo = MemoizedQuery::new("(nosuch");
    let failed = memo.query(tree_sitter_go::language()).unwrap_err();
    assert_eq!(failed.kind, tree_sitter::QueryErrorKind::NodeType);
    assert_eq!(failed.message, "nosuch");
    assert_eq!(failed.offset, 1);
    let direct = tree_sitter::Query::new(tree_sitter_go::language(), "(nosuch\n").unwrap_err();
    assert_eq!(failed, direct);
    let capture = MemoizedQuery::new("((identifier) @a (#eq? @a @nosuch");
    let failed = capture.query(tree_sitter_go::language()).unwrap_err();
    assert_eq!(failed.kind, tree_sitter::QueryErrorKind::Capture);
    assert_eq!(failed.message, "nosuch");
}

#[test]
fn broken_pattern_that_ends_in_a_name_is_a_query_error() {
    let pattern = "(function_declaration @scope";
    let failed = MemoizedQuery::new(pattern).query(tree_sitter_go::language()).unwrap_err();
    let direct = tree_sitter::Query::new(
        tree_sitter_go::language(),
        "(function_declaration @scope\n",
    )
    .unwrap_err();
    assert_eq!(failed, direct);
    assert_eq!(failed.kind, tree_sitter::QueryErrorKind::Syntax);
}

#[test]
fn language_with_a_pattern_that_ends_in_a_name() {
    let registry = vec![LanguageSpec {
        lang_id: "names",
        lang: tree_sitter_go::language(),
        local_query: MemoizedQuery::new(
            "(function_declaration) @scope (parameter_declaration name: (identifier) @definition",
        ),
    }];
    assert!(matches!(
        code_intel_in(b"func f(a int) {}", "names", &registry),
        Err(CodeIntelError::QueryError(_))
    ));
    let registry = vec![LanguageSpec {
        lang_id: "names",
        lang: tree_sitter_go::language(),
        local_query: MemoizedQuery::new("(function_declaration) @scope (identifier) @definition"),
    }];
    let found = code_intel_in(b"func f(a int) {}", "names", &registry).unwrap();
    assert_eq!(found.len(), 2);
}

#[test]
fn query_with_a_text_predicate_reads_the_source() {
    let registry = vec![LanguageSpec {
        lang_id: "only_a",
        lang: tree_sitter_go::language(),
        local_query: MemoizedQuery::new(
            "(function_declaration) @scope ((identifier) @definition (#eq? @definition \"a\"))",
        ),
    }];
    let source = "func f(a int, b int) {\n\tuse(a, b)\n}\n";
    let found = code_intel_in(source.as_bytes(), "only_a", &registry).unwrap();
    assert_eq!(found.len(), 1);
    assert_eq!(&source[found[0].def.start_byte..found[0].def.end_byte], "a");
    assert_eq!(found[0].refs.len(), 1);
}
