use code_intel::code_intel;
use code_intel::error::CodeIntelError;
use code_intel::symbol::Symbol;

const SOURCE: &str = r#"
        func f1(p int) {
            //  v f1.x def
            //  v f1.x ref
            x := 1
            y := 2

            fmt.Println(p)
            fmt.Println(x)
            fmt.Println(x)
        }
        "#;

fn text_of<'a>(source: &'a str, symbol: &Symbol) -> &'a str {
    &source[symbol.def.start_byte..symbol.def.end_byte]
}

fn named<'a>(source: &str, symbols: &'a [Symbol], name: &str) -> &'a Symbol {
    let mut matching = symbols.iter().filter(|s| text_of(source, s) == name);
    let first = matching.next().unwrap();
    assert!(matching.next().is_none());
    first
}

#[test]
fn test() {
    let src = SOURCE.as_bytes();
    let symbols = code_intel(src, "go");
    assert!(symbols.is_ok());
    let symbols = symbols.unwrap();
    assert_eq!(symbols.len(), 3);
    for symbol in symbols {
        println!("symbol:{:?}, refs: {:?}", symbol.def, symbol.refs);
    }
}

#[test]
fn function_scenario_counts_references() {
    let symbols = code_intel(SOURCE.as_bytes(), "go").unwrap();
    assert_eq!(symbols.len(), 3);
    assert_eq!(named(SOURCE, &symbols, "p").refs.len(), 1);
    assert_eq!(named(SOURCE, &symbols, "x").refs.len(), 2);
    assert_eq!(named(SOURCE, &symbols, "y").refs.len(), 0);
}

#[test]
fn function_scenario_spans() {
    let symbols = code_intel(SOURCE.as_bytes(), "go").unwrap();
    let x = named(SOURCE, &symbols, "x");
    let def_at = SOURCE.find("x := 1").unwrap();
    assert_eq!((x.def.start_byte, x.def.end_byte), (def_at, def_at + 1));
    let first = SOURCE.find("Println(x)").unwrap() + "Println(".len();
    let second = SOURCE.rfind("Println(x)").unwrap() + "Println(".len();
    assert!(first < second);
    let spans: Vec<(usize, usize)> = x.refs.iter().map(|r| (r.start_byte, r.end_byte)).collect();
    assert_eq!(spans, vec![(first, first + 1), (second, second + 1)]);
    let p = named(SOURCE, &symbols, "p");
    let param_at = SOURCE.find("p int").unwrap();
    assert_eq!((p.def.start_byte, p.def.end_byte), (param_at, param_at + 1));
    let use_at = SOURCE.find("Println(p)").unwrap() + "Println(".len();
    assert_eq!(p.refs.len(), 1);
    assert_eq!((p.refs[0].start_byte, p.refs[0].end_byte), (use_at, use_at + 1));
}

#[test]
fn definition_is_never_its_own_reference() {
    let symbols = code_intel(SOURCE.as_bytes(), "go").unwrap();
    for symbol in &symbols {
        assert!(!symbol.refs.contains(&symbol.def));
    }
}

#[test]
fn two_runs_agree() {
    let first = code_intel(SOURCE.as_bytes(), "go").unwrap();
    let second = code_intel(SOURCE.as_bytes(), "go").unwrap();
    assert_eq!(first.len(), second.len());
    for symbol in &first {
        let twin = second.iter().find(|s| s.def == symbol.def).unwrap();
        assert_eq!(twin.refs, symbol.refs);
    }
}

#[test]
fn unsupported_language() {
    let outcome = code_intel(SOURCE.as_bytes(), "cobol");
    assert!(matches!(outcome, Err(CodeIntelError::UnsupportedLanguage)));
}

#[test]
fn language_id_is_matched_exactly() {
    assert!(matches!(code_intel(b"", "Go"), Err(CodeIntelError::UnsupportedLanguage)));
    assert!(matches!(code_intel(b"", ""), Err(CodeIntelError::UnsupportedLanguage)));
    assert!(matches!(code_intel(b"", "go "), Err(CodeIntelError::UnsupportedLanguage)));
}

#[test]
fn empty_source_has_no_symbols() {
    assert_eq!(code_intel(b"", "go").unwrap().len(), 0);
}

#[test]
fn definition_outside_any_scope_is_dropped() {
    let source = "package main\n\nvar top = 1\n\nfunc f() {\n\tinner := top\n\t_ = inner\n}\n";
    let symbols = code_intel(source.as_bytes(), "go").unwrap();
    assert_eq!(symbols.len(), 1);
    assert_eq!(text_of(source, &symbols[0]), "inner");
    assert_eq!(symbols[0].refs.len(), 1);
}

#[test]
fn inner_function_does_not_see_outer_names() {
    let source = "func outer() {\n\tv := 1\n\tf := func() {\n\t\tuse(v)\n\t}\n\tf()\n\tuse(v)\n}\n";
    let symbols = code_intel(source.as_bytes(), "go").unwrap();
    let v = named(source, &symbols, "v");
    let last_use = source.rfind("use(v)").unwrap() + "use(".len();
    assert_eq!(v.refs.len(), 1);
    assert_eq!(v.refs[0].start_byte, last_use);
}

#[test]
fn later_definition_of_a_name_wins() {
    let source = "func f() {\n\ta := 1\n\ta := 2\n\tuse(a)\n}\n";
    let symbols = code_intel(source.as_bytes(), "go").unwrap();
    assert_eq!(symbols.len(), 1);
    let a = &symbols[0];
    let first = source.find("a := 1").unwrap();
    let second = source.find("a := 2").unwrap();
    let used = source.find("use(a)").unwrap() + "use(".len();
    assert_eq!(a.def.start_byte, second);
    let starts: Vec<usize> = a.refs.iter().map(|r| r.start_byte).collect();
    assert_eq!(starts, vec![first, used]);
}

#[test]
fn source_with_syntax_errors_is_still_analysed() {
    let source = "func f(a int) {\n\tb := a +\n\tuse(b a\n}\nfunc g( {\n";
    let symbols = code_intel(source.as_bytes(), "go").unwrap();
    let a = named(source, &symbols, "a");
    assert!(!a.refs.is_empty());
    for symbol in &symbols {
        assert!(symbol.def.start_byte <= symbol.def.end_byte);
        assert!(symbol.def.end_byte <= source.len());
        assert!(!symbol.refs.contains(&symbol.def));
    }
}

#[test]
fn source_that_is_not_text_is_still_analysed() {
    let source: Vec<u8> = vec![0xff, 0xfe, b'f', b'u', b'n', b'c', b' ', 0x80, b'(', b')', 0x00];
    assert!(code_intel(&source, "go").is_ok());
}

#[test]
fn names_beyond_ascii() {
    let source = "func f(\u{3b1} int) {\n\t\u{3b2} := \u{3b1}\n\tuse(\u{3b1}, \u{3b2}) // \u{3b1}\n}\n";
    let symbols = code_intel(source.as_bytes(), "go").unwrap();
    assert_eq!(symbols.len(), 2);
    assert_eq!(named(source, &symbols, "\u{3b1}").refs.len(), 2);
    assert_eq!(named(source, &symbols, "\u{3b2}").refs.len(), 1);
}

#[test]
fn references_carry_the_text_of_the_definition() {
    let source = "func f(a, ab, b int) {\n\tuse(ab, a, b, ab, abc)\n}\n";
    let symbols = code_intel(source.as_bytes(), "go").unwrap();
    assert_eq!(symbols.len(), 3);
    for symbol in &symbols {
        let name = text_of(source, symbol);
        for r in &symbol.refs {
            assert_eq!(&source[r.start_byte..r.end_byte], name);
        }
    }
    assert_eq!(named(source, &symbols, "ab").refs.len(), 2);
    assert_eq!(named(source, &symbols, "a").refs.len(), 1);
}

#[test]
fn methods_and_function_literals_are_scopes() {
    let source = "func (r *T) m(a int) {\n\tuse(r, a)\n\tgo func(a int) {\n\t\tuse(a)\n\t}(a)\n}\n";
    let symbols = code_intel(source.as_bytes(), "go").unwrap();
    assert_eq!(symbols.len(), 3);
    let outer_a = source.find("a int").unwrap();
    let inner_a = source.rfind("a int").unwrap();
    let outer = symbols.iter().find(|s| s.def.start_byte == outer_a).unwrap();
    let inner = symbols.iter().find(|s| s.def.start_byte == inner_a).unwrap();
    assert_eq!(outer.refs.len(), 2);
    assert_eq!(inner.refs.len(), 1);
    assert_eq!(named(source, &symbols, "r").refs.len(), 1);
}

#[test]
fn large_file() {
    let mut source = String::from("package main\n\n");
    for i in 0..400 {
        source.push_str(&format!(
            "func f{i}(p int) {{\n\tx := p\n\ty := x + p\n\tuse(x, y, p)\n}}\n\n",
            i = i
        ));
    }
    let symbols = code_intel(source.as_bytes(), "go").unwrap();
    assert_eq!(symbols.len(), 1200);
    let total: usize = symbols.iter().map(|s| s.refs.len()).sum();
    assert_eq!(total, 400 * (3 + 2 + 1));
}
