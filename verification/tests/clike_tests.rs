use codemod::clike::Clike;

#[test]
fn test_is_allowed_keywords() {
    assert!(Clike::is_allowed("bob"));
    assert!(!Clike::is_allowed("private"));
    assert!(!Clike::is_allowed("public"));
    assert!(!Clike::is_allowed("extends"));
    assert!(Clike::is_allowed("Session"));
}

#[test]
fn test_eight_functions_in_order() {
    let text = "void alpha() { }\n\
                int beta(int x) { }\n\
                int gamma(int x, int y) { }\n\
                String delta() { }\n\
                void epsilonFn() { }\n\
                void zeta(char c) { }\n\
                long eta() { }\n\
                byte theta() { }\n";
    let clike = Clike {};
    let fns = clike.read_functions(text);
    let names: Vec<&str> = fns.iter().map(|f| f.name.as_str()).collect();
    assert_eq!(
        names,
        vec!["alpha", "beta", "gamma", "delta", "epsilonFn", "zeta", "eta", "theta"]
    );
}

#[test]
fn test_function_with_trailing_parenthesized_token() {
    // a second parenthesized token after the parameter list restarts the
    // recorded name, so the later one is reported
    let clike = Clike {};
    let fns = clike.read_functions("a() b() {x");
    assert_eq!(fns.len(), 1);
    assert_eq!(fns[0].name, "b");
}

#[test]
fn test_unclosed_parens_emit_nothing() {
    let clike = Clike {};
    let fns = clike.read_functions("broken(unclosed { }");
    assert_eq!(fns.len(), 0);
}

#[test]
fn test_shadowing_resolution() {
    // an inner redeclaration shadows the outer binding until its block
    // closes
    let text = "Type x;{Type2 x;x;}x;";
    let clike = Clike {};
    let ids = clike.read_identifiers(text);
    let views: Vec<(&str, &str, usize, usize)> = ids
        .iter()
        .map(|i| (i.name.as_str(), i.typ.as_str(), i.start, i.end))
        .collect();
    assert_eq!(
        views,
        vec![
            ("x", "Type", 5, 6),
            ("x", "Type2", 14, 15),
            ("x", "Type2", 16, 17),
            ("x", "Type", 19, 20),
        ]
    );
}

#[test]
fn test_binding_dropped_on_block_close() {
    let clike = Clike {};
    let ids = clike.read_identifiers("{Session me;}me;");
    // the use after the closing brace no longer resolves
    assert_eq!(ids.len(), 1);
    assert_eq!(ids[0].name, "me");
    assert_eq!(ids[0].typ, "Session");
}

#[test]
fn test_dotted_chain_suppressed() {
    let clike = Clike {};
    let ids = clike.read_identifiers("Session me;me.go;");
    // "go" after the dot is neither resolved nor declared
    assert_eq!(ids.len(), 2);
    assert_eq!((ids[0].name.as_str(), ids[0].typ.as_str()), ("me", "Session"));
    assert_eq!((ids[1].name.as_str(), ids[1].typ.as_str()), ("me", "Session"));
    assert_eq!((ids[1].start, ids[1].end), (11, 13));
}

#[test]
fn test_keyword_declaration_rejected() {
    let clike = Clike {};
    let ids = clike.read_identifiers("void x;x;");
    // "void x" declares nothing, so the later use resolves to nothing
    assert_eq!(ids.len(), 0);
}

#[test]
fn test_scanners_on_empty_text() {
    let clike = Clike {};
    assert_eq!(clike.read_functions("").len(), 0);
    assert_eq!(clike.read_identifiers("").len(), 0);
}

#[test]
fn test_extra_closing_brace_saturates() {
    // popping past the outermost frame neither panics nor leaves a frame
    // to bind into: the declaration site is still reported, but the later
    // use has nothing to resolve against
    let clike = Clike {};
    let ids = clike.read_identifiers("}}Session me;me;");
    assert_eq!(ids.len(), 1);
    assert_eq!((ids[0].name.as_str(), ids[0].typ.as_str()), ("me", "Session"));
}
