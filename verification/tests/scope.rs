//! Parsing, and scopes over syntax trees.

use astdiff::parser::JsParser;
use astdiff::scope::{ScopeAnalyzer, ScopeType};

#[test]
fn test_parse_simple_function() {
    let mut parser = JsParser::new().unwrap();
    let source = "function hello(name) { return name; }";
    let tree = parser.parse(source).unwrap();
    assert_eq!(tree.kind(0), "program");
}

#[test]
fn rejects_syntax_errors() {
    let mut parser = JsParser::new().unwrap();
    let error = match parser.parse("function broken( {") {
        Ok(_) => panic!("the text has a syntax error"),
        Err(error) => error,
    };
    assert!(error.message().contains("syntax error"));
}

#[test]
fn test_simple_scope() {
    let source = "function add(a, b) { return a + b; }";

    let mut parser = JsParser::new().unwrap();
    let tree = parser.parse(source).unwrap();

    let mut analyzer = ScopeAnalyzer::new();
    analyzer.analyze(&tree, source);

    let scopes = analyzer.get_scopes();
    assert_eq!(scopes[0].scope_type, ScopeType::Global);
    let fn_scope = scopes
        .iter()
        .find(|scope| matches!(scope.scope_type, ScopeType::Function))
        .expect("function scope");
    assert_eq!(fn_scope.variables.len(), 2);
    assert_eq!(fn_scope.variables[0].name, "a");
    assert_eq!(fn_scope.variables[1].name, "b");
}

#[test]
fn duplicate_function_names_have_distinct_scopes() {
    let source = "function a(x) { function a(y) { return y; } return a(x); }";
    let mut parser = JsParser::new().unwrap();
    let tree = parser.parse(source).unwrap();
    let mut analyzer = ScopeAnalyzer::new();
    analyzer.analyze(&tree, source);

    let function_scopes: Vec<_> = analyzer
        .get_scopes()
        .iter()
        .filter(|scope| matches!(scope.scope_type, ScopeType::Function))
        .collect();
    assert_eq!(function_scopes.len(), 2);
    assert_ne!(function_scopes[0].id, function_scopes[1].id);
}

#[test]
fn test_import_scope() {
    let source = r#"import * as WbB from "path";"#;

    let mut parser = JsParser::new().unwrap();
    let tree = parser.parse(source).unwrap();

    let mut analyzer = ScopeAnalyzer::new();
    analyzer.analyze(&tree, source);

    let scopes = analyzer.get_scopes();
    let global_scope = &scopes[0];

    println!("Global scope variables: {:?}", global_scope.variables);
    assert!(global_scope.variables.iter().any(|v| v.name == "WbB"));
}
