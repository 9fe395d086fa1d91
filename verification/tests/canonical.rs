//! Renaming variables, formatting and comparing syntax.

use std::collections::HashMap;

use astdiff::canonicalizer::{CanonicalError, Canonicalizer};
use astdiff::diff::alpha::{Bindings, Tokens};
use astdiff::diff::normalize::normalize_for_comparison;
use astdiff::outline::outline;
use astdiff::parser::JsParser;
use astdiff::pretty::{syntax_hash, FormatError};
use astdiff::scope::ScopeAnalyzer;

fn canonical(source: &str) -> String {
    let tree = JsParser::new().unwrap().parse(source).unwrap();
    let mut scopes = ScopeAnalyzer::new();
    scopes.analyze(&tree, source);
    let mut canonicalizer = Canonicalizer::new(scopes);
    canonicalizer.canonicalize(&tree, source).unwrap();
    canonicalizer.apply_canonicalization(&tree, source).unwrap()
}

#[test]
fn named_expressions_rename_the_binding_and_recursive_reference_together() {
    let output = canonical("const holder = function named(x){return x ? named(x-1) : 0;};");
    let tree = JsParser::new().unwrap().parse(&output).unwrap();
    let mut definition = None;
    let mut call = None;
    for node in 0..tree.len() {
        if tree.is_kind(node, "function_expression") || tree.is_kind(node, "function") {
            if let Some(name) = tree.child_by_field_name(node, "name") {
                definition = Some(tree.text(name, &output));
            }
        }
        if tree.is_kind(node, "call_expression") {
            call = Some(tree.text(tree.child_by_field_name(node, "function").unwrap(), &output));
        }
    }
    assert_eq!(definition, call);
    assert!(definition.unwrap().starts_with("fn_"));
}

#[test]
fn generated_names_do_not_capture_outer_bindings_or_unresolved_names() {
    let output = canonical("function f(x){return function g(y){return x+y+param_1;};}");
    assert!(
        output.contains("return param_2+param_3+param_1;"),
        "{output}"
    );
}

#[test]
fn shorthand_and_import_export_keys_survive_renaming() {
    let output = canonical(
        "import {readFile} from 'fs'; const x=1; const o={x}; export {x}; readFile(x);",
    );
    assert!(output.contains("readFile as var_1"), "{output}");
    assert!(output.contains("{x: var_2}"), "{output}");
    assert!(output.contains("{var_2 as x}"), "{output}");
    assert!(output.contains("var_1(var_2)"), "{output}");
}

#[test]
fn test_simple_canonicalization() {
    let source = "function a(b, c) { return b + c; }";

    let mut parser = JsParser::new().unwrap();
    let tree = parser.parse(source).unwrap();

    let mut analyzer = ScopeAnalyzer::new();
    analyzer.analyze(&tree, source);

    let mut canonicalizer = Canonicalizer::new(analyzer);
    canonicalizer.canonicalize(&tree, source).unwrap();

    let canonical_source = canonicalizer.apply_canonicalization(&tree, source).unwrap();
    assert!(canonical_source.starts_with("function fn_"));
    assert!(canonical_source.contains("(param_1, param_2)"));
    assert!(canonical_source.contains("return param_1 + param_2"));
}

#[test]
fn canonical_text_is_exact() {
    assert_eq!(
        canonical("function a(b, c) { return b + c; }"),
        "function fn_4e78(param_1, param_2) { return param_1 + param_2; }"
    );
}

fn tokens(source: &str) -> Tokens {
    let tree = JsParser::new().unwrap().parse(source).unwrap();
    Bindings::new(&tree, source)
        .unwrap()
        .tokenize(&tree, source, 0)
}

#[test]
fn scoped_renames_ignore_spelling_reuse_and_line_wrapping() {
    let left = tokens("function f(x){return function g(y){return y;};}");
    let right = tokens("function a(b){\nreturn function c(b){return b;};\n}");
    assert!(left
        .normalize(&HashMap::new())
        .equal(&right.normalize(&HashMap::new())));
}

#[test]
fn changed_globals_properties_imports_and_binding_targets_are_distinct() {
    for (left, right) in [
        (
            "function f(x){return fetch(x);}",
            "function f(x){return erase(x);}",
        ),
        ("function f(x,y){return x;}", "function f(x,y){return y;}"),
        (
            "function f(x){return x.push(1);}",
            "function f(x){return x.shift(1);}",
        ),
        (
            "import {readFile as f} from 'fs';",
            "import {writeFile as f} from 'fs';",
        ),
        ("const x=1; const o={x};", "const y=1; const o={y};"),
        ("function f(){return\nx;}", "function f(){return x;}"),
    ] {
        assert!(
            !tokens(left)
                .normalize(&HashMap::new())
                .equal(&tokens(right).normalize(&HashMap::new())),
            "{left} versus {right}"
        );
    }
}

#[test]
fn literal_changes_are_distinct_and_string_only() {
    for (left, right) in [
        (
            "function f(){return 'a  b';}",
            "function f(){return 'a b';}",
        ),
        (
            "function f(x){return `got ${x} done`;}",
            "function g(y){return `${y}`;}",
        ),
        (
            "function f(){return '';}",
            "function f(){return 'new\\nvalue';}",
        ),
    ] {
        let left = tokens(left);
        let right = tokens(right);
        let left = left.normalize(&HashMap::new());
        let right = right.normalize(&HashMap::new());
        assert!(!left.equal(&right));
        assert!(left.equal_ignoring_strings(&right));
    }
}

#[test]
fn equal_syntax_is_equal_without_its_strings() {
    let left = tokens("function f(x){return x + 'a';}");
    let right = tokens("function g(y){return y + 'a';}");
    let left = left.normalize(&HashMap::new());
    let right = right.normalize(&HashMap::new());
    assert!(left.equal(&right));
    assert!(left.equal_ignoring_strings(&right));
}

#[test]
fn formatting_preserves_parameters_modifiers_literals_and_asi() {
    for source in [
        "for(let {spec:Y,note:U} of values){console.log(Y,U);}",
        "async function f(x=1,...rest){return x;}",
        "function* f({x},[y],...rest){yield x+y;}",
        "function f(x){return\nx;}",
        "function f(x){return /* inline */ x;}",
        "let x=1,y=2; x\n++y;",
        "for(let i=0;i<3;i++){console.log(i);}",
        "const pattern=/[a-z]+/gi; const text=`line ${pattern}\nnext`;",
        "const view=<div> keep  this <b>text</b> </div>;",
        "// leading\nfunction f(){// comment\nreturn 1;}",
    ] {
        let tree = JsParser::new().unwrap().parse(source).unwrap();
        let formatted = astdiff::pretty::format(&tree, source).unwrap();
        let parsed = JsParser::new().unwrap().parse(&formatted).unwrap();
        assert_eq!(
            syntax_hash(&tree, source),
            syntax_hash(&parsed, &formatted),
            "{source}"
        );
    }
}

#[test]
fn formatted_text_is_exact() {
    let source = "function f(a,b){return a+b}";
    let tree = JsParser::new().unwrap().parse(source).unwrap();
    assert_eq!(
        astdiff::pretty::format(&tree, source).unwrap(),
        "function f(a, b) {\n  return a + b\n}\n"
    );
}

#[test]
fn different_syntax_has_different_hashes() {
    let left = "function f(x){return x;}";
    let right = "function f(x){return x+1;}";
    let tree1 = JsParser::new().unwrap().parse(left).unwrap();
    let tree2 = JsParser::new().unwrap().parse(right).unwrap();
    assert_ne!(syntax_hash(&tree1, left), syntax_hash(&tree2, right));
}

#[test]
fn outlines_show_kinds_places_fields_and_short_leaves() {
    let source = "x = 1;";
    let tree = JsParser::new().unwrap().parse(source).unwrap();
    assert_eq!(
        outline(&tree, source),
        "program [0:0]\n  expression_statement [0:0]\n    assignment_expression [0:0]\n      [left=\n        identifier [0:0] => \"x\"\n      ]\n      = [0:2] => \"=\"\n      [right=\n        number [0:4] => \"1\"\n      ]\n    ; [0:5] => \";\"\n"
    );
}

#[test]
fn refusals_are_told() {
    assert!(!CanonicalError::Overlap.message().is_empty());
    let error = FormatError::SyntaxChanged;
    assert!(error.message().contains("syntax"));
}

#[test]
fn imports_are_reduced_to_their_module() {
    for import in [
        "import { foo as bar } from \"module\";",
        "import * as baz from \"module\";",
        "import {a,b} FROM   \"module\"  // from nowhere \"else\"",
        "import d from\"module\"",
    ] {
        let reduced = normalize_for_comparison(import, true);
        if import.contains("nowhere") {
            assert_eq!(reduced, import);
        } else {
            assert_eq!(reduced, "import _ from \"module\";");
        }
    }
    assert_eq!(
        normalize_for_comparison("import x from 'm'", true),
        "import _ from 'm';"
    );
    assert_eq!(
        normalize_for_comparison("import \"module\";", true),
        "import \"module\";"
    );
    assert_eq!(
        normalize_for_comparison("import x from \"module;", true),
        "import x from \"module;"
    );
}

#[test]
fn lines_are_made_comparable() {
    assert_eq!(
        normalize_for_comparison("  const  a\u{a0}\u{3000}=\t1 ;\n\u{2003}let b,", false),
        "a = 1\nb"
    );
    assert_eq!(
        normalize_for_comparison("a\u{200b}b \u{85}c\u{2028}", false),
        "a\u{200b}b c"
    );
}

#[test]
fn every_variable_of_a_scope_gets_a_name_and_nothing_else_does() {
    let source = "const a = 1; function f(b, c) { let d = b; { let a = c; { var e = a; } } } class G {}";
    let tree = JsParser::new().unwrap().parse(source).unwrap();
    let mut scopes = ScopeAnalyzer::new();
    scopes.analyze(&tree, source);
    let mut declared = Vec::new();
    for scope in scopes.get_scopes() {
        for variable in &scope.variables {
            declared.push((scope.id, variable.name.clone()));
        }
        match scope.parent {
            Some(parent) => assert!(scopes.get_scopes()[parent].children.contains(&scope.id)),
            None => assert_eq!(scope.id, 0),
        }
    }
    let count = scopes.get_scopes().len();
    let mut canonicalizer = Canonicalizer::new(scopes);
    canonicalizer.canonicalize(&tree, source).unwrap();
    let names = ["a", "b", "c", "d", "e", "f", "G", "h", ""];
    let mut found = 0;
    for scope in 0..count + 2 {
        for name in names {
            let is_declared = declared.contains(&(scope, name.to_string()));
            assert_eq!(
                canonicalizer.find_canonical_name(name, scope).is_some(),
                is_declared,
                "{name} in {scope}"
            );
            found += usize::from(is_declared);
        }
    }
    assert_eq!(found, declared.len());
    assert!(found >= 8);
}
