//! Analyses of JavaScript texts.

use astdiff::analysis::json::{analysis_digest, analysis_text};
use astdiff::analysis::{
    Analysis, AnalysisCall, AnalysisCallKind, AnalysisDefUse, AnalysisNode, AnalysisReference,
    AnalysisReferenceRole, AnalysisResolution, AnalysisScope, AnalysisScopeKind, AnalysisSymbol,
    AnalysisSymbolKind, Language, LossCode, LossRecord, StableId,
};
use astdiff::digest::sha256;
use astdiff::json::json_string;
use astdiff::parser::JsParser;

fn analyze(source: &str) -> Analysis {
    let mut parser = JsParser::new().unwrap();
    let tree = parser.parse(source).unwrap();
    Analysis::from_javascript(source, &tree).unwrap()
}

#[test]
fn javascript_analysis_is_deterministic_and_name_is_not_symbol_identity_input() {
    let source = "function alpha(value) { return value + 1; }";
    let first = analyze(source);
    let second = analyze(source);
    assert_eq!(first, second);
    assert_eq!(first.symbols.len(), 2);
    let function = first
        .symbols
        .iter()
        .find(|symbol| symbol.kind == AnalysisSymbolKind::Function)
        .unwrap();
    assert_eq!(first.strings[function.name as usize], "alpha");

    let renamed = analyze("function x(value) { return value + 1; }");
    let renamed_function = renamed
        .symbols
        .iter()
        .find(|symbol| symbol.kind == AnalysisSymbolKind::Function)
        .unwrap();
    assert_eq!(function.id, renamed_function.id);
    assert_ne!(first.source_digest, renamed.source_digest);
}

#[test]
fn analysis_records_explicit_phase_five_losses() {
    let analysis = analyze("const answer = 42;");
    assert_eq!(analysis.losses.len(), 5);
    assert!(analysis.validate().is_ok());
}

#[test]
fn analysis_rejects_ids_that_do_not_match_their_structural_inputs() {
    let mut analysis = analyze("function answer() { return 42; }");
    analysis.symbols[0].id.0[0] ^= 0x01;
    assert!(analysis
        .validate()
        .unwrap_err()
        .message()
        .contains("invalid stable ID"));
}

#[test]
fn javascript_graph_covers_bindings_shadowing_roles_and_calls() {
    let analysis = analyze(
        r#"import {a as imported} from "m";
           const outer = 1;
           function run({value}, ...rest) {
               let local = value;
               local += outer;
               return helper(local) + rest.length + imported;
           }
           new Widget();
           console.log(outer);"#,
    );
    let symbol_names = analysis
        .symbols
        .iter()
        .map(|symbol| analysis.strings[symbol.name as usize].as_str())
        .collect::<Vec<_>>();
    for expected in ["imported", "outer", "run", "value", "rest", "local"] {
        assert!(
            symbol_names.contains(&expected),
            "missing symbol {expected}"
        );
    }
    assert!(analysis.references.iter().any(|reference| {
        analysis.strings[reference.name as usize] == "local"
            && reference.role == AnalysisReferenceRole::ReadWrite
    }));
    assert!(analysis
        .calls
        .iter()
        .any(|call| call.kind == AnalysisCallKind::Direct));
    assert!(analysis
        .calls
        .iter()
        .any(|call| call.kind == AnalysisCallKind::Construct));
    assert!(analysis.calls.iter().any(|call| {
        call.kind == AnalysisCallKind::Member
            && call
                .property
                .is_some_and(|property| analysis.strings[property as usize] == "log")
    }));
    assert!(analysis
        .def_uses
        .iter()
        .any(|edge| { edge.resolution == AnalysisResolution::Unresolved }));
    assert!(analysis.validate().is_ok());
}

#[test]
fn javascript_graph_covers_patterns_imports_and_property_boundaries() {
    let analysis = analyze(
        r#"import d, * as ns from "m";
           import {a as b, c} from "m2";
           const {x: y, z, ...rest} = obj;
           let outer = 1;
           function f({p: alias, q, ...spread}, [first, , ...items], ...args) {
               let {q: local, r} = alias;
               const fn = () => local + outer;
               local += q;
               return fn(local) + ns.f(b);
           }
           class C extends Base { method(param) { return param.foo; } }
           export {f as run};"#,
    );
    let mut names = analysis
        .symbols
        .iter()
        .map(|symbol| analysis.strings[symbol.name as usize].clone())
        .collect::<Vec<_>>();
    names.sort();
    for expected in [
        "d", "ns", "b", "c", "y", "z", "rest", "outer", "f", "alias", "q", "spread", "first",
        "items", "args", "local", "r", "fn", "C", "param",
    ] {
        assert!(
            names.iter().any(|name| name == expected),
            "missing {expected}: {names:?}"
        );
    }
    assert!(!names.iter().any(|name| name == "x"));
    let reference_names = analysis
        .references
        .iter()
        .map(|reference| analysis.strings[reference.name as usize].as_str())
        .collect::<Vec<_>>();
    assert!(!reference_names.contains(&"foo"));
    assert!(!reference_names.contains(&"run"));
    assert!(reference_names.contains(&"f"));
    assert!(analysis.calls.iter().any(|call| {
        call.kind == AnalysisCallKind::Member
            && call
                .property
                .is_some_and(|property| analysis.strings[property as usize] == "f")
    }));
    assert!(analysis.validate().is_ok());
}

#[test]
fn javascript_def_use_resolution_obeys_lexical_shadowing() {
    let source = r#"let value = 0;
        function f(value) {
            let inner = value;
            { let value = 2; inner = value; }
            return value;
        }"#;
    let analysis = analyze(source);
    let value_symbols = analysis
        .symbols
        .iter()
        .enumerate()
        .filter(|(_, symbol)| analysis.strings[symbol.name as usize] == "value")
        .map(|(row, symbol)| (row as u32, analysis.scopes[symbol.scope as usize].depth))
        .collect::<Vec<_>>();
    assert_eq!(value_symbols.len(), 3);

    let mut resolved_depths = analysis
        .references
        .iter()
        .zip(&analysis.def_uses)
        .filter(|(reference, _)| analysis.strings[reference.name as usize] == "value")
        .map(|(_, edge)| {
            let symbol = &analysis.symbols[edge
                .symbol
                .unwrap_or_else(|| panic!("unexpected value resolution: {:?}", edge.resolution))
                as usize];
            analysis.scopes[symbol.scope as usize].depth
        })
        .collect::<Vec<_>>();
    resolved_depths.sort_unstable();
    assert_eq!(resolved_depths, vec![1, 1, 2]);
}

#[test]
fn javascript_assignment_patterns_and_for_of_are_writes_not_bindings() {
    let analysis =
        analyze("let value; ({value} = source); for (value of values) { consume(value); }");
    let value_symbols = analysis
        .symbols
        .iter()
        .filter(|symbol| analysis.strings[symbol.name as usize] == "value")
        .count();
    assert_eq!(value_symbols, 1);
    let roles = analysis
        .references
        .iter()
        .filter(|reference| analysis.strings[reference.name as usize] == "value")
        .map(|reference| reference.role)
        .collect::<Vec<_>>();
    assert_eq!(
        roles
            .iter()
            .filter(|role| **role == AnalysisReferenceRole::Write)
            .count(),
        2,
        "{roles:?}"
    );
    assert!(roles.contains(&AnalysisReferenceRole::Read));
}

#[test]
fn javascript_member_bases_remain_reads_when_members_are_written() {
    let analysis =
        analyze("let obj = {}, key = 'x'; obj.x = 1; obj.x++; obj[key] = 2; obj[key]++;");
    let obj_roles = analysis
        .references
        .iter()
        .filter(|reference| analysis.strings[reference.name as usize] == "obj")
        .map(|reference| reference.role)
        .collect::<Vec<_>>();
    assert_eq!(obj_roles.len(), 4);
    assert!(obj_roles
        .iter()
        .all(|role| *role == AnalysisReferenceRole::Read));
    let key_roles = analysis
        .references
        .iter()
        .filter(|reference| analysis.strings[reference.name as usize] == "key")
        .map(|reference| reference.role)
        .collect::<Vec<_>>();
    assert_eq!(key_roles, vec![AnalysisReferenceRole::Read; 2]);
}

#[test]
fn javascript_catch_kind_is_limited_to_the_catch_binding() {
    let analysis = analyze(
        "try { work(); } catch (error) { let body = 1; function nested(param) { return error + body + param; } }",
    );
    let kind = |name: &str| {
        analysis
            .symbols
            .iter()
            .find(|symbol| analysis.strings[symbol.name as usize] == name)
            .map(|symbol| symbol.kind)
            .unwrap()
    };
    assert_eq!(kind("error"), AnalysisSymbolKind::Catch);
    assert_eq!(kind("body"), AnalysisSymbolKind::Let);
    assert_eq!(kind("nested"), AnalysisSymbolKind::Function);
    assert_eq!(kind("param"), AnalysisSymbolKind::Parameter);
}

#[test]
fn javascript_legal_redeclarations_share_one_binding() {
    let analysis = analyze(
        "var repeated; var repeated; repeated = 1; function same() {} function same() {} same();",
    );
    for name in ["repeated", "same"] {
        assert_eq!(
            analysis
                .symbols
                .iter()
                .filter(|symbol| analysis.strings[symbol.name as usize] == name)
                .count(),
            1
        );
        assert!(analysis
            .references
            .iter()
            .zip(&analysis.def_uses)
            .any(|(reference, edge)| {
                analysis.strings[reference.name as usize] == name
                    && edge.resolution == AnalysisResolution::Resolved
            }));
    }
}

#[test]
fn javascript_optional_calls_use_the_normal_call_shape() {
    let analysis =
        analyze("let fn = () => {}; let obj = {m: fn}; fn?.(); obj?.m(); obj.m?.();");
    assert_eq!(analysis.calls.len(), 3);
    assert!(analysis
        .calls
        .iter()
        .any(|call| call.kind == AnalysisCallKind::Direct));
    assert_eq!(
        analysis
            .calls
            .iter()
            .filter(|call| call.kind == AnalysisCallKind::Member)
            .count(),
        2
    );
}

#[test]
fn strings_are_escaped_as_json() {
    assert_eq!(
        json_string("a\"b\\c/\u{8}\t\n\u{c}\r\u{0}\u{1f}\u{7f}é\u{2028}"),
        "\"a\\\"b\\\\c/\\b\\t\\n\\f\\r\\u0000\\u001f\u{7f}é\u{2028}\""
    );
    assert_eq!(json_string(""), "\"\"");
    let every: String = (0..=0x10_ffff).filter_map(char::from_u32).collect();
    assert!(json_string(&every) == serde_json::to_string(&every).unwrap());
}

fn small_analysis() -> Analysis {
    let id = StableId([0xab; 32]);
    Analysis {
        version: 1,
        profile: "p".to_string(),
        producer: "q".to_string(),
        producer_version: "0.1.0".to_string(),
        language: Language::JavaScript,
        frontend: "f".to_string(),
        frontend_version: "2".to_string(),
        source_digest: [7; 32],
        source_length: 18_446_744_073_709_551_615,
        strings: vec!["a\"b".to_string(), String::new()],
        nodes: vec![
            AnalysisNode {
                id,
                parent: None,
                child_ordinal: 0,
                kind: 1,
                start_byte: 2,
                end_byte: 30,
                flags: 255,
            },
            AnalysisNode {
                id,
                parent: Some(0),
                child_ordinal: 4,
                kind: 5,
                start_byte: 6,
                end_byte: 7,
                flags: 0,
            },
        ],
        scopes: vec![AnalysisScope {
            id,
            parent: None,
            kind: AnalysisScopeKind::Global,
            depth: 0,
            start_byte: 2,
            end_byte: 30,
        }],
        symbols: vec![AnalysisSymbol {
            id,
            declaration_node: 1,
            scope: 0,
            name: 0,
            kind: AnalysisSymbolKind::Parameter,
            reference_first: 0,
            reference_count: 1,
        }],
        references: vec![AnalysisReference {
            id,
            node: 1,
            scope: 0,
            name: 0,
            role: AnalysisReferenceRole::ReadWrite,
        }],
        def_uses: vec![AnalysisDefUse {
            id,
            reference: 0,
            symbol: Some(0),
            resolution: AnalysisResolution::Resolved,
        }],
        calls: vec![AnalysisCall {
            id,
            node: 1,
            callee_reference: Some(0),
            target_symbol: None,
            property: Some(1),
            kind: AnalysisCallKind::Member,
        }],
        losses: vec![LossRecord {
            code: LossCode::DynamicScopeUnavailable,
            message: 1,
        }],
    }
}

#[test]
fn analyses_are_written_as_compact_json() {
    let id = "ab".repeat(32);
    let sevens = vec!["7"; 32].join(",");
    let expected = [
        "{\"version\":1,\"profile\":\"p\",\"producer\":\"q\",\"producer_version\":\"0.1.0\",".to_string(),
        "\"language\":\"JavaScript\",\"frontend\":\"f\",\"frontend_version\":\"2\",".to_string(),
        format!("\"source_digest\":[{sevens}],\"source_length\":18446744073709551615,"),
        "\"strings\":[\"a\\\"b\",\"\"],".to_string(),
        format!("\"nodes\":[{{\"id\":\"{id}\",\"parent\":null,\"child_ordinal\":0,\"kind\":1,"),
        "\"start_byte\":2,\"end_byte\":30,\"flags\":255},".to_string(),
        format!("{{\"id\":\"{id}\",\"parent\":0,\"child_ordinal\":4,\"kind\":5,"),
        "\"start_byte\":6,\"end_byte\":7,\"flags\":0}],".to_string(),
        format!("\"scopes\":[{{\"id\":\"{id}\",\"parent\":null,\"kind\":\"Global\",\"depth\":0,"),
        "\"start_byte\":2,\"end_byte\":30}],".to_string(),
        format!("\"symbols\":[{{\"id\":\"{id}\",\"declaration_node\":1,\"scope\":0,\"name\":0,"),
        "\"kind\":\"Parameter\",\"reference_first\":0,\"reference_count\":1}],".to_string(),
        format!("\"references\":[{{\"id\":\"{id}\",\"node\":1,\"scope\":0,\"name\":0,"),
        "\"role\":\"ReadWrite\"}],".to_string(),
        format!("\"def_uses\":[{{\"id\":\"{id}\",\"reference\":0,\"symbol\":0,"),
        "\"resolution\":\"Resolved\"}],".to_string(),
        format!("\"calls\":[{{\"id\":\"{id}\",\"node\":1,\"callee_reference\":0,"),
        "\"target_symbol\":null,\"property\":1,\"kind\":\"Member\"}],".to_string(),
        "\"losses\":[{\"code\":\"DynamicScopeUnavailable\",\"message\":1}]}".to_string(),
    ]
    .concat();
    assert_eq!(analysis_text(&small_analysis()), expected);
}

#[test]
fn analysis_digests_are_those_of_the_json_form() {
    let analysis = analyze("function f(x) { return g(x) + 'a\\nb'; }");
    let text = analysis_text(&analysis);
    let hex: String = sha256(text.as_bytes())
        .iter()
        .map(|byte| format!("{byte:02x}"))
        .collect();
    assert_eq!(analysis_digest(&analysis), hex);

    let value: serde_json::Value = serde_json::from_str(&text).unwrap();
    assert_eq!(value["version"], 1);
    assert_eq!(value["language"], "JavaScript");
    assert_eq!(value["source_length"], analysis.source_length);
    assert_eq!(value["source_digest"].as_array().unwrap().len(), 32);
    for (row, string) in analysis.strings.iter().enumerate() {
        assert_eq!(value["strings"][row], string.as_str());
    }
    assert_eq!(value["nodes"].as_array().unwrap().len(), analysis.nodes.len());
    for (row, node) in analysis.nodes.iter().enumerate() {
        assert_eq!(value["nodes"][row]["id"], node.id.to_hex().as_str());
        assert_eq!(value["nodes"][row]["end_byte"], node.end_byte);
    }
    assert_eq!(value["symbols"][0]["kind"], "Function");
    assert_eq!(value["calls"].as_array().unwrap().len(), analysis.calls.len());
    assert_ne!(
        analysis_digest(&analysis),
        analysis_digest(&analyze("function f(x) { return g(x) + 'a\\nc'; }"))
    );
}

#[test]
fn the_json_form_tells_analyses_apart() {
    let text = analysis_text(&small_analysis());
    assert_eq!(analysis_text(&small_analysis()), text);
    let mut changed: Vec<Analysis> = (0..12).map(|_| small_analysis()).collect();
    changed[0].version = 11;
    changed[1].profile = "p\",\"producer\":\"q".to_string();
    changed[2].producer_version.push('0');
    changed[3].source_digest[31] = 70;
    changed[4].source_length -= 1;
    changed[5].strings[0] = "a\\\"b".to_string();
    changed[6].strings = vec!["a\"b\",\"".to_string()];
    changed[7].nodes[1].parent = None;
    changed[8].scopes[0].kind = AnalysisScopeKind::Module;
    changed[9].calls[0].id = StableId([0xac; 32]);
    changed[10].losses.clear();
    changed[11].def_uses[0].resolution = AnalysisResolution::Ambiguous;
    for (row, analysis) in changed.iter().enumerate() {
        assert_ne!(analysis_text(analysis), text, "{row}");
        assert_ne!(analysis_digest(analysis), analysis_digest(&small_analysis()), "{row}");
    }
}
