//! What commands decide.

use astdiff::cli::{usage, Args, Command, Mode};
use astdiff::commands::inspect::{inspect, Comparison, Inspection};
use astdiff::commands::maps::source_map_positions_json;
use astdiff::commands::{
    bounded, choose_load_output, choose_output, paired, DiffOutput, LoadOutput,
};
use astdiff::diff::fingerprint::{
    ApiCallFingerprint, ConstantFingerprint, ConstantValue, FunctionFingerprint, StringContext,
    StringFingerprint,
};
use astdiff::diff::report::ReportStyle;
use astdiff::diff::StructuralDiff;
use astdiff::parser::JsParser;
use astdiff::sourcemap::OriginalPosition;

fn args(command: Option<Command<String>>) -> Args<String> {
    Args {
        command,
        file1: None,
        file2: None,
        format: "unified".to_string(),
        export_mappings: None,
        summary: true,
        verbose: false,
        fingerprints: false,
        compact: false,
        lite: false,
        dump: None,
    }
}

#[test]
fn bounded_reader_rejects_before_returning_oversized_data() {
    let error = bounded(b"12345".to_vec(), 4, "fixture").unwrap_err();
    assert!(error.contains("fixture exceeds the byte limit"));
    assert_eq!(bounded(b"12345".to_vec(), 5, "fixture").unwrap(), b"12345");
}

#[test]
fn two_files_are_compared_without_a_subcommand() {
    let mut line = args(None);
    line.file1 = Some("a.js".to_string());
    assert!(args(None).mode().is_none());
    assert!(usage().starts_with("Error: Two files required for diff\n"));
    line.file2 = Some("b.js".to_string());
    match line.mode() {
        Some(Mode::Diff {
            file1,
            file2,
            summary,
            ..
        }) => {
            assert_eq!(file1, "a.js");
            assert_eq!(file2, "b.js");
            assert!(summary);
        }
        other => panic!("{other:?}"),
    }
}

#[test]
fn the_map_option_decides_what_canon_does() {
    let canon = |map: Option<Option<String>>| {
        args(Some(Command::Canon {
            input_file: "in.js".to_string(),
            map,
            preserve_comments: false,
            pretty: true,
        }))
        .mode()
        .unwrap()
    };
    assert!(matches!(canon(None), Mode::Canonicalize { pretty: true, .. }));
    assert!(matches!(canon(Some(None)), Mode::GenerateMapping { .. }));
    assert!(matches!(
        canon(Some(Some("map.yaml".to_string()))),
        Mode::ApplyMapping { .. }
    ));
}

#[test]
fn formats_choose_outputs() {
    assert_eq!(
        choose_output("unified", false, true, true),
        Some(DiffOutput::Report(ReportStyle::Compact))
    );
    assert_eq!(
        choose_output("unified", false, false, true),
        Some(DiffOutput::Report(ReportStyle::Summary))
    );
    assert_eq!(
        choose_output("unified", false, false, false),
        Some(DiffOutput::Report(ReportStyle::Full))
    );
    assert_eq!(choose_output("json", true, true, true), Some(DiffOutput::Json));
    assert_eq!(choose_output("other", false, false, false), None);
    assert_eq!(choose_load_output("summary"), Some(LoadOutput::Summary));
    assert_eq!(choose_load_output("full"), Some(LoadOutput::Full));
    assert_eq!(choose_load_output("json"), Some(LoadOutput::Json));
    assert_eq!(choose_load_output("text"), None);
}

#[test]
fn maps_come_in_pairs() {
    assert_eq!(paired(Some(1), Some(2)), Ok(Some((1, 2))));
    assert_eq!(paired::<i32, i32>(None, None), Ok(None));
    assert_eq!(
        paired::<i32, i32>(Some(1), None),
        Err("--source-map-source and --source-map-target must be supplied together")
    );
}

fn position(index: u32) -> OriginalPosition {
    OriginalPosition {
        source: Some("input.js".to_string()),
        source_root: None,
        source_index: index,
        line: 4,
        column: 2,
        name: Some("answer".to_string()),
        name_index: Some(0),
    }
}

#[test]
fn positions_are_unmapped_mapped_or_ambiguous() {
    assert_eq!(
        source_map_positions_json(&vec![], true),
        "{\"coordinate_basis\":\"zero_based_utf16\",\"mapping\":\"unmapped\"}"
    );
    assert_eq!(
        source_map_positions_json(&vec![position(3)], false),
        "{\"coordinate_basis\":\"zero_based_utf16\",\"mapping\":\"mapped\",\"name_index\":0,\
         \"original_column\":2,\"original_line\":4,\"source_index\":3}"
    );
    assert_eq!(
        source_map_positions_json(&vec![position(3)], true),
        "{\"coordinate_basis\":\"zero_based_utf16\",\"mapping\":\"mapped\",\"name\":\"answer\",\
         \"name_index\":0,\"original_column\":2,\"original_line\":4,\"source\":\"input.js\",\
         \"source_index\":3,\"source_root\":null}"
    );
    let mut second = position(2);
    second.name_index = None;
    let text = source_map_positions_json(&vec![position(1), second], false);
    assert_eq!(
        text,
        "{\"coordinate_basis\":\"zero_based_utf16\",\"count\":2,\"mapping\":\"ambiguous\",\
         \"positions\":[{\"name_index\":0,\"original_column\":2,\"original_line\":4,\
         \"source_index\":1},{\"name_index\":null,\"original_column\":2,\"original_line\":4,\
         \"source_index\":2}]}"
    );
    let value: serde_json::Value = serde_json::from_str(&text).unwrap();
    assert_eq!(value.to_string(), text);
    assert_eq!(value["positions"].as_array().unwrap().len(), 2);
}

#[test]
fn source_names_stay_out_of_positions() {
    let other = || OriginalPosition {
        source: None,
        source_root: Some("root \"quoted\"".to_string()),
        name: None,
        ..position(3)
    };
    assert_eq!(
        source_map_positions_json(&vec![position(3)], false),
        source_map_positions_json(&vec![other()], false)
    );
    assert_eq!(
        source_map_positions_json(&vec![position(3), position(1)], false),
        source_map_positions_json(&vec![other(), position(1)], false)
    );
    assert!(source_map_positions_json(&vec![other()], true)
        .ends_with(",\"source\":null,\"source_index\":3,\"source_root\":\"root \\\"quoted\\\"\"}"));
}

#[test]
fn inspection_tells_of_declarations_and_their_matches() {
    let source = "function f(){return 1}";
    let tree = JsParser::new().unwrap().parse(source).unwrap();
    let diff = StructuralDiff::new();
    let list = diff.extract_declarations(&tree, source).unwrap();
    let matches = vec![(0, 0, 1)];
    let similarities = vec!["100.0".to_string(); list.len()];
    let told = inspect(&Inspection {
        path: "a.js",
        source,
        identifier: "f",
        declarations: &list,
        comparison: Some(Comparison {
            path: "b.js",
            declarations: &list,
            matches: &matches,
            similarities: &similarities,
        }),
    });
    assert!(told.starts_with(
        "Found 1 declaration(s) with identifier 'f' in a.js:\n\n=== Declaration #1 ===\nFile: a.js\nName: f\nKind: Function\nLine: 1\n"
    ));
    assert!(told.contains("  MATCHED to: f (line 1) in b.js\n  Match similarity: calculating...\n  Structural similarity: 100.0%\n"));
    assert!(told.ends_with("\nSource preview:\nfunction f(){return 1}\n"));
    let absent = inspect(&Inspection {
        path: "a.js",
        source,
        identifier: "g",
        declarations: &list,
        comparison: None,
    });
    assert_eq!(
        absent,
        "No declarations found with identifier 'g' in a.js\n"
    );
}

#[test]
fn long_declarations_are_cut_at_a_character() {
    let source = format!("let v = 'x{}';", "é".repeat(200));
    let tree = JsParser::new().unwrap().parse(&source).unwrap();
    let diff = StructuralDiff::new();
    let list = diff.extract_declarations(&tree, &source).unwrap();
    let told = inspect(&Inspection {
        path: "a.js",
        source: &source,
        identifier: "v",
        declarations: &list,
        comparison: None,
    });
    assert!(told.ends_with("é...\n"), "{told}");
}

#[test]
fn inspection_shows_the_first_entries_of_a_fingerprint() {
    let source = "function f(){return 1}";
    let tree = JsParser::new().unwrap().parse(source).unwrap();
    let mut list = StructuralDiff::new()
        .extract_declarations(&tree, source)
        .unwrap();
    let constant = |value| ConstantFingerprint { value };
    let print = FunctionFingerprint {
        strings: (0..6)
            .map(|n| StringFingerprint {
                value: format!("a\"{n}\n"),
                context: StringContext::Regular,
            })
            .collect(),
        constants: vec![
            constant(ConstantValue::Number(i64::MIN)),
            constant(ConstantValue::Number(700)),
            constant(ConstantValue::Float("1.5".to_string())),
            constant(ConstantValue::Regex("/a\\d/".to_string())),
            constant(ConstantValue::Duration(500)),
            constant(ConstantValue::Duration(1000)),
        ],
        api_calls: vec![
            ApiCallFingerprint {
                object: Some("fs".to_string()),
                method: "readFileSync".to_string(),
                first_arg: None,
            },
            ApiCallFingerprint {
                object: None,
                method: "run".to_string(),
                first_arg: Some("'x'".to_string()),
            },
        ],
        size: 9,
    };
    let shown = format!(
        "\nFingerprint:\n  Strings (6): {:?}\n  Constants (6): {:?}\n  API calls (2): {:?}\n\nAST Node:\n",
        print.strings.iter().take(5).map(|s| &s.value).collect::<Vec<_>>(),
        print.constants.iter().take(5).collect::<Vec<_>>(),
        print.api_calls.iter().take(5).collect::<Vec<_>>()
    );
    assert!(shown.contains("[ConstantFingerprint { value: Number(-9223372036854775808) }, "));
    list[0].fingerprint = Some(print);
    let told = inspect(&Inspection {
        path: "a.js",
        source,
        identifier: "f",
        declarations: &list,
        comparison: None,
    });
    assert!(told.contains(&shown), "{told}");
}
