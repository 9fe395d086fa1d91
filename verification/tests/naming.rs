//! Reviewed names: editing, carrying over and rendering.

use std::collections::HashMap;

use astdiff::analysis::json::analysis_digest;
use astdiff::analysis::{Analysis, AnalysisSymbolKind};
use astdiff::commands::names::{
    count_approved, edit_names, parse_render_format, NameEdit, NameEditError,
};
use astdiff::lineage::matcher::match_analyses;
use astdiff::lineage::MatcherConfig;
use astdiff::naming::{
    propagate_approved_names, NameProvenance, NameState, NamingError, SemanticNameDocument,
};
use astdiff::parser::JsParser;
use astdiff::render::{render_semantic_names, RenderError, RenderFormat};

fn analyze(source: &str) -> Analysis {
    let mut parser = JsParser::new().unwrap();
    let tree = parser.parse(source).unwrap();
    Analysis::from_javascript(source, &tree).unwrap()
}

fn document(analysis: &Analysis, include_generated: bool) -> SemanticNameDocument {
    SemanticNameDocument::from_analysis(analysis, include_generated).unwrap()
}

fn provenance() -> NameProvenance {
    NameProvenance {
        origin: "test".to_string(),
        actor: None,
        evidence_digest: None,
    }
}

#[test]
fn redacted_review_is_deterministic_and_contains_no_source_text() {
    let analysis = analyze("function generated(value) { return value + 1; }");
    let first = document(&analysis, false);
    let second = document(&analysis, false);
    let json = format!("{first:?}").replace("generated_name: None", "");
    assert_eq!(first, second);
    assert!(!json.contains("generated"));
    assert!(!json.contains("return value"));
}

#[test]
fn only_approved_names_propagate() {
    let source = analyze("function descriptive(value) { return value + 1; }");
    let target = analyze("function a(b) { return b + 1; }");
    let lineage = match_analyses(&source, &target, MatcherConfig::default()).unwrap();
    let function = source
        .symbols
        .iter()
        .find(|symbol| symbol.kind == AnalysisSymbolKind::Function)
        .unwrap();
    let mut names = document(&source, false);
    let provenance = NameProvenance {
        origin: "agent".to_string(),
        actor: None,
        evidence_digest: None,
    };
    names
        .suggest(
            &function.id.to_hex(),
            "increment".to_string(),
            provenance.clone(),
        )
        .unwrap();
    let carry = |names: &SemanticNameDocument| {
        propagate_approved_names(names, &lineage, &source, &target).unwrap()
    };
    assert!(carry(&names)
        .symbols
        .iter()
        .all(|entry| entry.semantic_name.is_none()));
    names
        .transition(&function.id.to_hex(), NameState::Approved, provenance)
        .unwrap();
    assert!(carry(&names)
        .symbols
        .iter()
        .any(|entry| entry.semantic_name.as_deref() == Some("increment")));
    assert_eq!(count_approved(&carry(&names)), 1);
}

#[test]
fn event_history_requires_explicit_approval_and_detects_tampering() {
    let analysis = analyze("function a(value) { return value; }");
    let symbol = analysis.symbols[0].id.to_hex();
    let provenance = NameProvenance {
        origin: "agent".to_string(),
        actor: Some("model.v1".to_string()),
        evidence_digest: None,
    };
    let mut names = document(&analysis, false);
    assert!(names
        .transition(&symbol, NameState::Approved, provenance.clone())
        .is_err());
    names
        .suggest(&symbol, "semantic_label".to_string(), provenance.clone())
        .unwrap();
    names
        .transition(&symbol, NameState::Approved, provenance)
        .unwrap();
    assert_eq!(names.revision, 2);
    assert_eq!(names.events.len(), 2);
    let mut forged = names.clone();
    forged.events[1].previous_state = NameState::Unknown;
    assert!(forged.validate().is_err());
}

#[test]
fn review_document_is_bound_to_exact_analysis_content() {
    let first = analyze("function a(value) { return value; }");
    let second = analyze("function a(value) { return value + 1; }");
    let names = document(&first, false);
    names.validate_against(&first).unwrap();
    assert!(names.validate_against(&second).is_err());
    let mut forged = names;
    forged.symbols[0].usage.reference_count += 1;
    assert!(forged.validate_against(&first).is_err());
}

#[test]
fn approved_names_are_recreated_without_mutating_the_input() {
    let source = "function a(b){const c=b+1;return c}";
    let analysis = analyze(source);
    let mut document = document(&analysis, true);
    let ids = analysis
        .symbols
        .iter()
        .map(|symbol| {
            (
                analysis.strings[symbol.name as usize].clone(),
                symbol.id.to_hex(),
            )
        })
        .collect::<HashMap<_, _>>();
    for (generated, semantic) in [("a", "calculate_total"), ("b", "items"), ("c", "total")] {
        let id = ids.get(generated).unwrap();
        document
            .suggest(id, semantic.to_string(), provenance())
            .unwrap();
        document
            .transition(id, NameState::Approved, provenance())
            .unwrap();
    }
    let rendered =
        render_semantic_names(&document, &analysis, source, RenderFormat::Pretty).unwrap();
    assert_eq!(source, "function a(b){const c=b+1;return c}");
    assert_eq!(
        rendered,
        "function calculate_total(items) {\n  const total = items + 1;\n  return total\n}\n"
    );
    assert!(rendered.contains("calculate_total"));
    assert!(rendered.contains("const total = items + 1;"));
    assert!(!rendered.contains("function a"));

    let preserved =
        render_semantic_names(&document, &analysis, source, RenderFormat::Preserve).unwrap();
    assert_eq!(
        preserved,
        "function calculate_total(items){const total=items+1;return total}"
    );
}

#[test]
fn only_approved_names_are_rendered() {
    let source = "function a(b){return b}";
    let analysis = analyze(source);
    let mut names = document(&analysis, true);
    let id = analysis.symbols[0].id.to_hex();
    names
        .suggest(&id, "suggested_only".to_string(), provenance())
        .unwrap();
    let rendered =
        render_semantic_names(&names, &analysis, source, RenderFormat::Preserve).unwrap();
    assert_eq!(rendered, source);
}

#[test]
fn rendering_needs_the_exact_text() {
    let source = "function a(b){return b}";
    let analysis = analyze(source);
    let names = document(&analysis, true);
    let error = render_semantic_names(
        &names,
        &analysis,
        "function a(b){return b }",
        RenderFormat::Preserve,
    )
    .unwrap_err();
    assert_eq!(error, RenderError::SourceLength);
}

#[test]
fn a_foreign_name_in_the_text_is_told() {
    let analysis = analyze("function a(b){return b}");
    let mut names = document(&analysis, true);
    let id = analysis
        .symbols
        .iter()
        .find(|symbol| symbol.kind == AnalysisSymbolKind::Function)
        .unwrap()
        .id
        .to_hex();
    names.suggest(&id, "first".to_string(), provenance()).unwrap();
    names
        .transition(&id, NameState::Approved, provenance())
        .unwrap();
    let other = "function \"(b){return b}";
    let error =
        render_semantic_names(&names, &analysis, other, RenderFormat::Preserve).unwrap_err();
    assert!(matches!(error, RenderError::SpanMismatch { .. }));
    assert_eq!(
        error.message_in(&analysis, other),
        "symbol span contains \"\\\"\", expected generated identifier \"a\""
    );
    assert_eq!(
        error.message_in(&analysis, ""),
        "symbol span does not contain the expected generated identifier"
    );
    assert_eq!(
        RenderError::Overlap.message_in(&analysis, other),
        "approved symbol replacements overlap"
    );
}

#[test]
fn edits_expect_the_revision_that_was_read() {
    let analysis = analyze("function a(value) { return value; }");
    let id = analysis.symbols[0].id.to_hex();
    let mut names = document(&analysis, false);
    let before = names.clone();
    let stale = edit_names(
        &mut names,
        &id,
        NameEdit::Suggest {
            name: "label".to_string(),
        },
        7,
        "human".to_string(),
    );
    let error = stale.unwrap_err();
    assert_eq!(
        error,
        NameEditError::Stale {
            expected: 7,
            actual: 0
        }
    );
    assert_eq!(
        error.message(),
        "semantic-name revision changed: expected 7, found 0"
    );
    assert_eq!(names, before);

    edit_names(
        &mut names,
        &id,
        NameEdit::Suggest {
            name: "label".to_string(),
        },
        0,
        "human".to_string(),
    )
    .unwrap();
    edit_names(&mut names, &id, NameEdit::Approve, 1, "human".to_string()).unwrap();
    assert_eq!(names.revision, 2);
    assert_eq!(count_approved(&names), 1);
    assert_eq!(
        edit_names(&mut names, &id, NameEdit::Reject, 2, "human".to_string()),
        Err(NameEditError::Naming(NamingError::InvalidTransition))
    );
    edit_names(&mut names, &id, NameEdit::Clear, 2, "human".to_string()).unwrap();
    assert_eq!(count_approved(&names), 0);
    assert_eq!(names.symbols.iter().filter(|e| e.semantic_name.is_some()).count(), 0);
}

#[test]
fn unknown_symbols_and_unfit_names_are_refused() {
    let analysis = analyze("function a(value) { return value; }");
    let mut names = document(&analysis, false);
    let id = analysis.symbols[0].id.to_hex();
    assert_eq!(
        names.suggest(&"00".repeat(32), "label".to_string(), provenance()),
        Err(NamingError::UnknownSymbol)
    );
    assert!(names
        .suggest(&id, " padded".to_string(), provenance())
        .is_err());
    assert_eq!(
        names.suggest("nothing", "label".to_string(), provenance()),
        Err(NamingError::Digest)
    );
}

#[test]
fn layouts_have_names() {
    assert_eq!(parse_render_format("pretty"), Some(RenderFormat::Pretty));
    assert_eq!(parse_render_format("preserve"), Some(RenderFormat::Preserve));
    assert_eq!(parse_render_format("other"), None);
}

#[test]
fn documents_state_the_digest_of_their_analysis() {
    let analysis = analyze("function a(value) { return value; }");
    let mut names = document(&analysis, true);
    assert_eq!(names.analysis.analysis_digest, analysis_digest(&analysis));
    let id = analysis.symbols[0].id.to_hex();
    names
        .suggest(&id, "label".to_string(), provenance())
        .unwrap();
    assert_eq!(names.analysis.analysis_digest, analysis_digest(&analysis));
    names.validate_against(&analysis).unwrap();

    names.analysis.analysis_digest = "00".repeat(32);
    assert_eq!(
        names.validate_against(&analysis),
        Err(NamingError::DifferentAnalysis)
    );
}

#[test]
fn a_repeated_change_leaves_the_document_alone() {
    let analysis = analyze("function a(value) { return value; }");
    let id = analysis.symbols[0].id.to_hex();
    let mut names = document(&analysis, false);
    names
        .suggest(&id, "label".to_string(), provenance())
        .unwrap();
    let suggested = names.clone();
    assert_eq!(suggested.revision, 1);
    names
        .suggest(&id, "label".to_string(), provenance())
        .unwrap();
    assert_eq!(names, suggested);

    names
        .transition(&id, NameState::Approved, provenance())
        .unwrap();
    let approved = names.clone();
    assert_eq!(approved.revision, 2);
    assert_eq!(
        names.transition(&id, NameState::Approved, provenance()),
        Err(NamingError::InvalidTransition)
    );
    assert_eq!(names, approved);
    names
        .suggest(&id, "label".to_string(), provenance())
        .unwrap();
    assert_eq!(names, approved);
    assert_eq!(names.events.len(), 2);
}

#[test]
fn names_hold_no_control_codes_and_no_white_space_at_their_ends() {
    let analysis = analyze("function a(value) { return value; }");
    let id = analysis.symbols[0].id.to_hex();
    let fits = |name: &str| {
        document(&analysis, false)
            .suggest(&id, name.to_string(), provenance())
            .is_ok()
    };
    for control in ['\u{0}', '\u{1f}', '\u{7f}', '\u{80}', '\u{9f}'] {
        assert!(!fits(&format!("a{control}b")), "{control:?}");
    }
    for plain in ['\u{20}', '~', '\u{a0}', '\u{ad}', '\u{200b}', '\u{3000}'] {
        assert!(fits(&format!("a{plain}b")), "{plain:?}");
    }
    for space in [
        ' ', '\u{a0}', '\u{1680}', '\u{2000}', '\u{200a}', '\u{2028}', '\u{2029}', '\u{202f}',
        '\u{205f}', '\u{3000}',
    ] {
        assert!(!fits(&format!("{space}a")), "{space:?}");
        assert!(!fits(&format!("a{space}")), "{space:?}");
    }
    for ink in ['\u{180e}', '\u{200b}', '\u{2060}', '\u{feff}'] {
        assert!(fits(&format!("{ink}a{ink}")), "{ink:?}");
    }
}
