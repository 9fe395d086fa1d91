//! Matching the symbols of two analyses.

use astdiff::analysis::{Analysis, StableId};
use astdiff::lineage::matcher::{match_analyses, match_analyses_with_source_maps};
use astdiff::lineage::{ConfidenceTier, LineageError, MatchDecision, MatcherConfig};
use astdiff::parser::JsParser;
use astdiff::sourcemap::{RawMap, SourceMap, SourceMapLimits};

fn analysis(source: &str) -> Analysis {
    let mut parser = JsParser::new().unwrap();
    let tree = parser.parse(source).unwrap();
    Analysis::from_javascript(source, &tree).unwrap()
}

fn map_with(bytes: &[u8], mappings: &str) -> SourceMap {
    let raw = RawMap {
        version: 3,
        source_root: None,
        sources: Some(vec![Some("original.js".to_string())]),
        sources_content: None,
        names: Vec::new(),
        mappings: Some(mappings.to_string()),
        sections: None,
        ignore_list: None,
        x_google_ignore_list: None,
    };
    SourceMap::parse(bytes, &raw, SourceMapLimits::default()).unwrap()
}

#[test]
fn unique_structural_renames_are_exact_anchors() {
    let source = analysis("function descriptive(value) { return value + 1; }");
    let target = analysis("function a(b) { return b + 1; }");
    let report = match_analyses(&source, &target, MatcherConfig::default()).unwrap();
    assert_eq!(report.stats.accepted, 2);
    assert!(report.matches.iter().all(|record| {
        record.decision == MatchDecision::Accepted && record.confidence == ConfidenceTier::Exact
    }));
}

#[test]
fn identical_clones_abstain_on_zero_margin() {
    let source = analysis("function a(){return 1} function b(){return 1}");
    let target = analysis("function x(){return 1} function y(){return 1}");
    let report = match_analyses(&source, &target, MatcherConfig::default()).unwrap();
    assert_eq!(report.stats.accepted, 0);
    assert_eq!(report.stats.abstained, 2);
}

#[test]
fn repeated_exact_shapes_do_not_expand_into_all_pairs() {
    let source_text = (0..256)
        .map(|index| format!("function source_{index}(){{return 1}}"))
        .collect::<String>();
    let target_text = (0..256)
        .map(|index| format!("function target_{index}(){{return 1}}"))
        .collect::<String>();
    let source = analysis(&source_text);
    let target = analysis(&target_text);
    let config = MatcherConfig {
        max_candidates: 8,
        ..MatcherConfig::default()
    };
    let report = match_analyses(&source, &target, config).unwrap();
    assert!(
        report.stats.candidate_pairs
            <= report.stats.source_symbols * report.config.max_candidates as u64,
        "non-unique exact postings expanded beyond the candidate cap: {:#?}",
        report.stats
    );
    assert!(
        report.stats.candidate_pairs < report.stats.source_symbols * report.stats.target_symbols
    );
}

#[test]
fn inserted_unrelated_symbols_do_not_break_exact_matches() {
    let source = analysis("function a(x){return x+1} function b(x){return x*2}");
    let target = analysis(
        "function noise(){return null} function q(y){return y+1} function r(y){return y*2}",
    );
    let report = match_analyses(&source, &target, MatcherConfig::default()).unwrap();
    assert_eq!(report.stats.accepted, 4, "{report:#?}");
    assert!(report.stats.added >= 1);
    assert!(report.stats.expensive_comparisons < 25);
}

#[test]
fn report_is_byte_deterministic() {
    let source = analysis("const value = 1; function read(){ return value; }");
    let target = analysis("const a = 1; function b(){ return a; }");
    let first = match_analyses(&source, &target, MatcherConfig::default()).unwrap();
    let second = match_analyses(&source, &target, MatcherConfig::default()).unwrap();
    assert_eq!(first, second);
    assert_eq!(
        format!("{first:?}").into_bytes(),
        format!("{second:?}").into_bytes()
    );
}

#[test]
fn report_validation_binds_rows_to_stable_ids() {
    let source = analysis("function descriptive(value) { return value + 1; }");
    let target = analysis("function a(b) { return b + 1; }");
    let mut report = match_analyses(&source, &target, MatcherConfig::default()).unwrap();
    report.validate_against(&source, &target).unwrap();
    report.matches[0].source_symbol_id = "00".repeat(32);
    assert!(report.validate_against(&source, &target).is_err());
}

#[test]
fn source_maps_bind_raw_digests_and_gate_impossible_origins() {
    let source_text = "function descriptive(value) { return value + 1; }";
    let target_text = "function a(b) { return b + 1; }";
    let source = analysis(source_text);
    let target = analysis(target_text);
    let source_map = map_with(
        br#"{"version":3,"sources":["original.js"],"names":[],"mappings":"AAAA"}"#,
        "AAAA",
    );
    let target_map = map_with(
        br#"{"version":3,"sources":["original.js"],"names":[],"mappings":"AAAA"}"#,
        "AAAA",
    );
    let report = match_analyses_with_source_maps(
        &source,
        &target,
        MatcherConfig::default(),
        source_text,
        target_text,
        &source_map,
        &target_map,
    )
    .unwrap();
    let source_map_digest = StableId(source_map.digest()).to_hex();
    assert_eq!(
        report.source_map_source_digest.as_deref(),
        Some(source_map_digest.as_str())
    );
    assert!(report.matches.iter().any(|matched| {
        matched
            .evidence
            .as_ref()
            .and_then(|evidence| evidence.source_map_origin_match)
            == Some(true)
    }));
    report
        .validate_against_with_source_maps(
            &source,
            &target,
            source_text,
            target_text,
            &source_map,
            &target_map,
        )
        .unwrap();

    let mismatched_target_map = map_with(
        br#"{"version":3,"sources":["original.js"],"names":[],"mappings":"AACA"}"#,
        "AACA",
    );
    let gated = match_analyses_with_source_maps(
        &source,
        &target,
        MatcherConfig::default(),
        source_text,
        target_text,
        &source_map,
        &mismatched_target_map,
    )
    .unwrap();
    assert!(gated.stats.accepted <= report.stats.accepted);
    assert!(gated.matches.iter().all(|matched| {
        matched
            .evidence
            .as_ref()
            .and_then(|evidence| evidence.source_map_origin_match)
            != Some(true)
    }));
}

#[test]
fn source_map_validation_rejects_wrong_generated_bytes_or_map() {
    let source_text = "function a(value) { return value; }";
    let target_text = "function b(other) { return other; }";
    let source = analysis(source_text);
    let target = analysis(target_text);
    let map = map_with(
        br#"{"version":3,"sources":["original.js"],"names":[],"mappings":"AAAA"}"#,
        "AAAA",
    );
    let report = match_analyses_with_source_maps(
        &source,
        &target,
        MatcherConfig::default(),
        source_text,
        target_text,
        &map,
        &map,
    )
    .unwrap();
    assert!(report
        .validate_against_with_source_maps(
            &source,
            &target,
            "function forged(value) { return value; }",
            target_text,
            &map,
            &map,
        )
        .is_err());
    assert!(report.validate_against(&source, &target).is_err());
}

#[test]
fn accepted_targets_are_used_once_and_every_target_is_accounted_for() {
    let source = analysis("function a(x){return x+1} function b(x){return x*2}");
    let target = analysis("function q(y){return y+1} function r(y){return y*2} let extra = 5;");
    let report = match_analyses(&source, &target, MatcherConfig::default()).unwrap();
    let mut targets: Vec<_> = report
        .matches
        .iter()
        .filter(|record| record.decision == MatchDecision::Accepted)
        .map(|record| record.target_symbol_id.clone().unwrap())
        .collect();
    let total = targets.len();
    targets.sort();
    targets.dedup();
    assert_eq!(targets.len(), total);
    assert_eq!(
        report.stats.accepted + report.stats.added + report.stats.ambiguous_targets,
        report.stats.target_symbols
    );
}

#[test]
fn impossible_configurations_are_refused() {
    let source = analysis("let a = 1;");
    let config = MatcherConfig {
        max_candidates: 0,
        ..MatcherConfig::default()
    };
    let error = match_analyses(&source, &source, config).unwrap_err();
    assert_eq!(error, LineageError::InvalidConfiguration);
}

#[test]
fn renaming_symbols_changes_no_decision() {
    let source = analysis("function total(items, start) { let sum = start; for (const item of items) { sum += item; } return sum; }");
    let renamed = analysis("function a(b, c) { let d = c; for (const e of b) { d += e; } return d; }");
    let target = analysis("function t(u, v) { let w = v; for (const x of u) { w += x; } return w; } function other() { return 1; }");
    let config = MatcherConfig::default();
    let before = match_analyses(&source, &target, config).unwrap();
    let after = match_analyses(&renamed, &target, config).unwrap();
    assert_eq!(before.stats, after.stats);
    assert_eq!(before.added_target_rows, after.added_target_rows);
    assert_eq!(before.ambiguous_target_rows, after.ambiguous_target_rows);
    assert_eq!(before.matches, after.matches);
}

#[test]
fn accepted_matches_are_exact_or_clear() {
    let source = analysis("function f(a) { return a + 1; } function g(b, c) { if (b) { return c; } return b * c; }");
    let target = analysis("function x(p) { return p + 2 + p; } function y(q, r) { if (q) { return r; } return q * r; }");
    let config = MatcherConfig::default();
    let report = match_analyses(&source, &target, config).unwrap();
    assert!(report.stats.accepted > 0);
    for record in &report.matches {
        if record.decision == MatchDecision::Accepted {
            assert!(
                record.confidence == ConfidenceTier::Exact
                    || (record.score_bps >= config.min_score_bps
                        && record.source_margin_bps >= config.min_margin_bps
                        && record.target_margin_bps >= config.min_margin_bps
                        && !record.candidates_truncated)
            );
        }
    }
}
