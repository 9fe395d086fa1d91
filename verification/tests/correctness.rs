//! Comparing two texts.

use std::hash::{Hash, Hasher};

use astdiff::diff::candidates::build_and_filter_candidates;
use astdiff::diff::declarations::Declaration;
use astdiff::diff::fingerprint::{
    ApiCallFingerprint, ConstantFingerprint, ConstantValue, FunctionFingerprint, RarityScorer,
    StringContext, StringFingerprint,
};
use astdiff::diff::similarity::{
    build_rarity_scorer, declaration_similarity, required_similarity, shared_evidence, Evidence,
    KindPenalty, Share, Similarity, Weighed,
};
use astdiff::diff::{
    ChangeType, DiffClassification, DiffError, DiffResult, SimilarityResult, StructuralDiff,
};
use astdiff::parser::JsParser;

fn tenths(number: u32) -> f64 {
    f64::from(number) / 10.0
}

fn structural(left: &Declaration, right: &Declaration) -> f64 {
    let share = declaration_similarity(left, right).share();
    share.common as f64 / share.all as f64 * tenths(share.factor)
}

fn evidence_score(evidence: &Evidence) -> f64 {
    let weighed = evidence.weighed();
    tenths(weighed.rarity) * tenths(weighed.weight) + tenths(weighed.bonus)
}

fn fingerprinted(
    left: &FunctionFingerprint,
    right: &FunctionFingerprint,
    scorer: &RarityScorer,
) -> (f64, usize) {
    let evidence = shared_evidence(left, right, scorer);
    let ratio = left.size.min(right.size) as f64 / left.size.max(right.size) as f64;
    let factor = if ratio > 0.7 { 1.0 } else { 0.8 + 0.2 * ratio };
    if evidence.is_empty() {
        return (0.0, 0);
    }
    let mut total = 0.0;
    for part in &evidence {
        total += evidence_score(part);
    }
    (total / evidence.len() as f64 * factor, evidence.len())
}

fn results(
    diff: &StructuralDiff,
    left: &Vec<Declaration>,
    right: &Vec<Declaration>,
) -> Vec<SimilarityResult> {
    let scorer = build_rarity_scorer(left, right);
    let mut found = Vec::new();
    for candidate in build_and_filter_candidates(left, right) {
        let a = &left[candidate.i1 as usize];
        let b = &right[candidate.i2 as usize];
        let (similarity, evidence_count) = match (&a.fingerprint, &b.fingerprint) {
            (Some(f1), Some(f2)) if diff.use_fingerprints => {
                let (score, count) = fingerprinted(f1, f2, &scorer);
                (score * 0.7 + structural(a, b) * 0.3, count)
            }
            _ => (structural(a, b), 0),
        };
        let required = required_similarity(evidence_count, a.size) as f64 / 100.0;
        if candidate.name_match || similarity >= required {
            found.push(SimilarityResult {
                i1: candidate.i1 as usize,
                i2: candidate.i2 as usize,
                similarity: similarity.to_bits(),
                percent: format!("{:.1}", similarity * 100.0),
                evidence_count,
                name_match: candidate.name_match,
            });
        }
    }
    found
}

fn compare_all(
    diff: &StructuralDiff,
    left: &Vec<Declaration>,
    right: &Vec<Declaration>,
    old: &str,
    new: &str,
) -> Result<DiffResult, DiffError> {
    diff.compare_declarations(left, right, old, new, results(diff, left, right))
}

fn compare(old: &str, new: &str) -> DiffResult {
    let mut parser1 = JsParser::new().unwrap();
    let mut parser2 = JsParser::new().unwrap();
    let tree1 = parser1.parse(old).unwrap();
    let tree2 = parser2.parse(new).unwrap();
    let diff = StructuralDiff::new();
    let left = diff.extract_declarations(&tree1, old).unwrap();
    let right = diff.extract_declarations(&tree2, new).unwrap();
    compare_all(&diff, &left, &right, old, new).unwrap()
}

#[test]
fn stable_name_bypasses_structural_size_window() {
    let result = compare(
        "function stable(){return 1}",
        "function stable(){let total=0;for(let i=0;i<20;i++){total+=i*i;}if(total>10){total+=Math.max(total,5);}return total+100}",
    );

    assert_eq!(result.matched_declarations, 1);
    assert!(result.changes.iter().all(|change| !matches!(
        change.change_type,
        ChangeType::Addition | ChangeType::Deletion
    )));
}

#[test]
fn location_snippets_are_bounded_on_minified_lines() {
    let padding = "x".repeat(600);
    let old = format!("function a(){{return '{padding}'}}");
    let new = format!("function a(){{return '{padding}y'}}");
    let result = compare(&old, &new);
    let location = result.changes[0].location1.as_ref().unwrap();

    assert!(location.code_snippet.chars().count() <= 201);
    assert!(location.code_snippet.ends_with('…'));
}

#[test]
fn disabling_fingerprints_skips_extraction() {
    let source = "function a(){return 'a distinctive string'}";
    let mut parser = JsParser::new().unwrap();
    let tree = parser.parse(source).unwrap();
    let mut diff = StructuralDiff::new();
    diff.set_use_fingerprints(false);

    let declarations = diff.extract_declarations(&tree, source).unwrap();
    assert_eq!(declarations.len(), 1);
    assert!(declarations[0].fingerprint.is_none());
}

#[test]
fn local_renames_and_line_wrapping_preserve_comparison() {
    for (old, new) in [
        (
            "function f(x){return function g(y){return y+x;};}",
            "function a(b){\nreturn function c(d){return d+b;};\n}",
        ),
        (
            "function f(x){return function g(y){return y;};}",
            "function a(b){return function c(b){return b;};}",
        ),
        (
            "function f(x){return `received ${x} items`;}",
            "function a(b){return `received ${b} items`;}",
        ),
    ] {
        let result = compare(old, new);
        assert!(result.identical, "{old} versus {new}: {result:?}");
        assert_eq!(result.matched_declarations, 1);
    }
}

#[test]
fn string_contents_are_not_whitespace_normalized() {
    for (old, new) in [
        (
            "function f(){return 'a  b';}",
            "function f(){return 'a b';}",
        ),
        ("function f(){return '';}", "function f(){return 'new';}"),
        (
            "function f(x){return `before ${x} after`;}",
            "function f(x){return `${x}`;}",
        ),
    ] {
        let result = compare(old, new);
        assert!(!result.identical);
        assert_eq!(result.changes.len(), 1);
        assert_eq!(
            result.changes[0].classification,
            Some(DiffClassification::StringOnly)
        );
    }
}

#[test]
fn external_names_and_binding_targets_remain_observable() {
    for (old, new) in [
        (
            "function f(x){return fetch(x);}",
            "function f(x){return erase(x);}",
        ),
        ("function f(x,y){return x;}", "function f(x,y){return y;}"),
        (
            "import {readFile as f} from 'fs';",
            "import {writeFile as f} from 'fs';",
        ),
        (
            "function f(x){return x.push(1);}",
            "function f(x){return x.shift(1);}",
        ),
        ("let x=1;", "const x=1;"),
        ("function f(){return\nx;}", "function f(){return x;}"),
    ] {
        let result = compare(old, new);
        assert!(!result.identical, "{old} versus {new}");
        assert!(result
            .changes
            .iter()
            .all(|change| change.classification != Some(DiffClassification::Unchanged)));
    }
}

#[test]
fn template_hashes_and_fingerprints_ignore_bound_spelling() {
    let old = "function f(x){return `received ${x} items`;}";
    let new = "function a(b){return `received ${b} items`;}";
    let mut parser = JsParser::new().unwrap();
    let mut diff = StructuralDiff::new();
    diff.set_use_fingerprints(true);
    let left = diff
        .extract_declarations(&parser.parse(old).unwrap(), old)
        .unwrap();
    let right = diff
        .extract_declarations(&parser.parse(new).unwrap(), new)
        .unwrap();
    assert_eq!(left[0].structural_hashes, right[0].structural_hashes);
    assert_eq!(left[0].minhash_signature, right[0].minhash_signature);
    assert_eq!(
        format!("{:?}", left[0].fingerprint),
        format!("{:?}", right[0].fingerprint)
    );
    assert!(
        compare_all(&diff, &left, &right, old, new)
            .unwrap()
            .identical
    );
}

#[test]
fn display_context_uses_target_names() {
    let result = compare(
        "function oldName(x) {\n  const count = x + 1;\n  return count + 3;\n}",
        "function newName(y) {\n  const total = y + 1;\n  return total + 4;\n}",
    );
    assert_eq!(result.changes.len(), 1);
    let display = &result.changes[0].display_diff;
    assert!(display.contains(" function newName(y) {"), "{display}");
    assert!(display.contains("   const total = y + 1;"), "{display}");
    assert!(display.contains("-  return count + 3;"), "{display}");
    assert!(display.contains("+  return total + 4;"), "{display}");
}

#[test]
fn stale_declaration_ranges_are_rejected() {
    let source = "function f(){return 1;}";
    let tree = JsParser::new().unwrap().parse(source).unwrap();
    let diff = StructuralDiff::new();
    let declarations = diff.extract_declarations(&tree, source).unwrap();
    let error = compare_all(&diff, &declarations, &declarations, "", source).unwrap_err();
    assert_eq!(
        error.message(),
        "invalid source range for declaration 'f'"
    );
}

#[test]
fn legal_redeclarations_share_their_normalized_binding() {
    let result = compare(
        "function f(x){var x; var y=1; var y=2; return x+y;}",
        "function g(a){var a; var b=1; var b=2; return a+b;}",
    );
    assert!(result.identical, "{result:?}");
}

#[test]
fn multiline_template_diff_points_at_the_changed_line() {
    let result = compare(
        "function f(x){return `first ${x}\nold text\nlast`;}",
        "function f(x){return `first ${x}\nnew text\nlast`;}",
    );
    assert_eq!(result.changes.len(), 1);
    let change = &result.changes[0];
    assert_eq!(change.classification, Some(DiffClassification::StringOnly));
    assert!(
        change.display_diff.contains("-old text\n+new text"),
        "{}",
        change.display_diff
    );
}

#[test]
fn minhash_prefix_reuse_preserves_all_lanes() {
    for hashes in [
        vec![],
        vec![0],
        vec![u64::MAX, 17, 500, 0],
        (0..200).map(|n| n * 913).collect(),
    ] {
        let expected: [u64; 128] = std::array::from_fn(|seed: usize| {
            hashes
                .iter()
                .map(|hash: &u64| {
                    let mut hasher = std::collections::hash_map::DefaultHasher::new();
                    hash.hash(&mut hasher);
                    seed.hash(&mut hasher);
                    hasher.finish()
                })
                .min()
                .unwrap_or(u64::MAX)
        });
        assert_eq!(StructuralDiff::compute_minhash(&hashes), expected);
    }
}

#[test]
fn a_text_is_identical_to_itself() {
    let source = "import x from 'y';\nfunction f(a){return a+1;}\nclass C { m() { return 2; } }\nlet v = 3;";
    let result = compare(source, source);
    assert!(result.identical);
    assert_eq!(result.matched_declarations, result.total_declarations1);
    assert_eq!(result.total_declarations1, result.total_declarations2);
    assert!(result.rename_map.is_empty());
}

#[test]
fn declarations_are_matched_removed_or_added() {
    let result = compare(
        "function kept(a){return a+1;} function gone(){while(true){break;}}",
        "function kept(a){return a+1;} class Fresh { one() {} two() {} }",
    );
    let count = |kind: ChangeType| {
        result
            .changes
            .iter()
            .filter(|change| change.change_type == kind)
            .count()
    };
    assert_eq!(result.matched_declarations, 1);
    assert_eq!(
        result.matched_declarations + count(ChangeType::Deletion),
        result.total_declarations1
    );
    assert_eq!(
        result.matched_declarations + count(ChangeType::Addition),
        result.total_declarations2
    );
}

#[test]
fn renames_are_mapped_from_old_to_new() {
    let result = compare("function before(x){return x*2+1;}", "function after(x){return x*2+1;}");
    assert_eq!(
        StructuralDiff::new().generate_rename_mapping(&result),
        vec![("before".to_string(), "after".to_string())]
    );
    assert_eq!(
        StructuralDiff::new().rename_mapping_yaml(&result).as_deref(),
        Some("before: after\n")
    );
    let same = compare("function f(x){return x;}", "function f(x){return x;}");
    assert_eq!(
        StructuralDiff::new().rename_mapping_yaml(&same).as_deref(),
        Some("{}\n")
    );
}

#[test]
fn fingerprints_are_evidence() {
    let old = "function f(x){console.log('a very distinctive message');return x+31337;}";
    let mut diff = StructuralDiff::new();
    diff.set_use_fingerprints(true);
    let tree = JsParser::new().unwrap().parse(old).unwrap();
    let list = diff.extract_declarations(&tree, old).unwrap();
    let scorer = build_rarity_scorer(&list, &list);
    let print = list[0].fingerprint.as_ref().unwrap();
    let evidence = shared_evidence(print, print, &scorer);
    assert!(evidence
        .iter()
        .any(|part| matches!(part, Evidence::Text { rarity: 7, .. })));
    assert!(evidence
        .iter()
        .any(|part| matches!(part, Evidence::Call { same_argument: true, .. })));
}

#[test]
fn the_required_similarity_falls_with_evidence_and_size() {
    assert_eq!(required_similarity(1, 5), 60);
    assert_eq!(required_similarity(2, 5), 45);
    assert_eq!(required_similarity(4, 5), 40);
    assert_eq!(required_similarity(5, 5), 35);
    assert_eq!(required_similarity(0, 9), 70);
    assert_eq!(required_similarity(0, 49), 50);
    assert_eq!(required_similarity(0, 50), 40);
}

#[test]
fn what_is_rare_tells_more() {
    let call = ApiCallFingerprint {
        object: Some("fs".to_string()),
        method: "readFileSync".to_string(),
        first_arg: None,
    };
    let print = FunctionFingerprint {
        strings: vec![StringFingerprint {
            value: "failed to open".to_string(),
            context: StringContext::ErrorMessage,
        }],
        constants: vec![ConstantFingerprint {
            value: ConstantValue::Number(31337),
        }],
        api_calls: vec![call.clone()],
        size: 1,
    };
    let constant = ConstantValue::Number(31337);
    let mut scorer = RarityScorer::new();
    assert_eq!(scorer.score_string("failed to open"), 0);
    assert_eq!(scorer.score_constant(&constant), 0);
    assert_eq!(scorer.score_api_call(&call), 0);
    let expected = [
        (10, 10, 8),
        (7, 6, 8),
        (4, 3, 8),
        (4, 3, 5),
        (4, 3, 5),
        (1, 1, 5),
        (1, 1, 5),
        (1, 1, 5),
        (1, 1, 5),
        (1, 1, 5),
        (1, 1, 2),
    ];
    for (text, number, method) in expected {
        scorer.add_fingerprint(&print);
        assert_eq!(scorer.score_string("failed to open"), text);
        assert_eq!(scorer.score_constant(&constant), number);
        assert_eq!(scorer.score_api_call(&call), method);
    }
    assert_eq!(scorer.score_string("another text"), 0);
}

#[test]
fn evidence_is_weighed_by_its_kind() {
    let weights = [
        (StringContext::ErrorMessage, 12),
        (StringContext::FilePath, 11),
        (StringContext::CommandName, 10),
        (StringContext::ConfigKey, 9),
        (StringContext::ApiEndpoint, 10),
        (StringContext::Regular, 7),
    ];
    for (context, weight) in weights {
        assert_eq!(
            Evidence::Text { context, rarity: 4 }.weighed(),
            Weighed { rarity: 4, weight, bonus: 0 }
        );
    }
    assert_eq!(
        Evidence::Constant { rarity: 6 }.weighed(),
        Weighed { rarity: 6, weight: 8, bonus: 0 }
    );
    assert_eq!(
        Evidence::Call { rarity: 8, same_argument: true }.weighed(),
        Weighed { rarity: 8, weight: 6, bonus: 3 }
    );
    assert_eq!(
        Evidence::Call { rarity: 8, same_argument: false }.weighed(),
        Weighed { rarity: 8, weight: 6, bonus: 0 }
    );
}

#[test]
fn similarities_are_shares() {
    assert_eq!(
        Similarity::Signatures { equal: false }.share(),
        Share { common: 3, all: 10, factor: 10 }
    );
    assert_eq!(
        Similarity::Bare { equal: false, penalty: KindPenalty::Swapped }.share(),
        Share { common: 5, all: 10, factor: 9 }
    );
    assert_eq!(
        Similarity::Uneven.share(),
        Share { common: 2, all: 10, factor: 10 }
    );
    assert_eq!(
        Similarity::Shared { common: 2, all: 3, penalty: KindPenalty::Different }.share(),
        Share { common: 2, all: 3, factor: 7 }
    );
}

#[test]
fn similarity_is_symmetric_and_full_with_itself() {
    let source = "function f(x){return x+1;}\nfunction g(x,y){if(x){return y;}return x*2;}\nvar h=function(z){return z-3;};";
    let tree = JsParser::new().unwrap().parse(source).unwrap();
    let list = StructuralDiff::new().extract_declarations(&tree, source).unwrap();
    assert!(list.len() >= 3);
    for a in &list {
        for b in &list {
            assert_eq!(declaration_similarity(a, b), declaration_similarity(b, a));
            let share = declaration_similarity(a, b).share();
            assert!(share.common <= share.all && share.all > 0 && share.factor <= 10);
        }
        let share = declaration_similarity(a, a).share();
        assert_eq!(share.common, share.all);
        assert_eq!(share.factor, 10);
    }
}

#[test]
fn only_consistent_renames_of_locals_are_unchanged() {
    let old = "function f(a,b){let c=a*2;return c-b;}";
    assert!(compare(old, "function f(x,y){let z=x*2;return z-y;}").identical);
    assert!(compare(old, "function g(x,y){let z=x*2;return z-y;}").identical);
    let merged = compare(old, "function f(x,y){let z=x*2;return z-x;}");
    assert!(!merged.identical);
    assert_eq!(merged.changes.len(), 1);
    let swapped = compare(old, "function f(x,y){let z=y*2;return z-x;}");
    assert!(!swapped.identical);
    let global = compare("function f(a){return one(a);}", "function f(a){return two(a);}");
    assert!(!global.identical);
    let property = compare("function f(a){return a.one;}", "function f(a){return a.two;}");
    assert!(!property.identical);
    let text = compare("function f(){return 'one';}", "function f(){return 'two';}");
    assert_eq!(
        text.changes[0].classification,
        Some(DiffClassification::StringOnly)
    );
}
