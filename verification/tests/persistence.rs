//! Persisted analyses: columns, checks and files.

use astdiff::analysis::cache::CacheError;
use astdiff::analysis::columns::AnalysisColumns;
use astdiff::analysis::validate::{NodeFault, ScopeFault, SymbolFault};
use astdiff::analysis::view::AnalysisCacheView;
use astdiff::analysis::{Analysis, AnalysisResolution, LossCode};
use astdiff::cli::AnalysisQuery;
use astdiff::commands::facts::{answer_facts, FactsAnswer};
use astdiff::digest::sha256;
use astdiff::envelope::{
    analysis_format, check_source, open_envelope, write_envelope, EnvelopeError, Labels,
};
use astdiff::parser::JsParser;

const LAYOUT: [u8; 32] = [7; 32];
const HEADER_SIZE: usize = 128;
const LIMIT: u64 = 4 * 1024 * 1024 * 1024;

fn analysis(source: &str) -> Analysis {
    let mut parser = JsParser::new().unwrap();
    let tree = parser.parse(source).unwrap();
    Analysis::from_javascript(source, &tree).unwrap()
}

fn columns(source: &str) -> (AnalysisColumns, [u8; 32]) {
    let analysis = analysis(source);
    let digest = analysis.source_digest;
    (analysis.encode_positioned().unwrap(), digest)
}

fn refused(columns: AnalysisColumns, digest: [u8; 32]) -> CacheError {
    AnalysisCacheView::new(columns, digest).err().unwrap()
}

fn file_of(source: &str) -> Vec<u8> {
    let (columns, digest) = columns(source);
    let labels = Labels {
        layout: LAYOUT,
        first: digest,
        second: [0; 32],
    };
    let payload = format!("{columns:?}").into_bytes();
    write_envelope(&analysis_format(), &labels, &payload).unwrap()
}

#[test]
fn positioned_cache_round_trips_with_indexed_strings_and_o1_rows() {
    let source = "function greet(name) { return `hello ${name}`; }";
    let analysis = analysis(source);
    let columns = analysis.encode_positioned().unwrap();
    let view = AnalysisCacheView::new(columns, analysis.source_digest)
        .ok()
        .unwrap();
    assert_eq!(view.source_digest(), analysis.source_digest);
    assert_eq!(view.node_count(), analysis.nodes.len());
    assert_eq!(view.scope_count(), analysis.scopes.len());
    assert_eq!(view.symbol_count(), 2);
    assert_eq!(view.reference_count(), 1);
    assert_eq!(view.def_use_count(), 1);
    assert_eq!(view.symbol(0).unwrap().name, "greet");
    assert_eq!(view.symbol(0).unwrap().id, analysis.symbols[0].id);
    assert_eq!(view.reference(0).unwrap().name, "name");
    assert_eq!(
        view.def_use(0).unwrap().resolution,
        AnalysisResolution::Resolved
    );
    assert_eq!(view.node(0).unwrap().kind, "program");
    assert_eq!(view.node(0).unwrap().id, analysis.nodes[0].id);
    assert_eq!(view.scope(0).unwrap().id, analysis.scopes[0].id);
    assert_eq!(
        view.loss(0).unwrap().code,
        LossCode::SourceMapLineageUnavailable
    );
    assert!(view.symbol(2).is_none());
    assert!(view.node(analysis.nodes.len()).is_none());
    assert_eq!(view.source_length(), source.len() as u64);
}

#[test]
fn every_row_reads_back() {
    let source = "import {a as b} from 'm'; class C { m(x) { return b(x.y, new C()); } } let z = b?.(1);";
    let analysis = analysis(source);
    let view = AnalysisCacheView::new(
        analysis.encode_positioned().unwrap(),
        analysis.source_digest,
    )
    .ok()
    .unwrap();
    for (i, node) in analysis.nodes.iter().enumerate() {
        let read = view.node(i).unwrap();
        assert_eq!(read.id, node.id);
        assert_eq!(read.parent, node.parent);
        assert_eq!(read.start_byte, node.start_byte);
        assert_eq!(read.end_byte, node.end_byte);
    }
    for (i, symbol) in analysis.symbols.iter().enumerate() {
        let read = view.symbol(i).unwrap();
        assert_eq!(read.id, symbol.id);
        assert_eq!(read.name, analysis.strings[symbol.name as usize]);
        assert_eq!(read.kind, symbol.kind);
    }
    for (i, reference) in analysis.references.iter().enumerate() {
        let read = view.reference(i).unwrap();
        assert_eq!(read.id, reference.id);
        assert_eq!(read.role, reference.role);
    }
    for (i, edge) in analysis.def_uses.iter().enumerate() {
        let read = view.def_use(i).unwrap();
        assert_eq!(read.id, edge.id);
        assert_eq!(read.symbol, edge.symbol);
    }
    for (i, call) in analysis.calls.iter().enumerate() {
        let read = view.call(i).unwrap();
        assert_eq!(read.id, call.id);
        assert_eq!(read.kind, call.kind);
    }
    for (i, text) in analysis.strings.iter().enumerate() {
        assert_eq!(view.string(i), Some(text.as_str()));
    }
}

#[test]
fn envelope_corruption_is_rejected_before_isoform_access() {
    let mut bytes = file_of("const answer = 42;");
    *bytes.last_mut().unwrap() ^= 0x80;
    let error = open_envelope(&analysis_format(), &LAYOUT, &bytes, LIMIT)
        .err()
        .unwrap();
    assert!(error.analysis_message().contains("digest mismatch"));
}

#[test]
fn cache_can_be_bound_to_exact_source_bytes() {
    let source = b"const answer = 42;";
    let bytes = file_of(std::str::from_utf8(source).unwrap());
    let opened = open_envelope(&analysis_format(), &LAYOUT, &bytes, LIMIT)
        .ok()
        .unwrap();
    assert!(check_source(&opened.first, source).is_ok());
    assert!(check_source(&opened.first, b"const answer = 43;")
        .unwrap_err()
        .analysis_message()
        .contains("source digest mismatch"));
}

#[test]
fn layout_hash_mismatch_is_rejected_before_mapping_fields() {
    let mut bytes = file_of("const answer = 42;");
    bytes[16] ^= 0x01;
    let error = open_envelope(&analysis_format(), &LAYOUT, &bytes, LIMIT)
        .err()
        .unwrap();
    assert!(error.analysis_message().contains("layout hash"));
}

#[test]
fn files_give_back_their_payload() {
    let source = "const answer = 42;";
    let bytes = file_of(source);
    let (columns, digest) = columns(source);
    let opened = open_envelope(&analysis_format(), &LAYOUT, &bytes, LIMIT)
        .ok()
        .unwrap();
    assert_eq!(opened.first, digest);
    assert_eq!(opened.payload, HEADER_SIZE);
    assert_eq!(
        &bytes[opened.payload..],
        format!("{columns:?}").as_bytes()
    );
    assert_eq!(&bytes[0..8], b"ASTIR\0\0\0");
    assert_eq!(&bytes[80..112], &sha256(&bytes[HEADER_SIZE..]));
}

#[test]
fn every_part_of_a_header_is_checked() {
    let good = file_of("const answer = 42;");
    let refuse = |change: &dyn Fn(&mut Vec<u8>)| {
        let mut bytes = good.clone();
        change(&mut bytes);
        open_envelope(&analysis_format(), &LAYOUT, &bytes, LIMIT)
            .err()
            .unwrap()
    };
    assert_eq!(refuse(&|b| b.truncate(127)), EnvelopeError::TooShort);
    assert_eq!(refuse(&|b| b[0] = 0), EnvelopeError::Magic);
    assert_eq!(refuse(&|b| b[8] = 2), EnvelopeError::Version);
    assert_eq!(refuse(&|b| b[10] = 2), EnvelopeError::Flags);
    assert_eq!(refuse(&|b| b[12] = 0), EnvelopeError::HeaderSize);
    assert_eq!(refuse(&|b| b[120] = 1), EnvelopeError::Reserved);
    assert_eq!(refuse(&|b| b[20] ^= 1), EnvelopeError::Layout);
    assert_eq!(refuse(&|b| b[119] = 1), EnvelopeError::PayloadTooLarge);
    assert_eq!(refuse(&|b| b.push(0)), EnvelopeError::PayloadLength);
    assert_eq!(refuse(&|b| b[80] ^= 1), EnvelopeError::PayloadDigest);
    assert_eq!(
        open_envelope(&analysis_format(), &LAYOUT, &good, 1).err(),
        Some(EnvelopeError::PayloadTooLarge)
    );
}

#[test]
fn semantic_verifier_rejects_non_utf8_string_after_valid_isoform_structure() {
    let (mut columns, digest) = columns("const answer = 42;");
    columns.strings[0][0] = 0xff;
    let error = refused(columns, digest);
    assert!(error.message().contains("not valid UTF-8"));
}

#[test]
fn semantic_verifier_rejects_a_structurally_valid_forged_symbol_id() {
    let (mut columns, digest) = columns("function answer() { return 42; }");
    columns.symbols.ids[0] ^= 0x01;
    let error = refused(columns, digest);
    assert!(error.message().contains("invalid stable ID"));
}

#[test]
fn semantic_verifier_rejects_overlapping_symbol_reference_ranges() {
    let (mut columns, digest) = columns("let first = 1, second = 2; first; second;");
    columns.symbols.reference_first[1] = 0;
    let error = refused(columns, digest);
    assert!(error.message().contains("invalid reference range"));
}

#[test]
fn semantic_verifier_rejects_call_rows_on_non_call_nodes() {
    let (mut columns, digest) = columns("function invoke() {} invoke();");
    columns.calls.node[0] = 0;
    let error = refused(columns, digest);
    assert!(error.message().contains("invalid syntax node kind"));
}

#[test]
fn positioned_bytes_are_deterministic() {
    let first = analysis("const answer = 42;").encode_positioned().unwrap();
    let second = analysis("const answer = 42;").encode_positioned().unwrap();
    assert_eq!(format!("{first:?}"), format!("{second:?}"));
}

#[test]
fn columns_of_another_source_are_refused() {
    let (columns, _) = columns("const answer = 42;");
    assert_eq!(refused(columns, [9; 32]), CacheError::DigestMismatch);
}

#[test]
fn damaged_columns_are_refused_one_by_one() {
    let (good, digest) = columns("function f(a) { return g(a); } f(1);");
    let refuse = |change: &dyn Fn(&mut AnalysisColumns)| {
        let mut columns = good.clone();
        change(&mut columns);
        refused(columns, digest)
    };
    assert_eq!(refuse(&|c| c.format_version = 9), CacheError::Version(9));
    assert_eq!(refuse(&|c| c.language = 9), CacheError::Language(9));
    assert_eq!(refuse(&|c| c.source_digest.truncate(3)), CacheError::DigestLength(3));
    assert_eq!(refuse(&|c| c.source_length = 1 << 40), CacheError::SourceTooLarge);
    assert_eq!(refuse(&|c| c.node_count = 0), CacheError::NoRootOrScope);
    assert_eq!(
        refuse(&|c| c.nodes.parent[1] = 900),
        CacheError::Node(1, NodeFault::Parent)
    );
    assert_eq!(
        refuse(&|c| c.nodes.flags[1] = 0x80),
        CacheError::Node(1, NodeFault::Flags)
    );
    assert_eq!(
        refuse(&|c| c.scopes.depth[0] = 3),
        CacheError::Scope(0, ScopeFault::GlobalScope)
    );
    assert_eq!(
        refuse(&|c| c.symbols.scope[0] = 900),
        CacheError::Symbol(0, SymbolFault::RowReference)
    );
    assert_eq!(
        refuse(&|c| c.references.node[0] = 90_000),
        CacheError::Reference(0, SymbolFault::RowReference)
    );
    assert!(refuse(&|c| c.def_uses.resolution[0] = 77)
        .message()
        .contains("unknown resolution code 77"));
    assert!(refuse(&|c| {
        c.references.node.pop();
    })
    .message()
    .contains("reference column"));
}

#[test]
fn facts_are_answered_by_row() {
    let (columns, digest) = columns("function greet(name) { return name; }");
    let view = AnalysisCacheView::new(columns, digest).ok().unwrap();
    match answer_facts(&view, AnalysisQuery::Summary) {
        Ok(FactsAnswer::Summary(summary)) => {
            assert_eq!(summary.profile, Some("astdiff.analysis.v1"));
            assert_eq!(summary.producer, Some("astdiff"));
            assert_eq!(summary.frontend, Some("tree-sitter-javascript"));
            assert_eq!(summary.symbols, 2);
        }
        _ => panic!("no summary"),
    }
    match answer_facts(&view, AnalysisQuery::Symbol { index: 0 }) {
        Ok(FactsAnswer::Symbol(symbol)) => assert_eq!(symbol.name, "greet"),
        _ => panic!("no symbol"),
    }
    let error = answer_facts(&view, AnalysisQuery::DefUse { index: 70 })
        .err()
        .unwrap();
    assert_eq!(error.message(), "def-use index 70 is out of range");
}
