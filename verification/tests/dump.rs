//! Kept comparisons.

use astdiff::diff::{
    Change, ChangeType, DeclarationKind, DiffClassification, DiffResult, Location,
};
use astdiff::dump::answers::DumpQuery;
use astdiff::dump::file::{check_payload, frame, CURRENT_VERSION};
use astdiff::dump::{
    read_dump, write_dump, AstDiffDump, DiffConfig, DumpError, SerializableDeclaration,
};

fn declaration(name: &str, start_byte: usize) -> SerializableDeclaration {
    SerializableDeclaration {
        name: name.to_string(),
        kind: DeclarationKind::Function,
        line: 1,
        end_line: 1,
        start_byte,
        end_byte: start_byte + 10,
        signature: "function(params:0,stmts:1)".to_string(),
        structural_hashes: vec![1, 2],
        size: 2,
        minhash_signature: vec![1; 128],
        fingerprint: None,
    }
}

fn sample_dump() -> AstDiffDump {
    let change = Change {
        change_type: ChangeType::Modification,
        location1: Some(Location {
            line: 1,
            column: 0,
            code_snippet: "function old(){}".to_string(),
            end_line: Some(1),
        }),
        location2: Some(Location {
            line: 1,
            column: 0,
            code_snippet: "function new(){}".to_string(),
            end_line: Some(1),
        }),
        description: "function 'new' (was 'old')".to_string(),
        structural_path: "global.old->new".to_string(),
        classification: Some(DiffClassification::Unchanged),
        display_diff: String::new(),
        similarity: Some(1.0f64.to_bits()),
        percent: Some("100.0".to_string()),
    };
    AstDiffDump::new(
        "old.js".to_string(),
        "new.js".to_string(),
        b"function old(){}",
        b"function new(){}",
        vec![declaration("old", 0), declaration("gone", 20)],
        vec![declaration("new", 0)],
        &vec![(0, 0, 1.0f64.to_bits(), "100.0".to_string())],
        DiffResult {
            identical: false,
            changes: vec![change],
            matched_declarations: 1,
            total_declarations1: 1,
            total_declarations2: 1,
            rename_map: vec![("new".to_string(), "old".to_string())],
            matched_pairs: vec![(0, 0, 1.0f64.to_bits())],
        },
        DiffConfig {
            use_fingerprints: true,
            parallel_matching: true,
            threshold: 0.5f64.to_bits(),
        },
        "0.1.0".to_string(),
        1_700_000_000,
    )
}

#[test]
fn v2_dump_round_trips_with_fixed_header_and_matches() {
    let dump = sample_dump();
    let payload = format!("{dump:?}").into_bytes();
    let file = write_dump(&payload).unwrap();
    assert_eq!(&file[0..4], b"ASTD");

    let loaded = read_dump(&file).unwrap();
    assert_eq!(loaded, payload);
    assert_eq!(dump.header.version, CURRENT_VERSION);
    check_payload(&dump.header.magic, dump.header.version).unwrap();
    assert_eq!(dump.matching.matches.len(), 1);
    assert_eq!(dump.matching.matches[0].idx1, 0);
    assert_eq!(dump.matching.matches[0].idx2, 0);
    assert_eq!(dump.diff_result.changes.len(), 1);
}

#[test]
fn checksum_corruption_is_rejected_before_decompression() {
    let mut bytes = write_dump(&format!("{:?}", sample_dump()).into_bytes()).unwrap();
    *bytes.last_mut().unwrap() ^= 0xff;

    let error = read_dump(&bytes).unwrap_err();
    assert!(error.message().contains("checksum mismatch"));
}

#[test]
fn legacy_headerless_dump_is_rejected_clearly() {
    let bytes = zstd::encode_all(&b"legacy"[..], 1).unwrap();

    let error = read_dump(&bytes).unwrap_err();
    assert!(error.message().contains("legacy"));
}

#[test]
fn compression_makes_repetitive_payloads_small() {
    let payload = vec![7u8; 100_000];
    let file = write_dump(&payload).unwrap();
    assert!(file.len() < 1_000);
    assert_eq!(read_dump(&file).unwrap(), payload);
    assert_eq!(read_dump(&write_dump(b"").unwrap()).unwrap(), b"");
}

#[test]
fn every_part_of_a_dump_header_is_checked() {
    let good = write_dump(b"payload").unwrap();
    let refuse = |change: &dyn Fn(&mut Vec<u8>)| {
        let mut bytes = good.clone();
        change(&mut bytes);
        read_dump(&bytes).unwrap_err()
    };
    assert_eq!(refuse(&|b| b.truncate(63)), DumpError::TooShort);
    assert_eq!(refuse(&|b| b[0] = 0), DumpError::Magic);
    assert_eq!(refuse(&|b| b[4] = 9), DumpError::Version(9));
    assert_eq!(refuse(&|b| b[8] = 0x1f), DumpError::Flags(0x1f));
    assert_eq!(refuse(&|b| b[23] = 1), DumpError::TooLarge);
    assert_eq!(refuse(&|b| b.push(0)), DumpError::PayloadLength);
    assert_eq!(refuse(&|b| b[16] = 6), DumpError::Size);
    assert_eq!(refuse(&|b| b[16] = 8), DumpError::Size);
    assert_eq!(
        read_dump(&frame(4, b"not a compressed frame")).unwrap_err(),
        DumpError::Decompression
    );
    assert_eq!(
        DumpError::Version(9).message(),
        "unsupported dump version 9; expected 2"
    );
    assert_eq!(
        DumpError::Flags(0x1f).message(),
        "unsupported dump flags: 0x1f"
    );
    assert_eq!(
        check_payload(&[0; 4], CURRENT_VERSION),
        Err(DumpError::PayloadHeader)
    );
}

#[test]
fn declarations_and_matches_are_found() {
    let dump = sample_dump();
    assert_eq!(dump.find_declaration("new").unwrap().decl.name, "new");
    assert!(dump.find_declaration("absent").is_none());
    assert_eq!(dump.get_match_for(0).unwrap().idx2, 0);
    assert!(dump.get_match_for(1).is_none());
    let unmatched: Vec<_> = dump
        .unmatched_from_file1()
        .iter()
        .map(|row| row.decl.name.clone())
        .collect();
    assert_eq!(unmatched, vec!["gone".to_string()]);
    assert!(dump.unmatched_from_file2().is_empty());
    assert!(dump.validate(b"function old(){}", b"function new(){}"));
    assert!(!dump.validate(b"function old(){}", b"function old(){}"));
}

#[test]
fn questions_are_answered() {
    let dump = sample_dump();
    assert!(dump.has_match_rows());
    assert_eq!(
        dump.answer(DumpQuery::Find { name: "old" }),
        "Found declaration 'old' in old.js:\n  Kind: Function\n  Line: 1\n  Signature: function(params:0,stmts:1)\n"
    );
    assert_eq!(
        dump.answer(DumpQuery::Find { name: "absent" }),
        "Declaration 'absent' not found in dump\n"
    );
    assert_eq!(
        dump.answer(DumpQuery::UnmatchedFrom1),
        "Unmatched declarations from old.js (1 total):\n  - gone (line 1): function\n"
    );
    assert_eq!(
        dump.answer(DumpQuery::UnmatchedFrom2),
        "Unmatched declarations from new.js (0 total):\n"
    );
    assert_eq!(
        dump.answer(DumpQuery::Match { name: "old" }),
        "Declaration 'old' from old.js matches:\n  -> new (line 1) in new.js\n  Similarity: 100.0%\n  Evidence count: 0\n"
    );
    assert_eq!(
        dump.answer(DumpQuery::Match { name: "gone" }),
        "Declaration 'gone' from old.js has no match\n"
    );
    assert_eq!(
        dump.tell_validity(b"function old(){}", b"function new(){}"),
        "\u{2713} Dump is valid for the provided source files\n"
    );
    assert!(dump
        .summary("2023-11-14", "0.5", "100.0")
        .contains("\n    - Modifications: 1\n"));
}

#[test]
fn dumps_show_when_they_were_made() {
    let mut dump = sample_dump();
    dump.metadata.timestamp = 1_700_000_000;
    assert_eq!(dump.created(), "2023-11-14 22:13:20 UTC");
    dump.metadata.timestamp = 0;
    assert_eq!(dump.created(), "1970-01-01 00:00:00 UTC");
    dump.metadata.timestamp = u64::MAX;
    assert_eq!(dump.created(), "1969-12-31 23:59:59 UTC");
    dump.metadata.timestamp = i64::MAX as u64;
    assert_eq!(dump.created(), "Unknown");
    assert!(dump
        .summary(&dump.created(), "0.5", "100.0")
        .contains("\nCreated: Unknown\n"));
}

#[test]
fn written_dumps_have_their_header_and_are_read_back() {
    for length in [0_usize, 1, 1000, 100_000] {
        let payload: Vec<u8> = (0..length).map(|n| (n * n % 251) as u8).collect();
        let file = write_dump(&payload).unwrap();
        assert!(file.len() > 64);
        assert_eq!(&file[24..32], &((file.len() - 64) as u64).to_le_bytes());
        assert_eq!(read_dump(&file).unwrap(), payload);
    }
}
