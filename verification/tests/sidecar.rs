//! Persisted source maps.

use astdiff::digest::sha256;
use astdiff::envelope::{
    check_source, open_envelope, source_map_format, write_envelope, Labels,
};
use astdiff::sourcemap::cache::{SidecarColumn, SidecarError, SidecarField};
use astdiff::sourcemap::columns::{SourceMapCacheLimits, SourceMapColumns, SourceMapEncodeError};
use astdiff::sourcemap::view::SourceMapCacheView;
use astdiff::sourcemap::{GeneratedPosition, RawMap, RawSection, SourceMap, SourceMapLimits};

const LAYOUT: [u8; 32] = [5; 32];
const HEADER_SIZE: usize = 160;
const LIMIT: u64 = 4 * 1024 * 1024 * 1024;

fn raw(root: Option<&str>, sources: &[Option<&str>], names: &[&str], mappings: &str) -> RawMap {
    RawMap {
        version: 3,
        source_root: root.map(str::to_string),
        sources: Some(sources.iter().map(|s| s.map(str::to_string)).collect()),
        sources_content: None,
        names: names.iter().map(|n| n.to_string()).collect(),
        mappings: Some(mappings.to_string()),
        sections: None,
        ignore_list: None,
        x_google_ignore_list: None,
    }
}

fn map(text: &str, raw: &RawMap) -> SourceMap {
    SourceMap::parse(text.as_bytes(), raw, SourceMapLimits::default()).unwrap()
}

fn one_source() -> SourceMap {
    map(
        r#"{"version":3,"sources":["input.js"],"names":[],"mappings":"AAAA"}"#,
        &raw(None, &[Some("input.js")], &[], "AAAA"),
    )
}

fn two_sources() -> SourceMap {
    map(
        r#"{"version":3,"sourceRoot":"../src/","sources":[null,"input.js"],"names":["answer"],"mappings":"AAAA,CCACA;AACA"}"#,
        &raw(
            Some("../src/"),
            &[None, Some("input.js")],
            &["answer"],
            "AAAA,CCACA;AACA",
        ),
    )
}

fn file_of(map: &SourceMap, generated: &[u8]) -> Vec<u8> {
    let columns = map.encode_positioned().unwrap();
    let labels = Labels {
        layout: LAYOUT,
        first: map.digest(),
        second: sha256(generated),
    };
    let payload = format!("{columns:?}").into_bytes();
    write_envelope(&source_map_format(), &labels, &payload).unwrap()
}

fn view_of(map: &SourceMap, generated: &[u8]) -> SourceMapCacheView {
    SourceMapCacheView::new(
        map.encode_positioned().unwrap(),
        map.digest(),
        sha256(generated),
        SourceMapCacheLimits::default(),
    )
    .ok()
    .unwrap()
}

#[test]
fn positioned_sidecar_round_trips_line_slice_and_binary_lookup() {
    let source_map = two_sources();
    let file = file_of(&source_map, b"generated\ncode");
    let opened = open_envelope(&source_map_format(), &LAYOUT, &file, LIMIT)
        .ok()
        .unwrap();
    check_source(&opened.second, b"generated\ncode").unwrap();
    assert_eq!(opened.first, source_map.digest());
    let view = view_of(&source_map, b"generated\ncode");
    assert_eq!(view.raw_map_digest(), source_map.digest());
    assert_eq!(view.source_count(), 2);
    assert_eq!(view.source(0), None);
    assert_eq!(view.source(1), Some("input.js"));
    assert_eq!(view.source_root(), Some("../src/"));
    assert_eq!(view.line_slice(0), Some((0, 2)));
    assert_eq!(view.line_slice(1), Some((2, 3)));
    let position = view
        .lookup(GeneratedPosition { line: 0, column: 1 })
        .unwrap();
    assert_eq!(position.source.as_deref(), Some("input.js"));
    assert_eq!(position.source_root.as_deref(), Some("../src/"));
    assert_eq!(position.name.as_deref(), Some("answer"));
}

#[test]
fn positioned_sidecar_bytes_are_deterministic_and_indexed_maps_are_rejected() {
    let source_map = one_source();
    assert_eq!(
        format!("{:?}", source_map.encode_positioned().unwrap()),
        format!("{:?}", source_map.encode_positioned().unwrap())
    );
    let inner = raw(None, &[Some("a.js")], &[], "AAAA");
    let indexed = map(
        r#"{"version":3,"sections":[{"offset":{"line":0,"column":0},"map":{"version":3,"sources":["a.js"],"names":[],"mappings":"AAAA"}}]}"#,
        &RawMap {
            version: 3,
            source_root: None,
            sources: None,
            sources_content: None,
            names: Vec::new(),
            mappings: None,
            sections: Some(vec![RawSection {
                offset: GeneratedPosition { line: 0, column: 0 },
                map: inner,
            }]),
            ignore_list: None,
            x_google_ignore_list: None,
        },
    );
    let error = indexed.encode_positioned().unwrap_err();
    assert!(error
        .message()
        .contains("indexed source maps cannot be encoded"));
}

#[test]
fn generated_source_digest_is_a_binding_not_just_metadata() {
    let file = file_of(&one_source(), b"generated");
    let opened = open_envelope(&source_map_format(), &LAYOUT, &file, LIMIT)
        .ok()
        .unwrap();
    assert!(check_source(&opened.second, b"different")
        .unwrap_err()
        .source_map_message()
        .contains("generated source digest mismatch"));
}

#[test]
fn payload_corruption_and_cross_line_ambiguity_are_preserved() {
    let source_map = map(
        r#"{"version":3,"sources":["a","b"],"names":[],"mappings":"AAAA,ACAA;;"}"#,
        &raw(None, &[Some("a"), Some("b")], &[], "AAAA,ACAA;;"),
    );
    let view = view_of(&source_map, b"generated");
    let positions = view.lookup_all(GeneratedPosition {
        line: 2,
        column: 100,
    });
    assert_eq!(positions.len(), 2);
    assert_eq!(positions[0].source.as_deref(), Some("a"));
    assert_eq!(positions[1].source.as_deref(), Some("b"));
    assert!(view
        .lookup(GeneratedPosition {
            line: 2,
            column: 100
        })
        .is_none());

    let mut bytes = file_of(&source_map, b"generated");
    bytes[HEADER_SIZE] ^= 1;
    assert!(open_envelope(&source_map_format(), &LAYOUT, &bytes, LIMIT)
        .err()
        .unwrap()
        .source_map_message()
        .contains("payload digest mismatch"));
}

#[test]
fn persisted_lookups_agree_with_the_map() {
    let source_map = two_sources();
    let view = view_of(&source_map, b"generated");
    for line in 0..4 {
        for column in 0..6 {
            let query = GeneratedPosition { line, column };
            assert_eq!(
                format!("{:?}", view.lookup_all(query)),
                format!("{:?}", source_map.lookup_all(query))
            );
        }
    }
}

#[test]
fn rows_are_read_back() {
    let view = view_of(&two_sources(), b"generated");
    assert_eq!(view.name_count(), 1);
    assert_eq!(view.line_count(), 2);
    assert_eq!(view.segment_count(), 3);
    assert_eq!(view.name(0), Some("answer"));
    assert_eq!(view.name(1), None);
    assert_eq!(view.string(0), Some("input.js"));
    assert_eq!(view.string(90), None);
    let segment = view.segment(1).unwrap();
    assert_eq!(segment.generated_column, 1);
    assert_eq!(segment.source, Some("input.js"));
    assert_eq!(segment.source_index, Some(1));
    assert_eq!(segment.original_line, Some(0));
    assert_eq!(segment.original_column, Some(1));
    assert_eq!(segment.name, Some("answer"));
    assert!(view.segment(3).is_none());
    assert_eq!(view.line_slice(2), None);
    assert_eq!(view.generated_source_digest(), sha256(b"generated"));
}

#[test]
fn columns_are_exact() {
    let columns = two_sources().encode_positioned().unwrap();
    assert_eq!(columns.source_string, vec![u32::MAX, 0]);
    assert_eq!(columns.name_string, vec![1]);
    assert_eq!(columns.source_root, 2);
    assert_eq!(columns.profile, 3);
    assert_eq!(columns.strings[3], b"astdiff.sourcemap.v3.positioned");
    assert_eq!(columns.line_first, vec![0, 2]);
    assert_eq!(columns.line_segments, vec![2, 1]);
    assert_eq!(columns.segment_generated, vec![0, 1, 0]);
    assert_eq!(columns.segment_source, vec![0, 1, 1]);
    assert_eq!(columns.segment_name, vec![u32::MAX, 0, u32::MAX]);
}

#[test]
fn encoding_respects_its_bounds() {
    let limits = SourceMapCacheLimits::default();
    let encode = |limits: SourceMapCacheLimits| {
        two_sources()
            .encode_positioned_with_limits(limits)
            .unwrap_err()
    };
    assert_eq!(
        encode(SourceMapCacheLimits { max_lines: 1, ..limits }),
        SourceMapEncodeError::Lines
    );
    assert_eq!(
        encode(SourceMapCacheLimits { max_segments: 2, ..limits }),
        SourceMapEncodeError::Segments
    );
    assert_eq!(
        encode(SourceMapCacheLimits { max_strings: 5, ..limits }),
        SourceMapEncodeError::Strings
    );
    assert_eq!(
        encode(SourceMapCacheLimits { max_string_bytes: 20, ..limits }),
        SourceMapEncodeError::StringBytes
    );
}

#[test]
fn damaged_sidecars_are_refused_one_by_one() {
    let map = two_sources();
    let good = map.encode_positioned().unwrap();
    let limits = SourceMapCacheLimits::default();
    let refuse = |change: &dyn Fn(&mut SourceMapColumns)| {
        let mut columns = good.clone();
        change(&mut columns);
        SourceMapCacheView::new(columns, map.digest(), [0; 32], limits)
            .err()
            .unwrap()
    };
    assert_eq!(refuse(&|c| c.format_version = 2), SidecarError::Version);
    assert_eq!(refuse(&|c| c.map_version = 2), SidecarError::Version);
    assert_eq!(
        refuse(&|c| c.strings[1] = vec![0xff]),
        SidecarError::NotText(1)
    );
    assert_eq!(
        refuse(&|c| c.profile = 0),
        SidecarError::Unsupported(SidecarField::Profile)
    );
    assert_eq!(
        refuse(&|c| c.producer = 99),
        SidecarError::Unsupported(SidecarField::Producer)
    );
    assert_eq!(
        refuse(&|c| c.producer_version = 0),
        SidecarError::Unsupported(SidecarField::ProducerVersion)
    );
    assert_eq!(refuse(&|c| c.line_count = 0), SidecarError::NoLines);
    assert_eq!(
        refuse(&|c| {
            c.segment_name.pop();
        }),
        SidecarError::ColumnLength {
            column: SidecarColumn::Segment,
            rows: 2,
            expected: 3
        }
    );
    assert_eq!(refuse(&|c| c.source_string[1] = 50), SidecarError::SourceRow(1));
    assert_eq!(refuse(&|c| c.name_string[0] = 50), SidecarError::NameRow(0));
    assert_eq!(refuse(&|c| c.source_root = 50), SidecarError::SourceRoot);
    assert_eq!(refuse(&|c| c.line_first[1] = 1), SidecarError::LineSlice(1));
    assert_eq!(
        refuse(&|c| c.segment_generated[0] = 9),
        SidecarError::DecreasingColumns(0)
    );
    assert_eq!(
        refuse(&|c| c.segment_source[0] = u32::MAX),
        SidecarError::UnmappedFields(0)
    );
    assert_eq!(
        refuse(&|c| c.segment_source[0] = 2),
        SidecarError::SegmentSource(0)
    );
    assert_eq!(
        refuse(&|c| c.segment_line[2] = u32::MAX),
        SidecarError::MissingCoordinates(2)
    );
    assert_eq!(
        refuse(&|c| c.segment_name[1] = 1),
        SidecarError::SegmentName(1)
    );
    assert_eq!(
        refuse(&|c| c.line_segments[1] = 0),
        SidecarError::Uncovered
    );
    let tight = SourceMapCacheLimits {
        max_segments: 2,
        ..limits
    };
    let error = SourceMapCacheView::new(good.clone(), map.digest(), [0; 32], tight)
        .err()
        .unwrap();
    assert_eq!(error, SidecarError::Rows);
    assert_eq!(error.message(), "source-map sidecar row limit exceeded");
}
