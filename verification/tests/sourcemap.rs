//! Source map decoding, lookup and composition.

use astdiff::sourcemap::{
    positions_for_byte_offsets, GeneratedPosition, RawMap, RawSection, SourceMap, SourceMapError,
    SourceMapLimits,
};
use serde_json::Value;

fn texts(value: &Value) -> Vec<Option<String>> {
    value
        .as_array()
        .unwrap()
        .iter()
        .map(|item| item.as_str().map(str::to_string))
        .collect()
}

fn numbers(value: &Value) -> Vec<u32> {
    value
        .as_array()
        .unwrap()
        .iter()
        .map(|item| item.as_u64().unwrap() as u32)
        .collect()
}

fn raw_map(value: &Value) -> RawMap {
    RawMap {
        version: value["version"].as_u64().unwrap() as u32,
        source_root: value["sourceRoot"].as_str().map(str::to_string),
        sources: value.get("sources").map(texts),
        sources_content: value.get("sourcesContent").map(texts),
        names: value
            .get("names")
            .map(|names| texts(names).into_iter().map(Option::unwrap).collect())
            .unwrap_or_default(),
        mappings: value["mappings"].as_str().map(str::to_string),
        sections: value.get("sections").map(|sections| {
            sections
                .as_array()
                .unwrap()
                .iter()
                .map(|section| RawSection {
                    offset: GeneratedPosition {
                        line: section["offset"]["line"].as_u64().unwrap() as u32,
                        column: section["offset"]["column"].as_u64().unwrap() as u32,
                    },
                    map: raw_map(&section["map"]),
                })
                .collect()
        }),
        ignore_list: value.get("ignoreList").map(numbers),
        x_google_ignore_list: value.get("x_google_ignoreList").map(numbers),
    }
}

fn parse_bytes(bytes: &[u8], limits: SourceMapLimits) -> Result<SourceMap, SourceMapError> {
    let value: Value = serde_json::from_slice(bytes).unwrap();
    SourceMap::parse(bytes, &raw_map(&value), limits)
}

fn parse(value: &str) -> SourceMap {
    parse_bytes(value.as_bytes(), SourceMapLimits::default()).unwrap()
}

#[test]
fn basic_map_decodes_lines_names_and_unmapped_segments() {
    let map = parse(
        r#"{"version":3,"sources":["input.js"],"names":["answer"],"mappings":"AAAAA,C;AACA"}"#,
    );
    let first = map
        .lookup(GeneratedPosition { line: 0, column: 0 })
        .unwrap();
    assert_eq!(first.source.as_deref(), Some("input.js"));
    assert_eq!(first.name.as_deref(), Some("answer"));
    assert!(map
        .lookup(GeneratedPosition { line: 0, column: 1 })
        .is_none());
    assert_eq!(
        map.lookup(GeneratedPosition { line: 1, column: 0 })
            .unwrap()
            .line,
        1
    );
}

#[test]
fn indexed_sections_apply_line_and_first_line_column_offsets() {
    let map = parse(
        r#"{"version":3,"sections":[{"offset":{"line":0,"column":4},"map":{"version":3,"sources":["a.js"],"names":[],"mappings":"AAAA"}},{"offset":{"line":2,"column":0},"map":{"version":3,"sources":["b.js"],"names":[],"mappings":"AAAA"}}]}"#,
    );
    assert!(map
        .lookup(GeneratedPosition { line: 0, column: 3 })
        .is_none());
    assert_eq!(
        map.lookup(GeneratedPosition { line: 0, column: 4 })
            .unwrap()
            .source,
        Some("a.js".to_string())
    );
    assert_eq!(
        map.lookup(GeneratedPosition { line: 2, column: 0 })
            .unwrap()
            .source,
        Some("b.js".to_string())
    );
}

#[test]
fn composition_uses_intermediate_coordinates() {
    let outer = parse(r#"{"version":3,"sources":["mid.js"],"names":[],"mappings":"AACA"}"#);
    let inner =
        parse(r#"{"version":3,"sources":["original.js"],"names":[],"mappings":";AAEA"}"#);
    let result =
        SourceMap::compose_lookup(&outer, &inner, GeneratedPosition { line: 0, column: 0 })
            .unwrap();
    assert_eq!(result.source.as_deref(), Some("original.js"));
    assert_eq!(result.line, 2);
}

#[test]
fn malformed_vlq_indexes_ordering_and_limits_are_rejected() {
    for value in [
        r#"{"version":3,"sources":[],"names":[],"mappings":"g"}"#,
        r#"{"version":3,"sources":[],"names":[],"mappings":"AAAA"}"#,
        r#"{"version":3,"names":[],"mappings":"A"}"#,
        r#"{"version":3,"sources":["a"],"names":[],"mappings":"AAAB"}"#,
        r#"{"version":3,"sections":[{"offset":{"line":1,"column":0},"map":{"version":3,"sources":["a"],"names":[],"mappings":"AAAA"}},{"offset":{"line":0,"column":0},"map":{"version":3,"sources":["b"],"names":[],"mappings":"AAAA"}}]}"#,
        r#"{"version":3,"sections":[{"offset":{"line":0,"column":0},"map":{"version":3,"sources":["a"],"names":[],"mappings":"AAAA,oGAAA"}},{"offset":{"line":0,"column":50},"map":{"version":3,"sources":["b"],"names":[],"mappings":"AAAA"}}]}"#,
    ] {
        assert!(parse_bytes(value.as_bytes(), SourceMapLimits::default()).is_err());
    }
    let limits = SourceMapLimits {
        max_segments: 1,
        ..SourceMapLimits::default()
    };
    assert!(parse_bytes(
        br#"{"version":3,"sources":["a"],"names":[],"mappings":"AAAA,CAAA"}"#,
        limits,
    )
    .is_err());
}

#[test]
fn sources_content_is_opt_in_and_not_retained() {
    let bytes = br#"{"version":3,"sources":["a"],"sourcesContent":["synthetic"],"names":[],"mappings":"AAAA"}"#;
    assert!(parse_bytes(bytes, SourceMapLimits::default()).is_err());
    let map = parse_bytes(
        bytes,
        SourceMapLimits {
            allow_sources_content: true,
            ..SourceMapLimits::default()
        },
    )
    .unwrap();
    assert_eq!(map.segment_count(), 1);

    let shorter = br#"{"version":3,"sources":[null,"b"],"sourcesContent":[null],"names":[],"mappings":"AAAA"}"#;
    let map = parse_bytes(
        shorter,
        SourceMapLimits {
            allow_sources_content: true,
            ..SourceMapLimits::default()
        },
    )
    .unwrap();
    let position = map
        .lookup(GeneratedPosition { line: 0, column: 0 })
        .unwrap();
    assert_eq!(position.source, None);
}

#[test]
fn lookup_preserves_duplicate_positions_and_falls_back_across_lines() {
    let duplicate =
        parse(r#"{"version":3,"sources":["a","b"],"names":[],"mappings":"AAAA,ACAA"}"#);
    let all = duplicate.lookup_all(GeneratedPosition { line: 0, column: 0 });
    assert_eq!(all.len(), 2);
    assert_eq!(all[0].source.as_deref(), Some("a"));
    assert_eq!(all[1].source.as_deref(), Some("b"));
    assert!(duplicate
        .lookup(GeneratedPosition { line: 0, column: 0 })
        .is_none());

    let prior_line = parse(r#"{"version":3,"sources":["a"],"names":[],"mappings":"AAAA;;"}"#);
    assert_eq!(
        prior_line
            .lookup(GeneratedPosition {
                line: 2,
                column: 100
            })
            .unwrap()
            .source
            .as_deref(),
        Some("a")
    );

    let decreasing =
        parse(r#"{"version":3,"sources":["a"],"names":[],"mappings":"IAAA,FAAA"}"#);
    assert_eq!(
        decreasing
            .lookup(GeneratedPosition { line: 0, column: 3 })
            .unwrap()
            .source
            .as_deref(),
        Some("a")
    );
}

#[test]
fn indexed_empty_sections_may_share_an_offset() {
    let map = parse(
        r#"{"version":3,"sections":[{"offset":{"line":0,"column":0},"map":{"version":3,"sources":[],"names":[],"mappings":""}},{"offset":{"line":0,"column":0},"map":{"version":3,"sources":["a"],"names":[],"mappings":"AAAA"}}]}"#,
    );
    assert_eq!(
        map.lookup(GeneratedPosition { line: 0, column: 0 })
            .unwrap()
            .source
            .as_deref(),
        Some("a")
    );

    let duplicate = parse(
        r#"{"version":3,"sections":[{"offset":{"line":0,"column":0},"map":{"version":3,"sources":["a"],"names":[],"mappings":"AAAA"}},{"offset":{"line":0,"column":0},"map":{"version":3,"sources":["b"],"names":[],"mappings":"AAAA"}}]}"#,
    );
    let positions = duplicate.lookup_all(GeneratedPosition { line: 0, column: 0 });
    assert_eq!(positions.len(), 2);
    assert_eq!(positions[0].source.as_deref(), Some("b"));
    assert_eq!(positions[1].source.as_deref(), Some("a"));
}

#[test]
fn byte_offsets_convert_to_utf16_coordinates_in_one_pass() {
    let source = "a😀b\r\nπc\u{2028}z";
    let offsets = [0, 1, 5, 6, 8, 10, 11, source.len() as u64];
    let positions = positions_for_byte_offsets(source, &offsets).unwrap();
    assert_eq!(positions[0], GeneratedPosition { line: 0, column: 0 });
    assert_eq!(positions[1], GeneratedPosition { line: 0, column: 1 });
    assert_eq!(positions[2], GeneratedPosition { line: 0, column: 3 });
    assert_eq!(positions[4], GeneratedPosition { line: 1, column: 0 });
    assert_eq!(positions[5], GeneratedPosition { line: 1, column: 1 });
    assert_eq!(positions[6], GeneratedPosition { line: 1, column: 2 });
    assert_eq!(positions[7], GeneratedPosition { line: 2, column: 1 });
}
