//! What holds of persisting a source map and reading it back.

use vstd::prelude::*;
use vstd::string::*;
use vstd::utf8::*;

use super::cache::SidecarError;
use super::columns::{
    SourceMapCacheLimits, SourceMapColumns, SOURCEMAP_PRODUCER, SOURCEMAP_PRODUCER_VERSION,
    SOURCEMAP_PROFILE,
};
use super::mappings::Segment;
use super::{BasicModel, GeneratedPosition, MapModel};

use super::{cache, columns, mappings};
use crate::faults;

verus! {

/// Whether every origin has a line and a column that a row can hold.
pub open spec fn origins_fit(m: BasicModel) -> bool {
    forall|l: int, k: int|
        0 <= l < m.lines.len() && 0 <= k < m.lines[l].len() ==> ((
        #[trigger] m.lines[l][k]).original matches Some(original) ==> original.line < u32::MAX
            && original.column < u32::MAX)
}

proof fn lemma_strings(c: SourceMapColumns, m: BasicModel)
    requires
        columns::are_columns(c, m),
    ensures
        cache::strings_fault(c) is None,
        forall|i: int|
            0 <= i < c.strings@.len() ==> decode_utf8((#[trigger] c.strings@[i])@)
                == columns::texts_of(m)[i],
        columns::total_bytes(c.strings@, c.strings@.len() as int) == columns::bytes_of(
            columns::texts_of(m),
            c.strings@.len() as int,
        ),
{
    broadcast use encode_utf8_valid_utf8, encode_utf8_decode_utf8;

    let fault = |i: int|
        faults::fault_if(!valid_utf8(c.strings@[i]@), SidecarError::NotText(i as usize));
    assert forall|i: int| 0 <= i < c.strings@.len() implies (#[trigger] fault(i)) is None by {
        assert(c.strings@[i]@ == encode_utf8(columns::texts_of(m)[i]));
    }
    faults::lemma_first_of(c.strings@.len() as int, fault, 0);
    columns::lemma_row_bytes(c.strings@, columns::texts_of(m), c.strings@.len() as int);
}

proof fn lemma_present(texts: Seq<Option<Seq<char>>>, i: int, count: int)
    requires
        0 <= i < count,
        texts[i] is Some,
    ensures
        columns::present(texts, i).len() < columns::present(texts, count).len(),
        columns::present(texts, count)[columns::present(texts, i).len() as int]
            == texts[i].unwrap(),
    decreases count - i,
{
    if i < count - 1 {
        lemma_present(texts, i, count - 1);
    }
}

proof fn lemma_flat(lines: Seq<Seq<Segment>>, l: int, k: int, count: int)
    requires
        0 <= l < count,
        0 <= k < lines[l].len(),
    ensures
        columns::flat(lines, l).len() + k < columns::flat(lines, count).len(),
        columns::flat(lines, count)[columns::flat(lines, l).len() + k] == lines[l][k],
    decreases count - l,
{
    if l < count - 1 {
        lemma_flat(lines, l, k, count - 1);
    }
}

proof fn lemma_tables(c: SourceMapColumns, m: BasicModel)
    requires
        columns::are_columns(c, m),
        columns::texts_of(m).len() - 1 <= u32::MAX,
        m.sources.len() <= u32::MAX,
    ensures
        cache::tables_fault(c) is None,
        cache::decoded(c).sources =~= m.sources,
        cache::decoded(c).names =~= m.names,
        cache::decoded(c).source_root == m.source_root,
{
    lemma_strings(c, m);
    let texts = columns::texts_of(m);
    let sources = columns::present(m.sources, m.sources.len() as int);
    let no_source = |i: int| cache::source_fault(c, i);
    let no_name = |i: int| cache::name_fault(c, i);
    assert forall|i: int| 0 <= i < m.sources.len() implies (#[trigger] no_source(i)) is None
        && cache::optional_text_at(c, c.source_string@[i]) == m.sources[i] by {
        if m.sources[i] is Some {
            lemma_present(m.sources, i, m.sources.len() as int);
            let row = columns::present(m.sources, i).len() as int;
            assert(c.source_string@[i] == row);
            assert(texts[row] == sources[row]);
            assert(decode_utf8(c.strings@[row]@) == texts[row]);
        }
    }
    assert forall|i: int| 0 <= i < m.names.len() implies (#[trigger] no_name(i)) is None
        && cache::text_at(c, c.name_string@[i]) == m.names[i] by {
        let row = sources.len() + i;
        assert(c.name_string@[i] == row);
        assert(texts[row] == m.names[i]);
        assert(decode_utf8(c.strings@[row]@) == texts[row]);
    }
    faults::lemma_first_of(c.source_count as int, no_source, 0);
    faults::lemma_first_of(c.name_count as int, no_name, 0);
    assert forall|i: int| 0 <= i < m.sources.len() implies #[trigger] cache::decoded(c).sources[i]
        == m.sources[i] by {
        assert(no_source(i) is None);
    }
    assert forall|i: int| 0 <= i < m.names.len() implies #[trigger] cache::decoded(c).names[i]
        == m.names[i] by {
        assert(no_name(i) is None);
    }
    if m.source_root is Some {
        let row = (sources.len() + m.names.len()) as int;
        assert(texts[row] == m.source_root.unwrap());
        assert(decode_utf8(c.strings@[row]@) == texts[row]);
    }
}

proof fn lemma_header(c: SourceMapColumns, m: BasicModel, limits: SourceMapCacheLimits)
    requires
        columns::are_columns(c, m),
        columns::encode_fault(MapModel::Basic(m), limits) is None,
    ensures
        cache::header_fault(c, limits) is None,
{
    lemma_strings(c, m);
    let texts = columns::texts_of(m);
    let described = texts.len() - 3;
    assert(texts[described] == SOURCEMAP_PROFILE@);
    assert(texts[described + 1] == SOURCEMAP_PRODUCER@);
    assert(texts[described + 2] == SOURCEMAP_PRODUCER_VERSION@);
    assert(decode_utf8(c.strings@[described]@) == texts[described]);
    assert(decode_utf8(c.strings@[described + 1]@) == texts[described + 1]);
    assert(decode_utf8(c.strings@[described + 2]@) == texts[described + 2]);
}

proof fn lemma_line(c: SourceMapColumns, m: BasicModel, l: int)
    requires
        columns::are_columns(c, m),
        super::map_is_wf(MapModel::Basic(m)),
        origins_fit(m),
        m.sources.len() <= u32::MAX,
        m.names.len() < u32::MAX,
        0 <= l < m.lines.len(),
    ensures
        cache::line_fault(c, l) is None,
        cache::line_at(c, l) =~= m.lines[l],
        c.line_first@[l] == columns::flat(m.lines, l).len(),
        c.line_segments@[l] == m.lines[l].len(),
{
    let first = c.line_first@[l] as int;
    let all = columns::flat(m.lines, m.lines.len() as int);
    let line = m.lines[l];
    assert(mappings::is_sorted(line));
    assert(c.line_first@[l] == columns::flat(m.lines, l).len());
    assert(c.line_segments@[l] == m.lines[l].len());
    let fault = |k: int| cache::segment_fault(c, l, first, first + k);
    assert forall|k: int| 0 <= k < line.len() implies (#[trigger] fault(k)) is None
        && cache::segment_at(c, first + k) == line[k] by {
        lemma_flat(m.lines, l, k, m.lines.len() as int);
        assert(columns::is_segment_row(c, first + k, all[first + k]));
        if k > 0 {
            lemma_flat(m.lines, l, k - 1, m.lines.len() as int);
            assert(columns::is_segment_row(c, first + k - 1, all[first + k - 1]));
            assert(line[k - 1].generated_column <= line[k].generated_column);
        }
        assert(m.lines[l][k] == line[k]);
    }
    faults::lemma_first_of(c.line_segments@[l] as int, fault, 0);
    assert forall|k: int| 0 <= k < line.len() implies #[trigger] cache::line_at(c, l)[k]
        == line[k] by {
        assert(fault(k) is None);
    }
}

proof fn lemma_lines(c: SourceMapColumns, m: BasicModel, from: int)
    requires
        columns::are_columns(c, m),
        super::map_is_wf(MapModel::Basic(m)),
        origins_fit(m),
        m.sources.len() <= u32::MAX,
        m.names.len() < u32::MAX,
        0 <= from <= m.lines.len(),
    ensures
        cache::lines_fault(c, from, columns::flat(m.lines, from).len() as int) is None,
    decreases m.lines.len() - from,
{
    if from < m.lines.len() {
        lemma_line(c, m, from);
        lemma_lines(c, m, from + 1);
        lemma_flat_within(m.lines, from + 1, m.lines.len() as int);
    }
}

proof fn lemma_flat_within(lines: Seq<Seq<Segment>>, i: int, count: int)
    requires
        i <= count,
    ensures
        columns::flat(lines, i).len() <= columns::flat(lines, count).len(),
    decreases count - i,
{
    if i < count {
        lemma_flat_within(lines, i, count - 1);
    }
}

/// The columns of a map are accepted within the bounds that they were made
/// with, and hold the map.
pub proof fn law_persisted_maps_are_accepted(
    c: SourceMapColumns,
    m: BasicModel,
    limits: SourceMapCacheLimits,
)
    requires
        super::map_is_wf(MapModel::Basic(m)),
        columns::encode_fault(MapModel::Basic(m), limits) is None,
        columns::are_columns(c, m),
        origins_fit(m),
    ensures
        cache::sidecar_fault(c, limits) is None,
        cache::decoded(c) == m,
{
    assert(m.names.len() < columns::texts_of(m).len() - 2);
    lemma_header(c, m, limits);
    lemma_tables(c, m);
    lemma_lines(c, m, 0);
    assert forall|l: int| 0 <= l < m.lines.len() implies #[trigger] cache::decoded(c).lines[l]
        == m.lines[l] by {
        lemma_line(c, m, l);
    }
    assert(cache::decoded(c).lines =~= m.lines);
}

/// A position looked up in persisted columns has the origins that it has in
/// the map.
pub proof fn law_persisted_lookups_agree(
    c: SourceMapColumns,
    m: BasicModel,
    limits: SourceMapCacheLimits,
    query: GeneratedPosition,
)
    requires
        super::map_is_wf(MapModel::Basic(m)),
        columns::encode_fault(MapModel::Basic(m), limits) is None,
        columns::are_columns(c, m),
        origins_fit(m),
    ensures
        super::originals_at(MapModel::Basic(cache::decoded(c)), query) == super::originals_at(
            MapModel::Basic(m),
            query,
        ),
{
    law_persisted_maps_are_accepted(c, m, limits);
}

/// Encoding is deterministic: all columns of a map have the same rows.
pub proof fn law_columns_are_deterministic(
    a: SourceMapColumns,
    b: SourceMapColumns,
    m: BasicModel,
)
    requires
        columns::are_columns(a, m),
        columns::are_columns(b, m),
    ensures
        a.strings@.len() == b.strings@.len(),
        forall|i: int| 0 <= i < a.strings@.len() ==> (#[trigger] a.strings@[i])@ == b.strings@[i]@,
        a.source_string@ == b.source_string@,
        a.name_string@ == b.name_string@,
        a.line_first@ == b.line_first@,
        a.line_segments@ == b.line_segments@,
        a.segment_generated@ == b.segment_generated@,
        a.segment_source@ == b.segment_source@,
        a.segment_line@ == b.segment_line@,
        a.segment_column@ == b.segment_column@,
        a.segment_name@ == b.segment_name@,
{
    let all = columns::flat(m.lines, m.lines.len() as int);
    assert forall|j: int| 0 <= j < all.len() implies a.segment_generated@[j]
        == b.segment_generated@[j] && a.segment_source@[j] == b.segment_source@[j]
        && a.segment_line@[j] == b.segment_line@[j] && a.segment_column@[j]
        == b.segment_column@[j] && a.segment_name@[j] == b.segment_name@[j] by {
        assert(columns::is_segment_row(a, j, all[j]));
        assert(columns::is_segment_row(b, j, all[j]));
    }
    assert forall|i: int| 0 <= i < m.lines.len() implies a.line_first@[i] == b.line_first@[i]
        && a.line_segments@[i] == b.line_segments@[i] by {
        assert(a.line_first@[i] == columns::flat(m.lines, i).len());
        assert(b.line_first@[i] == columns::flat(m.lines, i).len());
        assert(a.line_segments@[i] == m.lines[i].len());
        assert(b.line_segments@[i] == m.lines[i].len());
    }
    assert forall|i: int| 0 <= i < m.names.len() implies a.name_string@[i] == b.name_string@[i] by {
        assert(a.name_string@[i] == columns::present(m.sources, m.sources.len() as int).len() + i);
        assert(b.name_string@[i] == columns::present(m.sources, m.sources.len() as int).len() + i);
    }
}

} // verus!
