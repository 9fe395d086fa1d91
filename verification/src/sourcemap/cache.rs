//! What persisted columns of a source map have to satisfy, and the map that
//! they hold.

use vstd::prelude::*;
use vstd::string::*;
use vstd::utf8::*;

use super::columns::{
    SourceMapCacheLimits, SourceMapColumns, NO_ROW, SOURCEMAP_PRODUCER, SOURCEMAP_PRODUCER_VERSION,
    SOURCEMAP_PROFILE, SOURCEMAP_VERSION,
};
use super::mappings::{OriginalFields, Segment};
use super::BasicModel;

use super::columns;
use crate::faults;

verus! {

/// A string row that describes the columns.
#[derive(Debug, Clone, Copy, PartialEq, Eq, Structural)]
pub enum SidecarField {
    Profile,
    Producer,
    ProducerVersion,
}

/// A column with one row per source, name, line or segment.
#[derive(Debug, Clone, Copy, PartialEq, Eq, Structural)]
pub enum SidecarColumn {
    SourceString,
    NameString,
    LineFirst,
    LineSegments,
    Segment,
}

/// Why columns were refused.
#[derive(Debug, Clone, Copy, PartialEq, Eq, Structural)]
pub enum SidecarError {
    Version,
    Strings,
    NotText(usize),
    StringBytes,
    Unsupported(SidecarField),
    Rows,
    NoLines,
    ColumnLength { column: SidecarColumn, rows: usize, expected: u32 },
    SourceRow(usize),
    NameRow(usize),
    SourceRoot,
    LineSlice(usize),
    DecreasingColumns(usize),
    UnmappedFields(usize),
    SegmentSource(usize),
    MissingCoordinates(usize),
    SegmentName(usize),
    Uncovered,
}

/// The first string row that is no text.
pub open spec fn strings_fault(c: SourceMapColumns) -> Option<SidecarError> {
    faults::first_of(
        c.strings@.len() as int,
        |i: int| faults::fault_if(!valid_utf8(c.strings@[i]@), SidecarError::NotText(i as usize)),
        0,
    )
}

/// Whether a row that describes the columns is not as expected.
pub open spec fn metadata_fault(
    c: SourceMapColumns,
    row: u32,
    expected: Seq<char>,
    field: SidecarField,
) -> Option<SidecarError> {
    faults::fault_if(
        row >= c.strings@.len() || decode_utf8(c.strings@[row as int]@) != expected,
        SidecarError::Unsupported(field),
    )
}

/// Whether the strings and what they describe are not as expected.
pub open spec fn header_fault(c: SourceMapColumns, limits: SourceMapCacheLimits) -> Option<
    SidecarError,
> {
    if c.format_version != SOURCEMAP_VERSION || c.map_version != 3 {
        Some(SidecarError::Version)
    } else if c.strings@.len() > limits.max_strings {
        Some(SidecarError::Strings)
    } else if strings_fault(c) is Some {
        strings_fault(c)
    } else if columns::total_bytes(c.strings@, c.strings@.len() as int) > limits.max_string_bytes {
        Some(SidecarError::StringBytes)
    } else {
        faults::or_fault(
            metadata_fault(c, c.profile, SOURCEMAP_PROFILE@, SidecarField::Profile),
            faults::or_fault(
                metadata_fault(c, c.producer, SOURCEMAP_PRODUCER@, SidecarField::Producer),
                metadata_fault(
                    c,
                    c.producer_version,
                    SOURCEMAP_PRODUCER_VERSION@,
                    SidecarField::ProducerVersion,
                ),
            ),
        )
    }
}

/// Whether a column has another number of rows than expected.
pub open spec fn length_fault(column: SidecarColumn, rows: nat, expected: u32) -> Option<
    SidecarError,
> {
    faults::fault_if(
        rows != expected,
        SidecarError::ColumnLength { column, rows: rows as usize, expected },
    )
}

/// Whether a column has another number of rows than there are segments.
pub open spec fn segment_column_fault(c: SourceMapColumns, rows: nat) -> Option<SidecarError> {
    length_fault(SidecarColumn::Segment, rows, c.segment_count)
}

/// Whether the counts do not fit the bounds or the columns.
pub open spec fn counts_fault(c: SourceMapColumns, limits: SourceMapCacheLimits) -> Option<
    SidecarError,
> {
    if c.line_count > limits.max_lines || c.segment_count > limits.max_segments {
        Some(SidecarError::Rows)
    } else if c.line_count == 0 {
        Some(SidecarError::NoLines)
    } else {
        faults::or_fault(
            length_fault(SidecarColumn::SourceString, c.source_string@.len(), c.source_count),
            faults::or_fault(
                length_fault(SidecarColumn::NameString, c.name_string@.len(), c.name_count),
                faults::or_fault(
                    length_fault(SidecarColumn::LineFirst, c.line_first@.len(), c.line_count),
                    faults::or_fault(
                        length_fault(
                            SidecarColumn::LineSegments,
                            c.line_segments@.len(),
                            c.line_count,
                        ),
                        faults::or_fault(
                            segment_column_fault(c, c.segment_generated@.len()),
                            faults::or_fault(
                                segment_column_fault(c, c.segment_source@.len()),
                                faults::or_fault(
                                    segment_column_fault(c, c.segment_line@.len()),
                                    faults::or_fault(
                                        segment_column_fault(c, c.segment_column@.len()),
                                        segment_column_fault(c, c.segment_name@.len()),
                                    ),
                                ),
                            ),
                        ),
                    ),
                ),
            ),
        )
    }
}

/// Whether a row of the sources has no string.
pub open spec fn source_fault(c: SourceMapColumns, i: int) -> Option<SidecarError> {
    faults::fault_if(
        c.source_string@[i] != NO_ROW && c.source_string@[i] >= c.strings@.len(),
        SidecarError::SourceRow(i as usize),
    )
}

/// Whether a row of the names has no string.
pub open spec fn name_fault(c: SourceMapColumns, i: int) -> Option<SidecarError> {
    faults::fault_if(
        c.name_string@[i] >= c.strings@.len(),
        SidecarError::NameRow(i as usize),
    )
}

/// Whether a row of the sources or names, or the source root, has no string.
pub open spec fn tables_fault(c: SourceMapColumns) -> Option<SidecarError> {
    faults::or_fault(
        faults::first_of(c.source_count as int, |i: int| source_fault(c, i), 0),
        faults::or_fault(
            faults::first_of(c.name_count as int, |i: int| name_fault(c, i), 0),
            faults::fault_if(
                c.source_root != NO_ROW && c.source_root >= c.strings@.len(),
                SidecarError::SourceRoot,
            ),
        ),
    )
}

/// Whether a segment of a line is not well formed.
pub open spec fn segment_fault(c: SourceMapColumns, line: int, first: int, j: int) -> Option<
    SidecarError,
> {
    if j > first && c.segment_generated@[j] < c.segment_generated@[j - 1] {
        Some(SidecarError::DecreasingColumns(line as usize))
    } else if c.segment_source@[j] == NO_ROW {
        faults::fault_if(
            c.segment_line@[j] != NO_ROW || c.segment_column@[j] != NO_ROW || c.segment_name@[j]
                != NO_ROW,
            SidecarError::UnmappedFields(j as usize),
        )
    } else if c.segment_source@[j] >= c.source_count {
        Some(SidecarError::SegmentSource(j as usize))
    } else if c.segment_line@[j] == NO_ROW || c.segment_column@[j] == NO_ROW {
        Some(SidecarError::MissingCoordinates(j as usize))
    } else {
        faults::fault_if(
            c.segment_name@[j] != NO_ROW && c.segment_name@[j] >= c.name_count,
            SidecarError::SegmentName(j as usize),
        )
    }
}

/// The first segment of a line that is not well formed.
pub open spec fn line_fault(c: SourceMapColumns, line: int) -> Option<SidecarError> {
    let first = c.line_first@[line] as int;
    faults::first_of(
        c.line_segments@[line] as int,
        |k: int| segment_fault(c, line, first, first + k),
        0,
    )
}

/// The first fault from a line on, of which the segments before it are `next`.
pub open spec fn lines_fault(c: SourceMapColumns, line: int, next: int) -> Option<SidecarError>
    decreases c.line_count - line,
{
    if line < 0 || line >= c.line_count {
        faults::fault_if(next != c.segment_count, SidecarError::Uncovered)
    } else {
        let end = c.line_first@[line] + c.line_segments@[line];
        if c.line_first@[line] != next || end > c.segment_count {
            Some(SidecarError::LineSlice(line as usize))
        } else {
            faults::or_fault(line_fault(c, line), lines_fault(c, line + 1, end))
        }
    }
}

/// Why columns are refused, if so.
pub open spec fn sidecar_fault(c: SourceMapColumns, limits: SourceMapCacheLimits) -> Option<
    SidecarError,
> {
    faults::or_fault(
        header_fault(c, limits),
        faults::or_fault(
            counts_fault(c, limits),
            faults::or_fault(tables_fault(c), lines_fault(c, 0, 0)),
        ),
    )
}

/// The text of a string row.
pub open spec fn text_at(c: SourceMapColumns, row: u32) -> Seq<char> {
    decode_utf8(c.strings@[row as int]@)
}

/// The text of a string row that may be missing.
pub open spec fn optional_text_at(c: SourceMapColumns, row: u32) -> Option<Seq<char>> {
    if row == NO_ROW {
        None
    } else {
        Some(text_at(c, row))
    }
}

/// The segment in a row.
pub open spec fn segment_at(c: SourceMapColumns, j: int) -> Segment {
    Segment {
        generated_column: c.segment_generated@[j],
        original: if c.segment_source@[j] == NO_ROW {
            None
        } else {
            Some(
                OriginalFields {
                    source: c.segment_source@[j],
                    line: c.segment_line@[j],
                    column: c.segment_column@[j],
                    name: if c.segment_name@[j] == NO_ROW {
                        None
                    } else {
                        Some(c.segment_name@[j])
                    },
                },
            )
        },
    }
}

/// The segments of a line.
pub open spec fn line_at(c: SourceMapColumns, line: int) -> Seq<Segment> {
    Seq::new(
        c.line_segments@[line] as nat,
        |k: int| segment_at(c, c.line_first@[line] + k),
    )
}

/// The basic map that columns hold.
pub open spec fn decoded(c: SourceMapColumns) -> BasicModel {
    BasicModel {
        sources: Seq::new(
            c.source_count as nat,
            |i: int| optional_text_at(c, c.source_string@[i]),
        ),
        source_root: optional_text_at(c, c.source_root),
        names: Seq::new(c.name_count as nat, |i: int| text_at(c, c.name_string@[i])),
        lines: Seq::new(c.line_count as nat, |i: int| line_at(c, i)),
    }
}

/// Whether the columns have as many rows as the counts say.
pub open spec fn counts_are_equal(c: SourceMapColumns) -> bool {
    &&& c.line_count > 0
    &&& c.source_string@.len() == c.source_count
    &&& c.name_string@.len() == c.name_count
    &&& c.line_first@.len() == c.line_count
    &&& c.line_segments@.len() == c.line_count
    &&& c.segment_generated@.len() == c.segment_count
    &&& c.segment_source@.len() == c.segment_count
    &&& c.segment_line@.len() == c.segment_count
    &&& c.segment_column@.len() == c.segment_count
    &&& c.segment_name@.len() == c.segment_count
}

/// Without a fault each line's segments are rows of the segment columns, and
/// none of them has a fault.
pub proof fn lemma_line_slices(c: SourceMapColumns, from: int, next: int, line: int)
    requires
        lines_fault(c, from, next) is None,
        0 <= from <= line < c.line_count,
    ensures
        c.line_first@[line] + c.line_segments@[line] <= c.segment_count,
        line_fault(c, line) is None,
    decreases line - from,
{
    if from < line {
        lemma_line_slices(c, from + 1, c.line_first@[from] + c.line_segments@[from], line);
    }
}

/// Without a fault each segment row belongs to a line.
pub proof fn lemma_line_of_segment(c: SourceMapColumns, from: int, next: int, j: int) -> (line: int)
    requires
        lines_fault(c, from, next) is None,
        0 <= from <= c.line_count,
        next <= j < c.segment_count,
    ensures
        from <= line < c.line_count,
        c.line_first@[line] <= j < c.line_first@[line] + c.line_segments@[line],
    decreases c.line_count - from,
{
    let end = c.line_first@[from] + c.line_segments@[from];
    if j < end {
        from
    } else {
        lemma_line_of_segment(c, from + 1, end, j)
    }
}

/// Without a fault the origin of each segment has its source and its name.
pub proof fn lemma_segments_are_checked(c: SourceMapColumns, j: int)
    requires
        lines_fault(c, 0, 0) is None,
        0 <= j < c.segment_count,
    ensures
        c.segment_source@[j] != NO_ROW ==> c.segment_source@[j] < c.source_count,
        c.segment_source@[j] != NO_ROW && c.segment_name@[j] != NO_ROW ==> c.segment_name@[j]
            < c.name_count,
{
    let line = lemma_line_of_segment(c, 0, 0, j);
    lemma_line_slices(c, 0, 0, line);
    let first = c.line_first@[line] as int;
    let fault = |k: int| segment_fault(c, line, first, first + k);
    faults::lemma_first_of(c.line_segments@[line] as int, fault, 0);
    assert(fault(j - first) is None);
}

} // verus!
