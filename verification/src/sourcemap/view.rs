//! Checking persisted columns of a source map, and looking positions up in
//! them.

use vstd::prelude::*;
use vstd::string::*;
use vstd::utf8::*;

use super::cache::{SidecarColumn, SidecarError, SidecarField};
use super::columns::{
    exceeds, SourceMapCacheLimits, SourceMapColumns, NO_ROW, SOURCEMAP_PRODUCER,
    SOURCEMAP_PRODUCER_VERSION, SOURCEMAP_PROFILE, SOURCEMAP_VERSION,
};
use super::map::SourceMap;
use super::mappings::{OriginalFields, Segment};
use super::{GeneratedPosition, MapModel, OriginalPosition};
use crate::text::{same_text, text_from_bytes};

use super::{cache, columns, mappings};
use crate::{faults, text};

verus! {

/// Whether strings are those of columns.
pub open spec fn are_strings(strings: Seq<String>, c: SourceMapColumns) -> bool {
    &&& strings.len() == c.strings@.len()
    &&& forall|i: int|
        0 <= i < strings.len() ==> (#[trigger] strings[i])@ == decode_utf8(c.strings@[i]@)
}

fn read_strings(c: &SourceMapColumns) -> (r: Result<Vec<String>, SidecarError>)
    ensures
        match (r, cache::strings_fault(*c)) {
            (Ok(strings), None) => are_strings(strings@, *c),
            (Err(error), Some(fault)) => error == fault,
            _ => false,
        },
{
    let ghost fault = |i: int|
        faults::fault_if(!valid_utf8(c.strings@[i]@), SidecarError::NotText(i as usize));
    let ghost count = c.strings@.len() as int;
    let mut strings: Vec<String> = Vec::new();
    let mut i: usize = 0;
    while i < c.strings.len()
        invariant
            count == c.strings@.len(),
            fault == (|i: int|
                faults::fault_if(!valid_utf8(c.strings@[i]@), SidecarError::NotText(i as usize))),
            i <= c.strings@.len(),
            strings@.len() == i,
            forall|k: int|
                0 <= k < i ==> (#[trigger] strings@[k])@ == decode_utf8(c.strings@[k]@),
            cache::strings_fault(*c) == faults::first_of(count, fault, i as int),
        decreases c.strings@.len() - i,
    {
        match text_from_bytes(c.strings[i].as_slice()) {
            Some(value) => {
                assert(fault(i as int) is None);
                strings.push(value);
            },
            None => {
                assert(fault(i as int) is Some);
                return Err(SidecarError::NotText(i));
            },
        }
        i += 1;
    }
    Ok(strings)
}

fn check_metadata(
    c: &SourceMapColumns,
    strings: &Vec<String>,
    row: u32,
    expected: &str,
    field: SidecarField,
) -> (r: Result<(), SidecarError>)
    requires
        are_strings(strings@, *c),
    ensures
        r == faults::outcome(cache::metadata_fault(*c, row, expected@, field)),
{
    if row as usize >= strings.len() || !same_text(strings[row as usize].as_str(), expected) {
        return Err(SidecarError::Unsupported(field));
    }
    Ok(())
}

fn check_header(c: &SourceMapColumns, limits: SourceMapCacheLimits) -> (r: Result<
    Vec<String>,
    SidecarError,
>)
    ensures
        match (r, cache::header_fault(*c, limits)) {
            (Ok(strings), None) => are_strings(strings@, *c),
            (Err(error), Some(fault)) => error == fault,
            _ => false,
        },
{
    if c.format_version != SOURCEMAP_VERSION || c.map_version != 3 {
        return Err(SidecarError::Version);
    }
    if c.strings.len() > limits.max_strings {
        return Err(SidecarError::Strings);
    }
    let strings = match read_strings(c) {
        Ok(strings) => strings,
        Err(error) => {
            return Err(error);
        },
    };
    if exceeds(&c.strings, limits.max_string_bytes) {
        return Err(SidecarError::StringBytes);
    }
    if let Err(error) = check_metadata(
        c,
        &strings,
        c.profile,
        SOURCEMAP_PROFILE,
        SidecarField::Profile,
    ) {
        return Err(error);
    }
    if let Err(error) = check_metadata(
        c,
        &strings,
        c.producer,
        SOURCEMAP_PRODUCER,
        SidecarField::Producer,
    ) {
        return Err(error);
    }
    if let Err(error) = check_metadata(
        c,
        &strings,
        c.producer_version,
        SOURCEMAP_PRODUCER_VERSION,
        SidecarField::ProducerVersion,
    ) {
        return Err(error);
    }
    Ok(strings)
}

fn check_length(column: SidecarColumn, rows: usize, expected: u32) -> (r: Result<
    (),
    SidecarError,
>)
    ensures
        r == faults::outcome(cache::length_fault(column, rows as nat, expected)),
{
    if rows != expected as usize {
        return Err(SidecarError::ColumnLength { column, rows, expected });
    }
    Ok(())
}

fn check_counts(c: &SourceMapColumns, limits: SourceMapCacheLimits) -> (r: Result<
    (),
    SidecarError,
>)
    ensures
        r == faults::outcome(cache::counts_fault(*c, limits)),
{
    if c.line_count as usize > limits.max_lines || c.segment_count as usize
        > limits.max_segments {
        return Err(SidecarError::Rows);
    }
    if c.line_count == 0 {
        return Err(SidecarError::NoLines);
    }
    check_length(SidecarColumn::SourceString, c.source_string.len(), c.source_count)?;
    check_length(SidecarColumn::NameString, c.name_string.len(), c.name_count)?;
    check_length(SidecarColumn::LineFirst, c.line_first.len(), c.line_count)?;
    check_length(SidecarColumn::LineSegments, c.line_segments.len(), c.line_count)?;
    check_length(SidecarColumn::Segment, c.segment_generated.len(), c.segment_count)?;
    check_length(SidecarColumn::Segment, c.segment_source.len(), c.segment_count)?;
    check_length(SidecarColumn::Segment, c.segment_line.len(), c.segment_count)?;
    check_length(SidecarColumn::Segment, c.segment_column.len(), c.segment_count)?;
    check_length(SidecarColumn::Segment, c.segment_name.len(), c.segment_count)
}

fn copy_text(strings: &Vec<String>, row: u32) -> (r: String)
    requires
        row < strings@.len(),
    ensures
        r@ == strings@[row as int]@,
{
    let copy = strings[row as usize].clone();
    copy
}

fn read_sources(c: &SourceMapColumns, strings: &Vec<String>) -> (r: Result<
    Vec<Option<String>>,
    SidecarError,
>)
    requires
        are_strings(strings@, *c),
        c.source_string@.len() == c.source_count,
    ensures
        match (
            r,
            faults::first_of(c.source_count as int, |i: int| cache::source_fault(*c, i), 0),
        ) {
            (Ok(sources), None) => text::optional_views(sources@) == cache::decoded(*c).sources,
            (Err(error), Some(fault)) => error == fault,
            _ => false,
        },
{
    let ghost fault = |i: int| cache::source_fault(*c, i);
    let ghost count = c.source_count as int;
    let mut sources: Vec<Option<String>> = Vec::new();
    let mut i: usize = 0;
    while i < c.source_count as usize
        invariant
            are_strings(strings@, *c),
            c.source_string@.len() == c.source_count,
            count == c.source_count,
            fault == (|i: int| cache::source_fault(*c, i)),
            i <= c.source_count,
            sources@.len() == i,
            forall|k: int|
                0 <= k < i ==> text::optional_view(#[trigger] sources@[k])
                    == cache::optional_text_at(*c, c.source_string@[k]),
            faults::first_of(count, fault, 0) == faults::first_of(count, fault, i as int),
        decreases c.source_count - i,
    {
        let row = c.source_string[i];
        if row == NO_ROW {
            assert(fault(i as int) is None);
            sources.push(None);
        } else if row as usize >= strings.len() {
            assert(fault(i as int) is Some);
            return Err(SidecarError::SourceRow(i));
        } else {
            assert(fault(i as int) is None);
            sources.push(Some(copy_text(strings, row)));
        }
        i += 1;
    }
    assert(text::optional_views(sources@) =~= cache::decoded(*c).sources);
    Ok(sources)
}

fn read_names(c: &SourceMapColumns, strings: &Vec<String>) -> (r: Result<
    Vec<String>,
    SidecarError,
>)
    requires
        are_strings(strings@, *c),
        c.name_string@.len() == c.name_count,
    ensures
        match (r, faults::first_of(c.name_count as int, |i: int| cache::name_fault(*c, i), 0)) {
            (Ok(names), None) => text::views(names@) == cache::decoded(*c).names,
            (Err(error), Some(fault)) => error == fault,
            _ => false,
        },
{
    let ghost fault = |i: int| cache::name_fault(*c, i);
    let ghost count = c.name_count as int;
    let mut names: Vec<String> = Vec::new();
    let mut i: usize = 0;
    while i < c.name_count as usize
        invariant
            are_strings(strings@, *c),
            c.name_string@.len() == c.name_count,
            count == c.name_count,
            fault == (|i: int| cache::name_fault(*c, i)),
            i <= c.name_count,
            names@.len() == i,
            forall|k: int|
                0 <= k < i ==> (#[trigger] names@[k])@ == cache::text_at(*c, c.name_string@[k]),
            faults::first_of(count, fault, 0) == faults::first_of(count, fault, i as int),
        decreases c.name_count - i,
    {
        let row = c.name_string[i];
        if row as usize >= strings.len() {
            assert(fault(i as int) is Some);
            return Err(SidecarError::NameRow(i));
        }
        assert(fault(i as int) is None);
        names.push(copy_text(strings, row));
        i += 1;
    }
    assert(text::views(names@) =~= cache::decoded(*c).names);
    Ok(names)
}

fn check_segment(c: &SourceMapColumns, line: usize, first: usize, j: usize) -> (r: Result<
    Segment,
    SidecarError,
>)
    requires
        cache::counts_are_equal(*c),
        first <= j < c.segment_count,
    ensures
        match (r, cache::segment_fault(*c, line as int, first as int, j as int)) {
            (Ok(segment), None) => segment == cache::segment_at(*c, j as int),
            (Err(error), Some(fault)) => error == fault,
            _ => false,
        },
{
    let generated_column = c.segment_generated[j];
    let source = c.segment_source[j];
    let original_line = c.segment_line[j];
    let original_column = c.segment_column[j];
    let name = c.segment_name[j];
    if j > first && generated_column < c.segment_generated[j - 1] {
        return Err(SidecarError::DecreasingColumns(line));
    }
    if source == NO_ROW {
        if original_line != NO_ROW || original_column != NO_ROW || name != NO_ROW {
            return Err(SidecarError::UnmappedFields(j));
        }
        return Ok(Segment { generated_column, original: None });
    }
    if source >= c.source_count {
        return Err(SidecarError::SegmentSource(j));
    }
    if original_line == NO_ROW || original_column == NO_ROW {
        return Err(SidecarError::MissingCoordinates(j));
    }
    if name != NO_ROW && name >= c.name_count {
        return Err(SidecarError::SegmentName(j));
    }
    let named = if name == NO_ROW {
        None
    } else {
        Some(name)
    };
    Ok(
        Segment {
            generated_column,
            original: Some(
                OriginalFields {
                    source,
                    line: original_line,
                    column: original_column,
                    name: named,
                },
            ),
        },
    )
}

fn read_line(c: &SourceMapColumns, line: usize) -> (r: Result<Vec<Segment>, SidecarError>)
    requires
        cache::counts_are_equal(*c),
        line < c.line_count,
        c.line_first@[line as int] + c.line_segments@[line as int] <= c.segment_count,
    ensures
        match (r, cache::line_fault(*c, line as int)) {
            (Ok(segments), None) => {
                &&& segments@ == cache::line_at(*c, line as int)
                &&& mappings::is_sorted(segments@)
                &&& mappings::indexes_are_in(
                    segments@,
                    c.source_count as int,
                    c.name_count as int,
                )
            },
            (Err(error), Some(fault)) => error == fault,
            _ => false,
        },
{
    let first: usize = c.line_first[line] as usize;
    let total: usize = c.line_segments[line] as usize;
    let ghost fault = |k: int| cache::segment_fault(*c, line as int, first as int, first + k);
    let ghost count = total as int;
    let mut segments: Vec<Segment> = Vec::new();
    let mut k: usize = 0;
    while k < total
        invariant
            cache::counts_are_equal(*c),
            first + total <= c.segment_count,
            count == total,
            fault == (|k: int| cache::segment_fault(*c, line as int, first as int, first + k)),
            k <= total,
            segments@.len() == k,
            forall|i: int|
                0 <= i < k ==> #[trigger] segments@[i] == cache::segment_at(*c, first + i),
            forall|i: int| 0 <= i < k ==> (#[trigger] fault(i)) is None,
            mappings::is_sorted(segments@),
            mappings::indexes_are_in(segments@, c.source_count as int, c.name_count as int),
            cache::line_fault(*c, line as int) == faults::first_of(count, fault, k as int),
        decreases total - k,
    {
        match check_segment(c, line, first, first + k) {
            Ok(segment) => {
                assert(fault(k as int) is None);
                let ghost before = segments@;
                segments.push(segment);
                proof {
                    assert forall|i: int, j: int| 0 <= i < j < segments@.len() implies
                        #[trigger] segments@[i].generated_column
                        <= #[trigger] segments@[j].generated_column by {
                        if j == k {
                            assert(before[k - 1] == cache::segment_at(*c, first + k - 1));
                            assert(before[k - 1].generated_column
                                <= segment.generated_column);
                            if i < k - 1 {
                                assert(before[i].generated_column
                                    <= before[k - 1].generated_column);
                            }
                        } else {
                            assert(before[i].generated_column <= before[j].generated_column);
                        }
                    }
                    assert forall|i: int| #![trigger segments@[i]] 0 <= i < segments@.len() implies (
                    segments@[i].original matches Some(original) ==> original.source
                        < c.source_count && (original.name matches Some(name) ==> name
                        < c.name_count)) by {
                        if i < k {
                            assert(segments@[i] == before[i]);
                        }
                    }
                }
            },
            Err(error) => {
                assert(fault(k as int) is Some);
                return Err(error);
            },
        }
        k += 1;
    }
    assert(segments@ =~= cache::line_at(*c, line as int));
    Ok(segments)
}

fn read_lines(c: &SourceMapColumns) -> (r: Result<Vec<Vec<Segment>>, SidecarError>)
    requires
        cache::counts_are_equal(*c),
    ensures
        match (r, cache::lines_fault(*c, 0, 0)) {
            (Ok(lines), None) => {
                &&& mappings::line_views(lines@) == cache::decoded(*c).lines
                &&& mappings::lines_are_wf(
                    mappings::line_views(lines@),
                    c.source_count as int,
                    c.name_count as int,
                )
                &&& mappings::segments_on(mappings::line_views(lines@)) == c.segment_count
            },
            (Err(error), Some(fault)) => error == fault,
            _ => false,
        },
{
    let mut lines: Vec<Vec<Segment>> = Vec::new();
    let mut next: usize = 0;
    let mut line: usize = 0;
    let total: usize = c.line_count as usize;
    assert(mappings::line_views(lines@) =~= Seq::empty());
    while line < total
        invariant
            cache::counts_are_equal(*c),
            total == c.line_count,
            line <= total,
            lines@.len() == line,
            next <= c.segment_count,
            forall|i: int| 0 <= i < line ==> (#[trigger] lines@[i])@ == cache::line_at(*c, i),
            mappings::lines_are_wf(
                mappings::line_views(lines@),
                c.source_count as int,
                c.name_count as int,
            ),
            mappings::segments_on(mappings::line_views(lines@)) == next,
            cache::lines_fault(*c, 0, 0) == cache::lines_fault(*c, line as int, next as int),
        decreases total - line,
    {
        let first: usize = c.line_first[line] as usize;
        let count: usize = c.line_segments[line] as usize;
        if first != next || count > c.segment_count as usize - next {
            return Err(SidecarError::LineSlice(line));
        }
        match read_line(c, line) {
            Ok(segments) => {
                let ghost before = mappings::line_views(lines@);
                lines.push(segments);
                proof {
                    let after = mappings::line_views(lines@);
                    assert(after =~= before.push(segments@));
                    assert(after.drop_last() =~= before);
                    assert forall|k: int| #![trigger after[k]] 0 <= k < after.len() implies
                        mappings::is_sorted(after[k]) && mappings::indexes_are_in(
                        after[k],
                        c.source_count as int,
                        c.name_count as int,
                    ) by {
                        if k < before.len() {
                            assert(after[k] == before[k]);
                        }
                    }
                }
                next = next + count;
            },
            Err(error) => {
                return Err(error);
            },
        }
        line += 1;
    }
    if next != c.segment_count as usize {
        return Err(SidecarError::Uncovered);
    }
    assert(mappings::line_views(lines@) =~= cache::decoded(*c).lines);
    Ok(lines)
}

/// A segment as it is read.
pub struct CachedSourceMapSegment<'a> {
    pub generated_column: u32,
    pub source: Option<&'a str>,
    pub source_index: Option<u32>,
    pub original_line: Option<u32>,
    pub original_column: Option<u32>,
    pub name: Option<&'a str>,
    pub name_index: Option<u32>,
}

/// A borrowed text seen as its characters.
pub open spec fn borrowed_view(value: Option<&str>) -> Option<Seq<char>> {
    match value {
        Some(value) => Some(value@),
        None => None,
    }
}

/// Whether a segment that is read is a row of columns.
pub open spec fn is_segment(s: CachedSourceMapSegment<'_>, c: SourceMapColumns, j: int) -> bool {
    let segment = cache::segment_at(c, j);
    &&& s.generated_column == segment.generated_column
    &&& match segment.original {
        Some(original) => {
            &&& s.source_index == Some(original.source)
            &&& borrowed_view(s.source) == cache::decoded(c).sources[original.source as int]
            &&& s.original_line == Some(original.line)
            &&& s.original_column == Some(original.column)
            &&& s.name_index == original.name
            &&& borrowed_view(s.name) == (match original.name {
                Some(name) => Some(cache::decoded(c).names[name as int]),
                None => None,
            })
        },
        None => {
            &&& s.source_index is None
            &&& s.source is None
            &&& s.original_line is None
            &&& s.original_column is None
            &&& s.name_index is None
            &&& s.name is None
        },
    }
}

/// Checked columns of a source map.
pub struct SourceMapCacheView {
    columns: SourceMapColumns,
    strings: Vec<String>,
    map: SourceMap,
    raw_map_digest: [u8; 32],
    generated_source_digest: [u8; 32],
}

impl SourceMapCacheView {
    #[verifier::type_invariant]
    spec fn is_wf(self) -> bool {
        &&& are_strings(self.strings@, self.columns)
        &&& cache::tables_fault(self.columns) is None
        &&& cache::lines_fault(self.columns, 0, 0) is None
        &&& cache::counts_are_equal(self.columns)
        &&& self.map@ == MapModel::Basic(cache::decoded(self.columns))
    }

    /// The columns.
    pub closed spec fn columns_spec(&self) -> SourceMapColumns {
        self.columns
    }

    /// The digest of the document that the map was read from.
    pub closed spec fn raw_map_digest_spec(&self) -> Seq<u8> {
        self.raw_map_digest@
    }

    /// The digest of the text that the map describes.
    pub closed spec fn generated_source_digest_spec(&self) -> Seq<u8> {
        self.generated_source_digest@
    }

    /// Checks columns.
    pub fn new(
        columns: SourceMapColumns,
        raw_map_digest: [u8; 32],
        generated_source_digest: [u8; 32],
        limits: SourceMapCacheLimits,
    ) -> (r: Result<SourceMapCacheView, SidecarError>)
        ensures
            match (r, cache::sidecar_fault(columns, limits)) {
                (Ok(view), None) => {
                    &&& view.columns_spec() == columns
                    &&& view.raw_map_digest_spec() == raw_map_digest@
                    &&& view.generated_source_digest_spec() == generated_source_digest@
                },
                (Err(error), Some(fault)) => error == fault,
                _ => false,
            },
    {
        let strings = match check_header(&columns, limits) {
            Ok(strings) => strings,
            Err(error) => {
                return Err(error);
            },
        };
        if let Err(error) = check_counts(&columns, limits) {
            return Err(error);
        }
        let sources = match read_sources(&columns, &strings) {
            Ok(sources) => sources,
            Err(error) => {
                return Err(error);
            },
        };
        let names = match read_names(&columns, &strings) {
            Ok(names) => names,
            Err(error) => {
                return Err(error);
            },
        };
        let source_root = if columns.source_root == NO_ROW {
            None
        } else if columns.source_root as usize >= strings.len() {
            return Err(SidecarError::SourceRoot);
        } else {
            Some(copy_text(&strings, columns.source_root))
        };
        let lines = match read_lines(&columns) {
            Ok(lines) => lines,
            Err(error) => {
                return Err(error);
            },
        };
        assert(text::optional_view(source_root) == cache::decoded(columns).source_root);
        let map = SourceMap::from_tables(
            raw_map_digest,
            sources,
            source_root,
            names,
            lines,
            columns.segment_count as usize,
        );
        Ok(
            SourceMapCacheView { columns, strings, map, raw_map_digest, generated_source_digest },
        )
    }

    /// The digest of the document that the map was read from.
    pub fn raw_map_digest(&self) -> (digest: [u8; 32])
        ensures
            digest@ == self.raw_map_digest_spec(),
    {
        self.raw_map_digest
    }

    /// The digest of the text that the map describes.
    pub fn generated_source_digest(&self) -> (digest: [u8; 32])
        ensures
            digest@ == self.generated_source_digest_spec(),
    {
        self.generated_source_digest
    }

    /// The number of sources.
    pub fn source_count(&self) -> (count: usize)
        ensures
            count == self.columns_spec().source_count,
    {
        self.columns.source_count as usize
    }

    /// The number of names.
    pub fn name_count(&self) -> (count: usize)
        ensures
            count == self.columns_spec().name_count,
    {
        self.columns.name_count as usize
    }

    /// The number of generated lines.
    pub fn line_count(&self) -> (count: usize)
        ensures
            count == self.columns_spec().line_count,
    {
        self.columns.line_count as usize
    }

    /// The number of segments.
    pub fn segment_count(&self) -> (count: usize)
        ensures
            count == self.columns_spec().segment_count,
    {
        self.columns.segment_count as usize
    }

    /// A string row.
    pub fn string(&self, index: usize) -> (r: Option<&str>)
        ensures
            r is Some == (index < self.columns_spec().strings@.len()),
            r matches Some(value) ==> value@ == decode_utf8(
                self.columns_spec().strings@[index as int]@,
            ),
    {
        proof {
            use_type_invariant(self);
        }
        if index >= self.strings.len() {
            return None;
        }
        Some(self.strings[index].as_str())
    }

    /// A source, where it has a text.
    pub fn source(&self, index: usize) -> (r: Option<&str>)
        ensures
            borrowed_view(r) == (if index < self.columns_spec().source_count {
                cache::decoded(self.columns_spec()).sources[index as int]
            } else {
                None
            }),
    {
        proof {
            use_type_invariant(self);
        }
        if index >= self.columns.source_count as usize {
            return None;
        }
        let row = self.columns.source_string[index];
        if row == NO_ROW {
            return None;
        }
        proof {
            let fault = |i: int| cache::source_fault(self.columns, i);
            faults::lemma_first_of(self.columns.source_count as int, fault, 0);
            assert(fault(index as int) is None);
        }
        self.string(row as usize)
    }

    /// A name.
    pub fn name(&self, index: usize) -> (r: Option<&str>)
        ensures
            borrowed_view(r) == (if index < self.columns_spec().name_count {
                Some(cache::decoded(self.columns_spec()).names[index as int])
            } else {
                None
            }),
    {
        proof {
            use_type_invariant(self);
        }
        if index >= self.columns.name_count as usize {
            return None;
        }
        proof {
            let fault = |i: int| cache::name_fault(self.columns, i);
            faults::lemma_first_of(self.columns.name_count as int, fault, 0);
            assert(fault(index as int) is None);
        }
        self.string(self.columns.name_string[index] as usize)
    }

    /// The source root.
    pub fn source_root(&self) -> (r: Option<&str>)
        ensures
            borrowed_view(r) == cache::decoded(self.columns_spec()).source_root,
    {
        proof {
            use_type_invariant(self);
        }
        if self.columns.source_root == NO_ROW {
            return None;
        }
        self.string(self.columns.source_root as usize)
    }

    /// The rows of a line's segments: the first one, and the end.
    pub fn line_slice(&self, line: u32) -> (r: Option<(usize, usize)>)
        ensures
            ({
                let c = self.columns_spec();
                if line < c.line_count {
                    &&& r matches Some((first, end))
                    &&& first == c.line_first@[line as int]
                    &&& end == c.line_first@[line as int] + c.line_segments@[line as int]
                    &&& end <= c.segment_count
                } else {
                    r is None
                }
            }),
    {
        proof {
            use_type_invariant(self);
        }
        if line >= self.columns.line_count {
            return None;
        }
        proof {
            cache::lemma_line_slices(self.columns, 0, 0, line as int);
        }
        let first: usize = self.columns.line_first[line as usize] as usize;
        let count: usize = self.columns.line_segments[line as usize] as usize;
        Some((first, first + count))
    }

    /// A segment.
    pub fn segment(&self, index: usize) -> (r: Option<CachedSourceMapSegment<'_>>)
        ensures
            r is Some == (index < self.columns_spec().segment_count),
            r matches Some(segment) ==> is_segment(segment, self.columns_spec(), index as int),
    {
        proof {
            use_type_invariant(self);
        }
        if index >= self.columns.segment_count as usize {
            return None;
        }
        let c = &self.columns;
        let source = c.segment_source[index];
        let name = c.segment_name[index];
        proof {
            cache::lemma_segments_are_checked(self.columns, index as int);
        }
        if source == NO_ROW {
            return Some(
                CachedSourceMapSegment {
                    generated_column: c.segment_generated[index],
                    source: None,
                    source_index: None,
                    original_line: None,
                    original_column: None,
                    name: None,
                    name_index: None,
                },
            );
        }
        let (name_text, name_index) = if name == NO_ROW {
            (None, None)
        } else {
            (self.name(name as usize), Some(name))
        };
        Some(
            CachedSourceMapSegment {
                generated_column: c.segment_generated[index],
                source: self.source(source as usize),
                source_index: Some(source),
                original_line: Some(c.segment_line[index]),
                original_column: Some(c.segment_column[index]),
                name: name_text,
                name_index,
            },
        )
    }

    /// Every origin at the greatest generated position that does not exceed
    /// the query.
    pub fn lookup_all(&self, generated: GeneratedPosition) -> (positions: Vec<OriginalPosition>)
        ensures
            super::position_views(positions@) == super::originals_at(
                MapModel::Basic(cache::decoded(self.columns_spec())),
                generated,
            ),
    {
        proof {
            use_type_invariant(self);
        }
        self.map.lookup_all(generated)
    }

    /// The origin of a position, where there is exactly one.
    pub fn lookup(&self, generated: GeneratedPosition) -> (original: Option<OriginalPosition>)
        ensures
            ({
                let found = super::originals_at(
                    MapModel::Basic(cache::decoded(self.columns_spec())),
                    generated,
                );
                &&& original is Some == (found.len() == 1)
                &&& original matches Some(position) ==> position@ == found[0]
            }),
    {
        proof {
            use_type_invariant(self);
        }
        self.map.lookup(generated)
    }
}

} // verus!
