//! Bounded Source Map v3 decoding, lookup and composition.

use vstd::prelude::*;
use vstd::string::*;

use crate::text;
use crate::text::clone_optional;

pub mod cache;
pub mod cache_laws;
pub mod cache_messages;
pub mod columns;
pub mod laws;
mod map;
pub mod mapping_laws;
pub mod mappings;
pub mod messages;
pub mod positions;
pub mod view;
pub mod vlq;

pub use map::SourceMap;
pub use positions::positions_for_byte_offsets;
use mappings::{OriginalFields, ParseBudget, Segment};

verus! {

/// Why a source map, a cached source map or a byte offset was refused.
#[derive(Debug, Clone, Copy, PartialEq, Eq, Structural)]
pub enum SourceMapError {
    ByteLimit,
    UnsupportedVersionOrDepth,
    NotExactlyOneBody,
    MissingSources,
    ContentNotPermitted,
    ContentTooLong,
    IgnoreListRange,
    CountOverflow,
    ResourceLimit,
    EmptySegment,
    FieldCount,
    TruncatedVlq,
    InvalidBase64,
    VlqRange,
    CumulativeRange,
    SourceIndexRange,
    NameIndexRange,
    SectionsUnordered,
    SectionsOverlap,
    SectionLineOverflow,
    SectionColumnOverflow,
    SegmentCountOverflow,
    OffsetBeyondSource,
    OffsetInsideCharacter,
    LineOverflow,
    ColumnOverflow,
}

/// What a source map document may hold.
#[derive(Debug, Clone, Copy)]
pub struct SourceMapLimits {
    pub max_bytes: usize,
    pub max_sources: usize,
    pub max_names: usize,
    pub max_lines: usize,
    pub max_segments: usize,
    pub max_sections: usize,
    pub max_depth: usize,
    pub allow_sources_content: bool,
}

impl Default for SourceMapLimits {
    fn default() -> (limits: Self)
        ensures
            limits == (SourceMapLimits {
                max_bytes: 268_435_456,
                max_sources: 1_000_000,
                max_names: 1_000_000,
                max_lines: 20_000_000,
                max_segments: 100_000_000,
                max_sections: 100_000,
                max_depth: 8,
                allow_sources_content: false,
            }),
    {
        SourceMapLimits {
            max_bytes: 268_435_456,
            max_sources: 1_000_000,
            max_names: 1_000_000,
            max_lines: 20_000_000,
            max_segments: 100_000_000,
            max_sections: 100_000,
            max_depth: 8,
            allow_sources_content: false,
        }
    }
}

/// A zero-based position in generated text.
#[derive(Debug, Clone, Copy, PartialEq, Eq, Structural)]
pub struct GeneratedPosition {
    pub line: u32,
    /// UTF-16 code-unit column, as defined by Source Map v3.
    pub column: u32,
}

/// Where a generated position comes from.
#[derive(Debug)]
pub struct OriginalPosition {
    /// The nullable raw `sources[source_index]` entry. It is kept apart from
    /// `source_root`: joining the two would lose the distinction between a
    /// null source and an empty one.
    pub source: Option<String>,
    /// The nullable `sourceRoot` of the map.
    pub source_root: Option<String>,
    pub source_index: u32,
    pub line: u32,
    pub column: u32,
    pub name: Option<String>,
    pub name_index: Option<u32>,
}

impl Clone for OriginalPosition {
    fn clone(&self) -> (copy: Self)
        ensures
            copy == *self,
    {
        OriginalPosition {
            source: clone_optional(&self.source),
            source_root: clone_optional(&self.source_root),
            source_index: self.source_index,
            line: self.line,
            column: self.column,
            name: clone_optional(&self.name),
            name_index: self.name_index,
        }
    }
}

/// The model of an [`OriginalPosition`].
pub struct OriginalModel {
    pub source: Option<Seq<char>>,
    pub source_root: Option<Seq<char>>,
    pub source_index: u32,
    pub line: u32,
    pub column: u32,
    pub name: Option<Seq<char>>,
    pub name_index: Option<u32>,
}

impl View for OriginalPosition {
    type V = OriginalModel;

    open spec fn view(&self) -> OriginalModel {
        OriginalModel {
            source: text::optional_view(self.source),
            source_root: text::optional_view(self.source_root),
            source_index: self.source_index,
            line: self.line,
            column: self.column,
            name: text::optional_view(self.name),
            name_index: self.name_index,
        }
    }
}

/// Original positions seen as their models.
pub open spec fn position_views(positions: Seq<OriginalPosition>) -> Seq<OriginalModel> {
    positions.map_values(|position: OriginalPosition| position@)
}

pub proof fn lemma_position_views(positions: Seq<OriginalPosition>)
    ensures
        position_views(positions).len() == positions.len(),
        forall|i: int|
            0 <= i < positions.len() ==> #[trigger] position_views(positions)[i] == positions[i]@,
{
}

/// A map with one `mappings` text: its tables, and the segments of each
/// generated line in column order.
pub struct BasicModel {
    pub sources: Seq<Option<Seq<char>>>,
    pub source_root: Option<Seq<char>>,
    pub names: Seq<Seq<char>>,
    pub lines: Seq<Seq<Segment>>,
}

/// A source map: basic, or a list of maps that start at given offsets.
pub enum MapModel {
    Basic(BasicModel),
    Indexed(Seq<(GeneratedPosition, MapModel)>),
}

/// Whether `left` is not behind `right`.
pub open spec fn at_most(left: GeneratedPosition, right: GeneratedPosition) -> bool {
    left.line < right.line || (left.line == right.line && left.column <= right.column)
}

/// The number of segments, from the start of a sorted line, whose column is
/// at most `column`.
pub open spec fn columns_upto(line: Seq<Segment>, column: u32) -> nat
    decreases line.len(),
{
    if line.len() == 0 {
        0
    } else if line.last().generated_column <= column {
        line.len()
    } else {
        columns_upto(line.drop_last(), column)
    }
}

/// The start of the run of segments that share the column of segment `end - 1`.
pub open spec fn run_start(line: Seq<Segment>, end: int) -> int
    decreases end,
{
    if end >= 2 && line[end - 2].generated_column == line[end - 1].generated_column {
        run_start(line, end - 1)
    } else {
        end - 1
    }
}

/// The position that a segment's origin stands for.
pub open spec fn original_at(map: BasicModel, original: OriginalFields) -> OriginalModel {
    OriginalModel {
        source: map.sources[original.source as int],
        source_root: map.source_root,
        source_index: original.source,
        line: original.line,
        column: original.column,
        name: match original.name {
            Some(name) => Some(map.names[name as int]),
            None => None,
        },
        name_index: original.name,
    }
}

/// The origins of the segments `start..end` of a line, in order; segments
/// without one are left out.
pub open spec fn originals_between(
    map: BasicModel,
    line: Seq<Segment>,
    start: int,
    end: int,
) -> Seq<OriginalModel>
    decreases end - start,
{
    if end <= start {
        Seq::empty()
    } else {
        let before = originals_between(map, line, start, end - 1);
        match line[end - 1].original {
            Some(original) => before.push(original_at(map, original)),
            None => before,
        }
    }
}

/// The mapped group at the greatest position on `line` or before it that does
/// not exceed the query.
pub open spec fn group_from(map: BasicModel, query: GeneratedPosition, line: int) -> Option<
    (GeneratedPosition, Seq<OriginalModel>),
>
    decreases line + 1,
{
    if line < 0 {
        None
    } else {
        let segments = map.lines[line];
        let end = if line == query.line {
            columns_upto(segments, query.column) as int
        } else {
            segments.len() as int
        };
        if end > 0 {
            Some(
                (
                    GeneratedPosition {
                        line: line as u32,
                        column: segments[end - 1].generated_column,
                    },
                    originals_between(map, segments, run_start(segments, end), end),
                ),
            )
        } else {
            group_from(map, query, line - 1)
        }
    }
}

/// Every origin at the greatest mapped position of a basic map that does not
/// exceed the query.
pub open spec fn basic_group(map: BasicModel, query: GeneratedPosition) -> Option<
    (GeneratedPosition, Seq<OriginalModel>),
> {
    group_from(
        map,
        query,
        if query.line < map.lines.len() {
            query.line as int
        } else {
            map.lines.len() - 1
        },
    )
}

/// A position of the whole map relative to a section's offset.
pub open spec fn into_section(offset: GeneratedPosition, query: GeneratedPosition) -> Option<
    GeneratedPosition,
> {
    if query.line < offset.line {
        None
    } else if query.line > offset.line {
        Some(GeneratedPosition { line: (query.line - offset.line) as u32, column: query.column })
    } else if query.column < offset.column {
        None
    } else {
        Some(GeneratedPosition { line: 0, column: (query.column - offset.column) as u32 })
    }
}

/// A position of a section relative to the whole map.
pub open spec fn out_of_section(offset: GeneratedPosition, local: GeneratedPosition) -> Result<
    GeneratedPosition,
    SourceMapError,
> {
    if offset.line + local.line > u32::MAX {
        Err(SourceMapError::SectionLineOverflow)
    } else if local.line == 0 && offset.column + local.column > u32::MAX {
        Err(SourceMapError::SectionColumnOverflow)
    } else {
        Ok(
            GeneratedPosition {
                line: (offset.line + local.line) as u32,
                column: if local.line == 0 {
                    (offset.column + local.column) as u32
                } else {
                    local.column
                },
            },
        )
    }
}

/// The number of sections, from the start, whose offset does not exceed the
/// query.
pub open spec fn sections_upto(
    sections: Seq<(GeneratedPosition, MapModel)>,
    query: GeneratedPosition,
) -> nat
    decreases sections.len(),
{
    if sections.len() == 0 {
        0
    } else if at_most(sections.last().0, query) {
        sections.len()
    } else {
        sections_upto(sections.drop_last(), query)
    }
}

/// Every origin at the greatest mapped position that does not exceed the query.
pub open spec fn group_at(map: MapModel, query: GeneratedPosition) -> Option<
    (GeneratedPosition, Seq<OriginalModel>),
>
    decreases map, 0nat,
{
    match map {
        MapModel::Basic(basic) => basic_group(basic, query),
        MapModel::Indexed(sections) => group_in_sections(
            sections,
            sections_upto(sections, query),
            query,
            None,
        ),
    }
}

/// Looks through the first `count` sections from the last to the first: a
/// greater position replaces the best group, an equal one adds its origins
/// behind it, and a smaller one ends the search.
pub open spec fn group_in_sections(
    sections: Seq<(GeneratedPosition, MapModel)>,
    count: nat,
    query: GeneratedPosition,
    best: Option<(GeneratedPosition, Seq<OriginalModel>)>,
) -> Option<(GeneratedPosition, Seq<OriginalModel>)>
    decreases sections, count,
{
    if count == 0 || count > sections.len() {
        best
    } else {
        let section = sections[count - 1];
        let next = (count - 1) as nat;
        match into_section(section.0, query) {
            None => group_in_sections(sections, next, query, best),
            Some(local) => match group_at(section.1, local) {
                None => group_in_sections(sections, next, query, best),
                Some((found, positions)) => match out_of_section(section.0, found) {
                    Err(_) => group_in_sections(sections, next, query, best),
                    Ok(global) => match best {
                        None => group_in_sections(
                            sections,
                            next,
                            query,
                            Some((global, positions)),
                        ),
                        Some((top, kept)) => if global == top {
                            group_in_sections(sections, next, query, Some((top, kept + positions)))
                        } else if at_most(top, global) {
                            group_in_sections(sections, next, query, Some((global, positions)))
                        } else {
                            best
                        },
                    },
                },
            },
        }
    }
}

/// The origins of a query.
pub open spec fn originals_at(map: MapModel, query: GeneratedPosition) -> Seq<OriginalModel> {
    match group_at(map, query) {
        None => Seq::empty(),
        Some((_, positions)) => positions,
    }
}

/// An inner origin, named by the intermediate position where it has no name
/// of its own.
pub open spec fn renamed(intermediate: OriginalModel, inner: OriginalModel) -> OriginalModel {
    if inner.name is None {
        OriginalModel { name: intermediate.name, name_index: intermediate.name_index, ..inner }
    } else {
        inner
    }
}

/// The inner origins of the first `count` intermediate positions.
pub open spec fn composed(
    intermediate: Seq<OriginalModel>,
    inner: MapModel,
    count: int,
) -> Seq<OriginalModel>
    decreases count,
{
    if count <= 0 {
        Seq::empty()
    } else {
        let last = intermediate[count - 1];
        composed(intermediate, inner, count - 1) + originals_at(
            inner,
            GeneratedPosition { line: last.line, column: last.column },
        ).map_values(|position: OriginalModel| renamed(last, position))
    }
}

/// Every origin of a query through two maps.
pub open spec fn composed_at(outer: MapModel, inner: MapModel, query: GeneratedPosition) -> Seq<
    OriginalModel,
> {
    let intermediate = originals_at(outer, query);
    composed(intermediate, inner, intermediate.len() as int)
}

/// Whether a map can be looked up: it has a line, its lines are sorted, its
/// origins are in range, and its sections are in order.
pub open spec fn map_is_wf(map: MapModel) -> bool
    decreases map, 0nat,
{
    match map {
        MapModel::Basic(basic) => {
            &&& basic.lines.len() > 0
            &&& mappings::lines_are_wf(
                basic.lines,
                basic.sources.len() as int,
                basic.names.len() as int,
            )
        },
        MapModel::Indexed(sections) => sections_are_wf(sections, sections.len()),
    }
}

/// Whether the first `count` sections are in order, each one well formed.
pub open spec fn sections_are_wf(
    sections: Seq<(GeneratedPosition, MapModel)>,
    count: nat,
) -> bool
    decreases sections, count,
{
    if count == 0 || count > sections.len() {
        true
    } else {
        &&& sections_are_wf(sections, (count - 1) as nat)
        &&& map_is_wf(sections[count - 1].1)
        &&& count >= 2 ==> at_most(sections[count - 2].0, sections[count - 1].0)
    }
}

/// The number of segments of a map.
pub open spec fn segment_total(map: MapModel) -> nat
    decreases map, 0nat,
{
    match map {
        MapModel::Basic(basic) => mappings::segments_on(basic.lines),
        MapModel::Indexed(sections) => section_total(sections, sections.len()),
    }
}

/// The number of segments in the first `count` sections.
pub open spec fn section_total(sections: Seq<(GeneratedPosition, MapModel)>, count: nat) -> nat
    decreases sections, count,
{
    if count == 0 || count > sections.len() {
        0
    } else {
        section_total(sections, (count - 1) as nat) + segment_total(sections[count - 1].1)
    }
}

/// The last mapped position of the first `count` lines.
pub open spec fn last_on_lines(lines: Seq<Seq<Segment>>, count: int) -> Option<GeneratedPosition>
    decreases count,
{
    if count <= 0 {
        None
    } else if lines[count - 1].len() > 0 {
        Some(
            GeneratedPosition {
                line: (count - 1) as u32,
                column: lines[count - 1].last().generated_column,
            },
        )
    } else {
        last_on_lines(lines, count - 1)
    }
}

/// The last mapped position of a map.
pub open spec fn last_position(map: MapModel) -> Result<Option<GeneratedPosition>, SourceMapError>
    decreases map, 0nat,
{
    match map {
        MapModel::Basic(basic) => Ok(last_on_lines(basic.lines, basic.lines.len() as int)),
        MapModel::Indexed(sections) => last_in_sections(sections, sections.len()),
    }
}

/// The last mapped position of the first `count` sections.
pub open spec fn last_in_sections(
    sections: Seq<(GeneratedPosition, MapModel)>,
    count: nat,
) -> Result<Option<GeneratedPosition>, SourceMapError>
    decreases sections, count,
{
    if count == 0 || count > sections.len() {
        Ok(None)
    } else {
        match last_position(sections[count - 1].1) {
            Err(error) => Err(error),
            Ok(None) => last_in_sections(sections, (count - 1) as nat),
            Ok(Some(local)) => match out_of_section(sections[count - 1].0, local) {
                Err(error) => Err(error),
                Ok(global) => Ok(Some(global)),
            },
        }
    }
}

/// A decoded source map document, before its rules are checked.
#[derive(Debug)]
pub struct RawMap {
    pub version: u32,
    pub source_root: Option<String>,
    pub sources: Option<Vec<Option<String>>>,
    pub sources_content: Option<Vec<Option<String>>>,
    pub names: Vec<String>,
    pub mappings: Option<String>,
    pub sections: Option<Vec<RawSection>>,
    pub ignore_list: Option<Vec<u32>>,
    pub x_google_ignore_list: Option<Vec<u32>>,
}

/// A section of a [`RawMap`].
#[derive(Debug)]
pub struct RawSection {
    pub offset: GeneratedPosition,
    pub map: RawMap,
}

/// The model of a [`RawMap`].
pub struct RawModel {
    pub version: u32,
    pub source_root: Option<Seq<char>>,
    pub sources: Option<Seq<Option<Seq<char>>>>,
    pub content_count: Option<nat>,
    pub names: Seq<Seq<char>>,
    pub mappings: Option<Seq<char>>,
    pub sections: RawSections,
    pub ignore_list: Option<Seq<u32>>,
    pub x_google_ignore_list: Option<Seq<u32>>,
}

/// The sections of a [`RawModel`], where it has any.
pub enum RawSections {
    Absent,
    Present(Seq<(GeneratedPosition, RawModel)>),
}

impl RawMap {
    pub open spec fn model(&self) -> RawModel
        decreases self,
    {
        RawModel {
            version: self.version,
            source_root: text::optional_view(self.source_root),
            sources: match self.sources {
                Some(sources) => Some(text::optional_views(sources@)),
                None => None,
            },
            content_count: match self.sources_content {
                Some(content) => Some(content@.len()),
                None => None,
            },
            names: text::views(self.names@),
            mappings: text::optional_view(self.mappings),
            sections: match self.sections {
                Some(sections) => RawSections::Present(section_models(sections@)),
                None => RawSections::Absent,
            },
            ignore_list: match self.ignore_list {
                Some(list) => Some(list@),
                None => None,
            },
            x_google_ignore_list: match self.x_google_ignore_list {
                Some(list) => Some(list@),
                None => None,
            },
        }
    }
}

/// Sections seen as their models.
pub open spec fn section_models(sections: Seq<RawSection>) -> Seq<(GeneratedPosition, RawModel)>
    decreases sections,
{
    if sections.len() == 0 {
        Seq::empty()
    } else {
        section_models(sections.drop_last()).push(
            (sections.last().offset, sections.last().map.model()),
        )
    }
}

pub proof fn lemma_section_models(sections: Seq<RawSection>)
    ensures
        section_models(sections).len() == sections.len(),
        forall|i: int|
            0 <= i < sections.len() ==> #[trigger] section_models(sections)[i] == (
                sections[i].offset,
                sections[i].map.model(),
            ),
    decreases sections.len(),
{
    if sections.len() > 0 {
        lemma_section_models(sections.drop_last());
    }
}

/// The list of ignored sources that counts: `ignoreList`, or else
/// `x_google_ignoreList`.
pub open spec fn ignored(raw: RawModel) -> Seq<u32> {
    match raw.ignore_list {
        Some(list) => list,
        None => match raw.x_google_ignore_list {
            Some(list) => list,
            None => Seq::empty(),
        },
    }
}

/// Whether some entry of a list is not below a bound.
pub open spec fn some_reaches(list: Seq<u32>, bound: int) -> bool {
    exists|i: int| 0 <= i < list.len() && #[trigger] list[i] >= bound
}

/// The depth of the maps inside a map's sections.
pub open spec fn deeper(depth: usize) -> usize {
    if depth < usize::MAX {
        (depth + 1) as usize
    } else {
        depth
    }
}

/// Nothing used up yet.
pub open spec fn no_budget() -> ParseBudget {
    ParseBudget { sources: 0, names: 0, lines: 0, segments: 0, sections: 0 }
}

/// The rules of a map with a `mappings` text.
pub open spec fn basic_of(
    raw: RawModel,
    mappings: Seq<char>,
    limits: SourceMapLimits,
    budget: ParseBudget,
) -> Result<(MapModel, ParseBudget), SourceMapError> {
    match raw.sources {
        None => Err(SourceMapError::MissingSources),
        Some(sources) => if raw.content_count is Some && !limits.allow_sources_content {
            Err(SourceMapError::ContentNotPermitted)
        } else if raw.content_count is Some && raw.content_count->0 > sources.len() {
            Err(SourceMapError::ContentTooLong)
        } else if some_reaches(ignored(raw), sources.len() as int) {
            Err(SourceMapError::IgnoreListRange)
        } else {
            match mappings::total_of(
                budget.sources as int,
                sources.len() as int,
                limits.max_sources as int,
            ) {
                Err(error) => Err(error),
                Ok(source_total) => match mappings::total_of(
                    budget.names as int,
                    raw.names.len() as int,
                    limits.max_names as int,
                ) {
                    Err(error) => Err(error),
                    Ok(name_total) => {
                        let started = ParseBudget {
                            sources: source_total,
                            names: name_total,
                            ..budget
                        };
                        match mappings::mappings_of(
                            vstd::utf8::encode_utf8(mappings),
                            sources.len() as int,
                            raw.names.len() as int,
                            limits,
                            started,
                        ) {
                            Err(error) => Err(error),
                            Ok(state) => Ok(
                                (
                                    MapModel::Basic(
                                        BasicModel {
                                            sources,
                                            source_root: raw.source_root,
                                            names: raw.names,
                                            lines: state.lines,
                                        },
                                    ),
                                    ParseBudget {
                                        lines: state.used_lines,
                                        segments: state.used_segments,
                                        ..started
                                    },
                                ),
                            ),
                        }
                    },
                },
            }
        },
    }
}

/// The sections read so far.
pub struct SectionsState {
    pub maps: Seq<(GeneratedPosition, MapModel)>,
    pub last_mapping: Option<GeneratedPosition>,
    pub segments: nat,
    pub budget: ParseBudget,
}

/// The rules of a source map document: which map it stands for, and what it
/// uses up.
pub open spec fn map_of(
    raw: RawModel,
    limits: SourceMapLimits,
    budget: ParseBudget,
    depth: usize,
) -> Result<(MapModel, ParseBudget), SourceMapError>
    decreases raw, 0nat,
{
    if depth > limits.max_depth || raw.version != 3 {
        Err(SourceMapError::UnsupportedVersionOrDepth)
    } else {
        match (raw.mappings, raw.sections) {
            (Some(mappings), RawSections::Absent) => basic_of(raw, mappings, limits, budget),
            (None, RawSections::Present(sections)) => match mappings::total_of(
                budget.sections as int,
                sections.len() as int,
                limits.max_sections as int,
            ) {
                Err(error) => Err(error),
                Ok(section_count) => match sections_of(
                    sections,
                    sections.len(),
                    limits,
                    deeper(depth),
                    ParseBudget { sections: section_count, ..budget },
                ) {
                    Err(error) => Err(error),
                    Ok(state) => Ok((MapModel::Indexed(state.maps), state.budget)),
                },
            },
            _ => Err(SourceMapError::NotExactlyOneBody),
        }
    }
}

/// The rules of the first `count` sections: offsets do not decrease, and no
/// section starts before the last mapping of the sections ahead of it.
pub open spec fn sections_of(
    sections: Seq<(GeneratedPosition, RawModel)>,
    count: nat,
    limits: SourceMapLimits,
    depth: usize,
    budget: ParseBudget,
) -> Result<SectionsState, SourceMapError>
    decreases sections, count,
{
    if count == 0 || count > sections.len() {
        Ok(SectionsState { maps: Seq::empty(), last_mapping: None, segments: 0, budget })
    } else {
        match sections_of(sections, (count - 1) as nat, limits, depth, budget) {
            Err(error) => Err(error),
            Ok(state) => {
                let offset = sections[count - 1].0;
                if count >= 2 && !at_most(sections[count - 2].0, offset) {
                    Err(SourceMapError::SectionsUnordered)
                } else if state.last_mapping is Some && !at_most(state.last_mapping->0, offset) {
                    Err(SourceMapError::SectionsOverlap)
                } else {
                    match map_of(sections[count - 1].1, limits, state.budget, depth) {
                        Err(error) => Err(error),
                        Ok((map, budget)) => match last_position(map) {
                            Err(error) => Err(error),
                            Ok(last) => match section_end(offset, last, state.last_mapping) {
                                Err(error) => Err(error),
                                Ok(last_mapping) => if state.segments + segment_total(map)
                                    > usize::MAX {
                                    Err(SourceMapError::SegmentCountOverflow)
                                } else {
                                    Ok(
                                        SectionsState {
                                            maps: state.maps.push((offset, map)),
                                            last_mapping,
                                            segments: state.segments + segment_total(map),
                                            budget,
                                        },
                                    )
                                },
                            },
                        },
                    }
                }
            },
        }
    }
}

/// The last mapping after a section that starts at `offset` and ends at `last`.
pub open spec fn section_end(
    offset: GeneratedPosition,
    last: Option<GeneratedPosition>,
    before: Option<GeneratedPosition>,
) -> Result<Option<GeneratedPosition>, SourceMapError> {
    match last {
        None => Ok(before),
        Some(local) => match out_of_section(offset, local) {
            Err(error) => Err(error),
            Ok(global) => Ok(Some(global)),
        },
    }
}

} // verus!
