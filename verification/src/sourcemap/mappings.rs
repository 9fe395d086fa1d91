//! The `mappings` text of a source map: lines separated by `;`, segments
//! separated by `,`, each segment one, four or five relative values.

use vstd::prelude::*;

use super::vlq::decode_segment;
use super::{vlq, SourceMapError, SourceMapLimits};

verus! {

/// Where a segment comes from.
#[derive(Debug, Clone, Copy, PartialEq, Eq, Structural)]
pub struct OriginalFields {
    pub source: u32,
    pub line: u32,
    pub column: u32,
    pub name: Option<u32>,
}

/// One mapping of a generated line.
#[derive(Debug, Clone, Copy, PartialEq, Eq, Structural)]
pub struct Segment {
    pub generated_column: u32,
    pub original: Option<OriginalFields>,
}

/// The absolute values that the next relative values build on.
#[derive(Debug, Clone, Copy, PartialEq, Eq, Structural)]
pub struct Reached {
    pub source: u32,
    pub line: u32,
    pub column: u32,
    pub name: u32,
}

/// What the maps of one document have used up so far.
#[derive(Debug, Clone, Copy, PartialEq, Eq, Structural)]
pub struct ParseBudget {
    pub sources: usize,
    pub names: usize,
    pub lines: usize,
    pub segments: usize,
    pub sections: usize,
}

/// The new count after adding to a bounded resource.
pub open spec fn total_of(current: int, added: int, limit: int) -> Result<usize, SourceMapError> {
    if current + added > usize::MAX {
        Err(SourceMapError::CountOverflow)
    } else if current + added > limit {
        Err(SourceMapError::ResourceLimit)
    } else {
        Ok((current + added) as usize)
    }
}

/// Adds to a bounded resource.
pub fn checked_total(current: usize, added: usize, limit: usize) -> (r: Result<
    usize,
    SourceMapError,
>)
    ensures
        r == total_of(current as int, added as int, limit as int),
{
    match current.checked_add(added) {
        None => Err(SourceMapError::CountOverflow),
        Some(total) => if total > limit {
            Err(SourceMapError::ResourceLimit)
        } else {
            Ok(total)
        },
    }
}

/// The absolute value after a relative one.
pub open spec fn moved(base: u32, delta: i64) -> Result<u32, SourceMapError> {
    if 0 <= base + delta <= u32::MAX {
        Ok((base + delta) as u32)
    } else {
        Err(SourceMapError::CumulativeRange)
    }
}

/// Applies a relative value.
fn checked_delta(base: u32, delta: i64) -> (r: Result<u32, SourceMapError>)
    requires
        -0x8000_0000 <= delta <= 0x7fff_ffff,
    ensures
        r == moved(base, delta),
{
    let value: i64 = base as i64 + delta;
    if value < 0 || value > 0xffff_ffff {
        Err(SourceMapError::CumulativeRange)
    } else {
        Ok(value as u32)
    }
}

/// The first position from `from` up to `end` that holds `separator`, or `end`.
pub open spec fn separator_at(text: Seq<u8>, from: int, end: int, separator: u8) -> int
    decreases end - from,
{
    if from >= end || text[from] == separator {
        from
    } else {
        separator_at(text, from + 1, end, separator)
    }
}

/// Finds the next separator.
fn find_separator(text: &[u8], from: usize, end: usize, separator: u8) -> (at: usize)
    requires
        from <= end <= text@.len(),
    ensures
        at == separator_at(text@, from as int, end as int, separator),
        from <= at <= end,
{
    let mut at: usize = from;
    while at < end && text[at] != separator
        invariant
            from <= at <= end <= text@.len(),
            separator_at(text@, from as int, end as int, separator) == separator_at(
                text@,
                at as int,
                end as int,
                separator,
            ),
        decreases end - at,
    {
        at += 1;
    }
    at
}

/// What one segment's values mean after `reached` and `generated`.
pub open spec fn segment_of(
    fields: Seq<i64>,
    reached: Reached,
    generated: u32,
    source_count: int,
    name_count: int,
) -> Result<(Segment, Reached), SourceMapError> {
    if fields.len() != 1 && fields.len() != 4 && fields.len() != 5 {
        Err(SourceMapError::FieldCount)
    } else {
        match moved(generated, fields[0]) {
            Err(error) => Err(error),
            Ok(generated_column) => if fields.len() == 1 {
                Ok((Segment { generated_column, original: None }, reached))
            } else {
                original_of(fields, reached, generated_column, source_count, name_count)
            },
        }
    }
}

/// The part of [`segment_of`] for a segment that names its origin.
pub open spec fn original_of(
    fields: Seq<i64>,
    reached: Reached,
    generated_column: u32,
    source_count: int,
    name_count: int,
) -> Result<(Segment, Reached), SourceMapError> {
    match (
        moved(reached.source, fields[1]),
        moved(reached.line, fields[2]),
        moved(reached.column, fields[3]),
    ) {
        (Ok(source), Ok(line), Ok(column)) => if source >= source_count {
            Err(SourceMapError::SourceIndexRange)
        } else if fields.len() == 4 {
            Ok(
                (
                    Segment {
                        generated_column,
                        original: Some(OriginalFields { source, line, column, name: None }),
                    },
                    Reached { source, line, column, name: reached.name },
                ),
            )
        } else {
            match moved(reached.name, fields[4]) {
                Err(error) => Err(error),
                Ok(name) => if name >= name_count {
                    Err(SourceMapError::NameIndexRange)
                } else {
                    Ok(
                        (
                            Segment {
                                generated_column,
                                original: Some(
                                    OriginalFields { source, line, column, name: Some(name) },
                                ),
                            },
                            Reached { source, line, column, name },
                        ),
                    )
                },
            }
        },
        _ => Err(SourceMapError::CumulativeRange),
    }
}

fn read_segment(
    fields: &Vec<i64>,
    reached: Reached,
    generated: u32,
    source_count: usize,
    name_count: usize,
) -> (r: Result<(Segment, Reached), SourceMapError>)
    requires
        vlq::are_32_bit(fields@),
    ensures
        r == segment_of(fields@, reached, generated, source_count as int, name_count as int),
{
    if fields.len() != 1 && fields.len() != 4 && fields.len() != 5 {
        return Err(SourceMapError::FieldCount);
    }
    let generated_column: u32 = match checked_delta(generated, fields[0]) {
        Ok(value) => value,
        Err(error) => {
            return Err(error);
        },
    };
    if fields.len() == 1 {
        return Ok((Segment { generated_column, original: None }, reached));
    }
    let source: u32 = match checked_delta(reached.source, fields[1]) {
        Ok(value) => value,
        Err(error) => {
            return Err(error);
        },
    };
    let line: u32 = match checked_delta(reached.line, fields[2]) {
        Ok(value) => value,
        Err(error) => {
            return Err(error);
        },
    };
    let column: u32 = match checked_delta(reached.column, fields[3]) {
        Ok(value) => value,
        Err(error) => {
            return Err(error);
        },
    };
    if source as usize >= source_count {
        return Err(SourceMapError::SourceIndexRange);
    }
    if fields.len() == 4 {
        return Ok(
            (
                Segment {
                    generated_column,
                    original: Some(OriginalFields { source, line, column, name: None }),
                },
                Reached { source, line, column, name: reached.name },
            ),
        );
    }
    let name: u32 = match checked_delta(reached.name, fields[4]) {
        Ok(value) => value,
        Err(error) => {
            return Err(error);
        },
    };
    if name as usize >= name_count {
        return Err(SourceMapError::NameIndexRange);
    }
    Ok(
        (
            Segment {
                generated_column,
                original: Some(OriginalFields { source, line, column, name: Some(name) }),
            },
            Reached { source, line, column, name },
        ),
    )
}

/// A line's segments with one more put behind every segment whose column is
/// not greater.
pub open spec fn insert_by_column(line: Seq<Segment>, segment: Segment) -> Seq<Segment>
    decreases line.len(),
{
    if line.len() == 0 || line.last().generated_column <= segment.generated_column {
        line.push(segment)
    } else {
        insert_by_column(line.drop_last(), segment).push(line.last())
    }
}

/// Whether the columns of a line never decrease.
pub open spec fn is_sorted(line: Seq<Segment>) -> bool {
    forall|i: int, j: int|
        0 <= i < j < line.len() ==> #[trigger] line[i].generated_column
            <= #[trigger] line[j].generated_column
}

/// Whether every origin on a line is an index into the sources and names.
pub open spec fn indexes_are_in(line: Seq<Segment>, source_count: int, name_count: int) -> bool {
    forall|i: int|
        #![trigger line[i]]
        0 <= i < line.len() ==> (line[i].original matches Some(original) ==> original.source
            < source_count && (original.name matches Some(name) ==> name < name_count))
}

/// Inserting by column keeps a line sorted, keeps the origins in range, and
/// adds exactly the given segment.
pub proof fn lemma_insert_by_column(
    line: Seq<Segment>,
    segment: Segment,
    source_count: int,
    name_count: int,
)
    requires
        is_sorted(line),
        indexes_are_in(line, source_count, name_count),
        segment.original matches Some(original) ==> original.source < source_count && (
        original.name matches Some(name) ==> name < name_count),
    ensures
        insert_by_column(line, segment).len() == line.len() + 1,
        is_sorted(insert_by_column(line, segment)),
        indexes_are_in(insert_by_column(line, segment), source_count, name_count),
        insert_by_column(line, segment).to_multiset() =~= line.to_multiset().insert(segment),
        forall|i: int|
            0 <= i < insert_by_column(line, segment).len() ==> (
            #[trigger] insert_by_column(line, segment)[i]).generated_column
                <= segment.generated_column || (line.len() > 0 && insert_by_column(
                line,
                segment,
            )[i].generated_column <= line.last().generated_column),
    decreases line.len(),
{
    broadcast use vstd::seq_lib::group_to_multiset_ensures;

    let result = insert_by_column(line, segment);
    if line.len() == 0 || line.last().generated_column <= segment.generated_column {
        assert(result =~= line.push(segment));
    } else {
        let rest = line.drop_last();
        lemma_insert_by_column(rest, segment, source_count, name_count);
        let inner = insert_by_column(rest, segment);
        assert(line =~= rest.push(line.last()));
        assert(result == inner.push(line.last()));
        assert forall|i: int| 0 <= i < inner.len() implies (#[trigger] inner[i]).generated_column
            <= line.last().generated_column by {
            if rest.len() > 0 {
                assert(rest.last() == line[line.len() - 2]);
                assert(line[line.len() - 2].generated_column <= line[line.len()
                    - 1].generated_column);
            }
        }
    }
}

fn insert_segment(line: &mut Vec<Segment>, segment: Segment)
    ensures
        final(line)@ == insert_by_column(old(line)@, segment),
{
    let mut at: usize = line.len();
    let ghost whole = line@;
    assert(whole.subrange(0, at as int) =~= whole);
    assert(whole.subrange(at as int, whole.len() as int) =~= Seq::empty());
    assert(insert_by_column(whole, segment) =~= insert_by_column(whole, segment) + Seq::empty());
    while at > 0 && line[at - 1].generated_column > segment.generated_column
        invariant
            at <= line@.len(),
            line@ == whole,
            insert_by_column(whole, segment) == insert_by_column(
                whole.subrange(0, at as int),
                segment,
            ) + whole.subrange(at as int, whole.len() as int),
        decreases at,
    {
        proof {
            let prefix = whole.subrange(0, at as int);
            assert(prefix.drop_last() =~= whole.subrange(0, at - 1));
            assert(whole.subrange(at - 1, whole.len() as int) =~= seq![prefix.last()]
                + whole.subrange(at as int, whole.len() as int));
            assert(insert_by_column(prefix.drop_last(), segment).push(prefix.last())
                + whole.subrange(at as int, whole.len() as int) =~= insert_by_column(
                prefix.drop_last(),
                segment,
            ) + whole.subrange(at - 1, whole.len() as int));
        }
        at -= 1;
    }
    line.insert(at, segment);
    proof {
        let prefix = whole.subrange(0, at as int);
        assert(insert_by_column(prefix, segment) == prefix.push(segment));
        assert(line@ =~= prefix.push(segment) + whole.subrange(at as int, whole.len() as int));
    }
}

/// How far a line has been read.
pub struct LineState {
    pub reached: Reached,
    pub generated: u32,
    pub used: usize,
    pub segments: Seq<Segment>,
}

/// Reads the segments of a line from `pos` up to `end`, after those in `state`.
pub open spec fn read_line(
    text: Seq<u8>,
    pos: int,
    end: int,
    source_count: int,
    name_count: int,
    max_segments: int,
    state: LineState,
) -> Result<LineState, SourceMapError>
    decreases end - pos,
    when pos <= end
{
    let stop = separator_at(text, pos, end, 0x2c);
    if stop == pos {
        Err(SourceMapError::EmptySegment)
    } else {
        match total_of(state.used as int, 1, max_segments) {
            Err(error) => Err(error),
            Ok(used) => match vlq::segment_fields(text.subrange(pos, stop)) {
                Err(error) => Err(error),
                Ok(fields) => match segment_of(
                    fields,
                    state.reached,
                    state.generated,
                    source_count,
                    name_count,
                ) {
                    Err(error) => Err(error),
                    Ok((segment, reached)) => {
                        let next = LineState {
                            reached,
                            generated: segment.generated_column,
                            used,
                            segments: insert_by_column(state.segments, segment),
                        };
                        if stop < pos || stop >= end {
                            Ok(next)
                        } else {
                            read_line(
                                text,
                                stop + 1,
                                end,
                                source_count,
                                name_count,
                                max_segments,
                                next,
                            )
                        }
                    },
                },
            },
        }
    }
}

/// How far the whole text has been read.
pub struct MappingsState {
    pub reached: Reached,
    pub used_lines: usize,
    pub used_segments: usize,
    pub lines: Seq<Seq<Segment>>,
}

/// Reads the lines from `pos` on, after those in `state`. The generated
/// column starts anew on each line, the other values run on.
pub open spec fn read_lines(
    text: Seq<u8>,
    pos: int,
    source_count: int,
    name_count: int,
    limits: SourceMapLimits,
    state: MappingsState,
) -> Result<MappingsState, SourceMapError>
    decreases text.len() - pos,
    when pos <= text.len()
{
    match total_of(state.used_lines as int, 1, limits.max_lines as int) {
        Err(error) => Err(error),
        Ok(used_lines) => {
            let end = separator_at(text, pos, text.len() as int, 0x3b);
            let start = LineState {
                reached: state.reached,
                generated: 0,
                used: state.used_segments,
                segments: Seq::empty(),
            };
            let line = if end == pos {
                Ok(start)
            } else {
                read_line(
                    text,
                    pos,
                    end,
                    source_count,
                    name_count,
                    limits.max_segments as int,
                    start,
                )
            };
            match line {
                Err(error) => Err(error),
                Ok(line) => {
                    let next = MappingsState {
                        reached: line.reached,
                        used_lines,
                        used_segments: line.used,
                        lines: state.lines.push(line.segments),
                    };
                    if end < pos || end >= text.len() {
                        Ok(next)
                    } else {
                        read_lines(text, end + 1, source_count, name_count, limits, next)
                    }
                },
            }
        },
    }
}

/// The lines of a whole `mappings` text.
pub open spec fn mappings_of(
    text: Seq<u8>,
    source_count: int,
    name_count: int,
    limits: SourceMapLimits,
    budget: ParseBudget,
) -> Result<MappingsState, SourceMapError> {
    read_lines(
        text,
        0,
        source_count,
        name_count,
        limits,
        MappingsState {
            reached: Reached { source: 0, line: 0, column: 0, name: 0 },
            used_lines: budget.lines,
            used_segments: budget.segments,
            lines: Seq::empty(),
        },
    )
}

/// The number of segments on some lines.
pub open spec fn segments_on(lines: Seq<Seq<Segment>>) -> nat
    decreases lines.len(),
{
    if lines.len() == 0 {
        0
    } else {
        segments_on(lines.drop_last()) + lines.last().len()
    }
}

/// Whether each line is sorted and its origins are in range.
pub open spec fn lines_are_wf(
    lines: Seq<Seq<Segment>>,
    source_count: int,
    name_count: int,
) -> bool {
    forall|k: int|
        #![trigger lines[k]]
        0 <= k < lines.len() ==> is_sorted(lines[k]) && indexes_are_in(
            lines[k],
            source_count,
            name_count,
        )
}

/// The segments on the lines seen as a sequence of sequences.
pub open spec fn line_views(lines: Seq<Vec<Segment>>) -> Seq<Seq<Segment>> {
    lines.map_values(|line: Vec<Segment>| line@)
}

struct LineCursor {
    reached: Reached,
    used: usize,
    segments: Vec<Segment>,
}

fn decode_line(
    text: &[u8],
    from: usize,
    end: usize,
    reached: Reached,
    used: usize,
    source_count: usize,
    name_count: usize,
    max_segments: usize,
) -> (r: Result<LineCursor, SourceMapError>)
    requires
        from < end <= text@.len(),
    ensures
        match (
            r,
            read_line(
                text@,
                from as int,
                end as int,
                source_count as int,
                name_count as int,
                max_segments as int,
                LineState { reached, generated: 0, used, segments: Seq::empty() },
            ),
        ) {
            (Ok(a), Ok(b)) => a.reached == b.reached && a.used == b.used && a.segments@
                == b.segments && is_sorted(b.segments) && indexes_are_in(
                b.segments,
                source_count as int,
                name_count as int,
            ) && a.used - used == b.segments.len(),
            (Err(a), Err(b)) => a == b,
            _ => false,
        },
{
    let mut cursor = LineCursor { reached, used, segments: Vec::new() };
    let mut generated: u32 = 0;
    let mut pos: usize = from;
    loop
        invariant
            from <= pos <= end <= text@.len(),
            is_sorted(cursor.segments@),
            indexes_are_in(cursor.segments@, source_count as int, name_count as int),
            cursor.used - used == cursor.segments@.len(),
            read_line(
                text@,
                from as int,
                end as int,
                source_count as int,
                name_count as int,
                max_segments as int,
                LineState { reached, generated: 0, used, segments: Seq::empty() },
            ) == read_line(
                text@,
                pos as int,
                end as int,
                source_count as int,
                name_count as int,
                max_segments as int,
                LineState {
                    reached: cursor.reached,
                    generated,
                    used: cursor.used,
                    segments: cursor.segments@,
                },
            ),
        decreases end - pos,
    {
        let stop = find_separator(text, pos, end, 0x2c);
        if stop == pos {
            return Err(SourceMapError::EmptySegment);
        }
        let total: usize = match checked_total(cursor.used, 1, max_segments) {
            Ok(total) => total,
            Err(error) => {
                return Err(error);
            },
        };
        let fields = match decode_segment(vstd::slice::slice_subrange(text, pos, stop)) {
            Ok(fields) => fields,
            Err(error) => {
                return Err(error);
            },
        };
        let (segment, next) = match read_segment(
            &fields,
            cursor.reached,
            generated,
            source_count,
            name_count,
        ) {
            Ok(read) => read,
            Err(error) => {
                return Err(error);
            },
        };
        proof {
            lemma_insert_by_column(
                cursor.segments@,
                segment,
                source_count as int,
                name_count as int,
            );
        }
        let mut segments = cursor.segments;
        insert_segment(&mut segments, segment);
        cursor = LineCursor { reached: next, used: total, segments };
        generated = segment.generated_column;
        if stop == end {
            return Ok(cursor);
        }
        pos = stop + 1;
    }
}

/// Decodes a `mappings` text into its lines.
pub fn decode_mappings(
    mappings: &[u8],
    source_count: usize,
    name_count: usize,
    limits: &SourceMapLimits,
    budget: &mut ParseBudget,
) -> (r: Result<Vec<Vec<Segment>>, SourceMapError>)
    ensures
        match (
            r,
            mappings_of(
                mappings@,
                source_count as int,
                name_count as int,
                *limits,
                *old(budget),
            ),
        ) {
            (Ok(lines), Ok(state)) => {
                &&& line_views(lines@) == state.lines
                &&& lines@.len() > 0
                &&& lines_are_wf(state.lines, source_count as int, name_count as int)
                &&& *final(budget) == (ParseBudget {
                    lines: state.used_lines,
                    segments: state.used_segments,
                    ..*old(budget)
                })
                &&& old(budget).segments + segments_on(state.lines) == final(budget).segments
            },
            (Err(a), Err(b)) => a == b,
            _ => false,
        },
{
    let mut lines: Vec<Vec<Segment>> = Vec::new();
    let mut reached = Reached { source: 0, line: 0, column: 0, name: 0 };
    let mut pos: usize = 0;
    let ghost start = *budget;
    assert(line_views(lines@) =~= Seq::empty());
    loop
        invariant
            pos <= mappings@.len(),
            *old(budget) == start,
            *budget == (ParseBudget { lines: budget.lines, segments: budget.segments, ..start }),
            start.segments + segments_on(line_views(lines@)) == budget.segments,
            lines_are_wf(line_views(lines@), source_count as int, name_count as int),
            mappings_of(mappings@, source_count as int, name_count as int, *limits, start)
                == read_lines(
                mappings@,
                pos as int,
                source_count as int,
                name_count as int,
                *limits,
                MappingsState {
                    reached,
                    used_lines: budget.lines,
                    used_segments: budget.segments,
                    lines: line_views(lines@),
                },
            ),
        decreases mappings@.len() - pos,
    {
        budget.lines = match checked_total(budget.lines, 1, limits.max_lines) {
            Ok(total) => total,
            Err(error) => {
                return Err(error);
            },
        };
        let end = find_separator(mappings, pos, mappings.len(), 0x3b);
        let line = if end == pos {
            LineCursor { reached, used: budget.segments, segments: Vec::new() }
        } else {
            match decode_line(
                mappings,
                pos,
                end,
                reached,
                budget.segments,
                source_count,
                name_count,
                limits.max_segments,
            ) {
                Ok(line) => line,
                Err(error) => {
                    return Err(error);
                },
            }
        };
        reached = line.reached;
        budget.segments = line.used;
        let ghost before = line_views(lines@);
        lines.push(line.segments);
        proof {
            assert(line_views(lines@) =~= before.push(lines@.last()@));
            assert(line_views(lines@).drop_last() =~= before);
        }
        if end == mappings.len() {
            return Ok(lines);
        }
        pos = end + 1;
    }
}

} // verus!
