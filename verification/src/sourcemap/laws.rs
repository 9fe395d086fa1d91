//! What lookups promise of every source map.

use vstd::prelude::*;

use super::mappings::Segment;
use super::{mappings, BasicModel, GeneratedPosition, MapModel, OriginalModel};

verus! {

/// The position of segment `i` of generated line `line`.
pub open spec fn segment_position(map: BasicModel, line: int, i: int) -> GeneratedPosition {
    GeneratedPosition { line: line as u32, column: map.lines[line][i].generated_column }
}

/// Whether segment `i` of generated line `line` exists.
pub open spec fn is_segment(map: BasicModel, line: int, i: int) -> bool {
    0 <= line < map.lines.len() && 0 <= i < map.lines[line].len()
}

proof fn lemma_columns_upto_splits(line: Seq<Segment>, column: u32)
    requires
        mappings::is_sorted(line),
    ensures
        super::columns_upto(line, column) <= line.len(),
        forall|i: int|
            0 <= i < super::columns_upto(line, column) ==> (#[trigger] line[i]).generated_column
                <= column,
        forall|i: int|
            super::columns_upto(line, column) <= i < line.len() ==> (
            #[trigger] line[i]).generated_column > column,
    decreases line.len(),
{
    if line.len() > 0 {
        if line.last().generated_column <= column {
            assert forall|i: int| 0 <= i < line.len() implies (#[trigger] line[i]).generated_column
                <= column by {
                if i < line.len() - 1 {
                    assert(line[i].generated_column <= line[line.len() - 1].generated_column);
                }
            }
        } else {
            assert(mappings::is_sorted(line.drop_last()));
            lemma_columns_upto_splits(line.drop_last(), column);
            assert forall|i: int|
                super::columns_upto(line, column) <= i < line.len() implies (
            #[trigger] line[i]).generated_column > column by {
                if i < line.len() - 1 {
                    assert(line.drop_last()[i] == line[i]);
                }
            }
            assert forall|i: int| 0 <= i < super::columns_upto(line, column) implies (
            #[trigger] line[i]).generated_column <= column by {
                assert(line.drop_last()[i] == line[i]);
            }
        }
    }
}

/// Whether a group sits at the greatest mapped position, up to line `top`,
/// that does not exceed the query; no group means there is none.
pub open spec fn is_floor(
    map: BasicModel,
    query: GeneratedPosition,
    top: int,
    found: Option<GeneratedPosition>,
) -> bool {
    match found {
        None => forall|line: int, i: int|
            is_segment(map, line, i) && line <= top ==> !super::at_most(
                #[trigger] segment_position(map, line, i),
                query,
            ),
        Some(position) => {
            &&& super::at_most(position, query)
            &&& exists|line: int, i: int|
                is_segment(map, line, i) && position == #[trigger] segment_position(map, line, i)
            &&& forall|line: int, i: int|
                is_segment(map, line, i) && line <= top && super::at_most(
                    #[trigger] segment_position(map, line, i),
                    query,
                ) ==> super::at_most(segment_position(map, line, i), position)
        },
    }
}

proof fn lemma_group_from_is_floor(map: BasicModel, query: GeneratedPosition, top: int)
    requires
        super::map_is_wf(MapModel::Basic(map)),
        map.lines.len() <= 0x1_0000_0000,
        top < map.lines.len(),
        top <= query.line,
    ensures
        is_floor(
            map,
            query,
            top,
            match super::group_from(map, query, top) {
                None => None,
                Some((position, _)) => Some(position),
            },
        ),
    decreases top + 1,
{
    if top >= 0 {
        let segments = map.lines[top];
        let end = if top == query.line {
            super::columns_upto(segments, query.column) as int
        } else {
            segments.len() as int
        };
        lemma_columns_upto_splits(segments, query.column);
        if end > 0 {
            let position = segment_position(map, top, end - 1);
            assert(is_segment(map, top, end - 1));
            assert forall|line: int, i: int|
                is_segment(map, line, i) && line <= top && super::at_most(
                    #[trigger] segment_position(map, line, i),
                    query,
                ) implies super::at_most(segment_position(map, line, i), position) by {
                if line == top {
                    if i < end - 1 {
                        assert(segments[i].generated_column <= segments[end - 1].generated_column);
                    } else if i > end - 1 {
                        assert(segments[i].generated_column > query.column);
                    }
                }
            }
        } else {
            lemma_group_from_is_floor(map, query, top - 1);
            assert forall|i: int| is_segment(map, top, i) implies !super::at_most(
                #[trigger] segment_position(map, top, i),
                query,
            ) by {
                assert(segments[i].generated_column > query.column);
            }
        }
    }
}

/// A lookup in a basic map answers with the greatest mapped position that
/// does not exceed the query, and with nothing only where every mapped
/// position exceeds it.
pub proof fn law_basic_lookup_is_floor(map: BasicModel, query: GeneratedPosition)
    requires
        super::map_is_wf(MapModel::Basic(map)),
        map.lines.len() <= 0x1_0000_0000,
    ensures
        is_floor(
            map,
            query,
            map.lines.len() - 1,
            match super::basic_group(map, query) {
                None => None,
                Some((position, _)) => Some(position),
            },
        ),
{
    let top = if query.line < map.lines.len() {
        query.line as int
    } else {
        map.lines.len() - 1
    };
    lemma_group_from_is_floor(map, query, top);
}

proof fn lemma_run(map: BasicModel, line: Seq<Segment>, end: int)
    requires
        mappings::is_sorted(line),
        0 < end <= line.len(),
    ensures
        0 <= super::run_start(line, end) < end,
        forall|i: int|
            super::run_start(line, end) <= i < end ==> (#[trigger] line[i]).generated_column
                == line[end - 1].generated_column,
        forall|i: int|
            0 <= i < super::run_start(line, end) ==> (#[trigger] line[i]).generated_column
                < line[end - 1].generated_column,
    decreases end,
{
    if end >= 2 && line[end - 2].generated_column == line[end - 1].generated_column {
        lemma_run(map, line, end - 1);
    } else if end >= 2 {
        assert forall|i: int| 0 <= i < end - 1 implies (#[trigger] line[i]).generated_column
            < line[end - 1].generated_column by {
            if i < end - 2 {
                assert(line[i].generated_column <= line[end - 2].generated_column);
            }
            assert(line[end - 2].generated_column <= line[end - 1].generated_column);
        }
    }
}

/// The number of segments of a line, up to `count`, at a column that have an
/// origin.
pub open spec fn origins_at(line: Seq<Segment>, column: u32, count: int) -> nat
    decreases count,
{
    if count <= 0 {
        0
    } else {
        origins_at(line, column, count - 1) + if line[count - 1].generated_column == column
            && line[count - 1].original is Some {
            1nat
        } else {
            0
        }
    }
}

proof fn lemma_originals_count(map: BasicModel, line: Seq<Segment>, start: int, end: int, column: u32)
    requires
        0 <= start <= end <= line.len(),
        forall|i: int| start <= i < end ==> (#[trigger] line[i]).generated_column == column,
        forall|i: int| 0 <= i < start ==> (#[trigger] line[i]).generated_column != column,
    ensures
        super::originals_between(map, line, start, end).len() == origins_at(line, column, end),
    decreases end,
{
    if end > start {
        lemma_originals_count(map, line, start, end - 1, column);
    } else {
        lemma_no_origins(line, column, end);
    }
}

proof fn lemma_no_origins(line: Seq<Segment>, column: u32, end: int)
    requires
        0 <= end <= line.len(),
        forall|i: int| 0 <= i < end ==> (#[trigger] line[i]).generated_column != column,
    ensures
        origins_at(line, column, end) == 0,
    decreases end,
{
    if end > 0 {
        lemma_no_origins(line, column, end - 1);
    }
}

/// No origin is lost: a lookup at a mapped position of a basic map answers
/// with as many origins as the segments at that position hold, so positions
/// that occur twice are kept and not guessed into one.
pub proof fn law_duplicate_positions_are_kept(map: BasicModel, line: int, i: int)
    requires
        super::map_is_wf(MapModel::Basic(map)),
        map.lines.len() <= 0x1_0000_0000,
        is_segment(map, line, i),
    ensures
        super::basic_group(map, segment_position(map, line, i)) matches Some((position, origins))
            && position == segment_position(map, line, i) && origins.len() == origins_at(
            map.lines[line],
            position.column,
            map.lines[line].len() as int,
        ),
{
    let query = segment_position(map, line, i);
    let segments = map.lines[line];
    let end = super::columns_upto(segments, query.column) as int;
    lemma_columns_upto_splits(segments, query.column);
    assert(i < end);
    assert(segments[end - 1].generated_column == query.column) by {
        if i < end - 1 {
            assert(segments[i].generated_column <= segments[end - 1].generated_column);
        }
    }
    lemma_run(map, segments, end);
    lemma_originals_count(map, segments, super::run_start(segments, end), end, query.column);
    lemma_origins_stop(segments, query.column, end, segments.len() as int);
}

proof fn lemma_origins_stop(line: Seq<Segment>, column: u32, end: int, count: int)
    requires
        0 <= end <= count <= line.len(),
        forall|i: int| end <= i < line.len() ==> (#[trigger] line[i]).generated_column > column,
    ensures
        origins_at(line, column, count) == origins_at(line, column, end),
    decreases count,
{
    if count > end {
        lemma_origins_stop(line, column, end, count - 1);
    }
}

/// Through two maps a position has the origins that its origins in the outer
/// map have in the inner one: where the outer map has one origin, those are
/// all.
pub proof fn law_composition_is_nested_lookup(
    outer: MapModel,
    inner: MapModel,
    query: GeneratedPosition,
)
    requires
        super::originals_at(outer, query).len() == 1,
    ensures
        ({
            let middle = super::originals_at(outer, query)[0];
            super::composed_at(outer, inner, query) == super::originals_at(
                inner,
                GeneratedPosition { line: middle.line, column: middle.column },
            ).map_values(|position: OriginalModel| super::renamed(middle, position))
        }),
{
    let intermediate = super::originals_at(outer, query);
    assert(super::composed(intermediate, inner, 0) =~= Seq::empty());
    assert(super::composed_at(outer, inner, query) =~= super::originals_at(
        inner,
        GeneratedPosition { line: intermediate[0].line, column: intermediate[0].column },
    ).map_values(|position: OriginalModel| super::renamed(intermediate[0], position)));
}

/// A position without an origin in the outer map has none through two maps.
pub proof fn law_unmapped_positions_stay_unmapped(
    outer: MapModel,
    inner: MapModel,
    query: GeneratedPosition,
)
    requires
        super::originals_at(outer, query).len() == 0,
    ensures
        super::composed_at(outer, inner, query).len() == 0,
{
}

/// Whether a position is the origin of segment `i` of a line: the source of
/// its index under the root of the map, its line and column, and the name of
/// its index, where it has one.
pub open spec fn is_origin_of(map: BasicModel, line: int, i: int, x: OriginalModel) -> bool {
    map.lines[line][i].original matches Some(fields) && {
        &&& x.source_index == fields.source
        &&& x.source == map.sources[fields.source as int]
        &&& x.source_root == map.source_root
        &&& x.line == fields.line
        &&& x.column == fields.column
        &&& x.name_index == fields.name
        &&& fields.name matches Some(name) ==> x.name == Some(map.names[name as int])
        &&& fields.name is None ==> x.name is None
    }
}

proof fn lemma_between(
    map: BasicModel,
    line: int,
    start: int,
    end: int,
    x: OriginalModel,
)
    requires
        0 <= start <= end <= map.lines[line].len(),
    ensures
        super::originals_between(map, map.lines[line], start, end).contains(x) <==> exists|i: int|
            start <= i < end && #[trigger] is_origin_of(map, line, i, x),
    decreases end - start,
{
    if end > start {
        lemma_between(map, line, start, end - 1, x);
        let before = super::originals_between(map, map.lines[line], start, end - 1);
        let list = super::originals_between(map, map.lines[line], start, end);
        if before.contains(x) {
            let k = choose|k: int| 0 <= k < before.len() && before[k] == x;
            assert(list[k] == x);
        }
        if is_origin_of(map, line, end - 1, x) {
            assert(list[list.len() - 1] == x);
        }
        if list.contains(x) && !before.contains(x) {
            let k = choose|k: int| 0 <= k < list.len() && list[k] == x;
            if k < before.len() {
                assert(before[k] == x);
            }
            assert(is_origin_of(map, line, end - 1, x));
        }
    }
}

proof fn lemma_group_from(map: BasicModel, query: GeneratedPosition, top: int, x: OriginalModel)
    requires
        super::map_is_wf(MapModel::Basic(map)),
        map.lines.len() <= 0x1_0000_0000,
        top < map.lines.len(),
        top <= query.line,
    ensures
        super::group_from(map, query, top) matches Some((position, origins)) ==> {
            &&& position.line < map.lines.len()
            &&& origins.contains(x) <==> exists|i: int|
                0 <= i < map.lines[position.line as int].len()
                    && map.lines[position.line as int][i].generated_column == position.column
                    && #[trigger] is_origin_of(map, position.line as int, i, x)
        },
    decreases top + 1,
{
    if top >= 0 {
        let segments = map.lines[top];
        let end = if top == query.line {
            super::columns_upto(segments, query.column) as int
        } else {
            segments.len() as int
        };
        lemma_columns_upto_splits(segments, query.column);
        if end > 0 {
            let start = super::run_start(segments, end);
            lemma_run(map, segments, end);
            lemma_between(map, top, start, end, x);
            assert forall|i: int|
                0 <= i < segments.len() && (#[trigger] segments[i]).generated_column
                    == segments[end - 1].generated_column implies start <= i < end by {}
        } else {
            lemma_group_from(map, query, top - 1, x);
        }
    }
}

/// A lookup in a basic map answers with exactly the origins of the segments at
/// the position that it found.
pub proof fn law_lookups_answer_with_the_origins_there(
    map: BasicModel,
    query: GeneratedPosition,
    x: OriginalModel,
)
    requires
        super::map_is_wf(MapModel::Basic(map)),
        map.lines.len() <= 0x1_0000_0000,
    ensures
        super::basic_group(map, query) matches Some((position, origins)) ==> {
            &&& position.line < map.lines.len()
            &&& origins.contains(x) <==> exists|i: int|
                0 <= i < map.lines[position.line as int].len()
                    && map.lines[position.line as int][i].generated_column == position.column
                    && #[trigger] is_origin_of(map, position.line as int, i, x)
        },
{
    let top = if query.line < map.lines.len() {
        query.line as int
    } else {
        map.lines.len() - 1
    };
    lemma_group_from(map, query, top, x);
}

/// Whether a position is an inner origin of an outer one: the same place, and
/// the name of the inner position where it has one, else that of the outer.
pub open spec fn is_origin_through(
    middle: OriginalModel,
    inner: OriginalModel,
    x: OriginalModel,
) -> bool {
    &&& x.source == inner.source
    &&& x.source_root == inner.source_root
    &&& x.source_index == inner.source_index
    &&& x.line == inner.line
    &&& x.column == inner.column
    &&& inner.name is Some ==> x.name == inner.name && x.name_index == inner.name_index
    &&& inner.name is None ==> x.name == middle.name && x.name_index == middle.name_index
}

/// Whether a position is one that two maps lead to.
pub open spec fn is_reached(
    middles: Seq<OriginalModel>,
    inner: MapModel,
    count: int,
    x: OriginalModel,
) -> bool {
    exists|k: int, y: OriginalModel|
        0 <= k < count && super::originals_at(
            inner,
            GeneratedPosition { line: middles[k].line, column: middles[k].column },
        ).contains(y) && #[trigger] is_origin_through(middles[k], y, x)
}

proof fn lemma_composed(
    middles: Seq<OriginalModel>,
    inner: MapModel,
    count: int,
    x: OriginalModel,
)
    requires
        0 <= count <= middles.len(),
    ensures
        super::composed(middles, inner, count).contains(x) <==> is_reached(
            middles,
            inner,
            count,
            x,
        ),
    decreases count,
{
    if count > 0 {
        lemma_composed(middles, inner, count - 1, x);
        let last = middles[count - 1];
        let before = super::composed(middles, inner, count - 1);
        let found = super::originals_at(
            inner,
            GeneratedPosition { line: last.line, column: last.column },
        );
        let more = found.map_values(|position: OriginalModel| super::renamed(last, position));
        let list = super::composed(middles, inner, count);
        assert(list == before + more);
        if before.contains(x) {
            let k = choose|k: int| 0 <= k < before.len() && before[k] == x;
            assert(list[k] == x);
        }
        if is_reached(middles, inner, count, x) {
            let (k, y) = choose|k: int, y: OriginalModel|
                0 <= k < count && super::originals_at(
                    inner,
                    GeneratedPosition { line: middles[k].line, column: middles[k].column },
                ).contains(y) && #[trigger] is_origin_through(middles[k], y, x);
            if k < count - 1 {
                assert(is_reached(middles, inner, count - 1, x));
            } else {
                let m = choose|m: int| 0 <= m < found.len() && found[m] == y;
                assert(more[m] == super::renamed(last, y));
                assert(more[m] == x);
                assert(list[m + before.len()] == x);
            }
        }
        if list.contains(x) && !before.contains(x) {
            let k = choose|k: int| 0 <= k < list.len() && list[k] == x;
            if k < before.len() {
                assert(before[k] == x);
            }
            let y = found[k - before.len()];
            assert(more[k - before.len()] == super::renamed(last, y));
            assert(found.contains(y));
            assert(is_origin_through(middles[count - 1], y, x));
        }
        if before.contains(x) {
            let (k, y) = choose|k: int, y: OriginalModel|
                0 <= k < count - 1 && super::originals_at(
                    inner,
                    GeneratedPosition { line: middles[k].line, column: middles[k].column },
                ).contains(y) && #[trigger] is_origin_through(middles[k], y, x);
            assert(is_origin_through(middles[k], y, x));
        }
    }
}

/// Through two maps a position leads to exactly the inner origins of all its
/// outer ones, each named by the inner map or else by the outer one.
pub proof fn law_composition_follows_every_origin(
    outer: MapModel,
    inner: MapModel,
    query: GeneratedPosition,
    x: OriginalModel,
)
    ensures
        super::composed_at(outer, inner, query).contains(x) <==> exists|
            middle: OriginalModel,
            y: OriginalModel,
        |
            super::originals_at(outer, query).contains(middle) && super::originals_at(
                inner,
                GeneratedPosition { line: middle.line, column: middle.column },
            ).contains(y) && #[trigger] is_origin_through(middle, y, x),
{
    let middles = super::originals_at(outer, query);
    let n = middles.len() as int;
    lemma_composed(middles, inner, n, x);
    if is_reached(middles, inner, n, x) {
        let (k, y) = choose|k: int, y: OriginalModel|
            0 <= k < n && super::originals_at(
                inner,
                GeneratedPosition { line: middles[k].line, column: middles[k].column },
            ).contains(y) && #[trigger] is_origin_through(middles[k], y, x);
        assert(middles.contains(middles[k]));
    }
    if exists|middle: OriginalModel, y: OriginalModel|
        middles.contains(middle) && super::originals_at(
            inner,
            GeneratedPosition { line: middle.line, column: middle.column },
        ).contains(y) && #[trigger] is_origin_through(middle, y, x) {
        let (middle, y) = choose|middle: OriginalModel, y: OriginalModel|
            middles.contains(middle) && super::originals_at(
                inner,
                GeneratedPosition { line: middle.line, column: middle.column },
            ).contains(y) && #[trigger] is_origin_through(middle, y, x);
        let k = choose|k: int| 0 <= k < n && middles[k] == middle;
        assert(is_origin_through(middles[k], y, x));
    }
}

/// Whether a position of a section is a position of the whole map: it is moved
/// by the offset of the section, whose column counts on the first line of the
/// section alone.
pub open spec fn is_moved_by(
    offset: GeneratedPosition,
    local: GeneratedPosition,
    whole: GeneratedPosition,
) -> bool {
    &&& whole.line == offset.line + local.line
    &&& local.line == 0 ==> whole.column == offset.column + local.column
    &&& local.line > 0 ==> whole.column == local.column
}

/// A position moves into a section and out of it again by the offset of the
/// section, and does not move in exactly where it lies ahead of the offset.
/// Moving keeps positions in order.
pub proof fn law_sections_move_by_their_offset(
    offset: GeneratedPosition,
    one: GeneratedPosition,
    other: GeneratedPosition,
)
    ensures
        match super::into_section(offset, one) {
            Some(local) => is_moved_by(offset, local, one) && super::out_of_section(offset, local)
                == Ok::<GeneratedPosition, super::SourceMapError>(one),
            None => super::at_most(one, offset) && one != offset,
        },
        super::out_of_section(offset, one) matches Ok(whole) ==> is_moved_by(offset, one, whole)
            && super::into_section(offset, whole) == Some(one),
        super::out_of_section(offset, one) is Err <==> offset.line + one.line > u32::MAX || (
        one.line == 0 && offset.column + one.column > u32::MAX),
        super::out_of_section(offset, one) matches Ok(a) ==> (super::out_of_section(offset, other)
            matches Ok(b) ==> (super::at_most(one, other) <==> super::at_most(a, b))),
{
}

} // verus!
