//! Byte offsets of a text as Source Map v3 positions.

use vstd::prelude::*;
use vstd::string::*;
use vstd::utf8::*;

use super::{GeneratedPosition, SourceMapError};
use crate::order::stable_order;
use crate::text::utf8_width;
use crate::{order, text};

verus! {

/// A place in a text: its line and UTF-16 column, and whether the character
/// before it is a carriage return.
#[derive(Debug, Clone, Copy, PartialEq, Eq, Structural)]
pub struct TextPoint {
    pub line: u32,
    pub column: u32,
    pub after_cr: bool,
}

/// The place behind one more character. Carriage return, line feed, the two
/// together, and the Unicode line and paragraph separators end a line.
pub open spec fn point_after(point: TextPoint, c: char) -> Result<TextPoint, SourceMapError> {
    if c == '\n' && point.after_cr {
        Ok(TextPoint { after_cr: false, ..point })
    } else if c == '\r' || c == '\n' || c == '\u{2028}' || c == '\u{2029}' {
        if point.line == u32::MAX {
            Err(SourceMapError::LineOverflow)
        } else {
            Ok(TextPoint { line: (point.line + 1) as u32, column: 0, after_cr: c == '\r' })
        }
    } else {
        let width: int = if c as u32 >= 0x10000 {
            2
        } else {
            1
        };
        if point.column + width > u32::MAX {
            Err(SourceMapError::ColumnOverflow)
        } else {
            Ok(
                TextPoint {
                    line: point.line,
                    column: (point.column + width) as u32,
                    after_cr: false,
                },
            )
        }
    }
}

/// The place behind the first `count` characters.
pub open spec fn point_at(source: Seq<char>, count: int) -> Result<TextPoint, SourceMapError>
    decreases count,
{
    if count <= 0 {
        Ok(TextPoint { line: 0, column: 0, after_cr: false })
    } else {
        match point_at(source, count - 1) {
            Err(error) => Err(error),
            Ok(point) => point_after(point, source[count - 1]),
        }
    }
}

/// Whether an offset lies inside one of the first `count` characters.
pub open spec fn some_inside(source: Seq<char>, offsets: Seq<u64>, count: int) -> bool {
    exists|i: int|
        0 <= i < offsets.len() && #[trigger] offsets[i] < text::bytes_before(source, count)
            && !is_char_boundary(encode_utf8(source), offsets[i] as int)
}

/// What stops a reading of the text from character `count` on: an offset
/// inside a character already read, or a character that no place is left for.
pub open spec fn stop_from(source: Seq<char>, offsets: Seq<u64>, count: int) -> Option<
    SourceMapError,
>
    decreases source.len() - count,
{
    if some_inside(source, offsets, count) {
        Some(SourceMapError::OffsetInsideCharacter)
    } else if count >= source.len() {
        None
    } else {
        match point_at(source, count + 1) {
            Err(error) => Some(error),
            Ok(_) => stop_from(source, offsets, count + 1),
        }
    }
}

/// Whether an offset lies behind the end of the text.
pub open spec fn some_beyond(source: Seq<char>, offsets: Seq<u64>) -> bool {
    exists|i: int|
        0 <= i < offsets.len() && #[trigger] offsets[i] > encode_utf8(source).len()
}

/// The position of a byte offset.
pub open spec fn position_of(source: Seq<char>, offset: u64) -> GeneratedPosition {
    let point = point_at(source, text::chars_before(source, offset as int) as int)->Ok_0;
    GeneratedPosition { line: point.line, column: point.column }
}

fn advance(point: TextPoint, c: char) -> (r: Result<TextPoint, SourceMapError>)
    ensures
        r == point_after(point, c),
{
    if c == '\n' && point.after_cr {
        return Ok(TextPoint { line: point.line, column: point.column, after_cr: false });
    }
    if c == '\r' || c == '\n' || c == '\u{2028}' || c == '\u{2029}' {
        return match point.line.checked_add(1) {
            None => Err(SourceMapError::LineOverflow),
            Some(line) => Ok(TextPoint { line, column: 0, after_cr: c == '\r' }),
        };
    }
    let width: u32 = if c as u32 >= 0x10000 {
        2
    } else {
        1
    };
    match point.column.checked_add(width) {
        None => Err(SourceMapError::ColumnOverflow),
        Some(column) => Ok(TextPoint { line: point.line, column, after_cr: false }),
    }
}

proof fn lemma_remaining_order(offsets: Seq<u64>, order: Seq<usize>, next: int)
    requires
        order::is_stable_order(offsets, 0, offsets.len() as int, order),
        0 <= next <= order.len(),
    ensures
        forall|k: int|
            next <= k < order.len() ==> offsets[order[next] as int]
                <= offsets[#[trigger] order[k] as int],
{
    assert forall|k: int| next <= k < order.len() implies offsets[order[next] as int]
        <= offsets[#[trigger] order[k] as int] by {
        if k > next {
            assert(order::comes_before(offsets, order[next] as int, order[k] as int));
        }
    }
}

proof fn lemma_offset_inside(source: Seq<char>, offsets: Seq<u64>, count: int, row: int)
    requires
        0 <= count <= source.len(),
        0 <= row < offsets.len(),
        offsets[row] <= encode_utf8(source).len(),
        offsets[row] < text::bytes_before(source, count),
        count > 0 ==> offsets[row] > text::bytes_before(source, count - 1),
    ensures
        some_inside(source, offsets, count),
{
    let offset = offsets[row] as int;
    if count == 0 {
        assert(source.take(0) =~= Seq::empty());
    }
    if is_char_boundary(encode_utf8(source), offset) {
        text::lemma_boundary_is_prefix(source, offset);
        let m = text::chars_before(source, offset) as int;
        if m <= count - 1 {
            text::lemma_bytes_before_monotone(source, m, count - 1);
        } else {
            text::lemma_bytes_before_monotone(source, count, m);
        }
    }
}

/// Converts byte offsets, sorted or not, to Source Map v3 positions in one
/// pass over the text.
pub fn positions_for_byte_offsets(source: &str, offsets: &[u64]) -> (r: Result<
    Vec<GeneratedPosition>,
    SourceMapError,
>)
    ensures
        some_beyond(source@, offsets@) ==> r == Err::<Vec<GeneratedPosition>, SourceMapError>(
            SourceMapError::OffsetBeyondSource,
        ),
        !some_beyond(source@, offsets@) ==> match (r, stop_from(source@, offsets@, 0)) {
            (Ok(positions), None) => {
                &&& positions@.len() == offsets@.len()
                &&& forall|i: int|
                    0 <= i < offsets@.len() ==> #[trigger] positions@[i] == position_of(
                        source@,
                        offsets@[i],
                    )
            },
            (Err(a), Some(b)) => a == b,
            _ => false,
        },
{
    let length = source.as_bytes().len();
    let mut requested: Vec<u64> = Vec::new();
    let mut output: Vec<GeneratedPosition> = Vec::new();
    let mut i: usize = 0;
    while i < offsets.len()
        invariant
            i <= offsets@.len(),
            length == encode_utf8(source@).len(),
            requested@ == offsets@.take(i as int),
            output@.len() == i,
            forall|j: int| 0 <= j < i ==> #[trigger] offsets@[j] <= length,
        decreases offsets@.len() - i,
    {
        if offsets[i] > length as u64 {
            return Err(SourceMapError::OffsetBeyondSource);
        }
        requested.push(offsets[i]);
        output.push(GeneratedPosition { line: 0, column: 0 });
        i += 1;
        assert(requested@ =~= offsets@.take(i as int));
    }
    assert(requested@ =~= offsets@);
    let order = stable_order(&requested);
    proof {
        order::lemma_stable_order_is_complete(requested@, 0, requested@.len() as int, order@);
        assert(source@.take(0) =~= Seq::empty());
    }
    let mut next: usize = 0;
    let mut point = TextPoint { line: 0, column: 0, after_cr: false };
    let mut byte_offset: usize = 0;
    let ghost mut count: int = 0;
    let mut characters = source.chars();
    loop
        invariant
            length == encode_utf8(source@).len(),
            requested@ == offsets@,
            output@.len() == offsets@.len(),
            forall|j: int| 0 <= j < offsets@.len() ==> #[trigger] offsets@[j] <= length,
            order::is_stable_order(offsets@, 0, offsets@.len() as int, order@),
            next <= order@.len(),
            0 <= count <= source@.len(),
            vstd::std_specs::iter::IteratorSpec::remaining(&characters) == source@.skip(count),
            vstd::std_specs::iter::IteratorSpec::obeys_prophetic_iter_laws(&characters),
            byte_offset == text::bytes_before(source@, count),
            byte_offset <= length,
            point_at(source@, count) == Ok::<TextPoint, SourceMapError>(point),
            stop_from(source@, offsets@, 0) == stop_from(source@, offsets@, count),
            forall|k: int| 0 <= k < next ==> offsets@[#[trigger] order@[k] as int] < byte_offset,
            forall|k: int|
                0 <= k < next ==> output@[#[trigger] order@[k] as int] == position_of(
                    source@,
                    offsets@[order@[k] as int],
                ),
            forall|k: int|
                0 <= k < next ==> is_char_boundary(
                    encode_utf8(source@),
                    offsets@[#[trigger] order@[k] as int] as int,
                ),
            next < order@.len() && count > 0 ==> offsets@[order@[next as int] as int]
                > text::bytes_before(source@, count - 1),
            forall|j: int| 0 <= j < offsets@.len() ==> #[trigger] order@.contains(j as usize),
            order@.no_duplicates(),
        decreases source@.len() - count,
    {
        proof {
            text::lemma_bytes_before_bound(source@, count);
        }
        while next < order.len() && requested[order[next]] == byte_offset as u64
            invariant
                length == encode_utf8(source@).len(),
                requested@ == offsets@,
                output@.len() == offsets@.len(),
                order::is_stable_order(offsets@, 0, offsets@.len() as int, order@),
                order@.no_duplicates(),
                next <= order@.len(),
                0 <= count <= source@.len(),
                byte_offset == text::bytes_before(source@, count),
                text::chars_before(source@, byte_offset as int) == count,
                is_char_boundary(encode_utf8(source@), byte_offset as int),
                point_at(source@, count) == Ok::<TextPoint, SourceMapError>(point),
                forall|k: int|
                    0 <= k < next ==> offsets@[#[trigger] order@[k] as int] <= byte_offset,
                forall|k: int|
                    0 <= k < next ==> output@[#[trigger] order@[k] as int] == position_of(
                        source@,
                        offsets@[order@[k] as int],
                    ),
                forall|k: int|
                    0 <= k < next ==> is_char_boundary(
                        encode_utf8(source@),
                        offsets@[#[trigger] order@[k] as int] as int,
                    ),
                next < order@.len() && count > 0 ==> offsets@[order@[next as int] as int]
                    > text::bytes_before(source@, count - 1),
            decreases order@.len() - next,
        {
            let row: usize = order[next];
            output.set(row, GeneratedPosition { line: point.line, column: point.column });
            proof {
                if next + 1 < order@.len() {
                    assert(order::comes_before(
                        offsets@,
                        order@[next as int] as int,
                        order@[next + 1] as int,
                    ));
                }
            }
            next += 1;
        }
        proof {
            lemma_remaining_order(offsets@, order@, next as int);
        }
        if next < order.len() && requested[order[next]] < byte_offset as u64 {
            proof {
                lemma_offset_inside(source@, offsets@, count, order@[next as int] as int);
            }
            return Err(SourceMapError::OffsetInsideCharacter);
        }
        assert(!some_inside(source@, offsets@, count)) by {
            assert forall|j: int| 0 <= j < offsets@.len() && #[trigger] offsets@[j]
                < text::bytes_before(source@, count) implies is_char_boundary(
                encode_utf8(source@),
                offsets@[j] as int,
            ) by {
                assert(order@.contains(j as usize));
                let k = choose|k: int| 0 <= k < order@.len() && order@[k] == j as usize;
                if k >= next {
                    assert(offsets@[order@[next as int] as int] <= offsets@[order@[k] as int]);
                }
            }
        }
        let c = match characters.next() {
            None => {
                proof {
                    assert(source@.skip(count).len() == 0);
                    assert(source@.take(count) =~= source@);
                    assert(next == order@.len());
                    assert forall|j: int| 0 <= j < offsets@.len() implies #[trigger] output@[j]
                        == position_of(source@, offsets@[j]) by {
                        assert(order@.contains(j as usize));
                        let k = choose|k: int| 0 <= k < order@.len() && order@[k] == j as usize;
                        assert(output@[order@[k] as int] == position_of(
                            source@,
                            offsets@[order@[k] as int],
                        ));
                    }
                }
                return Ok(output);
            },
            Some(c) => c,
        };
        assert(c == source@[count]);
        assert(point_at(source@, count + 1) == point_after(point, c));
        point = match advance(point, c) {
            Err(error) => {
                return Err(error);
            },
            Ok(point) => point,
        };
        proof {
            text::lemma_bytes_before_step(source@, count);
        }
        byte_offset += utf8_width(c);
        proof {
            count = count + 1;
        }
        assert(source@.skip(count - 1).drop_first() =~= source@.skip(count));
    }
}

/// Whether a line ends with a character: with a carriage return, a line feed
/// that follows none, or a line or paragraph separator.
pub open spec fn ends_a_line(source: Seq<char>, i: int) -> bool {
    ||| source[i] == '\r'
    ||| source[i] == '\n' && !(i > 0 && source[i - 1] == '\r')
    ||| source[i] == '\u{2028}'
    ||| source[i] == '\u{2029}'
}

/// How many lines end among the first `count` characters.
pub open spec fn lines_ended(source: Seq<char>, count: int) -> nat
    decreases count,
{
    if count <= 0 {
        0
    } else if ends_a_line(source, count - 1) {
        lines_ended(source, count - 1) + 1
    } else {
        lines_ended(source, count - 1)
    }
}

/// How many UTF-16 units the characters from `start` to `end` take: two for
/// those outside of the basic plane, one for others, none for the line feed
/// behind a carriage return.
pub open spec fn units_between(source: Seq<char>, start: int, end: int) -> nat
    decreases end - start,
{
    if end <= start {
        0
    } else {
        units_between(source, start, end - 1) + if source[end - 1] == '\n' {
            0nat
        } else if (source[end - 1] as u32) < 65536 {
            1
        } else {
            2
        }
    }
}

/// Whether the line of a place starts at a character.
pub open spec fn starts_line_of(source: Seq<char>, start: int, count: int) -> bool {
    &&& 0 <= start <= count
    &&& start == 0 || ends_a_line(source, start - 1)
    &&& forall|i: int| start <= i < count ==> !#[trigger] ends_a_line(source, i)
}

/// The line of a place is how many lines end ahead of it, and its column is
/// how many UTF-16 units of its line stand ahead of it.
pub proof fn law_positions_count_lines_and_units(source: Seq<char>, count: int)
    requires
        0 <= count <= source.len(),
    ensures
        point_at(source, count) matches Ok(point) ==> {
            &&& point.line == lines_ended(source, count)
            &&& point.after_cr <==> count > 0 && source[count - 1] == '\r'
            &&& exists|start: int| #[trigger]
                starts_line_of(source, start, count) && point.column == units_between(
                    source,
                    start,
                    count,
                )
        },
    decreases count,
{
    if count == 0 {
        assert(starts_line_of(source, 0, 0));
    } else {
        law_positions_count_lines_and_units(source, count - 1);
        if point_at(source, count) is Ok {
            if ends_a_line(source, count - 1) {
                assert(starts_line_of(source, count, count));
            } else {
                let before = point_at(source, count - 1)->Ok_0;
                let start = choose|start: int| #[trigger]
                    starts_line_of(source, start, count - 1) && before.column == units_between(
                        source,
                        start,
                        count - 1,
                    );
                let after = point_at(source, count)->Ok_0;
                assert(starts_line_of(source, start, count));
                assert(after.column == units_between(source, start, count));
            }
        }
    }
}

} // verus!
