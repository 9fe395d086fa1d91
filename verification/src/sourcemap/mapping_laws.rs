//! What the numbers of a `mappings` text mean: each value is relative to the
//! one before it, and the generated column starts anew on each line.

use vstd::prelude::*;

use super::mappings::{LineState, MappingsState, OriginalFields, ParseBudget, Reached, Segment};
use super::{SourceMapError, SourceMapLimits};

use super::{mappings, vlq};

verus! {

/// The base64 character of a number below 64.
pub open spec fn base64_of(digit: int) -> u8 {
    if digit < 26 {
        (0x41 + digit) as u8
    } else if digit < 52 {
        (0x61 + digit - 26) as u8
    } else if digit < 62 {
        (0x30 + digit - 52) as u8
    } else if digit == 62 {
        0x2b
    } else {
        0x2f
    }
}

/// The digits of a number, five bits each, the least significant first; all
/// but the last carry a sixth bit.
pub open spec fn digits_of(number: int) -> Seq<u8>
    decreases number,
{
    if number < 32 {
        seq![base64_of(number)]
    } else {
        seq![base64_of(32 + number % 32)] + digits_of(number / 32)
    }
}

/// A signed value as a number whose lowest bit is the sign. The smallest value
/// of 32 bits stands as a negative zero.
pub open spec fn with_sign(value: i64) -> int {
    if value >= 0 {
        2 * value
    } else if value == -0x8000_0000 {
        1
    } else {
        -2 * value + 1
    }
}

/// The values of a segment from `k` on, written one behind another.
pub open spec fn values_text(values: Seq<i64>, k: int) -> Seq<u8>
    decreases values.len() - k,
{
    if k < 0 || k >= values.len() {
        Seq::empty()
    } else {
        digits_of(with_sign(values[k])) + values_text(values, k + 1)
    }
}

/// The segments of a line from `k` on, with commas between them.
pub open spec fn line_text(line: Seq<Seq<i64>>, k: int) -> Seq<u8>
    decreases line.len() - k,
{
    if k < 0 || k >= line.len() {
        Seq::empty()
    } else if k + 1 == line.len() {
        values_text(line[k], 0)
    } else {
        values_text(line[k], 0) + seq![0x2cu8] + line_text(line, k + 1)
    }
}

/// Lines from `k` on, with semicolons between them.
pub open spec fn lines_text(lines: Seq<Seq<Seq<i64>>>, k: int) -> Seq<u8>
    decreases lines.len() - k,
{
    if k < 0 || k >= lines.len() {
        Seq::empty()
    } else if k + 1 == lines.len() {
        line_text(lines[k], 0)
    } else {
        line_text(lines[k], 0) + seq![0x3bu8] + lines_text(lines, k + 1)
    }
}

/// The sum of a field over the first `count` segments of a line that have it.
pub open spec fn sum_on_line(line: Seq<Seq<i64>>, field: int, count: int) -> int
    decreases count,
{
    if count <= 0 {
        0
    } else {
        sum_on_line(line, field, count - 1) + if field < line[count - 1].len() {
            line[count - 1][field] as int
        } else {
            0
        }
    }
}

/// The sum of a field over all segments of the first `count` lines.
pub open spec fn sum_on_lines(lines: Seq<Seq<Seq<i64>>>, field: int, count: int) -> int
    decreases count,
{
    if count <= 0 {
        0
    } else {
        sum_on_lines(lines, field, count - 1) + sum_on_line(
            lines[count - 1],
            field,
            lines[count - 1].len() as int,
        )
    }
}

/// The sum of a field over all segments up to a segment of a line, across
/// lines.
pub open spec fn running_sum(lines: Seq<Seq<Seq<i64>>>, field: int, i: int, j: int) -> int {
    sum_on_lines(lines, field, i) + sum_on_line(lines[i], field, j + 1)
}

/// What a segment means: its generated column is the sum of the first fields
/// on its line, and its origin holds the sums of the other fields over the
/// whole text so far.
pub open spec fn segment_at(lines: Seq<Seq<Seq<i64>>>, i: int, j: int) -> Segment {
    Segment {
        generated_column: sum_on_line(lines[i], 0, j + 1) as u32,
        original: if lines[i][j].len() == 1 {
            None
        } else {
            Some(
                OriginalFields {
                    source: running_sum(lines, 1, i, j) as u32,
                    line: running_sum(lines, 2, i, j) as u32,
                    column: running_sum(lines, 3, i, j) as u32,
                    name: if lines[i][j].len() == 5 {
                        Some(running_sum(lines, 4, i, j) as u32)
                    } else {
                        None
                    },
                },
            )
        },
    }
}

/// Whether a segment has one, four or five fields, its sums are in range, and
/// its source and name exist.
pub open spec fn is_in_range(
    lines: Seq<Seq<Seq<i64>>>,
    i: int,
    j: int,
    source_count: int,
    name_count: int,
) -> bool {
    let count = lines[i][j].len();
    &&& count == 1 || count == 4 || count == 5
    &&& 0 <= sum_on_line(lines[i], 0, j + 1) <= u32::MAX
    &&& count > 1 ==> {
        &&& 0 <= running_sum(lines, 1, i, j) <= u32::MAX
        &&& running_sum(lines, 1, i, j) < source_count
        &&& 0 <= running_sum(lines, 2, i, j) <= u32::MAX
        &&& 0 <= running_sum(lines, 3, i, j) <= u32::MAX
    }
    &&& count == 5 ==> 0 <= running_sum(lines, 4, i, j) <= u32::MAX && running_sum(lines, 4, i, j)
        < name_count
}

/// The number of segments on the first `count` lines.
pub open spec fn segments_upto(lines: Seq<Seq<Seq<i64>>>, count: int) -> int
    decreases count,
{
    if count <= 0 {
        0
    } else {
        segments_upto(lines, count - 1) + lines[count - 1].len()
    }
}

/// Whether every segment has a value, and every value fits in 32 bits.
pub open spec fn values_fit(lines: Seq<Seq<Seq<i64>>>) -> bool {
    forall|i: int, j: int|
        #![trigger lines[i][j]]
        0 <= i < lines.len() && 0 <= j < lines[i].len() ==> lines[i][j].len() > 0
            && vlq::are_32_bit(lines[i][j])
}

proof fn lemma_base64(digit: int)
    requires
        0 <= digit < 64,
    ensures
        vlq::base64_digit(base64_of(digit)) == Some(digit),
        base64_of(digit) != 0x2c,
        base64_of(digit) != 0x3b,
{
}

proof fn lemma_digits(number: int)
    requires
        0 <= number,
    ensures
        digits_of(number).len() > 0,
        forall|k: int|
            0 <= k < digits_of(number).len() ==> (#[trigger] digits_of(number)[k]) != 0x2c
                && digits_of(number)[k] != 0x3b,
    decreases number,
{
    if number >= 32 {
        lemma_digits(number / 32);
        lemma_base64(32 + number % 32);
    } else {
        lemma_base64(number);
    }
}

proof fn lemma_payload(bytes: Seq<u8>, pos: int, payload: int, scale: int, number: int)
    requires
        0 <= pos,
        0 <= number,
        1 <= scale,
        number * scale < 0x1_0000_0000,
        pos + digits_of(number).len() <= bytes.len(),
        bytes.subrange(pos, pos + digits_of(number).len()) == digits_of(number),
    ensures
        vlq::payload_from(bytes, pos, payload, scale) == Ok::<(int, int), SourceMapError>(
            (payload + number * scale, pos + digits_of(number).len()),
        ),
    decreases number,
{
    let digits = digits_of(number);
    lemma_digits(number);
    let part = bytes.subrange(pos, pos + digits.len());
    assert(part[0] == bytes[pos]);
    if number < 32 {
        lemma_base64(number);
        assert(digits[0] == base64_of(number));
        assert(number % 32 == number);
    } else {
        let rest = number / 32;
        let low = number % 32;
        lemma_base64(32 + low);
        lemma_digits(rest);
        assert(digits[0] == base64_of(32 + low));
        assert((32 + low) % 32 == low);
        assert(number * scale == low * scale + rest * (scale * 32)) by (nonlinear_arith)
            requires
                number == rest * 32 + low,
        ;
        assert(scale * 32 <= number * scale) by (nonlinear_arith)
            requires
                number >= 32,
                scale >= 1,
        ;
        assert(low * scale >= 0) by (nonlinear_arith)
            requires
                low >= 0,
                scale >= 1,
        ;
        assert(digits.len() == 1 + digits_of(rest).len());
        assert(bytes.subrange(pos + 1, pos + 1 + digits_of(rest).len()) =~= digits_of(rest)) by {
            assert forall|k: int| 0 <= k < digits_of(rest).len() implies bytes[pos + 1 + k]
                == digits_of(rest)[k] by {
                assert(part[k + 1] == digits[k + 1]);
            }
        }
        lemma_payload(bytes, pos + 1, payload + low * scale, scale * 32, rest);
    }
}

proof fn lemma_values(bytes: Seq<u8>, pos: int, values: Seq<i64>, k: int)
    requires
        0 <= k <= values.len(),
        0 <= pos <= bytes.len(),
        vlq::are_32_bit(values),
        bytes.skip(pos) == values_text(values, k),
    ensures
        vlq::fields_from(bytes, pos, values.take(k)) == Ok::<Seq<i64>, SourceMapError>(values),
    decreases values.len() - k,
{
    if k == values.len() {
        assert(bytes.skip(pos).len() == 0);
        assert(values.take(k) =~= values);
    } else {
        let value = values[k];
        let number = with_sign(value);
        let digits = digits_of(number);
        let rest = values_text(values, k + 1);
        assert(-0x8000_0000 <= value <= 0x7fff_ffff);
        lemma_digits(number);
        assert(bytes.skip(pos).len() == digits.len() + rest.len());
        assert(bytes.subrange(pos, pos + digits.len()) =~= digits) by {
            assert forall|j: int| 0 <= j < digits.len() implies bytes[pos + j] == digits[j] by {
                assert(bytes.skip(pos)[j] == (digits + rest)[j]);
            }
        }
        assert(number * 1 == number);
        lemma_payload(bytes, pos, 0, 1, number);
        let next = pos + digits.len();
        assert(bytes.skip(next) =~= rest) by {
            assert forall|j: int| 0 <= j < rest.len() implies bytes[next + j] == rest[j] by {
                assert(bytes.skip(pos)[digits.len() + j] == (digits + rest)[digits.len() + j]);
            }
        }
        assert(vlq::signed_value(number) == Ok::<i64, SourceMapError>(value));
        assert(values.take(k).push(value) =~= values.take(k + 1));
        lemma_values(bytes, next, values, k + 1);
    }
}

proof fn lemma_values_text(values: Seq<i64>, k: int)
    requires
        0 <= k <= values.len(),
    ensures
        k < values.len() ==> values_text(values, k).len() > 0,
        forall|j: int|
            0 <= j < values_text(values, k).len() ==> (#[trigger] values_text(values, k)[j]) != 0x2c
                && values_text(values, k)[j] != 0x3b,
    decreases values.len() - k,
{
    if k < values.len() {
        let digits = digits_of(with_sign(values[k]));
        let rest = values_text(values, k + 1);
        let whole = values_text(values, k);
        lemma_digits(with_sign(values[k]));
        lemma_values_text(values, k + 1);
        assert forall|j: int| 0 <= j < whole.len() implies (#[trigger] whole[j]) != 0x2c && whole[j]
            != 0x3b by {
            if j < digits.len() {
                assert(whole[j] == digits[j]);
            } else {
                assert(whole[j] == rest[j - digits.len()]);
            }
        }
    }
}

proof fn lemma_line_text(line: Seq<Seq<i64>>, k: int)
    requires
        0 <= k <= line.len(),
        forall|j: int| 0 <= j < line.len() ==> (#[trigger] line[j]).len() > 0,
    ensures
        k < line.len() ==> line_text(line, k).len() > 0,
        forall|j: int|
            0 <= j < line_text(line, k).len() ==> (#[trigger] line_text(line, k)[j]) != 0x3b,
    decreases line.len() - k,
{
    if k < line.len() {
        lemma_values_text(line[k], 0);
        lemma_line_text(line, k + 1);
    }
}

proof fn lemma_separator(text: Seq<u8>, from: int, stop: int, end: int, separator: u8)
    requires
        0 <= from <= stop <= end <= text.len(),
        forall|k: int| from <= k < stop ==> (#[trigger] text[k]) != separator,
        stop == end || text[stop] == separator,
    ensures
        mappings::separator_at(text, from, end, separator) == stop,
    decreases stop - from,
{
    if from < stop {
        lemma_separator(text, from + 1, stop, end, separator);
    }
}

/// The first `count` segments of a line, put in by column.
spec fn inserted(lines: Seq<Seq<Seq<i64>>>, i: int, count: int) -> Seq<Segment>
    decreases count,
{
    if count <= 0 {
        Seq::empty()
    } else {
        mappings::insert_by_column(inserted(lines, i, count - 1), segment_at(lines, i, count - 1))
    }
}

/// Whether the values reached are the sums over what comes before a segment.
spec fn is_reached(reached: Reached, lines: Seq<Seq<Seq<i64>>>, i: int, j: int) -> bool {
    &&& reached.source == sum_on_lines(lines, 1, i) + sum_on_line(lines[i], 1, j)
    &&& reached.line == sum_on_lines(lines, 2, i) + sum_on_line(lines[i], 2, j)
    &&& reached.column == sum_on_lines(lines, 3, i) + sum_on_line(lines[i], 3, j)
    &&& reached.name == sum_on_lines(lines, 4, i) + sum_on_line(lines[i], 4, j)
}

spec fn line_in_range(
    lines: Seq<Seq<Seq<i64>>>,
    i: int,
    from: int,
    source_count: int,
    name_count: int,
) -> bool {
    forall|j: int|
        from <= j < lines[i].len() ==> #[trigger] is_in_range(lines, i, j, source_count, name_count)
}

proof fn lemma_segment(
    lines: Seq<Seq<Seq<i64>>>,
    i: int,
    j: int,
    reached: Reached,
    generated: u32,
    source_count: int,
    name_count: int,
)
    requires
        0 <= i < lines.len(),
        0 <= j < lines[i].len(),
        values_fit(lines),
        is_reached(reached, lines, i, j),
        generated == sum_on_line(lines[i], 0, j),
    ensures
        match mappings::segment_of(lines[i][j], reached, generated, source_count, name_count) {
            Ok((segment, next)) => is_in_range(lines, i, j, source_count, name_count) && segment
                == segment_at(lines, i, j) && is_reached(next, lines, i, j + 1)
                && segment.generated_column == sum_on_line(lines[i], 0, j + 1),
            Err(_) => !is_in_range(lines, i, j, source_count, name_count),
        },
{
    let fields = lines[i][j];
    assert(fields.len() > 0 && vlq::are_32_bit(fields));
    assert(sum_on_line(lines[i], 0, j + 1) == sum_on_line(lines[i], 0, j) + fields[0]);
    if fields.len() == 4 || fields.len() == 5 {
        assert(running_sum(lines, 1, i, j) == reached.source + fields[1]);
        assert(running_sum(lines, 2, i, j) == reached.line + fields[2]);
        assert(running_sum(lines, 3, i, j) == reached.column + fields[3]);
        if fields.len() == 5 {
            assert(running_sum(lines, 4, i, j) == reached.name + fields[4]);
        }
    }
}

proof fn lemma_line(
    text: Seq<u8>,
    pos: int,
    end: int,
    lines: Seq<Seq<Seq<i64>>>,
    i: int,
    j: int,
    source_count: int,
    name_count: int,
    max_segments: usize,
    state: LineState,
)
    requires
        0 <= i < lines.len(),
        0 <= j < lines[i].len(),
        values_fit(lines),
        0 <= pos <= end <= text.len(),
        text.subrange(pos, end) == line_text(lines[i], j),
        is_reached(state.reached, lines, i, j),
        state.generated == sum_on_line(lines[i], 0, j),
        state.segments == inserted(lines, i, j),
    ensures
        match mappings::read_line(
            text,
            pos,
            end,
            source_count,
            name_count,
            max_segments as int,
            state,
        ) {
            Ok(after) => {
                &&& line_in_range(lines, i, j, source_count, name_count)
                &&& is_reached(after.reached, lines, i, lines[i].len() as int)
                &&& after.segments == inserted(lines, i, lines[i].len() as int)
                &&& after.used == state.used + (lines[i].len() - j)
                &&& after.used <= max_segments
            },
            Err(_) => !line_in_range(lines, i, j, source_count, name_count) || state.used + (
            lines[i].len() - j) > max_segments,
        },
    decreases lines[i].len() - j,
{
    let line = lines[i];
    let fields = line[j];
    assert(lines[i][j].len() > 0 && vlq::are_32_bit(lines[i][j]));
    assert forall|m: int| 0 <= m < line.len() implies (#[trigger] line[m]).len() > 0 by {
        assert(lines[i][m].len() > 0);
    }
    let own = values_text(fields, 0);
    lemma_values_text(fields, 0);
    let whole = text.subrange(pos, end);
    let stop = pos + own.len();
    assert(whole.len() == line_text(line, j).len());
    assert forall|k: int| 0 <= k < own.len() implies text[pos + k] == own[k] by {
        assert(whole[k] == line_text(line, j)[k]);
    }
    assert forall|k: int| pos <= k < stop implies (#[trigger] text[k]) != 0x2c by {
        assert(text[pos + (k - pos)] == own[k - pos]);
    }
    if j + 1 < line.len() {
        assert(whole[own.len() as int] == line_text(line, j)[own.len() as int]);
        assert(text[stop] == 0x2c);
    }
    lemma_separator(text, pos, stop, end, 0x2c);
    let bytes = text.subrange(pos, stop);
    assert(bytes =~= own);
    assert(bytes.skip(0) =~= own);
    assert(fields.take(0) =~= Seq::<i64>::empty());
    lemma_values(bytes, 0, fields, 0);
    lemma_segment(lines, i, j, state.reached, state.generated, source_count, name_count);
    if state.used + 1 <= max_segments {
        if let Ok((segment, reached)) = mappings::segment_of(
            fields,
            state.reached,
            state.generated,
            source_count,
            name_count,
        ) {
            let next = LineState {
                reached,
                generated: segment.generated_column,
                used: (state.used + 1) as usize,
                segments: mappings::insert_by_column(state.segments, segment),
            };
            assert(inserted(lines, i, j + 1) == next.segments);
            if j + 1 < line.len() {
                let rest = line_text(line, j + 1);
                lemma_line_text(line, j + 1);
                assert(text.subrange(stop + 1, end) =~= rest) by {
                    assert forall|k: int| 0 <= k < rest.len() implies text[stop + 1 + k]
                        == rest[k] by {
                        assert(whole[own.len() + 1 + k] == line_text(line, j)[own.len() + 1 + k]);
                    }
                }
                lemma_line(
                    text,
                    stop + 1,
                    end,
                    lines,
                    i,
                    j + 1,
                    source_count,
                    name_count,
                    max_segments,
                    next,
                );
            } else {
                assert(stop == end);
            }
        } else {
            assert(!is_in_range(lines, i, j, source_count, name_count));
        }
    }
}

spec fn all_in_range(
    lines: Seq<Seq<Seq<i64>>>,
    from: int,
    source_count: int,
    name_count: int,
) -> bool {
    forall|i: int|
        from <= i < lines.len() ==> #[trigger] line_in_range(lines, i, 0, source_count, name_count)
}

/// The lines before the `count`-th with their segments put in by column.
spec fn lines_inserted(lines: Seq<Seq<Seq<i64>>>, count: int) -> Seq<Seq<Segment>> {
    Seq::new(count as nat, |i: int| inserted(lines, i, lines[i].len() as int))
}

proof fn lemma_segments_upto(lines: Seq<Seq<Seq<i64>>>, a: int, b: int)
    requires
        0 <= a <= b,
    ensures
        0 <= segments_upto(lines, a) <= segments_upto(lines, b),
    decreases b,
{
    if a < b {
        lemma_segments_upto(lines, a, b - 1);
    } else if a > 0 {
        lemma_segments_upto(lines, a - 1, b - 1);
    }
}

proof fn lemma_lines(
    text: Seq<u8>,
    pos: int,
    lines: Seq<Seq<Seq<i64>>>,
    i: int,
    source_count: int,
    name_count: int,
    limits: SourceMapLimits,
    state: MappingsState,
)
    requires
        0 <= i < lines.len(),
        values_fit(lines),
        0 <= pos <= text.len(),
        text.skip(pos) == lines_text(lines, i),
        is_reached(state.reached, lines, i, 0),
        state.lines == lines_inserted(lines, i),
    ensures
        ({
            let n = lines.len() as int;
            let segments = segments_upto(lines, n) - segments_upto(lines, i);
            match mappings::read_lines(text, pos, source_count, name_count, limits, state) {
                Ok(after) => {
                    &&& all_in_range(lines, i, source_count, name_count)
                    &&& after.lines == lines_inserted(lines, n)
                    &&& state.used_lines + (n - i) <= limits.max_lines
                    &&& segments > 0 ==> state.used_segments + segments <= limits.max_segments
                    &&& after.used_lines == state.used_lines + (n - i)
                    &&& after.used_segments == state.used_segments + segments
                },
                Err(_) => !all_in_range(lines, i, source_count, name_count) || state.used_lines + (n
                    - i) > limits.max_lines || state.used_segments + segments
                    > limits.max_segments,
            }
        }),
    decreases lines.len() - i,
{
    let n = lines.len() as int;
    let line = lines[i];
    let own = line_text(line, 0);
    assert forall|m: int| 0 <= m < line.len() implies (#[trigger] line[m]).len() > 0 by {
        assert(lines[i][m].len() > 0);
    }
    lemma_line_text(line, 0);
    let whole = text.skip(pos);
    let end = pos + own.len();
    assert(whole.len() == lines_text(lines, i).len());
    assert forall|k: int| 0 <= k < own.len() implies text[pos + k] == own[k] by {
        assert(whole[k] == lines_text(lines, i)[k]);
    }
    assert forall|k: int| pos <= k < end implies (#[trigger] text[k]) != 0x3b by {
        assert(text[pos + (k - pos)] == own[k - pos]);
    }
    if i + 1 < n {
        assert(whole[own.len() as int] == lines_text(lines, i)[own.len() as int]);
        assert(text[end] == 0x3b);
    }
    lemma_separator(text, pos, end, text.len() as int, 0x3b);
    lemma_segments_upto(lines, i + 1, n);
    assert(segments_upto(lines, i + 1) == segments_upto(lines, i) + line.len());
    let start = LineState {
        reached: state.reached,
        generated: 0,
        used: state.used_segments,
        segments: Seq::empty(),
    };
    let read = if end == pos {
        Ok(start)
    } else {
        mappings::read_line(
            text,
            pos,
            end,
            source_count,
            name_count,
            limits.max_segments as int,
            start,
        )
    };
    if line.len() > 0 {
        assert(text.subrange(pos, end) =~= own);
        lemma_line(
            text,
            pos,
            end,
            lines,
            i,
            0,
            source_count,
            name_count,
            limits.max_segments,
            start,
        );
    } else {
        assert(own.len() == 0);
        assert(line_in_range(lines, i, 0, source_count, name_count));
        assert(inserted(lines, i, 0) =~= Seq::empty());
    }
    if !line_in_range(lines, i, 0, source_count, name_count) {
        assert(!all_in_range(lines, i, source_count, name_count));
    }
    if state.used_lines + 1 <= limits.max_lines {
        if let Ok(after) = read {
            let next = MappingsState {
                reached: after.reached,
                used_lines: (state.used_lines + 1) as usize,
                used_segments: after.used,
                lines: state.lines.push(after.segments),
            };
            assert(next.lines =~= lines_inserted(lines, i + 1));
            if i + 1 < n {
                let rest = lines_text(lines, i + 1);
                assert(text.skip(end + 1) =~= rest) by {
                    assert forall|k: int| 0 <= k < rest.len() implies text[end + 1 + k]
                        == rest[k] by {
                        assert(whole[own.len() + 1 + k] == lines_text(lines, i)[own.len() + 1
                            + k]);
                    }
                }
                assert(is_reached(after.reached, lines, i + 1, 0));
                lemma_lines(
                    text,
                    end + 1,
                    lines,
                    i + 1,
                    source_count,
                    name_count,
                    limits,
                    next,
                );
                if all_in_range(lines, i + 1, source_count, name_count) {
                    assert forall|k: int| i <= k < n implies #[trigger] line_in_range(
                        lines,
                        k,
                        0,
                        source_count,
                        name_count,
                    ) by {
                        if k > i {
                            assert(line_in_range(lines, k, 0, source_count, name_count));
                        }
                    }
                    assert(all_in_range(lines, i, source_count, name_count));
                } else {
                    let k = choose|k: int|
                        i + 1 <= k < n && !#[trigger] line_in_range(
                            lines,
                            k,
                            0,
                            source_count,
                            name_count,
                        );
                    assert(!line_in_range(lines, k, 0, source_count, name_count));
                    assert(!all_in_range(lines, i, source_count, name_count));
                }
            } else {
                assert(end == text.len());
                assert forall|k: int| i <= k < n implies #[trigger] line_in_range(
                    lines,
                    k,
                    0,
                    source_count,
                    name_count,
                ) by {}
            }
        }
    }
}

/// The segments of a list with a column.
pub open spec fn at_column(line: Seq<Segment>, column: u32) -> Seq<Segment> {
    line.filter(|segment: Segment| segment.generated_column == column)
}

proof fn lemma_at_column_push(line: Seq<Segment>, segment: Segment, column: u32)
    ensures
        at_column(line.push(segment), column) == (if segment.generated_column == column {
            at_column(line, column).push(segment)
        } else {
            at_column(line, column)
        }),
{
    reveal(Seq::filter);
    assert(line.push(segment).drop_last() =~= line);
}

proof fn lemma_insert_keeps_columns(line: Seq<Segment>, segment: Segment, column: u32)
    requires
        mappings::is_sorted(line),
    ensures
        mappings::is_sorted(mappings::insert_by_column(line, segment)),
        mappings::insert_by_column(line, segment).len() == line.len() + 1,
        at_column(mappings::insert_by_column(line, segment), column) == at_column(
            line.push(segment),
            column,
        ),
    decreases line.len(),
{
    mappings::lemma_insert_by_column(line, segment, u32::MAX + 1, u32::MAX + 1);
    if line.len() > 0 && line.last().generated_column > segment.generated_column {
        let rest = line.drop_last();
        let last = line.last();
        lemma_insert_keeps_columns(rest, segment, column);
        let inner = mappings::insert_by_column(rest, segment);
        assert(line =~= rest.push(last));
        lemma_at_column_push(inner, last, column);
        lemma_at_column_push(rest, segment, column);
        lemma_at_column_push(rest, last, column);
        lemma_at_column_push(line, segment, column);
    }
}

proof fn lemma_inserted(lines: Seq<Seq<Seq<i64>>>, i: int, count: int, column: u32)
    requires
        0 <= count <= lines[i].len(),
    ensures
        mappings::is_sorted(inserted(lines, i, count)),
        inserted(lines, i, count).len() == count,
        at_column(inserted(lines, i, count), column) == at_column(
            Seq::new(count as nat, |j: int| segment_at(lines, i, j)),
            column,
        ),
    decreases count,
{
    let listed = Seq::new(count as nat, |j: int| segment_at(lines, i, j));
    if count > 0 {
        lemma_inserted(lines, i, count - 1, column);
        let before = inserted(lines, i, count - 1);
        let segment = segment_at(lines, i, count - 1);
        lemma_insert_keeps_columns(before, segment, column);
        let shorter = Seq::new((count - 1) as nat, |j: int| segment_at(lines, i, j));
        assert(listed =~= shorter.push(segment));
        lemma_at_column_push(before, segment, column);
        lemma_at_column_push(shorter, segment, column);
    } else {
        assert(listed =~= Seq::empty());
    }
}

/// A `mappings` text is read as sums. Of any lines of values, written in
/// base64 digits, the text is accepted exactly where every segment has one,
/// four or five values, every sum is in range, every source and name exists
/// and there are not too many lines or segments. The generated column of a
/// segment is then the sum of the first values on its line; its source, line,
/// column and name are the sums of the other values over the whole text. Each
/// line lists its segments by column, those of one column in their order.
pub proof fn law_mappings_are_running_sums(
    lines: Seq<Seq<Seq<i64>>>,
    source_count: int,
    name_count: int,
    limits: SourceMapLimits,
    budget: ParseBudget,
)
    requires
        lines.len() > 0,
        values_fit(lines),
        budget.segments <= limits.max_segments,
    ensures
        ({
            let n = lines.len() as int;
            let fits = budget.lines + n <= limits.max_lines && budget.segments + segments_upto(
                lines,
                n,
            ) <= limits.max_segments;
            let in_range = forall|i: int, j: int|
                0 <= i < n && 0 <= j < lines[i].len() ==> #[trigger] is_in_range(
                    lines,
                    i,
                    j,
                    source_count,
                    name_count,
                );
            match mappings::mappings_of(
                lines_text(lines, 0),
                source_count,
                name_count,
                limits,
                budget,
            ) {
                Err(_) => !(fits && in_range),
                Ok(state) => {
                    &&& fits && in_range
                    &&& state.lines.len() == n
                    &&& forall|i: int|
                        0 <= i < n ==> mappings::is_sorted(#[trigger] state.lines[i])
                            && state.lines[i].len() == lines[i].len()
                    &&& forall|i: int, column: u32|
                        0 <= i < n ==> #[trigger] at_column(state.lines[i], column) == at_column(
                            Seq::new(lines[i].len(), |j: int| segment_at(lines, i, j)),
                            column,
                        )
                },
            }
        }),
{
    let n = lines.len() as int;
    let text = lines_text(lines, 0);
    let start = MappingsState {
        reached: Reached { source: 0, line: 0, column: 0, name: 0 },
        used_lines: budget.lines,
        used_segments: budget.segments,
        lines: Seq::empty(),
    };
    assert(text.skip(0) =~= text);
    assert(start.lines =~= lines_inserted(lines, 0));
    lemma_lines(text, 0, lines, 0, source_count, name_count, limits, start);
    lemma_segments_upto(lines, 0, n);
    let in_range = forall|i: int, j: int|
        0 <= i < n && 0 <= j < lines[i].len() ==> #[trigger] is_in_range(
            lines,
            i,
            j,
            source_count,
            name_count,
        );
    if in_range {
        assert forall|i: int| 0 <= i < n implies #[trigger] line_in_range(
            lines,
            i,
            0,
            source_count,
            name_count,
        ) by {}
    }
    if all_in_range(lines, 0, source_count, name_count) {
        assert forall|i: int, j: int|
            0 <= i < n && 0 <= j < lines[i].len() implies #[trigger] is_in_range(
            lines,
            i,
            j,
            source_count,
            name_count,
        ) by {
            assert(line_in_range(lines, i, 0, source_count, name_count));
        }
    }
    if let Ok(state) = mappings::mappings_of(text, source_count, name_count, limits, budget) {
        assert forall|i: int| 0 <= i < n implies mappings::is_sorted(#[trigger] state.lines[i])
            && state.lines[i].len() == lines[i].len() by {
            lemma_inserted(lines, i, lines[i].len() as int, 0);
        }
        assert forall|i: int, column: u32| 0 <= i < n implies #[trigger] at_column(
            state.lines[i],
            column,
        ) == at_column(
            Seq::new(lines[i].len(), |j: int| segment_at(lines, i, j)),
            column,
        ) by {
            lemma_inserted(lines, i, lines[i].len() as int, column);
        }
    }
}

} // verus!
