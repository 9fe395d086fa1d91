//! A basic source map as columns of plain numbers and bytes, for persistence.

use vstd::prelude::*;
use vstd::string::*;
use vstd::utf8::*;

use super::map::{BasicTables, SourceMap};
use super::mappings::Segment;
use crate::bytes::push_all;

use super::{mappings, BasicModel, MapModel};
use crate::text;

verus! {

/// Version of the columns.
pub const SOURCEMAP_VERSION: u32 = 1;

/// Identity of the persisted profile.
pub const SOURCEMAP_PROFILE: &'static str = "astdiff.sourcemap.v3.positioned";

/// Name of the program that writes source maps.
pub const SOURCEMAP_PRODUCER: &'static str = "astdiff";

/// Version of the program that writes source maps.
pub const SOURCEMAP_PRODUCER_VERSION: &'static str = "0.1.0";

/// The row number of a missing row.
pub const NO_ROW: u32 = 0xffff_ffff;

/// Resource bounds of columns.
#[derive(Debug, Clone, Copy, PartialEq, Eq, Structural)]
pub struct SourceMapCacheLimits {
    pub max_payload_bytes: u64,
    pub max_lines: usize,
    pub max_segments: usize,
    pub max_strings: usize,
    pub max_string_bytes: usize,
}

impl Default for SourceMapCacheLimits {
    fn default() -> (limits: Self)
        ensures
            limits == (SourceMapCacheLimits {
                max_payload_bytes: 4_294_967_296,
                max_lines: 20_000_000,
                max_segments: 100_000_000,
                max_strings: 2_000_000,
                max_string_bytes: 268_435_456,
            }),
    {
        SourceMapCacheLimits {
            max_payload_bytes: 4_294_967_296,
            max_lines: 20_000_000,
            max_segments: 100_000_000,
            max_strings: 2_000_000,
            max_string_bytes: 268_435_456,
        }
    }
}

/// A basic source map as columns. Row numbers of missing rows are `u32::MAX`.
#[derive(Debug, Clone)]
pub struct SourceMapColumns {
    pub format_version: u32,
    pub profile: u32,
    pub producer: u32,
    pub producer_version: u32,
    pub map_version: u32,
    pub source_count: u32,
    pub name_count: u32,
    pub line_count: u32,
    pub segment_count: u32,
    pub source_root: u32,
    pub strings: Vec<Vec<u8>>,
    pub source_string: Vec<u32>,
    pub name_string: Vec<u32>,
    pub line_first: Vec<u32>,
    pub line_segments: Vec<u32>,
    pub segment_generated: Vec<u32>,
    pub segment_source: Vec<u32>,
    pub segment_line: Vec<u32>,
    pub segment_column: Vec<u32>,
    pub segment_name: Vec<u32>,
}

/// Why a source map has no columns.
#[derive(Debug, Clone, Copy, PartialEq, Eq, Structural)]
pub enum SourceMapEncodeError {
    /// The map has sections.
    Indexed,
    Lines,
    Segments,
    Strings,
    StringBytes,
    /// A table has more rows than a row number can count.
    TooManyRows,
}

/// The texts among the first `count` that are there.
pub open spec fn present(texts: Seq<Option<Seq<char>>>, count: int) -> Seq<Seq<char>>
    decreases count,
{
    if count <= 0 {
        Seq::empty()
    } else {
        match texts[count - 1] {
            Some(t) => present(texts, count - 1).push(t),
            None => present(texts, count - 1),
        }
    }
}

/// A text, where it is there.
pub open spec fn present_one(t: Option<Seq<char>>) -> Seq<Seq<char>> {
    match t {
        Some(t) => seq![t],
        None => Seq::empty(),
    }
}

/// The string rows of a map: its sources, its names, its source root, and what
/// describes the columns.
pub open spec fn texts_of(m: BasicModel) -> Seq<Seq<char>> {
    present(m.sources, m.sources.len() as int) + m.names + present_one(m.source_root) + seq![
        SOURCEMAP_PROFILE@,
        SOURCEMAP_PRODUCER@,
        SOURCEMAP_PRODUCER_VERSION@,
    ]
}

/// The bytes of the first `count` texts.
pub open spec fn bytes_of(texts: Seq<Seq<char>>, count: int) -> nat
    decreases count,
{
    if count <= 0 {
        0
    } else {
        bytes_of(texts, count - 1) + encode_utf8(texts[count - 1]).len()
    }
}

/// The segments of the first `count` lines, one after the other.
pub open spec fn flat(lines: Seq<Seq<Segment>>, count: int) -> Seq<Segment>
    decreases count,
{
    if count <= 0 {
        Seq::empty()
    } else {
        flat(lines, count - 1) + lines[count - 1]
    }
}

/// Why a source map has no columns, if so.
pub open spec fn encode_fault(map: MapModel, limits: SourceMapCacheLimits) -> Option<
    SourceMapEncodeError,
> {
    match map {
        MapModel::Indexed(_) => Some(SourceMapEncodeError::Indexed),
        MapModel::Basic(m) => {
            let texts = texts_of(m);
            let segments = flat(m.lines, m.lines.len() as int);
            if m.lines.len() > limits.max_lines {
                Some(SourceMapEncodeError::Lines)
            } else if segments.len() > limits.max_segments {
                Some(SourceMapEncodeError::Segments)
            } else if texts.len() > limits.max_strings {
                Some(SourceMapEncodeError::Strings)
            } else if bytes_of(texts, texts.len() as int) > limits.max_string_bytes {
                Some(SourceMapEncodeError::StringBytes)
            } else if texts.len() - 1 > u32::MAX || m.sources.len() > u32::MAX || m.lines.len()
                > u32::MAX || segments.len() > u32::MAX {
                Some(SourceMapEncodeError::TooManyRows)
            } else {
                None
            }
        },
    }
}

/// Whether a row of columns is a segment.
pub open spec fn is_segment_row(c: SourceMapColumns, j: int, s: Segment) -> bool {
    &&& c.segment_generated@[j] == s.generated_column
    &&& match s.original {
        Some(o) => {
            &&& c.segment_source@[j] == o.source
            &&& c.segment_line@[j] == o.line
            &&& c.segment_column@[j] == o.column
            &&& c.segment_name@[j] == (match o.name {
                Some(name) => name,
                None => NO_ROW,
            })
        },
        None => {
            &&& c.segment_source@[j] == NO_ROW
            &&& c.segment_line@[j] == NO_ROW
            &&& c.segment_column@[j] == NO_ROW
            &&& c.segment_name@[j] == NO_ROW
        },
    }
}

/// Whether columns hold segments.
pub open spec fn are_segments(c: SourceMapColumns, segments: Seq<Segment>) -> bool {
    &&& c.segment_count == segments.len()
    &&& c.segment_generated@.len() == segments.len()
    &&& c.segment_source@.len() == segments.len()
    &&& c.segment_line@.len() == segments.len()
    &&& c.segment_column@.len() == segments.len()
    &&& c.segment_name@.len() == segments.len()
    &&& forall|j: int| 0 <= j < segments.len() ==> is_segment_row(c, j, #[trigger] segments[j])
}

/// Whether rows hold the bytes of texts.
pub open spec fn are_texts(rows: Seq<Vec<u8>>, texts: Seq<Seq<char>>) -> bool {
    &&& rows.len() == texts.len()
    &&& forall|i: int| 0 <= i < rows.len() ==> (#[trigger] rows[i])@ == encode_utf8(texts[i])
}

/// Whether columns are those of a basic map.
pub open spec fn are_columns(c: SourceMapColumns, m: BasicModel) -> bool {
    let sources = present(m.sources, m.sources.len() as int).len();
    let described = sources + m.names.len() + present_one(m.source_root).len();
    &&& c.format_version == SOURCEMAP_VERSION
    &&& c.map_version == 3
    &&& c.profile == described
    &&& c.producer == described + 1
    &&& c.producer_version == described + 2
    &&& c.source_count == m.sources.len()
    &&& c.name_count == m.names.len()
    &&& c.line_count == m.lines.len()
    &&& c.source_root == (if m.source_root is Some {
        (sources + m.names.len()) as u32
    } else {
        NO_ROW
    })
    &&& are_texts(c.strings@, texts_of(m))
    &&& c.source_string@.len() == m.sources.len()
    &&& forall|i: int|
        0 <= i < m.sources.len() ==> #[trigger] c.source_string@[i] == (if m.sources[i] is Some {
            present(m.sources, i).len() as u32
        } else {
            NO_ROW
        })
    &&& c.name_string@.len() == m.names.len()
    &&& forall|i: int| 0 <= i < m.names.len() ==> #[trigger] c.name_string@[i] == sources + i
    &&& c.line_first@.len() == m.lines.len()
    &&& c.line_segments@.len() == m.lines.len()
    &&& forall|i: int|
        0 <= i < m.lines.len() ==> #[trigger] c.line_first@[i] == flat(m.lines, i).len()
    &&& forall|i: int|
        0 <= i < m.lines.len() ==> #[trigger] c.line_segments@[i] == m.lines[i].len()
    &&& are_segments(c, flat(m.lines, m.lines.len() as int))
}

fn text_row(value: &str) -> (row: Vec<u8>)
    ensures
        row@ == encode_utf8(value@),
{
    let mut row: Vec<u8> = Vec::new();
    push_all(&mut row, value.as_bytes());
    assert(row@ =~= encode_utf8(value@));
    row
}

/// Rows that hold the bytes of texts have as many bytes.
pub proof fn lemma_row_bytes(rows: Seq<Vec<u8>>, texts: Seq<Seq<char>>, count: int)
    requires
        are_texts(rows, texts),
        count <= rows.len(),
    ensures
        total_bytes(rows, count) == bytes_of(texts, count),
    decreases count,
{
    if count > 0 {
        lemma_row_bytes(rows, texts, count - 1);
        assert(rows[count - 1]@ == encode_utf8(texts[count - 1]));
    }
}

/// Whether rows hold more bytes than a bound.
pub(crate) fn exceeds(rows: &Vec<Vec<u8>>, bound: usize) -> (r: bool)
    ensures
        r == (total_bytes(rows@, rows@.len() as int) > bound),
{
    let mut total: u64 = 0;
    let mut i: usize = 0;
    while i < rows.len()
        invariant
            i <= rows@.len(),
            total == total_bytes(rows@, i as int),
            total <= bound,
        decreases rows@.len() - i,
    {
        let left: u64 = bound as u64 - total;
        if rows[i].len() as u64 > left {
            proof {
                lemma_total_grows(rows@, i + 1, rows@.len() as int);
            }
            return true;
        }
        total = total + rows[i].len() as u64;
        i += 1;
    }
    false
}

/// The bytes of the first `count` rows.
pub open spec fn total_bytes(rows: Seq<Vec<u8>>, count: int) -> nat
    decreases count,
{
    if count <= 0 {
        0
    } else {
        total_bytes(rows, count - 1) + rows[count - 1]@.len()
    }
}

proof fn lemma_total_grows(rows: Seq<Vec<u8>>, i: int, j: int)
    requires
        i <= j,
    ensures
        total_bytes(rows, i) <= total_bytes(rows, j),
    decreases j - i,
{
    if i < j {
        lemma_total_grows(rows, i, j - 1);
    }
}

/// The row numbers of the sources, and how many rows they take.
fn number_sources(sources: &Vec<Option<String>>) -> (r: (Vec<u32>, u32))
    requires
        present(text::optional_views(sources@), sources@.len() as int).len() <= u32::MAX,
    ensures
        r.1 == present(text::optional_views(sources@), sources@.len() as int).len(),
        r.0@.len() == sources@.len(),
        forall|i: int|
            0 <= i < sources@.len() ==> #[trigger] r.0@[i] == (if sources@[i] is Some {
                present(text::optional_views(sources@), i).len() as u32
            } else {
                NO_ROW
            }),
{
    let ghost models = text::optional_views(sources@);
    let mut rows: Vec<u32> = Vec::new();
    let mut next: u32 = 0;
    let mut i: usize = 0;
    while i < sources.len()
        invariant
            models == text::optional_views(sources@),
            present(models, sources@.len() as int).len() <= u32::MAX,
            i <= sources@.len(),
            next == present(models, i as int).len(),
            rows@.len() == i,
            forall|k: int|
                0 <= k < i ==> #[trigger] rows@[k] == (if sources@[k] is Some {
                    present(models, k).len() as u32
                } else {
                    NO_ROW
                }),
        decreases sources@.len() - i,
    {
        assert(models[i as int] == text::optional_view(sources@[i as int]));
        proof {
            lemma_present_grows(models, i + 1, sources@.len() as int);
        }
        if sources[i].is_some() {
            rows.push(next);
            next += 1;
        } else {
            rows.push(NO_ROW);
        }
        i += 1;
    }
    (rows, next)
}

proof fn lemma_present_grows(texts: Seq<Option<Seq<char>>>, i: int, j: int)
    requires
        i <= j,
    ensures
        present(texts, i).len() <= present(texts, j).len(),
    decreases j - i,
{
    if i < j {
        lemma_present_grows(texts, i, j - 1);
    }
}

/// Consecutive row numbers.
fn number_names(first: u32, count: usize) -> (rows: Vec<u32>)
    requires
        first + count <= u32::MAX,
    ensures
        rows@.len() == count,
        forall|i: int| 0 <= i < count ==> #[trigger] rows@[i] == first + i,
{
    let mut rows: Vec<u32> = Vec::new();
    let mut i: usize = 0;
    while i < count
        invariant
            first + count <= u32::MAX,
            i <= count,
            rows@.len() == i,
            forall|k: int| 0 <= k < i ==> #[trigger] rows@[k] == first + k,
        decreases count - i,
    {
        rows.push(first + i as u32);
        i += 1;
    }
    rows
}

/// The number of segments on lines, where it is at most a bound.
fn count_segments(lines: &Vec<Vec<Segment>>, bound: usize) -> (r: Option<usize>)
    ensures
        ({
            let total = flat(mappings::line_views(lines@), lines@.len() as int).len();
            match r {
                Some(count) => count == total && total <= bound,
                None => total > bound,
            }
        }),
{
    let ghost views = mappings::line_views(lines@);
    let mut count: usize = 0;
    let mut i: usize = 0;
    while i < lines.len()
        invariant
            views == mappings::line_views(lines@),
            i <= lines@.len(),
            count == flat(views, i as int).len(),
            count <= bound,
        decreases lines@.len() - i,
    {
        assert(views[i as int] == lines@[i as int]@);
        if lines[i].len() > bound - count {
            proof {
                lemma_flat_grows(views, i + 1, lines@.len() as int);
            }
            return None;
        }
        count = count + lines[i].len();
        i += 1;
    }
    Some(count)
}

proof fn lemma_flat_grows(lines: Seq<Seq<Segment>>, i: int, j: int)
    requires
        i <= j,
    ensures
        flat(lines, i).len() <= flat(lines, j).len(),
    decreases j - i,
{
    if i < j {
        lemma_flat_grows(lines, i, j - 1);
    }
}

/// The columns of segments.
struct SegmentColumns {
    generated: Vec<u32>,
    source: Vec<u32>,
    line: Vec<u32>,
    column: Vec<u32>,
    name: Vec<u32>,
}

impl SegmentColumns {
    spec fn holds(&self, j: int, s: Segment) -> bool {
        &&& self.generated@[j] == s.generated_column
        &&& match s.original {
            Some(o) => {
                &&& self.source@[j] == o.source
                &&& self.line@[j] == o.line
                &&& self.column@[j] == o.column
                &&& self.name@[j] == (match o.name {
                    Some(name) => name,
                    None => NO_ROW,
                })
            },
            None => {
                &&& self.source@[j] == NO_ROW
                &&& self.line@[j] == NO_ROW
                &&& self.column@[j] == NO_ROW
                &&& self.name@[j] == NO_ROW
            },
        }
    }

    spec fn are(&self, segments: Seq<Segment>) -> bool {
        &&& self.generated@.len() == segments.len()
        &&& self.source@.len() == segments.len()
        &&& self.line@.len() == segments.len()
        &&& self.column@.len() == segments.len()
        &&& self.name@.len() == segments.len()
        &&& forall|j: int| 0 <= j < segments.len() ==> self.holds(j, #[trigger] segments[j])
    }

    fn push(&mut self, s: Segment, ahead: Ghost<Seq<Segment>>)
        requires
            old(self).are(ahead@),
        ensures
            final(self).are(ahead@.push(s)),
    {
        let ghost before = *self;
        self.generated.push(s.generated_column);
        match s.original {
            Some(o) => {
                self.source.push(o.source);
                self.line.push(o.line);
                self.column.push(o.column);
                self.name.push(
                    match o.name {
                        Some(name) => name,
                        None => NO_ROW,
                    },
                );
            },
            None => {
                self.source.push(NO_ROW);
                self.line.push(NO_ROW);
                self.column.push(NO_ROW);
                self.name.push(NO_ROW);
            },
        }
        proof {
            let longer = ahead@.push(s);
            assert forall|j: int| 0 <= j < longer.len() implies self.holds(
                j,
                #[trigger] longer[j],
            ) by {
                if j < ahead@.len() {
                    assert(before.holds(j, ahead@[j]));
                }
            }
        }
    }
}

fn encode_segments(lines: &Vec<Vec<Segment>>) -> (r: (SegmentColumns, Vec<u32>, Vec<u32>))
    requires
        flat(mappings::line_views(lines@), lines@.len() as int).len() <= u32::MAX,
    ensures
        ({
            let views = mappings::line_views(lines@);
            &&& r.0.are(flat(views, lines@.len() as int))
            &&& r.1@.len() == lines@.len()
            &&& r.2@.len() == lines@.len()
            &&& forall|i: int|
                0 <= i < lines@.len() ==> #[trigger] r.1@[i] == flat(views, i).len()
            &&& forall|i: int| 0 <= i < lines@.len() ==> #[trigger] r.2@[i] == views[i].len()
        }),
{
    let ghost views = mappings::line_views(lines@);
    let mut segments = SegmentColumns {
        generated: Vec::new(),
        source: Vec::new(),
        line: Vec::new(),
        column: Vec::new(),
        name: Vec::new(),
    };
    let mut first: Vec<u32> = Vec::new();
    let mut counts: Vec<u32> = Vec::new();
    let mut i: usize = 0;
    while i < lines.len()
        invariant
            views == mappings::line_views(lines@),
            flat(views, lines@.len() as int).len() <= u32::MAX,
            i <= lines@.len(),
            segments.are(flat(views, i as int)),
            first@.len() == i,
            counts@.len() == i,
            forall|k: int| 0 <= k < i ==> #[trigger] first@[k] == flat(views, k).len(),
            forall|k: int| 0 <= k < i ==> #[trigger] counts@[k] == views[k].len(),
        decreases lines@.len() - i,
    {
        let line = &lines[i];
        assert(views[i as int] == line@);
        proof {
            lemma_flat_grows(views, i as int, lines@.len() as int);
            lemma_flat_grows(views, i + 1, lines@.len() as int);
        }
        first.push(segments.generated.len() as u32);
        counts.push(line.len() as u32);
        let ghost ahead = flat(views, i as int);
        let mut k: usize = 0;
        assert(ahead + line@.take(0) =~= ahead);
        while k < line.len()
            invariant
                k <= line@.len(),
                segments.are(ahead + line@.take(k as int)),
            decreases line@.len() - k,
        {
            segments.push(line[k], Ghost(ahead + line@.take(k as int)));
            k += 1;
            assert(ahead + line@.take(k as int) =~= (ahead + line@.take(k - 1)).push(
                line@[k - 1],
            ));
        }
        assert(line@.take(k as int) =~= line@);
        i += 1;
    }
    (segments, first, counts)
}

fn encode_tables(tables: &BasicTables<'_>, strings: Vec<Vec<u8>>) -> (c: SourceMapColumns)
    requires
        are_texts(strings@, texts_of(tables.model())),
        texts_of(tables.model()).len() - 1 <= u32::MAX,
        tables.sources@.len() <= u32::MAX,
        tables.lines@.len() <= u32::MAX,
        flat(tables.model().lines, tables.lines@.len() as int).len() <= u32::MAX,
    ensures
        are_columns(c, tables.model()),
{
    let ghost m = tables.model();
    assert(m.sources.len() == tables.sources@.len());
    assert(m.names.len() == tables.names@.len());
    assert(m.lines.len() == tables.lines@.len());
    let (source_string, sources) = number_sources(tables.sources);
    let name_string = number_names(sources, tables.names.len());
    let names_end: u32 = sources + tables.names.len() as u32;
    let source_root = match tables.source_root {
        Some(_) => names_end,
        None => NO_ROW,
    };
    let profile: u32 = match tables.source_root {
        Some(_) => names_end + 1,
        None => names_end,
    };
    let (segments, line_first, line_segments) = encode_segments(tables.lines);
    let segment_count: u32 = segments.generated.len() as u32;
    let c = SourceMapColumns {
        format_version: SOURCEMAP_VERSION,
        profile,
        producer: profile + 1,
        producer_version: profile + 2,
        map_version: 3,
        source_count: tables.sources.len() as u32,
        name_count: tables.names.len() as u32,
        line_count: tables.lines.len() as u32,
        segment_count,
        source_root,
        strings,
        source_string,
        name_string,
        line_first,
        line_segments,
        segment_generated: segments.generated,
        segment_source: segments.source,
        segment_line: segments.line,
        segment_column: segments.column,
        segment_name: segments.name,
    };
    proof {
        let all = flat(m.lines, m.lines.len() as int);
        assert forall|j: int| 0 <= j < all.len() implies is_segment_row(
            c,
            j,
            #[trigger] all[j],
        ) by {
            assert(segments.holds(j, all[j]));
        }
        assert forall|i: int| 0 <= i < m.sources.len() implies #[trigger] c.source_string@[i] == (
        if m.sources[i] is Some {
            present(m.sources, i).len() as u32
        } else {
            NO_ROW
        }) by {
            assert(m.sources[i] == text::optional_view(tables.sources@[i]));
        }
    }
    c
}

/// The string rows of tables.
fn string_rows(tables: &BasicTables<'_>) -> (rows: Vec<Vec<u8>>)
    ensures
        are_texts(rows@, texts_of(tables.model())),
{
    let ghost m = tables.model();
    let mut rows: Vec<Vec<u8>> = Vec::new();
    let mut i: usize = 0;
    assert(m.sources.len() == tables.sources@.len());
    while i < tables.sources.len()
        invariant
            m == tables.model(),
            m.sources.len() == tables.sources@.len(),
            i <= tables.sources@.len(),
            are_texts(rows@, present(m.sources, i as int)),
        decreases tables.sources@.len() - i,
    {
        assert(m.sources[i as int] == text::optional_view(tables.sources@[i as int]));
        if let Some(value) = &tables.sources[i] {
            rows.push(text_row(value.as_str()));
        }
        i += 1;
    }
    let ghost sources = present(m.sources, m.sources.len() as int);
    let mut k: usize = 0;
    assert(sources + m.names.take(0) =~= sources);
    while k < tables.names.len()
        invariant
            m == tables.model(),
            k <= tables.names@.len(),
            are_texts(rows@, sources + m.names.take(k as int)),
        decreases tables.names@.len() - k,
    {
        rows.push(text_row(tables.names[k].as_str()));
        k += 1;
        assert(sources + m.names.take(k as int) =~= (sources + m.names.take(k - 1)).push(
            tables.names@[k - 1]@,
        ));
    }
    assert(m.names.take(k as int) =~= m.names);
    if let Some(root) = tables.source_root {
        rows.push(text_row(root.as_str()));
    }
    rows.push(text_row(SOURCEMAP_PROFILE));
    rows.push(text_row(SOURCEMAP_PRODUCER));
    rows.push(text_row(SOURCEMAP_PRODUCER_VERSION));
    rows
}

impl SourceMap {
    /// The columns of a basic map, within the default bounds.
    pub fn encode_positioned(&self) -> (r: Result<SourceMapColumns, SourceMapEncodeError>)
        ensures
            ({
                let limits = SourceMapCacheLimits {
                    max_payload_bytes: 4_294_967_296,
                    max_lines: 20_000_000,
                    max_segments: 100_000_000,
                    max_strings: 2_000_000,
                    max_string_bytes: 268_435_456,
                };
                match (r, encode_fault(self@, limits)) {
                    (Ok(columns), None) => self@ matches MapModel::Basic(m) && are_columns(
                        columns,
                        m,
                    ),
                    (Err(error), Some(fault)) => error == fault,
                    _ => false,
                }
            }),
    {
        self.encode_positioned_with_limits(SourceMapCacheLimits::default())
    }

    /// The columns of a basic map, within given bounds.
    pub fn encode_positioned_with_limits(&self, limits: SourceMapCacheLimits) -> (r: Result<
        SourceMapColumns,
        SourceMapEncodeError,
    >)
        ensures
            match (r, encode_fault(self@, limits)) {
                (Ok(columns), None) => self@ matches MapModel::Basic(m) && are_columns(
                    columns,
                    m,
                ),
                (Err(error), Some(fault)) => error == fault,
                _ => false,
            },
    {
        let tables = match self.tables() {
            Some(tables) => tables,
            None => {
                return Err(SourceMapEncodeError::Indexed);
            },
        };
        let ghost m = tables.model();
        assert(m.lines.len() == tables.lines@.len());
        assert(m.sources.len() == tables.sources@.len());
        if tables.lines.len() > limits.max_lines {
            return Err(SourceMapEncodeError::Lines);
        }
        let segments = match count_segments(tables.lines, limits.max_segments) {
            Some(count) => count,
            None => {
                return Err(SourceMapEncodeError::Segments);
            },
        };
        let rows = string_rows(&tables);
        if rows.len() > limits.max_strings {
            return Err(SourceMapEncodeError::Strings);
        }
        proof {
            lemma_row_bytes(rows@, texts_of(m), rows@.len() as int);
        }
        if exceeds(&rows, limits.max_string_bytes) {
            return Err(SourceMapEncodeError::StringBytes);
        }
        if rows.len() - 1 > 0xffff_ffff || tables.sources.len() > 0xffff_ffff || tables.lines.len()
            > 0xffff_ffff || segments > 0xffff_ffff {
            return Err(SourceMapEncodeError::TooManyRows);
        }
        Ok(encode_tables(&tables, rows))
    }
}

} // verus!
