//! What to tell about a source map without columns and about refused columns.

use vstd::prelude::*;
use vstd::string::*;

use super::cache::{SidecarColumn, SidecarError, SidecarField};
use super::columns::SourceMapEncodeError;
use crate::text;
use crate::text::{decimal_text, numbered_text};

verus! {

impl SourceMapEncodeError {
    /// What to tell about the refusal.
    pub open spec fn message_spec(self) -> Seq<char> {
        match self {
            SourceMapEncodeError::Indexed => "indexed source maps cannot be encoded as .astsm v1: sections do not fit one first line/segment slice; flatten the map first"@,
            SourceMapEncodeError::Lines => "source-map sidecar exceeds the line limit"@,
            SourceMapEncodeError::Segments => "source-map sidecar exceeds the segment limit"@,
            SourceMapEncodeError::Strings => "source-map sidecar exceeds the string limit"@,
            SourceMapEncodeError::StringBytes => "source-map sidecar exceeds the string byte limit"@,
            SourceMapEncodeError::TooManyRows => "source-map sidecar has more rows than a row number counts"@,
        }
    }

    /// What to tell about the refusal.
    pub fn message(self) -> (message: &'static str)
        ensures
            message@ == self.message_spec(),
    {
        match self {
            SourceMapEncodeError::Indexed => "indexed source maps cannot be encoded as .astsm v1: sections do not fit one first line/segment slice; flatten the map first",
            SourceMapEncodeError::Lines => "source-map sidecar exceeds the line limit",
            SourceMapEncodeError::Segments => "source-map sidecar exceeds the segment limit",
            SourceMapEncodeError::Strings => "source-map sidecar exceeds the string limit",
            SourceMapEncodeError::StringBytes => "source-map sidecar exceeds the string byte limit",
            SourceMapEncodeError::TooManyRows => "source-map sidecar has more rows than a row number counts",
        }
    }
}

impl SidecarField {
    /// The name of the field.
    pub open spec fn label_spec(self) -> Seq<char> {
        match self {
            SidecarField::Profile => "profile"@,
            SidecarField::Producer => "producer"@,
            SidecarField::ProducerVersion => "producer_version"@,
        }
    }

    /// The name of the field.
    pub fn label(self) -> (message: &'static str)
        ensures
            message@ == self.label_spec(),
    {
        match self {
            SidecarField::Profile => "profile",
            SidecarField::Producer => "producer",
            SidecarField::ProducerVersion => "producer_version",
        }
    }
}

impl SidecarColumn {
    /// The name of the column.
    pub open spec fn label_spec(self) -> Seq<char> {
        match self {
            SidecarColumn::SourceString => "source_string"@,
            SidecarColumn::NameString => "name_string"@,
            SidecarColumn::LineFirst => "line_first_segment"@,
            SidecarColumn::LineSegments => "line_segment_count"@,
            SidecarColumn::Segment => "segment"@,
        }
    }

    /// The name of the column.
    pub fn label(self) -> (message: &'static str)
        ensures
            message@ == self.label_spec(),
    {
        match self {
            SidecarColumn::SourceString => "source_string",
            SidecarColumn::NameString => "name_string",
            SidecarColumn::LineFirst => "line_first_segment",
            SidecarColumn::LineSegments => "line_segment_count",
            SidecarColumn::Segment => "segment",
        }
    }
}

impl SidecarError {
    /// What to tell about the refusal.
    pub open spec fn message_spec(self) -> Seq<char> {
        match self {
            SidecarError::Version => "unsupported source-map sidecar version"@,
            SidecarError::Strings => "source-map sidecar string limit exceeded"@,
            SidecarError::NotText(row) => "source-map string row "@ + text::decimal_of(row as nat) + " is not valid UTF-8"@,
            SidecarError::StringBytes => "source-map sidecar string byte limit exceeded"@,
            SidecarError::Unsupported(field) => "unsupported source-map "@ + field.label_spec(),
            SidecarError::Rows => "source-map sidecar row limit exceeded"@,
            SidecarError::NoLines => "source-map sidecar must contain at least one generated line"@,
            SidecarError::ColumnLength { column, rows, expected } => "source-map "@ + column.label_spec() + " column has "@ + text::decimal_of(rows as nat) + " rows, expected "@ + text::decimal_of(expected as nat),
            SidecarError::SourceRow(row) => "source row "@ + text::decimal_of(row as nat) + " references an invalid string"@,
            SidecarError::NameRow(row) => "name row "@ + text::decimal_of(row as nat) + " references an invalid string"@,
            SidecarError::SourceRoot => "sourceRoot references an invalid string"@,
            SidecarError::LineSlice(row) => "line "@ + text::decimal_of(row as nat) + " has an invalid segment slice"@,
            SidecarError::DecreasingColumns(row) => "line "@ + text::decimal_of(row as nat) + " has decreasing generated columns"@,
            SidecarError::UnmappedFields(row) => "unmapped segment "@ + text::decimal_of(row as nat) + " has original fields"@,
            SidecarError::SegmentSource(row) => "segment "@ + text::decimal_of(row as nat) + " references an invalid source row"@,
            SidecarError::MissingCoordinates(row) => "mapped segment "@ + text::decimal_of(row as nat) + " has missing original coordinates"@,
            SidecarError::SegmentName(row) => "segment "@ + text::decimal_of(row as nat) + " references an invalid name row"@,
            SidecarError::Uncovered => "line slices do not cover every segment"@,
        }
    }

    /// What to tell about the refusal.
    pub fn message(self) -> (message: String)
        ensures
            message@ == self.message_spec(),
    {
        match self {
            SidecarError::Version => "unsupported source-map sidecar version".to_string(),
            SidecarError::Strings => "source-map sidecar string limit exceeded".to_string(),
            SidecarError::NotText(row) => numbered_text("source-map string row ", row as u64, " is not valid UTF-8"),
            SidecarError::StringBytes => "source-map sidecar string byte limit exceeded".to_string(),
            SidecarError::Unsupported(field) => "unsupported source-map ".to_string().concat(field.label()),
            SidecarError::Rows => "source-map sidecar row limit exceeded".to_string(),
            SidecarError::NoLines => "source-map sidecar must contain at least one generated line".to_string(),
            SidecarError::ColumnLength { column, rows, expected } => "source-map ".to_string().concat(column.label()).concat(" column has ").concat(decimal_text(rows as u64).as_str()).concat(" rows, expected ").concat(decimal_text(expected as u64).as_str()),
            SidecarError::SourceRow(row) => numbered_text("source row ", row as u64, " references an invalid string"),
            SidecarError::NameRow(row) => numbered_text("name row ", row as u64, " references an invalid string"),
            SidecarError::SourceRoot => "sourceRoot references an invalid string".to_string(),
            SidecarError::LineSlice(row) => numbered_text("line ", row as u64, " has an invalid segment slice"),
            SidecarError::DecreasingColumns(row) => numbered_text("line ", row as u64, " has decreasing generated columns"),
            SidecarError::UnmappedFields(row) => numbered_text("unmapped segment ", row as u64, " has original fields"),
            SidecarError::SegmentSource(row) => numbered_text("segment ", row as u64, " references an invalid source row"),
            SidecarError::MissingCoordinates(row) => numbered_text("mapped segment ", row as u64, " has missing original coordinates"),
            SidecarError::SegmentName(row) => numbered_text("segment ", row as u64, " references an invalid name row"),
            SidecarError::Uncovered => "line slices do not cover every segment".to_string(),
        }
    }
}

} // verus!
