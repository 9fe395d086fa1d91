//! What to tell about a refused source map.

use vstd::prelude::*;
use vstd::string::*;

use super::SourceMapError;

verus! {

impl SourceMapError {
    /// What to tell about the refusal.
    pub open spec fn message_spec(self) -> Seq<char> {
        match self {
            SourceMapError::ByteLimit => "source map exceeds the byte limit"@,
            SourceMapError::UnsupportedVersionOrDepth => "unsupported source map version or section depth"@,
            SourceMapError::NotExactlyOneBody => "source map must contain exactly one of mappings or sections"@,
            SourceMapError::MissingSources => "basic source map is missing its sources array"@,
            SourceMapError::ContentNotPermitted => "sourcesContent requires explicit permission"@,
            SourceMapError::ContentTooLong => "sourcesContent is longer than sources"@,
            SourceMapError::IgnoreListRange => "source map ignore-list index is out of range"@,
            SourceMapError::CountOverflow => "source map resource count overflow"@,
            SourceMapError::ResourceLimit => "source map resource limit exceeded"@,
            SourceMapError::EmptySegment => "source map contains an empty segment"@,
            SourceMapError::FieldCount => "source map segment must contain 1, 4, or 5 fields"@,
            SourceMapError::TruncatedVlq => "truncated source map VLQ"@,
            SourceMapError::InvalidBase64 => "invalid source map base64"@,
            SourceMapError::VlqRange => "source map VLQ exceeds 32-bit range"@,
            SourceMapError::CumulativeRange => "source map cumulative value is out of range"@,
            SourceMapError::SourceIndexRange => "source map source index is out of range"@,
            SourceMapError::NameIndexRange => "source map name index is out of range"@,
            SourceMapError::SectionsUnordered => "source map sections are not ordered"@,
            SourceMapError::SectionsOverlap => "source map sections overlap"@,
            SourceMapError::SectionLineOverflow => "indexed source-map line overflow"@,
            SourceMapError::SectionColumnOverflow => "indexed source-map column overflow"@,
            SourceMapError::SegmentCountOverflow => "source map segment count overflow"@,
            SourceMapError::OffsetBeyondSource => "source byte offset exceeds source length"@,
            SourceMapError::OffsetInsideCharacter => "source byte offset is not a UTF-8 boundary"@,
            SourceMapError::LineOverflow => "generated line overflow"@,
            SourceMapError::ColumnOverflow => "generated column overflow"@,
        }
    }

    pub fn message(self) -> (text: &'static str)
        ensures
            text@ == self.message_spec(),
    {
        match self {
            SourceMapError::ByteLimit => "source map exceeds the byte limit",
            SourceMapError::UnsupportedVersionOrDepth => "unsupported source map version or section depth",
            SourceMapError::NotExactlyOneBody => "source map must contain exactly one of mappings or sections",
            SourceMapError::MissingSources => "basic source map is missing its sources array",
            SourceMapError::ContentNotPermitted => "sourcesContent requires explicit permission",
            SourceMapError::ContentTooLong => "sourcesContent is longer than sources",
            SourceMapError::IgnoreListRange => "source map ignore-list index is out of range",
            SourceMapError::CountOverflow => "source map resource count overflow",
            SourceMapError::ResourceLimit => "source map resource limit exceeded",
            SourceMapError::EmptySegment => "source map contains an empty segment",
            SourceMapError::FieldCount => "source map segment must contain 1, 4, or 5 fields",
            SourceMapError::TruncatedVlq => "truncated source map VLQ",
            SourceMapError::InvalidBase64 => "invalid source map base64",
            SourceMapError::VlqRange => "source map VLQ exceeds 32-bit range",
            SourceMapError::CumulativeRange => "source map cumulative value is out of range",
            SourceMapError::SourceIndexRange => "source map source index is out of range",
            SourceMapError::NameIndexRange => "source map name index is out of range",
            SourceMapError::SectionsUnordered => "source map sections are not ordered",
            SourceMapError::SectionsOverlap => "source map sections overlap",
            SourceMapError::SectionLineOverflow => "indexed source-map line overflow",
            SourceMapError::SectionColumnOverflow => "indexed source-map column overflow",
            SourceMapError::SegmentCountOverflow => "source map segment count overflow",
            SourceMapError::OffsetBeyondSource => "source byte offset exceeds source length",
            SourceMapError::OffsetInsideCharacter => "source byte offset is not a UTF-8 boundary",
            SourceMapError::LineOverflow => "generated line overflow",
            SourceMapError::ColumnOverflow => "generated column overflow",
        }
    }
}

} // verus!
