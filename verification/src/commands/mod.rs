//! What commands decide between reading their inputs and writing their outputs.

use vstd::prelude::*;
use vstd::string::*;

use crate::diff::report::ReportStyle;
use crate::text::same_text;

pub mod facts;
pub mod inspect;
pub mod maps;
pub mod names;

verus! {

/// The outcome of reading at most a number of bytes.
pub open spec fn bounded_message(label: Seq<char>) -> Seq<char> {
    label + " exceeds the byte limit"@
}

/// Refuses bytes that exceed a limit.
pub fn bounded(bytes: Vec<u8>, max_bytes: u64, label: &str) -> (r: Result<Vec<u8>, String>)
    ensures
        match r {
            Ok(kept) => bytes@.len() <= max_bytes && kept == bytes,
            Err(message) => bytes@.len() > max_bytes && message@ == bounded_message(label@),
        },
{
    if bytes.len() as u64 > max_bytes {
        return Err(label.to_string().concat(" exceeds the byte limit"));
    }
    Ok(bytes)
}

/// What is told where only one of two source maps is given.
pub open spec fn unpaired_message() -> Seq<char> {
    "--source-map-source and --source-map-target must be supplied together"@
}

/// Two things that are given together or not at all.
pub fn paired<A, B>(source: Option<A>, target: Option<B>) -> (r: Result<
    Option<(A, B)>,
    &'static str,
>)
    ensures
        match (source, target) {
            (Some(a), Some(b)) => r == Ok::<Option<(A, B)>, &'static str>(Some((a, b))),
            (None, None) => r == Ok::<Option<(A, B)>, &'static str>(None),
            _ => r matches Err(message) && message@ == unpaired_message(),
        },
{
    match (source, target) {
        (Some(a), Some(b)) => Ok(Some((a, b))),
        (None, None) => Ok(None),
        _ => Err("--source-map-source and --source-map-target must be supplied together"),
    }
}

/// How a comparison is shown.
#[derive(Debug, Clone, Copy, PartialEq, Eq, Structural)]
pub enum DiffOutput {
    Report(ReportStyle),
    Json,
}

/// How a comparison is shown, where the format is known: the shortest report
/// that is asked for.
pub open spec fn output_of(format: Seq<char>, compact: bool, lite: bool, summary: bool) -> Option<
    DiffOutput,
> {
    if format == "unified"@ {
        Some(
            DiffOutput::Report(
                if compact || lite {
                    ReportStyle::Compact
                } else if summary {
                    ReportStyle::Summary
                } else {
                    ReportStyle::Full
                },
            ),
        )
    } else if format == "json"@ {
        Some(DiffOutput::Json)
    } else {
        None
    }
}

/// Decides how a comparison is shown.
pub fn choose_output(format: &str, compact: bool, lite: bool, summary: bool) -> (r: Option<
    DiffOutput,
>)
    ensures
        r == output_of(format@, compact, lite, summary),
{
    if same_text(format, "unified") {
        if compact || lite {
            Some(DiffOutput::Report(ReportStyle::Compact))
        } else if summary {
            Some(DiffOutput::Report(ReportStyle::Summary))
        } else {
            Some(DiffOutput::Report(ReportStyle::Full))
        }
    } else if same_text(format, "json") {
        Some(DiffOutput::Json)
    } else {
        None
    }
}

/// How a kept comparison is shown.
#[derive(Debug, Clone, Copy, PartialEq, Eq, Structural)]
pub enum LoadOutput {
    Summary,
    Full,
    Json,
}

/// How a kept comparison is shown, where the format is known.
pub open spec fn load_output_of(format: Seq<char>) -> Option<LoadOutput> {
    if format == "summary"@ {
        Some(LoadOutput::Summary)
    } else if format == "full"@ {
        Some(LoadOutput::Full)
    } else if format == "json"@ {
        Some(LoadOutput::Json)
    } else {
        None
    }
}

/// Decides how a kept comparison is shown.
pub fn choose_load_output(format: &str) -> (r: Option<LoadOutput>)
    ensures
        r == load_output_of(format@),
{
    if same_text(format, "summary") {
        Some(LoadOutput::Summary)
    } else if same_text(format, "full") {
        Some(LoadOutput::Full)
    } else if same_text(format, "json") {
        Some(LoadOutput::Json)
    } else {
        None
    }
}

} // verus!
