//! What a command line asks for. Paths are of any type `P`.

use vstd::prelude::*;
use vstd::string::*;

verus! {

/// A command line.
#[derive(Debug)]
pub struct Args<P> {
    pub command: Option<Command<P>>,
    /// The first file to compare.
    pub file1: Option<P>,
    /// The second file to compare.
    pub file2: Option<P>,
    pub format: String,
    pub export_mappings: Option<P>,
    pub summary: bool,
    pub verbose: bool,
    pub fingerprints: bool,
    pub compact: bool,
    /// Another spelling of `compact`.
    pub lite: bool,
    pub dump: Option<P>,
}

/// A subcommand.
#[derive(Debug)]
pub enum Command<P> {
    /// Validate and query source maps.
    SourceMap { command: SourceMapCommand<P> },
    /// Match the symbols of two texts.
    Lineage {
        source_file: P,
        target_file: P,
        source_map_source: Option<P>,
        source_map_target: Option<P>,
        allow_sources_content: bool,
        output: P,
        min_score_bps: u32,
        min_margin_bps: u32,
        max_candidates: usize,
    },
    /// Export, validate, edit and propagate names.
    Names { command: NameCommand<P> },
    /// Write the facts of a text into a file.
    Analyze { input_file: P, output: P },
    /// Read facts from a file.
    Analysis { analysis_file: P, query: AnalysisQuery },
    /// Rename the variables of a text.
    Canon { input_file: P, map: Option<Option<P>>, preserve_comments: bool, pretty: bool },
    /// Show one declaration of a text.
    Inspect { input_file: P, compare_file: Option<P>, identifier: String },
    /// Question a kept comparison.
    Query { dump_file: P, query_type: QueryType<P> },
    /// Show a kept comparison.
    Load { dump_file: P, format: String },
}

/// A question about persisted facts.
#[derive(Debug, Clone, Copy, PartialEq, Eq, Structural)]
pub enum AnalysisQuery {
    Summary,
    Node { index: usize },
    Scope { index: usize },
    Symbol { index: usize },
    Reference { index: usize },
    DefUse { index: usize },
    Call { index: usize },
    String { index: usize },
    Loss { index: usize },
}

/// A question about a kept comparison.
#[derive(Debug)]
pub enum QueryType<P> {
    Find { name: String },
    UnmatchedFrom1,
    UnmatchedFrom2,
    Match { name: String },
    Validate { file1: P, file2: P },
}

/// What to do with source maps.
#[derive(Debug)]
pub enum SourceMapCommand<P> {
    Validate { map_file: P, allow_sources_content: bool },
    Lookup {
        map_file: P,
        line: u32,
        column: u32,
        allow_sources_content: bool,
        include_source_names: bool,
    },
    ComposeLookup {
        outer_map: P,
        inner_map: P,
        line: u32,
        column: u32,
        allow_sources_content: bool,
        include_source_names: bool,
    },
    Cache { map_file: P, generated_file: P, output: P, allow_sources_content: bool },
    CacheValidate { cache_file: P, generated_file: P },
    CacheLookup {
        cache_file: P,
        generated_file: P,
        line: u32,
        column: u32,
        include_source_names: bool,
    },
}

/// What to do with names.
#[derive(Debug)]
pub enum NameCommand<P> {
    Export { input_file: P, output: P, include_generated_names: bool },
    Validate { document: P, source_file: Option<P> },
    Suggest {
        document: P,
        symbol_id: String,
        semantic_name: String,
        expected_revision: u64,
        origin: String,
    },
    Approve { document: P, symbol_id: String, expected_revision: u64, origin: String },
    Reject { document: P, symbol_id: String, expected_revision: u64, origin: String },
    Clear { document: P, symbol_id: String, expected_revision: u64, origin: String },
    Propagate {
        source_names: P,
        lineage: P,
        source_file: P,
        target_file: P,
        source_map_source: Option<P>,
        source_map_target: Option<P>,
        allow_sources_content: bool,
        output: P,
        render_output: Option<P>,
        render_format: String,
    },
    Render { document: P, target_file: P, output: P, format: String },
}

/// What is to be done.
#[derive(Debug)]
pub enum Mode<P> {
    SourceMap(SourceMapCommand<P>),
    Lineage {
        source_file: P,
        target_file: P,
        source_map_source: Option<P>,
        source_map_target: Option<P>,
        allow_sources_content: bool,
        output: P,
        min_score_bps: u32,
        min_margin_bps: u32,
        max_candidates: usize,
    },
    Names(NameCommand<P>),
    Analyze { input_file: P, output: P },
    Analysis { analysis_file: P, query: AnalysisQuery },
    Canonicalize { input_file: P, preserve_comments: bool, pretty: bool },
    GenerateMapping { input_file: P, preserve_comments: bool, pretty: bool },
    ApplyMapping { input_file: P, map_file: P, preserve_comments: bool, pretty: bool },
    Diff {
        file1: P,
        file2: P,
        format: String,
        export_mappings: Option<P>,
        summary: bool,
        verbose: bool,
        fingerprints: bool,
        compact: bool,
        lite: bool,
        dump: Option<P>,
    },
    Inspect { input_file: P, compare_file: Option<P>, identifier: String },
    Query { dump_file: P, query_type: QueryType<P> },
    Load { dump_file: P, format: String },
}

/// What a command line asks for, where it asks for anything: without a
/// subcommand, two files are compared.
pub open spec fn mode_of<P>(args: Args<P>) -> Option<Mode<P>> {
    match args.command {
        Some(Command::Canon { input_file, map, preserve_comments, pretty }) => match map {
            None => Some(Mode::Canonicalize { input_file, preserve_comments, pretty }),
            Some(None) => Some(Mode::GenerateMapping { input_file, preserve_comments, pretty }),
            Some(Some(map_file)) => Some(
                Mode::ApplyMapping { input_file, map_file, preserve_comments, pretty },
            ),
        },
        Some(Command::SourceMap { command }) => Some(Mode::SourceMap(command)),
        Some(
            Command::Lineage {
                source_file,
                target_file,
                source_map_source,
                source_map_target,
                allow_sources_content,
                output,
                min_score_bps,
                min_margin_bps,
                max_candidates,
            },
        ) => Some(
            Mode::Lineage {
                source_file,
                target_file,
                source_map_source,
                source_map_target,
                allow_sources_content,
                output,
                min_score_bps,
                min_margin_bps,
                max_candidates,
            },
        ),
        Some(Command::Names { command }) => Some(Mode::Names(command)),
        Some(Command::Analyze { input_file, output }) => Some(
            Mode::Analyze { input_file, output },
        ),
        Some(Command::Analysis { analysis_file, query }) => Some(
            Mode::Analysis { analysis_file, query },
        ),
        Some(Command::Inspect { input_file, compare_file, identifier }) => Some(
            Mode::Inspect { input_file, compare_file, identifier },
        ),
        Some(Command::Query { dump_file, query_type }) => Some(
            Mode::Query { dump_file, query_type },
        ),
        Some(Command::Load { dump_file, format }) => Some(Mode::Load { dump_file, format }),
        None => match (args.file1, args.file2) {
            (Some(file1), Some(file2)) => Some(
                Mode::Diff {
                    file1,
                    file2,
                    format: args.format,
                    export_mappings: args.export_mappings,
                    summary: args.summary,
                    verbose: args.verbose,
                    fingerprints: args.fingerprints,
                    compact: args.compact,
                    lite: args.lite,
                    dump: args.dump,
                },
            ),
            _ => None,
        },
    }
}

impl<P> Args<P> {
    /// What the command line asks for, where it asks for anything.
    pub fn mode(self) -> (mode: Option<Mode<P>>)
        ensures
            mode == mode_of(self),
    {
        match self.command {
            Some(Command::Canon { input_file, map, preserve_comments, pretty }) => match map {
                None => Some(Mode::Canonicalize { input_file, preserve_comments, pretty }),
                Some(None) => Some(
                    Mode::GenerateMapping { input_file, preserve_comments, pretty },
                ),
                Some(Some(map_file)) => Some(
                    Mode::ApplyMapping { input_file, map_file, preserve_comments, pretty },
                ),
            },
            Some(Command::SourceMap { command }) => Some(Mode::SourceMap(command)),
            Some(
                Command::Lineage {
                    source_file,
                    target_file,
                    source_map_source,
                    source_map_target,
                    allow_sources_content,
                    output,
                    min_score_bps,
                    min_margin_bps,
                    max_candidates,
                },
            ) => Some(
                Mode::Lineage {
                    source_file,
                    target_file,
                    source_map_source,
                    source_map_target,
                    allow_sources_content,
                    output,
                    min_score_bps,
                    min_margin_bps,
                    max_candidates,
                },
            ),
            Some(Command::Names { command }) => Some(Mode::Names(command)),
            Some(Command::Analyze { input_file, output }) => Some(
                Mode::Analyze { input_file, output },
            ),
            Some(Command::Analysis { analysis_file, query }) => Some(
                Mode::Analysis { analysis_file, query },
            ),
            Some(Command::Inspect { input_file, compare_file, identifier }) => Some(
                Mode::Inspect { input_file, compare_file, identifier },
            ),
            Some(Command::Query { dump_file, query_type }) => Some(
                Mode::Query { dump_file, query_type },
            ),
            Some(Command::Load { dump_file, format }) => Some(Mode::Load { dump_file, format }),
            None => match (self.file1, self.file2) {
                (Some(file1), Some(file2)) => Some(
                    Mode::Diff {
                        file1,
                        file2,
                        format: self.format,
                        export_mappings: self.export_mappings,
                        summary: self.summary,
                        verbose: self.verbose,
                        fingerprints: self.fingerprints,
                        compact: self.compact,
                        lite: self.lite,
                        dump: self.dump,
                    },
                ),
                _ => None,
            },
        }
    }
}

/// What is told where a command line asks for nothing.
pub open spec fn usage_text() -> Seq<char> {
    "Error: Two files required for diff\n\nUsage:\n  astdiff FILE1 FILE2                    # Compare two JavaScript files\n  astdiff FILE1 FILE2 --summary          # Show only summary of changes\n  astdiff FILE1 FILE2 --compact          # Show compact location summary\n  astdiff canon INPUT_FILE               # Canonicalize JavaScript\n  astdiff canon INPUT_FILE --map         # Generate mapping template\n  astdiff canon INPUT_FILE --map MAP.yaml # Apply mappings\n\nFor more information, run: astdiff --help\n"@
}

/// What is told where a command line asks for nothing.
pub fn usage() -> (text: &'static str)
    ensures
        text@ == usage_text(),
{
    "Error: Two files required for diff\n\nUsage:\n  astdiff FILE1 FILE2                    # Compare two JavaScript files\n  astdiff FILE1 FILE2 --summary          # Show only summary of changes\n  astdiff FILE1 FILE2 --compact          # Show compact location summary\n  astdiff canon INPUT_FILE               # Canonicalize JavaScript\n  astdiff canon INPUT_FILE --map         # Generate mapping template\n  astdiff canon INPUT_FILE --map MAP.yaml # Apply mappings\n\nFor more information, run: astdiff --help\n"
}

} // verus!
