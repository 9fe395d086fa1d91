//! Answers to questions about kept comparisons.

use vstd::prelude::*;
use vstd::string::*;

use super::{AstDiffDump, DeclarationWithContext, MatchDecision};
use crate::diff::declarations::DeclarationKind;
use crate::diff::matching::{Change, ChangeType};
use crate::text::decimal_text;

use crate::text;

verus! {

/// A question about a kept comparison.
#[derive(Debug, Clone, Copy)]
pub enum DumpQuery<'a> {
    Find { name: &'a str },
    UnmatchedFrom1,
    UnmatchedFrom2,
    Match { name: &'a str },
}

/// The name of a kind of declarations.
pub open spec fn kind_name_of(kind: DeclarationKind) -> Seq<char> {
    match kind {
        DeclarationKind::Function => "Function"@,
        DeclarationKind::Variable => "Variable"@,
        DeclarationKind::Class => "Class"@,
        DeclarationKind::Import => "Import"@,
        DeclarationKind::Export => "Export"@,
    }
}

/// The name of a kind of declarations.
pub fn kind_name(kind: DeclarationKind) -> (name: &'static str)
    ensures
        name@ == kind_name_of(kind),
{
    match kind {
        DeclarationKind::Function => "Function",
        DeclarationKind::Variable => "Variable",
        DeclarationKind::Class => "Class",
        DeclarationKind::Import => "Import",
        DeclarationKind::Export => "Export",
    }
}

/// What is shown of a decision.
pub open spec fn decision_of(decision: Option<MatchDecision>) -> Seq<char> {
    match decision {
        None => Seq::empty(),
        Some(d) => "  Match decision: "@ + d.reason@ + "\n"@ + match d.matched_to {
            None => Seq::empty(),
            Some(row) => "  Matched to index: "@ + text::decimal_of(row as nat) + "\n"@,
        },
    }
}

/// What is shown of a declaration that was found.
pub open spec fn found_of(name: Seq<char>, path: Seq<char>, d: DeclarationWithContext) -> Seq<
    char,
> {
    "Found declaration '"@ + name + "' in "@ + path + ":\n  Kind: "@ + kind_name_of(d.decl.kind)
        + "\n  Line: "@ + text::decimal_of(d.decl.line as nat) + "\n  Signature: "@
        + d.decl.signature@ + "\n"@ + decision_of(d.match_decision)
}

/// What is shown of a declaration in a list.
pub open spec fn listed(d: DeclarationWithContext) -> Seq<char> {
    "  - "@ + d.decl.name@ + " (line "@ + text::decimal_of(d.decl.line as nat) + "): "@
        + d.decl.kind.label_spec() + "\n"@
}

/// What is shown of the declarations at some rows.
pub open spec fn listed_upto(
    rows: Seq<DeclarationWithContext>,
    at: Seq<int>,
    count: int,
) -> Seq<char>
    decreases count,
{
    if count <= 0 {
        Seq::empty()
    } else {
        listed_upto(rows, at, count - 1) + listed(rows[at[count - 1]])
    }
}

/// What is shown of the declarations of a text without a match.
pub open spec fn unmatched_text(
    path: Seq<char>,
    rows: Seq<DeclarationWithContext>,
    at: Seq<int>,
) -> Seq<char> {
    "Unmatched declarations from "@ + path + " ("@ + text::decimal_of(at.len()) + " total):\n"@
        + listed_upto(rows, at, at.len() as int)
}

/// What is shown of the match of a declaration of the first text.
pub open spec fn match_text(dump: AstDiffDump, name: Seq<char>) -> Seq<char> {
    let path1 = dump.file1_data.path@;
    match super::named_from(dump.file1_data.declarations@, name, 0) {
        None => "Declaration '"@ + name + "' not found in "@ + path1 + "\n"@,
        Some(row) => match super::match_from(dump.matching.matches@, row as usize, 0) {
            None => "Declaration '"@ + name + "' from "@ + path1 + " has no match\n"@,
            Some(at) => {
                let pair = dump.matching.matches@[at];
                let decl2 = dump.file2_data.declarations@[pair.idx2 as int].decl;
                "Declaration '"@ + name + "' from "@ + path1 + " matches:\n  -> "@ + decl2.name@
                    + " (line "@ + text::decimal_of(decl2.line as nat) + ") in "@
                    + dump.file2_data.path@ + "\n  Similarity: "@ + pair.percent@
                    + "%\n  Evidence count: "@ + text::decimal_of(pair.evidence_count as nat)
                    + "\n"@
            },
        },
    }
}

/// Whether every match is of declarations that the texts have.
pub open spec fn matches_have_rows(dump: AstDiffDump) -> bool {
    forall|i: int|
        #![trigger dump.matching.matches@[i]]
        0 <= i < dump.matching.matches@.len() ==> dump.matching.matches@[i].idx2
            < dump.file2_data.declarations@.len()
}

/// The answer to a question.
pub open spec fn answer_of(dump: AstDiffDump, query: DumpQuery<'_>) -> Seq<char> {
    let rows1 = dump.file1_data.declarations@;
    let rows2 = dump.file2_data.declarations@;
    match query {
        DumpQuery::Find { name } => match super::named_from(rows1, name@, 0) {
            Some(row) => found_of(name@, dump.file1_data.path@, rows1[row]),
            None => match super::named_from(rows2, name@, 0) {
                Some(row) => found_of(name@, dump.file2_data.path@, rows2[row]),
                None => "Declaration '"@ + name@ + "' not found in dump\n"@,
            },
        },
        DumpQuery::UnmatchedFrom1 => unmatched_text(
            dump.file1_data.path@,
            rows1,
            super::unmatched_upto(dump.matching.matches@, true, rows1.len() as int),
        ),
        DumpQuery::UnmatchedFrom2 => unmatched_text(
            dump.file2_data.path@,
            rows2,
            super::unmatched_upto(dump.matching.matches@, false, rows2.len() as int),
        ),
        DumpQuery::Match { name } => match_text(dump, name@),
    }
}

fn show_number(n: usize) -> (r: String)
    ensures
        r@ == text::decimal_of(n as nat),
{
    decimal_text(n as u64)
}

fn show_decision(decision: &Option<MatchDecision>) -> (r: String)
    ensures
        r@ == decision_of(*decision),
{
    match decision {
        None => String::new(),
        Some(d) => {
            let target = match d.matched_to {
                None => String::new(),
                Some(row) => "  Matched to index: ".to_string().concat(
                    show_number(row).as_str(),
                ).concat("\n"),
            };
            "  Match decision: ".to_string().concat(d.reason.as_str()).concat("\n").concat(
                target.as_str(),
            )
        },
    }
}

fn show_found(name: &str, path: &str, d: &DeclarationWithContext) -> (r: String)
    ensures
        r@ == found_of(name@, path@, *d),
{
    "Found declaration '".to_string().concat(name).concat("' in ").concat(path).concat(
        ":\n  Kind: ",
    ).concat(kind_name(d.decl.kind)).concat("\n  Line: ").concat(
        show_number(d.decl.line).as_str(),
    ).concat("\n  Signature: ").concat(d.decl.signature.as_str()).concat("\n").concat(
        show_decision(&d.match_decision).as_str(),
    )
}

fn show_unmatched(
    path: &str,
    found: &Vec<&DeclarationWithContext>,
    rows: Ghost<Seq<DeclarationWithContext>>,
    at: Ghost<Seq<int>>,
) -> (r: String)
    requires
        super::are_rows(found@, rows@, at@),
    ensures
        r@ == unmatched_text(path@, rows@, at@),
{
    let mut list = String::new();
    let mut i: usize = 0;
    assert(list@ =~= listed_upto(rows@, at@, 0));
    while i < found.len()
        invariant
            super::are_rows(found@, rows@, at@),
            i <= found@.len(),
            list@ == listed_upto(rows@, at@, i as int),
        decreases found@.len() - i,
    {
        let d = found[i];
        assert(*d == rows@[at@[i as int]]);
        let line = "  - ".to_string().concat(d.decl.name.as_str()).concat(" (line ").concat(
            show_number(d.decl.line).as_str(),
        ).concat("): ").concat(d.decl.kind.label()).concat("\n");
        list = list.concat(line.as_str());
        i += 1;
    }
    "Unmatched declarations from ".to_string().concat(path).concat(" (").concat(
        show_number(found.len()).as_str(),
    ).concat(" total):\n").concat(list.as_str())
}

impl AstDiffDump {
    /// Whether every match is of declarations that the texts have.
    pub fn has_match_rows(&self) -> (r: bool)
        ensures
            r == matches_have_rows(*self),
    {
        let mut i: usize = 0;
        while i < self.matching.matches.len()
            invariant
                i <= self.matching.matches@.len(),
                forall|k: int|
                    #![trigger self.matching.matches@[k]]
                    0 <= k < i ==> self.matching.matches@[k].idx2
                        < self.file2_data.declarations@.len(),
            decreases self.matching.matches@.len() - i,
        {
            if self.matching.matches[i].idx2 >= self.file2_data.declarations.len() {
                return false;
            }
            i += 1;
        }
        true
    }

    fn show_match(&self, name: &str) -> (r: String)
        requires
            matches_have_rows(*self),
        ensures
            r@ == match_text(*self, name@),
    {
        let path1 = self.file1_data.path.as_str();
        let row = match super::find_named(&self.file1_data.declarations, name) {
            Some(row) => row,
            None => {
                return "Declaration '".to_string().concat(name).concat("' not found in ").concat(
                    path1,
                ).concat("\n");
            },
        };
        proof {
            super::lemma_match_from(self.matching.matches@, row, 0);
        }
        match self.get_match_for(row) {
            None => "Declaration '".to_string().concat(name).concat("' from ").concat(
                path1,
            ).concat(" has no match\n"),
            Some(pair) => {
                let decl2 = &self.file2_data.declarations[pair.idx2].decl;
                "Declaration '".to_string().concat(name).concat("' from ").concat(path1).concat(
                    " matches:\n  -> ",
                ).concat(decl2.name.as_str()).concat(" (line ").concat(
                    show_number(decl2.line).as_str(),
                ).concat(") in ").concat(self.file2_data.path.as_str()).concat(
                    "\n  Similarity: ",
                ).concat(pair.percent.as_str()).concat("%\n  Evidence count: ").concat(
                    show_number(pair.evidence_count).as_str(),
                ).concat("\n")
            },
        }
    }

    /// Answers a question.
    pub fn answer(&self, query: DumpQuery<'_>) -> (r: String)
        requires
            query is Match ==> matches_have_rows(*self),
        ensures
            r@ == answer_of(*self, query),
    {
        match query {
            DumpQuery::Find { name } => {
                match super::find_named(&self.file1_data.declarations, name) {
                    Some(row) => show_found(
                        name,
                        self.file1_data.path.as_str(),
                        &self.file1_data.declarations[row],
                    ),
                    None => match super::find_named(&self.file2_data.declarations, name) {
                        Some(row) => show_found(
                            name,
                            self.file2_data.path.as_str(),
                            &self.file2_data.declarations[row],
                        ),
                        None => "Declaration '".to_string().concat(name).concat(
                            "' not found in dump\n",
                        ),
                    },
                }
            },
            DumpQuery::UnmatchedFrom1 => show_unmatched(
                self.file1_data.path.as_str(),
                &self.unmatched_from_file1(),
                Ghost(self.file1_data.declarations@),
                Ghost(
                    super::unmatched_upto(
                        self.matching.matches@,
                        true,
                        self.file1_data.declarations@.len() as int,
                    ),
                ),
            ),
            DumpQuery::UnmatchedFrom2 => show_unmatched(
                self.file2_data.path.as_str(),
                &self.unmatched_from_file2(),
                Ghost(self.file2_data.declarations@),
                Ghost(
                    super::unmatched_upto(
                        self.matching.matches@,
                        false,
                        self.file2_data.declarations@.len() as int,
                    ),
                ),
            ),
            DumpQuery::Match { name } => self.show_match(name),
        }
    }
}

/// What is told of whether a kept comparison is still valid.
pub open spec fn validity_text(dump: AstDiffDump, valid: bool) -> Seq<char> {
    if valid {
        "\u{2713} Dump is valid for the provided source files\n"@
    } else {
        "\u{2717} Dump is NOT valid - source files have changed\n  Expected files:\n    - "@
            + dump.file1_data.path@ + "\n    - "@ + dump.file2_data.path@ + "\n"@
    }
}

impl AstDiffDump {
    /// Tells whether a kept comparison is still valid for two texts.
    pub fn tell_validity(&self, content1: &[u8], content2: &[u8]) -> (r: String)
        ensures
            r@ == validity_text(
                *self,
                crate::digest::sha256_of(content1@) == self.file1_data.content_hash@
                    && crate::digest::sha256_of(content2@) == self.file2_data.content_hash@,
            ),
    {
        if self.validate(content1, content2) {
            "\u{2713} Dump is valid for the provided source files\n".to_string()
        } else {
            "\u{2717} Dump is NOT valid - source files have changed\n  Expected files:\n    - ".to_string().concat(
            self.file1_data.path.as_str()).concat("\n    - ").concat(
                self.file2_data.path.as_str(),
            ).concat("\n")
        }
    }
}

/// How many of the first `count` changes are of a type.
pub open spec fn changes_upto(changes: Seq<Change>, wanted: ChangeType, count: int) -> nat
    decreases count,
{
    if count <= 0 {
        0
    } else {
        changes_upto(changes, wanted, count - 1) + if changes[count - 1].change_type == wanted {
            1nat
        } else {
            0
        }
    }
}

fn count_changes(changes: &Vec<Change>, wanted: ChangeType) -> (total: usize)
    ensures
        total == changes_upto(changes@, wanted, changes@.len() as int),
{
    let mut total: usize = 0;
    let mut i: usize = 0;
    while i < changes.len()
        invariant
            i <= changes@.len(),
            total == changes_upto(changes@, wanted, i as int),
            total <= i,
        decreases changes@.len() - i,
    {
        if changes[i].change_type == wanted {
            total += 1;
        }
        i += 1;
    }
    total
}

/// The word for a truth value.
pub open spec fn truth(value: bool) -> Seq<char> {
    if value {
        "true"@
    } else {
        "false"@
    }
}

fn show_truth(value: bool) -> (r: &'static str)
    ensures
        r@ == truth(value),
{
    if value {
        "true"
    } else {
        "false"
    }
}

/// A number as it is shown.
pub open spec fn number(n: nat) -> Seq<char> {
    text::decimal_of(n)
}

/// How a point in time is shown.
pub const TIME_PATTERN: &'static str = "%Y-%m-%d %H:%M:%S UTC";

/// What `chrono::DateTime::format` makes, by a pattern, of the point in time
/// that `chrono::DateTime::from_timestamp` finds a number of seconds after the
/// start of 1970 in UTC, where it finds one.
pub uninterp spec fn utc_text(seconds: i64, pattern: Seq<char>) -> Option<Seq<char>>;

/// Calls `chrono::DateTime::from_timestamp` and `chrono::DateTime::format`.
/// Claims that the text, and whether there is one, is a function of the seconds
/// and the pattern. Only the pattern that the library has is asked for: a
/// malformed one cannot be formatted.
#[verifier::external_body]
fn call_format_time(seconds: i64, pattern: &str) -> (r: Option<String>)
    requires
        pattern@ == TIME_PATTERN@,
    ensures
        match r {
            Some(time) => utc_text(seconds, pattern@) == Some(time@),
            None => utc_text(seconds, pattern@) is None,
        },
{
    let time = chrono::DateTime::<chrono::Utc>::from_timestamp(seconds, 0)?;
    Some(time.format(pattern).to_string())
}

/// A point in time as it is shown, where there is one.
pub open spec fn time_text(time: Option<Seq<char>>) -> Seq<char> {
    match time {
        Some(time) => time,
        None => "Unknown"@,
    }
}

/// Shows a point in time, where there is one.
pub fn show_time(time: Option<String>) -> (r: String)
    ensures
        r@ == time_text(text::optional_view(time)),
{
    match time {
        Some(time) => time,
        None => "Unknown".to_string(),
    }
}

/// What is shown of a kept comparison as a whole. When it was made, the
/// threshold and the similarity are given as they are shown.
pub open spec fn summary_of(
    dump: AstDiffDump,
    created: Seq<char>,
    threshold: Seq<char>,
    similarity: Seq<char>,
) -> Seq<char> {
    let changes = dump.diff_result.changes@;
    let total = changes.len() as int;
    "=== AstDiff Dump Summary ===\nVersion: "@ + number(dump.header.version as nat)
        + "\nCreated: "@ + created + "\nTool version: "@ + dump.metadata.tool_version@
        + "\n\nConfiguration:\n  Use fingerprints: "@ + truth(
        dump.metadata.config.use_fingerprints,
    ) + "\n  Parallel matching: "@ + truth(dump.metadata.config.parallel_matching)
        + "\n  Threshold: "@ + threshold + "\n\nFiles:\n  File 1: "@ + dump.file1_data.path@
        + " ("@ + number(dump.file1_data.declarations@.len()) + " declarations)\n  File 2: "@
        + dump.file2_data.path@ + " ("@ + number(dump.file2_data.declarations@.len())
        + " declarations)\n\nMatching results:\n  Total matches: "@ + number(
        dump.matching.matches@.len(),
    ) + "\n  Similarity: "@ + similarity + "%\n  Changes: "@ + number(changes.len())
        + "\n    - Additions: "@ + number(changes_upto(changes, ChangeType::Addition, total))
        + "\n    - Deletions: "@ + number(changes_upto(changes, ChangeType::Deletion, total))
        + "\n    - Modifications: "@ + number(
        changes_upto(changes, ChangeType::Modification, total),
    ) + "\n"@
}

impl AstDiffDump {
    /// Shows when a kept comparison was made.
    pub fn created(&self) -> (r: String)
        ensures
            r@ == time_text(utc_text(self.metadata.timestamp as i64, TIME_PATTERN@)),
    {
        show_time(call_format_time(self.metadata.timestamp as i64, TIME_PATTERN))
    }

    /// Shows a kept comparison as a whole.
    pub fn summary(&self, created: &str, threshold: &str, similarity: &str) -> (r: String)
        ensures
            r@ == summary_of(*self, created@, threshold@, similarity@),
    {
        let changes = &self.diff_result.changes;
        let config = &self.metadata.config;
        "=== AstDiff Dump Summary ===\nVersion: ".to_string().concat(
            decimal_text(self.header.version as u64).as_str(),
        ).concat("\nCreated: ").concat(created).concat("\nTool version: ").concat(
            self.metadata.tool_version.as_str(),
        ).concat("\n\nConfiguration:\n  Use fingerprints: ").concat(
            show_truth(config.use_fingerprints),
        ).concat("\n  Parallel matching: ").concat(show_truth(config.parallel_matching)).concat(
            "\n  Threshold: ",
        ).concat(threshold).concat("\n\nFiles:\n  File 1: ").concat(
            self.file1_data.path.as_str(),
        ).concat(" (").concat(show_number(self.file1_data.declarations.len()).as_str()).concat(
            " declarations)\n  File 2: ",
        ).concat(self.file2_data.path.as_str()).concat(" (").concat(
            show_number(self.file2_data.declarations.len()).as_str(),
        ).concat(" declarations)\n\nMatching results:\n  Total matches: ").concat(
            show_number(self.matching.matches.len()).as_str(),
        ).concat("\n  Similarity: ").concat(similarity).concat("%\n  Changes: ").concat(
            show_number(changes.len()).as_str(),
        ).concat("\n    - Additions: ").concat(
            show_number(count_changes(changes, ChangeType::Addition)).as_str(),
        ).concat("\n    - Deletions: ").concat(
            show_number(count_changes(changes, ChangeType::Deletion)).as_str(),
        ).concat("\n    - Modifications: ").concat(
            show_number(count_changes(changes, ChangeType::Modification)).as_str(),
        ).concat("\n")
    }
}

} // verus!
