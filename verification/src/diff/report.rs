//! Reports on how two texts differ.

use vstd::prelude::*;
use vstd::string::*;

use super::matching::{Change, ChangeType, DiffResult};
use super::normalize::DiffClassification;
use super::StructuralDiff;
use crate::text::{
    chars_of, decimal_text, join_texts, position_of_char, slice_chars, split_lines, string_of,
};

use super::matching;
use super::matching::{ChangeModel, DiffModel, LocationModel};
use crate::text;

verus! {

/// The part of a report that a change belongs to.
#[derive(Debug, Clone, Copy, PartialEq, Eq, Structural)]
pub enum Section {
    Removed,
    Added,
    Code,
    Strings,
}

/// The part of a report that a change belongs to, if any.
pub open spec fn section_of(change: ChangeModel) -> Option<Section> {
    match change.change_type {
        ChangeType::Addition => Some(Section::Added),
        ChangeType::Deletion => Some(Section::Removed),
        ChangeType::Modification => match change.classification {
            Some(DiffClassification::StructuralChange) => Some(Section::Code),
            Some(DiffClassification::StringOnly) => Some(Section::Strings),
            _ => None,
        },
        ChangeType::Reorder => None,
    }
}

/// How many of the first `count` changes belong to a part of a report.
pub open spec fn size_upto(changes: Seq<ChangeModel>, section: Section, count: int) -> nat
    decreases count,
{
    if count <= 0 {
        0
    } else {
        size_upto(changes, section, count - 1) + if section_of(changes[count - 1]) == Some(
            section,
        ) {
            1nat
        } else {
            0
        }
    }
}

/// How many changes belong to a part of a report.
pub open spec fn size_of(result: DiffModel, section: Section) -> nat {
    size_upto(result.changes, section, result.changes.len() as int)
}

/// The difference of two numbers, or zero.
pub open spec fn less(a: int, b: int) -> int {
    if a >= b {
        a - b
    } else {
        0
    }
}

/// How many matched declarations are unchanged.
pub open spec fn unchanged_of(result: DiffModel) -> int {
    less(
        less(result.matched_declarations, size_of(result, Section::Code) as int),
        size_of(result, Section::Strings) as int,
    )
}

/// A change belongs to one part at most.
proof fn lemma_sections_part(changes: Seq<ChangeModel>, count: int)
    requires
        0 <= count,
    ensures
        size_upto(changes, Section::Added, count) + size_upto(changes, Section::Removed, count)
            + size_upto(changes, Section::Code, count) + size_upto(
            changes,
            Section::Strings,
            count,
        ) <= count,
    decreases count,
{
    if count > 0 {
        lemma_sections_part(changes, count - 1);
    }
}

fn find_section(change: &Change) -> (section: Option<Section>)
    ensures
        section == section_of(change@),
{
    match change.change_type {
        ChangeType::Addition => Some(Section::Added),
        ChangeType::Deletion => Some(Section::Removed),
        ChangeType::Modification => match change.classification {
            Some(DiffClassification::StructuralChange) => Some(Section::Code),
            Some(DiffClassification::StringOnly) => Some(Section::Strings),
            _ => None,
        },
        ChangeType::Reorder => None,
    }
}

fn in_section(change: &Change, section: Section) -> (r: bool)
    ensures
        r == (section_of(change@) == Some(section)),
{
    match find_section(change) {
        Some(found) => found == section,
        None => false,
    }
}

/// How many changes belong to a part of a report.
pub fn section_size(result: &DiffResult, section: Section) -> (size: usize)
    ensures
        size == size_of(result@, section),
        size <= result.changes@.len(),
{
    let ghost models = result@.changes;
    let mut size: usize = 0;
    let mut i: usize = 0;
    while i < result.changes.len()
        invariant
            models == result@.changes,
            i <= result.changes@.len(),
            size <= i,
            size == size_upto(models, section, i as int),
        decreases result.changes@.len() - i,
    {
        assert(models[i as int] == result.changes@[i as int]@);
        if in_section(&result.changes[i], section) {
            size += 1;
        }
        i += 1;
    }
    size
}

/// How many matched declarations are unchanged.
pub fn unchanged_count(result: &DiffResult) -> (count: usize)
    ensures
        count == unchanged_of(result@),
{
    let code = section_size(result, Section::Code);
    let strings = section_size(result, Section::Strings);
    result.matched_declarations.saturating_sub(code).saturating_sub(strings)
}

/// The lines of a range, counted from one.
pub open spec fn range_lines(lines: Seq<Seq<char>>, start_line: int, end_line: int) -> Seq<
    Seq<char>,
> {
    let end = if end_line <= lines.len() {
        end_line
    } else {
        lines.len() as int
    };
    if 0 < start_line <= end {
        lines.subrange(start_line - 1, end)
    } else {
        Seq::empty()
    }
}

/// The text of a range of lines, counted from one.
pub fn extract_source_range(lines: &Vec<String>, start_line: usize, end_line: usize) -> (r: String)
    ensures
        r@ == text::joined(
            range_lines(text::views(lines@), start_line as int, end_line as int),
            "\n"@,
        ),
{
    let ghost models = text::views(lines@);
    let wanted = lines_between(lines, start_line, end_line);
    join_texts(&wanted, "\n")
}

fn lines_between(lines: &Vec<String>, start_line: usize, end_line: usize) -> (r: Vec<String>)
    ensures
        text::views(r@) == range_lines(text::views(lines@), start_line as int, end_line as int),
{
    let ghost models = text::views(lines@);
    assert(models.len() == lines@.len());
    let mut r: Vec<String> = Vec::new();
    let end: usize = if end_line <= lines.len() {
        end_line
    } else {
        lines.len()
    };
    if start_line == 0 || start_line > end {
        assert(text::views(r@) =~= Seq::empty());
        return r;
    }
    let mut i: usize = start_line - 1;
    while i < end
        invariant
            models == text::views(lines@),
            models.len() == lines@.len(),
            0 < start_line <= end <= lines@.len(),
            start_line - 1 <= i <= end,
            text::views(r@) == models.subrange(start_line - 1, i as int),
        decreases end - i,
    {
        let ghost before = r@;
        r.push(lines[i].clone());
        assert(text::views(r@) =~= text::views(before).push(models[i as int]));
        assert(text::views(r@) =~= models.subrange(start_line - 1, i + 1));
        i += 1;
    }
    r
}

/// The name in a description: what stands between its first two single
/// quotes, or else all of it.
pub open spec fn described_name(t: Seq<char>) -> Seq<char> {
    let start = text::find_char(t, '\'', 0);
    let end = text::find_char(t, '\'', start + 1);
    if start < t.len() && end < t.len() {
        t.subrange(start + 1, end)
    } else {
        t
    }
}

/// The name in a description.
pub fn extract_name_from_desc(description: &str) -> (name: String)
    ensures
        name@ == described_name(description@),
{
    let t = chars_of(description);
    proof {
        text::lemma_find_char(t@, '\'', 0);
    }
    let start = position_of_char(&t, '\'', 0);
    if start < t.len() {
        let end = position_of_char(&t, '\'', start + 1);
        if end < t.len() {
            return string_of(&slice_chars(&t, start + 1, end));
        }
    }
    description.to_string()
}

impl StructuralDiff {
    /// How many declarations were added, how many removed, and how many are
    /// affected in all.
    pub fn calculate_line_statistics(&self, result: &DiffResult) -> (r: (usize, usize, usize))
        ensures
            r.0 == size_of(result@, Section::Added),
            r.1 == size_of(result@, Section::Removed),
            r.2 == size_of(result@, Section::Added) + size_of(result@, Section::Removed) + size_of(
                result@,
                Section::Code,
            ) + size_of(result@, Section::Strings),
    {
        let added = section_size(result, Section::Added);
        let removed = section_size(result, Section::Removed);
        let code = section_size(result, Section::Code);
        let strings = section_size(result, Section::Strings);
        let total: usize = result.changes.len();
        proof {
            lemma_sections_part(result@.changes, result@.changes.len() as int);
        }
        (added, removed, added + removed + code + strings)
    }
}

/// The old name and the new one of the first `count` renames; the last one of
/// an old name counts.
pub open spec fn mapping_upto(list: Seq<(Seq<char>, Seq<char>)>, count: int) -> Seq<
    (Seq<char>, Seq<char>),
>
    decreases count,
{
    if count <= 0 {
        Seq::empty()
    } else {
        matching::with_rename(
            mapping_upto(list, count - 1),
            list[count - 1].1,
            list[count - 1].0,
        )
    }
}

impl StructuralDiff {
    /// The old name and the new one of every declaration that was renamed.
    pub fn generate_rename_mapping(&self, result: &DiffResult) -> (mapping: Vec<(String, String)>)
        ensures
            matching::pair_views(mapping@) == mapping_upto(
                result@.rename_map,
                result@.rename_map.len() as int,
            ),
    {
        let ghost list = result@.rename_map;
        assert(list.len() == result.rename_map@.len());
        let mut mapping: Vec<(String, String)> = Vec::new();
        let mut i: usize = 0;
        assert(matching::pair_views(mapping@) =~= mapping_upto(list, 0));
        while i < result.rename_map.len()
            invariant
                list == result@.rename_map,
                list.len() == result.rename_map@.len(),
                i <= result.rename_map@.len(),
                matching::pair_views(mapping@) == mapping_upto(list, i as int),
            decreases result.rename_map@.len() - i,
        {
            let pair = &result.rename_map[i];
            assert(list[i as int] == (pair.0@, pair.1@));
            matching::add_rename(&mut mapping, pair.1.clone(), pair.0.clone());
            i += 1;
        }
        mapping
    }
}

/// What `serde_yaml::to_string` makes of a mapping with these keys and values
/// in this order, where it makes anything.
pub uninterp spec fn yaml_of(mapping: Seq<(Seq<char>, Seq<char>)>) -> Option<Seq<char>>;

/// Calls `serde_yaml::to_string` on a mapping of strings, which writes the
/// entries of the mapping in their order. Claims that the text, and whether
/// there is one, is a function of the entries.
#[verifier::external_body]
fn call_to_yaml(mapping: &Vec<(String, String)>) -> (r: Option<String>)
    ensures
        match r {
            Some(text) => yaml_of(matching::pair_views(mapping@)) == Some(text@),
            None => yaml_of(matching::pair_views(mapping@)) is None,
        },
{
    let entries = mapping.iter().map(|pair| (pair.0.as_str().into(), pair.1.as_str().into()));
    serde_yaml::to_string(&entries.collect::<serde_yaml::Mapping>()).ok()
}

impl StructuralDiff {
    /// Writes the old name and the new one of every declaration that was
    /// renamed as YAML.
    pub fn rename_mapping_yaml(&self, result: &DiffResult) -> (r: Option<String>)
        ensures
            text::optional_view(r) == yaml_of(
                mapping_upto(result@.rename_map, result@.rename_map.len() as int),
            ),
    {
        call_to_yaml(&self.generate_rename_mapping(result))
    }
}

/// What a report is written with besides the changes.
pub struct ReportContext<'a> {
    /// The paths of the two texts.
    pub path1: &'a str,
    pub path2: &'a str,
    /// The file names of the two texts.
    pub name1: &'a str,
    pub name2: &'a str,
    /// The overall similarity as it is shown.
    pub similarity: &'a str,
    pub source1: &'a str,
    pub source2: &'a str,
}

/// The model of a [`ReportContext`].
pub struct ContextModel {
    pub path1: Seq<char>,
    pub path2: Seq<char>,
    pub name1: Seq<char>,
    pub name2: Seq<char>,
    pub similarity: Seq<char>,
    pub source1: Seq<char>,
    pub source2: Seq<char>,
}

impl<'a> View for ReportContext<'a> {
    type V = ContextModel;

    open spec fn view(&self) -> ContextModel {
        ContextModel {
            path1: self.path1@,
            path2: self.path2@,
            name1: self.name1@,
            name2: self.name2@,
            similarity: self.similarity@,
            source1: self.source1@,
            source2: self.source2@,
        }
    }
}

/// A number as it is shown.
pub open spec fn number(n: int) -> Seq<char> {
    text::decimal_of(n as nat)
}

/// The lines that say how many changes of each kind there are.
pub open spec fn change_counts(result: DiffModel) -> Seq<char> {
    "Changes: "@ + number(size_of(result, Section::Added) as int) + " added, "@ + number(
        size_of(result, Section::Removed) as int,
    ) + " removed, "@ + number(size_of(result, Section::Code) as int) + " structural, "@ + number(
        size_of(result, Section::Strings) as int,
    ) + " string-only ("@ + number(unchanged_of(result)) + " unchanged)\n\n"@
}

/// Where a declaration stands, on a line of its own.
pub open spec fn placed_line(
    before: Seq<char>,
    location: Option<LocationModel>,
) -> Seq<char> {
    match location {
        Some(l) => before + number(l.line) + ": "@ + l.code_snippet + "\n"@,
        None => Seq::empty(),
    }
}

/// One change in a summary.
pub open spec fn summary_entry(change: ChangeModel, section: Section) -> Seq<char> {
    match section {
        Section::Removed => "--- "@ + change.description + "\n"@ + placed_line(
            "    at line "@,
            change.location1,
        ),
        Section::Added => "+++ "@ + change.description + "\n"@ + placed_line(
            "    at line "@,
            change.location2,
        ),
        _ => "@@@ "@ + change.description + "\n"@ + placed_line(
            "  - at line "@,
            change.location1,
        ) + placed_line("  + at line "@, change.location2),
    }
}

/// The last line of a location.
pub open spec fn last_line(l: LocationModel) -> int {
    match l.end_line {
        Some(end) => end as int,
        None => l.line,
    }
}

/// The first `count` lines, each behind a mark.
pub open spec fn marked_lines(lines: Seq<Seq<char>>, mark: Seq<char>, count: int) -> Seq<char>
    decreases count,
{
    if count <= 0 {
        Seq::empty()
    } else {
        marked_lines(lines, mark, count - 1) + mark + lines[count - 1] + "\n"@
    }
}

/// A declaration that is in one text alone, with its lines.
pub open spec fn whole_entry(
    before: Seq<char>,
    mark: Seq<char>,
    change: ChangeModel,
    location: Option<LocationModel>,
    name: Seq<char>,
    source: Seq<char>,
) -> Seq<char> {
    match location {
        Some(l) => {
            let lines = text::lines_of(
                text::joined(range_lines(text::lines_of(source), l.line, last_line(l)), "\n"@),
            );
            before + described_name(change.description) + " ("@ + name + ":"@ + number(l.line)
                + "-"@ + number(last_line(l)) + ")\n"@ + marked_lines(
                lines,
                mark,
                lines.len() as int,
            )
        },
        None => Seq::empty(),
    }
}

/// One change in a full report.
pub open spec fn full_entry(c: ContextModel, change: ChangeModel, section: Section) -> Seq<char> {
    match section {
        Section::Removed => whole_entry(
            "\n--- Removed "@,
            "- "@,
            change,
            change.location1,
            c.name1,
            c.source1,
        ),
        Section::Added => whole_entry(
            "\n+++ Added "@,
            "+ "@,
            change,
            change.location2,
            c.name2,
            c.source2,
        ),
        _ => match (change.location1, change.location2) {
            (Some(l1), Some(l2)) => "\n@@@ "@ + change.description + "\n--- "@ + c.name1 + ":"@
                + number(l1.line) + "\n+++ "@ + c.name2 + ":"@ + number(l2.line) + "\n"@
                + change.display_diff,
            _ => Seq::empty(),
        },
    }
}

/// One change in a compact report.
pub open spec fn compact_entry(c: ContextModel, change: ChangeModel, section: Section) -> Seq<
    char,
> {
    let name = described_name(change.description);
    match section {
        Section::Removed => match change.location1 {
            Some(l) => "  "@ + name + " ("@ + c.name1 + ":"@ + number(l.line) + "-"@ + number(
                last_line(l),
            ) + ")\n"@,
            None => Seq::empty(),
        },
        Section::Added => match change.location2 {
            Some(l) => "  "@ + name + " ("@ + c.name2 + ":"@ + number(l.line) + "-"@ + number(
                last_line(l),
            ) + ")\n"@,
            None => Seq::empty(),
        },
        _ => match (change.location1, change.location2) {
            (Some(l1), Some(l2)) => "  "@ + name + " ("@ + c.name1 + ":"@ + number(l1.line)
                + " -> "@ + c.name2 + ":"@ + number(l2.line) + ")"@ + (match (
                section,
                change.percent,
            ) {
                (Section::Code, Some(percent)) => " "@ + percent + "%"@,
                _ => ""@,
            }) + "\n"@,
            _ => Seq::empty(),
        },
    }
}

/// How much a report tells.
#[derive(Debug, Clone, Copy, PartialEq, Eq, Structural)]
pub enum ReportStyle {
    Summary,
    Full,
    Compact,
}

/// One change in a report.
pub open spec fn entry(
    style: ReportStyle,
    c: ContextModel,
    change: ChangeModel,
    section: Section,
) -> Seq<char> {
    match style {
        ReportStyle::Summary => summary_entry(change, section),
        ReportStyle::Full => full_entry(c, change, section),
        ReportStyle::Compact => compact_entry(c, change, section),
    }
}

/// The entries of the first `count` changes that belong to a part.
pub open spec fn entries_upto(
    style: ReportStyle,
    c: ContextModel,
    changes: Seq<ChangeModel>,
    section: Section,
    count: int,
) -> Seq<char>
    decreases count,
{
    if count <= 0 {
        Seq::empty()
    } else {
        let ahead = entries_upto(style, c, changes, section, count - 1);
        if section_of(changes[count - 1]) == Some(section) {
            ahead + entry(style, c, changes[count - 1], section)
        } else {
            ahead
        }
    }
}

/// The heading of a part of a report.
pub open spec fn heading(style: ReportStyle, section: Section, size: int) -> Seq<char> {
    match style {
        ReportStyle::Compact => (match section {
            Section::Removed => "Removed: "@,
            Section::Added => "Added: "@,
            Section::Code => "Structural: "@,
            Section::Strings => "String-only: "@,
        }) + number(size) + "\n"@,
        _ => match section {
            Section::Removed => "=== Removed ===\n"@,
            Section::Added => "=== Added ===\n"@,
            Section::Code => "=== Structural Changes ===\n"@,
            Section::Strings => "=== String Changes ===\n"@,
        },
    }
}

/// A part of a report; nothing where no change belongs to it.
pub open spec fn part(
    style: ReportStyle,
    c: ContextModel,
    result: DiffModel,
    section: Section,
) -> Seq<char> {
    if size_of(result, section) == 0 {
        Seq::empty()
    } else {
        heading(style, section, size_of(result, section) as int) + entries_upto(
            style,
            c,
            result.changes,
            section,
            result.changes.len() as int,
        ) + "\n"@
    }
}

/// All parts of a report.
pub open spec fn parts(style: ReportStyle, c: ContextModel, result: DiffModel) -> Seq<char> {
    part(style, c, result, Section::Removed) + part(style, c, result, Section::Added) + part(
        style,
        c,
        result,
        Section::Code,
    ) + part(style, c, result, Section::Strings)
}

/// The head of a report.
pub open spec fn head(c: ContextModel, label: Seq<char>, result: DiffModel) -> Seq<char> {
    "--- "@ + c.path1 + "\n+++ "@ + c.path2 + "\nStructural similarity: "@ + c.similarity + "%\n"@
        + label + number(result.matched_declarations) + "/"@ + number(result.total_declarations1)
        + " vs "@ + number(result.total_declarations2) + "\n"@
}

/// How many declarations a report affects.
pub open spec fn affected(result: DiffModel) -> int {
    (size_of(result, Section::Added) + size_of(result, Section::Removed) + size_of(
        result,
        Section::Code,
    ) + size_of(result, Section::Strings)) as int
}

/// A report.
pub open spec fn report_of(style: ReportStyle, c: ContextModel, result: DiffModel) -> Seq<char> {
    match style {
        ReportStyle::Summary => head(c, "Matched declarations: "@, result) + "Diff size: "@
            + number(affected(result)) + " declarations (+"@ + number(
            size_of(result, Section::Added) as int,
        ) + " added, -"@ + number(size_of(result, Section::Removed) as int) + " removed)\n"@
            + change_counts(result) + parts(style, c, result),
        ReportStyle::Full => head(c, "Matched: "@, result) + change_counts(result) + parts(
            style,
            c,
            result,
        ),
        ReportStyle::Compact => parts(style, c, result) + "Unchanged: "@ + number(
            unchanged_of(result),
        ) + " (not shown)\n"@,
    }
}

fn show_number(n: usize) -> (r: String)
    ensures
        r@ == number(n as int),
{
    decimal_text(n as u64)
}

fn show_location(before: &str, location: &Option<matching::Location>) -> (r: String)
    ensures
        r@ == placed_line(before@, matching::location_view(*location)),
{
    match location {
        Some(l) => before.to_string().concat(show_number(l.line).as_str()).concat(": ").concat(
            l.code_snippet.as_str(),
        ).concat("\n"),
        None => {
            let r = String::new();
            assert(r@ =~= Seq::empty());
            r
        },
    }
}

fn show_summary_entry(change: &Change, section: Section) -> (r: String)
    ensures
        r@ == summary_entry(change@, section),
{
    match section {
        Section::Removed => "--- ".to_string().concat(change.description.as_str()).concat(
            "\n",
        ).concat(show_location("    at line ", &change.location1).as_str()),
        Section::Added => "+++ ".to_string().concat(change.description.as_str()).concat(
            "\n",
        ).concat(show_location("    at line ", &change.location2).as_str()),
        _ => "@@@ ".to_string().concat(change.description.as_str()).concat("\n").concat(
            show_location("  - at line ", &change.location1).as_str(),
        ).concat(show_location("  + at line ", &change.location2).as_str()),
    }
}

fn end_of(l: &matching::Location) -> (end: usize)
    ensures
        end == last_line(l@),
{
    match l.end_line {
        Some(end) => end,
        None => l.line,
    }
}

fn mark_lines(lines: &Vec<String>, mark: &str) -> (r: String)
    ensures
        r@ == marked_lines(text::views(lines@), mark@, lines@.len() as int),
{
    let ghost models = text::views(lines@);
    let mut r = String::new();
    let mut i: usize = 0;
    assert(r@ =~= marked_lines(models, mark@, 0));
    while i < lines.len()
        invariant
            models == text::views(lines@),
            i <= lines@.len(),
            r@ == marked_lines(models, mark@, i as int),
        decreases lines@.len() - i,
    {
        assert(models[i as int] == lines@[i as int]@);
        r = r.concat(mark).concat(lines[i].as_str()).concat("\n");
        i += 1;
    }
    r
}

fn show_whole_entry(
    before: &str,
    mark: &str,
    change: &Change,
    location: &Option<matching::Location>,
    name: &str,
    source: &str,
) -> (r: String)
    ensures
        r@ == whole_entry(
            before@,
            mark@,
            change@,
            matching::location_view(*location),
            name@,
            source@,
        ),
{
    match location {
        Some(l) => {
            let all = split_lines(source);
            let body = extract_source_range(&all, l.line, end_of(l));
            let lines = split_lines(body.as_str());
            assert(text::views(lines@).len() == lines@.len());
            before.to_string().concat(
                extract_name_from_desc(change.description.as_str()).as_str(),
            ).concat(" (").concat(name).concat(":").concat(show_number(l.line).as_str()).concat(
                "-",
            ).concat(show_number(end_of(l)).as_str()).concat(")\n").concat(
                mark_lines(&lines, mark).as_str(),
            )
        },
        None => {
            let r = String::new();
            assert(r@ =~= Seq::empty());
            r
        },
    }
}

fn show_full_entry(c: &ReportContext<'_>, change: &Change, section: Section) -> (r: String)
    ensures
        r@ == full_entry(c@, change@, section),
{
    match section {
        Section::Removed => show_whole_entry(
            "\n--- Removed ",
            "- ",
            change,
            &change.location1,
            c.name1,
            c.source1,
        ),
        Section::Added => show_whole_entry(
            "\n+++ Added ",
            "+ ",
            change,
            &change.location2,
            c.name2,
            c.source2,
        ),
        _ => match (&change.location1, &change.location2) {
            (Some(l1), Some(l2)) => "\n@@@ ".to_string().concat(
                change.description.as_str(),
            ).concat("\n--- ").concat(c.name1).concat(":").concat(
                show_number(l1.line).as_str(),
            ).concat("\n+++ ").concat(c.name2).concat(":").concat(
                show_number(l2.line).as_str(),
            ).concat("\n").concat(change.display_diff.as_str()),
            _ => {
                let r = String::new();
                assert(r@ =~= Seq::empty());
                r
            },
        },
    }
}

fn show_range(
    name: &str,
    file: &str,
    location: &Option<matching::Location>,
) -> (r: String)
    ensures
        r@ == match matching::location_view(*location) {
            Some(l) => "  "@ + name@ + " ("@ + file@ + ":"@ + number(l.line) + "-"@ + number(
                last_line(l),
            ) + ")\n"@,
            None => Seq::empty(),
        },
{
    match location {
        Some(l) => "  ".to_string().concat(name).concat(" (").concat(file).concat(":").concat(
            show_number(l.line).as_str(),
        ).concat("-").concat(show_number(end_of(l)).as_str()).concat(")\n"),
        None => {
            let r = String::new();
            assert(r@ =~= Seq::empty());
            r
        },
    }
}

fn show_compact_entry(c: &ReportContext<'_>, change: &Change, section: Section) -> (r: String)
    ensures
        r@ == compact_entry(c@, change@, section),
{
    let name = extract_name_from_desc(change.description.as_str());
    match section {
        Section::Removed => show_range(name.as_str(), c.name1, &change.location1),
        Section::Added => show_range(name.as_str(), c.name2, &change.location2),
        _ => match (&change.location1, &change.location2) {
            (Some(l1), Some(l2)) => {
                let percent = match (section, &change.percent) {
                    (Section::Code, Some(percent)) => " ".to_string().concat(
                        percent.as_str(),
                    ).concat("%"),
                    _ => "".to_string(),
                };
                "  ".to_string().concat(name.as_str()).concat(" (").concat(c.name1).concat(
                    ":",
                ).concat(show_number(l1.line).as_str()).concat(" -> ").concat(c.name2).concat(
                    ":",
                ).concat(show_number(l2.line).as_str()).concat(")").concat(
                    percent.as_str(),
                ).concat("\n")
            },
            _ => {
                let r = String::new();
                assert(r@ =~= Seq::empty());
                r
            },
        },
    }
}

fn show_heading(style: ReportStyle, section: Section, size: usize) -> (r: String)
    ensures
        r@ == heading(style, section, size as int),
{
    match style {
        ReportStyle::Compact => {
            let label = match section {
                Section::Removed => "Removed: ",
                Section::Added => "Added: ",
                Section::Code => "Structural: ",
                Section::Strings => "String-only: ",
            };
            label.to_string().concat(show_number(size).as_str()).concat("\n")
        },
        _ => match section {
            Section::Removed => "=== Removed ===\n".to_string(),
            Section::Added => "=== Added ===\n".to_string(),
            Section::Code => "=== Structural Changes ===\n".to_string(),
            Section::Strings => "=== String Changes ===\n".to_string(),
        },
    }
}

fn show_part(
    style: ReportStyle,
    c: &ReportContext<'_>,
    result: &DiffResult,
    section: Section,
) -> (r: String)
    ensures
        r@ == part(style, c@, result@, section),
{
    let ghost models = result@.changes;
    let size = section_size(result, section);
    if size == 0 {
        let r = String::new();
        assert(r@ =~= Seq::empty());
        return r;
    }
    let mut r = show_heading(style, section, size);
    let ghost before = r@;
    let mut i: usize = 0;
    assert(r@ =~= before + entries_upto(style, c@, models, section, 0));
    while i < result.changes.len()
        invariant
            models == result@.changes,
            i <= result.changes@.len(),
            r@ == before + entries_upto(style, c@, models, section, i as int),
        decreases result.changes@.len() - i,
    {
        let change = &result.changes[i];
        assert(models[i as int] == change@);
        if in_section(change, section) {
            let shown = match style {
                ReportStyle::Summary => show_summary_entry(change, section),
                ReportStyle::Full => show_full_entry(c, change, section),
                ReportStyle::Compact => show_compact_entry(c, change, section),
            };
            r = r.concat(shown.as_str());
        }
        assert(r@ =~= before + entries_upto(style, c@, models, section, i + 1));
        i += 1;
    }
    assert(models.len() == result.changes@.len());
    r.concat("\n")
}

fn show_counts(result: &DiffResult) -> (r: String)
    ensures
        r@ == change_counts(result@),
{
    "Changes: ".to_string().concat(
        show_number(section_size(result, Section::Added)).as_str(),
    ).concat(" added, ").concat(
        show_number(section_size(result, Section::Removed)).as_str(),
    ).concat(" removed, ").concat(
        show_number(section_size(result, Section::Code)).as_str(),
    ).concat(" structural, ").concat(
        show_number(section_size(result, Section::Strings)).as_str(),
    ).concat(" string-only (").concat(show_number(unchanged_count(result)).as_str()).concat(
        " unchanged)\n\n",
    )
}

fn show_head(c: &ReportContext<'_>, label: &str, result: &DiffResult) -> (r: String)
    ensures
        r@ == head(c@, label@, result@),
{
    "--- ".to_string().concat(c.path1).concat("\n+++ ").concat(c.path2).concat(
        "\nStructural similarity: ",
    ).concat(c.similarity).concat("%\n").concat(label).concat(
        show_number(result.matched_declarations).as_str(),
    ).concat("/").concat(show_number(result.total_declarations1).as_str()).concat(" vs ").concat(
        show_number(result.total_declarations2).as_str(),
    ).concat("\n")
}

fn show_parts(style: ReportStyle, c: &ReportContext<'_>, result: &DiffResult) -> (r: String)
    ensures
        r@ == parts(style, c@, result@),
{
    show_part(style, c, result, Section::Removed).concat(
        show_part(style, c, result, Section::Added).as_str(),
    ).concat(show_part(style, c, result, Section::Code).as_str()).concat(
        show_part(style, c, result, Section::Strings).as_str(),
    )
}

/// Writes a report on how two texts differ.
pub fn write_report(style: ReportStyle, c: &ReportContext<'_>, result: &DiffResult) -> (r: String)
    ensures
        r@ == report_of(style, c@, result@),
{
    match style {
        ReportStyle::Summary => {
            let statistics = StructuralDiff::new().calculate_line_statistics(result);
            show_head(c, "Matched declarations: ", result).concat("Diff size: ").concat(
                show_number(statistics.2).as_str(),
            ).concat(" declarations (+").concat(show_number(statistics.0).as_str()).concat(
                " added, -",
            ).concat(show_number(statistics.1).as_str()).concat(" removed)\n").concat(
                show_counts(result).as_str(),
            ).concat(show_parts(style, c, result).as_str())
        },
        ReportStyle::Full => show_head(c, "Matched: ", result).concat(
            show_counts(result).as_str(),
        ).concat(show_parts(style, c, result).as_str()),
        ReportStyle::Compact => show_parts(style, c, result).concat("Unchanged: ").concat(
            show_number(unchanged_count(result)).as_str(),
        ).concat(" (not shown)\n"),
    }
}

} // verus!
