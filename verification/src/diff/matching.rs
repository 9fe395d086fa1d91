//! Matching and comparison of declarations.

use std::collections::HashMap;

use vstd::prelude::*;
use vstd::std_specs::hash::*;
use vstd::string::*;

use super::declarations::Declaration;
use super::normalize::DiffClassification;
use super::{DiffError, StructuralDiff};
use crate::order::{arrange, stable_order};
use crate::text::{
    chars_of, same_text, slice_chars, slice_text, split_lines, string_of, trim_chars,
};

use super::declarations::DeclarationModel;
use super::{alpha, declarations, display};
use crate::{order, text};

verus! {

/// A pair of declarations with how similar they are.
#[derive(Debug, Clone)]
pub struct SimilarityResult {
    pub i1: usize,
    pub i2: usize,
    /// A number that is larger the more similar the declarations are.
    pub similarity: u64,
    /// The similarity as it is shown.
    pub percent: String,
    pub evidence_count: usize,
    pub name_match: bool,
}

/// The model of a [`SimilarityResult`].
pub struct ResultModel {
    pub i1: int,
    pub i2: int,
    pub similarity: u64,
    pub percent: Seq<char>,
}

impl View for SimilarityResult {
    type V = ResultModel;

    open spec fn view(&self) -> ResultModel {
        ResultModel {
            i1: self.i1 as int,
            i2: self.i2 as int,
            similarity: self.similarity,
            percent: self.percent@,
        }
    }
}

/// Results seen as their models.
pub open spec fn result_views(list: Seq<SimilarityResult>) -> Seq<ResultModel> {
    list.map_values(|r: SimilarityResult| r@)
}

/// What happened to a declaration.
#[derive(Debug, Clone, Copy, PartialEq, Eq, Structural)]
pub enum ChangeType {
    Addition,
    Deletion,
    Modification,
    Reorder,
}

/// Where a declaration stands.
#[derive(Debug, Clone)]
pub struct Location {
    pub line: usize,
    pub column: usize,
    pub code_snippet: String,
    pub end_line: Option<usize>,
}

/// The model of a [`Location`].
pub struct LocationModel {
    pub line: int,
    pub column: int,
    pub code_snippet: Seq<char>,
    pub end_line: Option<usize>,
}

impl View for Location {
    type V = LocationModel;

    open spec fn view(&self) -> LocationModel {
        LocationModel {
            line: self.line as int,
            column: self.column as int,
            code_snippet: self.code_snippet@,
            end_line: self.end_line,
        }
    }
}

/// A location seen as its model.
pub open spec fn location_view(location: Option<Location>) -> Option<LocationModel> {
    match location {
        Some(location) => Some(location@),
        None => None,
    }
}

/// A difference between two texts.
#[derive(Debug, Clone)]
pub struct Change {
    pub change_type: ChangeType,
    pub location1: Option<Location>,
    pub location2: Option<Location>,
    pub description: String,
    pub structural_path: String,
    /// What kind of change it is, where the declaration is in both texts.
    pub classification: Option<DiffClassification>,
    /// The differing lines.
    pub display_diff: String,
    /// The similarity number of the pair, where there is one.
    pub similarity: Option<u64>,
    /// The similarity of the pair as it is shown.
    pub percent: Option<String>,
}

/// The model of a [`Change`].
pub struct ChangeModel {
    pub change_type: ChangeType,
    pub location1: Option<LocationModel>,
    pub location2: Option<LocationModel>,
    pub description: Seq<char>,
    pub structural_path: Seq<char>,
    pub classification: Option<DiffClassification>,
    pub display_diff: Seq<char>,
    pub similarity: Option<u64>,
    pub percent: Option<Seq<char>>,
}

impl View for Change {
    type V = ChangeModel;

    open spec fn view(&self) -> ChangeModel {
        ChangeModel {
            change_type: self.change_type,
            location1: location_view(self.location1),
            location2: location_view(self.location2),
            description: self.description@,
            structural_path: self.structural_path@,
            classification: self.classification,
            display_diff: self.display_diff@,
            similarity: self.similarity,
            percent: text::optional_view(self.percent),
        }
    }
}

/// Changes seen as their models.
pub open spec fn change_views(list: Seq<Change>) -> Seq<ChangeModel> {
    list.map_values(|c: Change| c@)
}

/// Pairs of texts seen as their characters.
pub open spec fn pair_views(list: Seq<(String, String)>) -> Seq<(Seq<char>, Seq<char>)> {
    list.map_values(|pair: (String, String)| (pair.0@, pair.1@))
}

/// How two texts differ.
#[derive(Debug, Clone)]
pub struct DiffResult {
    pub identical: bool,
    pub changes: Vec<Change>,
    pub matched_declarations: usize,
    pub total_declarations1: usize,
    pub total_declarations2: usize,
    /// The new name and the old one of every declaration that was renamed.
    pub rename_map: Vec<(String, String)>,
    /// The rows of matched declarations with their similarity numbers.
    pub matched_pairs: Vec<(usize, usize, u64)>,
}

/// The model of a [`DiffResult`].
pub struct DiffModel {
    pub identical: bool,
    pub changes: Seq<ChangeModel>,
    pub matched_declarations: int,
    pub total_declarations1: int,
    pub total_declarations2: int,
    pub rename_map: Seq<(Seq<char>, Seq<char>)>,
    pub matched_pairs: Seq<(usize, usize, u64)>,
}

impl View for DiffResult {
    type V = DiffModel;

    open spec fn view(&self) -> DiffModel {
        DiffModel {
            identical: self.identical,
            changes: change_views(self.changes@),
            matched_declarations: self.matched_declarations as int,
            total_declarations1: self.total_declarations1 as int,
            total_declarations2: self.total_declarations2 as int,
            rename_map: pair_views(self.rename_map@),
            matched_pairs: self.matched_pairs@,
        }
    }
}

/// The ordering keys of results: the most similar first.
pub open spec fn result_keys(list: Seq<ResultModel>) -> Seq<u64> {
    list.map_values(|r: ResultModel| (u64::MAX - r.similarity) as u64)
}

/// Results, the most similar first, else in their order.
pub open spec fn by_similarity(list: Seq<ResultModel>) -> Seq<ResultModel> {
    order::arranged(list, result_keys(list))
}

/// Whether one of some results is on a declaration of the first text.
pub open spec fn takes_first(list: Seq<ResultModel>, i1: int) -> bool {
    exists|k: int| 0 <= k < list.len() && (#[trigger] list[k]).i1 == i1
}

/// Whether one of some results is on a declaration of the second text.
pub open spec fn takes_second(list: Seq<ResultModel>, i2: int) -> bool {
    exists|k: int| 0 <= k < list.len() && (#[trigger] list[k]).i2 == i2
}

/// The results that are accepted among the first `count`: each whose
/// declarations no earlier one took.
pub open spec fn accepted_upto(list: Seq<ResultModel>, count: int) -> Seq<ResultModel>
    decreases count,
{
    if count <= 0 {
        Seq::empty()
    } else {
        let ahead = accepted_upto(list, count - 1);
        let r = list[count - 1];
        if takes_first(ahead, r.i1) || takes_second(ahead, r.i2) {
            ahead
        } else {
            ahead.push(r)
        }
    }
}

/// The results that are accepted.
pub open spec fn accepted(results: Seq<ResultModel>) -> Seq<ResultModel> {
    accepted_upto(by_similarity(results), results.len() as int)
}

/// The place of a new name among renames, or their number.
pub open spec fn rename_place(
    list: Seq<(Seq<char>, Seq<char>)>,
    name: Seq<char>,
    k: int,
) -> int
    decreases list.len() - k,
{
    if k < 0 || k >= list.len() || list[k].0 == name {
        k
    } else {
        rename_place(list, name, k + 1)
    }
}

/// Renames with one more; the last one of a new name counts.
pub open spec fn with_rename(
    list: Seq<(Seq<char>, Seq<char>)>,
    later: Seq<char>,
    earlier: Seq<char>,
) -> Seq<(Seq<char>, Seq<char>)> {
    let k = rename_place(list, later, 0);
    if k < list.len() {
        list.update(k, (later, earlier))
    } else {
        list.push((later, earlier))
    }
}

/// Two texts whose declarations are compared.
pub struct Sides {
    pub list1: Seq<DeclarationModel>,
    pub list2: Seq<DeclarationModel>,
    pub source1: Seq<char>,
    pub source2: Seq<char>,
}

/// The renames of the first `count` pairs.
pub open spec fn renames_upto(s: Sides, pairs: Seq<ResultModel>, count: int) -> Seq<
    (Seq<char>, Seq<char>),
>
    decreases count,
{
    if count <= 0 {
        Seq::empty()
    } else {
        let ahead = renames_upto(s, pairs, count - 1);
        let earlier = s.list1[pairs[count - 1].i1].name;
        let later = s.list2[pairs[count - 1].i2].name;
        if earlier != later {
            with_rename(ahead, later, earlier)
        } else {
            ahead
        }
    }
}

/// Numbers of symbols with one more.
pub open spec fn with_symbol(map: Map<u32, u32>, symbol: Option<u32>, number: int) -> Map<u32, u32> {
    match symbol {
        Some(symbol) => map.insert(symbol, number as u32),
        None => map,
    }
}

/// The numbers of the symbols of the first text that the first `count` pairs
/// declare.
pub open spec fn symbols1_upto(s: Sides, pairs: Seq<ResultModel>, count: int) -> Map<u32, u32>
    decreases count,
{
    if count <= 0 {
        Map::empty()
    } else {
        with_symbol(
            symbols1_upto(s, pairs, count - 1),
            s.list1[pairs[count - 1].i1].comparison.symbol,
            count - 1,
        )
    }
}

/// The numbers of the symbols of the second text that the first `count` pairs
/// declare.
pub open spec fn symbols2_upto(s: Sides, pairs: Seq<ResultModel>, count: int) -> Map<u32, u32>
    decreases count,
{
    if count <= 0 {
        Map::empty()
    } else {
        with_symbol(
            symbols2_upto(s, pairs, count - 1),
            s.list2[pairs[count - 1].i2].comparison.symbol,
            count - 1,
        )
    }
}

/// How many characters of a line are shown.
pub const MAX_SNIPPET_CHARS: usize = 200;

/// The start of a text, with a mark where it goes on.
pub open spec fn snippet(t: Seq<char>) -> Seq<char> {
    if t.len() > MAX_SNIPPET_CHARS {
        t.take(MAX_SNIPPET_CHARS as int).push('\u{2026}')
    } else {
        t
    }
}

/// Where a declaration stands.
pub open spec fn location_of(d: DeclarationModel, source: Seq<char>) -> LocationModel {
    let lines = text::lines_of(source);
    LocationModel {
        line: d.line,
        column: 0,
        code_snippet: if 0 < d.line <= lines.len() {
            snippet(text::trimmed(lines[d.line - 1]))
        } else {
            Seq::empty()
        },
        end_line: Some(d.end_line as usize),
    }
}

/// What is told of a pair that differs.
pub open spec fn pair_description(
    d1: DeclarationModel,
    d2: DeclarationModel,
    classification: DiffClassification,
    percent: Seq<char>,
) -> Seq<char> {
    let head = d1.kind.label_spec() + " '"@ + d2.name + "'"@;
    let origin = if d1.name != d2.name {
        head + " (was '"@ + d1.name + "')"@
    } else {
        head
    };
    match classification {
        DiffClassification::StringOnly => origin + " \u{2014} string-only"@,
        _ => origin + " \u{2014} structural ("@ + percent + "%)"@,
    }
}

/// Where a pair stands in the structure of the texts.
pub open spec fn pair_path(d1: DeclarationModel, d2: DeclarationModel) -> Seq<char> {
    if d1.name != d2.name {
        "global."@ + d1.name + "->"@ + d2.name
    } else {
        "global."@ + d1.name
    }
}

/// The lines that the syntax of a declaration is aligned by.
pub open spec fn aligned_lines(d: DeclarationModel, symbols: Map<u32, u32>) -> Seq<Seq<char>> {
    alpha::lines_upto(
        alpha::normalized(d.comparison.tokens, symbols),
        d.comparison.tokens,
        d.comparison.lines as nat,
        d.comparison.tokens.len() as int,
    )
}

/// How a pair of declarations differs, if it does.
pub open spec fn pair_change(
    s: Sides,
    r: ResultModel,
    symbols1: Map<u32, u32>,
    symbols2: Map<u32, u32>,
) -> Option<ChangeModel> {
    let d1 = s.list1[r.i1];
    let d2 = s.list2[r.i2];
    let normal1 = alpha::normalized(d1.comparison.tokens, symbols1);
    let normal2 = alpha::normalized(d2.comparison.tokens, symbols2);
    if normal1 == normal2 {
        None
    } else {
        let classification = if alpha::differ_in_text(normal1, normal2) {
            DiffClassification::StringOnly
        } else {
            DiffClassification::StructuralChange
        };
        Some(
            ChangeModel {
                change_type: ChangeType::Modification,
                location1: Some(location_of(d1, s.source1)),
                location2: Some(location_of(d2, s.source2)),
                description: pair_description(d1, d2, classification, r.percent),
                structural_path: pair_path(d1, d2),
                classification: Some(classification),
                display_diff: display::shown(
                    text::text_between(s.source1, d1.start_byte, d1.end_byte),
                    text::text_between(s.source2, d2.start_byte, d2.end_byte),
                    display::hunks_of(
                        aligned_lines(d1, symbols1),
                        aligned_lines(d2, symbols2),
                        3,
                    ),
                ),
                similarity: Some(r.similarity),
                percent: Some(r.percent),
            },
        )
    }
}

/// How the first `count` pairs differ.
pub open spec fn pair_changes_upto(s: Sides, pairs: Seq<ResultModel>, count: int) -> Seq<
    ChangeModel,
>
    decreases count,
{
    if count <= 0 {
        Seq::empty()
    } else {
        let ahead = pair_changes_upto(s, pairs, count - 1);
        match pair_change(
            s,
            pairs[count - 1],
            symbols1_upto(s, pairs, pairs.len() as int),
            symbols2_upto(s, pairs, pairs.len() as int),
        ) {
            Some(change) => ahead.push(change),
            None => ahead,
        }
    }
}

/// A declaration that is in the first text alone.
pub open spec fn deletion(d: DeclarationModel, source: Seq<char>) -> ChangeModel {
    ChangeModel {
        change_type: ChangeType::Deletion,
        location1: Some(location_of(d, source)),
        location2: None,
        description: "Removed "@ + d.kind.label_spec() + " '"@ + d.name + "'"@,
        structural_path: "global."@ + d.name,
        classification: None,
        display_diff: Seq::empty(),
        similarity: None,
        percent: None,
    }
}

/// A declaration that is in the second text alone.
pub open spec fn addition(d: DeclarationModel, source: Seq<char>) -> ChangeModel {
    ChangeModel {
        change_type: ChangeType::Addition,
        location1: None,
        location2: Some(location_of(d, source)),
        description: "Added "@ + d.kind.label_spec() + " '"@ + d.name + "'"@,
        structural_path: "global."@ + d.name,
        classification: None,
        display_diff: Seq::empty(),
        similarity: None,
        percent: None,
    }
}

/// The first `count` declarations of the first text that are in no pair.
pub open spec fn deletions_upto(s: Sides, pairs: Seq<ResultModel>, count: int) -> Seq<ChangeModel>
    decreases count,
{
    if count <= 0 {
        Seq::empty()
    } else {
        let ahead = deletions_upto(s, pairs, count - 1);
        if takes_first(pairs, count - 1) {
            ahead
        } else {
            ahead.push(deletion(s.list1[count - 1], s.source1))
        }
    }
}

/// The first `count` declarations of the second text that are in no pair.
pub open spec fn additions_upto(s: Sides, pairs: Seq<ResultModel>, count: int) -> Seq<ChangeModel>
    decreases count,
{
    if count <= 0 {
        Seq::empty()
    } else {
        let ahead = additions_upto(s, pairs, count - 1);
        if takes_second(pairs, count - 1) {
            ahead
        } else {
            ahead.push(addition(s.list2[count - 1], s.source2))
        }
    }
}

/// All changes: pairs that differ, then what was removed, then what was added.
pub open spec fn changes_of(s: Sides, pairs: Seq<ResultModel>) -> Seq<ChangeModel> {
    pair_changes_upto(s, pairs, pairs.len() as int) + deletions_upto(
        s,
        pairs,
        s.list1.len() as int,
    ) + additions_upto(s, pairs, s.list2.len() as int)
}

/// Pairs as rows with their similarity numbers.
pub open spec fn matched_pairs_of(pairs: Seq<ResultModel>) -> Seq<(usize, usize, u64)> {
    pairs.map_values(|r: ResultModel| (r.i1 as usize, r.i2 as usize, r.similarity))
}

/// How two texts differ.
pub open spec fn compared(s: Sides, results: Seq<ResultModel>) -> DiffModel {
    let pairs = accepted(results);
    let changes = changes_of(s, pairs);
    DiffModel {
        identical: changes.len() == 0,
        changes,
        matched_declarations: pairs.len() as int,
        total_declarations1: s.list1.len() as int,
        total_declarations2: s.list2.len() as int,
        rename_map: renames_upto(s, pairs, pairs.len() as int),
        matched_pairs: matched_pairs_of(pairs),
    }
}

/// Whether a declaration covers a part of its text.
pub open spec fn has_range(d: DeclarationModel, source: Seq<char>) -> bool {
    d.start_byte < d.end_byte && text::is_text_range(source, d.start_byte, d.end_byte)
}

/// The name of the first declaration from `i` on that covers no part of its
/// text.
pub open spec fn first_without_range(
    list: Seq<DeclarationModel>,
    source: Seq<char>,
    i: int,
) -> Option<Seq<char>>
    decreases list.len() - i,
{
    if i < 0 || i >= list.len() {
        None
    } else if !has_range(list[i], source) {
        Some(list[i].name)
    } else {
        first_without_range(list, source, i + 1)
    }
}

/// The name of the first declaration that covers no part of its text.
pub open spec fn invalid_range(s: Sides) -> Option<Seq<char>> {
    match first_without_range(s.list1, s.source1, 0) {
        Some(name) => Some(name),
        None => first_without_range(s.list2, s.source2, 0),
    }
}

/// Whether results are on declarations that exist.
pub open spec fn results_exist(results: Seq<ResultModel>, count1: int, count2: int) -> bool {
    forall|k: int|
        0 <= k < results.len() ==> (#[trigger] results[k]).i1 < count1 && results[k].i2 < count2
}

/// Whether the lines of any two declarations can be numbered in 32 bits.
pub open spec fn lines_fit(list1: Seq<DeclarationModel>, list2: Seq<DeclarationModel>) -> bool {
    forall|i: int, j: int|
        0 <= i < list1.len() && 0 <= j < list2.len() ==> (#[trigger] list1[i]).comparison.lines + (
        #[trigger] list2[j]).comparison.lines <= u32::MAX
}

/// Two texts and their declarations.
struct Pairing<'a> {
    list1: &'a Vec<Declaration>,
    list2: &'a Vec<Declaration>,
    source1: &'a str,
    source2: &'a str,
    lines1: Vec<String>,
    lines2: Vec<String>,
}

impl<'a> Pairing<'a> {
    spec fn sides(&self) -> Sides {
        Sides {
            list1: declarations::declaration_views(self.list1@),
            list2: declarations::declaration_views(self.list2@),
            source1: self.source1@,
            source2: self.source2@,
        }
    }

    spec fn is_wf(&self) -> bool {
        &&& text::views(self.lines1@) == text::lines_of(self.source1@)
        &&& text::views(self.lines2@) == text::lines_of(self.source2@)
        &&& lines_fit(self.sides().list1, self.sides().list2)
        &&& invalid_range(self.sides()) is None
    }

    /// How a pair of declarations differs, if it does.
    fn compare_pair(
        &self,
        r: &SimilarityResult,
        symbols1: &HashMap<u32, u32>,
        symbols2: &HashMap<u32, u32>,
    ) -> (change: Option<Change>)
        requires
            self.is_wf(),
            r.i1 < self.list1@.len(),
            r.i2 < self.list2@.len(),
        ensures
            match (change, pair_change(self.sides(), r@, symbols1@, symbols2@)) {
                (Some(found), Some(wanted)) => found@ == wanted,
                (None, None) => true,
                _ => false,
            },
    {
        let ghost s = self.sides();
        let d1 = &self.list1[r.i1];
        let d2 = &self.list2[r.i2];
        assert(s.list1[r.i1 as int] == d1@);
        assert(s.list2[r.i2 as int] == d2@);
        let normal1 = d1.comparison.normalize(symbols1);
        let normal2 = d2.comparison.normalize(symbols2);
        if normal1.equal(&normal2) {
            return None;
        }
        let classification = if normal1.equal_ignoring_strings(&normal2) {
            DiffClassification::StringOnly
        } else {
            DiffClassification::StructuralChange
        };
        let lines1 = normal1.lines();
        let lines2 = normal2.lines();
        proof {
            lemma_aligned(d1@, symbols1@);
            lemma_aligned(d2@, symbols2@);
            assert(alpha::normalized(d1@.comparison.tokens, symbols1@).len()
                == normal1.tokens@.len());
            assert(alpha::normalized(d2@.comparison.tokens, symbols2@).len()
                == normal2.tokens@.len());
            assert(text::views(lines1@).len() == lines1@.len());
            assert(text::views(lines2@).len() == lines2@.len());
            lemma_ranges(s.list1, s.source1, 0, r.i1 as int);
            lemma_ranges(s.list2, s.source2, 0, r.i2 as int);
        }
        let text1 = part_of(self.source1, d1.start_byte, d1.end_byte);
        let text2 = part_of(self.source2, d2.start_byte, d2.end_byte);
        let display_diff = StructuralDiff::generate_normalized_display_diff(
            text1,
            text2,
            &lines1,
            &lines2,
            3,
        );
        Some(
            Change {
                change_type: ChangeType::Modification,
                location1: Some(create_location(d1, &self.lines1, self.source1)),
                location2: Some(create_location(d2, &self.lines2, self.source2)),
                description: describe_pair(d1, d2, classification, r.percent.as_str()),
                structural_path: path_of_pair(d1, d2),
                classification: Some(classification),
                display_diff,
                similarity: Some(r.similarity),
                percent: Some(r.percent.clone()),
            },
        )
    }
}

proof fn lemma_piece_keeps_count(lines: Seq<Seq<char>>, at: int, t: Seq<char>, i: int)
    ensures
        alpha::text_added(lines, at, t, i).len() == lines.len(),
    decreases t.len() - i,
{
    let end = text::find_char(t, '\n', i);
    if 0 <= i <= end < t.len() {
        lemma_piece_keeps_count(
            alpha::added(
                lines,
                at,
                alpha::spelled(alpha::NormalModel::Text(t.subrange(i, end))),
            ),
            at + 1,
            t,
            end + 1,
        );
    }
}

proof fn lemma_line_count(
    normal: Seq<alpha::NormalModel>,
    tokens: Seq<alpha::PlacedModel>,
    lines: nat,
    count: int,
)
    ensures
        alpha::lines_upto(normal, tokens, lines, count).len() == lines,
    decreases count,
{
    if count > 0 {
        lemma_line_count(normal, tokens, lines, count - 1);
        match normal[count - 1] {
            alpha::NormalModel::Text(t) => {
                lemma_piece_keeps_count(
                    alpha::lines_upto(normal, tokens, lines, count - 1),
                    tokens[count - 1].line,
                    t,
                    0,
                );
            },
            _ => {},
        }
    }
}

/// A declaration is aligned by as many lines as it covers.
proof fn lemma_aligned(d: DeclarationModel, symbols: Map<u32, u32>)
    requires
        d.comparison.lines >= 0,
    ensures
        aligned_lines(d, symbols).len() == d.comparison.lines,
{
    lemma_line_count(
        alpha::normalized(d.comparison.tokens, symbols),
        d.comparison.tokens,
        d.comparison.lines as nat,
        d.comparison.tokens.len() as int,
    );
}

proof fn lemma_ranges(list: Seq<DeclarationModel>, source: Seq<char>, from: int, i: int)
    requires
        first_without_range(list, source, from) is None,
        0 <= from <= i < list.len(),
    ensures
        has_range(list[i], source),
    decreases i - from,
{
    if from < i {
        lemma_ranges(list, source, from + 1, i);
    }
}

fn part_of<'a>(source: &'a str, start: usize, end: usize) -> (part: &'a str)
    requires
        text::is_text_range(source@, start as int, end as int),
    ensures
        part@ == text::text_between(source@, start as int, end as int),
{
    match slice_text(source, start, end) {
        Some(part) => part,
        None => {
            assert(false);
            source
        },
    }
}

fn create_location(d: &Declaration, lines: &Vec<String>, source: &str) -> (location: Location)
    requires
        text::views(lines@) == text::lines_of(source@),
    ensures
        location@ == location_of(d@, source@),
{
    assert(text::views(lines@).len() == lines@.len());
    let code_snippet = if d.line > 0 && d.line <= lines.len() {
        let line = trim_chars(&chars_of(lines[d.line - 1].as_str()));
        assert(line@ == text::trimmed(text::lines_of(source@)[d.line - 1]));
        if line.len() > MAX_SNIPPET_CHARS {
            let mut shown = slice_chars(&line, 0, MAX_SNIPPET_CHARS);
            shown.push('\u{2026}');
            assert(shown@ =~= snippet(line@));
            string_of(&shown)
        } else {
            string_of(&line)
        }
    } else {
        String::new()
    };
    let location = Location {
        line: d.line,
        column: 0,
        code_snippet,
        end_line: Some(d.end_line),
    };
    assert(location@.code_snippet =~= location_of(d@, source@).code_snippet);
    location
}

fn describe_pair(
    d1: &Declaration,
    d2: &Declaration,
    classification: DiffClassification,
    percent: &str,
) -> (description: String)
    ensures
        description@ == pair_description(d1@, d2@, classification, percent@),
{
    let head = d1.kind.label().to_string().concat(" '").concat(d2.name.as_str()).concat("'");
    let origin = if !same_text(d1.name.as_str(), d2.name.as_str()) {
        head.concat(" (was '").concat(d1.name.as_str()).concat("')")
    } else {
        head
    };
    match classification {
        DiffClassification::StringOnly => origin.concat(" \u{2014} string-only"),
        _ => origin.concat(" \u{2014} structural (").concat(percent).concat("%)"),
    }
}

fn path_of_pair(d1: &Declaration, d2: &Declaration) -> (path: String)
    ensures
        path@ == pair_path(d1@, d2@),
{
    let head = "global.".to_string().concat(d1.name.as_str());
    if !same_text(d1.name.as_str(), d2.name.as_str()) {
        head.concat("->").concat(d2.name.as_str())
    } else {
        head
    }
}

fn sort_results(results: Vec<SimilarityResult>) -> (sorted: Vec<SimilarityResult>)
    ensures
        result_views(sorted@) == by_similarity(result_views(results@)),
        sorted@.len() == results@.len(),
{
    let ghost models = result_views(results@);
    let mut keys: Vec<u64> = Vec::new();
    let mut i: usize = 0;
    while i < results.len()
        invariant
            i <= results@.len(),
            keys@.len() == i,
            forall|k: int|
                0 <= k < i ==> #[trigger] keys@[k] == u64::MAX - results@[k].similarity,
        decreases results@.len() - i,
    {
        keys.push(u64::MAX - results[i].similarity);
        i += 1;
    }
    let places = stable_order(&keys);
    let length: usize = results.len();
    proof {
        assert(keys@ =~= result_keys(models));
        order::lemma_ranks(keys@, places@);
        order::lemma_order_has_no_duplicates(keys@, places@);
    }
    let sorted = arrange(results, &places);
    assert(result_views(sorted@) =~= by_similarity(models));
    sorted
}

/// Whether flags mark what some pairs take of the first text.
spec fn marks_first(flags: Seq<bool>, pairs: Seq<ResultModel>) -> bool {
    forall|i: int| 0 <= i < flags.len() ==> #[trigger] flags[i] == takes_first(pairs, i)
}

/// Whether flags mark what some pairs take of the second text.
spec fn marks_second(flags: Seq<bool>, pairs: Seq<ResultModel>) -> bool {
    forall|i: int| 0 <= i < flags.len() ==> #[trigger] flags[i] == takes_second(pairs, i)
}

fn no_flags(count: usize) -> (flags: Vec<bool>)
    ensures
        flags@.len() == count,
        forall|i: int| 0 <= i < count ==> !#[trigger] flags@[i],
{
    let mut flags: Vec<bool> = Vec::new();
    while flags.len() < count
        invariant
            flags@.len() <= count,
            forall|i: int| 0 <= i < flags@.len() ==> !#[trigger] flags@[i],
        decreases count - flags@.len(),
    {
        flags.push(false);
    }
    flags
}

proof fn lemma_push_takes(pairs: Seq<ResultModel>, r: ResultModel)
    ensures
        forall|i: int| #[trigger]
            takes_first(pairs.push(r), i) == (takes_first(pairs, i) || i == r.i1),
        forall|i: int| #[trigger]
            takes_second(pairs.push(r), i) == (takes_second(pairs, i) || i == r.i2),
{
    let longer = pairs.push(r);
    assert(longer[pairs.len() as int] == r);
    assert forall|i: int| #[trigger] takes_first(longer, i) == (takes_first(pairs, i) || i
        == r.i1) by {
        if takes_first(pairs, i) {
            let k = choose|k: int| 0 <= k < pairs.len() && (#[trigger] pairs[k]).i1 == i;
            assert(longer[k].i1 == i);
        }
        if takes_first(longer, i) && i != r.i1 {
            let k = choose|k: int| 0 <= k < longer.len() && (#[trigger] longer[k]).i1 == i;
            assert(pairs[k].i1 == i);
        }
    }
    assert forall|i: int| #[trigger] takes_second(longer, i) == (takes_second(pairs, i) || i
        == r.i2) by {
        if takes_second(pairs, i) {
            let k = choose|k: int| 0 <= k < pairs.len() && (#[trigger] pairs[k]).i2 == i;
            assert(longer[k].i2 == i);
        }
        if takes_second(longer, i) && i != r.i2 {
            let k = choose|k: int| 0 <= k < longer.len() && (#[trigger] longer[k]).i2 == i;
            assert(pairs[k].i2 == i);
        }
    }
}

/// The places of the accepted among sorted results, and what they take.
struct Matches {
    rows: Vec<usize>,
    matched1: Vec<bool>,
    matched2: Vec<bool>,
}

/// The results at some places.
spec fn at_rows(list: Seq<ResultModel>, rows: Seq<usize>) -> Seq<ResultModel> {
    rows.map_values(|row: usize| list[row as int])
}

fn accept(sorted: &Vec<SimilarityResult>, count1: usize, count2: usize) -> (matches: Matches)
    requires
        results_exist(result_views(sorted@), count1 as int, count2 as int),
    ensures
        forall|k: int| 0 <= k < matches.rows@.len() ==> #[trigger] matches.rows@[k] < sorted@.len(),
        at_rows(result_views(sorted@), matches.rows@) == accepted_upto(
            result_views(sorted@),
            sorted@.len() as int,
        ),
        matches.matched1@.len() == count1,
        matches.matched2@.len() == count2,
        marks_first(
            matches.matched1@,
            accepted_upto(result_views(sorted@), sorted@.len() as int),
        ),
        marks_second(
            matches.matched2@,
            accepted_upto(result_views(sorted@), sorted@.len() as int),
        ),
        matches.rows@.len() <= sorted@.len(),
        matches.rows@.len() <= count1,
{
    let ghost models = result_views(sorted@);
    let mut matched1 = no_flags(count1);
    let mut matched2 = no_flags(count2);
    let mut rows: Vec<usize> = Vec::new();
    let mut k: usize = 0;
    assert(at_rows(models, rows@) =~= accepted_upto(models, 0));
    while k < sorted.len()
        invariant
            models == result_views(sorted@),
            results_exist(models, count1 as int, count2 as int),
            k <= sorted@.len(),
            rows@.len() <= k,
            forall|j: int| 0 <= j < rows@.len() ==> #[trigger] rows@[j] < sorted@.len(),
            at_rows(models, rows@) == accepted_upto(models, k as int),
            matched1@.len() == count1,
            matched2@.len() == count2,
            marks_first(matched1@, accepted_upto(models, k as int)),
            marks_second(matched2@, accepted_upto(models, k as int)),
        decreases sorted@.len() - k,
    {
        let r = &sorted[k];
        assert(models[k as int] == r@);
        let ghost ahead = accepted_upto(models, k as int);
        if !matched1[r.i1] && !matched2[r.i2] {
            let ghost earlier = rows@;
            matched1[r.i1] = true;
            matched2[r.i2] = true;
            rows.push(k);
            proof {
                assert(at_rows(models, rows@) =~= at_rows(models, earlier).push(r@));
                lemma_push_takes(ahead, r@);
            }
        }
        k += 1;
    }
    proof {
        lemma_one_to_one(models, sorted@.len() as int);
        let pairs = accepted_upto(models, sorted@.len() as int);
        assert(pairs.len() == rows@.len());
        lemma_at_most(pairs, count1 as int);
    }
    Matches { rows, matched1, matched2 }
}

/// No two accepted results are on the same declaration.
proof fn lemma_one_to_one(list: Seq<ResultModel>, count: int)
    ensures
        forall|i: int, j: int|
            0 <= i < j < accepted_upto(list, count).len() ==> (#[trigger] accepted_upto(
                list,
                count,
            )[i]).i1 != (#[trigger] accepted_upto(list, count)[j]).i1 && accepted_upto(
                list,
                count,
            )[i].i2 != accepted_upto(list, count)[j].i2,
    decreases count,
{
    if count > 0 {
        lemma_one_to_one(list, count - 1);
        let ahead = accepted_upto(list, count - 1);
        let all = accepted_upto(list, count);
        assert forall|i: int, j: int| 0 <= i < j < all.len() implies (#[trigger] all[i]).i1 != (
        #[trigger] all[j]).i1 && all[i].i2 != all[j].i2 by {
            assert(all[i] == ahead[i]);
            if j < ahead.len() {
                assert(all[j] == ahead[j]);
            }
        }
    }
}

/// Pairs that are one to one are at most as many as the declarations.
proof fn lemma_at_most(pairs: Seq<ResultModel>, count1: int)
    requires
        forall|i: int, j: int|
            0 <= i < j < pairs.len() ==> (#[trigger] pairs[i]).i1 != (#[trigger] pairs[j]).i1,
        forall|k: int| 0 <= k < pairs.len() ==> 0 <= (#[trigger] pairs[k]).i1 < count1,
        0 <= count1,
    ensures
        pairs.len() <= count1,
{
    let firsts = pairs.map_values(|r: ResultModel| r.i1);
    assert(firsts.no_duplicates());
    firsts.unique_seq_to_set();
    vstd::set_lib::lemma_int_range(0, count1);
    let range = vstd::set_lib::set_int_range(0, count1);
    assert(firsts.to_set().subset_of(range)) by {
        assert forall|x: int| firsts.to_set().contains(x) implies range.contains(x) by {
            let k = choose|k: int| 0 <= k < firsts.len() && firsts[k] == x;
            assert(pairs[k].i1 == x);
        }
    }
    vstd::set_lib::lemma_len_subset(firsts.to_set(), range);
}

fn find_rename(list: &Vec<(String, String)>, name: &str) -> (place: usize)
    ensures
        place == rename_place(pair_views(list@), name@, 0),
        place <= list@.len(),
{
    let ghost models = pair_views(list@);
    let mut k: usize = 0;
    while k < list.len()
        invariant
            models == pair_views(list@),
            k <= list@.len(),
            rename_place(models, name@, 0) == rename_place(models, name@, k as int),
        decreases list@.len() - k,
    {
        assert(models[k as int].0 == list@[k as int].0@);
        if same_text(list[k].0.as_str(), name) {
            return k;
        }
        k += 1;
    }
    k
}

pub(crate) fn add_rename(list: &mut Vec<(String, String)>, later: String, earlier: String)
    ensures
        pair_views(final(list)@) == with_rename(pair_views(old(list)@), later@, earlier@),
{
    let ghost before = list@;
    let ghost pair = (later@, earlier@);
    let place = find_rename(list, later.as_str());
    assert(pair_views(before).len() == before.len());
    if place < list.len() {
        list.set(place, (later, earlier));
        assert(pair_views(list@) =~= pair_views(before).update(place as int, pair));
    } else {
        list.push((later, earlier));
        assert(pair_views(list@) =~= pair_views(before).push(pair));
    }
}

fn add_symbol(map: &mut HashMap<u32, u32>, symbol: Option<u32>, number: u32)
    ensures
        final(map)@ == with_symbol(old(map)@, symbol, number as int),
{
    broadcast use vstd::std_specs::hash::group_hash_axioms;

    match symbol {
        Some(symbol) => {
            map.insert(symbol, number);
        },
        None => {},
    }
}

fn find_without_range(list: &Vec<Declaration>, source: &str) -> (r: Option<String>)
    ensures
        text::optional_view(r) == first_without_range(
            declarations::declaration_views(list@),
            source@,
            0,
        ),
{
    let ghost models = declarations::declaration_views(list@);
    let mut i: usize = 0;
    while i < list.len()
        invariant
            models == declarations::declaration_views(list@),
            i <= list@.len(),
            first_without_range(models, source@, 0) == first_without_range(
                models,
                source@,
                i as int,
            ),
        decreases list@.len() - i,
    {
        let d = &list[i];
        assert(models[i as int] == d@);
        let covered = d.start_byte < d.end_byte && slice_text(
            source,
            d.start_byte,
            d.end_byte,
        ).is_some();
        if !covered {
            return Some(d.name.clone());
        }
        i += 1;
    }
    None
}

impl<'a> Pairing<'a> {
    /// How the accepted pairs differ, and the renames among them.
    fn compare_pairs(&self, sorted: &Vec<SimilarityResult>, rows: &Vec<usize>) -> (r: (
        Vec<Change>,
        Vec<(String, String)>,
        Vec<(usize, usize, u64)>,
    ))
        requires
            self.is_wf(),
            self.list1@.len() <= 0x1_0000_0000,
            rows@.len() <= self.list1@.len(),
            forall|k: int| 0 <= k < rows@.len() ==> #[trigger] rows@[k] < sorted@.len(),
            results_exist(
                result_views(sorted@),
                self.list1@.len() as int,
                self.list2@.len() as int,
            ),
        ensures
            ({
                let pairs = at_rows(result_views(sorted@), rows@);
                &&& change_views(r.0@) == pair_changes_upto(
                    self.sides(),
                    pairs,
                    pairs.len() as int,
                )
                &&& pair_views(r.1@) == renames_upto(self.sides(), pairs, pairs.len() as int)
                &&& r.2@ == matched_pairs_of(pairs)
            }),
    {
        broadcast use vstd::std_specs::hash::group_hash_axioms;

        let ghost s = self.sides();
        let ghost models = result_views(sorted@);
        let ghost pairs = at_rows(models, rows@);
        let mut symbols1: HashMap<u32, u32> = HashMap::new();
        let mut symbols2: HashMap<u32, u32> = HashMap::new();
        let mut renames: Vec<(String, String)> = Vec::new();
        let mut matched: Vec<(usize, usize, u64)> = Vec::new();
        let mut k: usize = 0;
        assert(pair_views(renames@) =~= renames_upto(s, pairs, 0));
        while k < rows.len()
            invariant
                s == self.sides(),
                models == result_views(sorted@),
                pairs == at_rows(models, rows@),
                self.list1@.len() <= 0x1_0000_0000,
                rows@.len() <= self.list1@.len(),
                forall|j: int| 0 <= j < rows@.len() ==> #[trigger] rows@[j] < sorted@.len(),
                results_exist(models, self.list1@.len() as int, self.list2@.len() as int),
                k <= rows@.len(),
                symbols1@ == symbols1_upto(s, pairs, k as int),
                symbols2@ == symbols2_upto(s, pairs, k as int),
                pair_views(renames@) == renames_upto(s, pairs, k as int),
                matched@.len() == k,
                forall|j: int|
                    0 <= j < k ==> #[trigger] matched@[j] == matched_pairs_of(pairs)[j],
            decreases rows@.len() - k,
        {
            let r = &sorted[rows[k]];
            assert(pairs[k as int] == models[rows@[k as int] as int]);
            assert(models[rows@[k as int] as int] == r@);
            let d1 = &self.list1[r.i1];
            let d2 = &self.list2[r.i2];
            assert(s.list1[r.i1 as int] == d1@);
            assert(s.list2[r.i2 as int] == d2@);
            add_symbol(&mut symbols1, d1.comparison.symbol, k as u32);
            add_symbol(&mut symbols2, d2.comparison.symbol, k as u32);
            if !same_text(d1.name.as_str(), d2.name.as_str()) {
                add_rename(&mut renames, d2.name.clone(), d1.name.clone());
            }
            matched.push((r.i1, r.i2, r.similarity));
            k += 1;
        }
        assert(pairs.len() == rows@.len());
        assert(matched@ =~= matched_pairs_of(pairs));
        let mut changes: Vec<Change> = Vec::new();
        let mut j: usize = 0;
        assert(change_views(changes@) =~= pair_changes_upto(s, pairs, 0));
        while j < rows.len()
            invariant
                self.is_wf(),
                s == self.sides(),
                models == result_views(sorted@),
                pairs == at_rows(models, rows@),
                pairs.len() == rows@.len(),
                forall|j: int| 0 <= j < rows@.len() ==> #[trigger] rows@[j] < sorted@.len(),
                results_exist(models, self.list1@.len() as int, self.list2@.len() as int),
                symbols1@ == symbols1_upto(s, pairs, pairs.len() as int),
                symbols2@ == symbols2_upto(s, pairs, pairs.len() as int),
                j <= rows@.len(),
                change_views(changes@) == pair_changes_upto(s, pairs, j as int),
            decreases rows@.len() - j,
        {
            let r = &sorted[rows[j]];
            assert(pairs[j as int] == models[rows@[j as int] as int]);
            assert(models[rows@[j as int] as int] == r@);
            let ghost earlier = changes@;
            match self.compare_pair(r, &symbols1, &symbols2) {
                Some(change) => {
                    let ghost model = change@;
                    changes.push(change);
                    assert(change_views(changes@) =~= change_views(earlier).push(model));
                },
                None => {},
            }
            j += 1;
        }
        (changes, renames, matched)
    }

    fn push_deletions(&self, matched1: &Vec<bool>, pairs: Ghost<Seq<ResultModel>>, changes: &mut Vec<
        Change,
    >)
        requires
            self.is_wf(),
            matched1@.len() == self.list1@.len(),
            marks_first(matched1@, pairs@),
        ensures
            change_views(final(changes)@) == change_views(old(changes)@) + deletions_upto(
                self.sides(),
                pairs@,
                self.list1@.len() as int,
            ),
    {
        let ghost s = self.sides();
        let ghost before = change_views(changes@);
        let mut i: usize = 0;
        assert(change_views(changes@) =~= before + deletions_upto(s, pairs@, 0));
        while i < self.list1.len()
            invariant
                self.is_wf(),
                s == self.sides(),
                matched1@.len() == self.list1@.len(),
                marks_first(matched1@, pairs@),
                i <= self.list1@.len(),
                change_views(changes@) == before + deletions_upto(s, pairs@, i as int),
            decreases self.list1@.len() - i,
        {
            let ghost earlier = changes@;
            if !matched1[i] {
                let d = &self.list1[i];
                assert(s.list1[i as int] == d@);
                let change = Change {
                    change_type: ChangeType::Deletion,
                    location1: Some(create_location(d, &self.lines1, self.source1)),
                    location2: None,
                    description: named_text("Removed ", d),
                    structural_path: "global.".to_string().concat(d.name.as_str()),
                    classification: None,
                    display_diff: String::new(),
                    similarity: None,
                    percent: None,
                };
                let ghost model = change@;
                assert(model.display_diff =~= Seq::empty());
                changes.push(change);
                assert(change_views(changes@) =~= change_views(earlier).push(model));
            }
            assert(change_views(changes@) =~= before + deletions_upto(s, pairs@, i + 1));
            i += 1;
        }
    }

    fn push_additions(&self, matched2: &Vec<bool>, pairs: Ghost<Seq<ResultModel>>, changes: &mut Vec<
        Change,
    >)
        requires
            self.is_wf(),
            matched2@.len() == self.list2@.len(),
            marks_second(matched2@, pairs@),
        ensures
            change_views(final(changes)@) == change_views(old(changes)@) + additions_upto(
                self.sides(),
                pairs@,
                self.list2@.len() as int,
            ),
    {
        let ghost s = self.sides();
        let ghost before = change_views(changes@);
        let mut i: usize = 0;
        assert(change_views(changes@) =~= before + additions_upto(s, pairs@, 0));
        while i < self.list2.len()
            invariant
                self.is_wf(),
                s == self.sides(),
                matched2@.len() == self.list2@.len(),
                marks_second(matched2@, pairs@),
                i <= self.list2@.len(),
                change_views(changes@) == before + additions_upto(s, pairs@, i as int),
            decreases self.list2@.len() - i,
        {
            let ghost earlier = changes@;
            if !matched2[i] {
                let d = &self.list2[i];
                assert(s.list2[i as int] == d@);
                let change = Change {
                    change_type: ChangeType::Addition,
                    location1: None,
                    location2: Some(create_location(d, &self.lines2, self.source2)),
                    description: named_text("Added ", d),
                    structural_path: "global.".to_string().concat(d.name.as_str()),
                    classification: None,
                    display_diff: String::new(),
                    similarity: None,
                    percent: None,
                };
                let ghost model = change@;
                assert(model.display_diff =~= Seq::empty());
                changes.push(change);
                assert(change_views(changes@) =~= change_views(earlier).push(model));
            }
            assert(change_views(changes@) =~= before + additions_upto(s, pairs@, i + 1));
            i += 1;
        }
    }
}

fn named_text(before: &str, d: &Declaration) -> (r: String)
    ensures
        r@ == before@ + d@.kind.label_spec() + " '"@ + d@.name + "'"@,
{
    before.to_string().concat(d.kind.label()).concat(" '").concat(d.name.as_str()).concat("'")
}

proof fn lemma_sorted_results_exist(results: Seq<ResultModel>, count1: int, count2: int)
    requires
        results_exist(results, count1, count2),
    ensures
        results_exist(by_similarity(results), count1, count2),
        by_similarity(results).len() == results.len(),
{
    let keys = result_keys(results);
    order::lemma_arranged(results, keys);
    let out = by_similarity(results);
    assert forall|k: int| 0 <= k < out.len() implies (#[trigger] out[k]).i1 < count1 && out[k].i2
        < count2 by {
        assert(out.contains(out[k]));
        let j = choose|j: int| 0 <= j < results.len() && results[j] == out[k];
        assert(results[j].i1 < count1);
    }
}

impl StructuralDiff {
    /// Compares the declarations of two texts, given how similar pairs of
    /// them are: matches the most similar first, and tells how matched ones
    /// differ and what is in one text alone.
    pub fn compare_declarations(
        &self,
        declarations1: &Vec<Declaration>,
        declarations2: &Vec<Declaration>,
        source1: &str,
        source2: &str,
        results: Vec<SimilarityResult>,
    ) -> (r: Result<DiffResult, DiffError>)
        requires
            declarations1@.len() <= 0x1_0000_0000,
            results_exist(
                result_views(results@),
                declarations1@.len() as int,
                declarations2@.len() as int,
            ),
            lines_fit(
                declarations::declaration_views(declarations1@),
                declarations::declaration_views(declarations2@),
            ),
        ensures
            ({
                let s = Sides {
                    list1: declarations::declaration_views(declarations1@),
                    list2: declarations::declaration_views(declarations2@),
                    source1: source1@,
                    source2: source2@,
                };
                match (r, invalid_range(s)) {
                    (Ok(result), None) => result@ == compared(s, result_views(results@)),
                    (Err(DiffError::InvalidRange { name }), Some(wanted)) => name@ == wanted,
                    _ => false,
                }
            }),
    {
        if let Some(name) = find_without_range(declarations1, source1) {
            return Err(DiffError::InvalidRange { name });
        }
        if let Some(name) = find_without_range(declarations2, source2) {
            return Err(DiffError::InvalidRange { name });
        }
        let pairing = Pairing {
            list1: declarations1,
            list2: declarations2,
            source1,
            source2,
            lines1: split_lines(source1),
            lines2: split_lines(source2),
        };
        let ghost s = pairing.sides();
        let ghost models = result_views(results@);
        let ghost pairs = accepted(models);
        proof {
            assert(models.len() == results@.len());
            lemma_sorted_results_exist(
                models,
                declarations1@.len() as int,
                declarations2@.len() as int,
            );
        }
        let sorted = sort_results(results);
        let matches = accept(&sorted, declarations1.len(), declarations2.len());
        assert(at_rows(result_views(sorted@), matches.rows@) == pairs);
        let (mut changes, rename_map, matched_pairs) = pairing.compare_pairs(
            &sorted,
            &matches.rows,
        );
        pairing.push_deletions(&matches.matched1, Ghost(pairs), &mut changes);
        pairing.push_additions(&matches.matched2, Ghost(pairs), &mut changes);
        assert(change_views(changes@) =~= changes_of(s, pairs));
        assert(change_views(changes@).len() == changes@.len());
        assert(pairs.len() == matches.rows@.len());
        Ok(
            DiffResult {
                identical: changes.len() == 0,
                changes,
                matched_declarations: matches.rows.len(),
                total_declarations1: declarations1.len(),
                total_declarations2: declarations2.len(),
                rename_map,
                matched_pairs,
            },
        )
    }
}

/// Matched declarations are matched one to one.
pub proof fn law_matches_are_one_to_one(results: Seq<ResultModel>, i: int, j: int)
    requires
        0 <= i < j < accepted(results).len(),
    ensures
        accepted(results)[i].i1 != accepted(results)[j].i1,
        accepted(results)[i].i2 != accepted(results)[j].i2,
{
    lemma_one_to_one(by_similarity(results), results.len() as int);
}

proof fn lemma_rejected(list: Seq<ResultModel>, count: int, k: int)
    requires
        0 <= k < count <= list.len(),
    ensures
        exists|j: int|
            0 <= j <= k && accepted_upto(list, count).contains(#[trigger] list[j]) && (list[j].i1
                == list[k].i1 || list[j].i2 == list[k].i2),
    decreases count,
{
    let ahead = accepted_upto(list, count - 1);
    let all = accepted_upto(list, count);
    if k < count - 1 {
        lemma_rejected(list, count - 1, k);
        let j = choose|j: int|
            0 <= j <= k && ahead.contains(#[trigger] list[j]) && (list[j].i1 == list[k].i1
                || list[j].i2 == list[k].i2);
        let p = choose|p: int| 0 <= p < ahead.len() && ahead[p] == list[j];
        assert(all[p] == list[j]);
    } else if takes_first(ahead, list[k].i1) || takes_second(ahead, list[k].i2) {
        lemma_accepted_come_from(list, count - 1);
        let p = choose|p: int|
            0 <= p < ahead.len() && ((#[trigger] ahead[p]).i1 == list[k].i1 || ahead[p].i2
                == list[k].i2);
        let j = choose|j: int| 0 <= j < count - 1 && #[trigger] list[j] == ahead[p];
        assert(all.contains(list[j]));
    } else {
        assert(all[all.len() - 1] == list[k]);
        assert(all.contains(list[k]));
    }
}

proof fn lemma_accepted_come_from(list: Seq<ResultModel>, count: int)
    requires
        count <= list.len(),
    ensures
        forall|p: int|
            0 <= p < accepted_upto(list, count).len() ==> exists|j: int|
                0 <= j < count && list[j] == #[trigger] accepted_upto(list, count)[p],
    decreases count,
{
    if count > 0 {
        lemma_accepted_come_from(list, count - 1);
        let ahead = accepted_upto(list, count - 1);
        let all = accepted_upto(list, count);
        assert forall|p: int| 0 <= p < all.len() implies exists|j: int|
            0 <= j < count && list[j] == #[trigger] all[p] by {
            if p < ahead.len() {
                assert(all[p] == ahead[p]);
                let j = choose|j: int| 0 <= j < count - 1 && list[j] == ahead[p];
                assert(list[j] == all[p]);
            } else {
                assert(list[count - 1] == all[p]);
            }
        }
    }
}

/// A pair is passed over only for one that is at least as similar and shares
/// a declaration with it.
pub proof fn law_better_matches_win(results: Seq<ResultModel>, k: int)
    requires
        0 <= k < results.len(),
    ensures
        exists|p: int|
            0 <= p < accepted(results).len() && (#[trigger] accepted(results)[p]).similarity
                >= results[k].similarity && (accepted(results)[p].i1 == results[k].i1 || accepted(
                results,
            )[p].i2 == results[k].i2),
{
    let keys = result_keys(results);
    let list = by_similarity(results);
    order::lemma_rank_is_bijective(keys);
    let place = order::rank(keys, k);
    assert(list[place] == results[k]);
    lemma_rejected(list, results.len() as int, place);
    let pairs = accepted(results);
    let j = choose|j: int|
        0 <= j <= place && pairs.contains(#[trigger] list[j]) && (list[j].i1 == list[place].i1
            || list[j].i2 == list[place].i2);
    let p = choose|p: int| 0 <= p < pairs.len() && pairs[p] == list[j];
    let row = order::row_at(keys, j);
    assert(order::rank(keys, row) == j);
    if j < place {
        order::lemma_rank_follows_order(keys, row, k);
        assert(keys[row] == u64::MAX - results[row].similarity);
        assert(keys[k] == u64::MAX - results[k].similarity);
    }
    assert(pairs[p].similarity >= results[k].similarity);
}

/// How many of some changes have a type.
pub open spec fn count_type(changes: Seq<ChangeModel>, kind: ChangeType) -> nat
    decreases changes.len(),
{
    if changes.len() == 0 {
        0
    } else {
        count_type(changes.drop_last(), kind) + if changes.last().change_type == kind {
            1nat
        } else {
            0
        }
    }
}

proof fn lemma_count_adds(a: Seq<ChangeModel>, b: Seq<ChangeModel>, kind: ChangeType)
    ensures
        count_type(a + b, kind) == count_type(a, kind) + count_type(b, kind),
    decreases b.len(),
{
    if b.len() == 0 {
        assert(a + b =~= a);
    } else {
        assert((a + b).drop_last() =~= a + b.drop_last());
        lemma_count_adds(a, b.drop_last(), kind);
    }
}

proof fn lemma_count_pairs(s: Sides, pairs: Seq<ResultModel>, count: int, kind: ChangeType)
    requires
        kind == ChangeType::Deletion || kind == ChangeType::Addition,
    ensures
        count_type(pair_changes_upto(s, pairs, count), kind) == 0,
    decreases count,
{
    if count > 0 {
        lemma_count_pairs(s, pairs, count - 1, kind);
        let ahead = pair_changes_upto(s, pairs, count - 1);
        let all = pair_changes_upto(s, pairs, count);
        if all.len() > ahead.len() {
            assert(all.drop_last() =~= ahead);
        }
    }
}

/// How many declarations of the first text the first `count` rows have in pairs.
spec fn taken_upto(pairs: Seq<ResultModel>, count: int) -> nat
    decreases count,
{
    if count <= 0 {
        0
    } else {
        taken_upto(pairs, count - 1) + if takes_first(pairs, count - 1) {
            1nat
        } else {
            0
        }
    }
}

proof fn lemma_count_deletions(s: Sides, pairs: Seq<ResultModel>, count: int)
    requires
        0 <= count,
    ensures
        count_type(deletions_upto(s, pairs, count), ChangeType::Deletion) + taken_upto(
            pairs,
            count,
        ) == count,
        count_type(deletions_upto(s, pairs, count), ChangeType::Addition) == 0,
    decreases count,
{
    if count > 0 {
        lemma_count_deletions(s, pairs, count - 1);
        let ahead = deletions_upto(s, pairs, count - 1);
        let all = deletions_upto(s, pairs, count);
        if all.len() > ahead.len() {
            assert(all.drop_last() =~= ahead);
        }
    }
}

/// Pairs with their rows exchanged.
spec fn flipped(pairs: Seq<ResultModel>) -> Seq<ResultModel> {
    pairs.map_values(|p: ResultModel| ResultModel { i1: p.i2, i2: p.i1, ..p })
}

proof fn lemma_flipped_takes(pairs: Seq<ResultModel>, row: int)
    ensures
        takes_first(flipped(pairs), row) == takes_second(pairs, row),
{
    let other = flipped(pairs);
    if takes_second(pairs, row) {
        let k = choose|k: int| 0 <= k < pairs.len() && (#[trigger] pairs[k]).i2 == row;
        assert(other[k].i1 == row);
    }
    if takes_first(other, row) {
        let k = choose|k: int| 0 <= k < other.len() && (#[trigger] other[k]).i1 == row;
        assert(pairs[k].i2 == row);
    }
}

proof fn lemma_count_additions(s: Sides, pairs: Seq<ResultModel>, count: int)
    requires
        0 <= count,
    ensures
        count_type(additions_upto(s, pairs, count), ChangeType::Deletion) == 0,
        count_type(additions_upto(s, pairs, count), ChangeType::Addition) + taken_upto(
            flipped(pairs),
            count,
        ) == count,
    decreases count,
{
    if count > 0 {
        lemma_flipped_takes(pairs, count - 1);
        lemma_count_additions(s, pairs, count - 1);
        let ahead = additions_upto(s, pairs, count - 1);
        let all = additions_upto(s, pairs, count);
        if all.len() > ahead.len() {
            assert(all.drop_last() =~= ahead);
        }
    }
}

proof fn lemma_taken(pairs: Seq<ResultModel>, count: int)
    requires
        0 <= count,
        forall|i: int, j: int|
            0 <= i < j < pairs.len() ==> (#[trigger] pairs[i]).i1 != (#[trigger] pairs[j]).i1,
        forall|k: int| 0 <= k < pairs.len() ==> 0 <= (#[trigger] pairs[k]).i1 < count,
    ensures
        taken_upto(pairs, count) == pairs.len(),
    decreases count,
{
    if count == 0 {
        if pairs.len() > 0 {
            assert(0 <= pairs[0].i1 < count);
        }
    } else if takes_first(pairs, count - 1) {
        let k = choose|k: int| 0 <= k < pairs.len() && (#[trigger] pairs[k]).i1 == count - 1;
        let rest = pairs.remove(k);
        assert forall|j: int| 0 <= j < rest.len() implies 0 <= (#[trigger] rest[j]).i1 < count
            - 1 by {
            if j < k {
                assert(rest[j] == pairs[j]);
            } else {
                assert(rest[j] == pairs[j + 1]);
            }
        }
        assert forall|i: int, j: int| 0 <= i < j < rest.len() implies (#[trigger] rest[i]).i1 != (
        #[trigger] rest[j]).i1 by {
            let a = if i < k {
                i
            } else {
                i + 1
            };
            let b = if j < k {
                j
            } else {
                j + 1
            };
            assert(rest[i] == pairs[a]);
            assert(rest[j] == pairs[b]);
        }
        lemma_taken(rest, count - 1);
        lemma_taken_without(pairs, k, count - 1);
    } else {
        assert forall|j: int| 0 <= j < pairs.len() implies 0 <= (#[trigger] pairs[j]).i1 < count
            - 1 by {}
        lemma_taken(pairs, count - 1);
    }
}

proof fn lemma_taken_without(pairs: Seq<ResultModel>, k: int, count: int)
    requires
        0 <= k < pairs.len(),
        pairs[k].i1 >= count,
    ensures
        taken_upto(pairs, count) == taken_upto(pairs.remove(k), count),
    decreases count,
{
    if count > 0 {
        lemma_taken_without(pairs, k, count - 1);
        let rest = pairs.remove(k);
        if takes_first(pairs, count - 1) {
            let j = choose|j: int| 0 <= j < pairs.len() && (#[trigger] pairs[j]).i1 == count - 1;
            if j < k {
                assert(rest[j].i1 == count - 1);
            } else {
                assert(rest[j - 1].i1 == count - 1);
            }
        }
        if takes_first(rest, count - 1) {
            let j = choose|j: int| 0 <= j < rest.len() && (#[trigger] rest[j]).i1 == count - 1;
            if j < k {
                assert(pairs[j].i1 == count - 1);
            } else {
                assert(pairs[j + 1].i1 == count - 1);
            }
        }
    }
}

/// Every declaration of the first text is matched or removed.
pub proof fn law_declarations_are_matched_or_removed(s: Sides, results: Seq<ResultModel>)
    requires
        results_exist(results, s.list1.len() as int, s.list2.len() as int),
        forall|k: int| 0 <= k < results.len() ==> 0 <= (#[trigger] results[k]).i1,
    ensures
        compared(s, results).matched_declarations + count_type(
            compared(s, results).changes,
            ChangeType::Deletion,
        ) == s.list1.len(),
{
    let pairs = accepted(results);
    let list = by_similarity(results);
    let kind = ChangeType::Deletion;
    let n = s.list1.len() as int;
    lemma_sorted_results_exist(results, n, s.list2.len() as int);
    lemma_accepted_come_from(list, results.len() as int);
    order::lemma_arranged(results, result_keys(results));
    assert forall|k: int| 0 <= k < pairs.len() implies 0 <= (#[trigger] pairs[k]).i1 < n by {
        let j = choose|j: int| 0 <= j < results.len() && list[j] == pairs[k];
        assert(list.contains(list[j]));
        let m = choose|m: int| 0 <= m < results.len() && results[m] == list[j];
        assert(results[m].i1 < n);
    }
    lemma_one_to_one(list, results.len() as int);
    lemma_taken(pairs, n);
    let first = pair_changes_upto(s, pairs, pairs.len() as int);
    let second = deletions_upto(s, pairs, n);
    let third = additions_upto(s, pairs, s.list2.len() as int);
    lemma_count_pairs(s, pairs, pairs.len() as int, kind);
    lemma_count_deletions(s, pairs, n);
    lemma_count_additions(s, pairs, s.list2.len() as int);
    lemma_count_adds(first, second, kind);
    lemma_count_adds(first + second, third, kind);
}

/// Every declaration of the second text is matched or added.
pub proof fn law_declarations_are_matched_or_added(s: Sides, results: Seq<ResultModel>)
    requires
        results_exist(results, s.list1.len() as int, s.list2.len() as int),
        forall|k: int| 0 <= k < results.len() ==> 0 <= (#[trigger] results[k]).i2,
    ensures
        compared(s, results).matched_declarations + count_type(
            compared(s, results).changes,
            ChangeType::Addition,
        ) == s.list2.len(),
{
    let pairs = accepted(results);
    let other = flipped(pairs);
    let list = by_similarity(results);
    let kind = ChangeType::Addition;
    let n = s.list2.len() as int;
    lemma_sorted_results_exist(results, s.list1.len() as int, n);
    lemma_accepted_come_from(list, results.len() as int);
    order::lemma_arranged(results, result_keys(results));
    assert forall|k: int| 0 <= k < other.len() implies 0 <= (#[trigger] other[k]).i1 < n by {
        let j = choose|j: int| 0 <= j < results.len() && list[j] == pairs[k];
        assert(list.contains(list[j]));
        let m = choose|m: int| 0 <= m < results.len() && results[m] == list[j];
        assert(results[m].i2 < n);
        assert(other[k].i1 == pairs[k].i2);
    }
    lemma_one_to_one(list, results.len() as int);
    assert forall|i: int, j: int| 0 <= i < j < other.len() implies (#[trigger] other[i]).i1 != (
    #[trigger] other[j]).i1 by {
        assert(pairs[i].i2 != pairs[j].i2);
    }
    lemma_taken(other, n);
    let first = pair_changes_upto(s, pairs, pairs.len() as int);
    let second = deletions_upto(s, pairs, s.list1.len() as int);
    let third = additions_upto(s, pairs, n);
    lemma_count_pairs(s, pairs, pairs.len() as int, kind);
    lemma_count_deletions(s, pairs, s.list1.len() as int);
    lemma_count_additions(s, pairs, n);
    lemma_count_adds(first, second, kind);
    lemma_count_adds(first + second, third, kind);
}

proof fn lemma_same_symbols(s: Sides, pairs: Seq<ResultModel>, count: int)
    requires
        s.list1 == s.list2,
        forall|k: int| 0 <= k < pairs.len() ==> (#[trigger] pairs[k]).i1 == pairs[k].i2,
        count <= pairs.len(),
    ensures
        symbols1_upto(s, pairs, count) == symbols2_upto(s, pairs, count),
    decreases count,
{
    if count > 0 {
        lemma_same_symbols(s, pairs, count - 1);
        assert(pairs[count - 1].i1 == pairs[count - 1].i2);
    }
}

proof fn lemma_no_pair_changes(s: Sides, pairs: Seq<ResultModel>, count: int)
    requires
        s.list1 == s.list2,
        forall|k: int| 0 <= k < pairs.len() ==> (#[trigger] pairs[k]).i1 == pairs[k].i2,
        count <= pairs.len(),
    ensures
        pair_changes_upto(s, pairs, count).len() == 0,
    decreases count,
{
    if count > 0 {
        lemma_no_pair_changes(s, pairs, count - 1);
        lemma_same_symbols(s, pairs, pairs.len() as int);
        assert(pairs[count - 1].i1 == pairs[count - 1].i2);
    }
}

/// A text whose every declaration is matched with itself differs in nothing.
pub proof fn law_matched_with_itself_a_text_is_identical(s: Sides, results: Seq<ResultModel>)
    requires
        s.list1 == s.list2,
        forall|k: int|
            0 <= k < accepted(results).len() ==> (#[trigger] accepted(results)[k]).i1 == accepted(
                results,
            )[k].i2,
        forall|i: int| 0 <= i < s.list1.len() ==> #[trigger] takes_first(accepted(results), i),
    ensures
        compared(s, results).identical,
        compared(s, results).changes.len() == 0,
{
    let pairs = accepted(results);
    lemma_no_pair_changes(s, pairs, pairs.len() as int);
    assert forall|i: int| 0 <= i < s.list2.len() implies #[trigger] takes_second(pairs, i) by {
        assert(takes_first(pairs, i));
        let k = choose|k: int| 0 <= k < pairs.len() && (#[trigger] pairs[k]).i1 == i;
        assert(pairs[k].i2 == i);
    }
    lemma_none_removed(s, pairs, s.list1.len() as int);
    lemma_none_added(s, pairs, s.list2.len() as int);
}

/// Whether pair `k` differs in the names of local bindings only.
pub open spec fn is_renamed_pair(s: Sides, pairs: Seq<ResultModel>, k: int) -> bool {
    alpha::is_renaming(
        s.list1[pairs[k].i1].comparison.tokens,
        s.list2[pairs[k].i2].comparison.tokens,
        symbols1_upto(s, pairs, pairs.len() as int),
        symbols2_upto(s, pairs, pairs.len() as int),
    )
}

/// A matched pair is no change exactly where its syntax differs in the names
/// of local bindings only, given which symbols from outside correspond.
pub proof fn law_pairs_are_unchanged_up_to_local_names(
    s: Sides,
    r: ResultModel,
    symbols1: Map<u32, u32>,
    symbols2: Map<u32, u32>,
)
    ensures
        pair_change(s, r, symbols1, symbols2) is None == alpha::is_renaming(
            s.list1[r.i1].comparison.tokens,
            s.list2[r.i2].comparison.tokens,
            symbols1,
            symbols2,
        ),
{
    alpha::law_syntax_is_equal_up_to_local_names(
        s.list1[r.i1].comparison.tokens,
        s.list2[r.i2].comparison.tokens,
        symbols1,
        symbols2,
    );
}

proof fn lemma_unchanged_pairs(s: Sides, pairs: Seq<ResultModel>, count: int)
    requires
        0 <= count <= pairs.len(),
    ensures
        (pair_changes_upto(s, pairs, count).len() == 0) == (forall|k: int|
            0 <= k < count ==> #[trigger] is_renamed_pair(s, pairs, k)),
    decreases count,
{
    if count > 0 {
        lemma_unchanged_pairs(s, pairs, count - 1);
        law_pairs_are_unchanged_up_to_local_names(
            s,
            pairs[count - 1],
            symbols1_upto(s, pairs, pairs.len() as int),
            symbols2_upto(s, pairs, pairs.len() as int),
        );
        if pair_changes_upto(s, pairs, count).len() == 0 {
            assert(is_renamed_pair(s, pairs, count - 1));
        } else if pair_changes_upto(s, pairs, count - 1).len() == 0 {
            assert(!is_renamed_pair(s, pairs, count - 1));
        }
    }
}

proof fn lemma_none_removed(s: Sides, pairs: Seq<ResultModel>, count: int)
    requires
        0 <= count,
    ensures
        (deletions_upto(s, pairs, count).len() == 0) == (forall|i: int|
            0 <= i < count ==> #[trigger] takes_first(pairs, i)),
    decreases count,
{
    if count > 0 {
        lemma_none_removed(s, pairs, count - 1);
        if !takes_first(pairs, count - 1) {
            assert(deletions_upto(s, pairs, count).len() > 0);
        }
    }
}

proof fn lemma_none_added(s: Sides, pairs: Seq<ResultModel>, count: int)
    requires
        0 <= count,
    ensures
        (additions_upto(s, pairs, count).len() == 0) == (forall|i: int|
            0 <= i < count ==> #[trigger] takes_second(pairs, i)),
    decreases count,
{
    if count > 0 {
        lemma_none_added(s, pairs, count - 1);
        if !takes_second(pairs, count - 1) {
            assert(additions_upto(s, pairs, count).len() > 0);
        }
    }
}

/// Two texts are identical exactly where every declaration of either is
/// matched, and every pair differs in the names of local bindings only.
pub proof fn law_texts_are_identical_up_to_local_names(s: Sides, results: Seq<ResultModel>)
    ensures
        compared(s, results).identical == ({
            let pairs = accepted(results);
            &&& forall|i: int| 0 <= i < s.list1.len() ==> #[trigger] takes_first(pairs, i)
            &&& forall|i: int| 0 <= i < s.list2.len() ==> #[trigger] takes_second(pairs, i)
            &&& forall|k: int| 0 <= k < pairs.len() ==> #[trigger] is_renamed_pair(s, pairs, k)
        }),
{
    let pairs = accepted(results);
    lemma_unchanged_pairs(s, pairs, pairs.len() as int);
    lemma_none_removed(s, pairs, s.list1.len() as int);
    lemma_none_added(s, pairs, s.list2.len() as int);
}

} // verus!
