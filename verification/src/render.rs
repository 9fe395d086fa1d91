//! Deterministic reconstruction of a target text with approved names.
//!
//! The source and its analysis stay as they are: approved names are applied to
//! the occurrences of lexical symbols, and the outcome is a new text.

use vstd::hash_map::StringHashMap;
use vstd::prelude::*;
use vstd::string::*;
use vstd::utf8::*;

use crate::analysis::{Analysis, AnalysisNode};
use crate::diff::alpha::quote;
use crate::edits::{sort_edits, splice, Edit};
use crate::naming::{NameState, NamingError, SemanticNameDocument};
use crate::parser::JsParser;
use crate::pretty::FormatError;
use crate::syntax::{ParseError, SyntaxTree};
use crate::text::{same_text, slice_text};

use crate::analysis::validate;
use crate::diff::alpha;
use crate::edits::EditModel;
use crate::naming::document;
use crate::naming::{DocumentModel, EntryModel};
use crate::syntax::RowModel;
use crate::{edits, parser, pretty, syntax, text};

verus! {

/// How a rendered text is laid out.
#[derive(Debug, Clone, Copy, PartialEq, Eq, Structural)]
pub enum RenderFormat {
    Preserve,
    Pretty,
}

/// Why a text cannot be rendered.
#[derive(Debug, Clone, Copy, PartialEq, Eq, Structural)]
pub enum RenderError {
    Naming(NamingError),
    Format(FormatError),
    /// The text has another length than the analyzed one.
    SourceLength,
    /// An approved symbol has no name.
    NoName,
    /// A symbol of the document is not in the analysis.
    UnknownSymbol,
    /// A symbol's range is no range of the text.
    InvalidSpan,
    /// A symbol's range holds another text than its name.
    SpanMismatch { start: usize, end: usize, name: u32 },
    /// Two occurrences cover the same text.
    Overlap,
}

impl RenderError {
    /// What to tell about the refusal where the texts are not at hand.
    pub open spec fn message_spec(self) -> Seq<char> {
        match self {
            RenderError::Naming(error) => error.message_spec(),
            RenderError::Format(error) => error.message_spec(),
            RenderError::SourceLength =>
                "target source length does not match its analysis artifact"@,
            RenderError::NoName => "approved symbol has no semantic name"@,
            RenderError::UnknownSymbol => "semantic-name symbol is not in the target analysis"@,
            RenderError::InvalidSpan => "symbol span is not valid UTF-8 source"@,
            RenderError::SpanMismatch { .. } =>
                "symbol span does not contain the expected generated identifier"@,
            RenderError::Overlap => "approved symbol replacements overlap"@,
        }
    }

    /// What to tell about the refusal where the texts are not at hand.
    pub fn message(self) -> (message: String)
        ensures
            message@ == self.message_spec(),
    {
        match self {
            RenderError::Naming(error) => error.message(),
            RenderError::Format(error) => error.message(),
            RenderError::SourceLength =>
                "target source length does not match its analysis artifact".to_string(),
            RenderError::NoName => "approved symbol has no semantic name".to_string(),
            RenderError::UnknownSymbol =>
                "semantic-name symbol is not in the target analysis".to_string(),
            RenderError::InvalidSpan => "symbol span is not valid UTF-8 source".to_string(),
            RenderError::SpanMismatch { .. } =>
                "symbol span does not contain the expected generated identifier".to_string(),
            RenderError::Overlap => "approved symbol replacements overlap".to_string(),
        }
    }

    /// Whether the ranges and names that the refusal speaks of are those of a
    /// source and its analysis.
    pub open spec fn speaks_of(self, a: Analysis, source: Seq<char>) -> bool {
        self matches RenderError::SpanMismatch { start, end, name } ==> {
            &&& text::is_text_range(source, start as int, end as int)
            &&& name < a.strings@.len()
        }
    }

    /// What to tell about the refusal to render a source: of a range that holds
    /// another text than its name, both texts.
    pub open spec fn message_in_spec(self, a: Analysis, source: Seq<char>) -> Seq<char> {
        match self {
            RenderError::SpanMismatch { start, end, name } if self.speaks_of(a, source) =>
                "symbol span contains "@ + alpha::quoted(
                text::text_between(source, start as int, end as int),
            ) + ", expected generated identifier "@ + alpha::quoted(a.strings@[name as int]@),
            _ => self.message_spec(),
        }
    }

    /// What to tell about the refusal to render a source.
    pub fn message_in(self, analysis: &Analysis, source: &str) -> (message: String)
        ensures
            message@ == self.message_in_spec(*analysis, source@),
    {
        if let RenderError::SpanMismatch { start, end, name } = self {
            if (name as usize) < analysis.strings.len() {
                if let Some(actual) = slice_text(source, start, end) {
                    return "symbol span contains ".to_string().concat(
                        quote(actual).as_str(),
                    ).concat(", expected generated identifier ").concat(
                        quote(analysis.strings[name as usize].as_str()).as_str(),
                    );
                }
            }
        }
        self.message()
    }
}

/// The edit of one occurrence of a symbol, where the text holds its name.
pub open spec fn occurrence(
    a: Analysis,
    source: Seq<char>,
    node: AnalysisNode,
    generated: u32,
    name: Seq<char>,
) -> Result<EditModel, RenderError> {
    let (start, end) = (node.start_byte as int, node.end_byte as int);
    if !text::is_text_range(source, start, end) {
        Err(RenderError::InvalidSpan)
    } else if text::text_between(source, start, end) != a.strings@[generated as int]@ {
        Err(
            RenderError::SpanMismatch {
                start: start as usize,
                end: end as usize,
                name: generated,
            },
        )
    } else {
        Ok(EditModel { start, end, text: name })
    }
}

/// The edits of a symbol's declaration and its first `count` references.
pub open spec fn symbol_edits(
    a: Analysis,
    source: Seq<char>,
    row: int,
    name: Seq<char>,
    count: int,
) -> Result<Seq<EditModel>, RenderError>
    decreases count,
{
    let symbol = a.symbols@[row];
    if count <= 0 {
        match occurrence(
            a,
            source,
            a.nodes@[symbol.declaration_node as int],
            symbol.name,
            name,
        ) {
            Ok(edit) => Ok(seq![edit]),
            Err(error) => Err(error),
        }
    } else {
        match symbol_edits(a, source, row, name, count - 1) {
            Err(error) => Err(error),
            Ok(list) => {
                let reference = a.references@[symbol.reference_first + count - 1];
                match occurrence(
                    a,
                    source,
                    a.nodes@[reference.node as int],
                    reference.name,
                    name,
                ) {
                    Ok(edit) => Ok(list.push(edit)),
                    Err(error) => Err(error),
                }
            },
        }
    }
}

/// The last of the first `count` symbols with an identity.
pub open spec fn symbol_row(a: Analysis, id: Seq<char>, count: int) -> Option<int>
    decreases count,
{
    if count <= 0 {
        None
    } else if text::hex_of(a.symbols@[count - 1].id.0@) == id {
        Some(count - 1)
    } else {
        symbol_row(a, id, count - 1)
    }
}

/// The edits of one symbol of a document.
pub open spec fn entry_edits(a: Analysis, source: Seq<char>, e: EntryModel) -> Result<
    Seq<EditModel>,
    RenderError,
> {
    if e.state != NameState::Approved {
        Ok(Seq::empty())
    } else {
        match e.semantic_name {
            None => Err(RenderError::NoName),
            Some(name) => match symbol_row(a, e.symbol_id, a.symbols@.len() as int) {
                None => Err(RenderError::UnknownSymbol),
                Some(row) => symbol_edits(
                    a,
                    source,
                    row,
                    name,
                    a.symbols@[row].reference_count as int,
                ),
            },
        }
    }
}

/// The edits of the first `count` symbols of a document.
pub open spec fn approved_edits(
    a: Analysis,
    source: Seq<char>,
    symbols: Seq<EntryModel>,
    count: int,
) -> Result<Seq<EditModel>, RenderError>
    decreases count,
{
    if count <= 0 {
        Ok(Seq::empty())
    } else {
        match approved_edits(a, source, symbols, count - 1) {
            Err(error) => Err(error),
            Ok(list) => match entry_edits(a, source, symbols[count - 1]) {
                Err(error) => Err(error),
                Ok(more) => Ok(list + more),
            },
        }
    }
}

/// A text with the approved names of a document.
pub open spec fn renamed(d: DocumentModel, a: Analysis, source: Seq<char>) -> Result<
    Seq<char>,
    RenderError,
> {
    if encode_utf8(source).len() != a.source_length {
        Err(RenderError::SourceLength)
    } else {
        match approved_edits(a, source, d.symbols, d.symbols.len() as int) {
            Err(error) => Err(error),
            Ok(list) => if edits::some_overlap(edits::by_range(list)) {
                Err(RenderError::Overlap)
            } else {
                Ok(edits::spliced(source, edits::by_range(list)))
            },
        }
    }
}

/// A renamed text, laid out, given how it and its formatted form parse.
pub open spec fn laid_out(
    text: Seq<char>,
    layout: RenderFormat,
    parse: Result<Seq<RowModel>, ParseError>,
    again: Result<Seq<RowModel>, ParseError>,
) -> Result<Seq<char>, RenderError> {
    match parse {
        Err(error) => Err(RenderError::Format(FormatError::Parse(error))),
        Ok(rows) => match layout {
            RenderFormat::Preserve => Ok(text),
            RenderFormat::Pretty => match pretty::checked(rows, text, again) {
                Ok(output) => Ok(output),
                Err(error) => Err(RenderError::Format(error)),
            },
        },
    }
}

/// How the formatted form of a text parses.
pub open spec fn formatted_parse(parse: Result<Seq<RowModel>, ParseError>, text: Seq<char>) -> Result<
    Seq<RowModel>,
    ParseError,
> {
    match parse {
        Err(error) => Err(error),
        Ok(rows) => parser::parsed(pretty::formatted(rows, text)),
    }
}

/// A text rendered with the approved names of a document.
pub open spec fn rendered(
    d: DocumentModel,
    a: Analysis,
    source: Seq<char>,
    layout: RenderFormat,
) -> Result<Seq<char>, RenderError> {
    match document::binding_fault(d, a) {
        Some(fault) => Err(RenderError::Naming(fault)),
        None => match renamed(d, a, source) {
            Err(error) => Err(error),
            Ok(text) => laid_out(
                text,
                layout,
                parser::parsed(text),
                formatted_parse(parser::parsed(text), text),
            ),
        },
    }
}

/// Whether an outcome holds a text or the same error.
pub open spec fn is_outcome(
    r: Result<String, RenderError>,
    wanted: Result<Seq<char>, RenderError>,
) -> bool {
    match (r, wanted) {
        (Ok(found), Ok(text)) => found@ == text,
        (Err(a), Err(b)) => a == b,
        _ => false,
    }
}

fn add_replacement(
    a: &Analysis,
    source: &str,
    node: &AnalysisNode,
    generated: u32,
    name: &str,
) -> (r: Result<Edit, RenderError>)
    requires
        generated < a.strings@.len(),
        node.end_byte <= u32::MAX,
        node.start_byte <= u32::MAX,
    ensures
        match (r, occurrence(*a, source@, *node, generated, name@)) {
            (Ok(edit), Ok(wanted)) => edit@ == wanted,
            (Err(error), Err(wanted)) => error == wanted,
            _ => false,
        },
{
    let start: usize = node.start_byte as usize;
    let end: usize = node.end_byte as usize;
    match slice_text(source, start, end) {
        None => Err(RenderError::InvalidSpan),
        Some(actual) => {
            if !same_text(actual, a.strings[generated as usize].as_str()) {
                return Err(RenderError::SpanMismatch { start, end, name: generated });
            }
            Ok(Edit { start, end, text: name.to_string() })
        },
    }
}

/// Whether every node ends where 32 bits can count.
spec fn spans_fit(a: Analysis) -> bool {
    forall|i: int|
        0 <= i < a.nodes@.len() ==> (#[trigger] a.nodes@[i]).start_byte <= u32::MAX
            && a.nodes@[i].end_byte <= u32::MAX
}

proof fn lemma_spans_fit(a: Analysis)
    requires
        validate::is_valid(a),
    ensures
        spans_fit(a),
{
    assert forall|i: int| 0 <= i < a.nodes@.len() implies (#[trigger] a.nodes@[i]).start_byte
        <= u32::MAX && a.nodes@[i].end_byte <= u32::MAX by {
        assert(validate::node_fault(a, i) is None);
    }
}

fn add_symbol(
    a: &Analysis,
    source: &str,
    row: usize,
    name: &str,
    replacements: &mut Vec<Edit>,
) -> (r: Result<(), RenderError>)
    requires
        validate::rows_fit(*a),
        spans_fit(*a),
        row < a.symbols@.len(),
    ensures
        match (
            r,
            symbol_edits(
                *a,
                source@,
                row as int,
                name@,
                a.symbols@[row as int].reference_count as int,
            ),
        ) {
            (Ok(_), Ok(list)) => edits::edit_views(final(replacements)@) == edits::edit_views(
                old(replacements)@,
            ) + list,
            (Err(error), Err(wanted)) => error == wanted,
            _ => false,
        },
{
    let ghost before = edits::edit_views(replacements@);
    let symbol = a.symbols[row];
    let first: usize = symbol.reference_first as usize;
    let count: u32 = symbol.reference_count;
    let total: usize = a.references.len();
    proof {
        lemma_shorter_fails(*a, source@, row as int, name@, 0, count as int);
    }
    match add_replacement(
        a,
        source,
        &a.nodes[symbol.declaration_node as usize],
        symbol.name,
        name,
    ) {
        Ok(edit) => {
            replacements.push(edit);
            assert(edits::edit_views(replacements@) =~= before + seq![edit@]);
        },
        Err(error) => {
            return Err(error);
        },
    }
    let mut k: u32 = 0;
    while k < count
        invariant
            validate::rows_fit(*a),
            spans_fit(*a),
            row < a.symbols@.len(),
            symbol == a.symbols@[row as int],
            first == symbol.reference_first,
            count == symbol.reference_count,
            total == a.references@.len(),
            first + count <= total,
            k <= count,
            before == edits::edit_views(old(replacements)@),
            symbol_edits(*a, source@, row as int, name@, k as int) matches Ok(list)
                && edits::edit_views(replacements@) == before + list,
        decreases count - k,
    {
        assert(first + k < total);
        let reference = a.references[first + k as usize];
        let ghost list = symbol_edits(*a, source@, row as int, name@, k as int)->Ok_0;
        proof {
            lemma_shorter_fails(*a, source@, row as int, name@, k + 1, count as int);
        }
        match add_replacement(a, source, &a.nodes[reference.node as usize], reference.name, name) {
            Ok(edit) => {
                let ghost earlier = replacements@;
                replacements.push(edit);
                assert(edits::edit_views(replacements@) =~= edits::edit_views(earlier).push(edit@));
                assert(edits::edit_views(replacements@) =~= before + list.push(edit@));
            },
            Err(error) => {
                return Err(error);
            },
        }
        k += 1;
    }
    Ok(())
}

proof fn lemma_shorter_fails(
    a: Analysis,
    source: Seq<char>,
    row: int,
    name: Seq<char>,
    shorter: int,
    longer: int,
)
    requires
        0 <= shorter <= longer,
    ensures
        symbol_edits(a, source, row, name, shorter) matches Err(error) ==> symbol_edits(
            a,
            source,
            row,
            name,
            longer,
        ) == Err::<Seq<EditModel>, RenderError>(error),
    decreases longer - shorter,
{
    if shorter < longer {
        lemma_shorter_fails(a, source, row, name, shorter, longer - 1);
    }
}

proof fn lemma_fewer_fail(
    a: Analysis,
    source: Seq<char>,
    symbols: Seq<EntryModel>,
    fewer: int,
    more: int,
)
    requires
        0 <= fewer <= more,
    ensures
        approved_edits(a, source, symbols, fewer) matches Err(error) ==> approved_edits(
            a,
            source,
            symbols,
            more,
        ) == Err::<Seq<EditModel>, RenderError>(error),
    decreases more - fewer,
{
    if fewer < more {
        lemma_fewer_fail(a, source, symbols, fewer, more - 1);
    }
}

/// Whether a map holds the row of every identity among the first `count`.
spec fn holds_rows(map: Map<Seq<char>, usize>, a: Analysis, count: int) -> bool {
    forall|id: Seq<char>|
        match symbol_row(a, id, count) {
            Some(row) => #[trigger] map.contains_key(id) && map[id] == row,
            None => !map.contains_key(id),
        }
}

proof fn lemma_symbol_row(a: Analysis, id: Seq<char>, count: int)
    ensures
        symbol_row(a, id, count) matches Some(row) ==> 0 <= row < count,
    decreases count,
{
    if count > 0 {
        lemma_symbol_row(a, id, count - 1);
    }
}

fn rows_by_id(a: &Analysis) -> (map: StringHashMap<usize>)
    ensures
        holds_rows(map@, *a, a.symbols@.len() as int),
{
    let mut map: StringHashMap<usize> = StringHashMap::new();
    let mut i: usize = 0;
    while i < a.symbols.len()
        invariant
            i <= a.symbols@.len(),
            holds_rows(map@, *a, i as int),
        decreases a.symbols@.len() - i,
    {
        let ghost before = map@;
        map.insert(a.symbols[i].id.to_hex(), i);
        proof {
            assert forall|id: Seq<char>|
                match symbol_row(*a, id, i + 1) {
                    Some(row) => #[trigger] map@.contains_key(id) && map@[id] == row,
                    None => !map@.contains_key(id),
                } by {
                assert(before.contains_key(id) == (symbol_row(*a, id, i as int) is Some));
            }
        }
        i += 1;
    }
    map
}

proof fn lemma_edits_are_ranges(
    a: Analysis,
    source: Seq<char>,
    row: int,
    name: Seq<char>,
    count: int,
)
    ensures
        symbol_edits(a, source, row, name, count) matches Ok(list) ==> edits::are_ranges(
            source,
            list,
        ),
    decreases count,
{
    if count > 0 {
        lemma_edits_are_ranges(a, source, row, name, count - 1);
    }
}

proof fn lemma_approved_are_ranges(
    a: Analysis,
    source: Seq<char>,
    symbols: Seq<EntryModel>,
    count: int,
)
    ensures
        approved_edits(a, source, symbols, count) matches Ok(list) ==> edits::are_ranges(
            source,
            list,
        ),
    decreases count,
{
    if count > 0 {
        lemma_approved_are_ranges(a, source, symbols, count - 1);
        let e = symbols[count - 1];
        if e.semantic_name is Some {
            if let Some(row) = symbol_row(a, e.symbol_id, a.symbols@.len() as int) {
                lemma_edits_are_ranges(
                    a,
                    source,
                    row,
                    e.semantic_name->0,
                    a.symbols@[row].reference_count as int,
                );
            }
        }
    }
}

/// Puts the approved names of a document into a text.
pub fn apply_approved_names(
    document: &SemanticNameDocument,
    analysis: &Analysis,
    source: &str,
) -> (r: Result<String, RenderError>)
    requires
        validate::is_valid(*analysis),
    ensures
        is_outcome(r, renamed(document@, *analysis, source@)),
{
    let a = analysis;
    let ghost symbols = document@.symbols;
    if source.as_bytes().len() as u64 != a.source_length {
        return Err(RenderError::SourceLength);
    }
    proof {
        validate::lemma_valid_rows_fit(*a);
        lemma_spans_fit(*a);
    }
    let rows = rows_by_id(a);
    let mut replacements: Vec<Edit> = Vec::new();
    let ghost total = symbols.len() as int;
    let mut i: usize = 0;
    assert(total == document.symbols@.len());
    assert(edits::edit_views(replacements@) =~= Seq::empty());
    while i < document.symbols.len()
        invariant
            encode_utf8(source@).len() == analysis.source_length,
            a == analysis,
            validate::rows_fit(*a),
            spans_fit(*a),
            holds_rows(rows@, *a, a.symbols@.len() as int),
            symbols == document@.symbols,
            total == symbols.len(),
            total == document.symbols@.len(),
            i <= total,
            approved_edits(*a, source@, symbols, i as int) matches Ok(list)
                && edits::edit_views(replacements@) == list,
        decreases total - i,
    {
        let entry = &document.symbols[i];
        assert(symbols[i as int] == entry@);
        let ghost before = edits::edit_views(replacements@);
        proof {
            lemma_fewer_fail(*a, source@, symbols, i + 1, total);
            lemma_symbol_row(*a, entry.symbol_id@, a.symbols@.len() as int);
            assert(rows@.contains_key(entry.symbol_id@) == (symbol_row(
                *a,
                entry.symbol_id@,
                a.symbols@.len() as int,
            ) is Some));
        }
        if entry.state == NameState::Approved {
            let name = match &entry.semantic_name {
                Some(name) => name.as_str(),
                None => {
                    return Err(RenderError::NoName);
                },
            };
            let row: usize = match rows.get(entry.symbol_id.as_str()) {
                Some(row) => *row,
                None => {
                    return Err(RenderError::UnknownSymbol);
                },
            };
            match add_symbol(a, source, row, name, &mut replacements) {
                Ok(()) => {},
                Err(error) => {
                    return Err(error);
                },
            }
        } else {
            assert(before + Seq::<EditModel>::empty() =~= before);
        }
        i += 1;
    }
    let ghost list = edits::edit_views(replacements@);
    let sorted = sort_edits(replacements);
    proof {
        lemma_approved_are_ranges(*a, source@, symbols, total);
        edits::lemma_sorted_ranges(source@, list);
    }
    match splice(source, &sorted) {
        Some(output) => Ok(output),
        None => Err(RenderError::Overlap),
    }
}

/// Lays a renamed text out, given how it parses.
pub fn finish_text(
    text: String,
    layout: RenderFormat,
    parse: Result<SyntaxTree, ParseError>,
) -> (r: Result<String, RenderError>)
    requires
        parse matches Ok(tree) ==> syntax::covers(tree@, text@),
    ensures
        ({
            let parsed = match parse {
                Ok(tree) => Ok(tree@),
                Err(error) => Err(error),
            };
            is_outcome(r, laid_out(text@, layout, parsed, formatted_parse(parsed, text@)))
        }),
{
    match parse {
        Err(error) => Err(RenderError::Format(FormatError::Parse(error))),
        Ok(tree) => match layout {
            RenderFormat::Preserve => Ok(text),
            RenderFormat::Pretty => match crate::pretty::format(&tree, text.as_str()) {
                Ok(output) => Ok(output),
                Err(error) => Err(RenderError::Format(error)),
            },
        },
    }
}

/// Recreates a target text with the approved names of a document. The outcome
/// is parsed before it is returned.
pub fn render_semantic_names(
    document: &SemanticNameDocument,
    analysis: &Analysis,
    source: &str,
    format: RenderFormat,
) -> (r: Result<String, RenderError>)
    ensures
        is_outcome(r, rendered(document@, *analysis, source@, format)),
{
    match document.validate_against(analysis) {
        Ok(()) => {},
        Err(error) => {
            return Err(RenderError::Naming(error));
        },
    }
    proof {
        validate::law_no_fault_means_valid(*analysis);
    }
    let text = match apply_approved_names(document, analysis, source) {
        Ok(text) => text,
        Err(error) => {
            return Err(error);
        },
    };
    let mut parser = match JsParser::new() {
        Ok(parser) => parser,
        Err(error) => {
            return Err(RenderError::Format(FormatError::Parse(error)));
        },
    };
    let parse = parser.parse(text.as_str());
    finish_text(text, format, parse)
}

/// Whether nothing is approved among the first `count` symbols.
spec fn none_approved(symbols: Seq<EntryModel>, count: int) -> bool {
    forall|i: int| 0 <= i < count ==> (#[trigger] symbols[i]).state != NameState::Approved
}

proof fn lemma_no_approved_edits(
    a: Analysis,
    source: Seq<char>,
    symbols: Seq<EntryModel>,
    count: int,
)
    requires
        0 <= count <= symbols.len(),
        none_approved(symbols, count),
    ensures
        approved_edits(a, source, symbols, count) == Ok::<Seq<EditModel>, RenderError>(
            Seq::empty(),
        ),
    decreases count,
{
    if count > 0 {
        lemma_no_approved_edits(a, source, symbols, count - 1);
        assert(symbols[count - 1].state != NameState::Approved);
        assert(Seq::<EditModel>::empty() + Seq::<EditModel>::empty() =~= Seq::empty());
    }
}

/// Where nothing is approved, a text of the analyzed length is not changed.
pub proof fn law_only_approved_names_are_rendered(
    d: DocumentModel,
    a: Analysis,
    source: Seq<char>,
)
    requires
        encode_utf8(source).len() == a.source_length,
        forall|i: int|
            0 <= i < d.symbols.len() ==> (#[trigger] d.symbols[i]).state != NameState::Approved,
    ensures
        renamed(d, a, source) == Ok::<Seq<char>, RenderError>(source),
{
    lemma_no_approved_edits(a, source, d.symbols, d.symbols.len() as int);
    let none = Seq::<EditModel>::empty();
    assert(edits::by_range(none) =~= none);
    edits::law_no_edits_change_nothing(source);
}

proof fn lemma_symbol_refusals(
    a: Analysis,
    source: Seq<char>,
    row: int,
    name: Seq<char>,
    count: int,
)
    requires
        validate::rows_fit(a),
        spans_fit(a),
        0 <= row < a.symbols@.len(),
        count <= a.symbols@[row].reference_count,
    ensures
        symbol_edits(a, source, row, name, count) matches Err(error) ==> error.speaks_of(a, source),
    decreases count,
{
    let symbol = a.symbols@[row];
    if count > 0 {
        lemma_symbol_refusals(a, source, row, name, count - 1);
        let reference = a.references@[symbol.reference_first + count - 1];
        assert(reference.node < a.nodes@.len());
        let node = a.nodes@[reference.node as int];
        assert(node.start_byte <= u32::MAX);
    } else {
        let node = a.nodes@[symbol.declaration_node as int];
        assert(node.start_byte <= u32::MAX);
    }
}

proof fn lemma_refusals(a: Analysis, source: Seq<char>, symbols: Seq<EntryModel>, count: int)
    requires
        validate::rows_fit(a),
        spans_fit(a),
        count <= symbols.len(),
    ensures
        approved_edits(a, source, symbols, count) matches Err(error) ==> error.speaks_of(a, source),
    decreases count,
{
    if count > 0 {
        lemma_refusals(a, source, symbols, count - 1);
        let e = symbols[count - 1];
        lemma_symbol_row(a, e.symbol_id, a.symbols@.len() as int);
        if let Some(row) = symbol_row(a, e.symbol_id, a.symbols@.len() as int) {
            if let Some(name) = e.semantic_name {
                lemma_symbol_refusals(
                    a,
                    source,
                    row,
                    name,
                    a.symbols@[row].reference_count as int,
                );
            }
        }
    }
}

/// A refusal to render a source speaks of ranges of that source and of names
/// of its analysis, so that both texts are told.
pub proof fn law_refusals_speak_of_the_source(
    d: DocumentModel,
    a: Analysis,
    source: Seq<char>,
    layout: RenderFormat,
)
    ensures
        rendered(d, a, source, layout) matches Err(error) ==> error.speaks_of(a, source),
{
    if document::binding_fault(d, a) is None {
        validate::law_no_fault_means_valid(a);
        validate::lemma_valid_rows_fit(a);
        lemma_spans_fit(a);
        lemma_refusals(a, source, d.symbols, d.symbols.len() as int);
    }
}

} // verus!
