//! Edits of name documents, and how names are carried over and shown.

use vstd::prelude::*;
use vstd::string::*;

use crate::analysis::Analysis;
use crate::lineage::LineageReport;
use crate::naming::propagate::SourceMapPropagationInputs;
use crate::naming::propagate::{
    propagate_approved_names, propagate_approved_names_with_source_maps,
};
use crate::naming::{
    DocumentModel, EntryModel, NameProvenance, NameState, NamingError, ProvenanceModel,
    SemanticNameDocument,
};
use crate::render::RenderFormat;
use crate::text::{decimal_text, same_text};

use crate::lineage::report;
use crate::naming::{document, edit, propagate};
use crate::text;

verus! {

/// An edit of a name document.
#[derive(Debug)]
pub enum NameEdit {
    Suggest { name: String },
    Approve,
    Reject,
    Clear,
}

/// The model of a [`NameEdit`].
pub enum EditModel {
    Suggest { name: Seq<char> },
    Approve,
    Reject,
    Clear,
}

impl View for NameEdit {
    type V = EditModel;

    open spec fn view(&self) -> EditModel {
        match self {
            NameEdit::Suggest { name } => EditModel::Suggest { name: name@ },
            NameEdit::Approve => EditModel::Approve,
            NameEdit::Reject => EditModel::Reject,
            NameEdit::Clear => EditModel::Clear,
        }
    }
}

/// Why an edit was refused.
#[derive(Debug, Clone, Copy, PartialEq, Eq, Structural)]
pub enum NameEditError {
    /// The document was edited since it was read.
    Stale { expected: u64, actual: u64 },
    Naming(NamingError),
}

impl NameEditError {
    /// What to tell about the refusal.
    pub open spec fn message_spec(self) -> Seq<char> {
        match self {
            NameEditError::Stale { expected, actual } =>
                "semantic-name revision changed: expected "@ + text::decimal_of(expected as nat)
                    + ", found "@ + text::decimal_of(actual as nat),
            NameEditError::Naming(error) => error.message_spec(),
        }
    }

    /// What to tell about the refusal.
    pub fn message(self) -> (message: String)
        ensures
            message@ == self.message_spec(),
    {
        match self {
            NameEditError::Stale { expected, actual } =>
                "semantic-name revision changed: expected ".to_string().concat(
                decimal_text(expected).as_str()).concat(", found ").concat(
                decimal_text(actual).as_str()),
            NameEditError::Naming(error) => error.message(),
        }
    }
}

/// Refuses a document of another revision.
pub fn require_revision(actual: u64, expected: u64) -> (r: Result<(), NameEditError>)
    ensures
        r == (if actual == expected {
            Ok(())
        } else {
            Err(NameEditError::Stale { expected, actual })
        }),
{
    if actual != expected {
        return Err(NameEditError::Stale { expected, actual });
    }
    Ok(())
}

/// What only an origin says of where a name comes from.
pub open spec fn origin_only(origin: Seq<char>) -> ProvenanceModel {
    ProvenanceModel { origin, actor: None, evidence_digest: None }
}

/// A document after an edit, and why the edit was refused if so.
pub open spec fn edited(
    d: DocumentModel,
    symbol_id: Seq<char>,
    change: EditModel,
    expected_revision: u64,
    origin: Seq<char>,
) -> (DocumentModel, Option<NameEditError>) {
    if d.revision != expected_revision {
        (
            d,
            Some(NameEditError::Stale { expected: expected_revision, actual: d.revision }),
        )
    } else {
        let (next, fault) = match change {
            EditModel::Suggest { name } => edit::suggested(
                d,
                symbol_id,
                name,
                origin_only(origin),
            ),
            EditModel::Approve => edit::transitioned(
                d,
                symbol_id,
                NameState::Approved,
                origin_only(origin),
            ),
            EditModel::Reject => edit::transitioned(
                d,
                symbol_id,
                NameState::Rejected,
                origin_only(origin),
            ),
            EditModel::Clear => edit::transitioned(
                d,
                symbol_id,
                NameState::Cleared,
                origin_only(origin),
            ),
        };
        (
            next,
            match fault {
                Some(error) => Some(NameEditError::Naming(error)),
                None => None,
            },
        )
    }
}

/// Edits a document of the expected revision.
pub fn edit_names(
    document: &mut SemanticNameDocument,
    symbol_id: &str,
    change: NameEdit,
    expected_revision: u64,
    origin: String,
) -> (r: Result<(), NameEditError>)
    ensures
        ({
            let (next, fault) = edited(
                old(document)@,
                symbol_id@,
                change@,
                expected_revision,
                origin@,
            );
            &&& final(document)@ == next
            &&& r == crate::faults::outcome(fault)
        }),
{
    require_revision(document.revision, expected_revision)?;
    let provenance = NameProvenance { origin, actor: None, evidence_digest: None };
    let outcome = match change {
        NameEdit::Suggest { name } => document.suggest(symbol_id, name, provenance),
        NameEdit::Approve => document.transition(symbol_id, NameState::Approved, provenance),
        NameEdit::Reject => document.transition(symbol_id, NameState::Rejected, provenance),
        NameEdit::Clear => document.transition(symbol_id, NameState::Cleared, provenance),
    };
    match outcome {
        Ok(()) => Ok(()),
        Err(error) => Err(NameEditError::Naming(error)),
    }
}

/// An edit that expects another revision is refused and changes nothing.
pub proof fn law_stale_edits_change_nothing(
    d: DocumentModel,
    symbol_id: Seq<char>,
    change: EditModel,
    expected_revision: u64,
    origin: Seq<char>,
)
    requires
        d.revision != expected_revision,
    ensures
        edited(d, symbol_id, change, expected_revision, origin) == (
            d,
            Some(NameEditError::Stale { expected: expected_revision, actual: d.revision }),
        ),
{
}

/// How many of the first `count` symbols have an approved name.
pub open spec fn approved_upto(symbols: Seq<EntryModel>, count: int) -> nat
    decreases count,
{
    if count <= 0 {
        0
    } else {
        approved_upto(symbols, count - 1) + if symbols[count - 1].state == NameState::Approved {
            1nat
        } else {
            0
        }
    }
}

/// How many symbols of a document have an approved name.
pub fn count_approved(document: &SemanticNameDocument) -> (count: usize)
    ensures
        count == approved_upto(document@.symbols, document@.symbols.len() as int),
{
    let mut count: usize = 0;
    let mut i: usize = 0;
    assert(document@.symbols.len() == document.symbols@.len());
    while i < document.symbols.len()
        invariant
            document@.symbols.len() == document.symbols@.len(),
            i <= document.symbols@.len(),
            count <= i,
            count == approved_upto(document@.symbols, i as int),
        decreases document.symbols@.len() - i,
    {
        assert(document@.symbols[i as int] == document.symbols@[i as int]@);
        if document.symbols[i].state == NameState::Approved {
            count += 1;
        }
        i += 1;
    }
    count
}

/// The layout that a word stands for.
pub open spec fn render_format_of(value: Seq<char>) -> Option<RenderFormat> {
    if value == "pretty"@ {
        Some(RenderFormat::Pretty)
    } else if value == "preserve"@ {
        Some(RenderFormat::Preserve)
    } else {
        None
    }
}

/// Reads the layout of a rendered text.
pub fn parse_render_format(value: &str) -> (r: Option<RenderFormat>)
    ensures
        r == render_format_of(value@),
{
    if same_text(value, "pretty") {
        Some(RenderFormat::Pretty)
    } else if same_text(value, "preserve") {
        Some(RenderFormat::Preserve)
    } else {
        None
    }
}

/// Why names are not carried over, if so: the documents have to belong to the
/// texts, and a report that is bound to source maps needs them.
pub open spec fn propagation_fault(
    names: DocumentModel,
    lineage: crate::lineage::ReportModel,
    source: Analysis,
    target: Analysis,
    maps: Option<SourceMapPropagationInputs<'_>>,
) -> Option<NamingError> {
    crate::naming::or_fault(
        document::binding_fault(names, source),
        propagate::lineage_fault(
            match maps {
                Some(maps) => report::mapped_binding_fault(
                    lineage,
                    source,
                    target,
                    maps.source_text@,
                    maps.target_text@,
                    *maps.source_map,
                    *maps.target_map,
                ),
                None => report::plain_binding_fault(lineage, source, target),
            },
        ),
    )
}

/// Carries approved names over, with or without source maps.
pub fn propagate_names(
    names: &SemanticNameDocument,
    lineage: &LineageReport,
    source: &Analysis,
    target: &Analysis,
    maps: Option<SourceMapPropagationInputs<'_>>,
) -> (r: Result<SemanticNameDocument, NamingError>)
    ensures
        propagate::is_outcome(
            r,
            propagation_fault(names@, lineage@, *source, *target, maps),
            propagate::propagated(names@, lineage@, *target),
        ),
{
    match maps {
        Some(maps) => propagate_approved_names_with_source_maps(
            names,
            lineage,
            source,
            target,
            maps,
        ),
        None => propagate_approved_names(names, lineage, source, target),
    }
}

} // verus!
