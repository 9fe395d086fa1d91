//! Carrying approved names over to a matched analysis.

use vstd::hash_map::StringHashMap;
use vstd::prelude::*;
use vstd::string::*;

use super::{NameProvenance, NameState, NamingError, SemanticNameDocument};
use super::{DocumentModel, EntryModel, ProvenanceModel};
use crate::analysis::Analysis;
use crate::lineage::{LineageReport, MatchDecision};
use crate::lineage::{MatchModel, ReportModel};
use crate::sourcemap::SourceMap;
use crate::text::clone_optional;

use super::{document, edit, rules};
use crate::lineage::report;

verus! {

/// The last of the first `count` symbols that has an identity and an approved
/// name.
pub open spec fn approved_row(symbols: Seq<EntryModel>, id: Seq<char>, count: int) -> Option<int>
    decreases count,
{
    if count <= 0 {
        None
    } else if symbols[count - 1].state == NameState::Approved && symbols[count - 1].symbol_id
        == id {
        Some(count - 1)
    } else {
        approved_row(symbols, id, count - 1)
    }
}

/// The approved symbol with an identity.
pub open spec fn approved(source: DocumentModel, id: Seq<char>) -> Option<int> {
    approved_row(source.symbols, id, source.symbols.len() as int)
}

/// Where a carried name comes from.
pub open spec fn lineage_provenance(r: ReportModel) -> ProvenanceModel {
    ProvenanceModel {
        origin: "lineage"@,
        actor: None,
        evidence_digest: Some(r.config_digest),
    }
}

/// Whether a match carries an approved name.
pub open spec fn carries(source: DocumentModel, m: MatchModel) -> bool {
    m.decision == MatchDecision::Accepted && approved(source, m.source_symbol_id) is Some
        && m.target_symbol_id is Some
}

/// A document after one match, and the fault that is reported.
pub open spec fn carried(
    source: DocumentModel,
    r: ReportModel,
    d: DocumentModel,
    i: int,
) -> (DocumentModel, Option<NamingError>) {
    let m = r.matches[i];
    if carries(source, m) {
        edit::applied(
            d,
            m.target_symbol_id->0,
            NameState::Approved,
            source.symbols[approved(source, m.source_symbol_id)->0].semantic_name,
            lineage_provenance(r),
        )
    } else {
        (d, None)
    }
}

/// A document after the matches from `i` on.
pub open spec fn carried_from(
    source: DocumentModel,
    r: ReportModel,
    d: DocumentModel,
    i: int,
) -> Result<DocumentModel, NamingError>
    decreases r.matches.len() - i,
{
    if i < 0 || i >= r.matches.len() {
        match rules::document_fault(d) {
            Some(fault) => Err(fault),
            None => Ok(d),
        }
    } else {
        let (next, fault) = carried(source, r, d, i);
        match fault {
            Some(fault) => Err(fault),
            None => carried_from(source, r, next, i + 1),
        }
    }
}

/// The names of a target, as the matches carry them.
pub open spec fn propagated(
    source: DocumentModel,
    r: ReportModel,
    target: Analysis,
) -> Result<DocumentModel, NamingError> {
    match document::creation_fault(target, false) {
        Some(fault) => Err(fault),
        None => carried_from(source, r, document::document_of(target, false), 0),
    }
}

/// A lineage fault as a naming fault.
pub open spec fn lineage_fault(fault: Option<crate::lineage::LineageError>) -> Option<NamingError> {
    match fault {
        Some(fault) => Some(NamingError::Lineage(fault)),
        None => None,
    }
}

/// Whether an outcome is a fault, or else what a computation gives.
pub open spec fn is_outcome(
    r: Result<SemanticNameDocument, NamingError>,
    fault: Option<NamingError>,
    wanted: Result<DocumentModel, NamingError>,
) -> bool {
    match fault {
        Some(fault) => r matches Err(error) && error == fault,
        None => match (r, wanted) {
            (Ok(found), Ok(document)) => found@ == document,
            (Err(error), Err(fault)) => error == fault,
            _ => false,
        },
    }
}

/// Whether a map holds the approved symbols among the first `count`.
spec fn holds_approved(
    map: Map<Seq<char>, usize>,
    symbols: Seq<EntryModel>,
    count: int,
) -> bool {
    forall|id: Seq<char>|
        match approved_row(symbols, id, count) {
            Some(k) => #[trigger] map.contains_key(id) && map[id] == k,
            None => !map.contains_key(id),
        }
}

proof fn lemma_approved_row(symbols: Seq<EntryModel>, id: Seq<char>, count: int)
    ensures
        approved_row(symbols, id, count) matches Some(k) ==> 0 <= k < count && symbols[k].state
            == NameState::Approved && symbols[k].symbol_id == id,
    decreases count,
{
    if count > 0 {
        lemma_approved_row(symbols, id, count - 1);
    }
}

fn approved_symbols(source: &SemanticNameDocument) -> (map: StringHashMap<usize>)
    ensures
        holds_approved(map@, source@.symbols, source@.symbols.len() as int),
{
    let ghost symbols = source@.symbols;
    let mut map: StringHashMap<usize> = StringHashMap::new();
    let mut i: usize = 0;
    assert(symbols.len() == source.symbols@.len());
    while i < source.symbols.len()
        invariant
            symbols == source@.symbols,
            symbols.len() == source.symbols@.len(),
            i <= source.symbols@.len(),
            holds_approved(map@, symbols, i as int),
        decreases source.symbols@.len() - i,
    {
        let entry = &source.symbols[i];
        assert(symbols[i as int] == entry@);
        let ghost before = map@;
        if entry.state == NameState::Approved {
            map.insert(entry.symbol_id.clone(), i);
        }
        proof {
            assert forall|id: Seq<char>|
                match approved_row(symbols, id, i + 1) {
                    Some(k) => #[trigger] map@.contains_key(id) && map@[id] == k,
                    None => !map@.contains_key(id),
                } by {
                assert(before.contains_key(id) == (approved_row(symbols, id, i as int) is Some));
            }
        }
        i += 1;
    }
    map
}

/// Carries the approved names of a document over the accepted matches of a
/// report to a target.
pub fn propagate_validated_names(
    source: &SemanticNameDocument,
    lineage: &LineageReport,
    target: &Analysis,
) -> (r: Result<SemanticNameDocument, NamingError>)
    ensures
        is_outcome(r, None, propagated(source@, lineage@, *target)),
{
    let approved_map = approved_symbols(source);
    let ghost symbols = source@.symbols;
    let mut output = match SemanticNameDocument::from_analysis(target, false) {
        Ok(output) => output,
        Err(error) => {
            return Err(error);
        },
    };
    let ghost wanted = propagated(source@, lineage@, *target);
    let mut i: usize = 0;
    assert(lineage@.matches.len() == lineage.matches@.len());
    assert(symbols.len() == source.symbols@.len());
    while i < lineage.matches.len()
        invariant
            i <= lineage.matches@.len(),
            lineage@.matches.len() == lineage.matches@.len(),
            symbols == source@.symbols,
            symbols.len() == source.symbols@.len(),
            wanted == propagated(source@, lineage@, *target),
            wanted == carried_from(source@, lineage@, output@, i as int),
            holds_approved(approved_map@, symbols, symbols.len() as int),
        decreases lineage.matches@.len() - i,
    {
        let matched = &lineage.matches[i];
        assert(lineage@.matches[i as int] == matched@);
        if matched.decision == MatchDecision::Accepted {
            proof {
                lemma_approved_row(symbols, matched.source_symbol_id@, symbols.len() as int);
                assert(approved_map@.contains_key(matched.source_symbol_id@) == (approved(
                    source@,
                    matched.source_symbol_id@,
                ) is Some));
            }
            if let Some(row) = approved_map.get(matched.source_symbol_id.as_str()) {
                if let Some(target_id) = &matched.target_symbol_id {
                    let entry = &source.symbols[*row];
                    assert(symbols[*row as int] == entry@);
                    let provenance = NameProvenance {
                        origin: "lineage".to_string(),
                        actor: None,
                        evidence_digest: Some(lineage.config_digest.clone()),
                    };
                    assert(provenance@ == lineage_provenance(lineage@));
                    match output.apply_event(
                        target_id.as_str(),
                        NameState::Approved,
                        clone_optional(&entry.semantic_name),
                        provenance,
                    ) {
                        Ok(()) => {},
                        Err(error) => {
                            return Err(error);
                        },
                    }
                }
            }
        }
        i += 1;
    }
    match output.validate() {
        Ok(()) => Ok(output),
        Err(error) => Err(error),
    }
}

/// Carries approved names over a report that is bound to two analyses.
pub fn propagate_approved_names(
    source: &SemanticNameDocument,
    lineage: &LineageReport,
    source_analysis: &Analysis,
    target: &Analysis,
) -> (r: Result<SemanticNameDocument, NamingError>)
    ensures
        is_outcome(
            r,
            super::or_fault(
                document::binding_fault(source@, *source_analysis),
                lineage_fault(
                    report::plain_binding_fault(lineage@, *source_analysis, *target),
                ),
            ),
            propagated(source@, lineage@, *target),
        ),
{
    match source.validate_against(source_analysis) {
        Ok(()) => {},
        Err(error) => {
            return Err(error);
        },
    }
    match lineage.validate_against(source_analysis, target) {
        Ok(()) => {},
        Err(error) => {
            return Err(NamingError::Lineage(error));
        },
    }
    propagate_validated_names(source, lineage, target)
}

/// The exact generated texts and the exact raw maps of a report.
pub struct SourceMapPropagationInputs<'a> {
    pub source_text: &'a str,
    pub target_text: &'a str,
    pub source_map: &'a SourceMap,
    pub target_map: &'a SourceMap,
}

/// Carries approved names over a report that is bound to exact generated texts
/// and source maps.
pub fn propagate_approved_names_with_source_maps(
    source: &SemanticNameDocument,
    lineage: &LineageReport,
    source_analysis: &Analysis,
    target: &Analysis,
    maps: SourceMapPropagationInputs<'_>,
) -> (r: Result<SemanticNameDocument, NamingError>)
    ensures
        is_outcome(
            r,
            super::or_fault(
                document::binding_fault(source@, *source_analysis),
                lineage_fault(
                    report::mapped_binding_fault(
                        lineage@,
                        *source_analysis,
                        *target,
                        maps.source_text@,
                        maps.target_text@,
                        *maps.source_map,
                        *maps.target_map,
                    ),
                ),
            ),
            propagated(source@, lineage@, *target),
        ),
{
    match source.validate_against(source_analysis) {
        Ok(()) => {},
        Err(error) => {
            return Err(error);
        },
    }
    match lineage.validate_against_with_source_maps(
        source_analysis,
        target,
        maps.source_text,
        maps.target_text,
        maps.source_map,
        maps.target_map,
    ) {
        Ok(()) => {},
        Err(error) => {
            return Err(NamingError::Lineage(error));
        },
    }
    propagate_validated_names(source, lineage, target)
}

} // verus!
