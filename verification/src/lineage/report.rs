//! The rules of lineage reports.

use std::collections::HashSet;

use vstd::prelude::*;
use vstd::string::*;

use super::matcher::{
    match_analyses, match_analyses_with_source_maps, matches_text, REPORT_ALGORITHM, REPORT_FORMAT,
};
use super::{
    config_fits, digest_of_config, LineageError, LineageReport, MatchDecision, MatchEvidence,
    MatchModel, ReportModel, SymbolMatch, SCORE_SCALE,
};
use crate::analysis::Analysis;
use crate::sourcemap::SourceMap;
use crate::text::{hex_text, same_optional, same_text, spells_digest};
use crate::text;

use super::{matcher, score};
use crate::analysis::validate;

verus! {

/// The fault of a report as a whole.
pub open spec fn header_fault(r: ReportModel) -> Option<LineageError> {
    if r.format != REPORT_FORMAT@ || r.algorithm != REPORT_ALGORITHM@ {
        Some(LineageError::UnsupportedFormat)
    } else if r.config_digest != super::config_digest_of(r.config) {
        Some(LineageError::ConfigurationDigest)
    } else if !text::is_digest_text(r.source_digest) || !text::is_digest_text(r.target_digest) {
        Some(LineageError::Digest)
    } else if r.source_map_source_digest is Some != r.source_map_target_digest is Some {
        Some(LineageError::UnpairedMapDigests)
    } else if r.source_map_source_digest is Some && (!text::is_digest_text(
        r.source_map_source_digest->0,
    ) || !text::is_digest_text(r.source_map_target_digest->0)) {
        Some(LineageError::Digest)
    } else if !super::config_is_valid(r.config) {
        Some(LineageError::InvalidConfiguration)
    } else {
        None
    }
}

/// Whether an earlier match was accepted for a target row.
pub open spec fn is_accepted_before(r: ReportModel, row: u32, count: int) -> bool {
    exists|k: int|
        0 <= k < count && (#[trigger] r.matches[k]).decision == MatchDecision::Accepted
            && r.matches[k].target_row == Some(row)
}

/// The fault of match `i`, if any.
pub open spec fn match_fault(r: ReportModel, i: int) -> Option<LineageError> {
    let m = r.matches[i];
    if i > 0 && r.matches[i - 1].source_row >= m.source_row {
        Some(LineageError::SourceRowsUnordered)
    } else if !text::is_digest_text(m.source_symbol_id) {
        Some(LineageError::Digest)
    } else if m.score_bps > SCORE_SCALE || m.source_margin_bps > SCORE_SCALE || m.target_margin_bps
        > SCORE_SCALE || m.candidate_count > r.config.max_candidates {
        Some(LineageError::ScoreRange)
    } else if m.decision == MatchDecision::Deleted {
        if m.target_row is Some || m.target_symbol_id is Some || m.evidence is Some
            || m.candidate_count != 0 {
            Some(LineageError::DeletedRowData)
        } else {
            None
        }
    } else if m.target_row is None {
        Some(LineageError::NoTarget)
    } else if m.target_symbol_id is None {
        Some(LineageError::NoTargetId)
    } else if !text::is_digest_text(m.target_symbol_id->0) {
        Some(LineageError::Digest)
    } else if m.evidence is None || m.candidate_count == 0 {
        Some(LineageError::NoEvidence)
    } else if !score::is_in_range(m.evidence->0) {
        Some(LineageError::EvidenceRange)
    } else if m.evidence->0.source_map_origin_match is Some && r.source_map_source_digest is None {
        Some(LineageError::UnboundMapEvidence)
    } else if m.decision == MatchDecision::Accepted && is_accepted_before(
        r,
        m.target_row->0,
        i,
    ) {
        Some(LineageError::NotOneToOne)
    } else {
        None
    }
}

/// The fault of the first match from `i` on that has one.
pub open spec fn first_match_fault(r: ReportModel, i: int) -> Option<LineageError>
    decreases r.matches.len() - i,
{
    if i < 0 || i >= r.matches.len() {
        None
    } else {
        match match_fault(r, i) {
            Some(fault) => Some(fault),
            None => first_match_fault(r, i + 1),
        }
    }
}

/// How many of the first `count` matches have a decision.
pub open spec fn decisions_upto(
    matches: Seq<MatchModel>,
    decision: MatchDecision,
    count: int,
) -> nat
    decreases count,
{
    if count <= 0 {
        0
    } else {
        decisions_upto(matches, decision, count - 1) + if matches[count - 1].decision == decision {
            1nat
        } else {
            0
        }
    }
}

/// How many matches have a decision.
pub open spec fn decisions(r: ReportModel, decision: MatchDecision) -> nat {
    decisions_upto(r.matches, decision, r.matches.len() as int)
}

/// Whether the statistics are those of the rows.
pub open spec fn stats_agree(r: ReportModel) -> bool {
    &&& r.stats.source_symbols == r.matches.len()
    &&& r.stats.accepted == decisions(r, MatchDecision::Accepted)
    &&& r.stats.abstained == decisions(r, MatchDecision::Abstained)
    &&& r.stats.deleted == decisions(r, MatchDecision::Deleted)
    &&& r.stats.added == r.added_target_rows.len()
    &&& r.stats.ambiguous_targets == r.ambiguous_target_rows.len()
    &&& r.stats.candidate_pairs == r.stats.expensive_comparisons
}

/// Whether row numbers ascend.
pub open spec fn rows_ascend(rows: Seq<u32>) -> bool {
    forall|i: int| 0 < i < rows.len() ==> #[trigger] ascends_at(rows, i)
}

/// Whether a row number is larger than the one ahead of it.
pub open spec fn ascends_at(rows: Seq<u32>, i: int) -> bool {
    rows[i - 1] < rows[i]
}

/// Whether a target row has an accepted match.
pub open spec fn is_accepted_target(r: ReportModel, row: u32) -> bool {
    is_accepted_before(r, row, r.matches.len() as int)
}

/// Whether the unmatched target rows ascend, and none is listed twice or
/// accepted.
pub open spec fn target_rows_agree(r: ReportModel) -> bool {
    &&& rows_ascend(r.added_target_rows)
    &&& forall|i: int|
        0 <= i < r.added_target_rows.len() ==> !is_accepted_target(
            r,
            #[trigger] r.added_target_rows[i],
        )
    &&& rows_ascend(r.ambiguous_target_rows)
    &&& forall|i: int|
        0 <= i < r.ambiguous_target_rows.len() ==> !is_accepted_target(
            r,
            #[trigger] r.ambiguous_target_rows[i],
        ) && !r.added_target_rows.contains(r.ambiguous_target_rows[i])
}

/// The first fault of a report.
pub open spec fn report_fault(r: ReportModel) -> Option<LineageError> {
    if header_fault(r) is Some {
        header_fault(r)
    } else if first_match_fault(r, 0) is Some {
        first_match_fault(r, 0)
    } else if !stats_agree(r) {
        Some(LineageError::Statistics)
    } else if !target_rows_agree(r) {
        Some(LineageError::TargetRows)
    } else {
        None
    }
}

/// A fault as the outcome of a check.
pub open spec fn outcome(fault: Option<LineageError>) -> Result<(), LineageError> {
    match fault {
        Some(fault) => Err(fault),
        None => Ok(()),
    }
}

/// Whether a set holds exactly the targets accepted among the first matches.
spec fn holds_accepted(set: Set<u32>, r: ReportModel, count: int) -> bool {
    forall|row: u32| #[trigger] set.contains(row) == is_accepted_before(r, row, count)
}

proof fn lemma_accepted_step(r: ReportModel, row: u32, count: int)
    requires
        0 <= count < r.matches.len(),
    ensures
        is_accepted_before(r, row, count + 1) == (is_accepted_before(r, row, count) || (
        r.matches[count].decision == MatchDecision::Accepted && r.matches[count].target_row == Some(
            row,
        ))),
{
    if is_accepted_before(r, row, count) {
        let k = choose|k: int|
            0 <= k < count && (#[trigger] r.matches[k]).decision == MatchDecision::Accepted
                && r.matches[k].target_row == Some(row);
        assert(r.matches[k].decision == MatchDecision::Accepted);
    }
    if is_accepted_before(r, row, count + 1) && !is_accepted_before(r, row, count) {
        let k = choose|k: int|
            0 <= k < count + 1 && (#[trigger] r.matches[k]).decision == MatchDecision::Accepted
                && r.matches[k].target_row == Some(row);
        assert(k == count);
    }
}

fn evidence_in_range(evidence: &MatchEvidence) -> (r: bool)
    ensures
        r == score::is_in_range(*evidence),
{
    evidence.shape_bps <= SCORE_SCALE && evidence.context_bps <= SCORE_SCALE && evidence.roles_bps
        <= SCORE_SCALE && evidence.size_bps <= SCORE_SCALE && evidence.scope_bps <= SCORE_SCALE
}

fn rows_rise(rows: &Vec<u32>) -> (r: bool)
    ensures
        r == rows_ascend(rows@),
{
    let mut i: usize = 1;
    while i < rows.len()
        invariant
            1 <= i,
            forall|k: int| 0 < k < i && k < rows@.len() ==> #[trigger] ascends_at(rows@, k),
        decreases rows@.len() - i,
    {
        if rows[i - 1] >= rows[i] {
            assert(!ascends_at(rows@, i as int));
            return false;
        }
        i += 1;
    }
    true
}

impl LineageReport {
    fn check_header(&self) -> (r: Result<(), LineageError>)
        ensures
            r == outcome(header_fault(self@)),
    {
        if !same_text(self.format.as_str(), REPORT_FORMAT) || !same_text(
            self.algorithm.as_str(),
            REPORT_ALGORITHM,
        ) {
            return Err(LineageError::UnsupportedFormat);
        }
        let digest = digest_of_config(&self.config);
        if !same_text(self.config_digest.as_str(), digest.as_str()) {
            return Err(LineageError::ConfigurationDigest);
        }
        if !spells_digest(self.source_digest.as_str()) || !spells_digest(
            self.target_digest.as_str(),
        ) {
            return Err(LineageError::Digest);
        }
        match (&self.source_map_source_digest, &self.source_map_target_digest) {
            (None, None) => {},
            (Some(source), Some(target)) => {
                if !spells_digest(source.as_str()) || !spells_digest(target.as_str()) {
                    return Err(LineageError::Digest);
                }
            },
            _ => {
                return Err(LineageError::UnpairedMapDigests);
            },
        }
        if !config_fits(&self.config) {
            return Err(LineageError::InvalidConfiguration);
        }
        Ok(())
    }

    fn check_match(&self, i: usize, accepted: &HashSet<u32>) -> (r: Result<(), LineageError>)
        requires
            i < self.matches@.len(),
            holds_accepted(accepted@, self@, i as int),
        ensures
            r == outcome(match_fault(self@, i as int)),
    {
        broadcast use vstd::std_specs::hash::group_hash_axioms;

        let m = &self.matches[i];
        assert(self@.matches[i as int] == m@);
        if i > 0 {
            assert(self@.matches[i - 1] == self.matches@[i - 1]@);
            if self.matches[i - 1].source_row >= m.source_row {
                return Err(LineageError::SourceRowsUnordered);
            }
        }
        if !spells_digest(m.source_symbol_id.as_str()) {
            return Err(LineageError::Digest);
        }
        if m.score_bps > SCORE_SCALE || m.source_margin_bps > SCORE_SCALE || m.target_margin_bps
            > SCORE_SCALE || m.candidate_count as u64 > self.config.max_candidates as u64 {
            return Err(LineageError::ScoreRange);
        }
        if m.decision == MatchDecision::Deleted {
            if m.target_row.is_some() || m.target_symbol_id.is_some() || m.evidence.is_some()
                || m.candidate_count != 0 {
                return Err(LineageError::DeletedRowData);
            }
            return Ok(());
        }
        let target = match m.target_row {
            Some(target) => target,
            None => {
                return Err(LineageError::NoTarget);
            },
        };
        match &m.target_symbol_id {
            Some(id) => {
                if !spells_digest(id.as_str()) {
                    return Err(LineageError::Digest);
                }
            },
            None => {
                return Err(LineageError::NoTargetId);
            },
        }
        let evidence = match m.evidence {
            Some(evidence) => evidence,
            None => {
                return Err(LineageError::NoEvidence);
            },
        };
        if m.candidate_count == 0 {
            return Err(LineageError::NoEvidence);
        }
        if !evidence_in_range(&evidence) {
            return Err(LineageError::EvidenceRange);
        }
        if evidence.source_map_origin_match.is_some() && self.source_map_source_digest.is_none() {
            return Err(LineageError::UnboundMapEvidence);
        }
        if m.decision == MatchDecision::Accepted && accepted.contains(&target) {
            return Err(LineageError::NotOneToOne);
        }
        Ok(())
    }

    fn check_matches(&self) -> (r: Result<HashSet<u32>, LineageError>)
        ensures
            match (r, first_match_fault(self@, 0)) {
                (Ok(accepted), None) => holds_accepted(
                    accepted@,
                    self@,
                    self@.matches.len() as int,
                ),
                (Err(error), Some(fault)) => error == fault,
                _ => false,
            },
    {
        broadcast use vstd::std_specs::hash::group_hash_axioms;

        let mut accepted: HashSet<u32> = HashSet::new();
        let mut i: usize = 0;
        assert(self@.matches.len() == self.matches@.len());
        while i < self.matches.len()
            invariant
                i <= self.matches@.len(),
                self@.matches.len() == self.matches@.len(),
                holds_accepted(accepted@, self@, i as int),
                first_match_fault(self@, 0) == first_match_fault(self@, i as int),
            decreases self.matches@.len() - i,
        {
            match self.check_match(i, &accepted) {
                Ok(()) => {},
                Err(error) => {
                    return Err(error);
                },
            }
            let m = &self.matches[i];
            let ghost before = accepted@;
            assert(self@.matches[i as int] == m@);
            if m.decision == MatchDecision::Accepted {
                if let Some(target) = m.target_row {
                    accepted.insert(target);
                }
            }
            proof {
                assert forall|row: u32| #[trigger] accepted@.contains(row) == is_accepted_before(
                    self@,
                    row,
                    i + 1,
                ) by {
                    assert(before.contains(row) == is_accepted_before(self@, row, i as int));
                    lemma_accepted_step(self@, row, i as int);
                }
            }
            i += 1;
        }
        Ok(accepted)
    }

    fn count_decisions(&self, decision: MatchDecision) -> (count: u64)
        ensures
            count == decisions(self@, decision),
    {
        let mut count: u64 = 0;
        let mut i: usize = 0;
        assert(self@.matches.len() == self.matches@.len());
        while i < self.matches.len()
            invariant
                i <= self.matches@.len(),
                count == decisions_upto(self@.matches, decision, i as int),
                count <= i,
            decreases self.matches@.len() - i,
        {
            assert(self@.matches[i as int] == self.matches@[i as int]@);
            if self.matches[i].decision == decision {
                count += 1;
            }
            i += 1;
        }
        count
    }

    fn check_target_rows(&self, accepted: &HashSet<u32>) -> (r: bool)
        requires
            holds_accepted(accepted@, self@, self@.matches.len() as int),
        ensures
            r == target_rows_agree(self@),
    {
        broadcast use vstd::std_specs::hash::group_hash_axioms;

        if !rows_rise(&self.added_target_rows) {
            return false;
        }
        let mut added: HashSet<u32> = HashSet::new();
        let mut i: usize = 0;
        while i < self.added_target_rows.len()
            invariant
                i <= self.added_target_rows@.len(),
                holds_accepted(accepted@, self@, self@.matches.len() as int),
                forall|k: int|
                    0 <= k < i ==> !is_accepted_target(
                        self@,
                        #[trigger] self.added_target_rows@[k],
                    ),
                forall|row: u32| #[trigger]
                    added@.contains(row) == self.added_target_rows@.take(i as int).contains(row),
            decreases self.added_target_rows@.len() - i,
        {
            let row = self.added_target_rows[i];
            if accepted.contains(&row) {
                assert(is_accepted_target(self@, self@.added_target_rows[i as int]));
                return false;
            }
            let ghost before = added@;
            added.insert(row);
            proof {
                let shorter = self.added_target_rows@.take(i as int);
                let longer = self.added_target_rows@.take(i + 1);
                assert(longer =~= shorter.push(row));
                assert forall|other: u32| #[trigger] added@.contains(other) == longer.contains(
                    other,
                ) by {
                    assert(before.contains(other) == shorter.contains(other));
                    if longer.contains(other) {
                        let k = choose|k: int| 0 <= k < longer.len() && longer[k] == other;
                        if k < i {
                            assert(shorter[k] == other);
                        }
                    }
                    if shorter.contains(other) {
                        let k = choose|k: int| 0 <= k < shorter.len() && shorter[k] == other;
                        assert(longer[k] == other);
                    }
                    if other == row {
                        assert(longer[i as int] == other);
                    }
                }
            }
            i += 1;
        }
        assert(self.added_target_rows@.take(i as int) =~= self.added_target_rows@);
        if !rows_rise(&self.ambiguous_target_rows) {
            return false;
        }
        let mut j: usize = 0;
        while j < self.ambiguous_target_rows.len()
            invariant
                j <= self.ambiguous_target_rows@.len(),
                holds_accepted(accepted@, self@, self@.matches.len() as int),
                forall|row: u32| #[trigger]
                    added@.contains(row) == self.added_target_rows@.contains(row),
                forall|k: int|
                    0 <= k < j ==> !is_accepted_target(
                        self@,
                        #[trigger] self.ambiguous_target_rows@[k],
                    ) && !self.added_target_rows@.contains(self.ambiguous_target_rows@[k]),
            decreases self.ambiguous_target_rows@.len() - j,
        {
            let row = self.ambiguous_target_rows[j];
            if accepted.contains(&row) || added.contains(&row) {
                assert(is_accepted_target(self@, self@.ambiguous_target_rows[j as int])
                    || self@.added_target_rows.contains(self@.ambiguous_target_rows[j as int]));
                return false;
            }
            j += 1;
        }
        true
    }

    /// Checks the rules that a report keeps by itself.
    pub fn validate(&self) -> (r: Result<(), LineageError>)
        ensures
            r == outcome(report_fault(self@)),
    {
        match self.check_header() {
            Ok(()) => {},
            Err(error) => {
                return Err(error);
            },
        }
        let accepted = match self.check_matches() {
            Ok(accepted) => accepted,
            Err(error) => {
                return Err(error);
            },
        };
        assert(self@.matches.len() == self.matches@.len());
        if self.stats.source_symbols != self.matches.len() as u64 || self.stats.accepted
            != self.count_decisions(MatchDecision::Accepted) || self.stats.abstained
            != self.count_decisions(MatchDecision::Abstained) || self.stats.deleted
            != self.count_decisions(MatchDecision::Deleted) || self.stats.added
            != self.added_target_rows.len() as u64 || self.stats.ambiguous_targets
            != self.ambiguous_target_rows.len() as u64 || self.stats.candidate_pairs
            != self.stats.expensive_comparisons {
            return Err(LineageError::Statistics);
        }
        if !self.check_target_rows(&accepted) {
            return Err(LineageError::TargetRows);
        }
        Ok(())
    }
}

/// The fault of match `i` against the analyses it names, if any.
pub open spec fn row_fault(
    r: ReportModel,
    source: Analysis,
    target: Analysis,
    i: int,
) -> Option<LineageError> {
    let m = r.matches[i];
    if m.source_row >= source.symbols@.len() {
        Some(LineageError::SourceRowRange)
    } else if m.source_symbol_id != text::hex_of(source.symbols@[m.source_row as int].id.0@) {
        Some(LineageError::SourceRowId)
    } else {
        match m.target_row {
            Some(row) => if row >= target.symbols@.len() {
                Some(LineageError::TargetRowRange)
            } else if m.target_symbol_id != Some(
                text::hex_of(target.symbols@[row as int].id.0@),
            ) {
                Some(LineageError::TargetRowId)
            } else {
                None
            },
            None => None,
        }
    }
}

/// The fault of the first match from `i` on that disagrees with the analyses.
pub open spec fn first_row_fault(
    r: ReportModel,
    source: Analysis,
    target: Analysis,
    i: int,
) -> Option<LineageError>
    decreases r.matches.len() - i,
{
    if i < 0 || i >= r.matches.len() {
        None
    } else {
        match row_fault(r, source, target, i) {
            Some(fault) => Some(fault),
            None => first_row_fault(r, source, target, i + 1),
        }
    }
}

/// Whether every unmatched target row is a symbol row.
pub open spec fn rows_are_below(rows: Seq<u32>, count: int) -> bool {
    forall|i: int| 0 <= i < rows.len() ==> #[trigger] rows[i] < count
}

/// The first fault of a valid report against analyses and what they give.
pub open spec fn against_fault(
    r: ReportModel,
    source: Analysis,
    target: Analysis,
    expected: ReportModel,
) -> Option<LineageError> {
    if matcher::analysis_error(source) is Some {
        matcher::analysis_error(source)
    } else if matcher::analysis_error(target) is Some {
        matcher::analysis_error(target)
    } else if r.source_digest != text::hex_of(source.source_digest@) || r.target_digest
        != text::hex_of(target.source_digest@) || r.stats.source_symbols != source.symbols@.len()
        || r.stats.target_symbols != target.symbols@.len() {
        Some(LineageError::DifferentArtifacts)
    } else if first_row_fault(r, source, target, 0) is Some {
        first_row_fault(r, source, target, 0)
    } else if !rows_are_below(r.added_target_rows, target.symbols@.len() as int) || !rows_are_below(
        r.ambiguous_target_rows,
        target.symbols@.len() as int,
    ) || r.added_target_rows.len() + r.ambiguous_target_rows.len() + decisions(
        r,
        MatchDecision::Accepted,
    ) != target.symbols@.len() {
        Some(LineageError::AddedRows)
    } else if r != expected {
        Some(LineageError::NotReproduced)
    } else {
        None
    }
}

/// The outcome of binding a report to analyses and what they give.
pub open spec fn bound_fault(
    r: ReportModel,
    source: Analysis,
    target: Analysis,
    fault: Option<LineageError>,
    expected: ReportModel,
) -> Option<LineageError> {
    if fault is Some {
        fault
    } else {
        against_fault(r, source, target, expected)
    }
}

fn rows_below(rows: &Vec<u32>, count: usize) -> (r: bool)
    ensures
        r == rows_are_below(rows@, count as int),
{
    let mut i: usize = 0;
    while i < rows.len()
        invariant
            i <= rows@.len(),
            forall|k: int| 0 <= k < i ==> #[trigger] rows@[k] < count,
        decreases rows@.len() - i,
    {
        if rows[i] as u64 >= count as u64 {
            return false;
        }
        i += 1;
    }
    true
}

fn same_rows(a: &Vec<u32>, b: &Vec<u32>) -> (r: bool)
    ensures
        r == (a@ == b@),
{
    if a.len() != b.len() {
        return false;
    }
    let mut i: usize = 0;
    while i < a.len()
        invariant
            i <= a@.len(),
            a@.len() == b@.len(),
            forall|k: int| 0 <= k < i ==> #[trigger] a@[k] == b@[k],
        decreases a@.len() - i,
    {
        if a[i] != b[i] {
            return false;
        }
        i += 1;
    }
    assert(a@ =~= b@);
    true
}

fn same_match(a: &SymbolMatch, b: &SymbolMatch) -> (r: bool)
    ensures
        r == (a@ == b@),
{
    a.source_row == b.source_row && same_text(
        a.source_symbol_id.as_str(),
        b.source_symbol_id.as_str(),
    ) && same_row(a.target_row, b.target_row) && same_optional(
        &a.target_symbol_id,
        &b.target_symbol_id,
    ) && a.decision == b.decision && a.confidence == b.confidence && a.score_bps == b.score_bps
        && a.source_margin_bps == b.source_margin_bps && a.target_margin_bps == b.target_margin_bps
        && a.candidate_count == b.candidate_count && a.candidates_truncated
        == b.candidates_truncated && same_evidence(&a.evidence, &b.evidence)
}

fn same_row(a: Option<u32>, b: Option<u32>) -> (r: bool)
    ensures
        r == (a == b),
{
    match (a, b) {
        (Some(a), Some(b)) => a == b,
        (None, None) => true,
        _ => false,
    }
}

fn same_evidence(a: &Option<MatchEvidence>, b: &Option<MatchEvidence>) -> (r: bool)
    ensures
        r == (*a == *b),
{
    match (a, b) {
        (Some(a), Some(b)) => {
            let origins = match (a.source_map_origin_match, b.source_map_origin_match) {
                (Some(a), Some(b)) => a == b,
                (None, None) => true,
                _ => false,
            };
            origins && a.exact_shape == b.exact_shape && a.shape_bps == b.shape_bps && a.context_bps
                == b.context_bps && a.roles_bps == b.roles_bps && a.size_bps == b.size_bps
                && a.scope_bps == b.scope_bps && a.shared_rare_features == b.shared_rare_features
        },
        (None, None) => true,
        _ => false,
    }
}

fn same_matches(a: &Vec<SymbolMatch>, b: &Vec<SymbolMatch>) -> (r: bool)
    ensures
        r == (super::match_views(a@) == super::match_views(b@)),
{
    let ghost x = super::match_views(a@);
    let ghost y = super::match_views(b@);
    assert(x.len() == a@.len() && y.len() == b@.len());
    if a.len() != b.len() {
        return false;
    }
    let mut i: usize = 0;
    while i < a.len()
        invariant
            i <= a@.len(),
            a@.len() == b@.len(),
            x == super::match_views(a@),
            y == super::match_views(b@),
            forall|k: int| 0 <= k < i ==> #[trigger] x[k] == y[k],
        decreases a@.len() - i,
    {
        assert(x[i as int] == a@[i as int]@ && y[i as int] == b@[i as int]@);
        if !same_match(&a[i], &b[i]) {
            return false;
        }
        i += 1;
    }
    assert(x =~= y);
    true
}

fn same_report(a: &LineageReport, b: &LineageReport) -> (r: bool)
    ensures
        r == (a@ == b@),
{
    same_text(a.format.as_str(), b.format.as_str()) && same_text(
        a.algorithm.as_str(),
        b.algorithm.as_str(),
    ) && same_text(a.source_digest.as_str(), b.source_digest.as_str()) && same_text(
        a.target_digest.as_str(),
        b.target_digest.as_str(),
    ) && same_optional(&a.source_map_source_digest, &b.source_map_source_digest) && same_optional(
        &a.source_map_target_digest,
        &b.source_map_target_digest,
    ) && a.config == b.config && same_text(a.config_digest.as_str(), b.config_digest.as_str())
        && a.stats == b.stats && same_matches(&a.matches, &b.matches) && same_rows(
        &a.added_target_rows,
        &b.added_target_rows,
    ) && same_rows(&a.ambiguous_target_rows, &b.ambiguous_target_rows)
}

/// The first fault of a report against two analyses.
pub open spec fn plain_binding_fault(
    r: ReportModel,
    source: Analysis,
    target: Analysis,
) -> Option<LineageError> {
    if report_fault(r) is Some {
        report_fault(r)
    } else if r.source_map_source_digest is Some {
        Some(LineageError::MapsRequired)
    } else {
        bound_fault(
            r,
            source,
            target,
            matcher::match_fault(source, target, r.config),
            matcher::plain_report(source, target, r.config),
        )
    }
}

/// The first fault of a report against two analyses and their source maps.
pub open spec fn mapped_binding_fault(
    r: ReportModel,
    source: Analysis,
    target: Analysis,
    source_text: Seq<char>,
    target_text: Seq<char>,
    source_map: SourceMap,
    target_map: SourceMap,
) -> Option<LineageError> {
    if report_fault(r) is Some {
        report_fault(r)
    } else if r.source_map_source_digest != Some(text::hex_of(source_map.digest_spec()))
        || r.source_map_target_digest != Some(text::hex_of(target_map.digest_spec())) {
        Some(LineageError::DifferentMaps)
    } else if !matcher::is_text_of(source, source_text) || !matcher::is_text_of(
        target,
        target_text,
    ) {
        Some(LineageError::DifferentText)
    } else {
        bound_fault(
            r,
            source,
            target,
            matcher::mapped_fault(source, target, r.config, source_text, target_text),
            matcher::mapped_report(
                source,
                target,
                r.config,
                source_text,
                target_text,
                source_map,
                target_map,
            ),
        )
    }
}

impl LineageReport {
    fn check_rows(&self, source: &Analysis, target: &Analysis) -> (r: Result<(), LineageError>)
        ensures
            r == outcome(first_row_fault(self@, *source, *target, 0)),
    {
        let mut i: usize = 0;
        assert(self@.matches.len() == self.matches@.len());
        while i < self.matches.len()
            invariant
                i <= self.matches@.len(),
                self@.matches.len() == self.matches@.len(),
                first_row_fault(self@, *source, *target, 0) == first_row_fault(
                    self@,
                    *source,
                    *target,
                    i as int,
                ),
            decreases self.matches@.len() - i,
        {
            let m = &self.matches[i];
            assert(self@.matches[i as int] == m@);
            let row: usize = m.source_row as usize;
            if row >= source.symbols.len() {
                return Err(LineageError::SourceRowRange);
            }
            let id = source.symbols[row].id.to_hex();
            if !same_text(m.source_symbol_id.as_str(), id.as_str()) {
                return Err(LineageError::SourceRowId);
            }
            if let Some(target_row) = m.target_row {
                let row: usize = target_row as usize;
                if row >= target.symbols.len() {
                    return Err(LineageError::TargetRowRange);
                }
                let id = target.symbols[row].id.to_hex();
                let same = match &m.target_symbol_id {
                    Some(own) => same_text(own.as_str(), id.as_str()),
                    None => false,
                };
                if !same {
                    return Err(LineageError::TargetRowId);
                }
            }
            i += 1;
        }
        Ok(())
    }

    fn validate_against_inner(
        &self,
        source: &Analysis,
        target: &Analysis,
        expected: &LineageReport,
    ) -> (r: Result<(), LineageError>)
        ensures
            r == outcome(against_fault(self@, *source, *target, expected@)),
    {
        match source.validate() {
            Ok(()) => {},
            Err(error) => {
                return Err(LineageError::Analysis(error));
            },
        }
        match target.validate() {
            Ok(()) => {},
            Err(error) => {
                return Err(LineageError::Analysis(error));
            },
        }
        let source_digest = hex_text(source.source_digest.as_slice());
        let target_digest = hex_text(target.source_digest.as_slice());
        if !same_text(self.source_digest.as_str(), source_digest.as_str()) || !same_text(
            self.target_digest.as_str(),
            target_digest.as_str(),
        ) || self.stats.source_symbols != source.symbols.len() as u64 || self.stats.target_symbols
            != target.symbols.len() as u64 {
            return Err(LineageError::DifferentArtifacts);
        }
        match self.check_rows(source, target) {
            Ok(()) => {},
            Err(error) => {
                return Err(error);
            },
        }
        let accepted = self.count_decisions(MatchDecision::Accepted);
        let total: u128 = self.added_target_rows.len() as u128
            + self.ambiguous_target_rows.len() as u128 + accepted as u128;
        if !rows_below(&self.added_target_rows, target.symbols.len()) || !rows_below(
            &self.ambiguous_target_rows,
            target.symbols.len(),
        ) || total != target.symbols.len() as u128 {
            return Err(LineageError::AddedRows);
        }
        if !same_report(self, expected) {
            return Err(LineageError::NotReproduced);
        }
        Ok(())
    }

    /// Binds a report to the exact analysis rows and stable identities it
    /// names.
    pub fn validate_against(&self, source: &Analysis, target: &Analysis) -> (r: Result<
        (),
        LineageError,
    >)
        ensures
            r == outcome(plain_binding_fault(self@, *source, *target)),
    {
        match self.validate() {
            Ok(()) => {},
            Err(error) => {
                return Err(error);
            },
        }
        if self.source_map_source_digest.is_some() {
            return Err(LineageError::MapsRequired);
        }
        match match_analyses(source, target, self.config) {
            Ok(expected) => self.validate_against_inner(source, target, &expected),
            Err(error) => Err(error),
        }
    }

    /// Binds a report to exact generated texts and the raw source maps that it
    /// was made with.
    pub fn validate_against_with_source_maps(
        &self,
        source: &Analysis,
        target: &Analysis,
        source_text: &str,
        target_text: &str,
        source_map: &SourceMap,
        target_map: &SourceMap,
    ) -> (r: Result<(), LineageError>)
        ensures
            r == outcome(
                mapped_binding_fault(
                    self@,
                    *source,
                    *target,
                    source_text@,
                    target_text@,
                    *source_map,
                    *target_map,
                ),
            ),
    {
        match self.validate() {
            Ok(()) => {},
            Err(error) => {
                return Err(error);
            },
        }
        let source_digest = Some(hex_text(source_map.digest().as_slice()));
        let target_digest = Some(hex_text(target_map.digest().as_slice()));
        if !same_optional(&self.source_map_source_digest, &source_digest) || !same_optional(
            &self.source_map_target_digest,
            &target_digest,
        ) {
            return Err(LineageError::DifferentMaps);
        }
        if !matches_text(source, source_text) || !matches_text(target, target_text) {
            return Err(LineageError::DifferentText);
        }
        match match_analyses_with_source_maps(
            source,
            target,
            self.config,
            source_text,
            target_text,
            source_map,
            target_map,
        ) {
            Ok(expected) => self.validate_against_inner(source, target, &expected),
            Err(error) => Err(error),
        }
    }
}

} // verus!
