//! What holds of every lineage report that validates.

use vstd::prelude::*;

use super::{MatchDecision, MatchModel, ReportModel};

use super::report;

verus! {

proof fn lemma_no_match_fault(r: ReportModel, i: int)
    requires
        0 <= i <= r.matches.len(),
        report::first_match_fault(r, i) is None,
    ensures
        forall|k: int| i <= k < r.matches.len() ==> (#[trigger] report::match_fault(r, k)) is None,
    decreases r.matches.len() - i,
{
    if i < r.matches.len() {
        lemma_no_match_fault(r, i + 1);
    }
}

proof fn lemma_sources_ascend(r: ReportModel, i: int, k: int)
    requires
        0 <= i < k < r.matches.len(),
        forall|m: int|
            0 < m < r.matches.len() ==> (#[trigger] report::match_fault(r, m)) is None,
    ensures
        r.matches[i].source_row < r.matches[k].source_row,
    decreases k - i,
{
    assert(report::match_fault(r, k) is None);
    if i < k - 1 {
        lemma_sources_ascend(r, i, k - 1);
    }
}

/// Whether a text spells 256 bits: 64 lowercase hexadecimal digits.
pub open spec fn is_digest(value: Seq<char>) -> bool {
    &&& value.len() == 64
    &&& forall|i: int|
        0 <= i < value.len() ==> '0' <= #[trigger] value[i] <= '9' || 'a' <= value[i] <= 'f'
}

/// Whether a match has a target, with evidence from at least one and at most
/// so many candidates.
pub open spec fn has_target(m: MatchModel, most: int) -> bool {
    &&& m.target_row is Some
    &&& m.target_symbol_id matches Some(id) && is_digest(id)
    &&& 0 < m.candidate_count <= most
    &&& m.evidence matches Some(e) && e.shape_bps <= 10_000 && e.context_bps <= 10_000
        && e.roles_bps <= 10_000 && e.size_bps <= 10_000 && e.scope_bps <= 10_000
}

/// A valid report tells of each source symbol once, in order, and matches no
/// target twice. A deleted symbol has no target and no candidates, every other
/// one has a target with evidence; evidence from source maps is told only
/// where both maps are named; and no score or margin exceeds the scale.
pub proof fn law_valid_reports_match_one_to_one(r: ReportModel, i: int, k: int)
    requires
        report::report_fault(r) is None,
        0 <= i < r.matches.len(),
        0 <= k < r.matches.len(),
    ensures
        ({
            let m = r.matches[i];
            let n = r.matches[k];
            &&& i < k <==> m.source_row < n.source_row
            &&& i != k && m.decision == MatchDecision::Accepted && n.decision
                == MatchDecision::Accepted ==> m.target_row != n.target_row
            &&& is_digest(m.source_symbol_id)
            &&& m.score_bps <= 10_000 && m.source_margin_bps <= 10_000 && m.target_margin_bps
                <= 10_000
            &&& m.decision == MatchDecision::Deleted ==> m.target_row is None
                && m.target_symbol_id is None && m.evidence is None && m.candidate_count == 0
            &&& m.decision != MatchDecision::Deleted ==> has_target(
                m,
                r.config.max_candidates as int,
            )
            &&& m.evidence matches Some(e) ==> (e.source_map_origin_match is Some
                ==> r.source_map_source_digest is Some && r.source_map_target_digest is Some)
        }),
{
    lemma_no_match_fault(r, 0);
    assert(report::match_fault(r, i) is None);
    assert(report::match_fault(r, k) is None);
    if i < k {
        lemma_sources_ascend(r, i, k);
    }
    if k < i {
        lemma_sources_ascend(r, k, i);
    }
    let m = r.matches[i];
    let n = r.matches[k];
    if i != k && m.decision == MatchDecision::Accepted && n.decision == MatchDecision::Accepted
        && m.target_row == n.target_row {
        if i < k {
            assert(report::is_accepted_before(r, n.target_row->0, k));
        } else {
            assert(report::is_accepted_before(r, m.target_row->0, i));
        }
    }
}

/// The matches with a decision.
pub open spec fn matches_with(
    matches: Seq<MatchModel>,
    decision: MatchDecision,
    count: int,
) -> Set<int> {
    Set::new(|i: int| 0 <= i < count && matches[i].decision == decision)
}

proof fn lemma_decisions(matches: Seq<MatchModel>, decision: MatchDecision, count: int)
    requires
        0 <= count <= matches.len(),
    ensures
        matches_with(matches, decision, count).finite(),
        matches_with(matches, decision, count).len() == report::decisions_upto(
            matches,
            decision,
            count,
        ),
    decreases count,
{
    broadcast use vstd::set::group_set_axioms;

    let those = matches_with(matches, decision, count);
    if count == 0 {
        assert(those =~= Set::empty());
    } else {
        lemma_decisions(matches, decision, count - 1);
        let fewer = matches_with(matches, decision, count - 1);
        if matches[count - 1].decision == decision {
            assert(those =~= fewer.insert(count - 1));
        } else {
            assert(those =~= fewer);
        }
    }
}

proof fn lemma_all_decided(matches: Seq<MatchModel>, count: int)
    requires
        0 <= count <= matches.len(),
    ensures
        report::decisions_upto(matches, MatchDecision::Accepted, count) + report::decisions_upto(
            matches,
            MatchDecision::Abstained,
            count,
        ) + report::decisions_upto(matches, MatchDecision::Deleted, count) == count,
    decreases count,
{
    if count > 0 {
        lemma_all_decided(matches, count - 1);
    }
}

/// The statistics of a valid report count its rows: every source symbol is
/// accepted, abstained from or deleted, and no more comparisons are counted
/// than pairs.
pub proof fn law_valid_reports_count_their_rows(r: ReportModel)
    requires
        report::report_fault(r) is None,
    ensures
        ({
            let n = r.matches.len() as int;
            &&& r.stats.source_symbols == n
            &&& r.stats.accepted == matches_with(r.matches, MatchDecision::Accepted, n).len()
            &&& r.stats.abstained == matches_with(r.matches, MatchDecision::Abstained, n).len()
            &&& r.stats.deleted == matches_with(r.matches, MatchDecision::Deleted, n).len()
            &&& r.stats.accepted + r.stats.abstained + r.stats.deleted == n
            &&& r.stats.added == r.added_target_rows.len()
            &&& r.stats.ambiguous_targets == r.ambiguous_target_rows.len()
            &&& r.stats.candidate_pairs == r.stats.expensive_comparisons
        }),
{
    let n = r.matches.len() as int;
    lemma_decisions(r.matches, MatchDecision::Accepted, n);
    lemma_decisions(r.matches, MatchDecision::Abstained, n);
    lemma_decisions(r.matches, MatchDecision::Deleted, n);
    lemma_all_decided(r.matches, n);
}

proof fn lemma_ascends(rows: Seq<u32>, i: int, j: int)
    requires
        report::rows_ascend(rows),
        0 <= i < j < rows.len(),
    ensures
        rows[i] < rows[j],
    decreases j - i,
{
    assert(report::ascends_at(rows, j));
    if i < j - 1 {
        lemma_ascends(rows, i, j - 1);
    }
}

/// Whether some source symbol is accepted for a target row.
pub open spec fn is_accepted(r: ReportModel, row: u32) -> bool {
    exists|i: int|
        0 <= i < r.matches.len() && (#[trigger] r.matches[i]).decision == MatchDecision::Accepted
            && r.matches[i].target_row == Some(row)
}

/// A valid report lists the target rows without a match in order and each
/// once: none is both added and ambiguous, and none that is listed is the
/// target of an accepted match.
pub proof fn law_valid_reports_list_targets_once(r: ReportModel, i: int, j: int)
    requires
        report::report_fault(r) is None,
        0 <= i,
        0 <= j,
    ensures
        ({
            let added = r.added_target_rows;
            let unsure = r.ambiguous_target_rows;
            &&& i < j < added.len() ==> added[i] < added[j]
            &&& i < j < unsure.len() ==> unsure[i] < unsure[j]
            &&& i < added.len() && j < unsure.len() ==> added[i] != unsure[j]
            &&& i < added.len() ==> !is_accepted(r, added[i])
            &&& i < unsure.len() ==> !is_accepted(r, unsure[i])
        }),
{
    let added = r.added_target_rows;
    let unsure = r.ambiguous_target_rows;
    if i < j < added.len() {
        lemma_ascends(added, i, j);
    }
    if i < j < unsure.len() {
        lemma_ascends(unsure, i, j);
    }
    if i < added.len() {
        assert(!report::is_accepted_target(r, added[i]));
        if j < unsure.len() {
            assert(!added.contains(unsure[j]));
            assert(added.contains(added[i]));
        }
    }
    if i < unsure.len() {
        assert(!report::is_accepted_target(r, unsure[i]));
    }
}

} // verus!
