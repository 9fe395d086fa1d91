//! What speaks for a match, and which targets are compared at all.

use vstd::prelude::*;

use super::candidates::Pairing;
use super::context::ContextModel;
use crate::analysis::{Analysis, AnalysisReferenceRole, AnalysisSymbolKind};

use super::match_laws::is_unique_pair;
use super::{candidates, context, index, match_laws, score, shape};

verus! {

/// The bits in which two hashes differ.
pub open spec fn differing_bits(left: u64, right: u64) -> Set<u64> {
    Set::new(|bit: u64| bit < 64 && (left ^ right) & (1u64 << bit) != 0)
}

proof fn lemma_ones(value: u64, count: u64)
    ensures
        ({
            let bits = Set::new(|bit: u64| bit < count && value & (1u64 << bit) != 0);
            bits.finite() && bits.len() == score::ones(value, count)
        }),
    decreases count,
{
    broadcast use vstd::set::group_set_axioms;

    let bits = Set::new(|bit: u64| bit < count && value & (1u64 << bit) != 0);
    if count == 0 {
        assert(bits =~= Set::empty());
    } else {
        let last = (count - 1) as u64;
        lemma_ones(value, last);
        let fewer = Set::new(|bit: u64| bit < last && value & (1u64 << bit) != 0);
        if value & (1u64 << last) != 0 {
            assert(bits =~= fewer.insert(last));
        } else {
            assert(bits =~= fewer);
        }
    }
}

/// Two hashes are as similar as the bits in which they agree are many: of
/// 64 differing bits all of the scale is lost, of none nothing.
pub proof fn law_hashes_are_similar_by_their_bits(left: u64, right: u64)
    ensures
        ({
            let lost = 10_000 - score::hash_similarity(left, right);
            let bits = differing_bits(left, right).len();
            64 * lost <= bits * 10_000 < 64 * (lost + 1)
        }),
        score::hash_similarity(left, right) == score::hash_similarity(right, left),
        score::hash_similarity(left, left) == 10_000,
{
    lemma_ones(left ^ right, 64);
    lemma_ones(left ^ left, 64);
    assert(differing_bits(left, right) =~= Set::new(
        |bit: u64| bit < 64 && (left ^ right) & (1u64 << bit) != 0,
    ));
    assert(left ^ right == right ^ left) by (bit_vector);
    assert(left ^ left == 0) by (bit_vector);
    let none = Set::new(|bit: u64| bit < 64 && (left ^ left) & (1u64 << bit) != 0);
    assert forall|bit: u64| !#[trigger] none.contains(bit) by {
        assert(0u64 & (1u64 << bit) == 0) by (bit_vector);
    }
    assert(none =~= Set::empty());
}

/// Two sizes are as similar as the smaller is a share of the larger, and two
/// depths lose an eighth of the scale for each level between them.
pub proof fn law_sizes_and_depths_are_similar_by_distance(a: int, b: int)
    requires
        1 <= a <= b,
    ensures
        score::size_similarity(a, b) == score::size_similarity(b, a),
        score::size_similarity(a, b) * b <= a * 10_000 < (score::size_similarity(a, b) + 1) * b,
        score::size_similarity(0, b) == score::size_similarity(1, b),
        score::depth_similarity(a, b) == score::depth_similarity(b, a),
        b - a <= 8 ==> score::depth_similarity(a, b) == 10_000 - 1_250 * (b - a),
        b - a > 8 ==> score::depth_similarity(a, b) == 0,
{
    let q = a * 10_000 / b;
    assert(score::size_similarity(a, b) == q);
    assert(q * b <= a * 10_000 < (q + 1) * b) by (nonlinear_arith)
        requires
            q == a * 10_000 / b,
            b >= 1,
            a >= 1,
    ;
}

/// The uses that two symbols have in common: in each role the smaller count.
pub open spec fn common_uses(left: Seq<int>, right: Seq<int>) -> int {
    let least = |k: int| if left[k] < right[k] {
        left[k]
    } else {
        right[k]
    };
    least(0) + least(1) + least(2) + least(3) + least(4) + least(5)
}

/// The uses that two symbols have: in each role the larger count.
pub open spec fn all_uses(left: Seq<int>, right: Seq<int>) -> int {
    let most = |k: int| if left[k] < right[k] {
        right[k]
    } else {
        left[k]
    };
    most(0) + most(1) + most(2) + most(3) + most(4) + most(5)
}

/// Two symbols are used alike by the share of common uses among all uses, and
/// fully where neither is used.
pub proof fn law_uses_are_similar_by_their_share(left: Seq<int>, right: Seq<int>)
    requires
        left.len() == 6,
        right.len() == 6,
        forall|k: int| 0 <= k < 6 ==> 0 <= #[trigger] left[k] && 0 <= right[k],
    ensures
        all_uses(left, right) == 0 ==> score::roles_similarity(left, right) == 10_000,
        all_uses(left, right) > 0 ==> {
            let share = score::roles_similarity(left, right);
            share * all_uses(left, right) <= common_uses(left, right) * 10_000 < (share + 1)
                * all_uses(left, right)
        },
{
    reveal_with_fuel(score::overlap, 7);
    reveal_with_fuel(score::cover, 7);
    assert(score::cover(left, right, 6) == all_uses(left, right));
    assert(score::overlap(left, right, 6) == common_uses(left, right));
    let all = all_uses(left, right);
    let common = common_uses(left, right);
    assert(left[0] >= 0 && left[1] >= 0 && left[2] >= 0 && left[3] >= 0 && left[4] >= 0 && left[5]
        >= 0);
    if all > 0 {
        let q = common * 10_000 / all;
        assert(q * all <= common * 10_000 < (q + 1) * all) by (nonlinear_arith)
            requires
                q == common * 10_000 / all,
                all > 0,
        ;
    }
}

/// The contexts that have a property.
pub open spec fn those_with(
    contexts: Seq<ContextModel>,
    property: spec_fn(ContextModel) -> bool,
    count: int,
) -> Set<int> {
    Set::new(|k: int| 0 <= k < count && property(contexts[k]))
}

proof fn lemma_rows_where(
    contexts: Seq<ContextModel>,
    property: spec_fn(ContextModel) -> bool,
    count: int,
)
    requires
        0 <= count,
    ensures
        those_with(contexts, property, count).finite(),
        index::rows_where(contexts, property, count).len() == those_with(
            contexts,
            property,
            count,
        ).len(),
        forall|k: int| #[trigger]
            index::rows_where(contexts, property, count).contains(k) <==> 0 <= k < count
                && property(contexts[k]),
    decreases count,
{
    broadcast use vstd::set::group_set_axioms;

    let those = those_with(contexts, property, count);
    let longer = index::rows_where(contexts, property, count);
    if count == 0 {
        assert(those =~= Set::empty());
    } else {
        lemma_rows_where(contexts, property, count - 1);
        let fewer = those_with(contexts, property, count - 1);
        let shorter = index::rows_where(contexts, property, count - 1);
        if property(contexts[count - 1]) {
            assert(those =~= fewer.insert(count - 1));
        } else {
            assert(those =~= fewer);
        }
        assert forall|k: int| #[trigger] longer.contains(k) <==> 0 <= k < count && property(
            contexts[k],
        ) by {
            if shorter.contains(k) {
                let j = choose|j: int| 0 <= j < shorter.len() && shorter[j] == k;
                assert(longer[j] == k);
            }
            if longer.contains(k) {
                let j = choose|j: int| 0 <= j < longer.len() && longer[j] == k;
                if j < shorter.len() {
                    assert(shorter[j] == k);
                }
            }
            if property(contexts[count - 1]) && k == count - 1 {
                assert(longer[longer.len() - 1] == k);
            }
        }
    }
}

/// How many targets have a property.
pub open spec fn targets_with(p: Pairing, property: spec_fn(ContextModel) -> bool) -> nat {
    those_with(p.target, property, p.target.len() as int).len()
}

/// The longest list of targets that is looked through: eight times as long as
/// that of the candidates, and never shorter than 64.
pub open spec fn is_few(p: Pairing, count: nat) -> bool {
    count <= 64 || (count <= p.config.max_candidates * 8 && count <= usize::MAX)
}

/// Whether the two come from the same place of an original source that few
/// other targets come from.
pub open spec fn have_one_origin(p: Pairing, s: int, t: int) -> bool {
    &&& p.source[s].origin is Some
    &&& p.target[t].origin == p.source[s].origin
    &&& is_few(p, targets_with(p, |c: ContextModel| c.origin == p.source[s].origin))
}

/// Whether the two share a feature that is rare among the targets.
pub open spec fn share_a_rare_feature(p: Pairing, s: int, t: int) -> bool {
    exists|k: int|
        0 <= k < p.source[s].features.len() && p.target[t].features.contains(
            #[trigger] p.source[s].features[k],
        ) && targets_with(
            p,
            |c: ContextModel| c.features.contains(p.source[s].features[k]),
        ) <= p.config.rare_feature_max_frequency
}

/// Whether the two are of one class and agree in sixteen bits of one of their
/// hashes in which few other targets agree.
pub open spec fn share_a_band(p: Pairing, s: int, t: int) -> bool {
    exists|band: u64|
        band < 8 && p.target[t].class == p.source[s].class && #[trigger] index::band_value(
            p.target[t],
            band,
        ) == index::band_value(p.source[s], band) && is_few(
            p,
            targets_with(
                p,
                |c: ContextModel|
                    c.class == p.source[s].class && index::band_value(c, band)
                        == index::band_value(p.source[s], band),
            ),
        )
}

/// Whether the structure of the two suggests a match: a source that is the
/// only one of its shape, on both sides, goes with its like alone.
pub open spec fn look_alike(p: Pairing, s: int, t: int) -> bool {
    if exists|u: int| 0 <= u < p.target.len() && #[trigger] is_unique_pair(p, s, u) {
        p.target[t].class == p.source[s].class && p.target[t].digest == p.source[s].digest
    } else {
        share_a_rare_feature(p, s, t) || share_a_band(p, s, t)
    }
}

/// Whether the two may match at all: they are of one class and of one kind of
/// scope, and neither is larger than the other by more than the ratio.
pub open spec fn may_match(p: Pairing, s: int, t: int) -> bool {
    let a = p.source[s];
    let b = p.target[t];
    let ratio = p.config.max_size_ratio;
    let least = |size: int| if size < 1 {
        1
    } else {
        size
    };
    &&& a.class == b.class
    &&& a.scope_kind == b.scope_kind
    &&& a.size <= least(b.size) * ratio || a.size <= b.size
    &&& b.size <= least(a.size) * ratio || b.size <= a.size
    &&& a.size == b.size ==> a.size <= least(a.size) * ratio
}

proof fn lemma_cap(p: Pairing, count: nat)
    ensures
        (count <= candidates::posting_cap(p.config)) == is_few(p, count),
{
}

proof fn lemma_targets(
    p: Pairing,
    one: spec_fn(ContextModel) -> bool,
    other: spec_fn(ContextModel) -> bool,
)
    requires
        forall|c: ContextModel| #[trigger] one(c) == other(c),
    ensures
        index::rows_with(p.target, one).len() == targets_with(p, other),
{
    let n = p.target.len() as int;
    lemma_rows_where(p.target, one, n);
    assert(those_with(p.target, one, n) =~= those_with(p.target, other, n));
}

proof fn lemma_origin(p: Pairing, s: int, t: int)
    ensures
        candidates::shares_origin(p, s, t) == have_one_origin(p, s, t),
{
    if let Some(origin) = p.source[s].origin {
        let one = index::has_origin(origin);
        let other = |c: ContextModel| c.origin == p.source[s].origin;
        lemma_targets(p, one, other);
        lemma_cap(p, index::rows_with(p.target, one).len());
    }
}

proof fn lemma_rare(p: Pairing, s: int, t: int, count: int)
    requires
        0 <= count <= p.source[s].features.len(),
    ensures
        candidates::rare_votes(p, s, t, count) > 0 <==> exists|k: int|
            0 <= k < count && p.target[t].features.contains(#[trigger] p.source[s].features[k])
                && targets_with(
                p,
                |c: ContextModel| c.features.contains(p.source[s].features[k]),
            ) <= p.config.rare_feature_max_frequency,
    decreases count,
{
    if count > 0 {
        lemma_rare(p, s, t, count - 1);
        let feature = p.source[s].features[count - 1];
        let other = |c: ContextModel| c.features.contains(feature);
        lemma_targets(p, index::has_feature(feature), other);
        let own = |c: ContextModel| c.features.contains(p.source[s].features[count - 1]);
        assert(own =~= other);
    }
}

proof fn lemma_band(p: Pairing, s: int, t: int)
    ensures
        candidates::shares_some_band(p, s, t, 8) == share_a_band(p, s, t),
{
    assert forall|band: u64| #[trigger] candidates::shares_band(p, s, t, band) == (
    p.target[t].class == p.source[s].class && index::band_value(p.target[t], band)
        == index::band_value(p.source[s], band) && is_few(
        p,
        targets_with(
            p,
            |c: ContextModel|
                c.class == p.source[s].class && index::band_value(c, band) == index::band_value(
                    p.source[s],
                    band,
                ),
        ),
    )) by {
        let one = index::has_band(
            p.source[s].class,
            band,
            index::band_value(p.source[s], band),
        );
        let other = |c: ContextModel|
            c.class == p.source[s].class && index::band_value(c, band) == index::band_value(
                p.source[s],
                band,
            );
        lemma_targets(p, one, other);
        lemma_cap(p, index::rows_with(p.target, one).len());
    }
    if share_a_band(p, s, t) {
        let band = choose|band: u64|
            band < 8 && p.target[t].class == p.source[s].class && #[trigger] index::band_value(
                p.target[t],
                band,
            ) == index::band_value(p.source[s], band) && is_few(
                p,
                targets_with(
                    p,
                    |c: ContextModel|
                        c.class == p.source[s].class && index::band_value(c, band)
                            == index::band_value(p.source[s], band),
                ),
            );
        assert(candidates::shares_band(p, s, t, band));
    }
    if candidates::shares_some_band(p, s, t, 8) {
        let band = choose|band: u64| band < 8 && #[trigger] candidates::shares_band(p, s, t, band);
        assert(index::band_value(p.target[t], band) == index::band_value(p.source[s], band));
    }
}

proof fn lemma_structural(p: Pairing, s: int, t: int)
    requires
        0 <= s < p.source.len(),
    ensures
        candidates::structural_votes(p, s, t) is Some == look_alike(p, s, t),
{
    match_laws::lemma_anchor(p, s);
    lemma_rare(p, s, t, p.source[s].features.len() as int);
    lemma_band(p, s, t);
}

/// A target is a candidate exactly where the two may match and something
/// suggests it: a common origin, or else their structure, or else, where no
/// target looks like the source, a similar size.
pub proof fn law_candidates_have_a_reason(p: Pairing, s: int, t: int)
    requires
        0 <= s < p.source.len(),
        0 <= t < p.target.len(),
        p.source[s].size >= 0,
        p.target[t].size >= 0,
    ensures
        candidates::is_candidate(p, s, t) == (may_match(p, s, t) && {
            let some_look_alike = exists|u: int|
                0 <= u < p.target.len() && #[trigger] look_alike(p, s, u);
            ||| have_one_origin(p, s, t)
            ||| some_look_alike && look_alike(p, s, t)
            ||| !some_look_alike && candidates::is_nearby(p, s, t)
        }),
{
    lemma_origin(p, s, t);
    lemma_structural(p, s, t);
    assert(candidates::has_structural(p, s) == exists|u: int|
        0 <= u < p.target.len() && #[trigger] look_alike(p, s, u)) by {
        assert forall|u: int| #[trigger] look_alike(p, s, u) == (candidates::structural_votes(
            p,
            s,
            u,
        ) is Some) by {
            lemma_structural(p, s, u);
        }
        if candidates::has_structural(p, s) {
            let u = choose|u: int|
                0 <= u < p.target.len() && (#[trigger] candidates::structural_votes(p, s, u)) is Some;
            assert(look_alike(p, s, u));
        }
        if exists|u: int| 0 <= u < p.target.len() && #[trigger] look_alike(p, s, u) {
            let u = choose|u: int| 0 <= u < p.target.len() && #[trigger] look_alike(p, s, u);
            assert(candidates::structural_votes(p, s, u) is Some);
        }
    }
    lemma_ratio(p, s, t);
}

proof fn lemma_ratio(p: Pairing, s: int, t: int)
    requires
        p.source[s].size >= 0,
        p.target[t].size >= 0,
    ensures
        candidates::is_compatible(p, s, t) == may_match(p, s, t),
{
    let a = p.source[s].size;
    let b = p.target[t].size;
    let ratio = p.config.max_size_ratio as int;
    assert(ratio >= 1 ==> a <= a * ratio && b <= b * ratio) by (nonlinear_arith)
        requires
            a >= 0,
            b >= 0,
    ;
    assert(ratio == 0 ==> a * ratio == 0 && b * ratio == 0) by (nonlinear_arith);
}

/// Symbols are matched within classes: variables of any keyword are one class,
/// and parameters and what catch clauses bind are one. Every other kind is a
/// class of its own.
pub proof fn law_classes_join_what_may_change_its_kind(
    one: AnalysisSymbolKind,
    other: AnalysisSymbolKind,
)
    ensures
        ({
            let is_variable = |k: AnalysisSymbolKind|
                k == AnalysisSymbolKind::Var || k == AnalysisSymbolKind::Let || k
                    == AnalysisSymbolKind::Const;
            let is_parameter = |k: AnalysisSymbolKind|
                k == AnalysisSymbolKind::Parameter || k == AnalysisSymbolKind::Catch;
            context::class_of(one) == context::class_of(other) <==> one == other || (is_variable(
                one,
            ) && is_variable(other)) || (is_parameter(one) && is_parameter(other))
        }),
{
}

/// The references of a symbol that have a role.
pub open spec fn uses_in_role(
    a: Analysis,
    first: int,
    count: int,
    role: AnalysisReferenceRole,
) -> Set<int> {
    Set::new(|r: int| first <= r < first + count && a.references@[r].role == role)
}

proof fn lemma_role_count(
    a: Analysis,
    first: int,
    count: int,
    role: AnalysisReferenceRole,
)
    requires
        0 <= count,
    ensures
        uses_in_role(a, first, count, role).finite(),
        uses_in_role(a, first, count, role).len() == context::role_count(
            a,
            first,
            count,
            role.code_spec(),
        ),
    decreases count,
{
    broadcast use vstd::set::group_set_axioms;

    let uses = uses_in_role(a, first, count, role);
    if count == 0 {
        assert(uses =~= Set::empty());
    } else {
        lemma_role_count(a, first, count - 1, role);
        let fewer = uses_in_role(a, first, count - 1, role);
        let last = first + count - 1;
        if a.references@[last].role == role {
            assert(uses =~= fewer.insert(last));
        } else {
            assert(uses =~= fewer);
        }
    }
}

/// A context counts how often its symbol is read, written, read and written,
/// called, constructed and exported.
pub proof fn law_contexts_count_uses(a: Analysis, row: int, origin: Option<Seq<u8>>)
    requires
        0 <= row < a.symbols@.len(),
    ensures
        ({
            let symbol = a.symbols@[row];
            let roles = context::context_of(a, row, origin).roles;
            let uses = |role: AnalysisReferenceRole|
                uses_in_role(
                    a,
                    symbol.reference_first as int,
                    symbol.reference_count as int,
                    role,
                ).len();
            &&& roles.len() == 6
            &&& roles[0] == uses(AnalysisReferenceRole::Read)
            &&& roles[1] == uses(AnalysisReferenceRole::Write)
            &&& roles[2] == uses(AnalysisReferenceRole::ReadWrite)
            &&& roles[3] == uses(AnalysisReferenceRole::Call)
            &&& roles[4] == uses(AnalysisReferenceRole::Construct)
            &&& roles[5] == uses(AnalysisReferenceRole::Export)
        }),
{
    let symbol = a.symbols@[row];
    let first = symbol.reference_first as int;
    let count = symbol.reference_count as int;
    lemma_role_count(a, first, count, AnalysisReferenceRole::Read);
    lemma_role_count(a, first, count, AnalysisReferenceRole::Write);
    lemma_role_count(a, first, count, AnalysisReferenceRole::ReadWrite);
    lemma_role_count(a, first, count, AnalysisReferenceRole::Call);
    lemma_role_count(a, first, count, AnalysisReferenceRole::Construct);
    lemma_role_count(a, first, count, AnalysisReferenceRole::Export);
}

/// Whether a node lies above another one.
pub open spec fn is_above(a: Analysis, top: int, n: int) -> bool
    decreases n,
{
    a.nodes@[n].parent matches Some(parent) && (parent == top || (parent < n && is_above(
        a,
        top,
        parent as int,
    )))
}

/// Whether a node holds a whole declaration.
pub open spec fn holds_a_declaration(a: Analysis, n: int) -> bool {
    let kind = shape::kind_of(a, n);
    ||| kind == "variable_declarator"@
    ||| kind == "function_declaration"@
    ||| kind == "function_expression"@
    ||| kind == "arrow_function"@
    ||| kind == "method_definition"@
    ||| kind == "class_declaration"@
    ||| kind == "class_expression"@
    ||| kind == "import_specifier"@
    ||| kind == "namespace_import"@
    ||| kind == "import_clause"@
    ||| kind == "catch_clause"@
}

/// A symbol is seen as the nearest node above its own that holds a whole
/// declaration, or as its own node where there is none.
pub proof fn law_symbols_are_seen_in_their_declarations(a: Analysis, declaration: int, n: int)
    requires
        forall|i: int|
            0 <= i < a.nodes@.len() ==> ((#[trigger] a.nodes@[i]).parent matches Some(p) ==> p < i),
        0 <= n < a.nodes@.len(),
    ensures
        ({
            let found = context::container_above(a, declaration, n);
            ||| is_above(a, found, n) && holds_a_declaration(a, found) && forall|b: int|
                found < b && #[trigger] is_above(a, b, n) ==> !holds_a_declaration(a, b)
            ||| found == declaration && forall|b: int| #[trigger]
                is_above(a, b, n) ==> !holds_a_declaration(a, b)
        }),
    decreases n,
{
    let found = context::container_above(a, declaration, n);
    if let Some(parent) = a.nodes@[n].parent {
        assert(parent < n);
        let p = parent as int;
        if holds_a_declaration(a, p) {
            assert forall|b: int| p < b && #[trigger] is_above(a, b, n) implies !holds_a_declaration(
                a,
                b,
            ) by {
                lemma_above_is_earlier(a, b, n);
            }
        } else {
            law_symbols_are_seen_in_their_declarations(a, declaration, p);
            assert forall|b: int| #[trigger] is_above(a, b, n) && b != p implies is_above(
                a,
                b,
                p,
            ) by {}
            assert forall|b: int| #[trigger] is_above(a, b, p) implies is_above(a, b, n) by {}
        }
    }
}

proof fn lemma_above_is_earlier(a: Analysis, b: int, n: int)
    requires
        forall|i: int|
            0 <= i < a.nodes@.len() ==> ((#[trigger] a.nodes@[i]).parent matches Some(p) ==> p < i),
        0 <= n < a.nodes@.len(),
        is_above(a, b, n),
    ensures
        a.nodes@[n].parent matches Some(parent) && b <= parent,
    decreases n,
{
    let parent = a.nodes@[n].parent->0;
    if parent != b {
        lemma_above_is_earlier(a, b, parent as int);
    }
}

} // verus!
