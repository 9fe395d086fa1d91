//! What two declarations have in common.

use vstd::prelude::*;
use vstd::string::*;

use super::declarations::{Declaration, DeclarationKind};
use super::fingerprint::{
    ApiCallFingerprint, ConstantFingerprint, ConstantValue, FunctionFingerprint, RarityScorer,
    StringContext, StringFingerprint,
};
use crate::sets::intersection_count;
use crate::text::{same_optional, same_text};

use super::declarations::DeclarationModel;
use super::fingerprint::{ApiCallModel, ConstantModel, FingerprintModel, RarityModel, StringModel};
use super::{candidates, declarations, fingerprint};
use crate::sets;

verus! {

/// How much the kinds of two declarations take from their similarity.
#[derive(Debug, Clone, Copy, PartialEq, Eq, Structural)]
pub enum KindPenalty {
    /// The kinds are equal.
    Nothing,
    /// A function against a variable.
    Swapped,
    /// Any other two kinds.
    Different,
}

/// What the similarity of two declarations is computed from.
#[derive(Debug, Clone, Copy, PartialEq, Eq, Structural)]
pub enum Similarity {
    /// Of imports and exports: whether the signatures are equal.
    Signatures { equal: bool },
    /// Neither declaration has any structure.
    Bare { equal: bool, penalty: KindPenalty },
    /// One declaration is much larger than the other.
    Uneven,
    /// How many structural hashes are shared, of how many.
    Shared { common: u128, all: u128, penalty: KindPenalty },
}

/// How much two kinds take from a similarity.
pub open spec fn penalty_of(kind1: DeclarationKind, kind2: DeclarationKind) -> KindPenalty {
    if kind1 == kind2 {
        KindPenalty::Nothing
    } else if candidates::are_compatible(kind1, kind2) {
        KindPenalty::Swapped
    } else {
        KindPenalty::Different
    }
}

/// Whether a kind has no structure of its own.
pub open spec fn is_module_kind(kind: DeclarationKind) -> bool {
    kind is Import || kind is Export
}

/// What the similarity of two declarations is computed from.
pub open spec fn similarity_of(a: DeclarationModel, b: DeclarationModel) -> Similarity {
    let size1 = a.structural_hashes.len();
    let size2 = b.structural_hashes.len();
    let smaller = if size1 <= size2 {
        size1
    } else {
        size2
    };
    let larger = if size1 <= size2 {
        size2
    } else {
        size1
    };
    let common = sets::shared(a.structural_hashes, b.structural_hashes, size1 as int);
    if is_module_kind(a.kind) || is_module_kind(b.kind) {
        Similarity::Signatures { equal: a.signature == b.signature }
    } else if larger == 0 {
        Similarity::Bare { equal: a.signature == b.signature, penalty: penalty_of(a.kind, b.kind) }
    } else if smaller * 10 < larger * 3 {
        Similarity::Uneven
    } else {
        Similarity::Shared {
            common: common as u128,
            all: (size1 + size2 - common) as u128,
            penalty: penalty_of(a.kind, b.kind),
        }
    }
}

fn kind_penalty(kind1: DeclarationKind, kind2: DeclarationKind) -> (penalty: KindPenalty)
    ensures
        penalty == penalty_of(kind1, kind2),
{
    if kind1 == kind2 {
        KindPenalty::Nothing
    } else if candidates::kinds_are_compatible(kind1, kind2) {
        KindPenalty::Swapped
    } else {
        KindPenalty::Different
    }
}

fn module_kind(kind: DeclarationKind) -> (r: bool)
    ensures
        r == is_module_kind(kind),
{
    kind == DeclarationKind::Import || kind == DeclarationKind::Export
}

proof fn lemma_shared_bound(left: Seq<u64>, right: Seq<u64>, count: int)
    ensures
        sets::shared(left, right, count) <= if count > 0 {
            count
        } else {
            0
        },
    decreases count,
{
    if count > 0 {
        lemma_shared_bound(left, right, count - 1);
    }
}

/// What the similarity of two declarations is computed from: of imports and
/// exports the signatures, of others the structural hashes.
pub fn declaration_similarity(a: &Declaration, b: &Declaration) -> (r: Similarity)
    requires
        sets::is_ascending(a.structural_hashes@),
        sets::is_ascending(b.structural_hashes@),
    ensures
        r == similarity_of(a@, b@),
{
    if module_kind(a.kind) || module_kind(b.kind) {
        return Similarity::Signatures {
            equal: same_text(a.signature.as_str(), b.signature.as_str()),
        };
    }
    let size1: usize = a.structural_hashes.len();
    let size2: usize = b.structural_hashes.len();
    let penalty = kind_penalty(a.kind, b.kind);
    if size1 == 0 && size2 == 0 {
        return Similarity::Bare {
            equal: same_text(a.signature.as_str(), b.signature.as_str()),
            penalty,
        };
    }
    let smaller: u128 = if size1 <= size2 {
        size1 as u128
    } else {
        size2 as u128
    };
    let larger: u128 = if size1 <= size2 {
        size2 as u128
    } else {
        size1 as u128
    };
    if smaller * 10 < larger * 3 {
        return Similarity::Uneven;
    }
    let common = intersection_count(&a.structural_hashes, &b.structural_hashes);
    proof {
        lemma_shared_bound(a.structural_hashes@, b.structural_hashes@, size1 as int);
    }
    Similarity::Shared {
        common: common as u128,
        all: size1 as u128 + size2 as u128 - common as u128,
        penalty,
    }
}

/// A similarity as a share: how many of how many, taken `factor` tenths of.
#[derive(Debug, Clone, Copy, PartialEq, Eq, Structural)]
pub struct Share {
    pub common: u128,
    pub all: u128,
    pub factor: u32,
}

impl KindPenalty {
    /// What is left of a similarity, in tenths.
    pub open spec fn factor_spec(self) -> u32 {
        match self {
            KindPenalty::Nothing => 10,
            KindPenalty::Swapped => 9,
            KindPenalty::Different => 7,
        }
    }

    /// What is left of a similarity, in tenths.
    pub fn factor(self) -> (tenths: u32)
        ensures
            tenths == self.factor_spec(),
    {
        match self {
            KindPenalty::Nothing => 10,
            KindPenalty::Swapped => 9,
            KindPenalty::Different => 7,
        }
    }
}

impl Similarity {
    /// The similarity as a share.
    pub open spec fn share_spec(self) -> Share {
        match self {
            Similarity::Signatures { equal } => Share {
                common: if equal {
                    10
                } else {
                    3
                },
                all: 10,
                factor: 10,
            },
            Similarity::Bare { equal, penalty } => Share {
                common: if equal {
                    10
                } else {
                    5
                },
                all: 10,
                factor: penalty.factor_spec(),
            },
            Similarity::Uneven => Share { common: 2, all: 10, factor: 10 },
            Similarity::Shared { common, all, penalty } => Share {
                common,
                all,
                factor: penalty.factor_spec(),
            },
        }
    }

    /// The similarity as a share.
    pub fn share(self) -> (share: Share)
        ensures
            share == self.share_spec(),
    {
        match self {
            Similarity::Signatures { equal } => {
                let common: u128 = if equal {
                    10
                } else {
                    3
                };
                Share { common, all: 10, factor: 10 }
            },
            Similarity::Bare { equal, penalty } => {
                let common: u128 = if equal {
                    10
                } else {
                    5
                };
                Share { common, all: 10, factor: penalty.factor() }
            },
            Similarity::Uneven => Share { common: 2, all: 10, factor: 10 },
            Similarity::Shared { common, all, penalty } => {
                Share { common, all, factor: penalty.factor() }
            },
        }
    }
}

/// What is shared is what the two sets of numbers have in common.
pub(crate) proof fn lemma_shared_is_intersection(left: Seq<u64>, right: Seq<u64>, count: int)
    requires
        sets::is_ascending(left),
        0 <= count <= left.len(),
    ensures
        sets::shared(left, right, count) == left.take(count).to_set().intersect(
            right.to_set(),
        ).len(),
    decreases count,
{
    broadcast use vstd::seq_lib::group_seq_properties;
    broadcast use vstd::set::group_set_axioms;

    if count == 0 {
        assert(left.take(0).to_set().intersect(right.to_set()) =~= Set::empty());
    } else {
        lemma_shared_is_intersection(left, right, count - 1);
        let before = left.take(count - 1).to_set();
        let number = left[count - 1];
        assert(left.take(count) =~= left.take(count - 1).push(number));
        assert(left.take(count).to_set() =~= before.insert(number));
        assert(!before.contains(number)) by {
            if before.contains(number) {
                let k = choose|k: int|
                    0 <= k < count - 1 && #[trigger] left.take(count - 1)[k] == number;
                assert(left[k] == number);
            }
        }
        left.take(count - 1).lemma_cardinality_of_set();
        vstd::set_lib::lemma_len_intersect(before, right.to_set());
        if right.contains(number) {
            assert(left.take(count).to_set().intersect(right.to_set()) =~= before.intersect(
                right.to_set(),
            ).insert(number));
        } else {
            assert(left.take(count).to_set().intersect(right.to_set()) =~= before.intersect(
                right.to_set(),
            ));
        }
    }
}

/// Two lists share as much either way, and no more than either holds.
proof fn lemma_shared_is_symmetric(left: Seq<u64>, right: Seq<u64>)
    requires
        sets::is_ascending(left),
        sets::is_ascending(right),
    ensures
        sets::shared(left, right, left.len() as int) == sets::shared(
            right,
            left,
            right.len() as int,
        ),
        sets::shared(left, right, left.len() as int) <= left.len(),
        sets::shared(left, right, left.len() as int) <= right.len(),
{
    lemma_shared_is_intersection(left, right, left.len() as int);
    lemma_shared_is_intersection(right, left, right.len() as int);
    assert(left.take(left.len() as int) =~= left);
    assert(right.take(right.len() as int) =~= right);
    assert(left.to_set().intersect(right.to_set()) =~= right.to_set().intersect(left.to_set()));
    lemma_shared_bound(left, right, left.len() as int);
    lemma_shared_bound(right, left, right.len() as int);
}

/// A list shares all it holds with itself.
proof fn lemma_shared_with_itself(list: Seq<u64>, count: int)
    requires
        0 <= count <= list.len(),
    ensures
        sets::shared(list, list, count) == count,
    decreases count,
{
    if count > 0 {
        lemma_shared_with_itself(list, count - 1);
    }
}

/// No more is shared than either list holds.
pub(crate) proof fn lemma_shared_fits(left: Seq<u64>, right: Seq<u64>)
    requires
        sets::is_ascending(left),
        sets::is_ascending(right),
    ensures
        sets::shared(left, right, left.len() as int) <= left.len(),
        sets::shared(left, right, left.len() as int) <= right.len(),
{
    lemma_shared_is_symmetric(left, right);
}

/// Two declarations are as similar as they are the other way round.
pub proof fn law_similarity_is_symmetric(a: DeclarationModel, b: DeclarationModel)
    requires
        sets::is_ascending(a.structural_hashes),
        sets::is_ascending(b.structural_hashes),
    ensures
        similarity_of(a, b) == similarity_of(b, a),
{
    lemma_shared_is_symmetric(a.structural_hashes, b.structural_hashes);
}

/// A similarity is a share between none and all.
pub proof fn law_similarity_is_a_share(a: DeclarationModel, b: DeclarationModel)
    requires
        sets::is_ascending(a.structural_hashes),
        sets::is_ascending(b.structural_hashes),
        a.structural_hashes.len() <= usize::MAX,
        b.structural_hashes.len() <= usize::MAX,
    ensures
        ({
            let share = similarity_of(a, b).share_spec();
            0 <= share.common <= share.all && 0 < share.all && 0 < share.factor <= 10
        }),
{
    lemma_shared_is_symmetric(a.structural_hashes, b.structural_hashes);
}

/// A declaration is fully similar to itself.
pub proof fn law_a_declaration_is_similar_to_itself(a: DeclarationModel)
    requires
        a.structural_hashes.len() <= usize::MAX,
    ensures
        ({
            let share = similarity_of(a, a).share_spec();
            share.common == share.all && 0 < share.all && share.factor == 10
        }),
{
    lemma_shared_with_itself(a.structural_hashes, a.structural_hashes.len() as int);
}

/// Something that two functions share, with how much it tells in tenths.
#[derive(Debug, Clone, Copy, PartialEq, Eq, Structural)]
pub enum Evidence {
    Text { context: StringContext, rarity: u32 },
    Constant { rarity: u32 },
    Call { rarity: u32, same_argument: bool },
}

/// What evidence counts, in tenths: a rarity, what it is multiplied by, and
/// what is added.
#[derive(Debug, Clone, Copy, PartialEq, Eq, Structural)]
pub struct Weighed {
    pub rarity: u32,
    pub weight: u32,
    pub bonus: u32,
}

/// How much strings of a context count, in tenths.
pub open spec fn context_weight(context: StringContext) -> u32 {
    match context {
        StringContext::ErrorMessage => 12,
        StringContext::FilePath => 11,
        StringContext::CommandName => 10,
        StringContext::ConfigKey => 9,
        StringContext::ApiEndpoint => 10,
        StringContext::Regular => 7,
    }
}

impl Evidence {
    /// What the evidence counts.
    pub open spec fn weighed_spec(self) -> Weighed {
        match self {
            Evidence::Text { context, rarity } => Weighed {
                rarity,
                weight: context_weight(context),
                bonus: 0,
            },
            Evidence::Constant { rarity } => Weighed { rarity, weight: 8, bonus: 0 },
            Evidence::Call { rarity, same_argument } => Weighed {
                rarity,
                weight: 6,
                bonus: if same_argument {
                    3
                } else {
                    0
                },
            },
        }
    }

    /// What the evidence counts: strings by their context, and calls more
    /// where their first arguments agree.
    pub fn weighed(self) -> (weighed: Weighed)
        ensures
            weighed == self.weighed_spec(),
    {
        match self {
            Evidence::Text { context, rarity } => {
                let weight: u32 = match context {
                    StringContext::ErrorMessage => 12,
                    StringContext::FilePath => 11,
                    StringContext::CommandName => 10,
                    StringContext::ConfigKey => 9,
                    StringContext::ApiEndpoint => 10,
                    StringContext::Regular => 7,
                };
                Weighed { rarity, weight, bonus: 0 }
            },
            Evidence::Constant { rarity } => Weighed { rarity, weight: 8, bonus: 0 },
            Evidence::Call { rarity, same_argument } => {
                let bonus: u32 = if same_argument {
                    3
                } else {
                    0
                };
                Weighed { rarity, weight: 6, bonus }
            },
        }
    }
}

/// Whether one of the first `count` strings has a value.
pub open spec fn has_string(list: Seq<StringModel>, value: Seq<char>, count: int) -> bool {
    exists|k: int| 0 <= k < count && (#[trigger] list[k]).value == value
}

/// Whether one of the first `count` constants has a value.
pub open spec fn has_constant(list: Seq<ConstantModel>, value: ConstantModel, count: int) -> bool {
    exists|k: int| 0 <= k < count && #[trigger] list[k] == value
}

/// The shared strings among the first `count`, each once.
pub open spec fn text_evidence(
    a: FingerprintModel,
    b: FingerprintModel,
    scorer: RarityModel,
    count: int,
) -> Seq<Evidence>
    decreases count,
{
    if count <= 0 {
        Seq::empty()
    } else {
        let ahead = text_evidence(a, b, scorer, count - 1);
        let s = a.strings[count - 1];
        if has_string(b.strings, s.value, b.strings.len() as int) && !has_string(
            a.strings,
            s.value,
            count - 1,
        ) {
            ahead.push(
                Evidence::Text {
                    context: s.context,
                    rarity: fingerprint::string_rarity(
                        fingerprint::count_of(scorer.strings, s.value),
                    ),
                },
            )
        } else {
            ahead
        }
    }
}

/// The shared constants among the first `count`, each once.
pub open spec fn constant_evidence(
    a: FingerprintModel,
    b: FingerprintModel,
    scorer: RarityModel,
    count: int,
) -> Seq<Evidence>
    decreases count,
{
    if count <= 0 {
        Seq::empty()
    } else {
        let ahead = constant_evidence(a, b, scorer, count - 1);
        let c = a.constants[count - 1];
        if has_constant(b.constants, c, b.constants.len() as int) && !has_constant(
            a.constants,
            c,
            count - 1,
        ) {
            ahead.push(
                Evidence::Constant {
                    rarity: fingerprint::constant_rarity(
                        fingerprint::count_of(scorer.constants, fingerprint::constant_key(c)),
                    ),
                },
            )
        } else {
            ahead
        }
    }
}

/// The calls among the first `count` of one function that a call agrees with.
pub open spec fn matching_calls(
    call: ApiCallModel,
    list: Seq<ApiCallModel>,
    scorer: RarityModel,
    count: int,
) -> Seq<Evidence>
    decreases count,
{
    if count <= 0 {
        Seq::empty()
    } else {
        let ahead = matching_calls(call, list, scorer, count - 1);
        let other = list[count - 1];
        if call.object == other.object && call.method == other.method {
            ahead.push(
                Evidence::Call {
                    rarity: fingerprint::api_rarity(
                        fingerprint::count_of(scorer.apis, fingerprint::api_key(call)),
                    ),
                    same_argument: call.first_arg is Some && call.first_arg == other.first_arg,
                },
            )
        } else {
            ahead
        }
    }
}

/// The pairs of equal calls with one of the first `count`.
pub open spec fn call_evidence(
    a: FingerprintModel,
    b: FingerprintModel,
    scorer: RarityModel,
    count: int,
) -> Seq<Evidence>
    decreases count,
{
    if count <= 0 {
        Seq::empty()
    } else {
        call_evidence(a, b, scorer, count - 1) + matching_calls(
            a.api_calls[count - 1],
            b.api_calls,
            scorer,
            b.api_calls.len() as int,
        )
    }
}

/// What two functions share.
pub open spec fn evidence_of(
    a: FingerprintModel,
    b: FingerprintModel,
    scorer: RarityModel,
) -> Seq<Evidence> {
    text_evidence(a, b, scorer, a.strings.len() as int) + constant_evidence(
        a,
        b,
        scorer,
        a.constants.len() as int,
    ) + call_evidence(a, b, scorer, a.api_calls.len() as int)
}

fn find_string(list: &Vec<StringFingerprint>, value: &str, count: usize) -> (r: bool)
    requires
        count <= list@.len(),
    ensures
        r == has_string(fingerprint::string_views(list@), value@, count as int),
{
    let ghost models = fingerprint::string_views(list@);
    let mut k: usize = 0;
    while k < count
        invariant
            models == fingerprint::string_views(list@),
            k <= count <= list@.len(),
            forall|j: int| 0 <= j < k ==> (#[trigger] models[j]).value != value@,
        decreases count - k,
    {
        assert(models[k as int] == list@[k as int]@);
        if same_text(list[k].value.as_str(), value) {
            return true;
        }
        k += 1;
    }
    false
}

fn same_constant(a: &ConstantValue, b: &ConstantValue) -> (r: bool)
    ensures
        r == (a@ == b@),
{
    match (a, b) {
        (ConstantValue::Number(x), ConstantValue::Number(y)) => *x == *y,
        (ConstantValue::Float(x), ConstantValue::Float(y)) => same_text(x.as_str(), y.as_str()),
        (ConstantValue::Regex(x), ConstantValue::Regex(y)) => same_text(x.as_str(), y.as_str()),
        (ConstantValue::Duration(x), ConstantValue::Duration(y)) => *x == *y,
        _ => false,
    }
}

fn find_constant(list: &Vec<ConstantFingerprint>, value: &ConstantValue, count: usize) -> (r: bool)
    requires
        count <= list@.len(),
    ensures
        r == has_constant(fingerprint::constant_views(list@), value@, count as int),
{
    let ghost models = fingerprint::constant_views(list@);
    let mut k: usize = 0;
    while k < count
        invariant
            models == fingerprint::constant_views(list@),
            k <= count <= list@.len(),
            forall|j: int| 0 <= j < k ==> #[trigger] models[j] != value@,
        decreases count - k,
    {
        assert(models[k as int] == list@[k as int].value@);
        if same_constant(&list[k].value, value) {
            return true;
        }
        k += 1;
    }
    false
}

fn push_matching_calls(
    call: &ApiCallFingerprint,
    list: &Vec<ApiCallFingerprint>,
    scorer: &RarityScorer,
    output: &mut Vec<Evidence>,
)
    ensures
        final(output)@ == old(output)@ + matching_calls(
            call@,
            fingerprint::api_views(list@),
            scorer@,
            list@.len() as int,
        ),
{
    let ghost models = fingerprint::api_views(list@);
    let ghost before = output@;
    let rarity = scorer.score_api_call(call);
    let mut k: usize = 0;
    assert(output@ =~= before + matching_calls(call@, models, scorer@, 0));
    while k < list.len()
        invariant
            models == fingerprint::api_views(list@),
            rarity == fingerprint::api_rarity(
                fingerprint::count_of(scorer@.apis, fingerprint::api_key(call@)),
            ),
            k <= list@.len(),
            output@ == before + matching_calls(call@, models, scorer@, k as int),
        decreases list@.len() - k,
    {
        let other = &list[k];
        assert(models[k as int] == other@);
        if same_optional(&call.object, &other.object) && same_text(
            call.method.as_str(),
            other.method.as_str(),
        ) {
            let same_argument = call.first_arg.is_some() && same_optional(
                &call.first_arg,
                &other.first_arg,
            );
            output.push(Evidence::Call { rarity, same_argument });
        }
        assert(output@ =~= before + matching_calls(call@, models, scorer@, k + 1));
        k += 1;
    }
}

/// What two functions share: strings and constants once each, and every pair
/// of equal calls.
pub fn shared_evidence(
    a: &FunctionFingerprint,
    b: &FunctionFingerprint,
    scorer: &RarityScorer,
) -> (evidence: Vec<Evidence>)
    ensures
        evidence@ == evidence_of(a@, b@, scorer@),
{
    let ghost (m, n, s) = (a@, b@, scorer@);
    let mut evidence: Vec<Evidence> = Vec::new();
    let mut i: usize = 0;
    while i < a.strings.len()
        invariant
            (m, n, s) == (a@, b@, scorer@),
            i <= a.strings@.len(),
            evidence@ == text_evidence(m, n, s, i as int),
        decreases a.strings@.len() - i,
    {
        let found = &a.strings[i];
        assert(m.strings[i as int] == found@);
        let value = found.value.as_str();
        if find_string(&b.strings, value, b.strings.len()) && !find_string(&a.strings, value, i) {
            let rarity = scorer.score_string(value);
            evidence.push(Evidence::Text { context: found.context, rarity });
        }
        i += 1;
    }
    let ghost first = evidence@;
    let mut j: usize = 0;
    assert(evidence@ =~= first + constant_evidence(m, n, s, 0));
    while j < a.constants.len()
        invariant
            (m, n, s) == (a@, b@, scorer@),
            j <= a.constants@.len(),
            evidence@ == first + constant_evidence(m, n, s, j as int),
        decreases a.constants@.len() - j,
    {
        let found = &a.constants[j].value;
        assert(m.constants[j as int] == found@);
        if find_constant(&b.constants, found, b.constants.len()) && !find_constant(
            &a.constants,
            found,
            j,
        ) {
            evidence.push(Evidence::Constant { rarity: scorer.score_constant(found) });
        }
        assert(evidence@ =~= first + constant_evidence(m, n, s, j + 1));
        j += 1;
    }
    let ghost second = evidence@;
    let mut k: usize = 0;
    assert(evidence@ =~= second + call_evidence(m, n, s, 0));
    while k < a.api_calls.len()
        invariant
            (m, n, s) == (a@, b@, scorer@),
            k <= a.api_calls@.len(),
            evidence@ == second + call_evidence(m, n, s, k as int),
        decreases a.api_calls@.len() - k,
    {
        assert(m.api_calls[k as int] == a.api_calls@[k as int]@);
        push_matching_calls(&a.api_calls[k], &b.api_calls, scorer, &mut evidence);
        assert(evidence@ =~= second + call_evidence(m, n, s, k + 1));
        k += 1;
    }
    evidence
}

/// The percentage from which on two declarations match, by how much evidence
/// there is and by the size of the first.
pub open spec fn required_similarity_of(evidence_count: int, size: int) -> u32 {
    if evidence_count > 0 {
        if evidence_count == 1 {
            60
        } else if evidence_count == 2 {
            45
        } else if evidence_count <= 4 {
            40
        } else {
            35
        }
    } else if size < 10 {
        70
    } else if size < 50 {
        50
    } else {
        40
    }
}

/// The percentage from which on two declarations match.
pub fn required_similarity(evidence_count: usize, size: usize) -> (percent: u32)
    ensures
        percent == required_similarity_of(evidence_count as int, size as int),
{
    if evidence_count > 0 {
        if evidence_count == 1 {
            60
        } else if evidence_count == 2 {
            45
        } else if evidence_count <= 4 {
            40
        } else {
            35
        }
    } else if size < 10 {
        70
    } else if size < 50 {
        50
    } else {
        40
    }
}

/// Counts what the declarations of two texts hold.
pub fn build_rarity_scorer(list1: &Vec<Declaration>, list2: &Vec<Declaration>) -> (scorer:
    RarityScorer)
    ensures
        scorer@ == with_declarations(
            with_declarations(
                no_rarity(),
                declarations::declaration_views(list1@),
                list1@.len() as int,
            ),
            declarations::declaration_views(list2@),
            list2@.len() as int,
        ),
{
    let mut scorer = RarityScorer::new();
    add_declarations(&mut scorer, list1);
    add_declarations(&mut scorer, list2);
    scorer
}

/// Nothing counted.
pub open spec fn no_rarity() -> RarityModel {
    RarityModel { strings: Map::empty(), constants: Map::empty(), apis: Map::empty() }
}

/// Counts after the fingerprints of the first `count` declarations.
pub open spec fn with_declarations(
    scorer: RarityModel,
    list: Seq<DeclarationModel>,
    count: int,
) -> RarityModel
    decreases count,
{
    if count <= 0 {
        scorer
    } else {
        let ahead = with_declarations(scorer, list, count - 1);
        match list[count - 1].fingerprint {
            Some(f) => fingerprint::with_fingerprint(ahead, f),
            None => ahead,
        }
    }
}

fn add_declarations(scorer: &mut RarityScorer, list: &Vec<Declaration>)
    ensures
        final(scorer)@ == with_declarations(
            old(scorer)@,
            declarations::declaration_views(list@),
            list@.len() as int,
        ),
{
    let ghost before = scorer@;
    let ghost models = declarations::declaration_views(list@);
    let mut i: usize = 0;
    while i < list.len()
        invariant
            models == declarations::declaration_views(list@),
            i <= list@.len(),
            scorer@ == with_declarations(before, models, i as int),
        decreases list@.len() - i,
    {
        assert(models[i as int] == list@[i as int]@);
        if let Some(f) = &list[i].fingerprint {
            scorer.add_fingerprint(f);
        }
        i += 1;
    }
}

} // verus!
