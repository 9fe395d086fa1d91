//! What is known of a symbol apart from its name: its shape, its uses, and
//! where it stands.

use vstd::prelude::*;
use vstd::string::*;
use vstd::utf8::*;

use super::shape::{
    feature_hash, tally, votes_for, votes_to_simhash, FeatureParts, Shapes,
};
use crate::analysis::{Analysis, AnalysisSymbolKind};
use crate::sets::sort_set;
use crate::text::same_text;

use super::shape;
use crate::analysis::validate;
use crate::sets;

verus! {

/// Whether a node of this kind holds the whole of a declaration.
pub open spec fn is_container_kind(kind: Seq<char>) -> bool {
    kind == "variable_declarator"@ || kind == "function_declaration"@ || kind
        == "function_expression"@ || kind == "arrow_function"@ || kind == "method_definition"@
        || kind == "class_declaration"@ || kind == "class_expression"@ || kind
        == "import_specifier"@ || kind == "namespace_import"@ || kind == "import_clause"@ || kind
        == "catch_clause"@
}

/// The nearest node above `current` that holds the whole of a declaration.
pub open spec fn container_above(a: Analysis, declaration: int, current: int) -> int
    decreases current,
{
    match a.nodes@[current].parent {
        None => declaration,
        Some(parent) => if is_container_kind(shape::kind_of(a, parent as int)) {
            parent as int
        } else if parent < current {
            container_above(a, declaration, parent as int)
        } else {
            declaration
        },
    }
}

/// The node that holds the whole of a declaration, or else the declaration's
/// own node.
pub open spec fn container_of(a: Analysis, declaration: int) -> int {
    container_above(a, declaration, declaration)
}

fn container_kind(kind: &str) -> (r: bool)
    ensures
        r == is_container_kind(kind@),
{
    same_text(kind, "variable_declarator") || same_text(kind, "function_declaration") || same_text(
        kind,
        "function_expression",
    ) || same_text(kind, "arrow_function") || same_text(kind, "method_definition") || same_text(
        kind,
        "class_declaration",
    ) || same_text(kind, "class_expression") || same_text(kind, "import_specifier") || same_text(
        kind,
        "namespace_import",
    ) || same_text(kind, "import_clause") || same_text(kind, "catch_clause")
}

/// The node that holds the whole of a declaration.
pub(crate) fn semantic_container(a: &Analysis, declaration: usize) -> (container: usize)
    requires
        validate::rows_fit(*a),
        declaration < a.nodes@.len(),
    ensures
        container == container_of(*a, declaration as int),
        container < a.nodes@.len(),
{
    let mut current: usize = declaration;
    loop
        invariant
            validate::rows_fit(*a),
            declaration < a.nodes@.len(),
            current < a.nodes@.len(),
            container_of(*a, declaration as int) == container_above(
                *a,
                declaration as int,
                current as int,
            ),
        decreases current,
    {
        assert(validate::row_fits(a.nodes@[current as int].parent, current as int));
        let parent: usize = match a.nodes[current].parent {
            Some(parent) => parent as usize,
            None => {
                return declaration;
            },
        };
        if container_kind(a.strings[a.nodes[parent].kind as usize].as_str()) {
            return parent;
        }
        current = parent;
    }
}

/// The class of a symbol kind within which symbols are matched.
pub open spec fn class_of(kind: AnalysisSymbolKind) -> u8 {
    match kind {
        AnalysisSymbolKind::Var | AnalysisSymbolKind::Let | AnalysisSymbolKind::Const => 1,
        AnalysisSymbolKind::Function => 2,
        AnalysisSymbolKind::Parameter | AnalysisSymbolKind::Catch => 3,
        AnalysisSymbolKind::Class => 4,
        AnalysisSymbolKind::Import => 5,
    }
}

fn symbol_kind_class(kind: AnalysisSymbolKind) -> (class: u8)
    ensures
        class == class_of(kind),
{
    match kind {
        AnalysisSymbolKind::Var | AnalysisSymbolKind::Let | AnalysisSymbolKind::Const => 1,
        AnalysisSymbolKind::Function => 2,
        AnalysisSymbolKind::Parameter | AnalysisSymbolKind::Catch => 3,
        AnalysisSymbolKind::Class => 4,
        AnalysisSymbolKind::Import => 5,
    }
}

/// The features of a reference: how and below what it is used, whether it
/// resolves, and to what class of symbol.
pub open spec fn reference_features(a: Analysis, r: int) -> Seq<u64> {
    let reference = a.references@[r];
    let edge = a.def_uses@[r];
    let parent_kind = match a.nodes@[reference.node as int].parent {
        Some(parent) => shape::kind_of(a, parent as int),
        None => "root"@,
    };
    seq![
        shape::feature_of(
            seq![encode_utf8("use"@), seq![reference.role.code_spec()], encode_utf8(parent_kind)],
        ),
        shape::feature_of(
            seq![encode_utf8("resolution"@), seq![edge.resolution.code_spec()]],
        ),
    ] + match edge.symbol {
        Some(target) => seq![
            shape::feature_of(
                seq![
                    encode_utf8("target-kind"@),
                    seq![class_of(a.symbols@[target as int].kind)],
                ],
            ),
        ],
        None => Seq::empty(),
    }
}

/// The features of `count` references from a row on.
pub open spec fn use_features(a: Analysis, first: int, count: int) -> Seq<u64>
    decreases count,
{
    if count <= 0 {
        Seq::empty()
    } else {
        use_features(a, first, count - 1) + reference_features(a, first + count - 1)
    }
}

/// The features of the nodes above, from a distance up to the sixth.
pub open spec fn ancestor_features(a: Analysis, node: Option<u32>, distance: u8) -> Seq<u64>
    decreases 6 - distance,
{
    match node {
        Some(row) => if distance < 6 {
            seq![
                shape::feature_of(
                    seq![
                        encode_utf8("ancestor"@),
                        seq![distance],
                        encode_utf8(shape::kind_of(a, row as int)),
                    ],
                ),
            ] + ancestor_features(a, a.nodes@[row as int].parent, (distance + 1) as u8)
        } else {
            Seq::empty()
        },
        None => Seq::empty(),
    }
}

/// The features of the scopes around, from a distance up to the sixth.
pub open spec fn scope_features(a: Analysis, scope: Option<u32>, distance: u8) -> Seq<u64>
    decreases 6 - distance,
{
    match scope {
        Some(row) => if distance < 6 {
            seq![
                shape::feature_of(
                    seq![
                        encode_utf8("scope-ancestor"@),
                        seq![distance, a.scopes@[row as int].kind.code_spec()],
                    ],
                ),
            ] + scope_features(a, a.scopes@[row as int].parent, (distance + 1) as u8)
        } else {
            Seq::empty()
        },
        None => Seq::empty(),
    }
}

/// The place among siblings, up to the sixteenth.
pub open spec fn sibling_bucket(ordinal: u32) -> u8 {
    if ordinal < 15 {
        ordinal as u8
    } else {
        15
    }
}

/// The kinds of the first `count` calls that lead to a symbol.
pub open spec fn calls_to(a: Analysis, row: int, count: int) -> Seq<u8>
    decreases count,
{
    if count <= 0 {
        Seq::empty()
    } else if a.calls@[count - 1].target_symbol == Some(row as u32) {
        calls_to(a, row, count - 1).push(a.calls@[count - 1].kind.code_spec())
    } else {
        calls_to(a, row, count - 1)
    }
}

/// The features of calls of some kinds.
pub open spec fn call_features(kinds: Seq<u8>) -> Seq<u64> {
    kinds.map_values(
        |kind: u8| shape::feature_of(seq![encode_utf8("target-call"@), seq![kind]]),
    )
}

/// All features of a symbol, in the order they are met.
pub open spec fn raw_features(a: Analysis, row: int) -> Seq<u64> {
    let symbol = a.symbols@[row];
    let declaration = container_of(a, symbol.declaration_node as int);
    use_features(a, symbol.reference_first as int, symbol.reference_count as int)
        + ancestor_features(a, a.nodes@[declaration].parent, 0) + scope_features(
        a,
        Some(symbol.scope),
        0,
    ) + seq![
        shape::feature_of(
            seq![
                encode_utf8("sibling-rank-bucket"@),
                seq![sibling_bucket(a.nodes@[declaration].child_ordinal)],
            ],
        ),
    ] + call_features(calls_to(a, row, a.calls@.len() as int))
}

/// The features of a symbol, ascending.
pub open spec fn features_of(a: Analysis, row: int) -> Seq<u64> {
    sets::sorted_set(raw_features(a, row))
}

/// The votes of the first `count` of some features.
pub open spec fn feature_votes(features: Seq<u64>, count: int) -> Seq<int>
    decreases count,
{
    if count <= 0 {
        Seq::new(64, |bit: int| 0int)
    } else {
        shape::tallied(feature_votes(features, count - 1), shape::votes_of(features[count - 1]))
    }
}

/// The similarity hash of features.
pub open spec fn features_hash(features: Seq<u64>) -> u64 {
    shape::majority(feature_votes(features, features.len() as int), 64)
}

/// How many of `count` references from a row on have a role.
pub open spec fn role_count(a: Analysis, first: int, count: int, role: u8) -> nat
    decreases count,
{
    if count <= 0 {
        0
    } else {
        role_count(a, first, count - 1, role) + if a.references@[first + count - 1].role.code_spec()
            == role {
            1nat
        } else {
            0
        }
    }
}

/// How often a symbol is used in each of the six roles.
pub open spec fn roles_of(a: Analysis, row: int) -> Seq<int> {
    let symbol = a.symbols@[row];
    Seq::new(
        6,
        |k: int|
            role_count(
                a,
                symbol.reference_first as int,
                symbol.reference_count as int,
                (k + 1) as u8,
            ) as int,
    )
}

/// The model of a [`ContextFingerprint`].
pub struct ContextModel {
    pub class: u8,
    pub scope_kind: u8,
    pub scope_depth: int,
    pub digest: Seq<u8>,
    pub shape_hash: u64,
    pub context_hash: u64,
    pub size: int,
    pub roles: Seq<int>,
    pub features: Seq<u64>,
    pub origin: Option<Seq<u8>>,
}

/// What is known of a symbol apart from its name.
pub open spec fn context_of(a: Analysis, row: int, origin: Option<Seq<u8>>) -> ContextModel {
    let symbol = a.symbols@[row];
    let declaration = container_of(a, symbol.declaration_node as int);
    let scope = a.scopes@[symbol.scope as int];
    ContextModel {
        class: class_of(symbol.kind),
        scope_kind: scope.kind.code_spec(),
        scope_depth: scope.depth as int,
        digest: shape::shape_digest(a, declaration),
        shape_hash: shape::shape_hash(a, declaration),
        context_hash: features_hash(features_of(a, row)),
        size: shape::subtree_size(a, declaration) as int,
        roles: roles_of(a, row),
        features: features_of(a, row),
        origin,
    }
}

/// The origin of a symbol, where origins are known.
pub open spec fn origin_at(origins: Option<Seq<Option<Seq<u8>>>>, row: int) -> Option<Seq<u8>> {
    match origins {
        Some(origins) => origins[row],
        None => None,
    }
}

/// What is known of every symbol of an analysis.
pub open spec fn contexts_of(a: Analysis, origins: Option<Seq<Option<Seq<u8>>>>) -> Seq<
    ContextModel,
> {
    Seq::new(a.symbols@.len(), |row: int| context_of(a, row, origin_at(origins, row)))
}

/// What is known of a symbol apart from its name.
pub struct ContextFingerprint {
    pub class: u8,
    pub scope_kind: u8,
    pub scope_depth: u32,
    pub digest: [u8; 32],
    pub shape_hash: u64,
    pub context_hash: u64,
    pub size: u32,
    pub roles: Vec<u32>,
    pub features: Vec<u64>,
    pub origin: Option<[u8; 32]>,
}

/// Bytes that may be missing.
pub open spec fn origin_view(origin: Option<[u8; 32]>) -> Option<Seq<u8>> {
    match origin {
        Some(bytes) => Some(bytes@),
        None => None,
    }
}

/// Origins seen as byte strings.
pub open spec fn origin_views(origins: Seq<Option<[u8; 32]>>) -> Seq<Option<Seq<u8>>> {
    origins.map_values(|origin: Option<[u8; 32]>| origin_view(origin))
}

/// Numbers seen as integers.
pub open spec fn number_views(numbers: Seq<u32>) -> Seq<int> {
    numbers.map_values(|number: u32| number as int)
}

impl View for ContextFingerprint {
    type V = ContextModel;

    open spec fn view(&self) -> ContextModel {
        ContextModel {
            class: self.class,
            scope_kind: self.scope_kind,
            scope_depth: self.scope_depth as int,
            digest: self.digest@,
            shape_hash: self.shape_hash,
            context_hash: self.context_hash,
            size: self.size as int,
            roles: number_views(self.roles@),
            features: self.features@,
            origin: origin_view(self.origin),
        }
    }
}

/// Contexts seen as their models.
pub open spec fn context_views(contexts: Seq<ContextFingerprint>) -> Seq<ContextModel> {
    contexts.map_values(|context: ContextFingerprint| context@)
}

fn push_reference_features(a: &Analysis, r: usize, features: &mut Vec<u64>)
    requires
        validate::rows_fit(*a),
        r < a.references@.len(),
    ensures
        final(features)@ == old(features)@ + reference_features(*a, r as int),
{
    let ghost before = features@;
    let reference = &a.references[r];
    let edge = &a.def_uses[r];
    assert(validate::row_fits(a.nodes@[reference.node as int].parent, reference.node as int));
    let parent_kind: &str = match a.nodes[reference.node as usize].parent {
        Some(parent) => a.strings[a.nodes[parent as usize].kind as usize].as_str(),
        None => "root",
    };
    let parts = FeatureParts::new("use").push_byte(reference.role.code()).push(
        parent_kind.as_bytes(),
    );
    assert(parts.parts() =~= seq![
        encode_utf8("use"@),
        seq![reference.role.code_spec()],
        encode_utf8(parent_kind@),
    ]);
    features.push(feature_hash(parts));
    let parts = FeatureParts::new("resolution").push_byte(edge.resolution.code());
    assert(parts.parts() =~= seq![
        encode_utf8("resolution"@),
        seq![edge.resolution.code_spec()],
    ]);
    features.push(feature_hash(parts));
    assert(validate::row_fits(a.def_uses@[r as int].symbol, a.symbols@.len() as int));
    if let Some(target) = edge.symbol {
        let class = symbol_kind_class(a.symbols[target as usize].kind);
        let parts = FeatureParts::new("target-kind").push_byte(class);
        assert(parts.parts() =~= seq![encode_utf8("target-kind"@), seq![class]]);
        features.push(feature_hash(parts));
    }
    assert(features@ =~= before + reference_features(*a, r as int));
}

fn push_use_features(a: &Analysis, row: usize, features: &mut Vec<u64>)
    requires
        validate::rows_fit(*a),
        row < a.symbols@.len(),
    ensures
        final(features)@ == old(features)@ + use_features(
            *a,
            a.symbols@[row as int].reference_first as int,
            a.symbols@[row as int].reference_count as int,
        ),
{
    let first: usize = a.symbols[row].reference_first as usize;
    let count: usize = a.symbols[row].reference_count as usize;
    let total: usize = a.references.len();
    let ghost before = features@;
    let mut k: usize = 0;
    assert(features@ =~= before + use_features(*a, first as int, 0));
    while k < count
        invariant
            k <= count,
            validate::rows_fit(*a),
            total == a.references@.len(),
            first + count <= total,
            features@ == before + use_features(*a, first as int, k as int),
        decreases count - k,
    {
        push_reference_features(a, first + k, features);
        proof {
            assert(before + use_features(*a, first as int, k as int) + reference_features(
                *a,
                first + k,
            ) =~= before + use_features(*a, first as int, k + 1));
        }
        k += 1;
    }
}

fn push_ancestor_features(a: &Analysis, node: Option<u32>, features: &mut Vec<u64>)
    requires
        validate::rows_fit(*a),
        validate::row_fits(node, a.nodes@.len() as int),
    ensures
        final(features)@ == old(features)@ + ancestor_features(*a, node, 0),
{
    let ghost before = features@;
    let mut current: Option<u32> = node;
    let mut distance: u8 = 0;
    while distance < 6
        invariant
            distance <= 6,
            validate::rows_fit(*a),
            validate::row_fits(current, a.nodes@.len() as int),
            before == old(features)@,
            before + ancestor_features(*a, node, 0) == features@ + ancestor_features(
                *a,
                current,
                distance,
            ),
        decreases 6 - distance,
    {
        let row: u32 = match current {
            Some(row) => row,
            None => {
                assert(features@ + Seq::<u64>::empty() =~= features@);
                return;
            },
        };
        let ghost earlier = features@;
        let kind = a.strings[a.nodes[row as usize].kind as usize].as_str();
        let parts = FeatureParts::new("ancestor").push_byte(distance).push(kind.as_bytes());
        assert(parts.parts() =~= seq![
            encode_utf8("ancestor"@),
            seq![distance],
            encode_utf8(kind@),
        ]);
        features.push(feature_hash(parts));
        assert(validate::row_fits(a.nodes@[row as int].parent, row as int));
        current = a.nodes[row as usize].parent;
        proof {
            assert(earlier + ancestor_features(*a, Some(row), distance) =~= features@
                + ancestor_features(*a, current, (distance + 1) as u8));
        }
        distance += 1;
    }
    assert(features@ + Seq::<u64>::empty() =~= features@);
}

fn push_scope_features(a: &Analysis, scope: u32, features: &mut Vec<u64>)
    requires
        validate::rows_fit(*a),
        scope < a.scopes@.len(),
    ensures
        final(features)@ == old(features)@ + scope_features(*a, Some(scope), 0),
{
    let ghost before = features@;
    let mut current: Option<u32> = Some(scope);
    let mut distance: u8 = 0;
    while distance < 6
        invariant
            distance <= 6,
            validate::rows_fit(*a),
            validate::row_fits(current, a.scopes@.len() as int),
            before == old(features)@,
            before + scope_features(*a, Some(scope), 0) == features@ + scope_features(
                *a,
                current,
                distance,
            ),
        decreases 6 - distance,
    {
        let row: u32 = match current {
            Some(row) => row,
            None => {
                assert(features@ + Seq::<u64>::empty() =~= features@);
                return;
            },
        };
        let ghost earlier = features@;
        let parts = FeatureParts::new("scope-ancestor").push_pair(
            distance,
            a.scopes[row as usize].kind.code(),
        );
        assert(parts.parts() =~= seq![
            encode_utf8("scope-ancestor"@),
            seq![distance, a.scopes@[row as int].kind.code_spec()],
        ]);
        features.push(feature_hash(parts));
        assert(validate::row_fits(a.scopes@[row as int].parent, row as int));
        current = a.scopes[row as usize].parent;
        proof {
            assert(earlier + scope_features(*a, Some(row), distance) =~= features@
                + scope_features(*a, current, (distance + 1) as u8));
        }
        distance += 1;
    }
    assert(features@ + Seq::<u64>::empty() =~= features@);
}

fn push_call_features(kinds: &Vec<u8>, features: &mut Vec<u64>)
    ensures
        final(features)@ == old(features)@ + call_features(kinds@),
{
    let ghost before = features@;
    let ghost all = call_features(kinds@);
    let mut k: usize = 0;
    assert(features@ =~= before + all.take(0));
    while k < kinds.len()
        invariant
            k <= kinds@.len(),
            all == call_features(kinds@),
            all.len() == kinds@.len(),
            features@ == before + all.take(k as int),
        decreases kinds@.len() - k,
    {
        let parts = FeatureParts::new("target-call").push_byte(kinds[k]);
        assert(parts.parts() =~= seq![encode_utf8("target-call"@), seq![kinds@[k as int]]]);
        features.push(feature_hash(parts));
        proof {
            assert(all[k as int] == features@.last());
            assert(features@ =~= before + all.take(k + 1));
        }
        k += 1;
    }
    assert(all.take(k as int) =~= all);
}

/// Whether lists hold the kinds of the calls that lead to every symbol.
pub open spec fn lists_calls(lists: Seq<Vec<u8>>, a: Analysis, count: int) -> bool {
    forall|row: int|
        0 <= row < lists.len() ==> (#[trigger] lists[row])@ == calls_to(a, row, count)
}

fn list_calls(a: &Analysis) -> (lists: Vec<Vec<u8>>)
    requires
        validate::rows_fit(*a),
        a.symbols@.len() <= u32::MAX,
    ensures
        lists@.len() == a.symbols@.len(),
        lists_calls(lists@, *a, a.calls@.len() as int),
{
    let length: usize = a.symbols.len();
    let mut lists: Vec<Vec<u8>> = Vec::new();
    while lists.len() < length
        invariant
            lists@.len() <= length,
            lists_calls(lists@, *a, 0),
        decreases length - lists@.len(),
    {
        let list: Vec<u8> = Vec::new();
        assert(list@ =~= Seq::empty());
        lists.push(list);
    }
    let mut k: usize = 0;
    while k < a.calls.len()
        invariant
            k <= a.calls@.len(),
            validate::rows_fit(*a),
            lists@.len() == a.symbols@.len(),
            lists@.len() <= u32::MAX,
            lists_calls(lists@, *a, k as int),
        decreases a.calls@.len() - k,
    {
        let ghost before = lists@;
        let call = &a.calls[k];
        assert(validate::row_fits(a.calls@[k as int].target_symbol, a.symbols@.len() as int));
        if let Some(target) = call.target_symbol {
            lists[target as usize].push(call.kind.code());
        }
        proof {
            assert forall|row: int| 0 <= row < lists@.len() implies (#[trigger] lists@[row])@
                == calls_to(*a, row, k + 1) by {
                assert(before[row]@ == calls_to(*a, row, k as int));
            }
        }
        k += 1;
    }
    lists
}

fn roles_for(a: &Analysis, row: usize) -> (roles: Vec<u32>)
    requires
        validate::rows_fit(*a),
        row < a.symbols@.len(),
    ensures
        number_views(roles@) == roles_of(*a, row as int),
        roles@.len() == 6,
{
    let first: usize = a.symbols[row].reference_first as usize;
    let count: usize = a.symbols[row].reference_count as usize;
    let mut roles: Vec<u32> = Vec::new();
    while roles.len() < 6
        invariant
            roles@.len() <= 6,
            forall|k: int| 0 <= k < roles@.len() ==> #[trigger] roles@[k] == 0,
        decreases 6 - roles@.len(),
    {
        roles.push(0);
    }
    let total: usize = a.references.len();
    let mut k: usize = 0;
    while k < count
        invariant
            k <= count <= u32::MAX,
            validate::rows_fit(*a),
            total == a.references@.len(),
            first + count <= total,
            roles@.len() == 6,
            forall|j: int|
                0 <= j < 6 ==> #[trigger] roles@[j] == role_count(
                    *a,
                    first as int,
                    k as int,
                    (j + 1) as u8,
                ) && roles@[j] <= k,
        decreases count - k,
    {
        let slot: usize = a.references[first + k].role.code() as usize - 1;
        let tally: u32 = roles[slot];
        roles.set(slot, tally + 1);
        k += 1;
    }
    assert(number_views(roles@) =~= roles_of(*a, row as int));
    roles
}

fn hash_features(features: &Vec<u64>) -> (hash: u64)
    ensures
        hash == features_hash(features@),
{
    let mut votes: Vec<i32> = Vec::new();
    while votes.len() < 64
        invariant
            votes@.len() <= 64,
            forall|k: int| 0 <= k < votes@.len() ==> #[trigger] votes@[k] == 0,
        decreases 64 - votes@.len(),
    {
        votes.push(0);
    }
    let mut i: usize = 0;
    assert(shape::vote_views(votes@) =~= feature_votes(features@, 0));
    while i < features.len()
        invariant
            i <= features@.len(),
            votes@.len() == 64,
            shape::vote_views(votes@) == feature_votes(features@, i as int),
        decreases features@.len() - i,
    {
        let own = votes_for(features[i]);
        assert(shape::vote_views(own@).len() == own@.len());
        votes = tally(&votes, &own);
        assert(shape::vote_views(votes@).len() == votes@.len());
        i += 1;
    }
    votes_to_simhash(&votes)
}

fn features_for(a: &Analysis, row: usize, declaration: usize, calls: &Vec<u8>) -> (features: Vec<
    u64,
>)
    requires
        validate::rows_fit(*a),
        row < a.symbols@.len(),
        declaration == container_of(*a, a.symbols@[row as int].declaration_node as int),
        declaration < a.nodes@.len(),
        calls@ == calls_to(*a, row as int, a.calls@.len() as int),
    ensures
        features@ == features_of(*a, row as int),
{
    let mut raw: Vec<u64> = Vec::new();
    push_use_features(a, row, &mut raw);
    let ghost uses = use_features(
        *a,
        a.symbols@[row as int].reference_first as int,
        a.symbols@[row as int].reference_count as int,
    );
    assert(raw@ =~= uses);
    assert(validate::row_fits(a.nodes@[declaration as int].parent, declaration as int));
    push_ancestor_features(a, a.nodes[declaration].parent, &mut raw);
    push_scope_features(a, a.symbols[row].scope, &mut raw);
    let ordinal = a.nodes[declaration].child_ordinal;
    let bucket: u8 = if ordinal < 15 {
        ordinal as u8
    } else {
        15
    };
    let parts = FeatureParts::new("sibling-rank-bucket").push_byte(bucket);
    assert(parts.parts() =~= seq![
        encode_utf8("sibling-rank-bucket"@),
        seq![sibling_bucket(ordinal)],
    ]);
    let ghost before = raw@;
    let sibling = feature_hash(parts);
    raw.push(sibling);
    assert(raw@ =~= before + seq![sibling]);
    push_call_features(calls, &mut raw);
    assert(raw@ =~= raw_features(*a, row as int));
    sort_set(&raw)
}

/// What is known of every symbol of an analysis.
pub(crate) fn collect_contexts(
    a: &Analysis,
    shapes: &Shapes,
    origins: &Option<Vec<Option<[u8; 32]>>>,
) -> (contexts: Vec<ContextFingerprint>)
    requires
        validate::rows_fit(*a),
        a.symbols@.len() <= u32::MAX,
        shape::shapes_from(*shapes, *a, 0),
        origins matches Some(list) ==> list@.len() == a.symbols@.len(),
    ensures
        context_views(contexts@) == contexts_of(*a, optional_origins(*origins)),
{
    let calls = list_calls(a);
    let length: usize = a.symbols.len();
    let mut contexts: Vec<ContextFingerprint> = Vec::new();
    let mut row: usize = 0;
    while row < length
        invariant
            row <= length,
            length == a.symbols@.len(),
            validate::rows_fit(*a),
            shape::shapes_from(*shapes, *a, 0),
            origins matches Some(list) ==> list@.len() == a.symbols@.len(),
            calls@.len() == length,
            lists_calls(calls@, *a, a.calls@.len() as int),
            contexts@.len() == row,
            forall|k: int|
                0 <= k < row ==> (#[trigger] contexts@[k])@ == context_of(
                    *a,
                    k,
                    origin_at(optional_origins(*origins), k),
                ),
        decreases length - row,
    {
        let symbol = &a.symbols[row];
        let declaration = semantic_container(a, symbol.declaration_node as usize);
        let scope = &a.scopes[symbol.scope as usize];
        assert(calls@[row as int]@ == calls_to(*a, row as int, a.calls@.len() as int));
        let features = features_for(a, row, declaration, &calls[row]);
        let roles = roles_for(a, row);
        let context_hash = hash_features(&features);
        let origin: Option<[u8; 32]> = match origins {
            Some(list) => {
                assert(optional_origins(*origins)->0[row as int] == origin_view(
                    list@[row as int],
                ));
                list[row]
            },
            None => None,
        };
        proof {
            let d = declaration as int;
            assert(shapes.digests@[d]@ == shape::shape_digest(*a, d));
            assert(shapes.simhashes@[d] == shape::shape_hash(*a, d));
            assert(shapes.sizes@[d] == shape::subtree_size(*a, d));
        }
        contexts.push(
            ContextFingerprint {
                class: symbol_kind_class(symbol.kind),
                scope_kind: scope.kind.code(),
                scope_depth: scope.depth,
                digest: shapes.digests[declaration],
                shape_hash: shapes.simhashes[declaration],
                context_hash,
                size: shapes.sizes[declaration],
                roles,
                features,
                origin,
            },
        );
        row += 1;
    }
    assert(context_views(contexts@) =~= contexts_of(*a, optional_origins(*origins)));
    contexts
}

/// Origins, where they are known, seen as byte strings.
pub open spec fn optional_origins(origins: Option<Vec<Option<[u8; 32]>>>) -> Option<
    Seq<Option<Seq<u8>>>,
> {
    match origins {
        Some(list) => Some(origin_views(list@)),
        None => None,
    }
}

} // verus!
