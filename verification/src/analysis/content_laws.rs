//! What the rows of an analysis tell of a text.

use vstd::prelude::*;

use super::calls::CallModel;
use super::references::{Context, PendingModel};
use super::symbols::CandidateModel;
use super::{
    Analysis, AnalysisCallKind, AnalysisResolution, AnalysisScopeKind, AnalysisSymbolKind,
};
use crate::scope::{ScopeModel, ScopeType, VariableKind};
use crate::syntax;
use crate::syntax::RowModel;

use super::{calls, references, rows, symbols};
use crate::scope::laws::lies_around;
use crate::{order, scope};

verus! {

/// Whether some variable is declared at a node.
pub open spec fn declares_a_variable(
    tree: Seq<RowModel>,
    scopes: Seq<ScopeModel>,
    i: int,
) -> bool {
    exists|s: int, k: int|
        0 <= s < scopes.len() && 0 <= k < scopes[s].variables.len() && symbols::binding_node(
            tree,
            (#[trigger] scopes[s].variables[k]).byte,
        ) == Some(i)
}

proof fn lemma_binding_upto(tree: Seq<RowModel>, byte: int, count: int)
    requires
        0 <= count <= tree.len(),
    ensures
        match symbols::binding_node_upto(tree, byte, count) {
            Some(i) => 0 <= i < count && tree[i].named && tree[i].start_byte == byte && forall|j: int|
             0 <= j < count && (#[trigger] tree[j]).named && tree[j].start_byte == byte
                ==> !symbols::fits_closer(tree, j, i) && (j < i ==> symbols::fits_closer(
                tree,
                i,
                j,
            )),
            None => forall|j: int|
                0 <= j < count ==> !((#[trigger] tree[j]).named && tree[j].start_byte == byte),
        },
    decreases count,
{
    if count > 0 {
        lemma_binding_upto(tree, byte, count - 1);
    }
}

/// A variable is declared by the smallest named node that starts where the
/// variable does: an identifier if one is among them, and else the first.
pub proof fn law_declarations_are_the_smallest_nodes(tree: Seq<RowModel>, byte: int)
    requires
        forall|i: int|
            0 <= i < tree.len() ==> (#[trigger] tree[i]).start_byte <= tree[i].end_byte,
    ensures
        match symbols::binding_node(tree, byte) {
            Some(i) => {
                let size = tree[i].end_byte - tree[i].start_byte;
                let is_name = tree[i].kind == "identifier"@ || tree[i].kind
                    == "shorthand_property_identifier"@ || tree[i].kind
                    == "shorthand_property_identifier_pattern"@;
                &&& 0 <= i < tree.len()
                &&& tree[i].named
                &&& tree[i].start_byte == byte
                &&& forall|j: int|
                    0 <= j < tree.len() && (#[trigger] tree[j]).named && tree[j].start_byte == byte
                        ==> {
                        let other = tree[j].end_byte - tree[j].start_byte;
                        let other_is_name = tree[j].kind == "identifier"@ || tree[j].kind
                            == "shorthand_property_identifier"@ || tree[j].kind
                            == "shorthand_property_identifier_pattern"@;
                        &&& size <= other
                        &&& size == other && other_is_name ==> is_name
                        &&& size == other && is_name == other_is_name ==> i <= j
                    }
            },
            None => forall|j: int|
                0 <= j < tree.len() ==> !((#[trigger] tree[j]).named && tree[j].start_byte
                    == byte),
        },
{
    lemma_binding_upto(tree, byte, tree.len() as int);
    if let Some(i) = symbols::binding_node(tree, byte) {
        assert(tree[i].start_byte <= tree[i].end_byte);
        assert forall|j: int|
            0 <= j < tree.len() && (#[trigger] tree[j]).named && tree[j].start_byte == byte implies {
            let size = tree[i].end_byte - tree[i].start_byte;
            let other = tree[j].end_byte - tree[j].start_byte;
            let is_name = scope::bindings::is_identifier_kind(tree[i].kind);
            let other_is_name = scope::bindings::is_identifier_kind(tree[j].kind);
            &&& size <= other
            &&& size == other && other_is_name ==> is_name
            &&& size == other && is_name == other_is_name ==> i <= j
        } by {
            assert(tree[j].start_byte <= tree[j].end_byte);
            assert(!symbols::fits_closer(tree, j, i));
        }
    }
}

/// The persisted kind of a variable is its own, but that a name which an
/// import statement brings is an import, and a parameter of a catch clause a
/// catch binding.
pub proof fn law_symbols_keep_their_kinds(
    tree: Seq<RowModel>,
    scopes: Seq<ScopeModel>,
    s: int,
    k: int,
)
    requires
        0 <= s < scopes.len(),
        0 <= k < scopes[s].variables.len(),
    ensures
        ({
            let variable = scopes[s].variables[k];
            let kind = symbols::candidate_of(tree, scopes, s, k).kind;
            let imported = exists|i: int|
                0 <= i < tree.len() && (#[trigger] tree[i]).kind == "import_statement"@
                    && tree[i].start_byte <= variable.byte < tree[i].end_byte;
            let caught = variable.kind == VariableKind::Parameter && exists|i: int|
                0 <= i < tree.len() && (#[trigger] tree[i]).kind == "catch_clause"@
                    && tree[i].start_byte == scopes[s].start_byte && tree[i].end_byte
                    == scopes[s].end_byte;
            &&& kind == AnalysisSymbolKind::Import <==> imported
            &&& kind == AnalysisSymbolKind::Catch <==> !imported && caught
            &&& kind == AnalysisSymbolKind::Parameter <==> !imported && !caught && variable.kind
                == VariableKind::Parameter
            &&& kind == AnalysisSymbolKind::Var <==> !imported && variable.kind
                == VariableKind::Var
            &&& kind == AnalysisSymbolKind::Let <==> !imported && variable.kind
                == VariableKind::Let
            &&& kind == AnalysisSymbolKind::Const <==> !imported && variable.kind
                == VariableKind::Const
            &&& kind == AnalysisSymbolKind::Function <==> !imported && variable.kind
                == VariableKind::FunctionDeclaration
            &&& kind == AnalysisSymbolKind::Class <==> !imported && variable.kind
                == VariableKind::ClassDeclaration
        }),
{
}

proof fn lemma_in_scope(
    tree: Seq<RowModel>,
    scopes: Seq<ScopeModel>,
    s: int,
    k: nat,
    t: int,
    m: int,
)
    requires
        0 <= t < scopes.len(),
        0 <= m < scopes[t].variables.len(),
        t < s || (t == s && m < k),
        0 <= s,
    ensures
        symbols::candidates_in(tree, scopes, s, k).contains(
            symbols::candidate_of(tree, scopes, t, m),
        ),
    decreases s, k + 1,
{
    let wanted = symbols::candidate_of(tree, scopes, t, m);
    if k == 0 {
        assert(symbols::candidates_in(tree, scopes, s, k) == symbols::candidates_before(
            tree,
            scopes,
            s,
        ));
        assert(symbols::candidates_before(tree, scopes, s) == symbols::candidates_in(
            tree,
            scopes,
            s - 1,
            scopes[s - 1].variables.len(),
        ));
        lemma_in_scope(tree, scopes, s - 1, scopes[s - 1].variables.len(), t, m);
    } else {
        let shorter = symbols::candidates_in(tree, scopes, s, (k - 1) as nat);
        let longer = symbols::candidates_in(tree, scopes, s, k);
        if t == s && m == k - 1 {
            assert(longer[longer.len() - 1] == wanted);
        } else {
            lemma_in_scope(tree, scopes, s, (k - 1) as nat, t, m);
            let j = choose|j: int| 0 <= j < shorter.len() && shorter[j] == wanted;
            assert(longer[j] == wanted);
        }
    }
}

/// Whether a candidate is that of some variable.
spec fn is_of_variable(
    tree: Seq<RowModel>,
    scopes: Seq<ScopeModel>,
    c: CandidateModel,
    t: int,
    m: int,
) -> bool {
    0 <= t < scopes.len() && 0 <= m < scopes[t].variables.len() && c == symbols::candidate_of(
        tree,
        scopes,
        t,
        m,
    )
}

proof fn lemma_of_variables(
    tree: Seq<RowModel>,
    scopes: Seq<ScopeModel>,
    s: int,
    k: nat,
    j: int,
)
    requires
        0 <= s < scopes.len(),
        k <= scopes[s].variables.len(),
        0 <= j < symbols::candidates_in(tree, scopes, s, k).len(),
    ensures
        exists|t: int, m: int|
            is_of_variable(tree, scopes, symbols::candidates_in(tree, scopes, s, k)[j], t, m),
    decreases s, k + 1,
{
    let list = symbols::candidates_in(tree, scopes, s, k);
    if k == 0 {
        assert(list == symbols::candidates_before(tree, scopes, s));
        assert(s > 0);
        assert(list == symbols::candidates_in(
            tree,
            scopes,
            s - 1,
            scopes[s - 1].variables.len(),
        ));
        lemma_of_variables(tree, scopes, s - 1, scopes[s - 1].variables.len(), j);
    } else if j == list.len() - 1 {
        assert(is_of_variable(tree, scopes, list[j], s, k - 1));
    } else {
        lemma_of_variables(tree, scopes, s, (k - 1) as nat, j);
    }
}

proof fn lemma_without_repeats(list: Seq<CandidateModel>, count: int, c: CandidateModel)
    requires
        0 <= count <= list.len(),
    ensures
        symbols::without_repeats(list, count).contains(c) <==> exists|j: int|
            0 <= j < count && #[trigger] list[j] == c,
        count > 0 ==> symbols::without_repeats(list, count).len() > 0
            && symbols::without_repeats(list, count).last() == list[count - 1],
    decreases count,
{
    if count > 0 {
        lemma_without_repeats(list, count - 1, c);
        let shorter = symbols::without_repeats(list, count - 1);
        let longer = symbols::without_repeats(list, count);
        if shorter.contains(c) {
            let j = choose|j: int| 0 <= j < shorter.len() && shorter[j] == c;
            assert(longer[j] == c);
        }
        if list[count - 1] == c {
            assert(longer[longer.len() - 1] == c);
        }
        if longer.contains(c) && longer != shorter {
            let j = choose|j: int| 0 <= j < longer.len() && longer[j] == c;
            if j < shorter.len() {
                assert(shorter[j] == c);
            }
        }
    }
}

/// The candidates for symbols are those of the variables of all scopes.
proof fn lemma_candidates(tree: Seq<RowModel>, scopes: Seq<ScopeModel>, c: CandidateModel)
    ensures
        symbols::ordered_candidates(tree, scopes).contains(c) <==> exists|t: int, m: int|
            is_of_variable(tree, scopes, c, t, m),
{
    let all = symbols::all_candidates(tree, scopes);
    let keys = symbols::candidate_keys(all);
    let list = order::arranged(all, keys);
    let n = scopes.len() as int;
    lemma_without_repeats(list, all.len() as int, c);
    order::lemma_rank_is_bijective(keys);
    if exists|t: int, m: int| is_of_variable(tree, scopes, c, t, m) {
        let (t, m) = choose|t: int, m: int| is_of_variable(tree, scopes, c, t, m);
        lemma_in_scope(tree, scopes, n - 1, scopes[n - 1].variables.len(), t, m);
        let j = choose|j: int| 0 <= j < all.len() && all[j] == c;
        assert(0 <= order::rank(keys, j) < keys.len());
        assert(list[order::rank(keys, j)] == c);
    }
    if exists|j: int| 0 <= j < all.len() && #[trigger] list[j] == c {
        let j = choose|j: int| 0 <= j < all.len() && #[trigger] list[j] == c;
        let i = order::row_at(keys, j);
        assert(0 <= i < all.len() && all[i] == c);
        assert(n > 0);
        lemma_of_variables(tree, scopes, n - 1, scopes[n - 1].variables.len(), i);
    }
}

/// Whether a node refers to a name: it names a variable of the text and
/// declares none.
pub open spec fn refers(tree: Seq<RowModel>, scopes: Seq<ScopeModel>, i: int) -> bool {
    scope::reference_laws::names_a_variable(tree, i) && !declares_a_variable(tree, scopes, i)
}

proof fn lemma_refers(context: Context, i: int)
    requires
        syntax::lists_a_tree(context.rows),
        0 <= i < context.rows.len(),
        context.candidates == symbols::ordered_candidates(context.rows, context.scopes),
    ensures
        references::is_reference(context, i) == refers(context.rows, context.scopes, i),
{
    let tree = context.rows;
    let scopes = context.scopes;
    let list = context.candidates;
    scope::reference_laws::lemma_names_a_variable(tree, i);
    if references::is_binding(list, i) {
        let k = choose|k: int| 0 <= k < list.len() && (#[trigger] list[k]).node == i;
        lemma_candidates(tree, scopes, list[k]);
        assert(list.contains(list[k]));
        let (t, m) = choose|t: int, m: int| is_of_variable(tree, scopes, list[k], t, m);
        assert(symbols::binding_node(tree, scopes[t].variables[m].byte) == Some(i));
    }
    if declares_a_variable(tree, scopes, i) {
        let (s, k) = choose|s: int, k: int|
            0 <= s < scopes.len() && 0 <= k < scopes[s].variables.len() && symbols::binding_node(
                tree,
                (#[trigger] scopes[s].variables[k]).byte,
            ) == Some(i);
        let c = symbols::candidate_of(tree, scopes, s, k);
        lemma_candidates(tree, scopes, c);
        assert(is_of_variable(tree, scopes, c, s, k));
        let j = choose|j: int| 0 <= j < list.len() && list[j] == c;
        assert(list[j].node == i);
    }
}

proof fn lemma_pending(context: Context, count: int)
    requires
        0 <= count <= context.rows.len(),
    ensures
        ({
            let list = references::pending_upto(context, count);
            &&& forall|k: int|
                0 <= k < list.len() ==> 0 <= (#[trigger] list[k]).node < count
                    && references::is_reference(context, list[k].node) && list[k]
                    == references::pending_of(context, list[k].node)
            &&& forall|j: int, k: int|
                #![trigger list[j], list[k]]
                0 <= j < k < list.len() ==> list[j].node < list[k].node
            &&& forall|i: int|
                0 <= i < count && #[trigger] references::is_reference(context, i) ==> exists|k: int|
                    0 <= k < list.len() && (#[trigger] list[k]).node == i
        }),
    decreases count,
{
    if count > 0 {
        lemma_pending(context, count - 1);
        let shorter = references::pending_upto(context, count - 1);
        let longer = references::pending_upto(context, count);
        assert forall|i: int|
            0 <= i < count && #[trigger] references::is_reference(context, i) implies exists|k: int|
            0 <= k < longer.len() && (#[trigger] longer[k]).node == i by {
            if i == count - 1 {
                assert(longer[longer.len() - 1].node == i);
            } else {
                let k = choose|k: int| 0 <= k < shorter.len() && (#[trigger] shorter[k]).node == i;
                assert(longer[k].node == i);
            }
        }
    }
}

/// Whether a scope has a symbol of a name.
pub open spec fn is_symbol_in(context: Context, j: int, name: Seq<char>, s: int) -> bool {
    &&& 0 <= j < symbols::kept(context.candidates).len()
    &&& references::symbol_at(context.candidates, j).scope == rows::scope_row(context.scopes, s)
    &&& references::symbol_at(context.candidates, j).name == name
}

/// Whether a scope is the nearest around another one that has a symbol of a
/// name.
pub open spec fn is_nearest_with(context: Context, name: Seq<char>, h: int, s: int) -> bool {
    &&& 0 <= h < context.scopes.len()
    &&& lies_around(context.scopes, h, s)
    &&& exists|j: int| #[trigger] is_symbol_in(context, j, name, h)
    &&& forall|k: int, j: int|
        0 <= k < context.scopes.len() && k != h && lies_around(context.scopes, k, s)
            && lies_around(context.scopes, h, k) ==> !#[trigger] is_symbol_in(
            context,
            j,
            name,
            k,
        )
}

proof fn lemma_symbols_in(candidates: Seq<CandidateModel>, at: int, count: int)
    requires
        0 <= count,
    ensures
        ({
            let list = references::symbols_in(candidates, at, count);
            &&& forall|k: int|
                0 <= k < list.len() ==> 0 <= #[trigger] list[k] < count && references::symbol_at(
                    candidates,
                    list[k],
                ).scope == at
            &&& forall|j: int, k: int|
                #![trigger list[j], list[k]]
                0 <= j < k < list.len() ==> list[j] < list[k]
            &&& forall|j: int|
                0 <= j < count && (#[trigger] references::symbol_at(candidates, j)).scope == at
                    ==> list.contains(j)
        }),
    decreases count,
{
    if count > 0 {
        lemma_symbols_in(candidates, at, count - 1);
        let shorter = references::symbols_in(candidates, at, count - 1);
        let longer = references::symbols_in(candidates, at, count);
        assert forall|j: int|
            0 <= j < count && (#[trigger] references::symbol_at(candidates, j)).scope == at implies
            longer.contains(j) by {
            if j == count - 1 {
                assert(longer[longer.len() - 1] == j);
            } else {
                let k = choose|k: int| 0 <= k < shorter.len() && shorter[k] == j;
                assert(longer[k] == j);
            }
        }
    }
}

proof fn lemma_named_among(
    candidates: Seq<CandidateModel>,
    list: Seq<int>,
    name: Seq<char>,
    count: int,
)
    requires
        0 <= count <= list.len(),
        forall|j: int, k: int|
            #![trigger list[j], list[k]]
            0 <= j < k < list.len() ==> list[j] < list[k],
    ensures
        ({
            let found = references::named_among(candidates, list, name, count);
            &&& forall|k: int|
                0 <= k < found.len() ==> references::symbol_at(
                    candidates,
                    #[trigger] found[k],
                ).name == name && exists|l: int| 0 <= l < count && #[trigger] list[l] == found[k]
            &&& forall|j: int, k: int|
                #![trigger found[j], found[k]]
                0 <= j < k < found.len() ==> found[j] < found[k]
            &&& forall|l: int|
                0 <= l < count && references::symbol_at(candidates, #[trigger] list[l]).name == name
                    ==> found.contains(list[l])
        }),
    decreases count,
{
    if count > 0 {
        lemma_named_among(candidates, list, name, count - 1);
        let shorter = references::named_among(candidates, list, name, count - 1);
        let longer = references::named_among(candidates, list, name, count);
        assert forall|l: int|
            0 <= l < count && references::symbol_at(candidates, #[trigger] list[l]).name
                == name implies longer.contains(list[l]) by {
            if l == count - 1 {
                assert(longer[longer.len() - 1] == list[l]);
            } else {
                let k = choose|k: int| 0 <= k < shorter.len() && shorter[k] == list[l];
                assert(longer[k] == list[l]);
            }
        }
        assert forall|j: int, k: int|
            #![trigger longer[j], longer[k]]
            0 <= j < k < longer.len() implies longer[j] < longer[k] by {
            assert(longer[j] == shorter[j]);
            if k < shorter.len() {
                assert(longer[k] == shorter[k]);
            } else {
                let l = choose|l: int| 0 <= l < count - 1 && #[trigger] list[l] == shorter[j];
                assert(list[l] < list[count - 1]);
            }
        }
        assert forall|k: int| 0 <= k < longer.len() implies references::symbol_at(
            candidates,
            #[trigger] longer[k],
        ).name == name && exists|l: int| 0 <= l < count && #[trigger] list[l] == longer[k] by {
            if k < shorter.len() {
                assert(longer[k] == shorter[k]);
                let l = choose|l: int| 0 <= l < count - 1 && #[trigger] list[l] == shorter[k];
                assert(list[l] == longer[k]);
            } else {
                assert(list[count - 1] == longer[k]);
            }
        }
    }
}

proof fn lemma_symbols_named(context: Context, name: Seq<char>, s: int)
    ensures
        ({
            let found = references::symbols_named(context, name, s);
            &&& forall|j: int| #[trigger]
                is_symbol_in(context, j, name, s) <==> found.contains(j)
            &&& forall|j: int, k: int|
                #![trigger found[j], found[k]]
                0 <= j < k < found.len() ==> found[j] < found[k]
        }),
{
    let candidates = context.candidates;
    let at = rows::scope_row(context.scopes, s);
    let count = symbols::kept(candidates).len() as int;
    let list = references::symbols_in(candidates, at, count);
    let found = references::symbols_named(context, name, s);
    lemma_symbols_in(candidates, at, count);
    lemma_named_among(candidates, list, name, list.len() as int);
    assert forall|j: int| #[trigger]
        is_symbol_in(context, j, name, s) <==> found.contains(j) by {
        if is_symbol_in(context, j, name, s) {
            assert(references::symbol_at(candidates, j).scope == at);
            assert(list.contains(j));
            let l = choose|l: int| 0 <= l < list.len() && list[l] == j;
            assert(references::symbol_at(candidates, list[l]).name == name);
            assert(found.contains(list[l]));
        }
        if found.contains(j) {
            let k = choose|k: int| 0 <= k < found.len() && found[k] == j;
            assert(references::symbol_at(candidates, found[k]).name == name);
            let l = choose|l: int| 0 <= l < list.len() && #[trigger] list[l] == found[k];
            assert(references::symbol_at(candidates, list[l]).scope == at);
        }
    }
}

/// A name resolves to the one symbol of that name in the nearest scope around
/// it that has any. It is ambiguous exactly where that scope has several, and
/// unresolved exactly where no scope around has one.
pub proof fn law_names_resolve_to_one_symbol(context: Context, name: Seq<char>, s: int)
    requires
        scope::scopes_form_a_tree(context.scopes),
        0 <= s < context.scopes.len(),
    ensures
        match references::resolution_of(context, name, s) {
            (Some(j), resolution) => {
                &&& resolution == AnalysisResolution::Resolved
                &&& exists|h: int| #[trigger]
                    is_nearest_with(context, name, h, s) && is_symbol_in(context, j, name, h)
                        && forall|k: int| #[trigger]
                        is_symbol_in(context, k, name, h) ==> k == j
            },
            (None, resolution) => {
                ||| resolution == AnalysisResolution::Ambiguous && exists|h: int, j: int, k: int|
                    is_nearest_with(context, name, h, s) && j != k && #[trigger] is_symbol_in(
                        context,
                        j,
                        name,
                        h,
                    ) && #[trigger] is_symbol_in(context, k, name, h)
                ||| resolution == AnalysisResolution::Unresolved && forall|h: int, j: int|
                    0 <= h < context.scopes.len() && lies_around(context.scopes, h, s)
                        ==> !#[trigger] is_symbol_in(context, j, name, h)
            },
        },
    decreases s,
{
    let found = references::symbols_named(context, name, s);
    let scopes = context.scopes;
    lemma_symbols_named(context, name, s);
    assert(scope::scope_fits(scopes, s));
    if found.len() > 0 {
        assert(found.contains(found[0]));
        assert(is_symbol_in(context, found[0], name, s));
        assert forall|k: int, j: int|
            0 <= k < scopes.len() && k != s && lies_around(scopes, k, s) && lies_around(
                scopes,
                s,
                k,
            ) implies !#[trigger] is_symbol_in(context, j, name, k) by {
            scope::laws::lemma_around_is_earlier(scopes, k, s);
            scope::laws::lemma_around_is_earlier(scopes, s, k);
        }
        assert(is_nearest_with(context, name, s, s));
        if found.len() == 1 {
            assert forall|k: int| #[trigger] is_symbol_in(context, k, name, s) implies k
                == found[0] by {}
        } else {
            assert(found.contains(found[1]));
            assert(found[0] < found[1]);
            assert(is_symbol_in(context, found[1], name, s));
        }
    } else {
        assert forall|j: int| !#[trigger] is_symbol_in(context, j, name, s) by {
            if is_symbol_in(context, j, name, s) {
                assert(found.contains(j));
            }
        }
        if let Some(parent) = scopes[s].parent {
            law_names_resolve_to_one_symbol(context, name, parent);
            assert forall|h: int| #[trigger] is_nearest_with(context, name, h, parent) implies
                is_nearest_with(context, name, h, s) by {
                scope::laws::lemma_around_is_earlier(scopes, h, parent);
            }
        }
    }
}

/// Every name that the text refers to is recorded once, and nothing else is:
/// at its node, with its spelling, in the scope around it, with the role that
/// the syntax gives it and with what it resolves to. The references are in the
/// order of their symbols, starts, ends and roles.
pub proof fn law_references_are_those_of_the_text(tree: Seq<RowModel>, source: Seq<char>)
    requires
        syntax::lists_a_tree(tree),
    ensures
        ({
            let context = super::assemble::context_of(tree, source);
            let list = references::ordered_references(context);
            &&& forall|k: int|
                0 <= k < list.len() ==> {
                    let i = (#[trigger] list[k]).node;
                    let s = scope::declaration_laws::scope_around(tree, source, i);
                    &&& 0 <= i < tree.len()
                    &&& refers(tree, context.scopes, i)
                    &&& list[k].name == syntax::text_of(tree, source, i)
                    &&& list[k].scope == rows::scope_row(context.scopes, s)
                    &&& list[k].role == references::role_of(tree, i)
                    &&& (list[k].target, list[k].resolution) == references::resolution_of(
                        context,
                        list[k].name,
                        s,
                    )
                }
            &&& forall|j: int, k: int|
                #![trigger list[j], list[k]]
                0 <= j < k < list.len() ==> list[j].node != list[k].node
            &&& forall|i: int|
                0 <= i < tree.len() && #[trigger] refers(tree, context.scopes, i) ==> exists|k: int|
                    0 <= k < list.len() && (#[trigger] list[k]).node == i
        }),
{
    let context = super::assemble::context_of(tree, source);
    let pending = references::all_pending(context);
    let keys = references::pending_keys(tree, pending);
    let list = references::ordered_references(context);
    lemma_pending(context, tree.len() as int);
    order::lemma_rank_is_bijective(keys);
    assert(keys.len() == pending.len());
    assert forall|k: int| 0 <= k < list.len() implies {
        let i = (#[trigger] list[k]).node;
        let s = scope::declaration_laws::scope_around(tree, source, i);
        &&& 0 <= i < tree.len()
        &&& refers(tree, context.scopes, i)
        &&& list[k].name == syntax::text_of(tree, source, i)
        &&& list[k].scope == rows::scope_row(context.scopes, s)
        &&& list[k].role == references::role_of(tree, i)
        &&& (list[k].target, list[k].resolution) == references::resolution_of(
            context,
            list[k].name,
            s,
        )
    } by {
        let r = order::row_at(keys, k);
        assert(list[k] == pending[r]);
        lemma_refers(context, pending[r].node);
    }
    assert forall|j: int, k: int|
        #![trigger list[j], list[k]]
        0 <= j < k < list.len() implies list[j].node != list[k].node by {
        let a = order::row_at(keys, j);
        let b = order::row_at(keys, k);
        assert(list[j] == pending[a] && list[k] == pending[b]);
        assert(order::rank(keys, a) == j && order::rank(keys, b) == k);
        if a < b {
            assert(pending[a].node < pending[b].node);
        } else {
            assert(a != b);
            assert(pending[b].node < pending[a].node);
        }
    }
    assert forall|i: int|
        0 <= i < tree.len() && #[trigger] refers(tree, context.scopes, i) implies exists|k: int|
        0 <= k < list.len() && (#[trigger] list[k]).node == i by {
        lemma_refers(context, i);
        let r = choose|r: int| 0 <= r < pending.len() && (#[trigger] pending[r]).node == i;
        assert(0 <= order::rank(keys, r) < keys.len());
        assert(list[order::rank(keys, r)] == pending[r]);
    }
}

/// Whether a string row of an analysis holds a text.
pub open spec fn spells(a: Analysis, row: u32, text: Seq<char>) -> bool {
    row < a.strings@.len() && a.strings@[row as int]@ == text
}

proof fn lemma_spells(a: Analysis, table: Seq<Seq<char>>, row: u32, text: Seq<char>)
    requires
        crate::text::views(a.strings@) == table,
        super::interner::names(table, row, text),
    ensures
        spells(a, row, text),
{
    assert(crate::text::views(a.strings@)[row as int] == a.strings@[row as int]@);
}

/// The children of a row that come ahead of another row, counted.
pub open spec fn siblings_before(tree: Seq<RowModel>, parent: int, count: int) -> nat
    decreases count,
{
    if count <= 0 {
        0
    } else {
        siblings_before(tree, parent, count - 1) + if syntax::parent_of(tree, count - 1) == Some(
            parent,
        ) {
            1nat
        } else {
            0
        }
    }
}

proof fn lemma_siblings(tree: Seq<RowModel>, parent: int, count: int)
    ensures
        syntax::children_upto(tree, parent, count).len() == siblings_before(tree, parent, count),
    decreases count,
{
    if count > 0 {
        lemma_siblings(tree, parent, count - 1);
    }
}

/// The node rows of an analysis are the nodes of the tree, in order: each with
/// its parent, its place among the children of its parent, its kind, its range
/// and its flags.
pub proof fn law_node_rows_are_the_nodes(
    a: Analysis,
    tree: Seq<RowModel>,
    source: Seq<char>,
    i: int,
)
    requires
        super::assemble::is_analysis_of(a, tree, source),
        syntax::lists_a_tree(tree),
        tree.len() <= u32::MAX,
        0 <= i < tree.len(),
    ensures
        a.nodes@.len() == tree.len(),
        ({
            let node = a.nodes@[i];
            &&& match syntax::parent_of(tree, i) {
                Some(parent) => node.parent matches Some(row) && row == parent
                    && node.child_ordinal == siblings_before(tree, parent, i),
                None => node.parent is None && node.child_ordinal == 0,
            }
            &&& spells(a, node.kind, tree[i].kind)
            &&& node.start_byte == tree[i].start_byte
            &&& node.end_byte == tree[i].end_byte
            &&& node.flags < 16
            &&& node.flags % 2 == 1 <==> tree[i].named
            &&& (node.flags / 2) % 2 == 1 <==> tree[i].extra
            &&& (node.flags / 4) % 2 == 1 <==> tree[i].error
            &&& (node.flags / 8) % 2 == 1 <==> tree[i].missing
        }),
{
    let table = super::assemble::table_of(super::assemble::context_of(tree, source));
    assert(rows::node_is(a.nodes@[i], tree, table, i));
    lemma_spells(a, table, a.nodes@[i].kind, tree[i].kind);
    syntax::lemma_parent_is_earlier(tree, i, i - 1);
    if let Some(parent) = syntax::parent_of(tree, i) {
        lemma_siblings(tree, parent, i);
    }
}

/// The scope rows of an analysis are the scopes of the text: each at its own
/// row, with its kind, depth and range and the row of the scope around it, and
/// ordered by depth, then start, then end.
pub proof fn law_scope_rows_are_the_scopes(
    a: Analysis,
    tree: Seq<RowModel>,
    source: Seq<char>,
    s: int,
    t: int,
)
    requires
        super::assemble::is_analysis_of(a, tree, source),
        syntax::lists_a_tree(tree),
        ({
            let scopes = scope::laws::scopes_of(tree, source).scopes;
            0 <= s < scopes.len() && 0 <= t < scopes.len() && scopes.len() <= u32::MAX
        }),
    ensures
        ({
            let scopes = scope::laws::scopes_of(tree, source).scopes;
            let at = rows::scope_row(scopes, s);
            let row = a.scopes@[at];
            &&& a.scopes@.len() == scopes.len()
            &&& 0 <= at < scopes.len()
            &&& at == rows::scope_row(scopes, t) <==> s == t
            &&& scopes[s].scope_type == ScopeType::Global <==> row.kind
                == AnalysisScopeKind::Global
            &&& scopes[s].scope_type == ScopeType::Function <==> row.kind
                == AnalysisScopeKind::Function
            &&& scopes[s].scope_type == ScopeType::Block <==> row.kind == AnalysisScopeKind::Block
            &&& scopes[s].scope_type == ScopeType::Class <==> row.kind == AnalysisScopeKind::Class
            &&& row.depth == scopes[s].depth
            &&& row.start_byte == scopes[s].start_byte
            &&& row.end_byte == scopes[s].end_byte
            &&& scopes[s].parent is None <==> row.parent is None
            &&& scopes[s].parent == Some(t) ==> (row.parent matches Some(p) && p
                == rows::scope_row(scopes, t))
            &&& row.depth < a.scopes@[rows::scope_row(scopes, t)].depth ==> at < rows::scope_row(
                scopes,
                t,
            )
        }),
{
    let scopes = scope::laws::scopes_of(tree, source).scopes;
    let keys = rows::scope_keys_of(scopes);
    order::lemma_rank_is_bijective(keys);
    assert(keys.len() == scopes.len());
    assert(0 <= order::rank(keys, s) < keys.len());
    assert(0 <= order::rank(keys, t) < keys.len());
    assert(order::row_at(keys, order::rank(keys, s)) == s);
    assert(order::row_at(keys, order::rank(keys, t)) == t);
    assert(rows::scope_is(a.scopes@[rows::scope_row(scopes, s)], scopes, s));
    assert(rows::scope_is(a.scopes@[rows::scope_row(scopes, t)], scopes, t));
    let x = rows::scope_row(scopes, s);
    let y = rows::scope_row(scopes, t);
    if a.scopes@[x].depth < a.scopes@[y].depth && y < x {
        assert(order::comes_before(keys, order::row_at(keys, y), order::row_at(keys, x)));
        assert(keys[s] == rows::scope_key_of(scopes[s]));
        assert(keys[t] == rows::scope_key_of(scopes[t]));
    }
}

/// The reference rows of an analysis are the references of the text. The
/// resolution row of a reference tells which symbol it leads to, if any.
pub proof fn law_reference_rows_are_the_references(
    a: Analysis,
    tree: Seq<RowModel>,
    source: Seq<char>,
    k: int,
)
    requires
        super::assemble::is_analysis_of(a, tree, source),
        syntax::lists_a_tree(tree),
        0 <= k < references::ordered_references(
            super::assemble::context_of(tree, source),
        ).len(),
    ensures
        ({
            let context = super::assemble::context_of(tree, source);
            let list = references::ordered_references(context);
            let row = a.references@[k];
            &&& a.references@.len() == list.len()
            &&& a.def_uses@.len() == list.len()
            &&& row.node == list[k].node
            &&& row.scope == list[k].scope
            &&& row.role == references::role_of(tree, list[k].node)
            &&& spells(a, row.name, syntax::text_of(tree, source, list[k].node))
            &&& a.def_uses@[k].reference == k
            &&& a.def_uses@[k].resolution == list[k].resolution
            &&& list[k].target is None <==> a.def_uses@[k].symbol is None
            &&& list[k].target matches Some(j) ==> a.def_uses@[k].symbol == Some(j as u32)
        }),
{
    let context = super::assemble::context_of(tree, source);
    let table = super::assemble::table_of(context);
    let list = references::ordered_references(context);
    law_references_are_those_of_the_text(tree, source);
    assert(references::reference_is(a.references@[k], a.nodes@, table, list[k]));
    assert(references::def_use_is(a.def_uses@[k], a.references@, a.symbols@, list, k));
    lemma_spells(a, table, a.references@[k].name, list[k].name);
}

/// Whether a node is another one, or what the parentheses around it hold.
pub open spec fn is_in_parentheses(tree: Seq<RowModel>, outer: int, leaf: int) -> bool
    decreases leaf,
{
    leaf == outer || (syntax::parent_of(tree, leaf) matches Some(p) && 0 <= p < leaf && tree[p].kind
        == "parenthesized_expression"@ && is_first_named(tree, p, leaf) && is_in_parentheses(
        tree,
        outer,
        p,
    ))
}

/// Whether a node is the first named child of another.
pub open spec fn is_first_named(tree: Seq<RowModel>, parent: int, c: int) -> bool {
    &&& syntax::parent_of(tree, c) == Some(parent)
    &&& tree[c].named
    &&& forall|b: int|
        0 <= b < c && #[trigger] syntax::parent_of(tree, b) == Some(parent) ==> !tree[b].named
}

/// Whether a node is what all parentheses around hold.
pub open spec fn is_bare(tree: Seq<RowModel>, outer: int, leaf: int) -> bool {
    &&& is_in_parentheses(tree, outer, leaf)
    &&& tree[leaf].kind == "parenthesized_expression"@ ==> forall|c: int|
        0 <= c < tree.len() && #[trigger] syntax::parent_of(tree, c) == Some(leaf)
            ==> !tree[c].named
}

proof fn lemma_named_child(tree: Seq<RowModel>, parent: int, k: int)
    requires
        syntax::lists_a_tree(tree),
        0 <= parent < tree.len(),
        0 <= k,
        forall|m: int|
            0 <= m < k && m < syntax::children_of(tree, parent).len()
                ==> !tree[#[trigger] syntax::children_of(tree, parent)[m]].named,
    ensures
        match calls::named_child(tree, syntax::children_of(tree, parent), k) {
            Some(c) => 0 <= c < tree.len() && is_first_named(tree, parent, c),
            None => forall|c: int|
                0 <= c < tree.len() && #[trigger] syntax::parent_of(tree, c) == Some(parent)
                    ==> !tree[c].named,
        },
    decreases syntax::children_of(tree, parent).len() - k,
{
    let children = syntax::children_of(tree, parent);
    let n = tree.len() as int;
    syntax::lemma_children(tree, parent, n);
    if k < children.len() && !tree[children[k]].named {
        lemma_named_child(tree, parent, k + 1);
    } else if k < children.len() {
        let c = children[k];
        assert forall|b: int|
            0 <= b < c && #[trigger] syntax::parent_of(tree, b) == Some(parent) implies !tree[b].named by {
            syntax::lemma_is_child(tree, parent, b, n);
            let m = choose|m: int| 0 <= m < children.len() && children[m] == b;
            if m > k {
                lemma_children_rise(tree, parent, n, k, m);
            }
        }
    } else {
        assert forall|c: int|
            0 <= c < tree.len() && #[trigger] syntax::parent_of(tree, c) == Some(parent) implies !tree[c].named by {
            syntax::lemma_is_child(tree, parent, c, n);
            let m = choose|m: int| 0 <= m < children.len() && children[m] == c;
        }
    }
}

proof fn lemma_children_rise(tree: Seq<RowModel>, parent: int, count: int, j: int, k: int)
    requires
        0 <= j < k < syntax::children_upto(tree, parent, count).len(),
    ensures
        syntax::children_upto(tree, parent, count)[j] < syntax::children_upto(
            tree,
            parent,
            count,
        )[k],
    decreases count,
{
    let shorter = syntax::children_upto(tree, parent, count - 1);
    syntax::lemma_children(tree, parent, count - 1);
    if k < shorter.len() {
        lemma_children_rise(tree, parent, count - 1, j, k);
    } else {
        assert(shorter[j] < count - 1);
    }
}

proof fn lemma_unwrapped(tree: Seq<RowModel>, outer: int, i: int)
    requires
        syntax::lists_a_tree(tree),
        0 <= i < tree.len(),
        is_in_parentheses(tree, outer, i),
    ensures
        0 <= calls::unwrapped(tree, i) < tree.len(),
        is_bare(tree, outer, calls::unwrapped(tree, i)),
    decreases tree.len() - i,
{
    if tree[i].kind == "parenthesized_expression"@ {
        let children = syntax::children_of(tree, i);
        lemma_named_child(tree, i, 0);
        if let Some(c) = calls::named_child(tree, children, 0) {
            syntax::lemma_parent_is_earlier(tree, c, c - 1);
            lemma_unwrapped(tree, outer, c);
        }
    }
}

/// Whether a row is the reference at a node, or missing where there is none.
pub open spec fn is_reference_at(
    list: Seq<PendingModel>,
    node: int,
    row: Option<int>,
) -> bool {
    match row {
        Some(r) => 0 <= r < list.len() && list[r].node == node,
        None => forall|r: int| 0 <= r < list.len() ==> (#[trigger] list[r]).node != node,
    }
}

proof fn lemma_reference_upto(list: Seq<PendingModel>, node: int, count: int)
    requires
        0 <= count <= list.len(),
    ensures
        match calls::reference_upto(list, node, count) {
            Some(r) => 0 <= r < count && list[r].node == node,
            None => forall|r: int| 0 <= r < count ==> (#[trigger] list[r]).node != node,
        },
    decreases count,
{
    if count > 0 {
        lemma_reference_upto(list, node, count - 1);
    }
}

/// Whether a node is a name that can be called.
pub open spec fn is_name(tree: Seq<RowModel>, i: int) -> bool {
    tree[i].kind == "identifier"@ || tree[i].kind == "shorthand_property_identifier"@
}

/// Whether a call has a callee: a name that is called or constructed is its
/// callee and leads to its target, a member is called by its property, and of
/// anything else nothing is known.
pub open spec fn is_call_by(
    tree: Seq<RowModel>,
    source: Seq<char>,
    list: Seq<PendingModel>,
    leaf: int,
    call: CallModel,
) -> bool {
    let is_new = tree[call.node].kind == "new_expression"@;
    &&& is_name(tree, leaf) ==> {
        &&& call.kind == AnalysisCallKind::Construct <==> is_new
        &&& call.kind == AnalysisCallKind::Direct <==> !is_new
        &&& is_reference_at(list, leaf, call.callee)
        &&& call.callee matches Some(r) ==> call.target == list[r].target
        &&& call.callee is None ==> call.target is None
        &&& call.property is None
    }
    &&& !is_name(tree, leaf) && tree[leaf].kind == "member_expression"@ ==> {
        &&& call.kind == AnalysisCallKind::Member
        &&& call.target is None
        &&& match syntax::child_by_field(tree, leaf, "property"@) {
            Some(property) => call.property == Some(syntax::text_of(tree, source, property)),
            None => call.property is None,
        }
        &&& match syntax::child_by_field(tree, leaf, "object"@) {
            Some(object) => exists|o: int| #[trigger]
                is_bare(tree, object, o) && (is_name(tree, o) ==> is_reference_at(
                    list,
                    o,
                    call.callee,
                )) && (!is_name(tree, o) ==> call.callee is None),
            None => call.callee is None,
        }
    }
    &&& !is_name(tree, leaf) && tree[leaf].kind != "member_expression"@ ==> is_unknown(call)
}

/// Whether nothing is known of a call.
pub open spec fn is_unknown(call: CallModel) -> bool {
    call.kind == AnalysisCallKind::Dynamic && call.callee is None && call.target is None
        && call.property is None
}

/// What stands in the place of the callee.
pub open spec fn callee_at(tree: Seq<RowModel>, i: int) -> Option<int> {
    match syntax::child_by_field(tree, i, "function"@) {
        Some(function) => Some(function),
        None => syntax::child_by_field(tree, i, "constructor"@),
    }
}

/// Whether a call is that of a node: its callee is what stands in the place of
/// the callee, without the parentheses around.
pub open spec fn is_call_of(
    tree: Seq<RowModel>,
    source: Seq<char>,
    list: Seq<PendingModel>,
    i: int,
    call: CallModel,
) -> bool {
    &&& call.node == i
    &&& match callee_at(tree, i) {
        Some(outer) => exists|leaf: int| #[trigger]
            is_bare(tree, outer, leaf) && is_call_by(tree, source, list, leaf, call),
        None => is_unknown(call),
    }
}

proof fn lemma_call(
    tree: Seq<RowModel>,
    source: Seq<char>,
    list: Seq<PendingModel>,
    i: int,
)
    requires
        syntax::lists_a_tree(tree),
        0 <= i < tree.len(),
    ensures
        is_call_of(tree, source, list, i, calls::call_of(tree, source, list, i)),
{
    let call = calls::call_of(tree, source, list, i);
    let n = list.len() as int;
    syntax::law_fields_name_children(tree, i, "function"@);
    syntax::law_fields_name_children(tree, i, "constructor"@);
    if let Some(outer) = calls::callee_of(tree, i) {
        lemma_unwrapped(tree, outer, outer);
        let leaf = calls::unwrapped(tree, outer);
        lemma_reference_upto(list, leaf, n);
        syntax::law_fields_name_children(tree, leaf, "object"@);
        if let Some(object) = syntax::child_by_field(tree, leaf, "object"@) {
            lemma_unwrapped(tree, object, object);
            lemma_reference_upto(list, calls::unwrapped(tree, object), n);
            assert(is_bare(tree, object, calls::unwrapped(tree, object)));
        }
        assert(is_bare(tree, outer, leaf));
        assert(is_call_by(tree, source, list, leaf, call));
    }
}

proof fn lemma_calls(
    tree: Seq<RowModel>,
    source: Seq<char>,
    list: Seq<PendingModel>,
    count: int,
)
    requires
        0 <= count <= tree.len(),
    ensures
        ({
            let found = calls::calls_upto(tree, source, list, count);
            &&& forall|k: int|
                0 <= k < found.len() ==> 0 <= (#[trigger] found[k]).node < count && calls::is_call(
                    tree,
                    found[k].node,
                ) && found[k] == calls::call_of(tree, source, list, found[k].node)
            &&& forall|j: int, k: int|
                #![trigger found[j], found[k]]
                0 <= j < k < found.len() ==> found[j].node < found[k].node
            &&& forall|i: int|
                0 <= i < count && #[trigger] calls::is_call(tree, i) ==> exists|k: int|
                    0 <= k < found.len() && (#[trigger] found[k]).node == i
        }),
    decreases count,
{
    if count > 0 {
        lemma_calls(tree, source, list, count - 1);
        let shorter = calls::calls_upto(tree, source, list, count - 1);
        let longer = calls::calls_upto(tree, source, list, count);
        let last = calls::call_of(tree, source, list, count - 1);
        assert(last.node == count - 1);
        assert forall|i: int| 0 <= i < count && #[trigger] calls::is_call(tree, i) implies exists|
            k: int,
        |
            0 <= k < longer.len() && (#[trigger] longer[k]).node == i by {
            if i == count - 1 {
                assert(longer[longer.len() - 1].node == i);
            } else {
                let k = choose|k: int| 0 <= k < shorter.len() && (#[trigger] shorter[k]).node == i;
                assert(longer[k].node == i);
            }
        }
    }
}

/// Every call and every construction of the text is recorded once, and nothing
/// else is, each with the callee, target and property that its syntax shows.
pub proof fn law_call_rows_are_the_calls(a: Analysis, tree: Seq<RowModel>, source: Seq<char>)
    requires
        super::assemble::is_analysis_of(a, tree, source),
        syntax::lists_a_tree(tree),
    ensures
        ({
            let list = references::ordered_references(
                super::assemble::context_of(tree, source),
            );
            &&& forall|k: int|
                0 <= k < a.calls@.len() ==> {
                    let row = #[trigger] a.calls@[k];
                    &&& row.node < tree.len()
                    &&& tree[row.node as int].kind == "call_expression"@ || tree[row.node as int].kind
                        == "new_expression"@
                    &&& exists|call: CallModel| #[trigger]
                        is_call_of(tree, source, list, row.node as int, call) && row.kind
                            == call.kind && row.callee_reference == rows::optional_row(call.callee)
                            && row.target_symbol == rows::optional_row(call.target) && match call.property {
                            Some(property) => row.property matches Some(p) && spells(
                                a,
                                p,
                                property,
                            ),
                            None => row.property is None,
                        }
                }
            &&& forall|j: int, k: int|
                #![trigger a.calls@[j], a.calls@[k]]
                0 <= j < k < a.calls@.len() ==> a.calls@[j].node != a.calls@[k].node
            &&& forall|i: int|
                #![trigger tree[i]]
                0 <= i < tree.len() && (tree[i].kind == "call_expression"@ || tree[i].kind
                    == "new_expression"@) ==> exists|k: int|
                    0 <= k < a.calls@.len() && (#[trigger] a.calls@[k]).node == i
        }),
{
    let context = super::assemble::context_of(tree, source);
    let table = super::assemble::table_of(context);
    let list = references::ordered_references(context);
    let all = calls::all_calls(context);
    let keys = calls::call_keys(tree, all);
    let ordered = calls::ordered_calls(context);
    lemma_calls(tree, source, list, tree.len() as int);
    order::lemma_rank_is_bijective(keys);
    assert(keys.len() == all.len());
    assert forall|k: int| 0 <= k < a.calls@.len() implies {
        let row = #[trigger] a.calls@[k];
        &&& row.node < tree.len()
        &&& tree[row.node as int].kind == "call_expression"@ || tree[row.node as int].kind
            == "new_expression"@
        &&& exists|call: CallModel| #[trigger]
            is_call_of(tree, source, list, row.node as int, call) && row.kind == call.kind
                && row.callee_reference == rows::optional_row(call.callee) && row.target_symbol
                == rows::optional_row(call.target) && match call.property {
                Some(property) => row.property matches Some(p) && spells(a, p, property),
                None => row.property is None,
            }
    } by {
        let row = a.calls@[k];
        let call = ordered[k];
        let r = order::row_at(keys, k);
        assert(call == all[r]);
        assert(calls::call_is(row, a.nodes@, table, a.def_uses@, a.symbols@, call));
        lemma_call(tree, source, list, all[r].node);
        if let Some(property) = call.property {
            lemma_spells(a, table, row.property->0, property);
        }
        assert(is_call_of(tree, source, list, row.node as int, call));
    }
    assert forall|j: int, k: int|
        #![trigger a.calls@[j], a.calls@[k]]
        0 <= j < k < a.calls@.len() implies a.calls@[j].node != a.calls@[k].node by {
        let x = order::row_at(keys, j);
        let y = order::row_at(keys, k);
        assert(ordered[j] == all[x] && ordered[k] == all[y]);
        assert(order::rank(keys, x) == j && order::rank(keys, y) == k);
        assert(calls::call_is(a.calls@[j], a.nodes@, table, a.def_uses@, a.symbols@, ordered[j]));
        assert(calls::call_is(a.calls@[k], a.nodes@, table, a.def_uses@, a.symbols@, ordered[k]));
        assert(x != y);
        if x < y {
            assert(all[x].node < all[y].node);
        } else {
            assert(all[y].node < all[x].node);
        }
    }
    assert forall|i: int|
        #![trigger tree[i]]
        0 <= i < tree.len() && (tree[i].kind == "call_expression"@ || tree[i].kind
            == "new_expression"@) implies exists|k: int|
        0 <= k < a.calls@.len() && (#[trigger] a.calls@[k]).node == i by {
        assert(calls::is_call(tree, i));
        let r = choose|r: int| 0 <= r < all.len() && (#[trigger] all[r]).node == i;
        let k = order::rank(keys, r);
        assert(0 <= k < keys.len());
        assert(ordered[k] == all[r]);
        assert(calls::call_is(a.calls@[k], a.nodes@, table, a.def_uses@, a.symbols@, ordered[k]));
    }
}

proof fn lemma_kept(candidates: Seq<CandidateModel>, count: int)
    requires
        0 <= count <= candidates.len(),
    ensures
        ({
            let list = symbols::kept_upto(candidates, count);
            &&& forall|k: int|
                0 <= k < list.len() ==> 0 <= #[trigger] list[k] < count && symbols::is_kept(
                    candidates,
                    list[k],
                )
            &&& forall|j: int, k: int|
                #![trigger list[j], list[k]]
                0 <= j < k < list.len() ==> list[j] < list[k]
            &&& forall|m: int|
                0 <= m < count && #[trigger] symbols::is_kept(candidates, m) ==> list.contains(m)
        }),
    decreases count,
{
    if count > 0 {
        lemma_kept(candidates, count - 1);
        let shorter = symbols::kept_upto(candidates, count - 1);
        let longer = symbols::kept_upto(candidates, count);
        assert forall|m: int| 0 <= m < count && #[trigger] symbols::is_kept(candidates, m) implies
            longer.contains(m) by {
            if m == count - 1 {
                assert(longer[longer.len() - 1] == m);
            } else {
                let k = choose|k: int| 0 <= k < shorter.len() && shorter[k] == m;
                assert(longer[k] == m);
            }
        }
    }
}

proof fn lemma_first_is_kept(candidates: Seq<CandidateModel>, m: int) -> (first: int)
    requires
        0 <= m < candidates.len(),
    ensures
        0 <= first <= m,
        symbols::is_kept(candidates, first),
        candidates[first].scope == candidates[m].scope,
        candidates[first].name == candidates[m].name,
    decreases m,
{
    if symbols::is_bound_earlier(candidates, m) {
        let e = choose|e: int| 0 <= e < m && #[trigger] symbols::binds_same(candidates, m, e);
        lemma_first_is_kept(candidates, e)
    } else {
        m
    }
}

/// Every variable that a scope holds has a symbol of its name in that scope.
pub proof fn law_every_variable_has_a_symbol(
    tree: Seq<RowModel>,
    source: Seq<char>,
    s: int,
    k: int,
)
    requires
        0 <= s < scope::laws::scopes_of(tree, source).scopes.len(),
        0 <= k < scope::laws::scopes_of(tree, source).scopes[s].variables.len(),
    ensures
        ({
            let context = super::assemble::context_of(tree, source);
            exists|j: int| #[trigger]
                is_symbol_in(context, j, context.scopes[s].variables[k].name, s)
        }),
{
    let context = super::assemble::context_of(tree, source);
    let list = context.candidates;
    let c = symbols::candidate_of(tree, context.scopes, s, k);
    lemma_candidates(tree, context.scopes, c);
    assert(is_of_variable(tree, context.scopes, c, s, k));
    let m = choose|m: int| 0 <= m < list.len() && list[m] == c;
    let first = lemma_first_is_kept(list, m);
    lemma_kept(list, list.len() as int);
    let kept = symbols::kept(list);
    assert(kept.contains(first));
    let j = choose|j: int| 0 <= j < kept.len() && kept[j] == first;
    assert(is_symbol_in(context, j, context.scopes[s].variables[k].name, s));
}

/// Whether the declarations of a name in a scope are all of one binding: all
/// `var` or function, or all parameters.
pub open spec fn is_one_binding(
    candidates: Seq<CandidateModel>,
    at: int,
    name: Seq<char>,
) -> bool {
    ||| forall|m: int|
        0 <= m < candidates.len() && (#[trigger] candidates[m]).scope == at && candidates[m].name
            == name ==> candidates[m].kind == AnalysisSymbolKind::Var || candidates[m].kind
            == AnalysisSymbolKind::Function
    ||| forall|m: int|
        0 <= m < candidates.len() && (#[trigger] candidates[m]).scope == at && candidates[m].name
            == name ==> candidates[m].kind == AnalysisSymbolKind::Parameter
}

proof fn lemma_one_binding(candidates: Seq<CandidateModel>, k: int, m: int)
    requires
        0 <= k < candidates.len(),
        0 <= m < candidates.len(),
        k != m,
        candidates[k].scope == candidates[m].scope,
        candidates[k].name == candidates[m].name,
    ensures
        symbols::is_redeclared(candidates, k) == is_one_binding(
            candidates,
            candidates[k].scope,
            candidates[k].name,
        ),
{
    assert(symbols::binds_same(candidates, k, m));
    let at = candidates[k].scope;
    let name = candidates[k].name;
    assert forall|l: int| 0 <= l < candidates.len() implies #[trigger] symbols::binds_same(
        candidates,
        k,
        l,
    ) == (candidates[l].scope == at && candidates[l].name == name) by {}
    assert forall|l: int|
        0 <= l < candidates.len() && (#[trigger] candidates[l]).scope == at && candidates[l].name
            == name implies symbols::binds_same(candidates, k, l) by {}
}

/// Several declarations of one binding share one symbol, which stands for the
/// first of them and is a function where one of them is. Other declarations of
/// one name in one scope stay apart, each with its own kind.
pub proof fn law_redeclarations_share_a_symbol(
    a: Analysis,
    tree: Seq<RowModel>,
    source: Seq<char>,
    j: int,
    k: int,
)
    requires
        super::assemble::is_analysis_of(a, tree, source),
        0 <= j < a.symbols@.len(),
        0 <= k < a.symbols@.len(),
    ensures
        ({
            let context = super::assemble::context_of(tree, source);
            let candidates = context.candidates;
            let kept = symbols::kept(candidates);
            let first = kept[j];
            let own = candidates[first];
            let symbol = a.symbols@[j];
            let is_repeated = exists|m: int|
                0 <= m < candidates.len() && m != first && (#[trigger] candidates[m]).scope
                    == own.scope && candidates[m].name == own.name;
            let is_shared = is_repeated && is_one_binding(candidates, own.scope, own.name);
            let has_function = exists|m: int|
                0 <= m < candidates.len() && (#[trigger] candidates[m]).scope == own.scope
                    && candidates[m].name == own.name && candidates[m].kind
                    == AnalysisSymbolKind::Function;
            &&& 0 <= first < candidates.len()
            &&& symbol.declaration_node == own.node
            &&& symbol.scope == own.scope
            &&& spells(a, symbol.name, own.name)
            &&& is_shared && has_function ==> symbol.kind == AnalysisSymbolKind::Function
            &&& !is_shared || !has_function ==> symbol.kind == own.kind
            &&& is_shared ==> forall|m: int|
                0 <= m < candidates.len() && (#[trigger] candidates[m]).scope == own.scope
                    && candidates[m].name == own.name ==> first <= m
            &&& is_shared && j != k ==> candidates[kept[k]].scope != own.scope
                || candidates[kept[k]].name != own.name
        }),
{
    let context = super::assemble::context_of(tree, source);
    let table = super::assemble::table_of(context);
    let candidates = context.candidates;
    let kept = symbols::kept(candidates);
    lemma_kept(candidates, candidates.len() as int);
    let first = kept[j];
    let own = candidates[first];
    let other = kept[k];
    assert(symbols::symbol_is(a.symbols@[j], a.nodes@, table, candidates, first));
    lemma_spells(a, table, a.symbols@[j].name, own.name);
    let is_repeated = exists|m: int|
        0 <= m < candidates.len() && m != first && (#[trigger] candidates[m]).scope == own.scope
            && candidates[m].name == own.name;
    if is_repeated {
        let m = choose|m: int|
            0 <= m < candidates.len() && m != first && (#[trigger] candidates[m]).scope
                == own.scope && candidates[m].name == own.name;
        lemma_one_binding(candidates, first, m);
        if is_one_binding(candidates, own.scope, own.name) {
            assert forall|m: int|
                0 <= m < candidates.len() && (#[trigger] candidates[m]).scope == own.scope
                    && candidates[m].name == own.name implies first <= m by {
                if m < first {
                    assert(symbols::binds_same(candidates, first, m));
                }
            }
            if j != k && candidates[other].scope == own.scope && candidates[other].name
                == own.name {
                lemma_one_binding(candidates, other, first);
                assert(first <= other);
                assert(symbols::is_kept(candidates, kept[k]));
                if first < other {
                    assert(symbols::binds_same(candidates, other, first));
                } else {
                    assert(kept[j] == kept[k]);
                }
            }
        }
    } else {
        assert(!symbols::is_redeclared(candidates, first)) by {
            assert forall|m: int| 0 <= m < candidates.len() && m != first implies !#[trigger] symbols::binds_same(
                candidates,
                first,
                m,
            ) by {
                assert(candidates[m].scope == candidates[m].scope);
            }
        }
    }
    assert(symbols::is_bound_by_function(candidates, first) == (exists|m: int|
        0 <= m < candidates.len() && (#[trigger] candidates[m]).scope == own.scope
            && candidates[m].name == own.name && candidates[m].kind
            == AnalysisSymbolKind::Function)) by {
        if exists|m: int|
            0 <= m < candidates.len() && (#[trigger] candidates[m]).scope == own.scope
                && candidates[m].name == own.name && candidates[m].kind
                == AnalysisSymbolKind::Function {
            let m = choose|m: int|
                0 <= m < candidates.len() && (#[trigger] candidates[m]).scope == own.scope
                    && candidates[m].name == own.name && candidates[m].kind
                    == AnalysisSymbolKind::Function;
            assert(symbols::binds_same(candidates, first, m));
        }
        if symbols::is_bound_by_function(candidates, first) {
            let m = choose|m: int|
                0 <= m < candidates.len() && #[trigger] symbols::binds_same(candidates, first, m)
                    && candidates[m].kind == AnalysisSymbolKind::Function;
            assert(candidates[m].scope == own.scope);
        }
    }
}

} // verus!
