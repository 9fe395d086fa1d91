//! Which identifiers refer to a variable, and to which.

use vstd::prelude::*;

use super::ResolvedModel;
use crate::syntax;
use crate::syntax::RowModel;

use super::declaration_laws::scope_around;
use super::laws;
use super::laws::{declares_name, lies_around, scopes_of};

verus! {

/// Whether a specifier of an export belongs to a statement with a source.
pub open spec fn exports_from_elsewhere(rows: Seq<RowModel>, specifier: int) -> bool {
    syntax::parent_of(rows, specifier) matches Some(clause) && (syntax::parent_of(rows, clause)
        matches Some(statement) && rows[statement].kind == "export_statement"@
        && syntax::child_by_field(rows, statement, "source"@) is Some)
}

/// Whether a node names a variable of the text: an identifier, or a property
/// that is its own name, but not what another module calls something.
pub open spec fn names_a_variable(rows: Seq<RowModel>, i: int) -> bool {
    let kind = rows[i].kind;
    &&& kind == "identifier"@ || kind == "shorthand_property_identifier"@ || kind
        == "shorthand_property_identifier_pattern"@
    &&& syntax::parent_of(rows, i) matches Some(parent) ==> {
        let alias = syntax::child_by_field(rows, parent, "alias"@);
        &&& rows[parent].kind != "namespace_export"@
        &&& rows[parent].kind == "import_specifier"@ && alias is Some ==> alias == Some(i)
        &&& rows[parent].kind == "import_specifier"@ && alias is None ==> syntax::child_by_field(
            rows,
            parent,
            "name"@,
        ) == Some(i)
        &&& rows[parent].kind == "export_specifier"@ ==> rows[i].field != Some("alias"@)
            && !exports_from_elsewhere(rows, parent)
    }
}

/// The scope in which a name stands: the name of a function or class
/// declaration outside of the declaration, every other one where its parent
/// leads to.
pub open spec fn standing_scope(rows: Seq<RowModel>, source: Seq<char>, i: int) -> int {
    match syntax::parent_of(rows, i) {
        None => 0,
        Some(parent) => if rows[i].field == Some("name"@) && (rows[parent].kind
            == "function_declaration"@ || rows[parent].kind == "class_declaration"@) {
            scope_around(rows, source, parent)
        } else {
            scopes_of(rows, source).inner[parent]
        },
    }
}

/// Whether a scope around a name declares it, and none nearer does.
pub open spec fn is_nearest_owner(
    rows: Seq<RowModel>,
    source: Seq<char>,
    i: int,
    owner: int,
) -> bool {
    let scopes = scopes_of(rows, source).scopes;
    let name = syntax::text_of(rows, source, i);
    let s = standing_scope(rows, source, i);
    &&& 0 <= owner < scopes.len()
    &&& lies_around(scopes, owner, s)
    &&& declares_name(scopes[owner], name)
    &&& forall|k: int|
        #![trigger scopes[k]]
        0 <= k < scopes.len() && k != owner && lies_around(scopes, k, s) && lies_around(
            scopes,
            owner,
            k,
        ) ==> !declares_name(scopes[k], name)
}

/// Whether an outcome is the variable that a node refers to.
pub open spec fn refers_to(
    rows: Seq<RowModel>,
    source: Seq<char>,
    i: int,
    r: ResolvedModel,
) -> bool {
    let scopes = scopes_of(rows, source).scopes;
    let name = syntax::text_of(rows, source, i);
    let variables = scopes[r.scope_id].variables;
    &&& r.node == i
    &&& is_nearest_owner(rows, source, i, r.scope_id)
    &&& exists|k: int|
        0 <= k < variables.len() && (#[trigger] variables[k]).name == name && variables[k].byte
            == r.declaration_byte && forall|j: int|
            0 <= j < k ==> (#[trigger] variables[j]).name != name
}

pub(crate) proof fn lemma_names_a_variable(rows: Seq<RowModel>, i: int)
    ensures
        names_a_variable(rows, i) == (super::bindings::is_identifier_kind(rows[i].kind)
            && super::is_lexical(rows, i)),
{
    if let Some(parent) = syntax::parent_of(rows, i) {
        lemma_words_differ(rows[parent].kind);
    }
}

proof fn lemma_node_refers(rows: Seq<RowModel>, source: Seq<char>, i: int)
    requires
        syntax::lists_a_tree(rows),
        0 <= i < rows.len(),
    ensures
        ({
            let list = super::resolved_node(rows, source, scopes_of(rows, source), i);
            &&& list.len() <= 1
            &&& list.len() == 1 ==> names_a_variable(rows, i) && refers_to(
                rows,
                source,
                i,
                list[0],
            )
            &&& names_a_variable(rows, i) && (exists|owner: int|
                #[trigger] is_nearest_owner(rows, source, i, owner)) ==> list.len() == 1
        }),
{
    let model = scopes_of(rows, source);
    let name = syntax::text_of(rows, source, i);
    laws::lemma_scopes_are_good(rows, source);
    syntax::law_rows_form_a_tree(rows, i, i);
    syntax::lemma_parent_is_earlier(rows, i, i - 1);
    if let Some(parent) = syntax::parent_of(rows, i) {
        syntax::lemma_parent_is_earlier(rows, parent, parent - 1);
    }
    let s = standing_scope(rows, source, i);
    assert(s == super::lookup_scope(rows, model.inner, i));
    lemma_names_a_variable(rows, i);
    laws::law_names_resolve_to_the_nearest_scope(model.scopes, name, s);
    match super::resolved(model.scopes, name, s) {
        Some((owner, position)) => {
            let variables = model.scopes[owner].variables;
            assert(variables[position].name == name);
            assert(is_nearest_owner(rows, source, i, owner));
        },
        None => {},
    }
}

proof fn lemma_words_differ(kind: Seq<char>)
    ensures
        kind == "import_specifier"@ ==> kind != "export_specifier"@ && kind
            != "namespace_export"@,
        kind == "export_specifier"@ ==> kind != "namespace_export"@,
{
    reveal_strlit("import_specifier");
    reveal_strlit("export_specifier");
    reveal_strlit("namespace_export");
    assert("import_specifier"@[0] == 'i');
    assert("export_specifier"@[0] == 'e');
    assert("namespace_export"@[0] == 'n');
}

proof fn lemma_from(rows: Seq<RowModel>, source: Seq<char>, from: int)
    requires
        syntax::lists_a_tree(rows),
        0 <= from <= rows.len(),
    ensures
        ({
            let list = super::resolved_from(rows, source, scopes_of(rows, source), from);
            &&& forall|k: int|
                0 <= k < list.len() ==> from <= (#[trigger] list[k]).node < rows.len()
                    && names_a_variable(rows, list[k].node) && refers_to(
                    rows,
                    source,
                    list[k].node,
                    list[k],
                )
            &&& forall|j: int, k: int|
                #![trigger list[j], list[k]]
                0 <= j < k < list.len() ==> list[j].node < list[k].node
            &&& forall|i: int|
                from <= i < rows.len() && #[trigger] names_a_variable(rows, i) && (exists|owner: int|
                    #[trigger] is_nearest_owner(rows, source, i, owner)) ==> exists|k: int|
                    0 <= k < list.len() && (#[trigger] list[k]).node == i
        }),
    decreases rows.len() - from,
{
    let model = scopes_of(rows, source);
    if from < rows.len() {
        let first = super::resolved_node(rows, source, model, from);
        let rest = super::resolved_from(rows, source, model, from + 1);
        let list = super::resolved_from(rows, source, model, from);
        lemma_node_refers(rows, source, from);
        lemma_from(rows, source, from + 1);
        assert(list == first + rest);
        assert forall|k: int| 0 <= k < list.len() implies from <= (#[trigger] list[k]).node
            < rows.len() && names_a_variable(rows, list[k].node) && refers_to(
            rows,
            source,
            list[k].node,
            list[k],
        ) by {
            if k >= first.len() {
                assert(list[k] == rest[k - first.len()]);
            }
        }
        assert forall|j: int, k: int|
            #![trigger list[j], list[k]]
            0 <= j < k < list.len() implies list[j].node < list[k].node by {
            assert(list[k] == rest[k - first.len()]);
            if j >= first.len() {
                assert(list[j] == rest[j - first.len()]);
            }
        }
        assert forall|i: int|
            from <= i < rows.len() && #[trigger] names_a_variable(rows, i) && (exists|owner: int|
                #[trigger] is_nearest_owner(rows, source, i, owner)) implies exists|k: int|
            0 <= k < list.len() && (#[trigger] list[k]).node == i by {
            if i == from {
                assert(list[0] == first[0]);
            } else {
                let k = choose|k: int| 0 <= k < rest.len() && (#[trigger] rest[k]).node == i;
                assert(list[k + first.len()] == rest[k]);
            }
        }
    }
}

/// The identifiers that resolve are, in the order of the text and each once,
/// exactly those that name a variable which some scope around them declares.
/// Each refers to the first variable of its name in the nearest such scope.
pub proof fn law_identifiers_refer_to_the_nearest_variable(
    rows: Seq<RowModel>,
    source: Seq<char>,
)
    requires
        syntax::lists_a_tree(rows),
    ensures
        ({
            let list = super::resolved_from(rows, source, scopes_of(rows, source), 0);
            &&& forall|k: int|
                0 <= k < list.len() ==> 0 <= (#[trigger] list[k]).node < rows.len()
                    && names_a_variable(rows, list[k].node) && refers_to(
                    rows,
                    source,
                    list[k].node,
                    list[k],
                )
            &&& forall|j: int, k: int|
                #![trigger list[j], list[k]]
                0 <= j < k < list.len() ==> list[j].node < list[k].node
            &&& forall|i: int|
                0 <= i < rows.len() && #[trigger] names_a_variable(rows, i) && (exists|owner: int|
                    #[trigger] is_nearest_owner(rows, source, i, owner)) ==> exists|k: int|
                    0 <= k < list.len() && (#[trigger] list[k]).node == i
        }),
{
    lemma_from(rows, source, 0);
}

} // verus!
