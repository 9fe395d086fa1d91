//! What each kind of node declares, and which scope it opens.

use vstd::prelude::*;

use super::bindings::Binding;
use super::{ScopeType, VariableKind};
use crate::syntax;
use crate::syntax::RowModel;

use super::laws::{holds, is_function_or_global, is_home, is_of_node, scopes_of};
use super::pattern_laws::is_bound_by;
use super::{bindings, laws, pattern_laws};

verus! {

/// Whether an identifier is a name, or a part of a pattern, that a declarator
/// of a declaration has on its left.
pub open spec fn is_declarator_name(rows: Seq<RowModel>, i: int, x: int) -> bool {
    exists|c: int|
        0 <= c < rows.len() && #[trigger] syntax::parent_of(rows, c) == Some(i) && rows[c].kind
            == "variable_declarator"@ && (syntax::child_by_field(rows, c, "name"@) matches Some(n)
            && ((rows[n].kind == "identifier"@ && x == n) || ((rows[n].kind == "object_pattern"@
            || rows[n].kind == "array_pattern"@) && is_bound_by(rows, x, n))))
}

/// Whether an identifier is a local name of an import statement: a default
/// name, a namespace, or the alias of a specifier or else its name.
pub open spec fn is_import_name(rows: Seq<RowModel>, i: int, x: int) -> bool {
    exists|clause: int, part: int|
        #![trigger syntax::parent_of(rows, clause), syntax::parent_of(rows, part)]
        0 <= clause < rows.len() && 0 <= part < rows.len() && syntax::parent_of(rows, clause)
            == Some(i) && rows[clause].kind == "import_clause"@ && syntax::parent_of(rows, part)
            == Some(clause) && is_import_part_name(rows, part, x)
}

/// Whether an identifier is a local name of one part of an import clause.
pub open spec fn is_import_part_name(rows: Seq<RowModel>, part: int, x: int) -> bool {
    if rows[part].kind == "identifier"@ {
        x == part
    } else if rows[part].kind == "namespace_import"@ {
        syntax::children_of(rows, part).len() > 2 && x == syntax::children_of(rows, part)[2]
            && rows[x].kind == "identifier"@
    } else {
        rows[part].kind == "named_imports"@ && exists|specifier: int|
            0 <= specifier < rows.len() && #[trigger] syntax::parent_of(rows, specifier) == Some(
                part,
            ) && rows[specifier].kind == "import_specifier"@ && (if syntax::child_by_field(
                rows,
                specifier,
                "alias"@,
            ) is Some {
                syntax::child_by_field(rows, specifier, "alias"@) == Some(x)
            } else {
                syntax::child_by_field(rows, specifier, "name"@) == Some(x)
            })
    }
}

/// Whether an identifier is bound by a parameter in the list of a function.
pub open spec fn is_listed_parameter(rows: Seq<RowModel>, i: int, x: int) -> bool {
    syntax::child_by_field(rows, i, "parameters"@) matches Some(list) && exists|c: int|
        0 <= c < rows.len() && #[trigger] syntax::parent_of(rows, c) == Some(list) && is_bound_by(
            rows,
            x,
            c,
        )
}

/// Whether an identifier is a parameter that stands alone.
pub open spec fn is_lone_parameter(rows: Seq<RowModel>, i: int, x: int) -> bool {
    syntax::child_by_field(rows, i, "parameter"@) == Some(x) && rows[x].kind == "identifier"@
}

/// Whether a declaration starts with `const`.
pub open spec fn starts_with_const(rows: Seq<RowModel>, source: Seq<char>, i: int) -> bool {
    syntax::children_of(rows, i).len() > 0 && syntax::text_of(
        rows,
        source,
        syntax::children_of(rows, i)[0],
    ) == "const"@
}

/// Whether node `i` declares an identifier in the scope around it.
pub open spec fn declares_around(
    rows: Seq<RowModel>,
    source: Seq<char>,
    i: int,
    x: int,
    kind: VariableKind,
) -> bool {
    let own = rows[i].kind;
    ||| own == "variable_declaration"@ && kind == VariableKind::Var && is_declarator_name(rows, i, x)
    ||| own == "lexical_declaration"@ && is_declarator_name(rows, i, x) && kind == (
    if starts_with_const(rows, source, i) {
        VariableKind::Const
    } else {
        VariableKind::Let
    })
    ||| own == "function_declaration"@ && kind == VariableKind::FunctionDeclaration
        && syntax::child_by_field(rows, i, "name"@) == Some(x)
    ||| own == "class_declaration"@ && kind == VariableKind::ClassDeclaration
        && syntax::child_by_field(rows, i, "name"@) == Some(x)
    ||| own == "import_statement"@ && kind == VariableKind::Const && is_import_name(rows, i, x)
}

/// Whether node `i` declares an identifier in the scope that it opens.
pub open spec fn declares_inside(
    rows: Seq<RowModel>,
    source: Seq<char>,
    i: int,
    x: int,
    kind: VariableKind,
) -> bool {
    let own = rows[i].kind;
    ||| (own == "function_declaration"@ || own == "method_definition"@ || own
        == "function_expression"@ || own == "arrow_function"@) && kind == VariableKind::Parameter
        && is_listed_parameter(rows, i, x)
    ||| own == "function_expression"@ && kind == VariableKind::FunctionDeclaration
        && syntax::child_by_field(rows, i, "name"@) == Some(x)
    ||| own == "arrow_function"@ && kind == VariableKind::Parameter && syntax::child_by_field(
        rows,
        i,
        "parameters"@,
    ) is None && is_lone_parameter(rows, i, x)
    ||| own == "catch_clause"@ && kind == VariableKind::Parameter && is_lone_parameter(rows, i, x)
    ||| (own == "for_in_statement"@ || own == "for_of_statement"@) && (syntax::child_by_field(
        rows,
        i,
        "kind"@,
    ) matches Some(word) && (syntax::child_by_field(rows, i, "left"@) matches Some(left)
        && is_bound_by(rows, x, left) && kind == (if syntax::text_of(rows, source, word)
        == "const"@ {
        VariableKind::Const
    } else if syntax::text_of(rows, source, word) == "let"@ {
        VariableKind::Let
    } else {
        VariableKind::Var
    })))
}

/// Whether a list has a declaration of an identifier.
spec fn lists(list: Seq<Binding>, x: int, kind: VariableKind) -> bool {
    exists|j: int|
        0 <= j < list.len() && (#[trigger] list[j]).node == x && list[j].kind == kind
}

proof fn lemma_lists_either(a: Seq<Binding>, b: Seq<Binding>, x: int, kind: VariableKind)
    ensures
        lists(a + b, x, kind) <==> lists(a, x, kind) || lists(b, x, kind),
{
    let all = a + b;
    if lists(all, x, kind) {
        let j = choose|j: int|
            0 <= j < all.len() && (#[trigger] all[j]).node == x && all[j].kind == kind;
        if j < a.len() {
            assert(a[j].node == x);
        } else {
            assert(b[j - a.len()].node == x);
        }
    }
    if lists(a, x, kind) {
        let j = choose|j: int| 0 <= j < a.len() && (#[trigger] a[j]).node == x && a[j].kind == kind;
        assert(all[j].node == x);
    }
    if lists(b, x, kind) {
        let j = choose|j: int| 0 <= j < b.len() && (#[trigger] b[j]).node == x && b[j].kind == kind;
        assert(all[a.len() + j].node == x);
    }
}

proof fn lemma_lists_for(
    nodes: Seq<int>,
    own: VariableKind,
    hoisted: bool,
    x: int,
    kind: VariableKind,
)
    ensures
        lists(bindings::bindings_for(nodes, own, hoisted), x, kind) <==> nodes.contains(x) && kind
            == own,
{
    let list = bindings::bindings_for(nodes, own, hoisted);
    if lists(list, x, kind) {
        let j = choose|j: int|
            0 <= j < list.len() && (#[trigger] list[j]).node == x && list[j].kind == kind;
        assert(nodes[j] == x);
    }
    if nodes.contains(x) && kind == own {
        let j = choose|j: int| 0 <= j < nodes.len() && nodes[j] == x;
        assert(list[j].node == x);
    }
}

proof fn lemma_single(node: int, x: int)
    ensures
        seq![node].contains(x) <==> x == node,
{
    assert(seq![node][0] == node);
}

/// Whether a declarator names an identifier.
spec fn names(rows: Seq<RowModel>, c: int, x: int) -> bool {
    rows[c].kind == "variable_declarator"@ && (syntax::child_by_field(rows, c, "name"@) matches Some(
        n,
    ) && ((rows[n].kind == "identifier"@ && x == n) || ((rows[n].kind == "object_pattern"@
        || rows[n].kind == "array_pattern"@) && is_bound_by(rows, x, n))))
}

proof fn lemma_declared_by(
    rows: Seq<RowModel>,
    i: int,
    own: VariableKind,
    k: int,
    x: int,
    kind: VariableKind,
)
    requires
        syntax::lists_a_tree(rows),
        0 <= i < rows.len(),
        0 <= x < rows.len(),
        0 <= k <= syntax::children_of(rows, i).len(),
    ensures
        lists(bindings::declared_by(rows, i, own, k), x, kind) <==> kind == own && exists|m: int|
            k <= m < syntax::children_of(rows, i).len() && names(
                rows,
                #[trigger] syntax::children_of(rows, i)[m],
                x,
            ),
    decreases syntax::children_of(rows, i).len() - k,
{
    let children = syntax::children_of(rows, i);
    if k < children.len() {
        let c = children[k];
        lemma_declared_by(rows, i, own, k + 1, x, kind);
        syntax::lemma_children(rows, i, rows.len() as int);
        syntax::law_fields_name_children(rows, c, "name"@);
        let rest = bindings::declared_by(rows, i, own, k + 1);
        let first = if rows[c].kind == "variable_declarator"@ {
            match syntax::child_by_field(rows, c, "name"@) {
                Some(name) => bindings::declarator_bindings(rows, name, own),
                None => Seq::empty(),
            }
        } else {
            Seq::empty()
        };
        lemma_lists_either(first, rest, x, kind);
        assert(lists(first, x, kind) <==> kind == own && names(rows, c, x)) by {
            if rows[c].kind == "variable_declarator"@ {
                if let Some(n) = syntax::child_by_field(rows, c, "name"@) {
                    pattern_laws::law_patterns_bind_their_identifiers(rows, n, x);
                    pattern_laws::lemma_names_are_told_apart();
                    lemma_single(n, x);
                    lemma_lists_for(seq![n], own, own == VariableKind::Var, x, kind);
                    lemma_lists_for(bindings::bound_in(rows, n), own, false, x, kind);
                }
            }
        }
        if exists|m: int| k <= m < children.len() && names(rows, #[trigger] children[m], x) {
            let m = choose|m: int| k <= m < children.len() && names(rows, #[trigger] children[m], x);
            if m > k {
                assert(names(rows, children[m], x));
            }
        }
        if lists(rest, x, kind) {
            let m = choose|m: int|
                k + 1 <= m < children.len() && names(rows, #[trigger] children[m], x);
            assert(names(rows, children[m], x));
        }
        if lists(first, x, kind) {
            assert(names(rows, children[k], x));
        }
    }
}

proof fn lemma_declarators(
    rows: Seq<RowModel>,
    i: int,
    own: VariableKind,
    x: int,
    kind: VariableKind,
)
    requires
        syntax::lists_a_tree(rows),
        0 <= i < rows.len(),
        0 <= x < rows.len(),
    ensures
        lists(bindings::declared_by(rows, i, own, 0), x, kind) <==> kind == own
            && is_declarator_name(rows, i, x),
{
    let children = syntax::children_of(rows, i);
    lemma_declared_by(rows, i, own, 0, x, kind);
    syntax::lemma_children(rows, i, rows.len() as int);
    if exists|m: int| 0 <= m < children.len() && names(rows, #[trigger] children[m], x) {
        let m = choose|m: int| 0 <= m < children.len() && names(rows, #[trigger] children[m], x);
        assert(syntax::parent_of(rows, children[m]) == Some(i));
    }
    if is_declarator_name(rows, i, x) {
        let c = choose|c: int|
            0 <= c < rows.len() && #[trigger] syntax::parent_of(rows, c) == Some(i) && names(
                rows,
                c,
                x,
            );
        syntax::lemma_is_child(rows, i, c, rows.len() as int);
        let m = choose|m: int| 0 <= m < children.len() && children[m] == c;
        assert(names(rows, children[m], x));
    }
}

spec fn specifier_has(rows: Seq<RowModel>, specifier: int, x: int) -> bool {
    rows[specifier].kind == "import_specifier"@ && bindings::local_name(rows, specifier) == Some(x)
}

proof fn lemma_specifiers(rows: Seq<RowModel>, i: int, k: int, x: int)
    requires
        0 <= k <= syntax::children_of(rows, i).len(),
    ensures
        bindings::specifier_names(rows, i, k).contains(x) <==> exists|m: int|
            k <= m < syntax::children_of(rows, i).len() && specifier_has(
                rows,
                #[trigger] syntax::children_of(rows, i)[m],
                x,
            ),
    decreases syntax::children_of(rows, i).len() - k,
{
    let children = syntax::children_of(rows, i);
    if k < children.len() {
        lemma_specifiers(rows, i, k + 1, x);
        let rest = bindings::specifier_names(rows, i, k + 1);
        let first = if rows[children[k]].kind == "import_specifier"@ {
            match bindings::local_name(rows, children[k]) {
                Some(name) => seq![name],
                None => Seq::empty(),
            }
        } else {
            Seq::empty()
        };
        pattern_laws::lemma_in_either(first, rest, x);
        if let Some(name) = bindings::local_name(rows, children[k]) {
            lemma_single(name, x);
        }
        assert(first.contains(x) <==> specifier_has(rows, children[k], x));
        if rest.contains(x) {
            let m = choose|m: int|
                k + 1 <= m < children.len() && specifier_has(rows, #[trigger] children[m], x);
            assert(specifier_has(rows, children[m], x));
        }
    }
}

proof fn lemma_part(rows: Seq<RowModel>, part: int, x: int)
    requires
        syntax::lists_a_tree(rows),
        0 <= part < rows.len(),
    ensures
        bindings::clause_child_names(rows, part).contains(x) <==> is_import_part_name(
            rows,
            part,
            x,
        ),
{
    let children = syntax::children_of(rows, part);
    lemma_single(part, x);
    if children.len() > 2 {
        lemma_single(children[2], x);
    }
    lemma_specifiers(rows, part, 0, x);
    syntax::lemma_children(rows, part, rows.len() as int);
    if exists|m: int| 0 <= m < children.len() && specifier_has(rows, #[trigger] children[m], x) {
        let m = choose|m: int|
            0 <= m < children.len() && specifier_has(rows, #[trigger] children[m], x);
        assert(syntax::parent_of(rows, children[m]) == Some(part));
    }
    if is_import_part_name(rows, part, x) && rows[part].kind != "identifier"@ && rows[part].kind
        != "namespace_import"@ {
        let specifier = choose|specifier: int|
            0 <= specifier < rows.len() && #[trigger] syntax::parent_of(rows, specifier) == Some(
                part,
            ) && specifier_has(rows, specifier, x);
        syntax::lemma_is_child(rows, part, specifier, rows.len() as int);
        let m = choose|m: int| 0 <= m < children.len() && children[m] == specifier;
        assert(specifier_has(rows, children[m], x));
    }
}

proof fn lemma_clause(rows: Seq<RowModel>, i: int, k: int, x: int)
    requires
        syntax::lists_a_tree(rows),
        0 <= i < rows.len(),
        0 <= k <= syntax::children_of(rows, i).len(),
    ensures
        bindings::clause_names(rows, i, k).contains(x) <==> exists|m: int|
            k <= m < syntax::children_of(rows, i).len() && is_import_part_name(
                rows,
                #[trigger] syntax::children_of(rows, i)[m],
                x,
            ),
    decreases syntax::children_of(rows, i).len() - k,
{
    let children = syntax::children_of(rows, i);
    if k < children.len() {
        lemma_clause(rows, i, k + 1, x);
        syntax::lemma_children(rows, i, rows.len() as int);
        lemma_part(rows, children[k], x);
        let rest = bindings::clause_names(rows, i, k + 1);
        let first = bindings::clause_child_names(rows, children[k]);
        pattern_laws::lemma_in_either(first, rest, x);
        if rest.contains(x) {
            let m = choose|m: int|
                k + 1 <= m < children.len() && is_import_part_name(rows, #[trigger] children[m], x);
            assert(is_import_part_name(rows, children[m], x));
        }
    }
}

spec fn clause_has(rows: Seq<RowModel>, clause: int, x: int) -> bool {
    rows[clause].kind == "import_clause"@ && exists|part: int|
        0 <= part < rows.len() && #[trigger] syntax::parent_of(rows, part) == Some(clause)
            && is_import_part_name(rows, part, x)
}

proof fn lemma_imports(rows: Seq<RowModel>, i: int, k: int, x: int)
    requires
        syntax::lists_a_tree(rows),
        0 <= i < rows.len(),
        0 <= k <= syntax::children_of(rows, i).len(),
    ensures
        bindings::import_names(rows, i, k).contains(x) <==> exists|m: int|
            k <= m < syntax::children_of(rows, i).len() && clause_has(
                rows,
                #[trigger] syntax::children_of(rows, i)[m],
                x,
            ),
    decreases syntax::children_of(rows, i).len() - k,
{
    let children = syntax::children_of(rows, i);
    if k < children.len() {
        let clause = children[k];
        lemma_imports(rows, i, k + 1, x);
        syntax::lemma_children(rows, i, rows.len() as int);
        syntax::lemma_children(rows, clause, rows.len() as int);
        lemma_clause(rows, clause, 0, x);
        let parts = syntax::children_of(rows, clause);
        let rest = bindings::import_names(rows, i, k + 1);
        let first = if rows[clause].kind == "import_clause"@ {
            bindings::clause_names(rows, clause, 0)
        } else {
            Seq::empty()
        };
        pattern_laws::lemma_in_either(first, rest, x);
        if first.contains(x) {
            let m = choose|m: int|
                0 <= m < parts.len() && is_import_part_name(rows, #[trigger] parts[m], x);
            assert(syntax::parent_of(rows, parts[m]) == Some(clause));
            assert(clause_has(rows, children[k], x));
        }
        if clause_has(rows, clause, x) {
            let part = choose|part: int|
                0 <= part < rows.len() && #[trigger] syntax::parent_of(rows, part) == Some(clause)
                    && is_import_part_name(rows, part, x);
            syntax::lemma_is_child(rows, clause, part, rows.len() as int);
            let m = choose|m: int| 0 <= m < parts.len() && parts[m] == part;
            assert(is_import_part_name(rows, parts[m], x));
        }
        if rest.contains(x) {
            let m = choose|m: int|
                k + 1 <= m < children.len() && clause_has(rows, #[trigger] children[m], x);
            assert(clause_has(rows, children[m], x));
        }
    }
}

proof fn lemma_import(rows: Seq<RowModel>, i: int, x: int)
    requires
        syntax::lists_a_tree(rows),
        0 <= i < rows.len(),
    ensures
        bindings::import_names(rows, i, 0).contains(x) <==> is_import_name(rows, i, x),
{
    let children = syntax::children_of(rows, i);
    lemma_imports(rows, i, 0, x);
    syntax::lemma_children(rows, i, rows.len() as int);
    if exists|m: int| 0 <= m < children.len() && clause_has(rows, #[trigger] children[m], x) {
        let m = choose|m: int|
            0 <= m < children.len() && clause_has(rows, #[trigger] children[m], x);
        let part = choose|part: int|
            0 <= part < rows.len() && #[trigger] syntax::parent_of(rows, part) == Some(children[m])
                && is_import_part_name(rows, part, x);
        assert(syntax::parent_of(rows, children[m]) == Some(i));
        assert(is_import_name(rows, i, x));
    }
    if is_import_name(rows, i, x) {
        let (clause, part) = choose|clause: int, part: int|
            #![trigger syntax::parent_of(rows, clause), syntax::parent_of(rows, part)]
            0 <= clause < rows.len() && 0 <= part < rows.len() && syntax::parent_of(rows, clause)
                == Some(i) && rows[clause].kind == "import_clause"@ && syntax::parent_of(
                rows,
                part,
            ) == Some(clause) && is_import_part_name(rows, part, x);
        syntax::lemma_is_child(rows, i, clause, rows.len() as int);
        let m = choose|m: int| 0 <= m < children.len() && children[m] == clause;
        assert(clause_has(rows, children[m], x));
    }
}

proof fn lemma_parameters(rows: Seq<RowModel>, i: int, x: int)
    requires
        syntax::lists_a_tree(rows),
        0 <= i < rows.len(),
        0 <= x < rows.len(),
    ensures
        bindings::parameter_names(rows, i).contains(x) <==> is_listed_parameter(rows, i, x),
        bindings::single_parameter(rows, i).contains(x) <==> is_lone_parameter(rows, i, x),
        bindings::field_node(rows, i, "name"@).contains(x) <==> syntax::child_by_field(
            rows,
            i,
            "name"@,
        ) == Some(x),
{
    syntax::law_fields_name_children(rows, i, "parameters"@);
    syntax::law_fields_name_children(rows, i, "parameter"@);
    if let Some(list) = syntax::child_by_field(rows, i, "parameters"@) {
        let children = syntax::children_of(rows, list);
        pattern_laws::lemma_bound_in_children(rows, list, 0, x);
        syntax::lemma_children(rows, list, rows.len() as int);
        if bindings::parameter_names(rows, i).contains(x) {
            let m = choose|m: int|
                0 <= m < children.len() && bindings::bound_in(
                    rows,
                    #[trigger] children[m],
                ).contains(x);
            pattern_laws::law_patterns_bind_their_identifiers(rows, children[m], x);
            assert(syntax::parent_of(rows, children[m]) == Some(list));
        }
        if is_listed_parameter(rows, i, x) {
            let c = choose|c: int|
                0 <= c < rows.len() && #[trigger] syntax::parent_of(rows, c) == Some(list)
                    && is_bound_by(rows, x, c);
            pattern_laws::law_patterns_bind_their_identifiers(rows, c, x);
            syntax::lemma_is_child(rows, list, c, rows.len() as int);
            let m = choose|m: int| 0 <= m < children.len() && children[m] == c;
            assert(bindings::bound_in(rows, children[m]).contains(x));
        }
    }
    if let Some(parameter) = syntax::child_by_field(rows, i, "parameter"@) {
        lemma_single(parameter, x);
    }
    if let Some(name) = syntax::child_by_field(rows, i, "name"@) {
        lemma_single(name, x);
    }
}

/// The kinds of nodes that declare something or open a scope differ in their
/// lengths or their first characters.
proof fn lemma_kinds_are_told_apart()
    ensures
        "variable_declaration"@.len() == 20 && "variable_declaration"@[0] == 'v' && "variable_declaration"@[4] == 'a',
        "lexical_declaration"@.len() == 19 && "lexical_declaration"@[0] == 'l' && "lexical_declaration"@[4] == 'c',
        "function_declaration"@.len() == 20 && "function_declaration"@[0] == 'f' && "function_declaration"@[4] == 't',
        "class_declaration"@.len() == 17 && "class_declaration"@[0] == 'c' && "class_declaration"@[4] == 's',
        "import_statement"@.len() == 16 && "import_statement"@[0] == 'i' && "import_statement"@[4] == 'r',
        "method_definition"@.len() == 17 && "method_definition"@[0] == 'm' && "method_definition"@[4] == 'o',
        "function_expression"@.len() == 19 && "function_expression"@[0] == 'f' && "function_expression"@[4] == 't',
        "arrow_function"@.len() == 14 && "arrow_function"@[0] == 'a' && "arrow_function"@[4] == 'w',
        "for_in_statement"@.len() == 16 && "for_in_statement"@[0] == 'f' && "for_in_statement"@[4] == 'i',
        "for_of_statement"@.len() == 16 && "for_of_statement"@[0] == 'f' && "for_of_statement"@[4] == 'o',
        "catch_clause"@.len() == 12 && "catch_clause"@[0] == 'c' && "catch_clause"@[4] == 'h',
        "statement_block"@.len() == 15 && "statement_block"@[0] == 's' && "statement_block"@[4] == 'e',
        "block_statement"@.len() == 15 && "block_statement"@[0] == 'b' && "block_statement"@[4] == 'k',
{
    reveal_strlit("variable_declaration");
    reveal_strlit("lexical_declaration");
    reveal_strlit("function_declaration");
    reveal_strlit("class_declaration");
    reveal_strlit("import_statement");
    reveal_strlit("method_definition");
    reveal_strlit("function_expression");
    reveal_strlit("arrow_function");
    reveal_strlit("for_in_statement");
    reveal_strlit("for_of_statement");
    reveal_strlit("catch_clause");
    reveal_strlit("statement_block");
    reveal_strlit("block_statement");
}

/// Whether all nodes of a list are rows.
spec fn are_rows(rows: Seq<RowModel>, nodes: Seq<int>) -> bool {
    forall|j: int| 0 <= j < nodes.len() ==> 0 <= #[trigger] nodes[j] < rows.len()
}

proof fn lemma_rows_either(rows: Seq<RowModel>, a: Seq<int>, b: Seq<int>)
    requires
        are_rows(rows, a),
        are_rows(rows, b),
    ensures
        are_rows(rows, a + b),
{
}

proof fn lemma_bound_are_rows(rows: Seq<RowModel>, i: int)
    requires
        syntax::lists_a_tree(rows),
        0 <= i < rows.len(),
    ensures
        are_rows(rows, bindings::bound_in(rows, i)),
    decreases rows.len() - i, syntax::children_of(rows, i).len() + 1,
{
    syntax::law_fields_name_children(rows, i, "value"@);
    syntax::law_fields_name_children(rows, i, "left"@);
    let kind = rows[i].kind;
    if kind == "identifier"@ || kind == "shorthand_property_identifier_pattern"@ {
    } else if kind == "object_pattern"@ || kind == "array_pattern"@ || kind == "rest_pattern"@ {
        lemma_children_bound_are_rows(rows, i, 0);
    } else if kind == "pair_pattern"@ {
        if let Some(value) = syntax::child_by_field(rows, i, "value"@) {
            lemma_bound_are_rows(rows, value);
        }
    } else if kind == "assignment_pattern"@ || kind == "object_assignment_pattern"@ {
        if let Some(left) = syntax::child_by_field(rows, i, "left"@) {
            lemma_bound_are_rows(rows, left);
        }
    }
}

proof fn lemma_children_bound_are_rows(rows: Seq<RowModel>, i: int, k: int)
    requires
        syntax::lists_a_tree(rows),
        0 <= i < rows.len(),
        0 <= k <= syntax::children_of(rows, i).len(),
    ensures
        are_rows(rows, bindings::bound_in_children(rows, i, k)),
    decreases rows.len() - i, syntax::children_of(rows, i).len() - k,
{
    let children = syntax::children_of(rows, i);
    if k < children.len() {
        syntax::lemma_children(rows, i, rows.len() as int);
        lemma_bound_are_rows(rows, children[k]);
        lemma_children_bound_are_rows(rows, i, k + 1);
        lemma_rows_either(
            rows,
            bindings::bound_in(rows, children[k]),
            bindings::bound_in_children(rows, i, k + 1),
        );
    }
}

/// Whether all declarations of a list are of rows.
spec fn bind_rows(rows: Seq<RowModel>, list: Seq<Binding>) -> bool {
    forall|j: int| 0 <= j < list.len() ==> 0 <= (#[trigger] list[j]).node < rows.len()
}

proof fn lemma_for_binds_rows(
    rows: Seq<RowModel>,
    nodes: Seq<int>,
    kind: VariableKind,
    hoisted: bool,
)
    requires
        are_rows(rows, nodes),
    ensures
        bind_rows(rows, bindings::bindings_for(nodes, kind, hoisted)),
{
    let list = bindings::bindings_for(nodes, kind, hoisted);
    assert forall|j: int| 0 <= j < list.len() implies 0 <= (#[trigger] list[j]).node
        < rows.len() by {
        assert(0 <= nodes[j] < rows.len());
    }
}

proof fn lemma_declared_binds_rows(rows: Seq<RowModel>, i: int, kind: VariableKind, k: int)
    requires
        syntax::lists_a_tree(rows),
        0 <= i < rows.len(),
        0 <= k <= syntax::children_of(rows, i).len(),
    ensures
        bind_rows(rows, bindings::declared_by(rows, i, kind, k)),
    decreases syntax::children_of(rows, i).len() - k,
{
    let children = syntax::children_of(rows, i);
    if k < children.len() {
        syntax::lemma_children(rows, i, rows.len() as int);
        syntax::law_fields_name_children(rows, children[k], "name"@);
        lemma_declared_binds_rows(rows, i, kind, k + 1);
        if let Some(name) = syntax::child_by_field(rows, children[k], "name"@) {
            lemma_bound_are_rows(rows, name);
            lemma_for_binds_rows(rows, seq![name], kind, kind == VariableKind::Var);
            lemma_for_binds_rows(rows, bindings::bound_in(rows, name), kind, false);
        }
    }
}

proof fn lemma_specifiers_are_rows(rows: Seq<RowModel>, i: int, k: int)
    requires
        syntax::lists_a_tree(rows),
        0 <= i < rows.len(),
        0 <= k <= syntax::children_of(rows, i).len(),
    ensures
        are_rows(rows, bindings::specifier_names(rows, i, k)),
    decreases syntax::children_of(rows, i).len() - k,
{
    let children = syntax::children_of(rows, i);
    if k < children.len() {
        syntax::lemma_children(rows, i, rows.len() as int);
        syntax::law_fields_name_children(rows, children[k], "name"@);
        syntax::law_fields_name_children(rows, children[k], "alias"@);
        lemma_specifiers_are_rows(rows, i, k + 1);
    }
}

proof fn lemma_clause_are_rows(rows: Seq<RowModel>, i: int, k: int)
    requires
        syntax::lists_a_tree(rows),
        0 <= i < rows.len(),
        0 <= k <= syntax::children_of(rows, i).len(),
    ensures
        are_rows(rows, bindings::clause_names(rows, i, k)),
    decreases syntax::children_of(rows, i).len() - k,
{
    let children = syntax::children_of(rows, i);
    if k < children.len() {
        syntax::lemma_children(rows, i, rows.len() as int);
        syntax::lemma_children(rows, children[k], rows.len() as int);
        lemma_clause_are_rows(rows, i, k + 1);
        lemma_specifiers_are_rows(rows, children[k], 0);
        lemma_rows_either(
            rows,
            bindings::clause_child_names(rows, children[k]),
            bindings::clause_names(rows, i, k + 1),
        );
    }
}

proof fn lemma_imports_are_rows(rows: Seq<RowModel>, i: int, k: int)
    requires
        syntax::lists_a_tree(rows),
        0 <= i < rows.len(),
        0 <= k <= syntax::children_of(rows, i).len(),
    ensures
        are_rows(rows, bindings::import_names(rows, i, k)),
    decreases syntax::children_of(rows, i).len() - k,
{
    let children = syntax::children_of(rows, i);
    if k < children.len() {
        syntax::lemma_children(rows, i, rows.len() as int);
        lemma_imports_are_rows(rows, i, k + 1);
        lemma_clause_are_rows(rows, children[k], 0);
    }
}

proof fn lemma_outer(
    rows: Seq<RowModel>,
    source: Seq<char>,
    i: int,
    x: int,
    kind: VariableKind,
)
    requires
        syntax::lists_a_tree(rows),
        0 <= i < rows.len(),
        0 <= x < rows.len(),
    ensures
        lists(bindings::outer_bindings(rows, source, i), x, kind) <==> declares_around(
            rows,
            source,
            i,
            x,
            kind,
        ),
{
    lemma_kinds_are_told_apart();
    lemma_declarators(rows, i, VariableKind::Var, x, kind);
    lemma_declarators(rows, i, bindings::lexical_kind(rows, source, i), x, kind);
    lemma_parameters(rows, i, x);
    lemma_import(rows, i, x);
    let name = bindings::field_node(rows, i, "name"@);
    lemma_lists_for(name, VariableKind::FunctionDeclaration, true, x, kind);
    lemma_lists_for(name, VariableKind::ClassDeclaration, false, x, kind);
    lemma_lists_for(bindings::import_names(rows, i, 0), VariableKind::Const, false, x, kind);
}

proof fn lemma_inner(
    rows: Seq<RowModel>,
    source: Seq<char>,
    i: int,
    x: int,
    kind: VariableKind,
)
    requires
        syntax::lists_a_tree(rows),
        0 <= i < rows.len(),
        0 <= x < rows.len(),
    ensures
        lists(bindings::inner_bindings(rows, source, i), x, kind) <==> declares_inside(
            rows,
            source,
            i,
            x,
            kind,
        ),
        declares_inside(rows, source, i, x, kind) ==> bindings::opened_scope(rows, i) is Some,
{
    lemma_kinds_are_told_apart();
    lemma_parameters(rows, i, x);
    let name = bindings::field_node(rows, i, "name"@);
    let parameters = bindings::parameter_names(rows, i);
    lemma_lists_for(name, VariableKind::FunctionDeclaration, false, x, kind);
    lemma_lists_for(parameters, VariableKind::Parameter, false, x, kind);
    lemma_lists_for(bindings::single_parameter(rows, i), VariableKind::Parameter, false, x, kind);
    lemma_lists_either(
        bindings::bindings_for(name, VariableKind::FunctionDeclaration, false),
        bindings::bindings_for(parameters, VariableKind::Parameter, false),
        x,
        kind,
    );
    syntax::law_fields_name_children(rows, i, "left"@);
    if let Some(left) = syntax::child_by_field(rows, i, "left"@) {
        pattern_laws::law_patterns_bind_their_identifiers(rows, left, x);
        if let Some(word) = syntax::child_by_field(rows, i, "kind"@) {
            lemma_lists_for(
                bindings::bound_in(rows, left),
                bindings::loop_kind(syntax::text_of(rows, source, word)),
                false,
                x,
                kind,
            );
        }
    }
}

proof fn lemma_bindings_are_rows(rows: Seq<RowModel>, source: Seq<char>, i: int)
    requires
        syntax::lists_a_tree(rows),
        0 <= i < rows.len(),
    ensures
        bind_rows(rows, bindings::outer_bindings(rows, source, i)),
        bind_rows(rows, bindings::inner_bindings(rows, source, i)),
{
    lemma_declared_binds_rows(rows, i, VariableKind::Var, 0);
    lemma_declared_binds_rows(rows, i, bindings::lexical_kind(rows, source, i), 0);
    lemma_imports_are_rows(rows, i, 0);
    syntax::law_fields_name_children(rows, i, "name"@);
    syntax::law_fields_name_children(rows, i, "parameters"@);
    syntax::law_fields_name_children(rows, i, "parameter"@);
    syntax::law_fields_name_children(rows, i, "left"@);
    let name = bindings::field_node(rows, i, "name"@);
    let parameters = bindings::parameter_names(rows, i);
    if let Some(list) = syntax::child_by_field(rows, i, "parameters"@) {
        lemma_children_bound_are_rows(rows, list, 0);
    }
    lemma_for_binds_rows(rows, name, VariableKind::FunctionDeclaration, true);
    lemma_for_binds_rows(rows, name, VariableKind::FunctionDeclaration, false);
    lemma_for_binds_rows(rows, name, VariableKind::ClassDeclaration, false);
    lemma_for_binds_rows(rows, bindings::import_names(rows, i, 0), VariableKind::Const, false);
    lemma_for_binds_rows(rows, parameters, VariableKind::Parameter, false);
    lemma_for_binds_rows(
        rows,
        bindings::single_parameter(rows, i),
        VariableKind::Parameter,
        false,
    );
    if let Some(left) = syntax::child_by_field(rows, i, "left"@) {
        lemma_bound_are_rows(rows, left);
        if let Some(word) = syntax::child_by_field(rows, i, "kind"@) {
            lemma_for_binds_rows(
                rows,
                bindings::bound_in(rows, left),
                bindings::loop_kind(syntax::text_of(rows, source, word)),
                false,
            );
        }
    }
}

/// The scope around a node.
pub open spec fn scope_around(rows: Seq<RowModel>, source: Seq<char>, i: int) -> int {
    match syntax::parent_of(rows, i) {
        None => 0,
        Some(parent) => scopes_of(rows, source).inner[parent],
    }
}

/// Whether a node opens a scope of a type: a scope of its own below the one
/// around it, over the range of the node.
pub open spec fn opens(
    rows: Seq<RowModel>,
    source: Seq<char>,
    i: int,
    scope_type: ScopeType,
) -> bool {
    let model = scopes_of(rows, source);
    let s = model.inner[i];
    &&& 0 < s < model.scopes.len()
    &&& model.scopes[s].scope_type == scope_type
    &&& model.scopes[s].parent == Some(scope_around(rows, source, i))
    &&& model.scopes[s].start_byte == rows[i].start_byte
    &&& model.scopes[s].end_byte == rows[i].end_byte
    &&& forall|j: int| 0 <= j < i ==> #[trigger] model.inner[j] != s
}

/// Functions open a function scope, classes a class scope, and loops over
/// elements, catch clauses and blocks that are no body of a function open a
/// block scope. Everything else lies in the scope of what it stands in.
pub proof fn law_nodes_open_scopes(rows: Seq<RowModel>, source: Seq<char>, i: int)
    requires
        syntax::lists_a_tree(rows),
        0 <= i < rows.len(),
    ensures
        ({
            let kind = rows[i].kind;
            let is_block = kind == "statement_block"@ || kind == "block_statement"@;
            let in_function = syntax::parent_of(rows, i) matches Some(parent) && (
            rows[parent].kind == "function_declaration"@ || rows[parent].kind
                == "function_expression"@ || rows[parent].kind == "arrow_function"@
                || rows[parent].kind == "method_definition"@);
            if kind == "function_declaration"@ || kind == "function_expression"@ || kind
                == "arrow_function"@ || kind == "method_definition"@ {
                opens(rows, source, i, ScopeType::Function)
            } else if kind == "class_declaration"@ {
                opens(rows, source, i, ScopeType::Class)
            } else if kind == "for_in_statement"@ || kind == "for_of_statement"@ || kind
                == "catch_clause"@ || (is_block && i > 0 && !in_function) {
                opens(rows, source, i, ScopeType::Block)
            } else {
                scopes_of(rows, source).inner[i] == scope_around(rows, source, i)
            }
        }),
{
    laws::lemma_node(rows, source, i);
    syntax::law_rows_form_a_tree(rows, i, i);
    lemma_kinds_are_told_apart();
}

/// Every identifier that a node declares is held as a variable: in the scope
/// around the node or in the one that it opens, and a `var` in the nearest
/// function or global scope.
pub proof fn law_declared_variables_are_held(
    rows: Seq<RowModel>,
    source: Seq<char>,
    i: int,
    x: int,
    kind: VariableKind,
)
    requires
        syntax::lists_a_tree(rows),
        0 <= i < rows.len(),
        0 <= x < rows.len(),
    ensures
        ({
            let model = scopes_of(rows, source);
            &&& declares_around(rows, source, i, x, kind) ==> exists|home: int|
                #![trigger model.scopes[home]]
                is_home(model.scopes, home, scope_around(rows, source, i), kind) && holds(
                    model.scopes[home],
                    rows,
                    source,
                    x,
                    kind,
                )
            &&& declares_inside(rows, source, i, x, kind) ==> exists|home: int|
                #![trigger model.scopes[home]]
                is_home(model.scopes, home, model.inner[i], kind) && holds(
                    model.scopes[home],
                    rows,
                    source,
                    x,
                    kind,
                )
        }),
{
    lemma_outer(rows, source, i, x, kind);
    lemma_inner(rows, source, i, x, kind);
    let model = scopes_of(rows, source);
    if declares_around(rows, source, i, x, kind) {
        let list = bindings::outer_bindings(rows, source, i);
        let j = choose|j: int|
            0 <= j < list.len() && (#[trigger] list[j]).node == x && list[j].kind == kind;
        assert(list.contains(list[j]));
        laws::lemma_outer_is_held(rows, source, i, list[j]);
        let home = laws::home_of(model.scopes, scope_around(rows, source, i), kind);
        assert(holds(model.scopes[home], rows, source, x, kind));
    }
    if declares_inside(rows, source, i, x, kind) {
        let list = bindings::inner_bindings(rows, source, i);
        let j = choose|j: int|
            0 <= j < list.len() && (#[trigger] list[j]).node == x && list[j].kind == kind;
        assert(list.contains(list[j]));
        laws::lemma_inner_is_held(rows, source, i, list[j]);
        let home = laws::home_of(model.scopes, model.inner[i], kind);
        assert(holds(model.scopes[home], rows, source, x, kind));
    }
}

/// Whether node `i` declares an identifier whose home is a scope.
pub open spec fn brings(
    rows: Seq<RowModel>,
    source: Seq<char>,
    i: int,
    x: int,
    kind: VariableKind,
    s: int,
) -> bool {
    let model = scopes_of(rows, source);
    ||| declares_around(rows, source, i, x, kind) && is_home(
        model.scopes,
        s,
        scope_around(rows, source, i),
        kind,
    )
    ||| declares_inside(rows, source, i, x, kind) && is_home(
        model.scopes,
        s,
        model.inner[i],
        kind,
    )
}

/// A scope holds nothing but what some node declares: every variable has the
/// name, kind and place of a declared identifier, and is in its home. So a
/// `var` is held by a function or the global scope only.
pub proof fn law_held_variables_are_declared(
    rows: Seq<RowModel>,
    source: Seq<char>,
    s: int,
    m: int,
)
    requires
        syntax::lists_a_tree(rows),
        0 <= s < scopes_of(rows, source).scopes.len(),
        0 <= m < scopes_of(rows, source).scopes[s].variables.len(),
    ensures
        ({
            let scope = scopes_of(rows, source).scopes[s];
            let v = scope.variables[m];
            &&& v.kind == VariableKind::Var ==> is_function_or_global(scope)
            &&& exists|i: int, x: int|
                0 <= i < rows.len() && 0 <= x < rows.len() && #[trigger] brings(
                    rows,
                    source,
                    i,
                    x,
                    v.kind,
                    s,
                ) && is_of_node(v, rows, source, x, v.kind)
        }),
{
    let v = scopes_of(rows, source).scopes[s].variables[m];
    let (i, b, inside) = laws::lemma_is_brought(rows, source, s, m);
    lemma_bindings_are_rows(rows, source, i);
    if inside {
        let list = bindings::inner_bindings(rows, source, i);
        let j = choose|j: int| 0 <= j < list.len() && list[j] == b;
        assert(list[j].node == b.node);
        lemma_inner(rows, source, i, b.node, b.kind);
    } else {
        let list = bindings::outer_bindings(rows, source, i);
        let j = choose|j: int| 0 <= j < list.len() && list[j] == b;
        assert(list[j].node == b.node);
        lemma_outer(rows, source, i, b.node, b.kind);
    }
    assert(brings(rows, source, i, b.node, v.kind, s));
}

} // verus!
