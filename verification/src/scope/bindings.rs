//! Which identifiers a syntax node binds, and which scope it opens.

use vstd::prelude::*;
use vstd::string::*;

use super::{ScopeType, VariableKind};
use crate::syntax;
use crate::syntax::{RowModel, SyntaxTree};

verus! {

/// Whether a node's kind is one of those that bind or name a variable.
pub open spec fn is_identifier_kind(kind: Seq<char>) -> bool {
    kind == "identifier"@ || kind == "shorthand_property_identifier"@ || kind
        == "shorthand_property_identifier_pattern"@
}

/// The identifiers that a pattern binds, in order.
pub open spec fn bound_in(rows: Seq<RowModel>, i: int) -> Seq<int>
    decreases rows.len() - i, syntax::children_of(rows, i).len() + 1,
    when 0 <= i < rows.len()
{
    let kind = rows[i].kind;
    if kind == "identifier"@ || kind == "shorthand_property_identifier_pattern"@ {
        seq![i]
    } else if kind == "object_pattern"@ || kind == "array_pattern"@ || kind == "rest_pattern"@ {
        bound_in_children(rows, i, 0)
    } else if kind == "pair_pattern"@ {
        match syntax::child_by_field(rows, i, "value"@) {
            Some(value) => if i < value < rows.len() {
                bound_in(rows, value)
            } else {
                Seq::empty()
            },
            None => Seq::empty(),
        }
    } else if kind == "assignment_pattern"@ || kind == "object_assignment_pattern"@ {
        match syntax::child_by_field(rows, i, "left"@) {
            Some(left) => if i < left < rows.len() {
                bound_in(rows, left)
            } else {
                Seq::empty()
            },
            None => Seq::empty(),
        }
    } else {
        Seq::empty()
    }
}

/// The identifiers that the children of a node from position `k` on bind.
pub open spec fn bound_in_children(rows: Seq<RowModel>, i: int, k: int) -> Seq<int>
    decreases rows.len() - i, syntax::children_of(rows, i).len() - k,
    when 0 <= i < rows.len() && 0 <= k <= syntax::children_of(rows, i).len()
{
    let children = syntax::children_of(rows, i);
    if k >= children.len() {
        Seq::empty()
    } else {
        (if i < children[k] < rows.len() {
            bound_in(rows, children[k])
        } else {
            Seq::empty()
        }) + bound_in_children(rows, i, k + 1)
    }
}

/// A variable that a node declares.
pub struct Binding {
    pub node: int,
    pub kind: VariableKind,
    pub is_hoisted: bool,
}

/// The same declaration for each of some nodes.
pub open spec fn bindings_for(nodes: Seq<int>, kind: VariableKind, is_hoisted: bool) -> Seq<
    Binding,
> {
    nodes.map_values(|node: int| Binding { node, kind, is_hoisted })
}

/// What the declarators of a declaration bind, from child position `k` on. A
/// plain `var` name is hoisted.
pub open spec fn declared_by(rows: Seq<RowModel>, i: int, kind: VariableKind, k: int) -> Seq<
    Binding,
>
    decreases syntax::children_of(rows, i).len() - k,
{
    let children = syntax::children_of(rows, i);
    if k < 0 || k >= children.len() {
        Seq::empty()
    } else {
        (if rows[children[k]].kind == "variable_declarator"@ {
            match syntax::child_by_field(rows, children[k], "name"@) {
                Some(name) => declarator_bindings(rows, name, kind),
                None => Seq::empty(),
            }
        } else {
            Seq::empty()
        }) + declared_by(rows, i, kind, k + 1)
    }
}

/// What the name of one declarator binds.
pub open spec fn declarator_bindings(rows: Seq<RowModel>, name: int, kind: VariableKind) -> Seq<
    Binding,
> {
    if rows[name].kind == "identifier"@ {
        bindings_for(seq![name], kind, kind == VariableKind::Var)
    } else if rows[name].kind == "object_pattern"@ || rows[name].kind == "array_pattern"@ {
        bindings_for(bound_in(rows, name), kind, false)
    } else {
        Seq::empty()
    }
}

/// The kind of a `let` or `const` declaration, by its first word.
pub open spec fn lexical_kind(rows: Seq<RowModel>, source: Seq<char>, i: int) -> VariableKind {
    let children = syntax::children_of(rows, i);
    if children.len() > 0 && syntax::text_of(rows, source, children[0]) == "const"@ {
        VariableKind::Const
    } else {
        VariableKind::Let
    }
}

/// The local names that import specifiers bind, from child position `k` on.
pub open spec fn specifier_names(rows: Seq<RowModel>, i: int, k: int) -> Seq<int>
    decreases syntax::children_of(rows, i).len() - k,
{
    let children = syntax::children_of(rows, i);
    if k < 0 || k >= children.len() {
        Seq::empty()
    } else {
        (if rows[children[k]].kind == "import_specifier"@ {
            match local_name(rows, children[k]) {
                Some(name) => seq![name],
                None => Seq::empty(),
            }
        } else {
            Seq::empty()
        }) + specifier_names(rows, i, k + 1)
    }
}

/// The local name of an import specifier: its alias, or else its name.
pub open spec fn local_name(rows: Seq<RowModel>, specifier: int) -> Option<int> {
    match syntax::child_by_field(rows, specifier, "alias"@) {
        Some(alias) => Some(alias),
        None => syntax::child_by_field(rows, specifier, "name"@),
    }
}

/// The names that an import clause binds, from child position `k` on.
pub open spec fn clause_names(rows: Seq<RowModel>, i: int, k: int) -> Seq<int>
    decreases syntax::children_of(rows, i).len() - k,
{
    let children = syntax::children_of(rows, i);
    if k < 0 || k >= children.len() {
        Seq::empty()
    } else {
        clause_child_names(rows, children[k]) + clause_names(rows, i, k + 1)
    }
}

/// The names that one part of an import clause binds.
pub open spec fn clause_child_names(rows: Seq<RowModel>, child: int) -> Seq<int> {
    if rows[child].kind == "identifier"@ {
        seq![child]
    } else if rows[child].kind == "namespace_import"@ {
        let parts = syntax::children_of(rows, child);
        if parts.len() > 2 && rows[parts[2]].kind == "identifier"@ {
            seq![parts[2]]
        } else {
            Seq::empty()
        }
    } else if rows[child].kind == "named_imports"@ {
        specifier_names(rows, child, 0)
    } else {
        Seq::empty()
    }
}

/// The names that an import statement binds, from child position `k` on.
pub open spec fn import_names(rows: Seq<RowModel>, i: int, k: int) -> Seq<int>
    decreases syntax::children_of(rows, i).len() - k,
{
    let children = syntax::children_of(rows, i);
    if k < 0 || k >= children.len() {
        Seq::empty()
    } else {
        (if rows[children[k]].kind == "import_clause"@ {
            clause_names(rows, children[k], 0)
        } else {
            Seq::empty()
        }) + import_names(rows, i, k + 1)
    }
}

/// The node that a field names, as a list.
pub open spec fn field_node(rows: Seq<RowModel>, i: int, field: Seq<char>) -> Seq<int> {
    match syntax::child_by_field(rows, i, field) {
        Some(node) => seq![node],
        None => Seq::empty(),
    }
}

/// The identifiers that the parameters of a function bind.
pub open spec fn parameter_names(rows: Seq<RowModel>, i: int) -> Seq<int> {
    match syntax::child_by_field(rows, i, "parameters"@) {
        Some(parameters) => bound_in_children(rows, parameters, 0),
        None => Seq::empty(),
    }
}

/// The identifier that a single unparenthesized or catch parameter binds.
pub open spec fn single_parameter(rows: Seq<RowModel>, i: int) -> Seq<int> {
    match syntax::child_by_field(rows, i, "parameter"@) {
        Some(parameter) => if rows[parameter].kind == "identifier"@ {
            seq![parameter]
        } else {
            Seq::empty()
        },
        None => Seq::empty(),
    }
}

/// What a node declares in the scope around it.
pub open spec fn outer_bindings(rows: Seq<RowModel>, source: Seq<char>, i: int) -> Seq<Binding> {
    let kind = rows[i].kind;
    if kind == "variable_declaration"@ {
        declared_by(rows, i, VariableKind::Var, 0)
    } else if kind == "lexical_declaration"@ {
        declared_by(rows, i, lexical_kind(rows, source, i), 0)
    } else if kind == "function_declaration"@ {
        bindings_for(field_node(rows, i, "name"@), VariableKind::FunctionDeclaration, true)
    } else if kind == "class_declaration"@ {
        bindings_for(field_node(rows, i, "name"@), VariableKind::ClassDeclaration, false)
    } else if kind == "import_statement"@ {
        bindings_for(import_names(rows, i, 0), VariableKind::Const, false)
    } else {
        Seq::empty()
    }
}

/// The kind of a loop variable, by the word ahead of it.
pub open spec fn loop_kind(word: Seq<char>) -> VariableKind {
    if word == "const"@ {
        VariableKind::Const
    } else if word == "let"@ {
        VariableKind::Let
    } else {
        VariableKind::Var
    }
}

/// What the head of a `for ... in` or `for ... of` loop declares: nothing
/// where no `var`, `let` or `const` stands there.
pub open spec fn loop_bindings(rows: Seq<RowModel>, source: Seq<char>, i: int) -> Seq<Binding> {
    match (
        syntax::child_by_field(rows, i, "kind"@),
        syntax::child_by_field(rows, i, "left"@),
    ) {
        (Some(word), Some(left)) => bindings_for(
            bound_in(rows, left),
            loop_kind(syntax::text_of(rows, source, word)),
            false,
        ),
        _ => Seq::empty(),
    }
}

/// What a node declares in the scope that it opens.
pub open spec fn inner_bindings(rows: Seq<RowModel>, source: Seq<char>, i: int) -> Seq<Binding> {
    let kind = rows[i].kind;
    if kind == "function_declaration"@ || kind == "method_definition"@ {
        bindings_for(parameter_names(rows, i), VariableKind::Parameter, false)
    } else if kind == "function_expression"@ {
        bindings_for(field_node(rows, i, "name"@), VariableKind::FunctionDeclaration, false)
            + bindings_for(parameter_names(rows, i), VariableKind::Parameter, false)
    } else if kind == "arrow_function"@ {
        if syntax::child_by_field(rows, i, "parameters"@) is Some {
            bindings_for(parameter_names(rows, i), VariableKind::Parameter, false)
        } else {
            bindings_for(single_parameter(rows, i), VariableKind::Parameter, false)
        }
    } else if kind == "for_in_statement"@ || kind == "for_of_statement"@ {
        loop_bindings(rows, source, i)
    } else if kind == "catch_clause"@ {
        bindings_for(single_parameter(rows, i), VariableKind::Parameter, false)
    } else {
        Seq::empty()
    }
}

/// Whether a node of this kind is a function.
pub open spec fn is_function_kind(kind: Seq<char>) -> bool {
    kind == "function_declaration"@ || kind == "function_expression"@ || kind == "arrow_function"@
        || kind == "method_definition"@
}

/// The scope that a node opens. A block opens one unless it is the body of a
/// function, whose scope it shares.
pub open spec fn opened_scope(rows: Seq<RowModel>, i: int) -> Option<ScopeType> {
    let kind = rows[i].kind;
    if is_function_kind(kind) {
        Some(ScopeType::Function)
    } else if kind == "class_declaration"@ {
        Some(ScopeType::Class)
    } else if kind == "for_in_statement"@ || kind == "for_of_statement"@ || kind
        == "catch_clause"@ {
        Some(ScopeType::Block)
    } else if kind == "statement_block"@ || kind == "block_statement"@ {
        match syntax::parent_of(rows, i) {
            Some(parent) => if is_function_kind(rows[parent].kind) {
                None
            } else {
                Some(ScopeType::Block)
            },
            None => None,
        }
    } else {
        None
    }
}

/// A variable that a node declares.
pub struct PendingBinding {
    pub node: usize,
    pub kind: VariableKind,
    pub is_hoisted: bool,
}

/// Pending bindings seen as their models.
pub open spec fn binding_views(pending: Seq<PendingBinding>) -> Seq<Binding> {
    pending.map_values(
        |binding: PendingBinding|
            Binding {
                node: binding.node as int,
                kind: binding.kind,
                is_hoisted: binding.is_hoisted,
            },
    )
}

/// Whether every node is a row.
pub open spec fn nodes_are_in(nodes: Seq<usize>, count: int) -> bool {
    forall|k: int| 0 <= k < nodes.len() ==> #[trigger] nodes[k] < count
}

/// Whether every binding's node is a row.
pub open spec fn bindings_are_in(pending: Seq<PendingBinding>, count: int) -> bool {
    forall|k: int| 0 <= k < pending.len() ==> (#[trigger] pending[k]).node < count
}

/// Appends one node to a list of nodes.
fn push_node(nodes: &mut Vec<usize>, node: usize)
    ensures
        syntax::index_views(final(nodes)@) == syntax::index_views(old(nodes)@) + seq![node as int],
        final(nodes)@ == old(nodes)@.push(node),
{
    let ghost before = nodes@;
    nodes.push(node);
    assert(syntax::index_views(nodes@) =~= syntax::index_views(before) + seq![node as int]);
}

/// Appends the identifiers that a pattern binds.
pub(crate) fn collect_bound(tree: &SyntaxTree, i: usize, nodes: &mut Vec<usize>)
    requires
        i < tree@.len(),
        nodes_are_in(old(nodes)@, tree@.len() as int),
    ensures
        syntax::index_views(final(nodes)@) == syntax::index_views(old(nodes)@) + bound_in(
            tree@,
            i as int,
        ),
        nodes_are_in(final(nodes)@, tree@.len() as int),
    decreases tree@.len() - i, syntax::children_of(tree@, i as int).len() + 1,
{
    if tree.is_kind(i, "identifier") || tree.is_kind(i, "shorthand_property_identifier_pattern") {
        push_node(nodes, i);
    } else if tree.is_kind(i, "object_pattern") || tree.is_kind(i, "array_pattern")
        || tree.is_kind(i, "rest_pattern") {
        collect_bound_children(tree, i, nodes);
    } else if tree.is_kind(i, "pair_pattern") {
        if let Some(value) = tree.child_by_field_name(i, "value") {
            collect_bound(tree, value, nodes);
        } else {
            assert(syntax::index_views(nodes@) =~= syntax::index_views(old(nodes)@) + Seq::empty());
        }
    } else if tree.is_kind(i, "assignment_pattern") || tree.is_kind(
        i,
        "object_assignment_pattern",
    ) {
        if let Some(left) = tree.child_by_field_name(i, "left") {
            collect_bound(tree, left, nodes);
        } else {
            assert(syntax::index_views(nodes@) =~= syntax::index_views(old(nodes)@) + Seq::empty());
        }
    } else {
        assert(syntax::index_views(nodes@) =~= syntax::index_views(old(nodes)@) + Seq::empty());
    }
}

/// Appends the identifiers that the children of a node bind.
pub(crate) fn collect_bound_children(tree: &SyntaxTree, i: usize, nodes: &mut Vec<usize>)
    requires
        i < tree@.len(),
        nodes_are_in(old(nodes)@, tree@.len() as int),
    ensures
        syntax::index_views(final(nodes)@) == syntax::index_views(old(nodes)@) + bound_in_children(
            tree@,
            i as int,
            0,
        ),
        nodes_are_in(final(nodes)@, tree@.len() as int),
    decreases tree@.len() - i, syntax::children_of(tree@, i as int).len(),
{
    let children = tree.children(i);
    let ghost list = syntax::children_of(tree@, i as int);
    let ghost before = syntax::index_views(nodes@);
    let mut k: usize = 0;
    assert(list.len() == children@.len()) by {
        assert(syntax::index_views(children@).len() == children@.len());
    }
    while k < children.len()
        invariant
            i < tree@.len(),
            k <= children@.len(),
            list == syntax::children_of(tree@, i as int),
            list == syntax::index_views(children@),
            list.len() == children@.len(),
            forall|j: int| 0 <= j < children@.len() ==> i < #[trigger] children@[j] < tree@.len(),
            nodes_are_in(nodes@, tree@.len() as int),
            before + bound_in_children(tree@, i as int, 0) == syntax::index_views(nodes@)
                + bound_in_children(tree@, i as int, k as int),
        decreases children@.len() - k,
    {
        let ghost earlier = syntax::index_views(nodes@);
        assert(list[k as int] == children@[k as int] as int);
        collect_bound(tree, children[k], nodes);
        proof {
            let part = bound_in(tree@, list[k as int]);
            let rest = bound_in_children(tree@, i as int, k + 1);
            assert(earlier + (part + rest) =~= (earlier + part) + rest);
        }
        k += 1;
    }
    assert(syntax::index_views(nodes@) + Seq::<int>::empty() =~= syntax::index_views(nodes@));
}

/// Appends the same declaration for each of some nodes.
fn push_bindings(
    pending: &mut Vec<PendingBinding>,
    nodes: &Vec<usize>,
    kind: VariableKind,
    is_hoisted: bool,
    count: Ghost<int>,
)
    requires
        bindings_are_in(old(pending)@, count@),
        nodes_are_in(nodes@, count@),
    ensures
        binding_views(final(pending)@) == binding_views(old(pending)@) + bindings_for(
            syntax::index_views(nodes@),
            kind,
            is_hoisted,
        ),
        bindings_are_in(final(pending)@, count@),
{
    let ghost before = binding_views(pending@);
    let ghost all = bindings_for(syntax::index_views(nodes@), kind, is_hoisted);
    let mut k: usize = 0;
    assert(before + all.take(0) =~= before);
    while k < nodes.len()
        invariant
            k <= nodes@.len(),
            all == bindings_for(syntax::index_views(nodes@), kind, is_hoisted),
            all.len() == nodes@.len(),
            bindings_are_in(pending@, count@),
            nodes_are_in(nodes@, count@),
            binding_views(pending@) == before + all.take(k as int),
        decreases nodes@.len() - k,
    {
        let ghost earlier = pending@;
        pending.push(PendingBinding { node: nodes[k], kind, is_hoisted });
        proof {
            assert(all[k as int] == (Binding { node: nodes@[k as int] as int, kind, is_hoisted }));
            assert(binding_views(pending@) =~= binding_views(earlier).push(all[k as int]));
            assert(before + all.take(k + 1) =~= (before + all.take(k as int)).push(all[k as int]));
        }
        k += 1;
    }
    assert(all.take(k as int) =~= all);
}

fn collect_declared(
    tree: &SyntaxTree,
    i: usize,
    kind: VariableKind,
    pending: &mut Vec<PendingBinding>,
)
    requires
        i < tree@.len(),
        bindings_are_in(old(pending)@, tree@.len() as int),
    ensures
        binding_views(final(pending)@) == binding_views(old(pending)@) + declared_by(
            tree@,
            i as int,
            kind,
            0,
        ),
        bindings_are_in(final(pending)@, tree@.len() as int),
{
    let children = tree.children(i);
    let ghost list = syntax::children_of(tree@, i as int);
    let ghost before = binding_views(pending@);
    let mut k: usize = 0;
    assert(list.len() == children@.len()) by {
        assert(syntax::index_views(children@).len() == children@.len());
    }
    while k < children.len()
        invariant
            i < tree@.len(),
            k <= children@.len(),
            list == syntax::children_of(tree@, i as int),
            list == syntax::index_views(children@),
            list.len() == children@.len(),
            forall|j: int| 0 <= j < children@.len() ==> i < #[trigger] children@[j] < tree@.len(),
            bindings_are_in(pending@, tree@.len() as int),
            before + declared_by(tree@, i as int, kind, 0) == binding_views(pending@)
                + declared_by(tree@, i as int, kind, k as int),
        decreases children@.len() - k,
    {
        let ghost earlier = binding_views(pending@);
        let child = children[k];
        assert(list[k as int] == child as int);
        let ghost mut part: Seq<Binding> = Seq::empty();
        if tree.is_kind(child, "variable_declarator") {
            if let Some(name) = tree.child_by_field_name(child, "name") {
                let mut nodes: Vec<usize> = Vec::new();
                assert(syntax::index_views(nodes@) =~= Seq::empty());
                if tree.is_kind(name, "identifier") {
                    push_node(&mut nodes, name);
                    assert(syntax::index_views(nodes@) =~= seq![name as int]);
                    push_bindings(
                        pending,
                        &nodes,
                        kind,
                        kind == VariableKind::Var,
                        Ghost(tree@.len() as int),
                    );
                } else if tree.is_kind(name, "object_pattern") || tree.is_kind(
                    name,
                    "array_pattern",
                ) {
                    collect_bound(tree, name, &mut nodes);
                    assert(syntax::index_views(nodes@) =~= bound_in(tree@, name as int));
                    push_bindings(pending, &nodes, kind, false, Ghost(tree@.len() as int));
                }
                proof {
                    part = declarator_bindings(tree@, name as int, kind);
                }
            }
        }
        proof {
            let rest = declared_by(tree@, i as int, kind, k + 1);
            assert(binding_views(pending@) =~= earlier + part);
            assert(earlier + (part + rest) =~= (earlier + part) + rest);
        }
        k += 1;
    }
    assert(binding_views(pending@) + Seq::<Binding>::empty() =~= binding_views(pending@));
}

/// The local name of an import specifier.
pub(crate) fn local_name_of(tree: &SyntaxTree, specifier: usize) -> (name: Option<usize>)
    requires
        specifier < tree@.len(),
    ensures
        syntax::index_view(name) == local_name(tree@, specifier as int),
        name matches Some(n) ==> n < tree@.len(),
{
    match tree.child_by_field_name(specifier, "alias") {
        Some(alias) => Some(alias),
        None => tree.child_by_field_name(specifier, "name"),
    }
}

fn collect_specifiers(tree: &SyntaxTree, i: usize, nodes: &mut Vec<usize>)
    requires
        i < tree@.len(),
        nodes_are_in(old(nodes)@, tree@.len() as int),
    ensures
        syntax::index_views(final(nodes)@) == syntax::index_views(old(nodes)@) + specifier_names(
            tree@,
            i as int,
            0,
        ),
        nodes_are_in(final(nodes)@, tree@.len() as int),
{
    let children = tree.children(i);
    let ghost list = syntax::children_of(tree@, i as int);
    let ghost before = syntax::index_views(nodes@);
    let mut k: usize = 0;
    assert(list.len() == children@.len()) by {
        assert(syntax::index_views(children@).len() == children@.len());
    }
    while k < children.len()
        invariant
            i < tree@.len(),
            k <= children@.len(),
            list == syntax::children_of(tree@, i as int),
            list == syntax::index_views(children@),
            list.len() == children@.len(),
            forall|j: int| 0 <= j < children@.len() ==> i < #[trigger] children@[j] < tree@.len(),
            nodes_are_in(nodes@, tree@.len() as int),
            before + specifier_names(tree@, i as int, 0) == syntax::index_views(nodes@)
                + specifier_names(tree@, i as int, k as int),
        decreases children@.len() - k,
    {
        let ghost earlier = syntax::index_views(nodes@);
        let child = children[k];
        assert(list[k as int] == child as int);
        let ghost mut part: Seq<int> = Seq::empty();
        if tree.is_kind(child, "import_specifier") {
            if let Some(name) = local_name_of(tree, child) {
                push_node(nodes, name);
                proof {
                    part = seq![name as int];
                }
            }
        }
        proof {
            let rest = specifier_names(tree@, i as int, k + 1);
            assert(syntax::index_views(nodes@) =~= earlier + part);
            assert(earlier + (part + rest) =~= (earlier + part) + rest);
        }
        k += 1;
    }
    assert(syntax::index_views(nodes@) + Seq::<int>::empty() =~= syntax::index_views(nodes@));
}

fn collect_clause_child(tree: &SyntaxTree, child: usize, nodes: &mut Vec<usize>)
    requires
        child < tree@.len(),
        nodes_are_in(old(nodes)@, tree@.len() as int),
    ensures
        syntax::index_views(final(nodes)@) == syntax::index_views(old(nodes)@)
            + clause_child_names(tree@, child as int),
        nodes_are_in(final(nodes)@, tree@.len() as int),
{
    if tree.is_kind(child, "identifier") {
        push_node(nodes, child);
    } else if tree.is_kind(child, "namespace_import") {
        let parts = tree.children(child);
        assert(syntax::index_views(parts@).len() == parts@.len());
        if parts.len() > 2 {
            assert(syntax::index_views(parts@)[2] == parts@[2] as int);
            if tree.is_kind(parts[2], "identifier") {
                push_node(nodes, parts[2]);
                return;
            }
        }
        assert(syntax::index_views(nodes@) =~= syntax::index_views(old(nodes)@) + Seq::empty());
    } else if tree.is_kind(child, "named_imports") {
        collect_specifiers(tree, child, nodes);
    } else {
        assert(syntax::index_views(nodes@) =~= syntax::index_views(old(nodes)@) + Seq::empty());
    }
}

fn collect_clause(tree: &SyntaxTree, i: usize, nodes: &mut Vec<usize>)
    requires
        i < tree@.len(),
        nodes_are_in(old(nodes)@, tree@.len() as int),
    ensures
        syntax::index_views(final(nodes)@) == syntax::index_views(old(nodes)@) + clause_names(
            tree@,
            i as int,
            0,
        ),
        nodes_are_in(final(nodes)@, tree@.len() as int),
{
    let children = tree.children(i);
    let ghost list = syntax::children_of(tree@, i as int);
    let ghost before = syntax::index_views(nodes@);
    let mut k: usize = 0;
    assert(list.len() == children@.len()) by {
        assert(syntax::index_views(children@).len() == children@.len());
    }
    while k < children.len()
        invariant
            i < tree@.len(),
            k <= children@.len(),
            list == syntax::children_of(tree@, i as int),
            list == syntax::index_views(children@),
            list.len() == children@.len(),
            forall|j: int| 0 <= j < children@.len() ==> i < #[trigger] children@[j] < tree@.len(),
            nodes_are_in(nodes@, tree@.len() as int),
            before + clause_names(tree@, i as int, 0) == syntax::index_views(nodes@)
                + clause_names(tree@, i as int, k as int),
        decreases children@.len() - k,
    {
        let ghost earlier = syntax::index_views(nodes@);
        assert(list[k as int] == children@[k as int] as int);
        collect_clause_child(tree, children[k], nodes);
        proof {
            let part = clause_child_names(tree@, list[k as int]);
            let rest = clause_names(tree@, i as int, k + 1);
            assert(earlier + (part + rest) =~= (earlier + part) + rest);
        }
        k += 1;
    }
    assert(syntax::index_views(nodes@) + Seq::<int>::empty() =~= syntax::index_views(nodes@));
}

fn collect_imports(tree: &SyntaxTree, i: usize, nodes: &mut Vec<usize>)
    requires
        i < tree@.len(),
        nodes_are_in(old(nodes)@, tree@.len() as int),
    ensures
        syntax::index_views(final(nodes)@) == syntax::index_views(old(nodes)@) + import_names(
            tree@,
            i as int,
            0,
        ),
        nodes_are_in(final(nodes)@, tree@.len() as int),
{
    let children = tree.children(i);
    let ghost list = syntax::children_of(tree@, i as int);
    let ghost before = syntax::index_views(nodes@);
    let mut k: usize = 0;
    assert(list.len() == children@.len()) by {
        assert(syntax::index_views(children@).len() == children@.len());
    }
    while k < children.len()
        invariant
            i < tree@.len(),
            k <= children@.len(),
            list == syntax::children_of(tree@, i as int),
            list == syntax::index_views(children@),
            list.len() == children@.len(),
            forall|j: int| 0 <= j < children@.len() ==> i < #[trigger] children@[j] < tree@.len(),
            nodes_are_in(nodes@, tree@.len() as int),
            before + import_names(tree@, i as int, 0) == syntax::index_views(nodes@)
                + import_names(tree@, i as int, k as int),
        decreases children@.len() - k,
    {
        let ghost earlier = syntax::index_views(nodes@);
        assert(list[k as int] == children@[k as int] as int);
        let ghost mut part: Seq<int> = Seq::empty();
        if tree.is_kind(children[k], "import_clause") {
            collect_clause(tree, children[k], nodes);
            proof {
                part = clause_names(tree@, list[k as int], 0);
            }
        }
        proof {
            let rest = import_names(tree@, i as int, k + 1);
            assert(syntax::index_views(nodes@) =~= earlier + part);
            assert(earlier + (part + rest) =~= (earlier + part) + rest);
        }
        k += 1;
    }
    assert(syntax::index_views(nodes@) + Seq::<int>::empty() =~= syntax::index_views(nodes@));
}

fn named_field(tree: &SyntaxTree, i: usize, field: &str) -> (nodes: Vec<usize>)
    requires
        i < tree@.len(),
    ensures
        syntax::index_views(nodes@) == field_node(tree@, i as int, field@),
        nodes_are_in(nodes@, tree@.len() as int),
{
    let mut nodes: Vec<usize> = Vec::new();
    assert(syntax::index_views(nodes@) =~= Seq::empty());
    if let Some(node) = tree.child_by_field_name(i, field) {
        push_node(&mut nodes, node);
        assert(syntax::index_views(nodes@) =~= seq![node as int]);
    }
    nodes
}

fn parameters(tree: &SyntaxTree, i: usize) -> (nodes: Vec<usize>)
    requires
        i < tree@.len(),
    ensures
        syntax::index_views(nodes@) == parameter_names(tree@, i as int),
        nodes_are_in(nodes@, tree@.len() as int),
{
    let mut nodes: Vec<usize> = Vec::new();
    assert(syntax::index_views(nodes@) =~= Seq::empty());
    if let Some(list) = tree.child_by_field_name(i, "parameters") {
        collect_bound_children(tree, list, &mut nodes);
        assert(syntax::index_views(nodes@) =~= bound_in_children(tree@, list as int, 0));
    }
    nodes
}

fn one_parameter(tree: &SyntaxTree, i: usize) -> (nodes: Vec<usize>)
    requires
        i < tree@.len(),
    ensures
        syntax::index_views(nodes@) == single_parameter(tree@, i as int),
        nodes_are_in(nodes@, tree@.len() as int),
{
    let mut nodes: Vec<usize> = Vec::new();
    assert(syntax::index_views(nodes@) =~= Seq::empty());
    if let Some(parameter) = tree.child_by_field_name(i, "parameter") {
        if tree.is_kind(parameter, "identifier") {
            push_node(&mut nodes, parameter);
            assert(syntax::index_views(nodes@) =~= seq![parameter as int]);
        }
    }
    nodes
}

/// What a node declares in the scope around it.
pub(crate) fn declares_outside(tree: &SyntaxTree, source: &str, i: usize) -> (pending: Vec<PendingBinding>)
    requires
        i < tree@.len(),
        syntax::covers(tree@, source@),
    ensures
        binding_views(pending@) == outer_bindings(tree@, source@, i as int),
        bindings_are_in(pending@, tree@.len() as int),
{
    let mut pending: Vec<PendingBinding> = Vec::new();
    assert(binding_views(pending@) =~= Seq::empty());
    let count = Ghost(tree@.len() as int);
    if tree.is_kind(i, "variable_declaration") {
        collect_declared(tree, i, VariableKind::Var, &mut pending);
    } else if tree.is_kind(i, "lexical_declaration") {
        let children = tree.children(i);
        assert(syntax::index_views(children@).len() == children@.len());
        let mut kind = VariableKind::Let;
        if children.len() > 0 {
            assert(syntax::index_views(children@)[0] == children@[0] as int);
            if tree.text_is(children[0], source, "const") {
                kind = VariableKind::Const;
            }
        }
        collect_declared(tree, i, kind, &mut pending);
    } else if tree.is_kind(i, "function_declaration") {
        let names = named_field(tree, i, "name");
        push_bindings(&mut pending, &names, VariableKind::FunctionDeclaration, true, count);
    } else if tree.is_kind(i, "class_declaration") {
        let names = named_field(tree, i, "name");
        push_bindings(&mut pending, &names, VariableKind::ClassDeclaration, false, count);
    } else if tree.is_kind(i, "import_statement") {
        let mut names: Vec<usize> = Vec::new();
        assert(syntax::index_views(names@) =~= Seq::empty());
        collect_imports(tree, i, &mut names);
        assert(syntax::index_views(names@) =~= import_names(tree@, i as int, 0));
        push_bindings(&mut pending, &names, VariableKind::Const, false, count);
    }
    assert(binding_views(pending@) =~= outer_bindings(tree@, source@, i as int));
    pending
}

/// What a node declares in the scope that it opens.
pub(crate) fn declares_inside(tree: &SyntaxTree, source: &str, i: usize) -> (pending: Vec<PendingBinding>)
    requires
        i < tree@.len(),
        syntax::covers(tree@, source@),
    ensures
        binding_views(pending@) == inner_bindings(tree@, source@, i as int),
        bindings_are_in(pending@, tree@.len() as int),
{
    let mut pending: Vec<PendingBinding> = Vec::new();
    assert(binding_views(pending@) =~= Seq::empty());
    let count = Ghost(tree@.len() as int);
    if tree.is_kind(i, "function_declaration") || tree.is_kind(i, "method_definition") {
        let names = parameters(tree, i);
        push_bindings(&mut pending, &names, VariableKind::Parameter, false, count);
    } else if tree.is_kind(i, "function_expression") {
        let names = named_field(tree, i, "name");
        push_bindings(&mut pending, &names, VariableKind::FunctionDeclaration, false, count);
        let names = parameters(tree, i);
        push_bindings(&mut pending, &names, VariableKind::Parameter, false, count);
    } else if tree.is_kind(i, "arrow_function") {
        if tree.child_by_field_name(i, "parameters").is_some() {
            let names = parameters(tree, i);
            push_bindings(&mut pending, &names, VariableKind::Parameter, false, count);
        } else {
            let names = one_parameter(tree, i);
            push_bindings(&mut pending, &names, VariableKind::Parameter, false, count);
        }
    } else if tree.is_kind(i, "for_in_statement") || tree.is_kind(i, "for_of_statement") {
        if let Some(word) = tree.child_by_field_name(i, "kind") {
            if let Some(left) = tree.child_by_field_name(i, "left") {
                let kind = if tree.text_is(word, source, "const") {
                    VariableKind::Const
                } else if tree.text_is(word, source, "let") {
                    VariableKind::Let
                } else {
                    VariableKind::Var
                };
                let mut names: Vec<usize> = Vec::new();
                assert(syntax::index_views(names@) =~= Seq::empty());
                collect_bound(tree, left, &mut names);
                assert(syntax::index_views(names@) =~= bound_in(tree@, left as int));
                push_bindings(&mut pending, &names, kind, false, count);
            }
        }
    } else if tree.is_kind(i, "catch_clause") {
        let names = one_parameter(tree, i);
        push_bindings(&mut pending, &names, VariableKind::Parameter, false, count);
    }
    assert(binding_views(pending@) =~= inner_bindings(tree@, source@, i as int));
    pending
}

fn function_kind(tree: &SyntaxTree, i: usize) -> (r: bool)
    requires
        i < tree@.len(),
    ensures
        r == is_function_kind(tree@[i as int].kind),
{
    tree.is_kind(i, "function_declaration") || tree.is_kind(i, "function_expression")
        || tree.is_kind(i, "arrow_function") || tree.is_kind(i, "method_definition")
}

/// The scope that a node opens.
pub(crate) fn opens(tree: &SyntaxTree, i: usize) -> (scope_type: Option<ScopeType>)
    requires
        i < tree@.len(),
    ensures
        scope_type == opened_scope(tree@, i as int),
{
    if function_kind(tree, i) {
        Some(ScopeType::Function)
    } else if tree.is_kind(i, "class_declaration") {
        Some(ScopeType::Class)
    } else if tree.is_kind(i, "for_in_statement") || tree.is_kind(i, "for_of_statement")
        || tree.is_kind(i, "catch_clause") {
        Some(ScopeType::Block)
    } else if tree.is_kind(i, "statement_block") || tree.is_kind(i, "block_statement") {
        match tree.parent(i) {
            Some(parent) => if function_kind(tree, parent) {
                None
            } else {
                Some(ScopeType::Block)
            },
            None => None,
        }
    } else {
        None
    }
}

} // verus!
