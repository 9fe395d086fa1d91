//! Lexical scopes and the variables they declare.

use vstd::prelude::*;
use vstd::string::*;

use crate::syntax;
use crate::syntax::{RowModel, SyntaxTree};
use crate::text::same_text;

pub mod bindings;
pub mod declaration_laws;
pub mod laws;
pub mod pattern_laws;
pub mod reference_laws;

use bindings::{declares_inside, declares_outside, opens, Binding, PendingBinding};

verus! {

/// What opens a scope.
#[derive(Debug, Clone, Copy, PartialEq, Eq, Structural)]
pub enum ScopeType {
    Global,
    Function,
    Block,
    Class,
    Module,
}

/// How a variable is declared.
#[derive(Debug, Clone, Copy, PartialEq, Eq, Structural)]
pub enum VariableKind {
    FunctionDeclaration,
    ClassDeclaration,
    Var,
    Let,
    Const,
    Parameter,
}

/// A declared variable. Lines and columns are zero-based.
#[derive(Debug)]
pub struct Variable {
    pub name: String,
    pub kind: VariableKind,
    pub declaration_line: usize,
    pub declaration_column: usize,
    pub declaration_byte: usize,
    pub is_hoisted: bool,
}

/// A scope over a range of bytes. The global scope has the identifier zero.
#[derive(Debug)]
pub struct Scope {
    pub id: usize,
    pub scope_type: ScopeType,
    pub parent: Option<usize>,
    pub children: Vec<usize>,
    pub variables: Vec<Variable>,
    pub depth: usize,
    pub start_byte: usize,
    pub end_byte: usize,
}

/// The model of a [`Variable`].
pub struct VariableModel {
    pub name: Seq<char>,
    pub kind: VariableKind,
    pub line: int,
    pub column: int,
    pub byte: int,
    pub is_hoisted: bool,
}

/// The model of a [`Scope`].
pub struct ScopeModel {
    pub id: int,
    pub scope_type: ScopeType,
    pub parent: Option<int>,
    pub children: Seq<int>,
    pub variables: Seq<VariableModel>,
    pub depth: int,
    pub start_byte: int,
    pub end_byte: int,
}

/// Scopes, and for each syntax node the scope that holds inside it.
pub struct ScopesModel {
    pub scopes: Seq<ScopeModel>,
    pub inner: Seq<int>,
}

impl View for Variable {
    type V = VariableModel;

    open spec fn view(&self) -> VariableModel {
        VariableModel {
            name: self.name@,
            kind: self.kind,
            line: self.declaration_line as int,
            column: self.declaration_column as int,
            byte: self.declaration_byte as int,
            is_hoisted: self.is_hoisted,
        }
    }
}

/// Variables seen as their models.
pub open spec fn variable_views(variables: Seq<Variable>) -> Seq<VariableModel> {
    variables.map_values(|variable: Variable| variable@)
}

impl View for Scope {
    type V = ScopeModel;

    open spec fn view(&self) -> ScopeModel {
        ScopeModel {
            id: self.id as int,
            scope_type: self.scope_type,
            parent: syntax::index_view(self.parent),
            children: syntax::index_views(self.children@),
            variables: variable_views(self.variables@),
            depth: self.depth as int,
            start_byte: self.start_byte as int,
            end_byte: self.end_byte as int,
        }
    }
}

/// Scopes seen as their models.
pub open spec fn scope_views(scopes: Seq<Scope>) -> Seq<ScopeModel> {
    scopes.map_values(|scope: Scope| scope@)
}

/// Whether scope `s` is the root, or hangs one level below an earlier scope.
pub open spec fn scope_fits(scopes: Seq<ScopeModel>, s: int) -> bool {
    &&& scopes[s].id == s
    &&& 0 <= scopes[s].depth <= s
    &&& match scopes[s].parent {
        None => s == 0 && scopes[s].scope_type == ScopeType::Global && scopes[s].depth == 0,
        Some(parent) => 0 <= parent < s && scopes[s].depth == scopes[parent].depth + 1,
    }
}

/// Whether scopes form a tree whose root is the global scope.
pub open spec fn scopes_form_a_tree(scopes: Seq<ScopeModel>) -> bool {
    &&& scopes.len() > 0
    &&& forall|s: int| 0 <= s < scopes.len() ==> #[trigger] scope_fits(scopes, s)
}

/// Whether every syntax node lies in a scope.
pub open spec fn inner_scopes_exist(model: ScopesModel) -> bool {
    forall|i: int|
        0 <= i < model.inner.len() ==> 0 <= #[trigger] model.inner[i] < model.scopes.len()
}

/// The nearest function or global scope at or around a scope.
pub open spec fn hoisting_scope(scopes: Seq<ScopeModel>, s: int) -> int
    decreases s,
{
    if scopes[s].scope_type == ScopeType::Function || scopes[s].scope_type == ScopeType::Global {
        s
    } else {
        match scopes[s].parent {
            Some(parent) => if 0 <= parent < s {
                hoisting_scope(scopes, parent)
            } else {
                0
            },
            None => 0,
        }
    }
}

/// Scopes after a variable is declared: a `var` in the nearest function or
/// global scope, anything else in the current one.
pub open spec fn declared(
    scopes: Seq<ScopeModel>,
    current: int,
    variable: VariableModel,
) -> Seq<ScopeModel> {
    let target = if variable.kind == VariableKind::Var {
        hoisting_scope(scopes, current)
    } else {
        current
    };
    scopes.update(
        target,
        ScopeModel { variables: scopes[target].variables.push(variable), ..scopes[target] },
    )
}

/// The variable that a binding declares.
pub open spec fn variable_of(
    rows: Seq<RowModel>,
    source: Seq<char>,
    binding: Binding,
) -> VariableModel {
    VariableModel {
        name: syntax::text_of(rows, source, binding.node),
        kind: binding.kind,
        line: rows[binding.node].start_row,
        column: rows[binding.node].start_column,
        byte: rows[binding.node].start_byte,
        is_hoisted: binding.is_hoisted,
    }
}

/// Scopes after the bindings from position `k` on are declared in order.
pub open spec fn all_declared(
    scopes: Seq<ScopeModel>,
    rows: Seq<RowModel>,
    source: Seq<char>,
    current: int,
    pending: Seq<Binding>,
    k: int,
) -> Seq<ScopeModel>
    decreases pending.len() - k,
{
    if k < 0 || k >= pending.len() {
        scopes
    } else {
        all_declared(
            declared(scopes, current, variable_of(rows, source, pending[k])),
            rows,
            source,
            current,
            pending,
            k + 1,
        )
    }
}

/// Scopes after a node opens one below the current scope.
pub open spec fn opened(
    scopes: Seq<ScopeModel>,
    current: int,
    scope_type: ScopeType,
    row: RowModel,
) -> Seq<ScopeModel> {
    let id = scopes.len() as int;
    scopes.push(
        ScopeModel {
            id,
            scope_type,
            parent: Some(current),
            children: Seq::empty(),
            variables: Seq::empty(),
            depth: scopes[current].depth + 1,
            start_byte: row.start_byte,
            end_byte: row.end_byte,
        },
    ).update(
        current,
        ScopeModel { children: scopes[current].children.push(id), ..scopes[current] },
    )
}

/// The scope around a node: the one inside its parent.
pub open spec fn outer_scope(rows: Seq<RowModel>, inner: Seq<int>, i: int) -> int {
    match syntax::parent_of(rows, i) {
        Some(parent) => inner[parent],
        None => 0,
    }
}

/// What one node does to the scopes.
pub open spec fn entered(
    rows: Seq<RowModel>,
    source: Seq<char>,
    model: ScopesModel,
    i: int,
) -> ScopesModel {
    let current = outer_scope(rows, model.inner, i);
    let around = all_declared(
        model.scopes,
        rows,
        source,
        current,
        bindings::outer_bindings(rows, source, i),
        0,
    );
    match bindings::opened_scope(rows, i) {
        None => ScopesModel { scopes: around, inner: model.inner.push(current) },
        Some(scope_type) => {
            let id = around.len() as int;
            ScopesModel {
                scopes: all_declared(
                    opened(around, current, scope_type, rows[i]),
                    rows,
                    source,
                    id,
                    bindings::inner_bindings(rows, source, i),
                    0,
                ),
                inner: model.inner.push(id),
            }
        },
    }
}

/// What the nodes from `i` on do to the scopes.
pub open spec fn entered_from(
    rows: Seq<RowModel>,
    source: Seq<char>,
    model: ScopesModel,
    i: int,
) -> ScopesModel
    decreases rows.len() - i,
{
    if i < 0 || i >= rows.len() {
        model
    } else {
        entered_from(rows, source, entered(rows, source, model, i), i + 1)
    }
}

/// Scopes whose root covers what the root of the tree covers.
pub open spec fn rooted(scopes: Seq<ScopeModel>, rows: Seq<RowModel>) -> Seq<ScopeModel> {
    scopes.update(
        0,
        ScopeModel { start_byte: rows[0].start_byte, end_byte: rows[0].end_byte, ..scopes[0] },
    )
}

/// The scopes of a syntax tree, on top of earlier ones.
pub open spec fn analyzed(
    scopes: Seq<ScopeModel>,
    rows: Seq<RowModel>,
    source: Seq<char>,
) -> ScopesModel {
    entered_from(
        rows,
        source,
        ScopesModel { scopes: rooted(scopes, rows), inner: Seq::empty() },
        0,
    )
}

/// The first variable with a name, from position `k` on.
pub open spec fn variable_named(variables: Seq<VariableModel>, name: Seq<char>, k: int) -> Option<
    int,
>
    decreases variables.len() - k,
{
    if k < 0 || k >= variables.len() {
        None
    } else if variables[k].name == name {
        Some(k)
    } else {
        variable_named(variables, name, k + 1)
    }
}

/// The scope and the position of the variable that a name stands for in a
/// scope: the first of that name in the nearest scope that declares it.
pub open spec fn resolved(scopes: Seq<ScopeModel>, name: Seq<char>, s: int) -> Option<(int, int)>
    decreases s,
    when 0 <= s < scopes.len()
{
    match variable_named(scopes[s].variables, name, 0) {
        Some(position) => Some((s, position)),
        None => match scopes[s].parent {
            Some(parent) => if 0 <= parent < s {
                resolved(scopes, name, parent)
            } else {
                None
            },
            None => None,
        },
    }
}

/// Whether a scope covers a byte.
pub open spec fn covers_byte(scope: ScopeModel, byte: int) -> bool {
    scope.start_byte <= byte < scope.end_byte
}

/// The deepest of the first `count` scopes that covers a byte, the later one
/// where two are equally deep.
pub open spec fn innermost_upto(scopes: Seq<ScopeModel>, byte: int, count: int) -> Option<int>
    decreases count,
{
    if count <= 0 {
        None
    } else {
        let earlier = innermost_upto(scopes, byte, count - 1);
        let s = count - 1;
        if covers_byte(scopes[s], byte) && (earlier matches Some(best) ==> scopes[best].depth
            <= scopes[s].depth) {
            Some(s)
        } else {
            earlier
        }
    }
}

/// The deepest scope that covers a byte, or else the global one.
pub open spec fn innermost(scopes: Seq<ScopeModel>, byte: int) -> int {
    match innermost_upto(scopes, byte, scopes.len() as int) {
        Some(s) => s,
        None => 0,
    }
}

/// The first scope from `s` on that hangs below a scope and covers exactly a
/// range.
pub open spec fn child_scope(
    scopes: Seq<ScopeModel>,
    parent: int,
    start: int,
    end: int,
    s: int,
) -> Option<int>
    decreases scopes.len() - s,
{
    if s < 0 || s >= scopes.len() {
        None
    } else if scopes[s].parent == Some(parent) && scopes[s].start_byte == start
        && scopes[s].end_byte == end {
        Some(s)
    } else {
        child_scope(scopes, parent, start, end, s + 1)
    }
}

/// Whether an identifier node names a variable that its scope resolves: not
/// the outer name of an import, nor the name under which something is
/// exported, nor anything re-exported from elsewhere.
pub open spec fn is_lexical(rows: Seq<RowModel>, i: int) -> bool {
    match syntax::parent_of(rows, i) {
        None => true,
        Some(parent) => {
            let kind = rows[parent].kind;
            if kind == "import_specifier"@ {
                bindings::local_name(rows, parent) == Some(i)
            } else if kind == "namespace_export"@ {
                false
            } else if kind == "export_specifier"@ {
                rows[i].field != Some("alias"@) && !is_reexported(rows, parent)
            } else {
                true
            }
        },
    }
}

/// Whether an export specifier belongs to a statement that names another
/// module.
pub open spec fn is_reexported(rows: Seq<RowModel>, specifier: int) -> bool {
    match syntax::parent_of(rows, specifier) {
        None => false,
        Some(clause) => match syntax::parent_of(rows, clause) {
            None => false,
            Some(statement) => rows[statement].kind == "export_statement"@
                && syntax::child_by_field(rows, statement, "source"@) is Some,
        },
    }
}

/// The scope in which an identifier node is looked up. The name of a function
/// or class declaration belongs to the scope around the declaration.
pub open spec fn lookup_scope(rows: Seq<RowModel>, inner: Seq<int>, i: int) -> int {
    match syntax::parent_of(rows, i) {
        None => 0,
        Some(parent) => if (rows[parent].kind == "function_declaration"@ || rows[parent].kind
            == "class_declaration"@) && rows[i].field == Some("name"@) {
            outer_scope(rows, inner, parent)
        } else {
            inner[parent]
        },
    }
}

/// An identifier that a declaration stands behind.
pub struct ResolvedIdentifier {
    pub node: usize,
    pub scope_id: usize,
    pub declaration_byte: usize,
}

/// The model of a [`ResolvedIdentifier`].
pub struct ResolvedModel {
    pub node: int,
    pub scope_id: int,
    pub declaration_byte: int,
}

impl View for ResolvedIdentifier {
    type V = ResolvedModel;

    open spec fn view(&self) -> ResolvedModel {
        ResolvedModel {
            node: self.node as int,
            scope_id: self.scope_id as int,
            declaration_byte: self.declaration_byte as int,
        }
    }
}

/// Resolved identifiers seen as their models.
pub open spec fn resolved_views(identifiers: Seq<ResolvedIdentifier>) -> Seq<ResolvedModel> {
    identifiers.map_values(|identifier: ResolvedIdentifier| identifier@)
}

/// What the identifier at a node resolves to, as a list.
pub open spec fn resolved_node(
    rows: Seq<RowModel>,
    source: Seq<char>,
    model: ScopesModel,
    i: int,
) -> Seq<ResolvedModel> {
    if bindings::is_identifier_kind(rows[i].kind) && is_lexical(rows, i) {
        match resolved(
            model.scopes,
            syntax::text_of(rows, source, i),
            lookup_scope(rows, model.inner, i),
        ) {
            Some((s, position)) => seq![
                ResolvedModel {
                    node: i,
                    scope_id: s,
                    declaration_byte: model.scopes[s].variables[position].byte,
                },
            ],
            None => Seq::empty(),
        }
    } else {
        Seq::empty()
    }
}

/// What the identifiers from node `i` on resolve to, in order.
pub open spec fn resolved_from(
    rows: Seq<RowModel>,
    source: Seq<char>,
    model: ScopesModel,
    i: int,
) -> Seq<ResolvedModel>
    decreases rows.len() - i,
{
    if i < 0 || i >= rows.len() {
        Seq::empty()
    } else {
        resolved_node(rows, source, model, i) + resolved_from(rows, source, model, i + 1)
    }
}

pub(crate) proof fn lemma_hoisting_scope(scopes: Seq<ScopeModel>, s: int)
    requires
        scopes_form_a_tree(scopes),
        0 <= s < scopes.len(),
    ensures
        0 <= hoisting_scope(scopes, s) <= s,
    decreases s,
{
    assert(scope_fits(scopes, s));
    match scopes[s].parent {
        Some(parent) => {
            lemma_hoisting_scope(scopes, parent);
        },
        None => {},
    }
}

pub(crate) proof fn lemma_declared_keeps_tree(
    scopes: Seq<ScopeModel>,
    current: int,
    variable: VariableModel,
)
    requires
        scopes_form_a_tree(scopes),
        0 <= current < scopes.len(),
    ensures
        scopes_form_a_tree(declared(scopes, current, variable)),
        declared(scopes, current, variable).len() == scopes.len(),
{
    lemma_hoisting_scope(scopes, current);
    let after = declared(scopes, current, variable);
    assert forall|s: int| 0 <= s < after.len() implies #[trigger] scope_fits(after, s) by {
        assert(scope_fits(scopes, s));
    }
}

proof fn lemma_all_declared_keeps_tree(
    scopes: Seq<ScopeModel>,
    rows: Seq<RowModel>,
    source: Seq<char>,
    current: int,
    pending: Seq<Binding>,
    k: int,
)
    requires
        scopes_form_a_tree(scopes),
        0 <= current < scopes.len(),
    ensures
        scopes_form_a_tree(all_declared(scopes, rows, source, current, pending, k)),
        all_declared(scopes, rows, source, current, pending, k).len() == scopes.len(),
    decreases pending.len() - k,
{
    if 0 <= k < pending.len() {
        let variable = variable_of(rows, source, pending[k]);
        lemma_declared_keeps_tree(scopes, current, variable);
        lemma_all_declared_keeps_tree(
            declared(scopes, current, variable),
            rows,
            source,
            current,
            pending,
            k + 1,
        );
    }
}

pub(crate) proof fn lemma_opened_keeps_tree(
    scopes: Seq<ScopeModel>,
    current: int,
    scope_type: ScopeType,
    row: RowModel,
)
    requires
        scopes_form_a_tree(scopes),
        0 <= current < scopes.len(),
    ensures
        scopes_form_a_tree(opened(scopes, current, scope_type, row)),
{
    let after = opened(scopes, current, scope_type, row);
    assert forall|s: int| 0 <= s < after.len() implies #[trigger] scope_fits(after, s) by {
        assert(scope_fits(scopes, current));
        if s < scopes.len() {
            assert(scope_fits(scopes, s));
        }
    }
}

/// Going over nodes keeps the scopes a tree, and puts every node into one of
/// them.
pub proof fn law_entering_keeps_tree(
    rows: Seq<RowModel>,
    source: Seq<char>,
    model: ScopesModel,
    i: int,
)
    requires
        syntax::lists_a_tree(rows),
        0 <= i <= rows.len(),
        model.inner.len() == i,
        scopes_form_a_tree(model.scopes),
        inner_scopes_exist(model),
    ensures
        scopes_form_a_tree(entered_from(rows, source, model, i).scopes),
        inner_scopes_exist(entered_from(rows, source, model, i)),
        entered_from(rows, source, model, i).inner.len() == rows.len(),
    decreases rows.len() - i,
{
    if i < rows.len() {
        lemma_entered_keeps_tree(rows, source, model, i);
        law_entering_keeps_tree(rows, source, entered(rows, source, model, i), i + 1);
    }
}

pub(crate) proof fn lemma_entered_keeps_tree(
    rows: Seq<RowModel>,
    source: Seq<char>,
    model: ScopesModel,
    i: int,
)
    requires
        0 <= i < rows.len(),
        model.inner.len() == i,
        scopes_form_a_tree(model.scopes),
        inner_scopes_exist(model),
    ensures
        scopes_form_a_tree(entered(rows, source, model, i).scopes),
        inner_scopes_exist(entered(rows, source, model, i)),
        entered(rows, source, model, i).inner.len() == i + 1,
        0 <= outer_scope(rows, model.inner, i) < model.scopes.len(),
{
    syntax::lemma_parent_is_earlier(rows, i, i - 1);
    let current = outer_scope(rows, model.inner, i);
    let outer = bindings::outer_bindings(rows, source, i);
    lemma_all_declared_keeps_tree(model.scopes, rows, source, current, outer, 0);
    let around = all_declared(model.scopes, rows, source, current, outer, 0);
    match bindings::opened_scope(rows, i) {
        None => {},
        Some(scope_type) => {
            lemma_opened_keeps_tree(around, current, scope_type, rows[i]);
            lemma_all_declared_keeps_tree(
                opened(around, current, scope_type, rows[i]),
                rows,
                source,
                around.len() as int,
                bindings::inner_bindings(rows, source, i),
                0,
            );
        },
    }
}

/// Whether scope `s` is listed by its parent, and lists only scopes whose
/// parent it is.
pub open spec fn is_listed(scopes: Seq<ScopeModel>, s: int) -> bool {
    &&& scopes[s].parent matches Some(parent) ==> scopes[parent].children.contains(s)
    &&& forall|k: int|
        0 <= k < scopes[s].children.len() ==> s < (#[trigger] scopes[s].children[k]) < scopes.len()
            && scopes[scopes[s].children[k]].parent == Some(s)
}

/// Whether parents and children agree throughout.
pub open spec fn children_are_listed(scopes: Seq<ScopeModel>) -> bool {
    forall|s: int| 0 <= s < scopes.len() ==> #[trigger] is_listed(scopes, s)
}

proof fn lemma_declared_keeps_lists(
    scopes: Seq<ScopeModel>,
    current: int,
    variable: VariableModel,
)
    requires
        scopes_form_a_tree(scopes),
        children_are_listed(scopes),
        0 <= current < scopes.len(),
    ensures
        children_are_listed(declared(scopes, current, variable)),
{
    lemma_hoisting_scope(scopes, current);
    let after = declared(scopes, current, variable);
    assert forall|s: int| 0 <= s < after.len() implies #[trigger] is_listed(after, s) by {
        assert(is_listed(scopes, s));
        assert(scope_fits(scopes, s));
        assert forall|k: int| 0 <= k < after[s].children.len() implies s < (
        #[trigger] after[s].children[k]) < after.len() && after[after[s].children[k]].parent
            == Some(s) by {
            assert(after[s].children[k] == scopes[s].children[k]);
        }
    }
}

proof fn lemma_all_declared_keeps_lists(
    scopes: Seq<ScopeModel>,
    rows: Seq<RowModel>,
    source: Seq<char>,
    current: int,
    pending: Seq<Binding>,
    k: int,
)
    requires
        scopes_form_a_tree(scopes),
        children_are_listed(scopes),
        0 <= current < scopes.len(),
    ensures
        children_are_listed(all_declared(scopes, rows, source, current, pending, k)),
    decreases pending.len() - k,
{
    if 0 <= k < pending.len() {
        let variable = variable_of(rows, source, pending[k]);
        lemma_declared_keeps_tree(scopes, current, variable);
        lemma_declared_keeps_lists(scopes, current, variable);
        lemma_all_declared_keeps_lists(
            declared(scopes, current, variable),
            rows,
            source,
            current,
            pending,
            k + 1,
        );
    }
}

proof fn lemma_opened_keeps_lists(
    scopes: Seq<ScopeModel>,
    current: int,
    scope_type: ScopeType,
    row: RowModel,
)
    requires
        scopes_form_a_tree(scopes),
        children_are_listed(scopes),
        0 <= current < scopes.len(),
    ensures
        children_are_listed(opened(scopes, current, scope_type, row)),
{
    let after = opened(scopes, current, scope_type, row);
    let id = scopes.len() as int;
    assert forall|s: int| 0 <= s < after.len() implies #[trigger] is_listed(after, s) by {
        if s < id {
            assert(is_listed(scopes, s));
            assert(scope_fits(scopes, s));
            if let Some(parent) = scopes[s].parent {
                let k = choose|k: int|
                    0 <= k < scopes[parent].children.len() && scopes[parent].children[k] == s;
                assert(after[parent].children[k] == s);
            }
        } else {
            let list = after[current].children;
            assert(list[list.len() - 1] == id);
        }
        assert forall|k: int| 0 <= k < after[s].children.len() implies s < (
        #[trigger] after[s].children[k]) < after.len() && after[after[s].children[k]].parent
            == Some(s) by {
            if k < scopes[s].children.len() {
                assert(after[s].children[k] == scopes[s].children[k]);
            }
        }
    }
}

proof fn lemma_entering_keeps_lists(
    rows: Seq<RowModel>,
    source: Seq<char>,
    model: ScopesModel,
    i: int,
)
    requires
        0 <= i <= rows.len(),
        model.inner.len() == i,
        scopes_form_a_tree(model.scopes),
        inner_scopes_exist(model),
        children_are_listed(model.scopes),
    ensures
        children_are_listed(entered_from(rows, source, model, i).scopes),
    decreases rows.len() - i,
{
    if i < rows.len() {
        lemma_entered_keeps_tree(rows, source, model, i);
        let current = outer_scope(rows, model.inner, i);
        let outer = bindings::outer_bindings(rows, source, i);
        let around = all_declared(model.scopes, rows, source, current, outer, 0);
        lemma_all_declared_keeps_tree(model.scopes, rows, source, current, outer, 0);
        lemma_all_declared_keeps_lists(model.scopes, rows, source, current, outer, 0);
        if let Some(scope_type) = bindings::opened_scope(rows, i) {
            lemma_opened_keeps_tree(around, current, scope_type, rows[i]);
            lemma_opened_keeps_lists(around, current, scope_type, rows[i]);
            lemma_all_declared_keeps_lists(
                opened(around, current, scope_type, rows[i]),
                rows,
                source,
                around.len() as int,
                bindings::inner_bindings(rows, source, i),
                0,
            );
        }
        lemma_entering_keeps_lists(rows, source, entered(rows, source, model, i), i + 1);
    }
}

/// The scopes of a syntax tree form a tree in which parents and children
/// agree: every scope but the root is listed by its parent.
pub proof fn law_scopes_list_their_children(rows: Seq<RowModel>, source: Seq<char>)
    requires
        syntax::lists_a_tree(rows),
    ensures
        scopes_form_a_tree(analyzed(seq![global_scope()], rows, source).scopes),
        children_are_listed(analyzed(seq![global_scope()], rows, source).scopes),
{
    let scopes = rooted(seq![global_scope()], rows);
    let model = ScopesModel { scopes, inner: Seq::empty() };
    assert(scope_fits(scopes, 0));
    assert(is_listed(scopes, 0));
    law_entering_keeps_tree(rows, source, model, 0);
    lemma_entering_keeps_lists(rows, source, model, 0);
}

/// A declaration in a scope hides every declaration of that name around it.
pub proof fn law_inner_declarations_hide_outer_ones(
    scopes: Seq<ScopeModel>,
    name: Seq<char>,
    s: int,
    k: int,
)
    requires
        0 <= s < scopes.len(),
        0 <= k < scopes[s].variables.len(),
        scopes[s].variables[k].name == name,
    ensures
        resolved(scopes, name, s) matches Some((owner, position)) && owner == s && position <= k,
{
    lemma_variable_named(scopes[s].variables, name, 0, k);
}

proof fn lemma_variable_named(variables: Seq<VariableModel>, name: Seq<char>, from: int, k: int)
    requires
        0 <= from <= k < variables.len(),
        variables[k].name == name,
    ensures
        variable_named(variables, name, from) matches Some(position) && from <= position <= k,
    decreases k - from,
{
    if from < k && variables[from].name != name {
        lemma_variable_named(variables, name, from + 1, k);
    }
}

/// A name resolves in a scope only to a variable of that name, in the scope
/// itself or in one around it.
pub proof fn law_resolution_finds_the_name(scopes: Seq<ScopeModel>, name: Seq<char>, s: int)
    requires
        scopes_form_a_tree(scopes),
        0 <= s < scopes.len(),
    ensures
        resolved(scopes, name, s) matches Some((owner, position)) ==> {
            &&& 0 <= owner <= s
            &&& 0 <= position < scopes[owner].variables.len()
            &&& scopes[owner].variables[position].name == name
        },
    decreases s,
{
    lemma_named_variable_exists(scopes[s].variables, name, 0);
    assert(scope_fits(scopes, s));
    match scopes[s].parent {
        Some(parent) => {
            law_resolution_finds_the_name(scopes, name, parent);
        },
        None => {},
    }
}

/// The scopes of resolved identifiers exist.
pub proof fn lemma_resolved_scopes_exist(
    rows: Seq<RowModel>,
    source: Seq<char>,
    model: ScopesModel,
    i: int,
)
    requires
        scopes_form_a_tree(model.scopes),
        inner_scopes_exist(model),
        model.inner.len() == rows.len(),
        0 <= i,
    ensures
        forall|k: int|
            0 <= k < resolved_from(rows, source, model, i).len() ==> 0 <= (
            #[trigger] resolved_from(rows, source, model, i)[k]).scope_id < model.scopes.len(),
    decreases rows.len() - i,
{
    if i < rows.len() {
        lemma_resolved_scopes_exist(rows, source, model, i + 1);
        let first = resolved_node(rows, source, model, i);
        let rest = resolved_from(rows, source, model, i + 1);
        let s = lookup_scope(rows, model.inner, i);
        syntax::lemma_parent_is_earlier(rows, i, i - 1);
        if let Some(parent) = syntax::parent_of(rows, i) {
            syntax::lemma_parent_is_earlier(rows, parent, parent - 1);
            assert(0 <= model.inner[parent] < model.scopes.len());
            if let Some(outer) = syntax::parent_of(rows, parent) {
                assert(0 <= model.inner[outer] < model.scopes.len());
            }
        }
        law_resolution_finds_the_name(model.scopes, syntax::text_of(rows, source, i), s);
        let all = resolved_from(rows, source, model, i);
        assert forall|k: int| 0 <= k < all.len() implies 0 <= (#[trigger] all[k]).scope_id
            < model.scopes.len() by {
            if k < first.len() {
                assert(all[k] == first[k]);
            } else {
                assert(all[k] == rest[k - first.len()]);
            }
        }
    }
}

proof fn lemma_named_variable_exists(variables: Seq<VariableModel>, name: Seq<char>, k: int)
    requires
        0 <= k,
    ensures
        variable_named(variables, name, k) matches Some(position) ==> 0 <= position
            < variables.len() && variables[position].name == name,
    decreases variables.len() - k,
{
    if k < variables.len() && variables[k].name != name {
        lemma_named_variable_exists(variables, name, k + 1);
    }
}

/// The state behind a [`ScopeAnalyzer`].
struct ScopeTable {
    scopes: Vec<Scope>,
    inner: Vec<usize>,
}

impl ScopeTable {
    spec fn model(self) -> ScopesModel {
        ScopesModel { scopes: scope_views(self.scopes@), inner: syntax::index_views(self.inner@) }
    }
}

/// Collects the scopes of a syntax tree.
pub struct ScopeAnalyzer {
    table: ScopeTable,
}

impl View for ScopeAnalyzer {
    type V = ScopesModel;

    closed spec fn view(&self) -> ScopesModel {
        self.table.model()
    }
}

/// The global scope ahead of any analysis.
pub open spec fn global_scope() -> ScopeModel {
    ScopeModel {
        id: 0,
        scope_type: ScopeType::Global,
        parent: None,
        children: Seq::empty(),
        variables: Seq::empty(),
        depth: 0,
        start_byte: 0,
        end_byte: usize::MAX as int,
    }
}

fn hoisting_scope_of(scopes: &Vec<Scope>, s: usize) -> (target: usize)
    requires
        scopes_form_a_tree(scope_views(scopes@)),
        s < scopes@.len(),
    ensures
        target == hoisting_scope(scope_views(scopes@), s as int),
        target < scopes@.len(),
{
    let ghost views = scope_views(scopes@);
    let mut at: usize = s;
    loop
        invariant
            views == scope_views(scopes@),
            scopes_form_a_tree(views),
            at < scopes@.len(),
            hoisting_scope(views, s as int) == hoisting_scope(views, at as int),
        decreases at,
    {
        assert(scope_fits(views, at as int));
        assert(views[at as int] == scopes@[at as int]@);
        if scopes[at].scope_type == ScopeType::Function || scopes[at].scope_type
            == ScopeType::Global {
            return at;
        }
        match scopes[at].parent {
            Some(parent) => {
                at = parent;
            },
            None => {
                return 0;
            },
        }
    }
}

fn declare(scopes: &mut Vec<Scope>, current: usize, variable: Variable)
    requires
        scopes_form_a_tree(scope_views(old(scopes)@)),
        current < old(scopes)@.len(),
    ensures
        scope_views(final(scopes)@) == declared(
            scope_views(old(scopes)@),
            current as int,
            variable@,
        ),
        scopes_form_a_tree(scope_views(final(scopes)@)),
        final(scopes)@.len() == old(scopes)@.len(),
{
    let ghost before = scopes@;
    let ghost model = variable@;
    proof {
        lemma_declared_keeps_tree(scope_views(before), current as int, model);
    }
    let target: usize = match variable.kind {
        VariableKind::Var => hoisting_scope_of(scopes, current),
        _ => current,
    };
    scopes[target].variables.push(variable);
    proof {
        assert(variable_views(scopes@[target as int].variables@) =~= variable_views(
            before[target as int].variables@,
        ).push(model));
        assert(scope_views(scopes@) =~= declared(scope_views(before), current as int, model));
    }
}

fn declare_all(
    scopes: &mut Vec<Scope>,
    tree: &SyntaxTree,
    source: &str,
    current: usize,
    pending: Vec<PendingBinding>,
)
    requires
        scopes_form_a_tree(scope_views(old(scopes)@)),
        current < old(scopes)@.len(),
        syntax::covers(tree@, source@),
        bindings::bindings_are_in(pending@, tree@.len() as int),
    ensures
        scope_views(final(scopes)@) == all_declared(
            scope_views(old(scopes)@),
            tree@,
            source@,
            current as int,
            bindings::binding_views(pending@),
            0,
        ),
        scopes_form_a_tree(scope_views(final(scopes)@)),
        final(scopes)@.len() == old(scopes)@.len(),
{
    let ghost list = bindings::binding_views(pending@);
    let ghost before = scope_views(scopes@);
    let ghost count = scopes@.len();
    let mut k: usize = 0;
    while k < pending.len()
        invariant
            k <= pending@.len(),
            list == bindings::binding_views(pending@),
            scopes_form_a_tree(scope_views(scopes@)),
            scopes@.len() == count,
            current < count,
            syntax::covers(tree@, source@),
            bindings::bindings_are_in(pending@, tree@.len() as int),
            all_declared(before, tree@, source@, current as int, list, 0) == all_declared(
                scope_views(scopes@),
                tree@,
                source@,
                current as int,
                list,
                k as int,
            ),
        decreases pending@.len() - k,
    {
        let node = pending[k].node;
        assert(list[k as int].node == node as int);
        let row = tree.row(node);
        let name = tree.text(node, source).to_string();
        let variable = Variable {
            name,
            kind: pending[k].kind,
            declaration_line: row.start_row,
            declaration_column: row.start_column,
            declaration_byte: row.start_byte,
            is_hoisted: pending[k].is_hoisted,
        };
        assert(variable@ == variable_of(tree@, source@, list[k as int]));
        declare(scopes, current, variable);
        k += 1;
    }
}

fn open_scope(
    scopes: &mut Vec<Scope>,
    current: usize,
    scope_type: ScopeType,
    start_byte: usize,
    end_byte: usize,
    row: Ghost<RowModel>,
)
    requires
        scopes_form_a_tree(scope_views(old(scopes)@)),
        current < old(scopes)@.len(),
        row@.start_byte == start_byte,
        row@.end_byte == end_byte,
    ensures
        scope_views(final(scopes)@) == opened(
            scope_views(old(scopes)@),
            current as int,
            scope_type,
            row@,
        ),
        scopes_form_a_tree(scope_views(final(scopes)@)),
        final(scopes)@.len() == old(scopes)@.len() + 1,
{
    let ghost before = scopes@;
    let id: usize = scopes.len();
    proof {
        assert(scope_fits(scope_views(before), current as int));
        lemma_opened_keeps_tree(scope_views(before), current as int, scope_type, row@);
    }
    let depth: usize = scopes[current].depth + 1;
    let scope = Scope {
        id,
        scope_type,
        parent: Some(current),
        children: Vec::new(),
        variables: Vec::new(),
        depth,
        start_byte,
        end_byte,
    };
    let ghost model = scope@;
    scopes.push(scope);
    let ghost between = scopes@;
    scopes[current].children.push(id);
    proof {
        let after = opened(scope_views(before), current as int, scope_type, row@);
        assert(syntax::index_views(Seq::<usize>::empty()) =~= Seq::<int>::empty());
        assert(variable_views(Seq::<Variable>::empty()) =~= Seq::<VariableModel>::empty());
        assert(syntax::index_views(scopes@[current as int].children@) =~= syntax::index_views(
            before[current as int].children@,
        ).push(id as int));
        assert(scopes@ == between.update(current as int, scopes@[current as int]));
        assert(scope_views(scopes@) =~= after);
    }
}

impl Default for ScopeAnalyzer {
    fn default() -> (analyzer: Self)
        ensures
            analyzer@.scopes == seq![global_scope()],
            analyzer@.inner == Seq::<int>::empty(),
    {
        ScopeAnalyzer::new()
    }
}

impl ScopeTable {
    fn new() -> (table: Self)
        ensures
            table.model().scopes == seq![global_scope()],
            table.model().inner == Seq::<int>::empty(),
            scopes_form_a_tree(table.model().scopes),
    {
        let global = Scope {
            id: 0,
            scope_type: ScopeType::Global,
            parent: None,
            children: Vec::new(),
            variables: Vec::new(),
            depth: 0,
            start_byte: 0,
            end_byte: usize::MAX,
        };
        let mut scopes: Vec<Scope> = Vec::new();
        let ghost model = global@;
        scopes.push(global);
        proof {
            assert(syntax::index_views(Seq::<usize>::empty()) =~= Seq::<int>::empty());
            assert(variable_views(Seq::<Variable>::empty()) =~= Seq::<VariableModel>::empty());
            assert(scope_views(scopes@) =~= seq![global_scope()]);
        }
        let table = ScopeTable { scopes, inner: Vec::new() };
        proof {
            assert(table.model().inner =~= Seq::<int>::empty());
        }
        table
    }

    fn enter(&mut self, tree: &SyntaxTree, source: &str, i: usize)
        requires
            i < tree@.len(),
            syntax::covers(tree@, source@),
            old(self).inner@.len() == i,
            scopes_form_a_tree(old(self).model().scopes),
            inner_scopes_exist(old(self).model()),
        ensures
            final(self).model() == entered(tree@, source@, old(self).model(), i as int),
    {
        let ghost before = self.model();
        proof {
            lemma_entered_keeps_tree(tree@, source@, before, i as int);
        }
        let current: usize = match tree.parent(i) {
            Some(parent) => {
                assert(before.inner[parent as int] == self.inner@[parent as int] as int);
                self.inner[parent]
            },
            None => 0,
        };
        let outer = declares_outside(tree, source, i);
        declare_all(&mut self.scopes, tree, source, current, outer);
        let ghost around = scope_views(self.scopes@);
        match opens(tree, i) {
            None => {
                self.inner.push(current);
                proof {
                    assert(self.model().inner =~= before.inner.push(current as int));
                }
            },
            Some(scope_type) => {
                let row = tree.row(i);
                let id: usize = self.scopes.len();
                open_scope(
                    &mut self.scopes,
                    current,
                    scope_type,
                    row.start_byte,
                    row.end_byte,
                    Ghost(row@),
                );
                let inside = declares_inside(tree, source, i);
                declare_all(&mut self.scopes, tree, source, id, inside);
                self.inner.push(id);
                proof {
                    assert(self.model().inner =~= before.inner.push(id as int));
                }
            },
        }
    }
}

impl ScopeAnalyzer {
    #[verifier::type_invariant]
    spec fn is_wf(self) -> bool {
        &&& scopes_form_a_tree(self.table.model().scopes)
        &&& inner_scopes_exist(self.table.model())
    }

    /// An analyzer that knows the global scope alone.
    pub fn new() -> (analyzer: Self)
        ensures
            analyzer@.scopes == seq![global_scope()],
            analyzer@.inner == Seq::<int>::empty(),
    {
        ScopeAnalyzer { table: ScopeTable::new() }
    }

    /// Adds the scopes of a syntax tree over a text.
    pub fn analyze(&mut self, tree: &SyntaxTree, source: &str)
        requires
            syntax::covers(tree@, source@),
        ensures
            final(self)@ == analyzed(old(self)@.scopes, tree@, source@),
            scopes_form_a_tree(final(self)@.scopes),
            inner_scopes_exist(final(self)@),
            final(self)@.inner.len() == tree@.len(),
    {
        proof {
            use_type_invariant(&*self);
        }
        let ghost before = self@.scopes;
        let mut table = ScopeTable::new();
        std::mem::swap(&mut table, &mut self.table);
        let length: usize = tree.len();
        let root = tree.row(0);
        let ghost old_scopes = table.scopes@;
        assert(scope_fits(before, 0));
        table.scopes[0].start_byte = root.start_byte;
        table.scopes[0].end_byte = root.end_byte;
        table.inner = Vec::new();
        let ghost start = ScopesModel { scopes: rooted(before, tree@), inner: Seq::empty() };
        proof {
            assert(table.model().scopes =~= rooted(before, tree@));
            assert(table.model().inner =~= Seq::<int>::empty());
            assert forall|s: int| 0 <= s < start.scopes.len() implies #[trigger] scope_fits(
                start.scopes,
                s,
            ) by {
                assert(scope_fits(before, s));
            }
        }
        let mut i: usize = 0;
        while i < length
            invariant
                i <= length,
                length == tree@.len(),
                syntax::covers(tree@, source@),
                syntax::lists_a_tree(tree@),
                table.inner@.len() == i,
                scopes_form_a_tree(table.model().scopes),
                inner_scopes_exist(table.model()),
                entered_from(tree@, source@, start, 0) == entered_from(
                    tree@,
                    source@,
                    table.model(),
                    i as int,
                ),
            decreases length - i,
        {
            proof {
                lemma_entered_keeps_tree(tree@, source@, table.model(), i as int);
            }
            table.enter(tree, source, i);
            i += 1;
        }
        self.table = table;
    }

    /// The scopes, by identifier.
    pub fn get_scopes(&self) -> (scopes: &Vec<Scope>)
        ensures
            scope_views(scopes@) == self@.scopes,
            scopes_form_a_tree(self@.scopes),
    {
        proof {
            use_type_invariant(self);
        }
        &self.table.scopes
    }

    /// The scope inside a node of the tree that was analyzed last.
    pub(crate) fn scope_inside(&self, i: usize) -> (s: usize)
        requires
            i < self@.inner.len(),
        ensures
            s == self@.inner[i as int],
            s < self@.scopes.len(),
    {
        proof {
            use_type_invariant(self);
            assert(self@.inner[i as int] == self.table.inner@[i as int] as int);
        }
        self.table.inner[i]
    }

    /// The deepest scope that covers a byte.
    pub fn innermost_scope_at(&self, byte: usize) -> (id: usize)
        ensures
            id == innermost(self@.scopes, byte as int),
            id < self@.scopes.len(),
    {
        proof {
            use_type_invariant(self);
        }
        let scopes = &self.table.scopes;
        let ghost views = self@.scopes;
        let mut best: Option<usize> = None;
        let mut s: usize = 0;
        while s < scopes.len()
            invariant
                s <= scopes@.len(),
                views == scope_views(scopes@),
                syntax::index_view(best) == innermost_upto(views, byte as int, s as int),
                best matches Some(b) ==> b < s,
            decreases scopes@.len() - s,
        {
            assert(views[s as int] == scopes@[s as int]@);
            if scopes[s].start_byte <= byte && byte < scopes[s].end_byte {
                let deeper = match best {
                    Some(b) => {
                        assert(views[b as int] == scopes@[b as int]@);
                        scopes[b].depth <= scopes[s].depth
                    },
                    None => true,
                };
                if deeper {
                    best = Some(s);
                }
            }
            s += 1;
        }
        match best {
            Some(b) => b,
            None => 0,
        }
    }

    /// The scope below another one that covers exactly what a node covers.
    pub fn child_scope_for_node(&self, parent_scope_id: usize, tree: &SyntaxTree, node: usize) -> (r:
        Option<usize>)
        requires
            node < tree@.len(),
        ensures
            syntax::index_view(r) == child_scope(
                self@.scopes,
                parent_scope_id as int,
                tree@[node as int].start_byte,
                tree@[node as int].end_byte,
                0,
            ),
    {
        let scopes = &self.table.scopes;
        let ghost views = self@.scopes;
        let row = tree.row(node);
        let mut s: usize = 0;
        while s < scopes.len()
            invariant
                s <= scopes@.len(),
                views == scope_views(scopes@),
                views == self@.scopes,
                node < tree@.len(),
                row@ == tree@[node as int],
                child_scope(
                    views,
                    parent_scope_id as int,
                    row.start_byte as int,
                    row.end_byte as int,
                    0,
                ) == child_scope(
                    views,
                    parent_scope_id as int,
                    row.start_byte as int,
                    row.end_byte as int,
                    s as int,
                ),
            decreases scopes@.len() - s,
        {
            assert(views[s as int] == scopes@[s as int]@);
            let below = match scopes[s].parent {
                Some(parent) => parent == parent_scope_id,
                None => false,
            };
            if below && scopes[s].start_byte == row.start_byte && scopes[s].end_byte
                == row.end_byte {
                return Some(s);
            }
            s += 1;
        }
        None
    }

    /// The scope and the position in it of the variable that a name stands
    /// for, seen from a scope.
    pub fn find_variable(&self, name: &str, from_scope_id: usize) -> (r: Option<(usize, usize)>)
        ensures
            from_scope_id >= self@.scopes.len() ==> r is None,
            from_scope_id < self@.scopes.len() ==> found_view(r) == resolved(
                self@.scopes,
                name@,
                from_scope_id as int,
            ),
    {
        proof {
            use_type_invariant(self);
        }
        let scopes = &self.table.scopes;
        let ghost views = self@.scopes;
        if from_scope_id >= scopes.len() {
            return None;
        }
        let mut s: usize = from_scope_id;
        loop
            invariant
                views == scope_views(scopes@),
                scopes_form_a_tree(views),
                s < scopes@.len(),
                from_scope_id < scopes@.len(),
                resolved(views, name@, from_scope_id as int) == resolved(views, name@, s as int),
                views == self@.scopes,
            decreases s,
        {
            assert(scope_fits(views, s as int));
            assert(views[s as int] == scopes@[s as int]@);
            if let Some(position) = position_of(&scopes[s].variables, name) {
                return Some((s, position));
            }
            match scopes[s].parent {
                Some(parent) => {
                    s = parent;
                },
                None => {
                    return None;
                },
            }
        }
    }

    fn lookup_scope_of(&self, tree: &SyntaxTree, i: usize) -> (s: usize)
        requires
            i < tree@.len(),
            self@.inner.len() == tree@.len(),
        ensures
            s == lookup_scope(tree@, self@.inner, i as int),
            s < self@.scopes.len(),
    {
        proof {
            use_type_invariant(self);
        }
        match tree.parent(i) {
            None => 0,
            Some(parent) => {
                let names_declaration = (tree.is_kind(parent, "function_declaration")
                    || tree.is_kind(parent, "class_declaration")) && has_field(tree, i, "name");
                if names_declaration {
                    match tree.parent(parent) {
                        None => 0,
                        Some(around) => self.scope_inside(around),
                    }
                } else {
                    self.scope_inside(parent)
                }
            },
        }
    }

    /// The declarations behind the identifiers of the tree that was analyzed
    /// last, in order.
    pub(crate) fn resolved_identifiers(&self, tree: &SyntaxTree, source: &str) -> (identifiers: Vec<
        ResolvedIdentifier,
    >)
        requires
            self@.inner.len() == tree@.len(),
            syntax::covers(tree@, source@),
        ensures
            resolved_views(identifiers@) == resolved_from(tree@, source@, self@, 0),
            forall|k: int|
                0 <= k < identifiers@.len() ==> (#[trigger] identifiers@[k]).node < tree@.len(),
    {
        proof {
            use_type_invariant(self);
        }
        let mut identifiers: Vec<ResolvedIdentifier> = Vec::new();
        let length: usize = tree.len();
        let mut i: usize = 0;
        assert(resolved_views(identifiers@) + resolved_from(tree@, source@, self@, 0)
            =~= resolved_from(tree@, source@, self@, 0));
        while i < length
            invariant
                i <= length,
                length == tree@.len(),
                self@.inner.len() == tree@.len(),
                scopes_form_a_tree(self@.scopes),
                syntax::covers(tree@, source@),
                resolved_from(tree@, source@, self@, 0) == resolved_views(identifiers@)
                    + resolved_from(tree@, source@, self@, i as int),
                forall|k: int|
                    0 <= k < identifiers@.len() ==> (#[trigger] identifiers@[k]).node
                        < tree@.len(),
            decreases length - i,
        {
            let ghost earlier = identifiers@;
            if identifier_kind(tree, i) && is_lexical_reference(tree, i) {
                let s = self.lookup_scope_of(tree, i);
                let name = tree.text(i, source);
                proof {
                    law_resolution_finds_the_name(self@.scopes, name@, s as int);
                }
                if let Some((owner, position)) = self.find_variable(name, s) {
                    let scopes = self.get_scopes();
                    assert(self@.scopes[owner as int] == scopes@[owner as int]@);
                    assert(self@.scopes[owner as int].variables[position as int]
                        == scopes@[owner as int].variables@[position as int]@);
                    identifiers.push(
                        ResolvedIdentifier {
                            node: i,
                            scope_id: owner,
                            declaration_byte: scopes[owner].variables[position].declaration_byte,
                        },
                    );
                }
            }
            proof {
                let part = resolved_node(tree@, source@, self@, i as int);
                let rest = resolved_from(tree@, source@, self@, i + 1);
                assert(resolved_views(identifiers@) =~= resolved_views(earlier) + part);
                assert(resolved_views(earlier) + (part + rest) =~= (resolved_views(earlier) + part)
                    + rest);
            }
            i += 1;
        }
        assert(resolved_views(identifiers@) + Seq::<ResolvedModel>::empty() =~= resolved_views(
            identifiers@,
        ));
        identifiers
    }
}

/// A found variable seen as integers.
pub open spec fn found_view(found: Option<(usize, usize)>) -> Option<(int, int)> {
    match found {
        Some((scope, position)) => Some((scope as int, position as int)),
        None => None,
    }
}

fn position_of(variables: &Vec<Variable>, name: &str) -> (r: Option<usize>)
    ensures
        syntax::index_view(r) == variable_named(variable_views(variables@), name@, 0),
{
    let ghost views = variable_views(variables@);
    let mut k: usize = 0;
    while k < variables.len()
        invariant
            k <= variables@.len(),
            views == variable_views(variables@),
            variable_named(views, name@, 0) == variable_named(views, name@, k as int),
        decreases variables@.len() - k,
    {
        assert(views[k as int] == variables@[k as int]@);
        if same_text(variables[k].name.as_str(), name) {
            return Some(k);
        }
        k += 1;
    }
    None
}

/// Whether a node stands in a field of its parent.
pub(crate) fn has_field(tree: &SyntaxTree, i: usize, field: &str) -> (r: bool)
    requires
        i < tree@.len(),
    ensures
        r == (tree@[i as int].field == Some(field@)),
{
    match tree.row(i).field {
        Some(own) => same_text(own, field),
        None => false,
    }
}

/// Whether a node is an identifier that can name a variable.
pub(crate) fn identifier_kind(tree: &SyntaxTree, i: usize) -> (r: bool)
    requires
        i < tree@.len(),
    ensures
        r == bindings::is_identifier_kind(tree@[i as int].kind),
{
    tree.is_kind(i, "identifier") || tree.is_kind(i, "shorthand_property_identifier")
        || tree.is_kind(i, "shorthand_property_identifier_pattern")
}

/// Whether an identifier node names a variable that its scope resolves.
pub(crate) fn is_lexical_reference(tree: &SyntaxTree, i: usize) -> (r: bool)
    requires
        i < tree@.len(),
    ensures
        r == is_lexical(tree@, i as int),
{
    match tree.parent(i) {
        None => true,
        Some(parent) => {
            if tree.is_kind(parent, "import_specifier") {
                match bindings::local_name_of(tree, parent) {
                    Some(name) => name == i,
                    None => false,
                }
            } else if tree.is_kind(parent, "namespace_export") {
                false
            } else if tree.is_kind(parent, "export_specifier") {
                !has_field(tree, i, "alias") && !reexported(tree, parent)
            } else {
                true
            }
        },
    }
}

fn reexported(tree: &SyntaxTree, specifier: usize) -> (r: bool)
    requires
        specifier < tree@.len(),
    ensures
        r == is_reexported(tree@, specifier as int),
{
    match tree.parent(specifier) {
        None => false,
        Some(clause) => match tree.parent(clause) {
            None => false,
            Some(statement) => tree.is_kind(statement, "export_statement")
                && tree.child_by_field_name(statement, "source").is_some(),
        },
    }
}

} // verus!
