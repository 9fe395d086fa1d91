//! Which scopes a text has, and which of them holds each variable.

use vstd::prelude::*;

use super::bindings::Binding;
use super::{ScopeModel, ScopeType, ScopesModel, VariableKind, VariableModel};
use crate::syntax;
use crate::syntax::RowModel;

use super::bindings;

verus! {

/// The scopes of a text.
pub open spec fn scopes_of(rows: Seq<RowModel>, source: Seq<char>) -> ScopesModel {
    super::analyzed(seq![super::global_scope()], rows, source)
}

/// Whether scope `h` is scope `s` or one around it.
pub open spec fn lies_around(scopes: Seq<ScopeModel>, h: int, s: int) -> bool
    decreases s,
{
    h == s || (0 <= s < scopes.len() && (scopes[s].parent matches Some(parent) && 0 <= parent < s
        && lies_around(scopes, h, parent)))
}

/// Whether a scope is that of a function or the global one.
pub open spec fn is_function_or_global(scope: ScopeModel) -> bool {
    scope.scope_type == ScopeType::Function || scope.scope_type == ScopeType::Global
}

/// Whether `h` is the nearest function or global scope at or around `s`: no
/// other one lies between them.
pub open spec fn is_nearest_function(scopes: Seq<ScopeModel>, h: int, s: int) -> bool {
    &&& 0 <= h < scopes.len()
    &&& lies_around(scopes, h, s)
    &&& is_function_or_global(scopes[h])
    &&& forall|k: int|
        #![trigger scopes[k]]
        0 <= k < scopes.len() && k != h && lies_around(scopes, k, s) && lies_around(scopes, h, k)
            ==> !is_function_or_global(scopes[k])
}

/// Where a variable that is declared in a scope is kept: a `var` in the
/// nearest function or global scope, everything else in the scope itself.
pub open spec fn is_home(scopes: Seq<ScopeModel>, home: int, s: int, kind: VariableKind) -> bool {
    if kind == VariableKind::Var {
        is_nearest_function(scopes, home, s)
    } else {
        home == s
    }
}

/// Whether a variable is the one that an identifier declares.
pub open spec fn is_of_node(
    variable: VariableModel,
    rows: Seq<RowModel>,
    source: Seq<char>,
    x: int,
    kind: VariableKind,
) -> bool {
    &&& variable.name == syntax::text_of(rows, source, x)
    &&& variable.kind == kind
    &&& variable.byte == rows[x].start_byte
    &&& variable.line == rows[x].start_row
    &&& variable.column == rows[x].start_column
}

/// Whether a scope holds the variable that an identifier declares.
pub open spec fn holds(
    scope: ScopeModel,
    rows: Seq<RowModel>,
    source: Seq<char>,
    x: int,
    kind: VariableKind,
) -> bool {
    exists|k: int|
        0 <= k < scope.variables.len() && is_of_node(
            #[trigger] scope.variables[k],
            rows,
            source,
            x,
            kind,
        )
}

pub(crate) proof fn lemma_around_is_earlier(scopes: Seq<ScopeModel>, h: int, s: int)
    requires
        lies_around(scopes, h, s),
    ensures
        h <= s,
    decreases s,
{
    if h != s {
        lemma_around_is_earlier(scopes, h, scopes[s].parent->0);
    }
}

proof fn lemma_hoisting_is_nearest(scopes: Seq<ScopeModel>, s: int)
    requires
        super::scopes_form_a_tree(scopes),
        0 <= s < scopes.len(),
    ensures
        is_nearest_function(scopes, super::hoisting_scope(scopes, s), s),
    decreases s,
{
    assert(super::scope_fits(scopes, s));
    let h = super::hoisting_scope(scopes, s);
    if is_function_or_global(scopes[s]) {
        assert forall|k: int|
            #![trigger scopes[k]]
            0 <= k < scopes.len() && k != h && lies_around(scopes, k, s) && lies_around(
                scopes,
                h,
                k,
            ) implies !is_function_or_global(scopes[k]) by {
            lemma_around_is_earlier(scopes, k, s);
            lemma_around_is_earlier(scopes, h, k);
        }
    } else {
        let parent = scopes[s].parent->0;
        lemma_hoisting_is_nearest(scopes, parent);
        assert forall|k: int|
            #![trigger scopes[k]]
            0 <= k < scopes.len() && k != h && lies_around(scopes, k, s) && lies_around(
                scopes,
                h,
                k,
            ) implies !is_function_or_global(scopes[k]) by {
            if k != s {
                assert(lies_around(scopes, k, parent));
            }
        }
    }
}

/// The nearest function or global scope is the only one.
proof fn lemma_nearest_is_one(scopes: Seq<ScopeModel>, a: int, b: int, s: int)
    requires
        is_nearest_function(scopes, a, s),
        is_nearest_function(scopes, b, s),
    ensures
        a == b,
{
    lemma_around_is_total(scopes, a, b, s);
    if a != b {
        if lies_around(scopes, a, b) {
            assert(!is_function_or_global(scopes[b]));
        } else {
            assert(!is_function_or_global(scopes[a]));
        }
    }
}

proof fn lemma_around_is_total(scopes: Seq<ScopeModel>, a: int, b: int, s: int)
    requires
        lies_around(scopes, a, s),
        lies_around(scopes, b, s),
    ensures
        lies_around(scopes, a, b) || lies_around(scopes, b, a),
    decreases s,
{
    if a != s && b != s {
        lemma_around_is_total(scopes, a, b, scopes[s].parent->0);
    }
}

/// Whether later scopes keep what earlier ones are: their kinds, ranges and
/// parents, and the variables that they hold.
spec fn scopes_grow(a: Seq<ScopeModel>, b: Seq<ScopeModel>) -> bool {
    &&& a.len() <= b.len()
    &&& forall|s: int| 0 <= s < a.len() ==> #[trigger] is_kept(a, b, s)
}

spec fn is_kept(a: Seq<ScopeModel>, b: Seq<ScopeModel>, s: int) -> bool {
    &&& a[s].scope_type == b[s].scope_type
    &&& a[s].parent == b[s].parent
    &&& a[s].start_byte == b[s].start_byte
    &&& a[s].end_byte == b[s].end_byte
    &&& a[s].variables.len() <= b[s].variables.len()
    &&& a[s].variables == b[s].variables.take(a[s].variables.len() as int)
}

proof fn lemma_growth_adds_up(a: Seq<ScopeModel>, b: Seq<ScopeModel>, c: Seq<ScopeModel>)
    requires
        scopes_grow(a, b),
        scopes_grow(b, c),
    ensures
        scopes_grow(a, c),
{
    assert forall|s: int| 0 <= s < a.len() implies #[trigger] is_kept(a, c, s) by {
        assert(is_kept(a, b, s));
        assert(is_kept(b, c, s));
        assert(c[s].variables.take(a[s].variables.len() as int) =~= b[s].variables.take(
            a[s].variables.len() as int,
        )) by {
            assert forall|k: int| 0 <= k < a[s].variables.len() implies c[s].variables[k]
                == b[s].variables[k] by {
                assert(c[s].variables.take(b[s].variables.len() as int)[k] == b[s].variables[k]);
            }
        }
    }
}

proof fn lemma_holds_on(
    a: Seq<ScopeModel>,
    b: Seq<ScopeModel>,
    s: int,
    rows: Seq<RowModel>,
    source: Seq<char>,
    x: int,
    kind: VariableKind,
)
    requires
        scopes_grow(a, b),
        0 <= s < a.len(),
        holds(a[s], rows, source, x, kind),
    ensures
        holds(b[s], rows, source, x, kind),
{
    assert(is_kept(a, b, s));
    let k = choose|k: int|
        0 <= k < a[s].variables.len() && is_of_node(
            #[trigger] a[s].variables[k],
            rows,
            source,
            x,
            kind,
        );
    assert(b[s].variables.take(a[s].variables.len() as int)[k] == b[s].variables[k]);
    assert(is_of_node(b[s].variables[k], rows, source, x, kind));
}

proof fn lemma_hoisting_stays(a: Seq<ScopeModel>, b: Seq<ScopeModel>, s: int)
    requires
        scopes_grow(a, b),
        super::scopes_form_a_tree(a),
        0 <= s < a.len(),
    ensures
        super::hoisting_scope(a, s) == super::hoisting_scope(b, s),
        0 <= super::hoisting_scope(a, s) < a.len(),
    decreases s,
{
    assert(is_kept(a, b, s));
    assert(super::scope_fits(a, s));
    if !is_function_or_global(a[s]) {
        lemma_hoisting_stays(a, b, a[s].parent->0);
    }
}

/// The scope that keeps a variable which is declared in a scope.
pub open spec fn home_of(scopes: Seq<ScopeModel>, s: int, kind: VariableKind) -> int {
    if kind == VariableKind::Var {
        super::hoisting_scope(scopes, s)
    } else {
        s
    }
}

proof fn lemma_home_stays(a: Seq<ScopeModel>, b: Seq<ScopeModel>, s: int, kind: VariableKind)
    requires
        scopes_grow(a, b),
        super::scopes_form_a_tree(a),
        0 <= s < a.len(),
    ensures
        home_of(a, s, kind) == home_of(b, s, kind),
        0 <= home_of(a, s, kind) < a.len(),
{
    lemma_hoisting_stays(a, b, s);
}

/// Whether a variable was there before, or one of some bindings declared it.
spec fn is_old_or_pending(
    a: Seq<ScopeModel>,
    b: Seq<ScopeModel>,
    rows: Seq<RowModel>,
    source: Seq<char>,
    current: int,
    pending: Seq<Binding>,
    s: int,
    m: int,
) -> bool {
    ||| s < a.len() && m < a[s].variables.len()
    ||| exists|j: int|
        0 <= j < pending.len() && s == home_of(a, current, (#[trigger] pending[j]).kind)
            && b[s].variables[m] == super::variable_of(rows, source, pending[j])
}

proof fn lemma_all_declared(
    scopes: Seq<ScopeModel>,
    rows: Seq<RowModel>,
    source: Seq<char>,
    current: int,
    pending: Seq<Binding>,
    k: int,
)
    requires
        super::scopes_form_a_tree(scopes),
        0 <= current < scopes.len(),
        0 <= k <= pending.len(),
    ensures
        ({
            let after = super::all_declared(scopes, rows, source, current, pending, k);
            &&& after.len() == scopes.len()
            &&& super::scopes_form_a_tree(after)
            &&& scopes_grow(scopes, after)
            &&& forall|j: int|
                k <= j < pending.len() ==> holds(
                    after[home_of(scopes, current, (#[trigger] pending[j]).kind)],
                    rows,
                    source,
                    pending[j].node,
                    pending[j].kind,
                )
            &&& forall|s: int, m: int|
                0 <= s < after.len() && 0 <= m < after[s].variables.len()
                    ==> #[trigger] is_old_or_pending(
                    scopes,
                    after,
                    rows,
                    source,
                    current,
                    pending,
                    s,
                    m,
                )
        }),
    decreases pending.len() - k,
{
    let after = super::all_declared(scopes, rows, source, current, pending, k);
    if k < pending.len() {
        let binding = pending[k];
        let variable = super::variable_of(rows, source, binding);
        let next = super::declared(scopes, current, variable);
        let home = home_of(scopes, current, binding.kind);
        super::lemma_declared_keeps_tree(scopes, current, variable);
        super::lemma_hoisting_scope(scopes, current);
        assert(scopes_grow(scopes, next)) by {
            assert forall|s: int| 0 <= s < scopes.len() implies #[trigger] is_kept(
                scopes,
                next,
                s,
            ) by {
                assert(next[s].variables.take(scopes[s].variables.len() as int)
                    =~= scopes[s].variables);
            }
        }
        lemma_all_declared(next, rows, source, current, pending, k + 1);
        lemma_growth_adds_up(scopes, next, after);
        assert forall|j: int| k <= j < pending.len() implies holds(
            after[home_of(scopes, current, (#[trigger] pending[j]).kind)],
            rows,
            source,
            pending[j].node,
            pending[j].kind,
        ) by {
            lemma_home_stays(scopes, next, current, pending[j].kind);
            if j == k {
                let last = next[home].variables.len() - 1;
                assert(next[home].variables[last] == variable);
                assert(is_of_node(
                    next[home].variables[last],
                    rows,
                    source,
                    binding.node,
                    binding.kind,
                ));
                assert(holds(next[home], rows, source, binding.node, binding.kind));
                lemma_holds_on(next, after, home, rows, source, binding.node, binding.kind);
            }
        }
        assert forall|s: int, m: int|
            0 <= s < after.len() && 0 <= m
                < after[s].variables.len() implies #[trigger] is_old_or_pending(
            scopes,
            after,
            rows,
            source,
            current,
            pending,
            s,
            m,
        ) by {
            assert(is_old_or_pending(next, after, rows, source, current, pending, s, m));
            assert(is_kept(next, after, s));
            if m < next[s].variables.len() {
                assert(after[s].variables.take(next[s].variables.len() as int)[m]
                    == next[s].variables[m]);
                if m >= scopes[s].variables.len() {
                    assert(s == home && next[s].variables[m] == variable);
                    assert(s == home_of(scopes, current, pending[k].kind));
                }
            } else {
                let j = choose|j: int|
                    0 <= j < pending.len() && s == home_of(
                        next,
                        current,
                        (#[trigger] pending[j]).kind,
                    ) && after[s].variables[m] == super::variable_of(rows, source, pending[j]);
                lemma_home_stays(scopes, next, current, pending[j].kind);
                assert(s == home_of(scopes, current, pending[j].kind));
            }
        }
    } else {
        assert forall|s: int| 0 <= s < scopes.len() implies #[trigger] is_kept(
            scopes,
            after,
            s,
        ) by {
            assert(after[s].variables.take(scopes[s].variables.len() as int)
                =~= scopes[s].variables);
        }
    }
}

spec fn is_good(model: ScopesModel, i: int) -> bool {
    &&& model.inner.len() == i
    &&& super::scopes_form_a_tree(model.scopes)
    &&& super::inner_scopes_exist(model)
}

/// Whether a model keeps what an earlier one holds.
spec fn grows(a: ScopesModel, b: ScopesModel) -> bool {
    &&& scopes_grow(a.scopes, b.scopes)
    &&& a.inner.len() <= b.inner.len()
    &&& forall|i: int| 0 <= i < a.inner.len() ==> #[trigger] a.inner[i] == b.inner[i]
}

/// Whether a variable is one that a node declares, in the scope around it or
/// in the one that it opens.
spec fn is_from(
    model: ScopesModel,
    rows: Seq<RowModel>,
    source: Seq<char>,
    i: int,
    s: int,
    m: int,
) -> bool {
    ||| exists|b: Binding| #[trigger]
        bindings::outer_bindings(rows, source, i).contains(b) && s == home_of(
            model.scopes,
            super::outer_scope(rows, model.inner, i),
            b.kind,
        ) && model.scopes[s].variables[m] == super::variable_of(rows, source, b)
    ||| bindings::opened_scope(rows, i) is Some && exists|b: Binding| #[trigger]
        bindings::inner_bindings(rows, source, i).contains(b) && s == home_of(
            model.scopes,
            model.inner[i],
            b.kind,
        ) && model.scopes[s].variables[m] == super::variable_of(rows, source, b)
}

spec fn is_sourced(
    model: ScopesModel,
    rows: Seq<RowModel>,
    source: Seq<char>,
    count: int,
    s: int,
    m: int,
) -> bool {
    exists|i: int| 0 <= i < count && #[trigger] is_from(model, rows, source, i, s, m)
}

proof fn lemma_opened_grows(
    scopes: Seq<ScopeModel>,
    current: int,
    scope_type: ScopeType,
    row: RowModel,
)
    requires
        super::scopes_form_a_tree(scopes),
        0 <= current < scopes.len(),
    ensures
        scopes_grow(scopes, super::opened(scopes, current, scope_type, row)),
{
    let after = super::opened(scopes, current, scope_type, row);
    assert forall|s: int| 0 <= s < scopes.len() implies #[trigger] is_kept(scopes, after, s) by {
        assert(after[s].variables.take(scopes[s].variables.len() as int) =~= scopes[s].variables);
    }
}

/// What one node does.
proof fn lemma_entered(rows: Seq<RowModel>, source: Seq<char>, model: ScopesModel, i: int)
    requires
        0 <= i < rows.len(),
        is_good(model, i),
    ensures
        ({
            let next = super::entered(rows, source, model, i);
            let current = super::outer_scope(rows, model.inner, i);
            let id = model.scopes.len() as int;
            &&& is_good(next, i + 1)
            &&& grows(model, next)
            &&& 0 <= current < model.scopes.len()
            &&& forall|b: Binding| #[trigger]
                bindings::outer_bindings(rows, source, i).contains(b) ==> holds(
                    next.scopes[home_of(model.scopes, current, b.kind)],
                    rows,
                    source,
                    b.node,
                    b.kind,
                )
            &&& match bindings::opened_scope(rows, i) {
                None => next.inner[i] == current,
                Some(scope_type) => {
                    &&& next.inner[i] == id
                    &&& id < next.scopes.len()
                    &&& next.scopes[id].scope_type == scope_type
                    &&& next.scopes[id].parent == Some(current)
                    &&& next.scopes[id].start_byte == rows[i].start_byte
                    &&& next.scopes[id].end_byte == rows[i].end_byte
                    &&& forall|b: Binding| #[trigger]
                        bindings::inner_bindings(rows, source, i).contains(b) ==> holds(
                            next.scopes[home_of(next.scopes, id, b.kind)],
                            rows,
                            source,
                            b.node,
                            b.kind,
                        )
                },
            }
            &&& forall|s: int, m: int|
                #![trigger next.scopes[s].variables[m]]
                0 <= s < next.scopes.len() && 0 <= m < next.scopes[s].variables.len() ==> (s
                    < model.scopes.len() && m < model.scopes[s].variables.len()) || is_from(
                    next,
                    rows,
                    source,
                    i,
                    s,
                    m,
                )
        }),
{
    let next = super::entered(rows, source, model, i);
    let current = super::outer_scope(rows, model.inner, i);
    let outer = bindings::outer_bindings(rows, source, i);
    let around = super::all_declared(model.scopes, rows, source, current, outer, 0);
    super::lemma_entered_keeps_tree(rows, source, model, i);
    lemma_all_declared(model.scopes, rows, source, current, outer, 0);
    syntax::lemma_parent_is_earlier(rows, i, i - 1);
    assert(super::outer_scope(rows, next.inner, i) == current);
    match bindings::opened_scope(rows, i) {
        None => {
            assert(next.scopes == around);
            assert forall|b: Binding| #[trigger] outer.contains(b) implies holds(
                next.scopes[home_of(model.scopes, current, b.kind)],
                rows,
                source,
                b.node,
                b.kind,
            ) by {
                let j = choose|j: int| 0 <= j < outer.len() && outer[j] == b;
                assert(outer[j].kind == b.kind);
            }
            assert forall|s: int, m: int|
                #![trigger next.scopes[s].variables[m]]
                0 <= s < next.scopes.len() && 0 <= m < next.scopes[s].variables.len() implies (s
                < model.scopes.len() && m < model.scopes[s].variables.len()) || is_from(
                next,
                rows,
                source,
                i,
                s,
                m,
            ) by {
                assert(is_old_or_pending(
                    model.scopes,
                    around,
                    rows,
                    source,
                    current,
                    outer,
                    s,
                    m,
                ));
                if m >= model.scopes[s].variables.len() {
                    let j = choose|j: int|
                        0 <= j < outer.len() && s == home_of(
                            model.scopes,
                            current,
                            (#[trigger] outer[j]).kind,
                        ) && around[s].variables[m] == super::variable_of(rows, source, outer[j]);
                    lemma_home_stays(model.scopes, around, current, outer[j].kind);
                    assert(outer.contains(outer[j]));
                    assert(is_from(next, rows, source, i, s, m));
                }
            }
        },
        Some(scope_type) => {
            let id = around.len() as int;
            let wider = super::opened(around, current, scope_type, rows[i]);
            let inner = bindings::inner_bindings(rows, source, i);
            super::lemma_opened_keeps_tree(around, current, scope_type, rows[i]);
            lemma_opened_grows(around, current, scope_type, rows[i]);
            lemma_all_declared(wider, rows, source, id, inner, 0);
            lemma_growth_adds_up(model.scopes, around, wider);
            lemma_growth_adds_up(around, wider, next.scopes);
            lemma_growth_adds_up(model.scopes, around, next.scopes);
            assert(is_kept(wider, next.scopes, id));
            assert forall|b: Binding| #[trigger] outer.contains(b) implies holds(
                next.scopes[home_of(model.scopes, current, b.kind)],
                rows,
                source,
                b.node,
                b.kind,
            ) by {
                let j = choose|j: int| 0 <= j < outer.len() && outer[j] == b;
                assert(outer[j].kind == b.kind);
                lemma_home_stays(model.scopes, around, current, b.kind);
                lemma_holds_on(
                    around,
                    next.scopes,
                    home_of(model.scopes, current, b.kind),
                    rows,
                    source,
                    b.node,
                    b.kind,
                );
            }
            assert forall|b: Binding| #[trigger] inner.contains(b) implies holds(
                next.scopes[home_of(next.scopes, id, b.kind)],
                rows,
                source,
                b.node,
                b.kind,
            ) by {
                let j = choose|j: int| 0 <= j < inner.len() && inner[j] == b;
                assert(inner[j].kind == b.kind);
                lemma_home_stays(wider, next.scopes, id, b.kind);
            }
            assert forall|s: int, m: int|
                #![trigger next.scopes[s].variables[m]]
                0 <= s < next.scopes.len() && 0 <= m < next.scopes[s].variables.len() implies (s
                < model.scopes.len() && m < model.scopes[s].variables.len()) || is_from(
                next,
                rows,
                source,
                i,
                s,
                m,
            ) by {
                assert(is_old_or_pending(
                    wider,
                    next.scopes,
                    rows,
                    source,
                    id,
                    inner,
                    s,
                    m,
                ));
                assert(is_kept(wider, next.scopes, s));
                if m < wider[s].variables.len() {
                    assert(s < id);
                    assert(is_kept(around, wider, s));
                    assert(wider[s].variables == around[s].variables);
                    assert(next.scopes[s].variables.take(wider[s].variables.len() as int)[m]
                        == around[s].variables[m]);
                    assert(is_old_or_pending(
                        model.scopes,
                        around,
                        rows,
                        source,
                        current,
                        outer,
                        s,
                        m,
                    ));
                    if m >= model.scopes[s].variables.len() {
                        let j = choose|j: int|
                            0 <= j < outer.len() && s == home_of(
                                model.scopes,
                                current,
                                (#[trigger] outer[j]).kind,
                            ) && around[s].variables[m] == super::variable_of(
                                rows,
                                source,
                                outer[j],
                            );
                        lemma_home_stays(model.scopes, next.scopes, current, outer[j].kind);
                        assert(outer.contains(outer[j]));
                        assert(is_from(next, rows, source, i, s, m));
                    }
                } else {
                    let j = choose|j: int|
                        0 <= j < inner.len() && s == home_of(
                            wider,
                            id,
                            (#[trigger] inner[j]).kind,
                        ) && next.scopes[s].variables[m] == super::variable_of(
                            rows,
                            source,
                            inner[j],
                        );
                    lemma_home_stays(wider, next.scopes, id, inner[j].kind);
                    assert(inner.contains(inner[j]));
                    assert(is_from(next, rows, source, i, s, m));
                }
            }
        },
    }
}

/// What a node declares stays declared by it.
proof fn lemma_from_stays(
    a: ScopesModel,
    b: ScopesModel,
    rows: Seq<RowModel>,
    source: Seq<char>,
    count: int,
    i: int,
    s: int,
    m: int,
)
    requires
        is_good(a, count),
        grows(a, b),
        0 <= i < count <= rows.len(),
        0 <= s < a.scopes.len(),
        0 <= m < a.scopes[s].variables.len(),
        is_from(a, rows, source, i, s, m),
    ensures
        is_from(b, rows, source, i, s, m),
{
    assert(is_kept(a.scopes, b.scopes, s));
    assert(b.scopes[s].variables.take(a.scopes[s].variables.len() as int)[m]
        == a.scopes[s].variables[m]);
    syntax::lemma_parent_is_earlier(rows, i, i - 1);
    let current = super::outer_scope(rows, a.inner, i);
    assert(super::outer_scope(rows, b.inner, i) == current) by {
        if let Some(parent) = syntax::parent_of(rows, i) {
            assert(a.inner[parent] == b.inner[parent]);
        }
    }
    assert(a.inner[i] == b.inner[i]);
    assert(0 <= current < a.scopes.len()) by {
        if let Some(parent) = syntax::parent_of(rows, i) {
            assert(0 <= a.inner[parent] < a.scopes.len());
        } else {
            assert(super::scope_fits(a.scopes, 0));
        }
    }
    assert forall|kind: VariableKind| #[trigger] home_of(a.scopes, current, kind) == home_of(
        b.scopes,
        current,
        kind,
    ) by {
        lemma_home_stays(a.scopes, b.scopes, current, kind);
    }
    assert forall|kind: VariableKind| #[trigger] home_of(a.scopes, a.inner[i], kind) == home_of(
        b.scopes,
        a.inner[i],
        kind,
    ) by {
        lemma_home_stays(a.scopes, b.scopes, a.inner[i], kind);
    }
}

/// The scopes before node `i` is entered.
spec fn model_upto(rows: Seq<RowModel>, source: Seq<char>, i: int) -> ScopesModel
    decreases i,
{
    if i <= 0 {
        ScopesModel {
            scopes: super::rooted(seq![super::global_scope()], rows),
            inner: Seq::empty(),
        }
    } else {
        super::entered(rows, source, model_upto(rows, source, i - 1), i - 1)
    }
}

proof fn lemma_upto(rows: Seq<RowModel>, source: Seq<char>, i: int)
    requires
        syntax::lists_a_tree(rows),
        0 <= i <= rows.len(),
    ensures
        is_good(model_upto(rows, source, i), i),
        scopes_of(rows, source) == super::entered_from(rows, source, model_upto(rows, source, i), i),
        forall|s: int, m: int|
            #![trigger is_sourced(model_upto(rows, source, i), rows, source, i, s, m)]
            0 <= s < model_upto(rows, source, i).scopes.len() && 0 <= m < model_upto(
                rows,
                source,
                i,
            ).scopes[s].variables.len() ==> is_sourced(
                model_upto(rows, source, i),
                rows,
                source,
                i,
                s,
                m,
            ),
    decreases i,
{
    let model = model_upto(rows, source, i);
    if i == 0 {
        assert(super::scope_fits(model.scopes, 0));
    } else {
        let before = model_upto(rows, source, i - 1);
        lemma_upto(rows, source, i - 1);
        lemma_entered(rows, source, before, i - 1);
        assert forall|s: int, m: int|
            #![trigger is_sourced(model, rows, source, i, s, m)]
            0 <= s < model.scopes.len() && 0 <= m < model.scopes[s].variables.len() implies is_sourced(
            model,
            rows,
            source,
            i,
            s,
            m,
        ) by {
            let variable = model.scopes[s].variables[m];
            if s < before.scopes.len() && m < before.scopes[s].variables.len() {
                assert(is_sourced(before, rows, source, i - 1, s, m));
                let j = choose|j: int|
                    0 <= j < i - 1 && #[trigger] is_from(before, rows, source, j, s, m);
                lemma_from_stays(before, model, rows, source, i - 1, j, s, m);
                assert(is_from(model, rows, source, j, s, m));
            } else {
                assert(is_from(model, rows, source, i - 1, s, m));
            }
        }
    }
}

proof fn lemma_grows_on(rows: Seq<RowModel>, source: Seq<char>, i: int, j: int)
    requires
        syntax::lists_a_tree(rows),
        0 <= i <= j <= rows.len(),
    ensures
        grows(model_upto(rows, source, i), model_upto(rows, source, j)),
    decreases j - i,
{
    let a = model_upto(rows, source, i);
    if i == j {
        assert forall|s: int| 0 <= s < a.scopes.len() implies #[trigger] is_kept(
            a.scopes,
            a.scopes,
            s,
        ) by {
            assert(a.scopes[s].variables.take(a.scopes[s].variables.len() as int)
                =~= a.scopes[s].variables);
        }
    } else {
        lemma_grows_on(rows, source, i, j - 1);
        lemma_upto(rows, source, j - 1);
        let b = model_upto(rows, source, j - 1);
        let c = model_upto(rows, source, j);
        lemma_entered(rows, source, b, j - 1);
        lemma_growth_adds_up(a.scopes, b.scopes, c.scopes);
        assert forall|k: int| 0 <= k < a.inner.len() implies #[trigger] a.inner[k] == c.inner[k] by {
            assert(a.inner[k] == b.inner[k]);
            assert(b.inner[k] == c.inner[k]);
        }
    }
}

proof fn lemma_whole(rows: Seq<RowModel>, source: Seq<char>, i: int)
    requires
        syntax::lists_a_tree(rows),
        0 <= i < rows.len(),
    ensures
        scopes_of(rows, source) == model_upto(rows, source, rows.len() as int),
        is_good(scopes_of(rows, source), rows.len() as int),
        grows(model_upto(rows, source, i), scopes_of(rows, source)),
        grows(model_upto(rows, source, i + 1), scopes_of(rows, source)),
        super::outer_scope(rows, scopes_of(rows, source).inner, i) == super::outer_scope(
            rows,
            model_upto(rows, source, i).inner,
            i,
        ),
{
    let n = rows.len() as int;
    lemma_upto(rows, source, n);
    lemma_upto(rows, source, i);
    lemma_grows_on(rows, source, i, n);
    lemma_grows_on(rows, source, i + 1, n);
    syntax::lemma_parent_is_earlier(rows, i, i - 1);
}

proof fn lemma_home(rows: Seq<RowModel>, source: Seq<char>, s: int, kind: VariableKind)
    requires
        super::scopes_form_a_tree(scopes_of(rows, source).scopes),
        0 <= s < scopes_of(rows, source).scopes.len(),
    ensures
        is_home(
            scopes_of(rows, source).scopes,
            home_of(scopes_of(rows, source).scopes, s, kind),
            s,
            kind,
        ),
{
    lemma_hoisting_is_nearest(scopes_of(rows, source).scopes, s);
}

pub(crate) proof fn lemma_scopes_are_good(rows: Seq<RowModel>, source: Seq<char>)
    requires
        syntax::lists_a_tree(rows),
    ensures
        super::scopes_form_a_tree(scopes_of(rows, source).scopes),
        scopes_of(rows, source).scopes.len() > 0,
        scopes_of(rows, source).inner.len() == rows.len(),
        forall|i: int|
            0 <= i < rows.len() ==> 0 <= #[trigger] scopes_of(rows, source).inner[i] < scopes_of(
                rows,
                source,
            ).scopes.len(),
{
    lemma_whole(rows, source, 0);
}

/// Which scope a node lies in, or opens.
pub(crate) proof fn lemma_node(rows: Seq<RowModel>, source: Seq<char>, i: int)
    requires
        syntax::lists_a_tree(rows),
        0 <= i < rows.len(),
    ensures
        ({
            let model = scopes_of(rows, source);
            let current = super::outer_scope(rows, model.inner, i);
            let s = model.inner[i];
            match bindings::opened_scope(rows, i) {
                None => s == current,
                Some(scope_type) => {
                    &&& 0 < s < model.scopes.len()
                    &&& model.scopes[s].scope_type == scope_type
                    &&& model.scopes[s].parent == Some(current)
                    &&& model.scopes[s].start_byte == rows[i].start_byte
                    &&& model.scopes[s].end_byte == rows[i].end_byte
                    &&& forall|j: int| 0 <= j < i ==> #[trigger] model.inner[j] != s
                },
            }
        }),
{
    let model = scopes_of(rows, source);
    let before = model_upto(rows, source, i);
    let next = model_upto(rows, source, i + 1);
    lemma_whole(rows, source, i);
    lemma_upto(rows, source, i);
    lemma_entered(rows, source, before, i);
    assert(next.inner[i] == model.inner[i]);
    if bindings::opened_scope(rows, i) is Some {
        assert(is_kept(next.scopes, model.scopes, next.inner[i]));
        assert forall|j: int| 0 <= j < i implies #[trigger] model.inner[j] != model.inner[i] by {
            assert(before.inner[j] == model.inner[j]);
        }
    }
}

pub(crate) proof fn lemma_outer_is_held(
    rows: Seq<RowModel>,
    source: Seq<char>,
    i: int,
    b: Binding,
)
    requires
        syntax::lists_a_tree(rows),
        0 <= i < rows.len(),
        bindings::outer_bindings(rows, source, i).contains(b),
    ensures
        ({
            let model = scopes_of(rows, source);
            let current = super::outer_scope(rows, model.inner, i);
            let home = home_of(model.scopes, current, b.kind);
            is_home(model.scopes, home, current, b.kind) && holds(
                model.scopes[home],
                rows,
                source,
                b.node,
                b.kind,
            )
        }),
{
    let model = scopes_of(rows, source);
    let before = model_upto(rows, source, i);
    let next = model_upto(rows, source, i + 1);
    lemma_whole(rows, source, i);
    lemma_upto(rows, source, i);
    lemma_entered(rows, source, before, i);
    let current = super::outer_scope(rows, before.inner, i);
    lemma_home_stays(before.scopes, model.scopes, current, b.kind);
    lemma_home(rows, source, current, b.kind);
    lemma_holds_on(
        next.scopes,
        model.scopes,
        home_of(before.scopes, current, b.kind),
        rows,
        source,
        b.node,
        b.kind,
    );
}

pub(crate) proof fn lemma_inner_is_held(
    rows: Seq<RowModel>,
    source: Seq<char>,
    i: int,
    b: Binding,
)
    requires
        syntax::lists_a_tree(rows),
        0 <= i < rows.len(),
        bindings::opened_scope(rows, i) is Some,
        bindings::inner_bindings(rows, source, i).contains(b),
    ensures
        ({
            let model = scopes_of(rows, source);
            let home = home_of(model.scopes, model.inner[i], b.kind);
            is_home(model.scopes, home, model.inner[i], b.kind) && holds(
                model.scopes[home],
                rows,
                source,
                b.node,
                b.kind,
            )
        }),
{
    let model = scopes_of(rows, source);
    let before = model_upto(rows, source, i);
    let next = model_upto(rows, source, i + 1);
    lemma_whole(rows, source, i);
    lemma_upto(rows, source, i);
    lemma_entered(rows, source, before, i);
    let id = before.scopes.len() as int;
    assert(next.inner[i] == model.inner[i]);
    lemma_home_stays(next.scopes, model.scopes, id, b.kind);
    lemma_home(rows, source, id, b.kind);
    lemma_holds_on(
        next.scopes,
        model.scopes,
        home_of(next.scopes, id, b.kind),
        rows,
        source,
        b.node,
        b.kind,
    );
}

/// The node and the declaration that a variable comes from, and whether it is
/// one inside the node.
pub(crate) proof fn lemma_is_brought(
    rows: Seq<RowModel>,
    source: Seq<char>,
    s: int,
    m: int,
) -> (r: (int, Binding, bool))
    requires
        syntax::lists_a_tree(rows),
        0 <= s < scopes_of(rows, source).scopes.len(),
        0 <= m < scopes_of(rows, source).scopes[s].variables.len(),
    ensures
        ({
            let model = scopes_of(rows, source);
            let (i, b, inside) = r;
            &&& 0 <= i < rows.len()
            &&& model.scopes[s].variables[m] == super::variable_of(rows, source, b)
            &&& b.kind == VariableKind::Var ==> is_function_or_global(model.scopes[s])
            &&& if inside {
                bindings::inner_bindings(rows, source, i).contains(b) && is_home(
                    model.scopes,
                    s,
                    model.inner[i],
                    b.kind,
                )
            } else {
                bindings::outer_bindings(rows, source, i).contains(b) && is_home(
                    model.scopes,
                    s,
                    super::outer_scope(rows, model.inner, i),
                    b.kind,
                )
            }
        }),
{
    let n = rows.len() as int;
    let model = scopes_of(rows, source);
    lemma_whole(rows, source, 0);
    lemma_upto(rows, source, n);
    assert(is_sourced(model, rows, source, n, s, m));
    let i = choose|i: int| 0 <= i < n && #[trigger] is_from(model, rows, source, i, s, m);
    let current = super::outer_scope(rows, model.inner, i);
    syntax::lemma_parent_is_earlier(rows, i, i - 1);
    assert(0 <= current < model.scopes.len()) by {
        if let Some(parent) = syntax::parent_of(rows, i) {
            assert(0 <= model.inner[parent] < model.scopes.len());
        }
    }
    assert(0 <= model.inner[i] < model.scopes.len());
    if exists|b: Binding| #[trigger]
        bindings::outer_bindings(rows, source, i).contains(b) && s == home_of(
            model.scopes,
            current,
            b.kind,
        ) && model.scopes[s].variables[m] == super::variable_of(rows, source, b) {
        let b = choose|b: Binding| #[trigger]
            bindings::outer_bindings(rows, source, i).contains(b) && s == home_of(
                model.scopes,
                current,
                b.kind,
            ) && model.scopes[s].variables[m] == super::variable_of(rows, source, b);
        lemma_home(rows, source, current, b.kind);
        (i, b, false)
    } else {
        let b = choose|b: Binding| #[trigger]
            bindings::inner_bindings(rows, source, i).contains(b) && s == home_of(
                model.scopes,
                model.inner[i],
                b.kind,
            ) && model.scopes[s].variables[m] == super::variable_of(rows, source, b);
        lemma_home(rows, source, model.inner[i], b.kind);
        (i, b, true)
    }
}

/// Whether a scope declares a name.
pub open spec fn declares_name(scope: ScopeModel, name: Seq<char>) -> bool {
    exists|k: int| 0 <= k < scope.variables.len() && (#[trigger] scope.variables[k]).name == name
}

proof fn lemma_first_named(variables: Seq<VariableModel>, name: Seq<char>, k: int)
    requires
        0 <= k,
    ensures
        match super::variable_named(variables, name, k) {
            Some(at) => k <= at < variables.len() && variables[at].name == name && forall|j: int|
                k <= j < at ==> (#[trigger] variables[j]).name != name,
            None => forall|j: int|
                k <= j < variables.len() ==> (#[trigger] variables[j]).name != name,
        },
    decreases variables.len() - k,
{
    if k < variables.len() && variables[k].name != name {
        lemma_first_named(variables, name, k + 1);
    }
}

/// A name resolves to the first variable of that name in the nearest scope, at
/// or around the place where it stands, that declares it. It does not resolve
/// exactly where no scope around declares it.
pub proof fn law_names_resolve_to_the_nearest_scope(
    scopes: Seq<ScopeModel>,
    name: Seq<char>,
    s: int,
)
    requires
        super::scopes_form_a_tree(scopes),
        0 <= s < scopes.len(),
    ensures
        match super::resolved(scopes, name, s) {
            Some((owner, position)) => {
                &&& 0 <= owner < scopes.len()
                &&& lies_around(scopes, owner, s)
                &&& 0 <= position < scopes[owner].variables.len()
                &&& scopes[owner].variables[position].name == name
                &&& forall|j: int|
                    0 <= j < position ==> (#[trigger] scopes[owner].variables[j]).name != name
                &&& forall|k: int|
                    #![trigger scopes[k]]
                    0 <= k < scopes.len() && k != owner && lies_around(scopes, k, s)
                        && lies_around(scopes, owner, k) ==> !declares_name(scopes[k], name)
            },
            None => forall|k: int|
                #![trigger scopes[k]]
                0 <= k < scopes.len() && lies_around(scopes, k, s) ==> !declares_name(
                    scopes[k],
                    name,
                ),
        },
    decreases s,
{
    assert(super::scope_fits(scopes, s));
    lemma_first_named(scopes[s].variables, name, 0);
    match super::variable_named(scopes[s].variables, name, 0) {
        Some(_) => {
            assert forall|k: int|
                #![trigger scopes[k]]
                0 <= k < scopes.len() && k != s && lies_around(scopes, k, s) && lies_around(
                    scopes,
                    s,
                    k,
                ) implies !declares_name(scopes[k], name) by {
                lemma_around_is_earlier(scopes, k, s);
                lemma_around_is_earlier(scopes, s, k);
            }
        },
        None => {
            assert(!declares_name(scopes[s], name));
            if let Some(parent) = scopes[s].parent {
                law_names_resolve_to_the_nearest_scope(scopes, name, parent);
                assert forall|k: int|
                    #![trigger scopes[k]]
                    0 <= k < scopes.len() && k != s && lies_around(scopes, k, s) implies lies_around(
                    scopes,
                    k,
                    parent,
                ) by {}
            }
        },
    }
}

} // verus!
