//! Which declarations a text has, told from the nodes upwards.

use vstd::prelude::*;

use super::declarations::{DeclarationKind, DeclarationModel, Extraction};
use crate::syntax;
use crate::syntax::RowModel;

use super::declarations::{declarations_of, declared, declared_below, variable_at, variables_upto};
use super::{alpha, declarations, fingerprint};

verus! {

/// Whether a node only holds others, as far as declarations go.
pub open spec fn only_holds(rows: Seq<RowModel>, i: int) -> bool {
    let kind = rows[i].kind;
    &&& kind != "function_declaration"@
    &&& kind != "class_declaration"@
    &&& kind != "variable_declaration"@
    &&& kind != "lexical_declaration"@
    &&& kind != "import_statement"@
    &&& kind != "export_statement"@
}

/// Whether no other child of its parent comes ahead of a node.
pub open spec fn comes_first(rows: Seq<RowModel>, i: int) -> bool {
    forall|c: int|
        0 <= c < i ==> #[trigger] syntax::parent_of(rows, c) is None || syntax::parent_of(rows, c)
            != syntax::parent_of(rows, i)
}

/// Whether declarations are looked for in a node because they are in its
/// parent: the root, and first children inside it, are looked through, and an
/// export leads to what it declares.
pub open spec fn leads_to(rows: Seq<RowModel>, parent: int, i: int) -> bool {
    &&& syntax::parent_of(rows, i) == Some(parent)
    &&& {
        ||| only_holds(rows, parent) && comes_first(rows, parent)
        ||| rows[parent].kind == "export_statement"@ && syntax::child_by_field(
            rows,
            parent,
            "declaration"@,
        ) == Some(i)
    }
}

/// Whether declarations are looked for in a node when they are in another.
pub open spec fn is_looked_at(rows: Seq<RowModel>, top: int, i: int) -> bool
    decreases i,
{
    i == top || (syntax::parent_of(rows, i) matches Some(parent) && 0 <= parent < i && leads_to(
        rows,
        parent,
        i,
    ) && is_looked_at(rows, top, parent))
}

/// Whether a node declares something: a function or class that has a name, an
/// import, an export of nothing new, or a variable with a value and a plain
/// name.
pub open spec fn declares(rows: Seq<RowModel>, n: int) -> bool {
    let kind = rows[n].kind;
    ||| kind == "function_declaration"@ && syntax::child_by_field(rows, n, "name"@) is Some
    ||| kind == "class_declaration"@ && syntax::child_by_field(rows, n, "name"@) is Some
    ||| kind == "import_statement"@
    ||| kind == "export_statement"@ && syntax::child_by_field(rows, n, "declaration"@) is None
    ||| kind == "variable_declarator"@ && syntax::child_by_field(rows, n, "value"@) is Some && (
    syntax::child_by_field(rows, n, "name"@) matches Some(name) && rows[name].kind
        == "identifier"@) && (syntax::parent_of(rows, n) matches Some(p) && (rows[p].kind
        == "variable_declaration"@ || rows[p].kind == "lexical_declaration"@))
}

/// The statement of a declaration: of a variable its parent, else itself.
pub open spec fn statement_of(rows: Seq<RowModel>, n: int) -> int {
    if rows[n].kind == "variable_declarator"@ {
        syntax::parent_of(rows, n)->0
    } else {
        n
    }
}

/// Whether a node declares something that is found from another.
pub open spec fn is_found(rows: Seq<RowModel>, top: int, n: int) -> bool {
    declares(rows, n) && is_looked_at(rows, top, statement_of(rows, n))
}

/// How many of the first `count` nodes are children of a node that have one of
/// two kinds.
pub open spec fn parts_of_kind(
    rows: Seq<RowModel>,
    p: int,
    first: Seq<char>,
    second: Seq<char>,
    count: int,
) -> nat
    decreases count,
{
    if count <= 0 {
        0
    } else {
        let c = count - 1;
        parts_of_kind(rows, p, first, second, c) + if syntax::parent_of(rows, c) == Some(p) && (
        rows[c].kind == first || rows[c].kind == second) {
            1nat
        } else {
            0
        }
    }
}

/// How many of the first `count` nodes are children of a node, punctuation of
/// blocks aside.
pub open spec fn statements_of(rows: Seq<RowModel>, p: int, count: int) -> nat
    decreases count,
{
    if count <= 0 {
        0
    } else {
        let c = count - 1;
        statements_of(rows, p, c) + if syntax::parent_of(rows, c) == Some(p) && rows[c].kind
            != "{"@ && rows[c].kind != "}"@ && rows[c].kind != ";"@ {
            1nat
        } else {
            0
        }
    }
}

/// Whether a signature is that of a function or class.
pub open spec fn is_signature(rows: Seq<RowModel>, n: int, signature: Seq<char>) -> bool {
    let count = rows.len() as int;
    let body = syntax::child_by_field(rows, n, "body"@);
    let parameters = syntax::child_by_field(rows, n, "parameters"@);
    &&& rows[n].kind == "function_declaration"@ ==> signature == "function(params:"@
        + crate::text::decimal_of(
        match parameters {
            Some(p) => parts_of_kind(rows, p, "identifier"@, "formal_parameters"@, count),
            None => 0,
        },
    ) + ",stmts:"@ + crate::text::decimal_of(
        match body {
            Some(b) => statements_of(rows, b, count),
            None => 0,
        },
    ) + ")"@
    &&& rows[n].kind == "class_declaration"@ ==> (body matches Some(b) ==> signature
        == "class(methods:"@ + crate::text::decimal_of(
        parts_of_kind(rows, b, "method_definition"@, "method_definition"@, count),
    ) + ",fields:"@ + crate::text::decimal_of(
        parts_of_kind(rows, b, "field_definition"@, "field_definition"@, count),
    ) + ")"@)
    &&& rows[n].kind == "class_declaration"@ && body is None ==> signature == "class()"@
    &&& rows[n].kind == "export_statement"@ ==> match syntax::child_by_field(
        rows,
        n,
        "clause"@,
    ) {
        Some(clause) => signature == "export "@ + crate::text::decimal_of(
            parts_of_kind(rows, clause, "export_specifier"@, "export_specifier"@, count),
        ) + " items"@,
        None => signature == "export"@,
    }
}

/// Whether a declaration is that of a node: its kind and name are what the
/// node declares, its place is that of the node.
pub open spec fn is_declaration_of(x: Extraction, n: int, d: DeclarationModel) -> bool {
    let row = x.rows[n];
    let name = syntax::child_by_field(x.rows, n, "name"@);
    &&& row.kind == "function_declaration"@ ==> d.kind == DeclarationKind::Function && d.name
        == syntax::text_of(x.rows, x.source, name->0)
    &&& row.kind == "class_declaration"@ ==> d.kind == DeclarationKind::Class && d.name
        == syntax::text_of(x.rows, x.source, name->0)
    &&& row.kind == "variable_declarator"@ ==> d.kind == DeclarationKind::Variable && d.name
        == syntax::text_of(x.rows, x.source, name->0)
    &&& row.kind == "import_statement"@ ==> d.kind == DeclarationKind::Import && d.name
        == "import@"@ + crate::text::decimal_of(row.start_row as nat)
    &&& row.kind == "export_statement"@ ==> d.kind == DeclarationKind::Export && d.name
        == "export@"@ + crate::text::decimal_of(row.start_row as nat)
    &&& d.node_kind == row.kind
    &&& d.start_byte == row.start_byte
    &&& d.end_byte == row.end_byte
    &&& 0 <= row.start_row < usize::MAX ==> d.line == row.start_row + 1
    &&& 0 <= row.end_row < usize::MAX ==> d.end_line == row.end_row + 1
    &&& d.fingerprint is Some <==> x.use_fingerprints && (d.kind == DeclarationKind::Function
        || d.kind == DeclarationKind::Variable)
    &&& is_signature(x.rows, n, d.signature)
    &&& row.kind == "variable_declarator"@ ==> d.structural_hashes == super::hashes::hashes_of(
        x.rows,
        x.source,
        syntax::child_by_field(x.rows, n, "value"@)->0,
    )
    &&& row.kind != "variable_declarator"@ ==> d.structural_hashes == super::hashes::hashes_of(
        x.rows,
        x.source,
        n,
    )
}

/// Whether nodes come one behind the other.
pub open spec fn in_order(nodes: Seq<int>) -> bool {
    forall|j: int, k: int|
        #![trigger nodes[j], nodes[k]]
        0 <= j < k < nodes.len() ==> nodes[j] < nodes[k]
}

/// Whether declarations are those of nodes, one each.
pub open spec fn declare_all(
    x: Extraction,
    nodes: Seq<int>,
    list: Seq<DeclarationModel>,
) -> bool {
    &&& nodes.len() == list.len()
    &&& forall|k: int|
        0 <= k < nodes.len() ==> is_declaration_of(x, #[trigger] nodes[k], list[k])
}

/// Whether a node is another or lies below it.
spec fn descends(rows: Seq<RowModel>, top: int, i: int) -> bool
    decreases i,
{
    i == top || (syntax::parent_of(rows, i) matches Some(parent) && 0 <= parent < i && descends(
        rows,
        top,
        parent,
    ))
}

proof fn lemma_kinds_differ()
    ensures
        "function_declaration"@.len() == 20 && "function_declaration"@[0] == 'f',
        "variable_declaration"@.len() == 20 && "variable_declaration"@[0] == 'v',
        "lexical_declaration"@.len() == 19 && "lexical_declaration"@[0] == 'l',
        "class_declaration"@.len() == 17 && "class_declaration"@[0] == 'c',
        "import_statement"@.len() == 16 && "import_statement"@[0] == 'i',
        "export_statement"@.len() == 16 && "export_statement"@[0] == 'e',
        "variable_declarator"@.len() == 19 && "variable_declarator"@[0] == 'v',
{
    reveal_strlit("function_declaration");
    reveal_strlit("variable_declaration");
    reveal_strlit("lexical_declaration");
    reveal_strlit("class_declaration");
    reveal_strlit("import_statement");
    reveal_strlit("export_statement");
    reveal_strlit("variable_declarator");
}

proof fn lemma_looked_at_descends(rows: Seq<RowModel>, top: int, i: int)
    requires
        is_looked_at(rows, top, i),
    ensures
        descends(rows, top, i),
    decreases i,
{
    if i != top {
        lemma_looked_at_descends(rows, top, syntax::parent_of(rows, i)->0);
    }
}

/// What lies below a child ends where the next one starts.
proof fn lemma_branches_are_apart(rows: Seq<RowModel>, i: int, a: int, b: int, h: int)
    requires
        syntax::lists_a_tree(rows),
        0 <= i < a < b < rows.len(),
        0 <= h < rows.len(),
        syntax::parent_of(rows, a) == Some(i),
        syntax::parent_of(rows, b) == Some(i),
        descends(rows, a, h),
    ensures
        a <= h < b,
        rows[h].depth >= rows[a].depth,
    decreases h,
{
    syntax::law_rows_form_a_tree(rows, i, a);
    syntax::law_rows_form_a_tree(rows, i, b);
    if h != a {
        let p = syntax::parent_of(rows, h)->0;
        lemma_branches_are_apart(rows, i, a, b, p);
        syntax::law_rows_form_a_tree(rows, p, h);
        if h > b {
            assert(rows[b].depth >= rows[h].depth);
        }
    }
}

proof fn lemma_descendants_are_behind(rows: Seq<RowModel>, top: int, h: int)
    requires
        descends(rows, top, h),
    ensures
        top <= h,
    decreases h,
{
    if h != top {
        lemma_descendants_are_behind(rows, top, syntax::parent_of(rows, h)->0);
    }
}

proof fn lemma_looked_at_through(rows: Seq<RowModel>, top: int, c: int, i: int)
    requires
        0 <= top < c,
        leads_to(rows, top, c),
        is_looked_at(rows, c, i),
    ensures
        is_looked_at(rows, top, i),
    decreases i,
{
    if i == c {
        assert(is_looked_at(rows, top, top));
    } else {
        lemma_looked_at_through(rows, top, c, syntax::parent_of(rows, i)->0);
    }
}

/// The child through which declarations are looked for in a node below.
proof fn lemma_first_step(rows: Seq<RowModel>, top: int, i: int) -> (c: int)
    requires
        0 <= top,
        is_looked_at(rows, top, i),
        i != top,
    ensures
        0 <= top < c <= i,
        leads_to(rows, top, c),
        is_looked_at(rows, c, i),
    decreases i,
{
    let p = syntax::parent_of(rows, i)->0;
    if p == top {
        i
    } else {
        let c = lemma_first_step(rows, top, p);
        c
    }
}

proof fn lemma_children_ascend(rows: Seq<RowModel>, i: int, count: int)
    ensures
        in_order(syntax::children_upto(rows, i, count)),
    decreases count,
{
    if count > 0 {
        lemma_children_ascend(rows, i, count - 1);
        syntax::lemma_children(rows, i, count - 1);
        let shorter = syntax::children_upto(rows, i, count - 1);
        let longer = syntax::children_upto(rows, i, count);
        assert forall|j: int, k: int|
            #![trigger longer[j], longer[k]]
            0 <= j < k < longer.len() implies longer[j] < longer[k] by {
            assert(shorter[j] == longer[j]);
            if k < shorter.len() {
                assert(shorter[k] == longer[k]);
            }
        }
    }
}

proof fn lemma_comes_first(rows: Seq<RowModel>, i: int)
    requires
        syntax::lists_a_tree(rows),
        0 <= i < rows.len(),
    ensures
        declarations::leads(rows, i) == comes_first(rows, i),
{
    syntax::law_rows_form_a_tree(rows, i, i);
    if let Some(p) = syntax::parent_of(rows, i) {
        let children = syntax::children_of(rows, p);
        syntax::lemma_parent_is_earlier(rows, i, i - 1);
        syntax::lemma_children(rows, p, rows.len() as int);
        lemma_children_ascend(rows, p, rows.len() as int);
        syntax::lemma_is_child(rows, p, i, rows.len() as int);
        let m = choose|m: int| 0 <= m < children.len() && children[m] == i;
        if children[0] == i {
            assert forall|c: int| 0 <= c < i implies #[trigger] syntax::parent_of(rows, c) is None
                || syntax::parent_of(rows, c) != syntax::parent_of(rows, i) by {
                if syntax::parent_of(rows, c) == Some(p) {
                    syntax::lemma_is_child(rows, p, c, rows.len() as int);
                    let l = choose|l: int| 0 <= l < children.len() && children[l] == c;
                    assert(children[0] <= children[l]);
                }
            }
        } else {
            assert(children[0] < children[m]);
            assert(syntax::parent_of(rows, children[0]) == Some(p));
        }
    }
}

proof fn lemma_parts(
    rows: Seq<RowModel>,
    p: int,
    first: Seq<char>,
    second: Seq<char>,
    count: int,
)
    ensures
        ({
            let children = syntax::children_upto(rows, p, count);
            declarations::of_kinds_upto(rows, children, first, second, children.len() as int)
                == parts_of_kind(rows, p, first, second, count)
        }),
    decreases count,
{
    if count > 0 {
        lemma_parts(rows, p, first, second, count - 1);
        let shorter = syntax::children_upto(rows, p, count - 1);
        let longer = syntax::children_upto(rows, p, count);
        lemma_kinds_of_prefix(rows, shorter, longer, first, second, shorter.len() as int);
    }
}

proof fn lemma_kinds_of_prefix(
    rows: Seq<RowModel>,
    shorter: Seq<int>,
    longer: Seq<int>,
    first: Seq<char>,
    second: Seq<char>,
    count: int,
)
    requires
        count <= shorter.len() <= longer.len(),
        forall|k: int| 0 <= k < shorter.len() ==> #[trigger] shorter[k] == longer[k],
    ensures
        declarations::of_kinds_upto(rows, shorter, first, second, count)
            == declarations::of_kinds_upto(rows, longer, first, second, count),
        declarations::statements_upto(rows, shorter, count) == declarations::statements_upto(
            rows,
            longer,
            count,
        ),
    decreases count,
{
    if count > 0 {
        lemma_kinds_of_prefix(rows, shorter, longer, first, second, count - 1);
        assert(shorter[count - 1] == longer[count - 1]);
    }
}

proof fn lemma_statements(rows: Seq<RowModel>, p: int, count: int)
    ensures
        ({
            let children = syntax::children_upto(rows, p, count);
            declarations::statements_upto(rows, children, children.len() as int) == statements_of(
                rows,
                p,
                count,
            )
        }),
    decreases count,
{
    if count > 0 {
        lemma_statements(rows, p, count - 1);
        let shorter = syntax::children_upto(rows, p, count - 1);
        let longer = syntax::children_upto(rows, p, count);
        lemma_kinds_of_prefix(rows, shorter, longer, "{"@, "{"@, shorter.len() as int);
    }
}

proof fn lemma_signatures(rows: Seq<RowModel>, n: int)
    ensures
        rows[n].kind == "function_declaration"@ ==> is_signature(
            rows,
            n,
            declarations::function_signature(rows, n),
        ),
        rows[n].kind == "class_declaration"@ ==> is_signature(
            rows,
            n,
            declarations::class_signature(rows, n),
        ),
        rows[n].kind == "export_statement"@ && syntax::child_by_field(rows, n, "declaration"@)
            is None ==> is_signature(rows, n, declarations::export_signature(rows, n)),
{
    lemma_kinds_differ();
    let count = rows.len() as int;
    if let Some(p) = syntax::child_by_field(rows, n, "parameters"@) {
        lemma_parts(rows, p, "identifier"@, "formal_parameters"@, count);
    }
    if let Some(b) = syntax::child_by_field(rows, n, "body"@) {
        lemma_statements(rows, b, count);
        lemma_parts(rows, b, "method_definition"@, "method_definition"@, count);
        lemma_parts(rows, b, "field_definition"@, "field_definition"@, count);
    }
    if let Some(c) = syntax::child_by_field(rows, n, "clause"@) {
        lemma_parts(rows, c, "export_specifier"@, "export_specifier"@, count);
    }
}

/// Whether nodes are those that declare something found from a node.
spec fn are_found(rows: Seq<RowModel>, top: int, nodes: Seq<int>) -> bool {
    &&& in_order(nodes)
    &&& forall|k: int|
        0 <= k < nodes.len() ==> top <= #[trigger] nodes[k] < rows.len() && is_found(
            rows,
            top,
            nodes[k],
        )
    &&& forall|n: int|
        0 <= n < rows.len() && #[trigger] is_found(rows, top, n) ==> nodes.contains(n)
}

proof fn lemma_variables(x: Extraction, i: int, count: int) -> (nodes: Seq<int>)
    requires
        syntax::lists_a_tree(x.rows),
        0 <= i < x.rows.len(),
        x.rows[i].kind == "variable_declaration"@ || x.rows[i].kind == "lexical_declaration"@,
        0 <= count <= syntax::children_of(x.rows, i).len(),
    ensures
        ({
            let children = syntax::children_of(x.rows, i);
            &&& declare_all(x, nodes, variables_upto(x, children, count))
            &&& in_order(nodes)
            &&& forall|k: int|
                0 <= k < nodes.len() ==> declares(x.rows, #[trigger] nodes[k]) && i < nodes[k]
                    < x.rows.len() && x.rows[nodes[k]].kind == "variable_declarator"@
                    && syntax::parent_of(x.rows, nodes[k]) == Some(i)
            &&& forall|k: int|
                0 <= k < nodes.len() && count < children.len() ==> #[trigger] nodes[k]
                    < children[count]
            &&& forall|m: int|
                0 <= m < count && x.rows[#[trigger] children[m]].kind == "variable_declarator"@
                    && declares(x.rows, children[m]) ==> nodes.contains(children[m])
        }),
    decreases count,
{
    let rows = x.rows;
    let children = syntax::children_of(rows, i);
    lemma_kinds_differ();
    syntax::lemma_children(rows, i, rows.len() as int);
    lemma_children_ascend(rows, i, rows.len() as int);
    if count == 0 {
        Seq::empty()
    } else {
        let before = lemma_variables(x, i, count - 1);
        let c = children[count - 1];
        let found = declares(rows, c) && rows[c].kind == "variable_declarator"@;
        assert(syntax::parent_of(rows, c) == Some(i));
        assert(found == (variable_at(x, c) is Some));
        if found {
            let nodes = before.push(c);
            let list = variables_upto(x, children, count);
            let ahead = variables_upto(x, children, count - 1);
            assert(list == ahead.push(variable_at(x, c)->0));
            assert(is_declaration_of(x, c, variable_at(x, c)->0));
            assert forall|k: int| 0 <= k < nodes.len() implies is_declaration_of(
                x,
                #[trigger] nodes[k],
                list[k],
            ) by {
                if k < before.len() {
                    assert(nodes[k] == before[k]);
                    assert(list[k] == ahead[k]);
                }
            }
            assert forall|m: int|
                0 <= m < count && rows[#[trigger] children[m]].kind == "variable_declarator"@
                    && declares(rows, children[m]) implies nodes.contains(children[m]) by {
                if m < count - 1 {
                    let k = choose|k: int| 0 <= k < before.len() && before[k] == children[m];
                    assert(nodes[k] == children[m]);
                } else {
                    assert(nodes[before.len() as int] == c);
                }
            }
            nodes
        } else {
            before
        }
    }
}

proof fn lemma_declared(x: Extraction, i: int, is_global: bool) -> (nodes: Seq<int>)
    requires
        syntax::lists_a_tree(x.rows),
        0 <= i < x.rows.len(),
        is_global || x.rows[i].kind == "function_declaration"@ || x.rows[i].kind
            == "class_declaration"@,
    ensures
        declare_all(x, nodes, declared(x, i, is_global)),
        are_found(x.rows, i, nodes),
    decreases x.rows.len() - i, syntax::children_of(x.rows, i).len() + 1,
{
    let rows = x.rows;
    let kind = rows[i].kind;
    let children = syntax::children_of(rows, i);
    lemma_kinds_differ();
    fingerprint::lemma_field_child(rows, i, "declaration"@);
    syntax::law_fields_name_children(rows, i, "declaration"@);
    lemma_comes_first(rows, i);
    lemma_signatures(rows, i);
    assert(is_looked_at(rows, i, i));
    if (kind == "variable_declaration"@ || kind == "lexical_declaration"@) && is_global {
        let nodes = lemma_variables(x, i, children.len() as int);
        assert forall|n: int| 0 <= n < rows.len() && #[trigger] is_found(rows, i, n) implies
            nodes.contains(n) by {
            let h = statement_of(rows, n);
            if h != i {
                let c = lemma_first_step(rows, i, h);
            }
            syntax::lemma_is_child(rows, i, n, rows.len() as int);
            let m = choose|m: int| 0 <= m < children.len() && children[m] == n;
            assert(nodes.contains(children[m]));
        }
        nodes
    } else if kind == "export_statement"@ && syntax::child_by_field(rows, i, "declaration"@)
        is Some {
        let d = syntax::child_by_field(rows, i, "declaration"@)->0;
        let nodes = lemma_declared(x, d, is_global);
        assert forall|k: int| 0 <= k < nodes.len() implies i <= #[trigger] nodes[k] < rows.len()
            && is_found(rows, i, nodes[k]) by {
            lemma_looked_at_through(rows, i, d, statement_of(rows, nodes[k]));
        }
        assert forall|n: int| 0 <= n < rows.len() && #[trigger] is_found(rows, i, n) implies
            nodes.contains(n) by {
            let h = statement_of(rows, n);
            if h != i {
                let c = lemma_first_step(rows, i, h);
                assert(is_found(rows, d, n));
            }
        }
        nodes
    } else if only_holds(rows, i) && is_global && comes_first(rows, i) {
        let nodes = lemma_below(x, i, children.len() as int);
        assert forall|n: int| 0 <= n < rows.len() && #[trigger] is_found(rows, i, n) implies
            nodes.contains(n) by {
            let h = statement_of(rows, n);
            if h != i {
                let c = lemma_first_step(rows, i, h);
                syntax::lemma_parent_is_earlier(rows, h, h - 1);
                lemma_statement_is_row(rows, n);
                syntax::lemma_is_child(rows, i, c, rows.len() as int);
                let m = choose|m: int| 0 <= m < children.len() && children[m] == c;
                assert(is_found(rows, children[m], n));
            }
        }
        nodes
    } else {
        let nodes = if declares(rows, i) && kind != "variable_declarator"@ {
            seq![i]
        } else {
            Seq::empty()
        };
        assert forall|n: int| 0 <= n < rows.len() && #[trigger] is_found(rows, i, n) implies
            nodes.contains(n) by {
            let h = statement_of(rows, n);
            if h != i {
                let c = lemma_first_step(rows, i, h);
            }
            assert(nodes[0] == n);
        }
        nodes
    }
}

proof fn lemma_statement_is_row(rows: Seq<RowModel>, n: int)
    requires
        0 <= n < rows.len(),
        declares(rows, n),
    ensures
        0 <= statement_of(rows, n) <= n,
{
    lemma_kinds_differ();
    syntax::lemma_parent_is_earlier(rows, n, n - 1);
}

proof fn lemma_found_is_below(rows: Seq<RowModel>, top: int, n: int)
    requires
        0 <= n < rows.len(),
        is_found(rows, top, n),
    ensures
        descends(rows, top, n),
{
    lemma_kinds_differ();
    lemma_looked_at_descends(rows, top, statement_of(rows, n));
    syntax::lemma_parent_is_earlier(rows, n, n - 1);
}

proof fn lemma_below(x: Extraction, i: int, count: int) -> (nodes: Seq<int>)
    requires
        syntax::lists_a_tree(x.rows),
        0 <= i < x.rows.len(),
        only_holds(x.rows, i),
        comes_first(x.rows, i),
        0 <= count <= syntax::children_of(x.rows, i).len(),
    ensures
        ({
            let children = syntax::children_of(x.rows, i);
            &&& declare_all(x, nodes, declared_below(x, i, count))
            &&& in_order(nodes)
            &&& forall|k: int|
                0 <= k < nodes.len() ==> i <= #[trigger] nodes[k] < x.rows.len() && is_found(
                    x.rows,
                    i,
                    nodes[k],
                )
            &&& forall|k: int|
                0 <= k < nodes.len() && count < children.len() ==> #[trigger] nodes[k]
                    < children[count]
            &&& forall|m: int, n: int|
                0 <= m < count && 0 <= n < x.rows.len() && #[trigger] is_found(
                    x.rows,
                    children[m],
                    n,
                ) ==> nodes.contains(n)
        }),
    decreases x.rows.len() - i, count,
{
    let rows = x.rows;
    let children = syntax::children_of(rows, i);
    syntax::lemma_children(rows, i, rows.len() as int);
    lemma_children_ascend(rows, i, rows.len() as int);
    if count == 0 {
        Seq::empty()
    } else {
        let c = children[count - 1];
        assert(i < c < rows.len() && syntax::parent_of(rows, c) == Some(i));
        let kind = rows[c].kind;
        let before = lemma_below(x, i, count - 1);
        let more = lemma_declared(
            x,
            c,
            kind != "function_declaration"@ && kind != "class_declaration"@,
        );
        let nodes = before + more;
        let list = declared_below(x, i, count);
        let ahead = declared_below(x, i, count - 1);
        assert forall|k: int| 0 <= k < nodes.len() implies is_declaration_of(
            x,
            #[trigger] nodes[k],
            list[k],
        ) by {
            if k < before.len() {
                assert(nodes[k] == before[k]);
                assert(list[k] == ahead[k]);
            } else {
                assert(nodes[k] == more[k - before.len()]);
            }
        }
        assert forall|k: int| 0 <= k < nodes.len() implies i <= #[trigger] nodes[k] < rows.len()
            && is_found(rows, i, nodes[k]) by {
            if k < before.len() {
                assert(nodes[k] == before[k]);
            } else {
                assert(nodes[k] == more[k - before.len()]);
                assert(leads_to(rows, i, c));
                lemma_looked_at_through(rows, i, c, statement_of(rows, nodes[k]));
            }
        }
        assert forall|k: int| 0 <= k < nodes.len() && count < children.len() implies #[trigger] nodes[k]
            < children[count] by {
            let next = children[count];
            assert(c < next && syntax::parent_of(rows, next) == Some(i));
            if k < before.len() {
                assert(nodes[k] == before[k]);
            } else {
                assert(nodes[k] == more[k - before.len()]);
                lemma_found_is_below(rows, c, nodes[k]);
                lemma_branches_are_apart(rows, i, c, next, nodes[k]);
            }
        }
        assert forall|j: int, k: int|
            #![trigger nodes[j], nodes[k]]
            0 <= j < k < nodes.len() implies nodes[j] < nodes[k] by {
            if k < before.len() {
                assert(nodes[j] == before[j] && nodes[k] == before[k]);
            } else {
                assert(nodes[k] == more[k - before.len()]);
                if j < before.len() {
                    assert(nodes[j] == before[j]);
                    assert(before[j] < children[count - 1]);
                } else {
                    assert(nodes[j] == more[j - before.len()]);
                }
            }
        }
        assert forall|m: int, n: int|
            0 <= m < count && 0 <= n < rows.len() && #[trigger] is_found(
                rows,
                children[m],
                n,
            ) implies nodes.contains(n) by {
            if m < count - 1 {
                assert(before.contains(n));
                let k = choose|k: int| 0 <= k < before.len() && before[k] == n;
                assert(nodes[k] == n);
            } else {
                assert(more.contains(n));
                let k = choose|k: int| 0 <= k < more.len() && more[k] == n;
                assert(nodes[k + before.len()] == n);
            }
        }
        nodes
    }
}

/// Whether a list holds a declaration of a kind with a name and a range.
pub open spec fn lists(
    list: Seq<DeclarationModel>,
    kind: DeclarationKind,
    name: Seq<char>,
    row: RowModel,
) -> bool {
    exists|k: int|
        0 <= k < list.len() && (#[trigger] list[k]).kind == kind && list[k].name == name
            && list[k].start_byte == row.start_byte && list[k].end_byte == row.end_byte
}

/// What the extraction of the declarations of a text goes by.
pub open spec fn extraction_of(
    use_fingerprints: bool,
    rows: Seq<RowModel>,
    source: Seq<char>,
) -> Extraction {
    Extraction { use_fingerprints, rows, source, bindings: alpha::bindings_of(rows, source) }
}

/// The declarations of a text are those of the nodes that declare something
/// and are found from its root, each once and in the order of the text, and
/// nothing else.
pub proof fn law_declarations_are_those_of_the_nodes(
    use_fingerprints: bool,
    rows: Seq<RowModel>,
    source: Seq<char>,
)
    requires
        syntax::lists_a_tree(rows),
    ensures
        exists|nodes: Seq<int>|
            #![trigger in_order(nodes)]
            in_order(nodes) && declare_all(
                extraction_of(use_fingerprints, rows, source),
                nodes,
                declarations_of(use_fingerprints, rows, source),
            ) && (forall|n: int|
                #![trigger is_found(rows, 0, n)]
                #![trigger nodes.contains(n)]
                nodes.contains(n) <==> 0 <= n < rows.len() && is_found(rows, 0, n)),
{
    let x = extraction_of(use_fingerprints, rows, source);
    let nodes = lemma_declared(x, 0, true);
    assert(in_order(nodes));
    assert forall|n: int|
        #![trigger is_found(rows, 0, n)]
        #![trigger nodes.contains(n)]
        nodes.contains(n) <==> 0 <= n < rows.len() && is_found(rows, 0, n) by {
        if nodes.contains(n) {
            let k = choose|k: int| 0 <= k < nodes.len() && nodes[k] == n;
            assert(is_found(rows, 0, nodes[k]));
        }
    }
}

proof fn lemma_is_listed(
    use_fingerprints: bool,
    rows: Seq<RowModel>,
    source: Seq<char>,
    n: int,
) -> (k: int)
    requires
        syntax::lists_a_tree(rows),
        0 <= n < rows.len(),
        is_found(rows, 0, n),
    ensures
        0 <= k < declarations_of(use_fingerprints, rows, source).len(),
        is_declaration_of(
            extraction_of(use_fingerprints, rows, source),
            n,
            declarations_of(use_fingerprints, rows, source)[k],
        ),
{
    let x = extraction_of(use_fingerprints, rows, source);
    let nodes = lemma_declared(x, 0, true);
    assert(nodes.contains(n));
    let k = choose|k: int| 0 <= k < nodes.len() && nodes[k] == n;
    assert(is_declaration_of(x, nodes[k], declarations_of(use_fingerprints, rows, source)[k]));
    k
}

/// Every top statement of a text that declares something is among its
/// declarations, exported or not: functions and classes under their names,
/// imports and plain exports under their lines, and each variable that has a
/// value and a plain name.
pub proof fn law_top_statements_are_declared(
    use_fingerprints: bool,
    rows: Seq<RowModel>,
    source: Seq<char>,
    c: int,
)
    requires
        syntax::lists_a_tree(rows),
        only_holds(rows, 0),
        0 <= c < rows.len(),
        syntax::parent_of(rows, c) == Some(0int) || (syntax::parent_of(rows, c) matches Some(e)
            && rows[e].kind == "export_statement"@ && syntax::child_by_field(
            rows,
            e,
            "declaration"@,
        ) == Some(c) && syntax::parent_of(rows, e) == Some(0int)),
    ensures
        ({
            let list = declarations_of(use_fingerprints, rows, source);
            let name = syntax::child_by_field(rows, c, "name"@);
            let row = rows[c];
            &&& row.kind == "function_declaration"@ && name is Some ==> lists(
                list,
                DeclarationKind::Function,
                syntax::text_of(rows, source, name->0),
                row,
            )
            &&& row.kind == "class_declaration"@ && name is Some ==> lists(
                list,
                DeclarationKind::Class,
                syntax::text_of(rows, source, name->0),
                row,
            )
            &&& row.kind == "import_statement"@ ==> lists(
                list,
                DeclarationKind::Import,
                "import@"@ + crate::text::decimal_of(row.start_row as nat),
                row,
            )
            &&& row.kind == "export_statement"@ && syntax::child_by_field(
                rows,
                c,
                "declaration"@,
            ) is None ==> lists(
                list,
                DeclarationKind::Export,
                "export@"@ + crate::text::decimal_of(row.start_row as nat),
                row,
            )
            &&& row.kind == "variable_declaration"@ || row.kind == "lexical_declaration"@
                ==> forall|v: int|
                0 <= v < rows.len() && #[trigger] syntax::parent_of(rows, v) == Some(c)
                    && rows[v].kind == "variable_declarator"@ && syntax::child_by_field(
                    rows,
                    v,
                    "value"@,
                ) is Some && (syntax::child_by_field(rows, v, "name"@) matches Some(id)
                    && rows[id].kind == "identifier"@) ==> lists(
                    list,
                    DeclarationKind::Variable,
                    syntax::text_of(rows, source, syntax::child_by_field(rows, v, "name"@)->0),
                    rows[v],
                )
        }),
{
    let list = declarations_of(use_fingerprints, rows, source);
    lemma_kinds_differ();
    syntax::law_rows_form_a_tree(rows, 0, c);
    syntax::law_rows_form_a_tree(rows, 0, 0);
    assert(is_looked_at(rows, 0, 0));
    assert(comes_first(rows, 0));
    assert(is_looked_at(rows, 0, c)) by {
        let p = syntax::parent_of(rows, c)->0;
        syntax::lemma_parent_is_earlier(rows, c, c - 1);
        syntax::lemma_parent_is_earlier(rows, p, p - 1);
        if p != 0 {
            assert(is_looked_at(rows, 0, p));
        }
    }
    if declares(rows, c) && rows[c].kind != "variable_declarator"@ {
        let k = lemma_is_listed(use_fingerprints, rows, source, c);
        assert(list[k].start_byte == rows[c].start_byte);
    }
    if rows[c].kind == "variable_declaration"@ || rows[c].kind == "lexical_declaration"@ {
        assert forall|v: int|
            0 <= v < rows.len() && #[trigger] syntax::parent_of(rows, v) == Some(c)
                && rows[v].kind == "variable_declarator"@ && syntax::child_by_field(
                rows,
                v,
                "value"@,
            ) is Some && (syntax::child_by_field(rows, v, "name"@) matches Some(id)
                && rows[id].kind == "identifier"@) implies lists(
            list,
            DeclarationKind::Variable,
            syntax::text_of(rows, source, syntax::child_by_field(rows, v, "name"@)->0),
            rows[v],
        ) by {
            let k = lemma_is_listed(use_fingerprints, rows, source, v);
            assert(list[k].start_byte == rows[v].start_byte);
        }
    }
}

} // verus!
