//! The call rows of an analysis.

use vstd::prelude::*;
use vstd::string::*;

use super::interner::StringInterner;
use super::references::{Context, PendingModel};
use super::{
    call_id, missing_id, AnalysisCall, AnalysisCallKind, AnalysisDefUse, AnalysisError,
    AnalysisNode, AnalysisReference, AnalysisSymbol,
};
use crate::order::{stable_order, Pair};
use crate::syntax::{RowModel, SyntaxTree};
use crate::{analysis, order, syntax};

use super::{interner, references, rows};

verus! {

/// The first of the children from position `k` on that is named.
pub open spec fn named_child(rows: Seq<RowModel>, children: Seq<int>, k: int) -> Option<int>
    decreases children.len() - k,
{
    if k < 0 || k >= children.len() {
        None
    } else if rows[children[k]].named {
        Some(children[k])
    } else {
        named_child(rows, children, k + 1)
    }
}

/// A node without the parentheses around it.
pub open spec fn unwrapped(rows: Seq<RowModel>, i: int) -> int
    decreases rows.len() - i,
    when 0 <= i < rows.len()
{
    if rows[i].kind == "parenthesized_expression"@ {
        match named_child(rows, syntax::children_of(rows, i), 0) {
            Some(child) => if i < child < rows.len() {
                unwrapped(rows, child)
            } else {
                i
            },
            None => i,
        }
    } else {
        i
    }
}

/// Whether a node names a variable that may be called.
pub open spec fn is_callee_name(kind: Seq<char>) -> bool {
    kind == "identifier"@ || kind == "shorthand_property_identifier"@
}

/// The last of the first `count` references that stands at a node.
pub open spec fn reference_upto(ordered: Seq<PendingModel>, node: int, count: int) -> Option<int>
    decreases count,
{
    if count <= 0 {
        None
    } else if ordered[count - 1].node == node {
        Some(count - 1)
    } else {
        reference_upto(ordered, node, count - 1)
    }
}

/// The reference that stands at a node.
pub open spec fn reference_at(ordered: Seq<PendingModel>, node: int) -> Option<int> {
    reference_upto(ordered, node, ordered.len() as int)
}

/// The model of a call.
pub struct CallModel {
    pub node: int,
    pub kind: AnalysisCallKind,
    pub callee: Option<int>,
    pub target: Option<int>,
    pub property: Option<Seq<char>>,
}

/// Whether a node calls something.
pub open spec fn is_call(rows: Seq<RowModel>, i: int) -> bool {
    rows[i].kind == "call_expression"@ || rows[i].kind == "new_expression"@
}

/// What a call calls.
pub open spec fn callee_of(rows: Seq<RowModel>, i: int) -> Option<int> {
    match syntax::child_by_field(rows, i, "function"@) {
        Some(callee) => Some(callee),
        None => syntax::child_by_field(rows, i, "constructor"@),
    }
}

/// A call whose callee is a name.
pub open spec fn named_call(rows: Seq<RowModel>, ordered: Seq<PendingModel>, i: int, leaf: int) -> CallModel {
    let callee = reference_at(ordered, leaf);
    CallModel {
        node: i,
        kind: if rows[i].kind == "new_expression"@ {
            AnalysisCallKind::Construct
        } else {
            AnalysisCallKind::Direct
        },
        callee,
        target: match callee {
            Some(row) => ordered[row].target,
            None => None,
        },
        property: None,
    }
}

/// The reference behind the object of a member access.
pub open spec fn object_reference(
    rows: Seq<RowModel>,
    ordered: Seq<PendingModel>,
    leaf: int,
) -> Option<int> {
    match syntax::child_by_field(rows, leaf, "object"@) {
        Some(object) => if is_callee_name(rows[unwrapped(rows, object)].kind) {
            reference_at(ordered, unwrapped(rows, object))
        } else {
            None
        },
        None => None,
    }
}

/// The property that a member access reads.
pub open spec fn property_of(rows: Seq<RowModel>, source: Seq<char>, leaf: int) -> Option<
    Seq<char>,
> {
    match syntax::child_by_field(rows, leaf, "property"@) {
        Some(property) => Some(syntax::text_of(rows, source, property)),
        None => None,
    }
}

/// A call of which nothing is known.
pub open spec fn dynamic_call(i: int) -> CallModel {
    CallModel {
        node: i,
        kind: AnalysisCallKind::Dynamic,
        callee: None,
        target: None,
        property: None,
    }
}

/// The call at a node.
pub open spec fn call_of(
    rows: Seq<RowModel>,
    source: Seq<char>,
    ordered: Seq<PendingModel>,
    i: int,
) -> CallModel {
    match callee_of(rows, i) {
        None => dynamic_call(i),
        Some(callee) => {
            let leaf = unwrapped(rows, callee);
            if is_callee_name(rows[leaf].kind) {
                named_call(rows, ordered, i, leaf)
            } else if rows[leaf].kind == "member_expression"@ {
                CallModel {
                    node: i,
                    kind: AnalysisCallKind::Member,
                    callee: object_reference(rows, ordered, leaf),
                    target: None,
                    property: property_of(rows, source, leaf),
                }
            } else {
                dynamic_call(i)
            }
        },
    }
}

/// The calls at the first `count` nodes.
pub open spec fn calls_upto(
    rows: Seq<RowModel>,
    source: Seq<char>,
    ordered: Seq<PendingModel>,
    count: int,
) -> Seq<CallModel>
    decreases count,
{
    if count <= 0 {
        Seq::empty()
    } else if is_call(rows, count - 1) {
        calls_upto(rows, source, ordered, count - 1).push(
            call_of(rows, source, ordered, count - 1),
        )
    } else {
        calls_upto(rows, source, ordered, count - 1)
    }
}

/// All calls, in source order.
pub open spec fn all_calls(context: Context) -> Seq<CallModel> {
    calls_upto(
        context.rows,
        context.source,
        references::ordered_references(context),
        context.rows.len() as int,
    )
}

/// The properties that calls read, in order.
pub open spec fn properties_of(calls: Seq<CallModel>) -> Seq<Seq<char>>
    decreases calls.len(),
{
    if calls.len() == 0 {
        Seq::empty()
    } else {
        match calls.last().property {
            Some(property) => properties_of(calls.drop_last()).push(property),
            None => properties_of(calls.drop_last()),
        }
    }
}

/// What calls are ordered by: start, end, kind.
pub open spec fn call_key(rows: Seq<RowModel>, call: CallModel) -> Pair<u64, Pair<u64, u64>> {
    Pair(
        rows[call.node].start_byte as u64,
        Pair(rows[call.node].end_byte as u64, call.kind.code_spec() as u64),
    )
}

/// The ordering keys of calls.
pub open spec fn call_keys(rows: Seq<RowModel>, calls: Seq<CallModel>) -> Seq<
    Pair<u64, Pair<u64, u64>>,
> {
    calls.map_values(|call: CallModel| call_key(rows, call))
}

/// The calls in row order.
pub open spec fn ordered_calls(context: Context) -> Seq<CallModel> {
    let calls = all_calls(context);
    order::arranged(calls, call_keys(context.rows, calls))
}

/// The identity of a resolution row, or that of a missing one.
pub open spec fn callee_id(def_uses: Seq<AnalysisDefUse>, callee: Option<int>) -> Seq<u8> {
    match callee {
        Some(callee) => def_uses[callee].id.0@,
        None => analysis::no_id(),
    }
}

/// Whether a property row holds a property.
pub open spec fn property_is(
    row: Option<u32>,
    table: Seq<Seq<char>>,
    property: Option<Seq<char>>,
) -> bool {
    match property {
        Some(property) => row matches Some(row) && interner::names(table, row, property),
        None => row is None,
    }
}

/// Whether a call row records a call.
pub open spec fn call_is(
    row: AnalysisCall,
    nodes: Seq<AnalysisNode>,
    table: Seq<Seq<char>>,
    def_uses: Seq<AnalysisDefUse>,
    symbols: Seq<AnalysisSymbol>,
    call: CallModel,
) -> bool {
    &&& row.node == call.node
    &&& row.kind == call.kind
    &&& row.callee_reference == rows::optional_row(call.callee)
    &&& row.target_symbol == rows::optional_row(call.target)
    &&& property_is(row.property, table, call.property)
    &&& row.id.0@ == analysis::call_id_of(
        nodes[call.node].id.0@,
        call.kind,
        callee_id(def_uses, call.callee),
        references::target_id(symbols, call.target),
        row.property,
    )
}

/// Whether call rows record calls.
pub open spec fn calls_are(
    table_rows: Seq<AnalysisCall>,
    nodes: Seq<AnalysisNode>,
    table: Seq<Seq<char>>,
    def_uses: Seq<AnalysisDefUse>,
    symbols: Seq<AnalysisSymbol>,
    calls: Seq<CallModel>,
) -> bool {
    &&& table_rows.len() == calls.len()
    &&& forall|k: int|
        0 <= k < table_rows.len() ==> call_is(
            #[trigger] table_rows[k],
            nodes,
            table,
            def_uses,
            symbols,
            calls[k],
        )
}

fn first_named_child(tree: &SyntaxTree, i: usize) -> (child: Option<usize>)
    requires
        i < tree@.len(),
    ensures
        syntax::index_view(child) == named_child(
            tree@,
            syntax::children_of(tree@, i as int),
            0,
        ),
        child matches Some(c) ==> i < c < tree@.len(),
{
    let children = tree.children(i);
    let ghost list = syntax::index_views(children@);
    let mut k: usize = 0;
    while k < children.len()
        invariant
            k <= children@.len(),
            list == syntax::index_views(children@),
            list == syntax::children_of(tree@, i as int),
            forall|j: int| 0 <= j < children@.len() ==> i < #[trigger] children@[j] < tree@.len(),
            named_child(tree@, list, 0) == named_child(tree@, list, k as int),
        decreases children@.len() - k,
    {
        assert(list[k as int] == children@[k as int] as int);
        if tree.row(children[k]).named {
            return Some(children[k]);
        }
        k += 1;
    }
    None
}

fn unwrap_parenthesized(tree: &SyntaxTree, i: usize) -> (node: usize)
    requires
        i < tree@.len(),
    ensures
        node == unwrapped(tree@, i as int),
        node < tree@.len(),
{
    let mut node: usize = i;
    loop
        invariant
            i < tree@.len(),
            node < tree@.len(),
            unwrapped(tree@, i as int) == unwrapped(tree@, node as int),
        decreases tree@.len() - node,
    {
        if !tree.is_kind(node, "parenthesized_expression") {
            return node;
        }
        match first_named_child(tree, node) {
            Some(child) => {
                node = child;
            },
            None => {
                return node;
            },
        }
    }
}

fn callee_name(tree: &SyntaxTree, i: usize) -> (r: bool)
    requires
        i < tree@.len(),
    ensures
        r == is_callee_name(tree@[i as int].kind),
{
    tree.is_kind(i, "identifier") || tree.is_kind(i, "shorthand_property_identifier")
}

/// Whether a list holds the reference at every node.
pub open spec fn indexes_references(
    by_node: Seq<Option<u32>>,
    ordered: Seq<PendingModel>,
    count: int,
) -> bool {
    forall|node: int|
        0 <= node < by_node.len() ==> #[trigger] by_node[node] == rows::optional_row(
            reference_upto(ordered, node, count),
        )
}

fn index_references(
    table_rows: &Vec<AnalysisReference>,
    nodes: usize,
    ordered: Ghost<Seq<PendingModel>>,
) -> (by_node: Vec<Option<u32>>)
    requires
        table_rows@.len() == ordered@.len(),
        table_rows@.len() <= u32::MAX,
        forall|r: int|
            0 <= r < table_rows@.len() ==> (#[trigger] table_rows@[r]).node == ordered@[r].node
                && table_rows@[r].node < nodes,
    ensures
        by_node@.len() == nodes,
        indexes_references(by_node@, ordered@, ordered@.len() as int),
{
    let mut by_node: Vec<Option<u32>> = Vec::new();
    while by_node.len() < nodes
        invariant
            by_node@.len() <= nodes,
            indexes_references(by_node@, ordered@, 0),
        decreases nodes - by_node@.len(),
    {
        by_node.push(None);
    }
    let mut r: usize = 0;
    while r < table_rows.len()
        invariant
            r <= table_rows@.len(),
            table_rows@.len() == ordered@.len(),
            table_rows@.len() <= u32::MAX,
            forall|k: int|
                0 <= k < table_rows@.len() ==> (#[trigger] table_rows@[k]).node == ordered@[k].node
                    && table_rows@[k].node < nodes,
            by_node@.len() == nodes,
            indexes_references(by_node@, ordered@, r as int),
        decreases table_rows@.len() - r,
    {
        assert(table_rows@[r as int].node == ordered@[r as int].node);
        by_node.set(table_rows[r].node as usize, Some(r as u32));
        r += 1;
    }
    by_node
}

proof fn lemma_reference_bound(ordered: Seq<PendingModel>, node: int, count: int)
    ensures
        reference_upto(ordered, node, count) matches Some(r) ==> 0 <= r < count,
    decreases count,
{
    if count > 0 {
        lemma_reference_bound(ordered, node, count - 1);
    }
}

proof fn lemma_properties_prefix(
    rows: Seq<RowModel>,
    source: Seq<char>,
    ordered: Seq<PendingModel>,
    a: int,
    b: int,
)
    requires
        0 <= a <= b,
    ensures
        ({
            let shorter = properties_of(calls_upto(rows, source, ordered, a));
            let longer = properties_of(calls_upto(rows, source, ordered, b));
            &&& shorter.len() <= longer.len()
            &&& longer.take(shorter.len() as int) == shorter
        }),
    decreases b - a,
{
    let shorter = properties_of(calls_upto(rows, source, ordered, a));
    let n = shorter.len() as int;
    if a < b {
        lemma_properties_prefix(rows, source, ordered, a, b - 1);
        let before = calls_upto(rows, source, ordered, b - 1);
        if is_call(rows, b - 1) {
            let call = call_of(rows, source, ordered, b - 1);
            assert(before.push(call).drop_last() =~= before);
            assert(before.push(call).last() == call);
        }
        let longer = properties_of(calls_upto(rows, source, ordered, b));
        assert(longer.take(n) =~= properties_of(before).take(n));
    } else {
        assert(shorter.take(n) =~= shorter);
    }
}

/// What a call calls, ahead of its property joining the strings.
struct Shape {
    kind: AnalysisCallKind,
    callee: Option<u32>,
    target: Option<u32>,
    property: Option<usize>,
}

/// Whether a shape is that of a call.
spec fn shape_is(
    shape: Shape,
    rows: Seq<RowModel>,
    source: Seq<char>,
    call: CallModel,
) -> bool {
    &&& shape.kind == call.kind
    &&& shape.callee == rows::optional_row(call.callee)
    &&& shape.target == rows::optional_row(call.target)
    &&& match shape.property {
        Some(node) => node < rows.len() && call.property == Some(
            syntax::text_of(rows, source, node as int),
        ),
        None => call.property is None,
    }
}

fn shape_of(
    tree: &SyntaxTree,
    i: usize,
    by_node: &Vec<Option<u32>>,
    def_uses: &Vec<AnalysisDefUse>,
    source: Ghost<Seq<char>>,
    ordered: Ghost<Seq<PendingModel>>,
) -> (shape: Shape)
    requires
        i < tree@.len(),
        is_call(tree@, i as int),
        by_node@.len() == tree@.len(),
        indexes_references(by_node@, ordered@, ordered@.len() as int),
        def_uses@.len() == ordered@.len(),
        ordered@.len() <= u32::MAX,
        forall|r: int|
            0 <= r < def_uses@.len() ==> (#[trigger] def_uses@[r]).symbol == rows::optional_row(
                ordered@[r].target,
            ),
    ensures
        shape_is(shape, tree@, source@, call_of(tree@, source@, ordered@, i as int)),
{
    let mut callee: Option<usize> = tree.child_by_field_name(i, "function");
    if callee.is_none() {
        callee = tree.child_by_field_name(i, "constructor");
    }
    let dynamic = Shape { kind: AnalysisCallKind::Dynamic, callee: None, target: None, property: None };
    let leaf: usize = match callee {
        None => {
            return dynamic;
        },
        Some(callee) => unwrap_parenthesized(tree, callee),
    };
    if callee_name(tree, leaf) {
        proof {
            lemma_reference_bound(ordered@, leaf as int, ordered@.len() as int);
            assert(by_node@[leaf as int] == rows::optional_row(
                reference_at(ordered@, leaf as int),
            ));
        }
        let reference: Option<u32> = by_node[leaf];
        let target: Option<u32> = match reference {
            Some(row) => {
                assert(def_uses@[row as int].symbol == rows::optional_row(
                    ordered@[row as int].target,
                ));
                def_uses[row as usize].symbol
            },
            None => None,
        };
        let kind = if tree.is_kind(i, "new_expression") {
            AnalysisCallKind::Construct
        } else {
            AnalysisCallKind::Direct
        };
        Shape { kind, callee: reference, target, property: None }
    } else if tree.is_kind(leaf, "member_expression") {
        let mut reference: Option<u32> = None;
        if let Some(object) = tree.child_by_field_name(leaf, "object") {
            let name = unwrap_parenthesized(tree, object);
            if callee_name(tree, name) {
                proof {
                    assert(by_node@[name as int] == rows::optional_row(
                        reference_at(ordered@, name as int),
                    ));
                }
                reference = by_node[name];
            }
        }
        let property = tree.child_by_field_name(leaf, "property");
        Shape { kind: AnalysisCallKind::Member, callee: reference, target: None, property }
    } else {
        dynamic
    }
}

/// Records the calls of a tree in row order, and adds the properties that
/// they read to the strings.
pub(crate) fn collect_calls(
    tree: &SyntaxTree,
    source: &str,
    nodes: &Vec<AnalysisNode>,
    symbols: &Vec<AnalysisSymbol>,
    table_rows: &Vec<AnalysisReference>,
    def_uses: &Vec<AnalysisDefUse>,
    strings: &mut StringInterner,
    context: Ghost<Context>,
) -> (r: Result<Vec<AnalysisCall>, AnalysisError>)
    requires
        old(strings).is_wf(),
        syntax::covers(tree@, source@),
        context@.rows == tree@,
        context@.source == source@,
        nodes@.len() == tree@.len(),
        tree@.len() <= u32::MAX,
        table_rows@.len() <= u32::MAX,
        symbols@.len() <= u32::MAX,
        table_rows@.len() == references::ordered_references(context@).len(),
        forall|k: int|
            0 <= k < table_rows@.len() ==> (#[trigger] table_rows@[k]).node
                == references::ordered_references(context@)[k].node && table_rows@[k].node
                < tree@.len(),
        references::def_uses_are(
            def_uses@,
            table_rows@,
            symbols@,
            references::ordered_references(context@),
        ),
        references::resolved_rows_exist(
            references::ordered_references(context@),
            symbols@.len() as int,
        ),
    ensures
        final(strings).is_wf(),
        match r {
            Ok(calls) => {
                &&& final(strings).texts() == interner::all_joined(
                    old(strings).texts(),
                    properties_of(all_calls(context@)),
                )
                &&& calls_are(
                    calls@,
                    nodes@,
                    final(strings).texts(),
                    def_uses@,
                    symbols@,
                    ordered_calls(context@),
                )
            },
            Err(error) => {
                &&& error == AnalysisError::TooManyRows
                &&& interner::all_joined(
                    old(strings).texts(),
                    properties_of(all_calls(context@)),
                ).len() > u32::MAX + 1
            },
        },
{
    let length: usize = tree.len();
    let ghost start = strings.texts();
    let ghost ordered = references::ordered_references(context@);
    let ghost all = all_calls(context@);
    let by_node = index_references(table_rows, length, Ghost(ordered));
    let mut calls: Vec<AnalysisCall> = Vec::new();
    let mut i: usize = 0;
    assert forall|k: int| 0 <= k < def_uses@.len() implies (#[trigger] def_uses@[k]).symbol
        == rows::optional_row(ordered[k].target) by {
        assert(references::def_use_is(def_uses@[k], table_rows@, symbols@, ordered, k));
    }
    while i < length
        invariant
            i <= length,
            length == tree@.len(),
            length <= u32::MAX,
            start == old(strings).texts(),
            ordered == references::ordered_references(context@),
            all == all_calls(context@),
            strings.is_wf(),
            syntax::covers(tree@, source@),
            context@.rows == tree@,
            context@.source == source@,
            nodes@.len() == tree@.len(),
            by_node@.len() == tree@.len(),
            indexes_references(by_node@, ordered, ordered.len() as int),
            def_uses@.len() == ordered.len(),
            ordered.len() <= u32::MAX,
            symbols@.len() <= u32::MAX,
            forall|k: int|
                0 <= k < def_uses@.len() ==> (#[trigger] def_uses@[k]).symbol
                    == rows::optional_row(ordered[k].target),
            references::resolved_rows_exist(ordered, symbols@.len() as int),
            strings.texts() == interner::all_joined(
                start,
                properties_of(calls_upto(tree@, source@, ordered, i as int)),
            ),
            calls@.len() <= i,
            calls_are(
                calls@,
                nodes@,
                strings.texts(),
                def_uses@,
                symbols@,
                calls_upto(tree@, source@, ordered, i as int),
            ),
            forall|k: int| 0 <= k < calls@.len() ==> (#[trigger] calls@[k]).node < tree@.len(),
        decreases length - i,
    {
        if tree.is_kind(i, "call_expression") || tree.is_kind(i, "new_expression") {
            let ghost before = strings.texts();
            let ghost earlier = calls_upto(tree@, source@, ordered, i as int);
            let ghost call = call_of(tree@, source@, ordered, i as int);
            proof {
                assert(earlier.push(call).drop_last() =~= earlier);
                assert(earlier.push(call).last() == call);
                assert(calls_upto(tree@, source@, ordered, i + 1) == earlier.push(call));
                lemma_properties_prefix(tree@, source@, ordered, i + 1, length as int);
                let longer = properties_of(all);
                let count = properties_of(earlier.push(call)).len() as int;
                rows::lemma_joined_lengths(start, longer, count);
            }
            let shape = shape_of(tree, i, &by_node, def_uses, Ghost(source@), Ghost(ordered));
            let property: Option<u32> = match shape.property {
                Some(node) => {
                    let text = tree.text(node, source);
                    proof {
                        interner::lemma_joined_push(start, properties_of(earlier), text@);
                    }
                    match strings.intern(text) {
                        Ok(row) => Some(row),
                        Err(error) => {
                            return Err(error);
                        },
                    }
                },
                None => None,
            };
            proof {
                lemma_call_references(tree@, source@, ordered, i as int);
                if let Some(row) = call.callee {
                    assert(references::row_exists(ordered[row], symbols@.len() as int));
                }
            }
            let callee = match shape.callee {
                Some(row) => def_uses[row as usize].id,
                None => missing_id(),
            };
            let target = match shape.target {
                Some(row) => symbols[row as usize].id,
                None => missing_id(),
            };
            let id = call_id(&nodes[i].id, shape.kind, &callee, &target, property);
            calls.push(
                AnalysisCall {
                    id,
                    node: i as u32,
                    callee_reference: shape.callee,
                    target_symbol: shape.target,
                    property,
                    kind: shape.kind,
                },
            );
            proof {
                assert(interner::extends(strings.texts(), before)) by {
                    assert(strings.texts().take(before.len() as int) =~= before);
                }
                assert forall|k: int| 0 <= k < calls@.len() implies call_is(
                    #[trigger] calls@[k],
                    nodes@,
                    strings.texts(),
                    def_uses@,
                    symbols@,
                    earlier.push(call)[k],
                ) by {
                    if k < calls@.len() - 1 {
                        lemma_property_stays(
                            calls@[k].property,
                            strings.texts(),
                            before,
                            earlier[k].property,
                        );
                    }
                }
            }
        }
        i += 1;
    }
    let ghost table = strings.texts();
    Ok(order_calls(tree, nodes, symbols, def_uses, &calls, Ghost(table), context))
}

/// A property row keeps its text when a table grows.
pub proof fn lemma_property_stays(
    row: Option<u32>,
    table: Seq<Seq<char>>,
    earlier: Seq<Seq<char>>,
    property: Option<Seq<char>>,
)
    requires
        interner::extends(table, earlier),
        property_is(row, earlier, property),
    ensures
        property_is(row, table, property),
{
    if let Some(text) = property {
        interner::lemma_names_stay(table, earlier, row->0, text);
    }
}

/// The references of a call are rows.
proof fn lemma_call_references(
    rows: Seq<RowModel>,
    source: Seq<char>,
    ordered: Seq<PendingModel>,
    i: int,
)
    ensures
        ({
            let call = call_of(rows, source, ordered, i);
            &&& call.callee matches Some(row) ==> 0 <= row < ordered.len()
            &&& call.target matches Some(target) ==> call.callee matches Some(row)
                && ordered[row].target == Some(target)
        }),
{
    match callee_of(rows, i) {
        None => {},
        Some(callee) => {
            let leaf = unwrapped(rows, callee);
            lemma_reference_bound(ordered, leaf, ordered.len() as int);
            match syntax::child_by_field(rows, leaf, "object"@) {
                Some(object) => {
                    lemma_reference_bound(
                        ordered,
                        unwrapped(rows, object),
                        ordered.len() as int,
                    );
                },
                None => {},
            }
        },
    }
}

fn order_calls(
    tree: &SyntaxTree,
    nodes: &Vec<AnalysisNode>,
    symbols: &Vec<AnalysisSymbol>,
    def_uses: &Vec<AnalysisDefUse>,
    calls: &Vec<AnalysisCall>,
    table: Ghost<Seq<Seq<char>>>,
    context: Ghost<Context>,
) -> (r: Vec<AnalysisCall>)
    requires
        context@.rows == tree@,
        calls_are(calls@, nodes@, table@, def_uses@, symbols@, all_calls(context@)),
        forall|k: int| 0 <= k < calls@.len() ==> (#[trigger] calls@[k]).node < tree@.len(),
    ensures
        calls_are(r@, nodes@, table@, def_uses@, symbols@, ordered_calls(context@)),
{
    let ghost all = all_calls(context@);
    let length: usize = calls.len();
    let mut keys: Vec<Pair<u64, Pair<u64, u64>>> = Vec::new();
    let mut k: usize = 0;
    while k < length
        invariant
            k <= length,
            length == calls@.len(),
            context@.rows == tree@,
            all == all_calls(context@),
            calls_are(calls@, nodes@, table@, def_uses@, symbols@, all),
            forall|j: int| 0 <= j < calls@.len() ==> (#[trigger] calls@[j]).node < tree@.len(),
            keys@.len() == k,
            forall|j: int| 0 <= j < k ==> #[trigger] keys@[j] == call_key(tree@, all[j]),
        decreases length - k,
    {
        assert(call_is(calls@[k as int], nodes@, table@, def_uses@, symbols@, all[k as int]));
        let row = tree.row(calls[k].node as usize);
        keys.push(
            Pair(
                row.start_byte as u64,
                Pair(row.end_byte as u64, calls[k].kind.code() as u64),
            ),
        );
        k += 1;
    }
    assert(keys@ =~= call_keys(tree@, all));
    let order = stable_order(&keys);
    let ghost ordered = ordered_calls(context@);
    proof {
        order::lemma_ranks(keys@, order@);
    }
    let mut sorted: Vec<AnalysisCall> = Vec::new();
    let mut j: usize = 0;
    while j < length
        invariant
            j <= length,
            length == calls@.len(),
            order@.len() == length,
            ordered.len() == length,
            calls_are(calls@, nodes@, table@, def_uses@, symbols@, all),
            forall|i: int| 0 <= i < length ==> #[trigger] order@[i] < length,
            forall|i: int| 0 <= i < length ==> #[trigger] ordered[i] == all[order@[i] as int],
            sorted@.len() == j,
            forall|i: int|
                0 <= i < j ==> call_is(
                    #[trigger] sorted@[i],
                    nodes@,
                    table@,
                    def_uses@,
                    symbols@,
                    ordered[i],
                ),
        decreases length - j,
    {
        let at = order[j];
        assert(ordered[j as int] == all[order@[j as int] as int]);
        assert(call_is(calls@[at as int], nodes@, table@, def_uses@, symbols@, all[at as int]));
        sorted.push(calls[at]);
        j += 1;
    }
    sorted
}

} // verus!
