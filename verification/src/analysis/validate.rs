//! The relationships between the rows of an analysis.

use vstd::prelude::*;
use vstd::string::*;

use super::{
    call_id, def_use_id, missing_id, node_id, reference_id, same_id, scope_id, symbol_id, Analysis,
    AnalysisCall, AnalysisCallKind, AnalysisNode, AnalysisReferenceRole, AnalysisResolution,
    AnalysisScopeKind, AnalysisSymbol, StableId, ANALYSIS_PROFILE, ANALYSIS_VERSION,
    JAVASCRIPT_FRONTEND, JAVASCRIPT_FRONTEND_VERSION, PRODUCER, PRODUCER_VERSION,
};
use crate::order::earlier_equal;
use crate::text::same_text;
use crate::{analysis, order};

verus! {

/// What is wrong with a syntax-node row.
#[derive(Debug, Clone, Copy, PartialEq, Eq, Structural)]
pub enum NodeFault {
    Span,
    Flags,
    Parent,
    NotPreOrder,
    OutsideParent,
    ChildOrdinal,
    TooManyChildren,
    RootOrdinal,
    KindString,
    SyntaxRoot,
    StableId,
    RowNumber,
}

/// What is wrong with a scope row.
#[derive(Debug, Clone, Copy, PartialEq, Eq, Structural)]
pub enum ScopeFault {
    Span,
    Parent,
    GlobalScope,
    NoParent,
    Inconsistent,
    StableId,
    Duplicate,
}

/// What is wrong with a symbol row.
#[derive(Debug, Clone, Copy, PartialEq, Eq, Structural)]
pub enum SymbolFault {
    RowReference,
    ReusedNode,
    OutsideScope,
    StableId,
    RangeOverflow,
    ReferenceRange,
}

/// What is wrong with a reference row or its resolution.
#[derive(Debug, Clone, Copy, PartialEq, Eq, Structural)]
pub enum ReferenceFault {
    RowReference,
    ReusedNode,
    OutsideScope,
    StableId,
    Resolution,
    DefUseStableId,
}

/// What is wrong with a call row.
#[derive(Debug, Clone, Copy, PartialEq, Eq, Structural)]
pub enum CallFault {
    RowReference,
    ReusedNode,
    NodeKind,
    CalleeOutside,
    NoCallee,
    DirectShape,
    CalleeRole,
    MemberShape,
    DynamicShape,
    StableId,
}

/// Why an analysis was refused.
#[derive(Debug, Clone, Copy, PartialEq, Eq, Structural)]
pub enum AnalysisError {
    UnsupportedProfile,
    SourceTooLarge,
    NoRootOrScope,
    Node(usize, NodeFault),
    Scope(usize, ScopeFault),
    Symbol(usize, SymbolFault),
    RowCountsDiffer,
    Reference(usize, ReferenceFault),
    ForeignReference(usize),
    StrayResolution,
    Call(usize, CallFault),
    Loss(usize),
    /// A table would need more rows than a row number can count.
    TooManyRows,
    /// A declaration or reference span has no syntax node.
    MissingNode,
}

/// Whether the metadata names this profile, producer and frontend.
pub open spec fn metadata_is_supported(a: Analysis) -> bool {
    &&& a.version == ANALYSIS_VERSION
    &&& a.profile@ == ANALYSIS_PROFILE@
    &&& a.producer@ == PRODUCER@
    &&& a.producer_version@ == PRODUCER_VERSION@
    &&& a.frontend@ == JAVASCRIPT_FRONTEND@
    &&& a.frontend_version@ == JAVASCRIPT_FRONTEND_VERSION@
}

/// The faults of an analysis as a whole.
pub open spec fn header_fault(a: Analysis) -> Option<AnalysisError> {
    if !metadata_is_supported(a) {
        Some(AnalysisError::UnsupportedProfile)
    } else if a.source_length > u32::MAX {
        Some(AnalysisError::SourceTooLarge)
    } else if a.nodes@.len() == 0 || a.scopes@.len() == 0 {
        Some(AnalysisError::NoRootOrScope)
    } else {
        None
    }
}

/// Whether `row` is `from` or one of its ancestors.
pub open spec fn is_on_path(nodes: Seq<AnalysisNode>, row: int, from: int) -> bool
    decreases from,
{
    row == from || match nodes[from].parent {
        Some(parent) => 0 <= parent < from && is_on_path(nodes, row, parent as int),
        None => false,
    }
}

/// The number of the first `count` nodes that are children of `parent`.
pub open spec fn children_before(nodes: Seq<AnalysisNode>, parent: u32, count: int) -> nat
    decreases count,
{
    if count <= 0 {
        0
    } else {
        children_before(nodes, parent, count - 1) + if nodes[count - 1].parent == Some(parent) {
            1nat
        } else {
            0
        }
    }
}

/// The fault of node `i`, if any.
pub open spec fn node_fault(a: Analysis, i: int) -> Option<NodeFault> {
    let node = a.nodes@[i];
    if node.start_byte > node.end_byte || node.end_byte > a.source_length {
        Some(NodeFault::Span)
    } else if node.flags >= 16 {
        Some(NodeFault::Flags)
    } else if node.parent is Some && node.parent->0 >= i {
        Some(NodeFault::Parent)
    } else if i > 0 && node.parent is Some && !is_on_path(
        a.nodes@,
        node.parent->0 as int,
        i - 1,
    ) {
        Some(NodeFault::NotPreOrder)
    } else if node.parent is Some && (node.start_byte < a.nodes@[node.parent->0 as int].start_byte
        || node.end_byte > a.nodes@[node.parent->0 as int].end_byte) {
        Some(NodeFault::OutsideParent)
    } else if node.parent is Some && node.child_ordinal != children_before(
        a.nodes@,
        node.parent->0,
        i,
    ) {
        Some(NodeFault::ChildOrdinal)
    } else if node.parent is Some && node.child_ordinal == u32::MAX {
        Some(NodeFault::TooManyChildren)
    } else if node.parent is None && (i != 0 || node.child_ordinal != 0) {
        Some(NodeFault::RootOrdinal)
    } else if node.kind >= a.strings@.len() {
        Some(NodeFault::KindString)
    } else if i == 0 && (node.start_byte != 0 || node.end_byte != a.source_length
        || a.strings@[node.kind as int]@ != "program"@) {
        Some(NodeFault::SyntaxRoot)
    } else if node.id.0@ != analysis::node_id_of(
        node.parent,
        node.child_ordinal,
        a.strings@[node.kind as int]@,
        node.flags,
    ) {
        Some(NodeFault::StableId)
    } else if i > u32::MAX {
        Some(NodeFault::RowNumber)
    } else {
        None
    }
}

/// The first node from `i` on that has a fault.
pub open spec fn first_node_fault(a: Analysis, i: int) -> Option<AnalysisError>
    decreases a.nodes@.len() - i,
{
    if i < 0 || i >= a.nodes@.len() {
        None
    } else {
        match node_fault(a, i) {
            Some(fault) => Some(AnalysisError::Node(i as usize, fault)),
            None => first_node_fault(a, i + 1),
        }
    }
}

/// Whether an earlier scope has the identity of scope `i`.
pub open spec fn scope_is_repeated(a: Analysis, i: int) -> bool {
    exists|k: int| 0 <= k < i && (#[trigger] a.scopes@[k]).id == a.scopes@[i].id
}

/// The fault of scope `i`, if any.
pub open spec fn scope_fault(a: Analysis, i: int) -> Option<ScopeFault> {
    let scope = a.scopes@[i];
    if scope.start_byte > scope.end_byte || scope.end_byte > a.source_length {
        Some(ScopeFault::Span)
    } else if scope.parent is Some && scope.parent->0 >= i {
        Some(ScopeFault::Parent)
    } else if i == 0 && (scope.kind != AnalysisScopeKind::Global || scope.depth != 0
        || scope.start_byte != 0 || scope.end_byte != a.source_length) {
        Some(ScopeFault::GlobalScope)
    } else if i > 0 && scope.parent is None {
        Some(ScopeFault::NoParent)
    } else if i > 0 && (scope.depth != a.scopes@[scope.parent->0 as int].depth + 1
        || scope.start_byte < a.scopes@[scope.parent->0 as int].start_byte || scope.end_byte
        > a.scopes@[scope.parent->0 as int].end_byte) {
        Some(ScopeFault::Inconsistent)
    } else if scope.id.0@ != analysis::scope_id_of(
        scope.parent,
        scope.kind,
        scope.depth,
        scope.start_byte,
        scope.end_byte,
    ) {
        Some(ScopeFault::StableId)
    } else if scope_is_repeated(a, i) {
        Some(ScopeFault::Duplicate)
    } else {
        None
    }
}

/// The first scope from `i` on that has a fault.
pub open spec fn first_scope_fault(a: Analysis, i: int) -> Option<AnalysisError>
    decreases a.scopes@.len() - i,
{
    if i < 0 || i >= a.scopes@.len() {
        None
    } else {
        match scope_fault(a, i) {
            Some(fault) => Some(AnalysisError::Scope(i as usize, fault)),
            None => first_scope_fault(a, i + 1),
        }
    }
}

/// The number of references that the first `count` symbols own.
pub open spec fn references_before(symbols: Seq<AnalysisSymbol>, count: int) -> int
    decreases count,
{
    if count <= 0 {
        0
    } else {
        references_before(symbols, count - 1) + symbols[count - 1].reference_count
    }
}

/// Whether an earlier symbol is declared by the node of symbol `i`.
pub open spec fn declaration_is_reused(a: Analysis, i: int) -> bool {
    exists|k: int|
        0 <= k < i && (#[trigger] a.symbols@[k]).declaration_node
            == a.symbols@[i].declaration_node
}

/// The fault of symbol `i`, if any.
pub open spec fn symbol_fault(a: Analysis, i: int) -> Option<SymbolFault> {
    let symbol = a.symbols@[i];
    if symbol.declaration_node >= a.nodes@.len() || symbol.scope >= a.scopes@.len() || symbol.name
        >= a.strings@.len() {
        Some(SymbolFault::RowReference)
    } else if declaration_is_reused(a, i) {
        Some(SymbolFault::ReusedNode)
    } else if a.nodes@[symbol.declaration_node as int].start_byte
        < a.scopes@[symbol.scope as int].start_byte
        || a.nodes@[symbol.declaration_node as int].end_byte
        > a.scopes@[symbol.scope as int].end_byte {
        Some(SymbolFault::OutsideScope)
    } else if symbol.id.0@ != analysis::symbol_id_of(
        a.nodes@[symbol.declaration_node as int].id.0@,
        symbol.kind,
    ) {
        Some(SymbolFault::StableId)
    } else if symbol.reference_first + symbol.reference_count > u32::MAX {
        Some(SymbolFault::RangeOverflow)
    } else if symbol.reference_first != references_before(a.symbols@, i) || symbol.reference_first
        + symbol.reference_count > a.references@.len() {
        Some(SymbolFault::ReferenceRange)
    } else {
        None
    }
}

/// The first symbol from `i` on that has a fault.
pub open spec fn first_symbol_fault(a: Analysis, i: int) -> Option<AnalysisError>
    decreases a.symbols@.len() - i,
{
    if i < 0 || i >= a.symbols@.len() {
        None
    } else {
        match symbol_fault(a, i) {
            Some(fault) => Some(AnalysisError::Symbol(i as usize, fault)),
            None => first_symbol_fault(a, i + 1),
        }
    }
}

/// The identity of a symbol row, or that of a missing one.
pub open spec fn symbol_id_at(a: Analysis, row: Option<u32>) -> Seq<u8> {
    match row {
        Some(row) => a.symbols@[row as int].id.0@,
        None => analysis::no_id(),
    }
}

/// Whether an earlier reference has the node of reference `i`.
pub open spec fn reference_node_is_reused(a: Analysis, i: int) -> bool {
    exists|k: int| 0 <= k < i && (#[trigger] a.references@[k]).node == a.references@[i].node
}

/// The fault of reference `i` or of its resolution, if any.
pub open spec fn reference_fault(a: Analysis, i: int) -> Option<ReferenceFault> {
    let reference = a.references@[i];
    let edge = a.def_uses@[i];
    if reference.node >= a.nodes@.len() || reference.scope >= a.scopes@.len() || reference.name
        >= a.strings@.len() {
        Some(ReferenceFault::RowReference)
    } else if reference_node_is_reused(a, i) {
        Some(ReferenceFault::ReusedNode)
    } else if a.nodes@[reference.node as int].start_byte
        < a.scopes@[reference.scope as int].start_byte || a.nodes@[reference.node as int].end_byte
        > a.scopes@[reference.scope as int].end_byte {
        Some(ReferenceFault::OutsideScope)
    } else if reference.id.0@ != analysis::reference_id_of(
        a.nodes@[reference.node as int].id.0@,
        reference.role,
    ) {
        Some(ReferenceFault::StableId)
    } else if edge.reference != i || (edge.symbol is Some && edge.symbol->0 >= a.symbols@.len())
        || (edge.resolution == AnalysisResolution::Resolved) != (edge.symbol is Some) {
        Some(ReferenceFault::Resolution)
    } else if edge.id.0@ != analysis::def_use_id_of(
        reference.id.0@,
        symbol_id_at(a, edge.symbol),
        edge.resolution,
    ) {
        Some(ReferenceFault::DefUseStableId)
    } else {
        None
    }
}

/// The first reference from `i` on that has a fault.
pub open spec fn first_reference_fault(a: Analysis, i: int) -> Option<AnalysisError>
    decreases a.references@.len() - i,
{
    if i < 0 || i >= a.references@.len() {
        None
    } else {
        match reference_fault(a, i) {
            Some(fault) => Some(AnalysisError::Reference(i as usize, fault)),
            None => first_reference_fault(a, i + 1),
        }
    }
}

/// Whether every resolution in the range of symbol `i` leads to it.
pub open spec fn owns_its_range(a: Analysis, i: int) -> bool {
    let symbol = a.symbols@[i];
    forall|k: int|
        symbol.reference_first <= k < symbol.reference_first + symbol.reference_count ==> (
        #[trigger] a.def_uses@[k]).symbol == Some(i as u32)
}

/// The first symbol from `i` on whose range holds another symbol's reference.
pub open spec fn first_foreign_range(a: Analysis, i: int) -> Option<AnalysisError>
    decreases a.symbols@.len() - i,
{
    if i < 0 || i >= a.symbols@.len() {
        None
    } else if !owns_its_range(a, i) {
        Some(AnalysisError::ForeignReference(i as usize))
    } else {
        first_foreign_range(a, i + 1)
    }
}

/// Whether a resolution behind the ranges of all symbols has a symbol.
pub open spec fn has_stray_resolution(a: Analysis) -> bool {
    exists|k: int|
        references_before(a.symbols@, a.symbols@.len() as int) <= k < a.def_uses@.len() && (
        #[trigger] a.def_uses@[k]).symbol is Some
}

/// Whether an earlier call has the node of call `i`.
pub open spec fn call_node_is_reused(a: Analysis, i: int) -> bool {
    exists|k: int| 0 <= k < i && (#[trigger] a.calls@[k]).node == a.calls@[i].node
}

/// Whether a call of this kind may stand at a syntax node of that kind.
pub open spec fn call_node_kind_fits(kind: AnalysisCallKind, node_kind: Seq<char>) -> bool {
    match kind {
        AnalysisCallKind::Direct => node_kind == "call_expression"@,
        AnalysisCallKind::Construct => node_kind == "new_expression"@,
        AnalysisCallKind::Member | AnalysisCallKind::Dynamic => node_kind == "call_expression"@
            || node_kind == "new_expression"@,
    }
}

/// The fault of a call's callee, target and property together, if any.
pub open spec fn call_shape_fault(a: Analysis, call: AnalysisCall) -> Option<CallFault> {
    match call.kind {
        AnalysisCallKind::Direct | AnalysisCallKind::Construct => match call.callee_reference {
            None => Some(CallFault::NoCallee),
            Some(callee) => if call.property is Some || a.def_uses@[callee as int].symbol
                != call.target_symbol {
                Some(CallFault::DirectShape)
            } else if a.references@[callee as int].role != (if call.kind
                == AnalysisCallKind::Construct {
                AnalysisReferenceRole::Construct
            } else {
                AnalysisReferenceRole::Call
            }) {
                Some(CallFault::CalleeRole)
            } else {
                None
            },
        },
        AnalysisCallKind::Member => if call.property is None || call.target_symbol is Some {
            Some(CallFault::MemberShape)
        } else {
            None
        },
        AnalysisCallKind::Dynamic => if call.callee_reference is Some || call.target_symbol is Some
            || call.property is Some {
            Some(CallFault::DynamicShape)
        } else {
            None
        },
    }
}

/// The identity of a resolution row, or that of a missing one.
pub open spec fn def_use_id_at(a: Analysis, row: Option<u32>) -> Seq<u8> {
    match row {
        Some(row) => a.def_uses@[row as int].id.0@,
        None => analysis::no_id(),
    }
}

/// The fault of call `i`, if any.
pub open spec fn call_fault(a: Analysis, i: int) -> Option<CallFault> {
    let call = a.calls@[i];
    if call.node >= a.nodes@.len() || (call.callee_reference is Some && call.callee_reference->0
        >= a.references@.len()) || (call.target_symbol is Some && call.target_symbol->0
        >= a.symbols@.len()) || (call.property is Some && call.property->0 >= a.strings@.len()) {
        Some(CallFault::RowReference)
    } else if call_node_is_reused(a, i) {
        Some(CallFault::ReusedNode)
    } else {
        let node = a.nodes@[call.node as int];
        if !call_node_kind_fits(call.kind, a.strings@[node.kind as int]@) {
            Some(CallFault::NodeKind)
        } else if call.callee_reference is Some && ({
            let callee = a.nodes@[a.references@[call.callee_reference->0 as int].node as int];
            callee.start_byte < node.start_byte || callee.end_byte > node.end_byte
        }) {
            Some(CallFault::CalleeOutside)
        } else {
            match call_shape_fault(a, call) {
                Some(fault) => Some(fault),
                None => if call.id.0@ != analysis::call_id_of(
                    node.id.0@,
                    call.kind,
                    def_use_id_at(a, call.callee_reference),
                    symbol_id_at(a, call.target_symbol),
                    call.property,
                ) {
                    Some(CallFault::StableId)
                } else {
                    None
                },
            }
        }
    }
}

/// The first call from `i` on that has a fault.
pub open spec fn first_call_fault(a: Analysis, i: int) -> Option<AnalysisError>
    decreases a.calls@.len() - i,
{
    if i < 0 || i >= a.calls@.len() {
        None
    } else {
        match call_fault(a, i) {
            Some(fault) => Some(AnalysisError::Call(i as usize, fault)),
            None => first_call_fault(a, i + 1),
        }
    }
}

/// The first loss from `i` on whose message is not a string row.
pub open spec fn first_loss_fault(a: Analysis, i: int) -> Option<AnalysisError>
    decreases a.losses@.len() - i,
{
    if i < 0 || i >= a.losses@.len() {
        None
    } else if a.losses@[i].message >= a.strings@.len() {
        Some(AnalysisError::Loss(i as usize))
    } else {
        first_loss_fault(a, i + 1)
    }
}

/// The first of two faults.
pub open spec fn or_fault(first: Option<AnalysisError>, second: Option<AnalysisError>) -> Option<
    AnalysisError,
> {
    if first is Some {
        first
    } else {
        second
    }
}

/// The first fault of the tables up to the symbols.
pub open spec fn structure_fault(a: Analysis) -> Option<AnalysisError> {
    or_fault(
        header_fault(a),
        or_fault(
            first_node_fault(a, 0),
            or_fault(first_scope_fault(a, 0), first_symbol_fault(a, 0)),
        ),
    )
}

/// The first fault of the references and their resolutions.
pub open spec fn resolution_fault(a: Analysis) -> Option<AnalysisError> {
    if a.references@.len() != a.def_uses@.len() {
        Some(AnalysisError::RowCountsDiffer)
    } else {
        or_fault(
            first_reference_fault(a, 0),
            or_fault(
                first_foreign_range(a, 0),
                if has_stray_resolution(a) {
                    Some(AnalysisError::StrayResolution)
                } else {
                    None
                },
            ),
        )
    }
}

/// The first fault of an analysis.
pub open spec fn analysis_fault(a: Analysis) -> Option<AnalysisError> {
    or_fault(
        structure_fault(a),
        or_fault(resolution_fault(a), or_fault(first_call_fault(a, 0), first_loss_fault(a, 0))),
    )
}

/// Whether every row of an analysis is without fault.
pub open spec fn is_valid(a: Analysis) -> bool {
    &&& header_fault(a) is None
    &&& forall|i: int| 0 <= i < a.nodes@.len() ==> (#[trigger] node_fault(a, i)) is None
    &&& forall|i: int| 0 <= i < a.scopes@.len() ==> (#[trigger] scope_fault(a, i)) is None
    &&& forall|i: int| 0 <= i < a.symbols@.len() ==> (#[trigger] symbol_fault(a, i)) is None
    &&& a.references@.len() == a.def_uses@.len()
    &&& forall|i: int| 0 <= i < a.references@.len() ==> (#[trigger] reference_fault(a, i)) is None
    &&& forall|i: int| 0 <= i < a.symbols@.len() ==> #[trigger] owns_its_range(a, i)
    &&& !has_stray_resolution(a)
    &&& forall|i: int| 0 <= i < a.calls@.len() ==> (#[trigger] call_fault(a, i)) is None
    &&& forall|i: int|
        0 <= i < a.losses@.len() ==> (#[trigger] a.losses@[i]).message < a.strings@.len()
}

proof fn lemma_first_node_fault(a: Analysis, i: int)
    requires
        0 <= i,
    ensures
        first_node_fault(a, i) is None == (forall|k: int|
            i <= k < a.nodes@.len() ==> (#[trigger] node_fault(a, k)) is None),
    decreases a.nodes@.len() - i,
{
    if i < a.nodes@.len() {
        lemma_first_node_fault(a, i + 1);
    }
}

/// Where no node has a fault, the kind of every node is a string row.
pub proof fn lemma_node_is_sound(a: Analysis, i: int)
    requires
        first_node_fault(a, 0) is None,
        0 <= i < a.nodes@.len(),
    ensures
        node_fault(a, i) is None,
        a.nodes@[i].kind < a.strings@.len(),
{
    lemma_first_node_fault(a, 0);
    assert(node_fault(a, i) is None);
}

proof fn lemma_first_scope_fault(a: Analysis, i: int)
    requires
        0 <= i,
    ensures
        first_scope_fault(a, i) is None == (forall|k: int|
            i <= k < a.scopes@.len() ==> (#[trigger] scope_fault(a, k)) is None),
    decreases a.scopes@.len() - i,
{
    if i < a.scopes@.len() {
        lemma_first_scope_fault(a, i + 1);
    }
}

proof fn lemma_first_symbol_fault(a: Analysis, i: int)
    requires
        0 <= i,
    ensures
        first_symbol_fault(a, i) is None == (forall|k: int|
            i <= k < a.symbols@.len() ==> (#[trigger] symbol_fault(a, k)) is None),
    decreases a.symbols@.len() - i,
{
    if i < a.symbols@.len() {
        lemma_first_symbol_fault(a, i + 1);
    }
}

proof fn lemma_first_reference_fault(a: Analysis, i: int)
    requires
        0 <= i,
    ensures
        first_reference_fault(a, i) is None == (forall|k: int|
            i <= k < a.references@.len() ==> (#[trigger] reference_fault(a, k)) is None),
    decreases a.references@.len() - i,
{
    if i < a.references@.len() {
        lemma_first_reference_fault(a, i + 1);
    }
}

proof fn lemma_first_foreign_range(a: Analysis, i: int)
    requires
        0 <= i,
    ensures
        first_foreign_range(a, i) is None == (forall|k: int|
            i <= k < a.symbols@.len() ==> #[trigger] owns_its_range(a, k)),
    decreases a.symbols@.len() - i,
{
    if i < a.symbols@.len() {
        lemma_first_foreign_range(a, i + 1);
    }
}

proof fn lemma_first_call_fault(a: Analysis, i: int)
    requires
        0 <= i,
    ensures
        first_call_fault(a, i) is None == (forall|k: int|
            i <= k < a.calls@.len() ==> (#[trigger] call_fault(a, k)) is None),
    decreases a.calls@.len() - i,
{
    if i < a.calls@.len() {
        lemma_first_call_fault(a, i + 1);
    }
}

proof fn lemma_first_loss_fault(a: Analysis, i: int)
    requires
        0 <= i,
    ensures
        first_loss_fault(a, i) is None == (forall|k: int|
            i <= k < a.losses@.len() ==> (#[trigger] a.losses@[k]).message < a.strings@.len()),
    decreases a.losses@.len() - i,
{
    if i < a.losses@.len() {
        lemma_first_loss_fault(a, i + 1);
    }
}

/// An analysis has no first fault exactly when every row is without fault.
pub proof fn law_no_fault_means_valid(a: Analysis)
    ensures
        analysis_fault(a) is None == is_valid(a),
{
    lemma_first_node_fault(a, 0);
    lemma_first_scope_fault(a, 0);
    lemma_first_symbol_fault(a, 0);
    lemma_first_reference_fault(a, 0);
    lemma_first_foreign_range(a, 0);
    lemma_first_call_fault(a, 0);
    lemma_first_loss_fault(a, 0);
}

/// Whether an optional row number counts one of `count` rows.
pub open spec fn row_fits(row: Option<u32>, count: int) -> bool {
    row matches Some(row) ==> row < count
}

/// Whether every row number of an analysis counts a row.
pub open spec fn rows_fit(a: Analysis) -> bool {
    &&& 0 < a.nodes@.len() <= u32::MAX + 1
    &&& forall|i: int|
        0 <= i < a.nodes@.len() ==> (#[trigger] a.nodes@[i]).kind < a.strings@.len() && row_fits(
            a.nodes@[i].parent,
            i,
        )
    &&& forall|i: int|
        0 <= i < a.scopes@.len() ==> row_fits((#[trigger] a.scopes@[i]).parent, i)
    &&& forall|i: int|
        0 <= i < a.symbols@.len() ==> (#[trigger] a.symbols@[i]).declaration_node < a.nodes@.len()
            && a.symbols@[i].scope < a.scopes@.len() && a.symbols@[i].name < a.strings@.len()
            && a.symbols@[i].reference_first + a.symbols@[i].reference_count
            <= a.references@.len()
    &&& a.references@.len() == a.def_uses@.len()
    &&& forall|i: int|
        0 <= i < a.references@.len() ==> (#[trigger] a.references@[i]).node < a.nodes@.len()
            && a.references@[i].scope < a.scopes@.len() && a.references@[i].name < a.strings@.len()
    &&& forall|i: int|
        0 <= i < a.def_uses@.len() ==> row_fits(
            (#[trigger] a.def_uses@[i]).symbol,
            a.symbols@.len() as int,
        )
    &&& forall|i: int|
        0 <= i < a.calls@.len() ==> (#[trigger] a.calls@[i]).node < a.nodes@.len() && row_fits(
            a.calls@[i].callee_reference,
            a.references@.len() as int,
        ) && row_fits(a.calls@[i].target_symbol, a.symbols@.len() as int) && row_fits(
            a.calls@[i].property,
            a.strings@.len() as int,
        )
}

/// The row numbers of a valid analysis count rows.
pub proof fn lemma_valid_rows_fit(a: Analysis)
    requires
        is_valid(a),
    ensures
        rows_fit(a),
{
    assert(node_fault(a, a.nodes@.len() - 1) is None);
    assert forall|i: int| 0 <= i < a.nodes@.len() implies (#[trigger] a.nodes@[i]).kind
        < a.strings@.len() && row_fits(a.nodes@[i].parent, i) by {
        assert(node_fault(a, i) is None);
    }
    assert forall|i: int| 0 <= i < a.scopes@.len() implies row_fits(
        (#[trigger] a.scopes@[i]).parent,
        i,
    ) by {
        assert(scope_fault(a, i) is None);
    }
    assert forall|i: int| 0 <= i < a.symbols@.len() implies (
    #[trigger] a.symbols@[i]).declaration_node < a.nodes@.len() && a.symbols@[i].scope
        < a.scopes@.len() && a.symbols@[i].name < a.strings@.len() && a.symbols@[i].reference_first
        + a.symbols@[i].reference_count <= a.references@.len() by {
        assert(symbol_fault(a, i) is None);
    }
    assert forall|i: int| 0 <= i < a.references@.len() implies (#[trigger] a.references@[i]).node
        < a.nodes@.len() && a.references@[i].scope < a.scopes@.len() && a.references@[i].name
        < a.strings@.len() by {
        assert(reference_fault(a, i) is None);
    }
    assert forall|i: int| 0 <= i < a.def_uses@.len() implies row_fits(
        (#[trigger] a.def_uses@[i]).symbol,
        a.symbols@.len() as int,
    ) by {
        assert(reference_fault(a, i) is None);
    }
    assert forall|i: int| 0 <= i < a.calls@.len() implies (#[trigger] a.calls@[i]).node
        < a.nodes@.len() && row_fits(a.calls@[i].callee_reference, a.references@.len() as int)
        && row_fits(a.calls@[i].target_symbol, a.symbols@.len() as int) && row_fits(
        a.calls@[i].property,
        a.strings@.len() as int,
    ) by {
        assert(call_fault(a, i) is None);
    }
}

/// The rows from the root down to `row`.
spec fn path_to(nodes: Seq<AnalysisNode>, row: int) -> Seq<u32>
    decreases row,
{
    match nodes[row].parent {
        Some(parent) => if 0 <= parent < row {
            path_to(nodes, parent as int).push(row as u32)
        } else {
            seq![row as u32]
        },
        None => seq![row as u32],
    }
}

/// A row is on a path exactly when the path lists it, and what leads up to it
/// there is its own path.
proof fn lemma_path(nodes: Seq<AnalysisNode>, row: int)
    requires
        0 <= row <= u32::MAX,
    ensures
        path_to(nodes, row).len() > 0,
        path_to(nodes, row).last() == row,
        forall|k: int|
            0 <= k < path_to(nodes, row).len() ==> {
                &&& path_to(nodes, #[trigger] path_to(nodes, row)[k] as int) == path_to(
                    nodes,
                    row,
                ).take(k + 1)
                &&& is_on_path(nodes, path_to(nodes, row)[k] as int, row)
                &&& path_to(nodes, row)[k] <= row
            },
        forall|q: int|
            #[trigger] is_on_path(nodes, q, row) && 0 <= q <= u32::MAX ==> path_to(
                nodes,
                row,
            ).contains(q as u32),
    decreases row,
{
    let path = path_to(nodes, row);
    if nodes[row].parent is Some && nodes[row].parent->0 < row {
        let parent = nodes[row].parent->0 as int;
        lemma_path(nodes, parent);
        let upper = path_to(nodes, parent);
        assert(path == upper.push(row as u32));
        assert forall|k: int| 0 <= k < path.len() implies {
            &&& path_to(nodes, #[trigger] path[k] as int) == path.take(k + 1)
            &&& is_on_path(nodes, path[k] as int, row)
            &&& path[k] <= row
        } by {
            if k < upper.len() {
                assert(path[k] == upper[k]);
                assert(path.take(k + 1) =~= upper.take(k + 1));
            } else {
                assert(path.take(k + 1) =~= path);
            }
        }
        assert forall|q: int|
            #[trigger] is_on_path(nodes, q, row) && 0 <= q <= u32::MAX implies path.contains(
            q as u32,
        ) by {
            if q == row {
                assert(path[path.len() - 1] == q as u32);
            } else {
                assert(is_on_path(nodes, q, parent));
                let k = choose|k: int| 0 <= k < upper.len() && upper[k] == q as u32;
                assert(path[k] == q as u32);
            }
        }
    } else {
        assert(path.take(1) =~= path);
        assert(path[0] == row as u32);
    }
}

impl Analysis {
    fn metadata_supported(&self) -> (r: bool)
        ensures
            r == metadata_is_supported(*self),
    {
        self.version == ANALYSIS_VERSION && same_text(self.profile.as_str(), ANALYSIS_PROFILE)
            && same_text(self.producer.as_str(), PRODUCER) && same_text(
            self.producer_version.as_str(),
            PRODUCER_VERSION,
        ) && same_text(self.frontend.as_str(), JAVASCRIPT_FRONTEND) && same_text(
            self.frontend_version.as_str(),
            JAVASCRIPT_FRONTEND_VERSION,
        )
    }

    /// Closes the open nodes that are not on the way to `parent`.
    fn close_to(&self, open: &mut Vec<u32>, parent: u32, last: usize) -> (found: bool)
        requires
            last < self.nodes@.len(),
            last <= u32::MAX,
            old(open)@ == path_to(self.nodes@, last as int),
        ensures
            found == is_on_path(self.nodes@, parent as int, last as int),
            found ==> final(open)@ == path_to(self.nodes@, parent as int),
    {
        proof {
            lemma_path(self.nodes@, last as int);
        }
        let ghost whole = open@;
        let mut kept: usize = open.len();
        while kept > 0 && open[kept - 1] != parent
            invariant
                kept <= open@.len(),
                open@ == whole,
                forall|k: int| kept <= k < whole.len() ==> whole[k] != parent,
            decreases kept,
        {
            kept -= 1;
        }
        if kept == 0 {
            proof {
                if is_on_path(self.nodes@, parent as int, last as int) {
                    let k = choose|k: int| 0 <= k < whole.len() && whole[k] == parent;
                    assert(whole[k] != parent);
                }
            }
            return false;
        }
        open.truncate(kept);
        proof {
            assert(whole[kept - 1] == parent);
            assert(open@ =~= whole.take(kept as int));
        }
        true
    }

    /// The fault of one node, given what the rows ahead of it say.
    fn node_row_fault(&self, i: usize, in_order: bool, ordinal: u32) -> (fault: Option<NodeFault>)
        requires
            i < self.nodes@.len(),
            self.nodes@[i as int].parent matches Some(parent) ==> parent < i ==> {
                &&& in_order == is_on_path(self.nodes@, parent as int, i - 1)
                &&& in_order ==> ordinal == children_before(self.nodes@, parent, i as int)
            },
        ensures
            fault == node_fault(*self, i as int),
    {
        let node = self.nodes[i];
        if node.start_byte > node.end_byte || node.end_byte > self.source_length {
            return Some(NodeFault::Span);
        }
        if node.flags >= 16 {
            return Some(NodeFault::Flags);
        }
        if let Some(parent) = node.parent {
            if parent as usize >= i {
                return Some(NodeFault::Parent);
            }
            if !in_order {
                return Some(NodeFault::NotPreOrder);
            }
            let above = self.nodes[parent as usize];
            if node.start_byte < above.start_byte || node.end_byte > above.end_byte {
                return Some(NodeFault::OutsideParent);
            }
            if node.child_ordinal != ordinal {
                return Some(NodeFault::ChildOrdinal);
            }
            if node.child_ordinal == u32::MAX {
                return Some(NodeFault::TooManyChildren);
            }
        } else if i != 0 || node.child_ordinal != 0 {
            return Some(NodeFault::RootOrdinal);
        }
        if node.kind as usize >= self.strings.len() {
            return Some(NodeFault::KindString);
        }
        let kind = self.strings[node.kind as usize].as_str();
        if i == 0 && (node.start_byte != 0 || node.end_byte != self.source_length || !same_text(
            kind,
            "program",
        )) {
            return Some(NodeFault::SyntaxRoot);
        }
        let expected = node_id(node.parent, node.child_ordinal, kind, node.flags);
        if !same_id(&node.id, &expected) {
            return Some(NodeFault::StableId);
        }
        if i as u64 > 0xffff_ffff {
            return Some(NodeFault::RowNumber);
        }
        None
    }

    fn check_nodes(&self) -> (r: Result<(), AnalysisError>)
        ensures
            r == outcome(first_node_fault(*self, 0)),
    {
        let mut ordinals: Vec<u32> = Vec::new();
        let mut open: Vec<u32> = Vec::new();
        let mut i: usize = 0;
        while i < self.nodes.len()
            invariant
                i <= self.nodes@.len(),
                i <= 0x1_0000_0000,
                ordinals@.len() == i,
                first_node_fault(*self, 0) == first_node_fault(*self, i as int),
                forall|k: int|
                    0 <= k < i ==> #[trigger] ordinals@[k] == children_before(
                        self.nodes@,
                        k as u32,
                        i as int,
                    ),
                parents_come_first(self.nodes@, i as int),
                i > 0 ==> open@ == path_to(self.nodes@, i - 1),
            decreases self.nodes@.len() - i,
        {
            let mut in_order = true;
            let mut ordinal: u32 = 0;
            if let Some(parent) = self.nodes[i].parent {
                if (parent as usize) < i {
                    in_order = self.close_to(&mut open, parent, i - 1);
                    ordinal = ordinals[parent as usize];
                }
            }
            if let Some(fault) = self.node_row_fault(i, in_order, ordinal) {
                return Err(AnalysisError::Node(i, fault));
            }
            if let Some(parent) = self.nodes[i].parent {
                ordinals.set(parent as usize, ordinal + 1);
            } else {
                open.truncate(0);
            }
            open.push(i as u32);
            ordinals.push(0);
            proof {
                assert forall|k: int| 0 <= k < i + 1 implies #[trigger] ordinals@[k]
                    == children_before(self.nodes@, k as u32, i + 1) by {
                    if k == i {
                        lemma_no_children(self.nodes@, i as int, i + 1);
                    }
                }
                assert(open@ =~= path_to(self.nodes@, i as int));
            }
            i += 1;
        }
        Ok(())
    }
}

/// Whether the parents of the first `count` nodes come ahead of them.
spec fn parents_come_first(nodes: Seq<AnalysisNode>, count: int) -> bool {
    forall|k: int|
        0 <= k < count ==> ((#[trigger] nodes[k]).parent matches Some(parent) ==> parent < k)
}

proof fn lemma_no_children(nodes: Seq<AnalysisNode>, row: int, count: int)
    requires
        0 <= count <= row + 1 <= nodes.len(),
        row <= u32::MAX,
        parents_come_first(nodes, row + 1),
    ensures
        children_before(nodes, row as u32, count) == 0,
    decreases count,
{
    if count > 0 {
        lemma_no_children(nodes, row, count - 1);
        assert(nodes[count - 1].parent != Some(row as u32));
    }
}

/// Turns the first fault into the outcome of a check.
pub open spec fn outcome(fault: Option<AnalysisError>) -> Result<(), AnalysisError> {
    match fault {
        Some(error) => Err(error),
        None => Ok(()),
    }
}

impl Analysis {
    fn repeated_scopes(&self) -> (flags: Vec<bool>)
        ensures
            flags@.len() == self.scopes@.len(),
            forall|i: int|
                0 <= i < self.scopes@.len() ==> #[trigger] flags@[i] == scope_is_repeated(*self, i),
    {
        let mut keys: Vec<StableId> = Vec::new();
        let mut i: usize = 0;
        while i < self.scopes.len()
            invariant
                i <= self.scopes@.len(),
                keys@.len() == i,
                forall|k: int| 0 <= k < i ==> #[trigger] keys@[k] == self.scopes@[k].id,
            decreases self.scopes@.len() - i,
        {
            keys.push(self.scopes[i].id);
            i += 1;
        }
        let flags = earlier_equal(&keys);
        proof {
            assert forall|i: int| 0 <= i < self.scopes@.len() implies #[trigger] flags@[i]
                == scope_is_repeated(*self, i) by {
                assert(flags@[i] == order::occurs_earlier(keys@, i));
                assert forall|k: int| 0 <= k < i implies #[trigger] order::equivalent(
                    keys@[k],
                    keys@[i],
                ) == (self.scopes@[k].id == self.scopes@[i].id) by {
                    order::lemma_bytes_le_antisymmetric(keys@[k].0@, keys@[i].0@);
                    assert(keys@[k].0@ == keys@[i].0@ ==> keys@[k].0 =~= keys@[i].0);
                }
                if scope_is_repeated(*self, i) {
                    let k = choose|k: int|
                        0 <= k < i && (#[trigger] self.scopes@[k]).id == self.scopes@[i].id;
                    assert(order::equivalent(keys@[k], keys@[i]));
                }
                if order::occurs_earlier(keys@, i) {
                    let k = choose|k: int|
                        0 <= k < i && #[trigger] order::equivalent(keys@[k], keys@[i]);
                    assert(self.scopes@[k].id == self.scopes@[i].id);
                }
            }
        }
        flags
    }

    fn scope_row_fault(&self, i: usize, repeated: bool) -> (fault: Option<ScopeFault>)
        requires
            i < self.scopes@.len(),
            repeated == scope_is_repeated(*self, i as int),
        ensures
            fault == scope_fault(*self, i as int),
    {
        let scope = self.scopes[i];
        if scope.start_byte > scope.end_byte || scope.end_byte > self.source_length {
            return Some(ScopeFault::Span);
        }
        if let Some(parent) = scope.parent {
            if parent as usize >= i {
                return Some(ScopeFault::Parent);
            }
        }
        if i == 0 {
            if scope.kind != AnalysisScopeKind::Global || scope.depth != 0 || scope.start_byte != 0
                || scope.end_byte != self.source_length {
                return Some(ScopeFault::GlobalScope);
            }
        } else {
            match scope.parent {
                None => {
                    return Some(ScopeFault::NoParent);
                },
                Some(parent) => {
                    let above = self.scopes[parent as usize];
                    if scope.depth as u64 != above.depth as u64 + 1 || scope.start_byte
                        < above.start_byte || scope.end_byte > above.end_byte {
                        return Some(ScopeFault::Inconsistent);
                    }
                },
            }
        }
        let expected = scope_id(
            scope.parent,
            scope.kind,
            scope.depth,
            scope.start_byte,
            scope.end_byte,
        );
        if !same_id(&scope.id, &expected) {
            return Some(ScopeFault::StableId);
        }
        if repeated {
            return Some(ScopeFault::Duplicate);
        }
        None
    }

    fn check_scopes(&self) -> (r: Result<(), AnalysisError>)
        ensures
            r == outcome(first_scope_fault(*self, 0)),
    {
        let flags = self.repeated_scopes();
        let mut i: usize = 0;
        while i < self.scopes.len()
            invariant
                i <= self.scopes@.len(),
                flags@.len() == self.scopes@.len(),
                forall|k: int|
                    0 <= k < self.scopes@.len() ==> #[trigger] flags@[k] == scope_is_repeated(
                        *self,
                        k,
                    ),
                first_scope_fault(*self, 0) == first_scope_fault(*self, i as int),
            decreases self.scopes@.len() - i,
        {
            if let Some(fault) = self.scope_row_fault(i, flags[i]) {
                return Err(AnalysisError::Scope(i, fault));
            }
            i += 1;
        }
        Ok(())
    }

    fn symbol_row_fault(&self, i: usize, reused: bool, next_reference: u64) -> (fault: Option<
        SymbolFault,
    >)
        requires
            i < self.symbols@.len(),
            reused == declaration_is_reused(*self, i as int),
            next_reference == references_before(self.symbols@, i as int),
        ensures
            fault == symbol_fault(*self, i as int),
    {
        let symbol = self.symbols[i];
        if symbol.declaration_node as usize >= self.nodes.len() || symbol.scope as usize
            >= self.scopes.len() || symbol.name as usize >= self.strings.len() {
            return Some(SymbolFault::RowReference);
        }
        if reused {
            return Some(SymbolFault::ReusedNode);
        }
        let declaration = self.nodes[symbol.declaration_node as usize];
        let scope = self.scopes[symbol.scope as usize];
        if declaration.start_byte < scope.start_byte || declaration.end_byte > scope.end_byte {
            return Some(SymbolFault::OutsideScope);
        }
        let expected = symbol_id(&declaration.id, symbol.kind);
        if !same_id(&symbol.id, &expected) {
            return Some(SymbolFault::StableId);
        }
        let end: u32 = match symbol.reference_first.checked_add(symbol.reference_count) {
            None => {
                return Some(SymbolFault::RangeOverflow);
            },
            Some(end) => end,
        };
        if symbol.reference_first as u64 != next_reference || end as usize > self.references.len() {
            return Some(SymbolFault::ReferenceRange);
        }
        None
    }

    fn check_symbols(&self) -> (r: Result<(), AnalysisError>)
        ensures
            r == outcome(first_symbol_fault(*self, 0)),
            r is Ok ==> 0 <= references_before(self.symbols@, self.symbols@.len() as int)
                <= self.references@.len(),
    {
        let mut keys: Vec<u64> = Vec::new();
        let mut k: usize = 0;
        while k < self.symbols.len()
            invariant
                k <= self.symbols@.len(),
                keys@.len() == k,
                forall|j: int|
                    0 <= j < k ==> #[trigger] keys@[j] == self.symbols@[j].declaration_node,
            decreases self.symbols@.len() - k,
        {
            keys.push(self.symbols[k].declaration_node as u64);
            k += 1;
        }
        let flags = earlier_equal(&keys);
        let mut next: u64 = 0;
        let mut i: usize = 0;
        while i < self.symbols.len()
            invariant
                i <= self.symbols@.len(),
                keys@.len() == self.symbols@.len(),
                flags@.len() == self.symbols@.len(),
                forall|j: int|
                    0 <= j < keys@.len() ==> #[trigger] keys@[j]
                        == self.symbols@[j].declaration_node,
                forall|j: int|
                    0 <= j < keys@.len() ==> #[trigger] flags@[j] == order::occurs_earlier(
                        keys@,
                        j,
                    ),
                next == references_before(self.symbols@, i as int),
                next <= self.references@.len(),
                next <= u32::MAX,
                first_symbol_fault(*self, 0) == first_symbol_fault(*self, i as int),
            decreases self.symbols@.len() - i,
        {
            proof {
                if declaration_is_reused(*self, i as int) {
                    let k = choose|k: int|
                        0 <= k < i && (#[trigger] self.symbols@[k]).declaration_node
                            == self.symbols@[i as int].declaration_node;
                    assert(order::equivalent(keys@[k], keys@[i as int]));
                }
                if order::occurs_earlier(keys@, i as int) {
                    let k = choose|k: int|
                        0 <= k < i && #[trigger] order::equivalent(keys@[k], keys@[i as int]);
                    assert(self.symbols@[k].declaration_node
                        == self.symbols@[i as int].declaration_node);
                }
            }
            if let Some(fault) = self.symbol_row_fault(i, flags[i], next) {
                return Err(AnalysisError::Symbol(i, fault));
            }
            next = next + self.symbols[i].reference_count as u64;
            i += 1;
        }
        Ok(())
    }

    fn symbol_id_or_missing(&self, row: Option<u32>) -> (id: StableId)
        requires
            row matches Some(row) ==> row < self.symbols@.len(),
        ensures
            id.0@ == symbol_id_at(*self, row),
    {
        match row {
            Some(row) => self.symbols[row as usize].id,
            None => missing_id(),
        }
    }

    fn reference_row_fault(&self, i: usize, reused: bool) -> (fault: Option<ReferenceFault>)
        requires
            i < self.references@.len(),
            self.references@.len() == self.def_uses@.len(),
            reused == reference_node_is_reused(*self, i as int),
        ensures
            fault == reference_fault(*self, i as int),
    {
        let reference = self.references[i];
        let edge = self.def_uses[i];
        if reference.node as usize >= self.nodes.len() || reference.scope as usize
            >= self.scopes.len() || reference.name as usize >= self.strings.len() {
            return Some(ReferenceFault::RowReference);
        }
        if reused {
            return Some(ReferenceFault::ReusedNode);
        }
        let node = self.nodes[reference.node as usize];
        let scope = self.scopes[reference.scope as usize];
        if node.start_byte < scope.start_byte || node.end_byte > scope.end_byte {
            return Some(ReferenceFault::OutsideScope);
        }
        let expected = reference_id(&node.id, reference.role);
        if !same_id(&reference.id, &expected) {
            return Some(ReferenceFault::StableId);
        }
        if edge.reference as usize != i {
            return Some(ReferenceFault::Resolution);
        }
        if let Some(symbol) = edge.symbol {
            if symbol as usize >= self.symbols.len() {
                return Some(ReferenceFault::Resolution);
            }
        }
        if (edge.resolution == AnalysisResolution::Resolved) != edge.symbol.is_some() {
            return Some(ReferenceFault::Resolution);
        }
        let target = self.symbol_id_or_missing(edge.symbol);
        let expected = def_use_id(&reference.id, &target, edge.resolution);
        if !same_id(&edge.id, &expected) {
            return Some(ReferenceFault::DefUseStableId);
        }
        None
    }

    fn check_references(&self) -> (r: Result<(), AnalysisError>)
        requires
            self.references@.len() == self.def_uses@.len(),
        ensures
            r == outcome(first_reference_fault(*self, 0)),
    {
        let mut keys: Vec<u64> = Vec::new();
        let mut k: usize = 0;
        while k < self.references.len()
            invariant
                k <= self.references@.len(),
                keys@.len() == k,
                forall|j: int| 0 <= j < k ==> #[trigger] keys@[j] == self.references@[j].node,
            decreases self.references@.len() - k,
        {
            keys.push(self.references[k].node as u64);
            k += 1;
        }
        let flags = earlier_equal(&keys);
        let mut i: usize = 0;
        while i < self.references.len()
            invariant
                i <= self.references@.len(),
                self.references@.len() == self.def_uses@.len(),
                keys@.len() == self.references@.len(),
                flags@.len() == self.references@.len(),
                forall|j: int|
                    0 <= j < keys@.len() ==> #[trigger] keys@[j] == self.references@[j].node,
                forall|j: int|
                    0 <= j < keys@.len() ==> #[trigger] flags@[j] == order::occurs_earlier(
                        keys@,
                        j,
                    ),
                first_reference_fault(*self, 0) == first_reference_fault(*self, i as int),
            decreases self.references@.len() - i,
        {
            proof {
                if reference_node_is_reused(*self, i as int) {
                    let k = choose|k: int|
                        0 <= k < i && (#[trigger] self.references@[k]).node
                            == self.references@[i as int].node;
                    assert(order::equivalent(keys@[k], keys@[i as int]));
                }
                if order::occurs_earlier(keys@, i as int) {
                    let k = choose|k: int|
                        0 <= k < i && #[trigger] order::equivalent(keys@[k], keys@[i as int]);
                    assert(self.references@[k].node == self.references@[i as int].node);
                }
            }
            if let Some(fault) = self.reference_row_fault(i, flags[i]) {
                return Err(AnalysisError::Reference(i, fault));
            }
            i += 1;
        }
        Ok(())
    }

    fn range_is_owned(&self, i: usize) -> (r: bool)
        requires
            i < self.symbols@.len(),
            self.symbols@[i as int].reference_first + self.symbols@[i as int].reference_count
                <= self.def_uses@.len(),
        ensures
            r == owns_its_range(*self, i as int),
    {
        let symbol = self.symbols[i];
        let first: usize = symbol.reference_first as usize;
        let length: usize = self.def_uses.len();
        let mut left: u32 = 0;
        while left < symbol.reference_count
            invariant
                left <= symbol.reference_count,
                i < self.symbols@.len(),
                symbol == self.symbols@[i as int],
                first == symbol.reference_first,
                first + symbol.reference_count <= length,
                length == self.def_uses@.len(),
                forall|k: int|
                    first <= k < first + left ==> (#[trigger] self.def_uses@[k]).symbol == Some(
                        i as u32,
                    ),
            decreases symbol.reference_count - left,
        {
            let at: usize = first + left as usize;
            match self.def_uses[at].symbol {
                Some(row) => if row != i as u32 {
                    return false;
                },
                None => {
                    return false;
                },
            }
            left += 1;
        }
        true
    }

    fn check_ranges(&self) -> (r: Result<(), AnalysisError>)
        requires
            self.references@.len() == self.def_uses@.len(),
            first_symbol_fault(*self, 0) is None,
            0 <= references_before(self.symbols@, self.symbols@.len() as int)
                <= self.references@.len(),
        ensures
            r == outcome(
                or_fault(
                    first_foreign_range(*self, 0),
                    if has_stray_resolution(*self) {
                        Some(AnalysisError::StrayResolution)
                    } else {
                        None
                    },
                ),
            ),
    {
        proof {
            lemma_first_symbol_fault(*self, 0);
        }
        let mut next: usize = 0;
        let mut i: usize = 0;
        while i < self.symbols.len()
            invariant
                i <= self.symbols@.len(),
                self.references@.len() == self.def_uses@.len(),
                forall|k: int|
                    0 <= k < self.symbols@.len() ==> (#[trigger] symbol_fault(*self, k)) is None,
                next == references_before(self.symbols@, i as int),
                next <= self.references@.len(),
                first_foreign_range(*self, 0) == first_foreign_range(*self, i as int),
            decreases self.symbols@.len() - i,
        {
            assert(symbol_fault(*self, i as int) is None);
            if !self.range_is_owned(i) {
                return Err(AnalysisError::ForeignReference(i));
            }
            next = next + self.symbols[i].reference_count as usize;
            i += 1;
        }
        let ghost start = next;
        while next < self.def_uses.len()
            invariant
                start <= next <= self.def_uses@.len(),
                forall|k: int|
                    start <= k < next ==> (#[trigger] self.def_uses@[k]).symbol is None,
                start == references_before(self.symbols@, self.symbols@.len() as int),
                first_foreign_range(*self, 0) is None,
            decreases self.def_uses@.len() - next,
        {
            if self.def_uses[next].symbol.is_some() {
                assert(has_stray_resolution(*self));
                return Err(AnalysisError::StrayResolution);
            }
            next += 1;
        }
        Ok(())
    }

    fn call_shape_row_fault(&self, call: &AnalysisCall) -> (fault: Option<CallFault>)
        requires
            self.references@.len() == self.def_uses@.len(),
            call.callee_reference matches Some(callee) ==> callee < self.references@.len(),
        ensures
            fault == call_shape_fault(*self, *call),
    {
        match call.kind {
            AnalysisCallKind::Direct | AnalysisCallKind::Construct => {
                let callee: u32 = match call.callee_reference {
                    None => {
                        return Some(CallFault::NoCallee);
                    },
                    Some(callee) => callee,
                };
                if call.property.is_some() || !same_row(
                    self.def_uses[callee as usize].symbol,
                    call.target_symbol,
                ) {
                    return Some(CallFault::DirectShape);
                }
                let expected = if call.kind == AnalysisCallKind::Construct {
                    AnalysisReferenceRole::Construct
                } else {
                    AnalysisReferenceRole::Call
                };
                if self.references[callee as usize].role != expected {
                    return Some(CallFault::CalleeRole);
                }
                None
            },
            AnalysisCallKind::Member => {
                if call.property.is_none() || call.target_symbol.is_some() {
                    Some(CallFault::MemberShape)
                } else {
                    None
                }
            },
            AnalysisCallKind::Dynamic => {
                if call.callee_reference.is_some() || call.target_symbol.is_some()
                    || call.property.is_some() {
                    Some(CallFault::DynamicShape)
                } else {
                    None
                }
            },
        }
    }

    fn call_row_fault(&self, i: usize, reused: bool) -> (fault: Option<CallFault>)
        requires
            i < self.calls@.len(),
            self.references@.len() == self.def_uses@.len(),
            reused == call_node_is_reused(*self, i as int),
            forall|k: int|
                0 <= k < self.nodes@.len() ==> (#[trigger] self.nodes@[k]).kind
                    < self.strings@.len(),
            forall|k: int|
                0 <= k < self.references@.len() ==> (#[trigger] self.references@[k]).node
                    < self.nodes@.len(),
        ensures
            fault == call_fault(*self, i as int),
    {
        let call = self.calls[i];
        if call.node as usize >= self.nodes.len() {
            return Some(CallFault::RowReference);
        }
        if let Some(callee) = call.callee_reference {
            if callee as usize >= self.references.len() {
                return Some(CallFault::RowReference);
            }
        }
        if let Some(target) = call.target_symbol {
            if target as usize >= self.symbols.len() {
                return Some(CallFault::RowReference);
            }
        }
        if let Some(property) = call.property {
            if property as usize >= self.strings.len() {
                return Some(CallFault::RowReference);
            }
        }
        if reused {
            return Some(CallFault::ReusedNode);
        }
        let node = self.nodes[call.node as usize];
        if !node_kind_fits(call.kind, self.strings[node.kind as usize].as_str()) {
            return Some(CallFault::NodeKind);
        }
        if let Some(callee) = call.callee_reference {
            let callee_node = self.nodes[self.references[callee as usize].node as usize];
            if callee_node.start_byte < node.start_byte || callee_node.end_byte > node.end_byte {
                return Some(CallFault::CalleeOutside);
            }
        }
        if let Some(fault) = self.call_shape_row_fault(&call) {
            return Some(fault);
        }
        let callee_id = match call.callee_reference {
            Some(callee) => self.def_uses[callee as usize].id,
            None => missing_id(),
        };
        let target_id = self.symbol_id_or_missing(call.target_symbol);
        let expected = call_id(&node.id, call.kind, &callee_id, &target_id, call.property);
        if !same_id(&call.id, &expected) {
            return Some(CallFault::StableId);
        }
        None
    }

    fn check_calls(&self) -> (r: Result<(), AnalysisError>)
        requires
            self.references@.len() == self.def_uses@.len(),
            first_node_fault(*self, 0) is None,
            first_reference_fault(*self, 0) is None,
        ensures
            r == outcome(first_call_fault(*self, 0)),
    {
        let mut keys: Vec<u64> = Vec::new();
        let mut k: usize = 0;
        while k < self.calls.len()
            invariant
                k <= self.calls@.len(),
                keys@.len() == k,
                forall|j: int| 0 <= j < k ==> #[trigger] keys@[j] == self.calls@[j].node,
            decreases self.calls@.len() - k,
        {
            keys.push(self.calls[k].node as u64);
            k += 1;
        }
        let flags = earlier_equal(&keys);
        proof {
            lemma_first_node_fault(*self, 0);
            lemma_first_reference_fault(*self, 0);
            assert forall|k: int| 0 <= k < self.nodes@.len() implies (
            #[trigger] self.nodes@[k]).kind < self.strings@.len() by {
                assert(node_fault(*self, k) is None);
            }
            assert forall|k: int| 0 <= k < self.references@.len() implies (
            #[trigger] self.references@[k]).node < self.nodes@.len() by {
                assert(reference_fault(*self, k) is None);
            }
        }
        let mut i: usize = 0;
        while i < self.calls.len()
            invariant
                i <= self.calls@.len(),
                self.references@.len() == self.def_uses@.len(),
                forall|k: int|
                    0 <= k < self.nodes@.len() ==> (#[trigger] self.nodes@[k]).kind
                        < self.strings@.len(),
                forall|k: int|
                    0 <= k < self.references@.len() ==> (#[trigger] self.references@[k]).node
                        < self.nodes@.len(),
                keys@.len() == self.calls@.len(),
                flags@.len() == self.calls@.len(),
                forall|j: int| 0 <= j < keys@.len() ==> #[trigger] keys@[j] == self.calls@[j].node,
                forall|j: int|
                    0 <= j < keys@.len() ==> #[trigger] flags@[j] == order::occurs_earlier(
                        keys@,
                        j,
                    ),
                first_call_fault(*self, 0) == first_call_fault(*self, i as int),
            decreases self.calls@.len() - i,
        {
            proof {
                if call_node_is_reused(*self, i as int) {
                    let k = choose|k: int|
                        0 <= k < i && (#[trigger] self.calls@[k]).node
                            == self.calls@[i as int].node;
                    assert(order::equivalent(keys@[k], keys@[i as int]));
                }
                if order::occurs_earlier(keys@, i as int) {
                    let k = choose|k: int|
                        0 <= k < i && #[trigger] order::equivalent(keys@[k], keys@[i as int]);
                    assert(self.calls@[k].node == self.calls@[i as int].node);
                }
            }
            if let Some(fault) = self.call_row_fault(i, flags[i]) {
                return Err(AnalysisError::Call(i, fault));
            }
            i += 1;
        }
        Ok(())
    }

    fn check_losses(&self) -> (r: Result<(), AnalysisError>)
        ensures
            r == outcome(first_loss_fault(*self, 0)),
    {
        let mut i: usize = 0;
        while i < self.losses.len()
            invariant
                i <= self.losses@.len(),
                first_loss_fault(*self, 0) == first_loss_fault(*self, i as int),
            decreases self.losses@.len() - i,
        {
            if self.losses[i].message as usize >= self.strings.len() {
                return Err(AnalysisError::Loss(i));
            }
            i += 1;
        }
        Ok(())
    }

    /// Checks the relationships between the rows. The error names the first
    /// row that breaks one, and how.
    pub fn validate(&self) -> (r: Result<(), AnalysisError>)
        ensures
            r == outcome(analysis_fault(*self)),
            r is Ok == is_valid(*self),
    {
        proof {
            law_no_fault_means_valid(*self);
        }
        if !self.metadata_supported() {
            return Err(AnalysisError::UnsupportedProfile);
        }
        if self.source_length > 0xffff_ffff {
            return Err(AnalysisError::SourceTooLarge);
        }
        if self.nodes.len() == 0 || self.scopes.len() == 0 {
            return Err(AnalysisError::NoRootOrScope);
        }
        if let Err(error) = self.check_nodes() {
            return Err(error);
        }
        if let Err(error) = self.check_scopes() {
            return Err(error);
        }
        if let Err(error) = self.check_symbols() {
            return Err(error);
        }
        if self.references.len() != self.def_uses.len() {
            return Err(AnalysisError::RowCountsDiffer);
        }
        if let Err(error) = self.check_references() {
            return Err(error);
        }
        if let Err(error) = self.check_ranges() {
            return Err(error);
        }
        if let Err(error) = self.check_calls() {
            return Err(error);
        }
        self.check_losses()
    }
}

fn same_row(a: Option<u32>, b: Option<u32>) -> (r: bool)
    ensures
        r == (a == b),
{
    match (a, b) {
        (Some(a), Some(b)) => a == b,
        (None, None) => true,
        _ => false,
    }
}

fn node_kind_fits(kind: AnalysisCallKind, node_kind: &str) -> (r: bool)
    ensures
        r == call_node_kind_fits(kind, node_kind@),
{
    match kind {
        AnalysisCallKind::Direct => same_text(node_kind, "call_expression"),
        AnalysisCallKind::Construct => same_text(node_kind, "new_expression"),
        AnalysisCallKind::Member | AnalysisCallKind::Dynamic => same_text(
            node_kind,
            "call_expression",
        ) || same_text(node_kind, "new_expression"),
    }
}

} // verus!
