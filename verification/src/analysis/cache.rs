//! Persisted analyses: the checks that columns pass before they are read, and
//! the rows that are read from them.

use vstd::prelude::*;
use vstd::string::*;
use vstd::utf8::*;

use super::columns::{AnalysisColumns, ScopeColumns, SymbolColumns};
use super::validate::{CallFault, NodeFault, ScopeFault, SymbolFault};
use super::{
    AnalysisCallKind, AnalysisReferenceRole, AnalysisResolution, AnalysisScopeKind,
    AnalysisSymbolKind, Language, LossCode, ANALYSIS_PROFILE, ANALYSIS_VERSION,
    JAVASCRIPT_FRONTEND, JAVASCRIPT_FRONTEND_VERSION,
};

use super::columns;
use super::validate;
use crate::{analysis, faults};

verus! {

/// The row number of a missing row.
pub const NO_ROW: u32 = 0xffff_ffff;

/// A table of an analysis.
#[derive(Debug, Clone, Copy, PartialEq, Eq, Structural)]
pub enum CacheTable {
    Nodes,
    Scopes,
    Symbols,
    References,
    DefUses,
    Calls,
    Losses,
}

/// A string that describes an analysis.
#[derive(Debug, Clone, Copy, PartialEq, Eq, Structural)]
pub enum MetadataField {
    Profile,
    Producer,
    ProducerVersion,
    Frontend,
    FrontendVersion,
}

/// What a persisted number stands for.
#[derive(Debug, Clone, Copy, PartialEq, Eq, Structural)]
pub enum CodeKind {
    Scope,
    Symbol,
    Role,
    Resolution,
    Call,
    Loss,
}

/// Why columns were refused.
#[derive(Debug, Clone, Copy, PartialEq, Eq, Structural)]
pub enum CacheError {
    Version(u32),
    Language(u8),
    /// The digest of the source has another length.
    DigestLength(usize),
    DigestMismatch,
    SourceTooLarge,
    NoRootOrScope,
    /// A string row is not UTF-8.
    NotText(usize),
    MetadataRow(MetadataField),
    Unsupported(MetadataField),
    /// A column has another number of rows than its table.
    RowCount { table: CacheTable, column: usize, actual: usize, expected: usize },
    /// The identities of a table have another number of bytes.
    IdBytes(CacheTable),
    UnknownCode(CodeKind, u16),
    Node(usize, NodeFault),
    Scope(usize, ScopeFault),
    Symbol(usize, SymbolFault),
    Reference(usize, SymbolFault),
    RowCountsDiffer,
    Resolution(usize),
    ForeignReference(usize),
    StrayResolution,
    Call(usize, CallFault),
    /// A call has another target than its callee resolves to.
    CallTarget(usize),
    Loss(usize),
    ReferenceId(usize),
    DefUseId(usize),
}

/// The row behind a row number.
pub open spec fn row_of(number: u32) -> Option<u32> {
    if number == NO_ROW {
        None
    } else {
        Some(number)
    }
}

/// The texts of the string rows.
pub open spec fn strings_of(c: AnalysisColumns) -> Seq<Seq<char>> {
    Seq::new(c.strings@.len(), |i: int| decode_utf8(c.strings@[i]@))
}

/// Whether a value is among the first `count` of a column.
pub open spec fn occurs_before(column: Seq<u32>, value: u32, count: int) -> bool {
    exists|k: int| 0 <= k < count && #[trigger] column[k] == value
}

/// Whether `row` is `from` or one of its ancestors.
pub open spec fn is_on_path(parents: Seq<u32>, row: int, from: int) -> bool
    decreases from,
{
    row == from || (0 <= parents[from] < from && is_on_path(parents, row, parents[from] as int))
}

/// How many of the first `count` nodes have a parent.
pub open spec fn children_before(parents: Seq<u32>, parent: u32, count: int) -> nat
    decreases count,
{
    if count <= 0 {
        0
    } else {
        children_before(parents, parent, count - 1) + if parents[count - 1] == parent {
            1nat
        } else {
            0
        }
    }
}

/// The faults of the columns as a whole.
pub open spec fn header_fault(c: AnalysisColumns, source_digest: Seq<u8>) -> Option<CacheError> {
    if c.format_version != ANALYSIS_VERSION {
        Some(CacheError::Version(c.format_version))
    } else if c.language != Language::JavaScript.code_spec() {
        Some(CacheError::Language(c.language))
    } else if c.source_digest@.len() != 32 {
        Some(CacheError::DigestLength(c.source_digest@.len() as usize))
    } else if c.source_digest@ != source_digest {
        Some(CacheError::DigestMismatch)
    } else if c.source_length > u32::MAX {
        Some(CacheError::SourceTooLarge)
    } else if c.node_count == 0 || c.scope_count == 0 {
        Some(CacheError::NoRootOrScope)
    } else {
        None
    }
}

/// The first string row that is no text.
pub open spec fn strings_fault(c: AnalysisColumns) -> Option<CacheError> {
    faults::first_of(
        c.strings@.len() as int,
        |i: int| faults::fault_if(!valid_utf8(c.strings@[i]@), CacheError::NotText(i as usize)),
        0,
    )
}

/// The fault of a metadata row that is no string.
pub open spec fn metadata_row_fault(c: AnalysisColumns, row: u32, field: MetadataField) -> Option<
    CacheError,
> {
    faults::fault_if(row >= c.strings@.len(), CacheError::MetadataRow(field))
}

/// The fault of a metadata string that is another one.
pub open spec fn metadata_fault(
    c: AnalysisColumns,
    row: u32,
    expected: Seq<char>,
    field: MetadataField,
) -> Option<CacheError> {
    faults::fault_if(strings_of(c)[row as int] != expected, CacheError::Unsupported(field))
}

/// The faults of what describes the analysis.
pub open spec fn all_metadata_fault(c: AnalysisColumns) -> Option<CacheError> {
    faults::or_fault(
        metadata_row_fault(c, c.profile, MetadataField::Profile),
        faults::or_fault(
            metadata_row_fault(c, c.producer, MetadataField::Producer),
            faults::or_fault(
                metadata_row_fault(c, c.producer_version, MetadataField::ProducerVersion),
                faults::or_fault(
                    metadata_row_fault(c, c.frontend, MetadataField::Frontend),
                    faults::or_fault(
                        metadata_row_fault(c, c.frontend_version, MetadataField::FrontendVersion),
                        faults::or_fault(
                            metadata_fault(
                                c,
                                c.profile,
                                ANALYSIS_PROFILE@,
                                MetadataField::Profile,
                            ),
                            faults::or_fault(
                                metadata_fault(
                                    c,
                                    c.frontend,
                                    JAVASCRIPT_FRONTEND@,
                                    MetadataField::Frontend,
                                ),
                                metadata_fault(
                                    c,
                                    c.frontend_version,
                                    JAVASCRIPT_FRONTEND_VERSION@,
                                    MetadataField::FrontendVersion,
                                ),
                            ),
                        ),
                    ),
                ),
            ),
        ),
    )
}

/// The fault of a column with another number of rows than its table.
pub open spec fn count_fault(
    table: CacheTable,
    column: usize,
    actual: nat,
    expected: u32,
) -> Option<CacheError> {
    faults::fault_if(
        actual != expected,
        CacheError::RowCount {
            table,
            column,
            actual: actual as usize,
            expected: expected as usize,
        },
    )
}

/// The faults of the numbers of rows of the syntax nodes.
pub open spec fn node_counts_fault(c: AnalysisColumns) -> Option<CacheError> {
    let n = c.nodes;
    let t = CacheTable::Nodes;
    faults::or_fault(
        count_fault(t, 17, n.parent@.len(), c.node_count),
        faults::or_fault(
            count_fault(t, 18, n.child_ordinal@.len(), c.node_count),
            faults::or_fault(
                count_fault(t, 19, n.kind@.len(), c.node_count),
                faults::or_fault(
                    count_fault(t, 20, n.start_byte@.len(), c.node_count),
                    faults::or_fault(
                        count_fault(t, 21, n.end_byte@.len(), c.node_count),
                        count_fault(t, 22, n.flags@.len(), c.node_count),
                    ),
                ),
            ),
        ),
    )
}

/// The fault of a syntax node.
pub open spec fn node_fault(c: AnalysisColumns, i: int) -> Option<NodeFault> {
    let parents = c.nodes.parent@;
    let parent = parents[i];
    let ordinal = c.nodes.child_ordinal@[i];
    let kind = c.nodes.kind@[i];
    let (start, end) = (c.nodes.start_byte@[i], c.nodes.end_byte@[i]);
    if parent != NO_ROW && parent >= i {
        Some(NodeFault::Parent)
    } else if i > 0 && parent != NO_ROW && !is_on_path(parents, parent as int, i - 1) {
        Some(NodeFault::NotPreOrder)
    } else if parent == NO_ROW && (i != 0 || ordinal != 0) {
        Some(NodeFault::RootOrdinal)
    } else if parent != NO_ROW && ordinal != children_before(parents, parent, i) {
        Some(NodeFault::ChildOrdinal)
    } else if parent != NO_ROW && ordinal == u32::MAX {
        Some(NodeFault::TooManyChildren)
    } else if kind >= c.strings@.len() {
        Some(NodeFault::KindString)
    } else if start > end || end > c.source_length {
        Some(NodeFault::Span)
    } else if i == 0 && (start != 0 || end != c.source_length || strings_of(c)[kind as int]
        != "program"@) {
        Some(NodeFault::SyntaxRoot)
    } else if parent != NO_ROW && (start < c.nodes.start_byte@[parent as int] || end
        > c.nodes.end_byte@[parent as int]) {
        Some(NodeFault::OutsideParent)
    } else if c.nodes.flags@[i] >= 16 {
        Some(NodeFault::Flags)
    } else {
        None
    }
}

/// The fault of a row of the syntax nodes.
pub open spec fn node_row_fault(c: AnalysisColumns, i: int) -> Option<CacheError> {
    match node_fault(c, i) {
        Some(fault) => Some(CacheError::Node(i as usize, fault)),
        None => None,
    }
}

/// The faults of the syntax nodes.
pub open spec fn nodes_fault(c: AnalysisColumns) -> Option<CacheError> {
    faults::or_fault(
        node_counts_fault(c),
        faults::first_of(c.node_count as int, |i: int| node_row_fault(c, i), 0),
    )
}

/// The faults of the numbers of rows of the scopes.
pub open spec fn scope_counts_fault(c: AnalysisColumns) -> Option<CacheError> {
    let s = c.scopes;
    let t = CacheTable::Scopes;
    faults::or_fault(
        count_fault(t, 23, s.parent@.len(), c.scope_count),
        faults::or_fault(
            count_fault(t, 24, s.kind@.len(), c.scope_count),
            faults::or_fault(
                count_fault(t, 25, s.depth@.len(), c.scope_count),
                faults::or_fault(
                    count_fault(t, 26, s.start_byte@.len(), c.scope_count),
                    count_fault(t, 27, s.end_byte@.len(), c.scope_count),
                ),
            ),
        ),
    )
}

/// The identity of a scope.
pub open spec fn scope_identity(c: ScopeColumns, i: int) -> Seq<u8> {
    analysis::scope_id_of(
        row_of(c.parent@[i]),
        AnalysisScopeKind::from_code_spec(c.kind@[i])->0,
        c.depth@[i],
        c.start_byte@[i] as u64,
        c.end_byte@[i] as u64,
    )
}

/// Whether an earlier scope has the identity of a scope.
pub open spec fn scope_is_repeated(c: ScopeColumns, i: int) -> bool {
    exists|k: int| 0 <= k < i && #[trigger] scope_identity(c, k) == scope_identity(c, i)
}

/// The fault of a row of the scopes.
pub open spec fn scope_row_fault(c: AnalysisColumns, i: int) -> Option<CacheError> {
    let s = c.scopes;
    let parent = s.parent@[i];
    let (start, end) = (s.start_byte@[i], s.end_byte@[i]);
    let row = i as usize;
    if parent != NO_ROW && parent >= i {
        Some(CacheError::Scope(row, ScopeFault::Parent))
    } else if AnalysisScopeKind::from_code_spec(s.kind@[i]) is None {
        Some(CacheError::UnknownCode(CodeKind::Scope, s.kind@[i] as u16))
    } else if start > end || end > c.source_length {
        Some(CacheError::Scope(row, ScopeFault::Span))
    } else if i == 0 && (parent != NO_ROW || s.kind@[i] != AnalysisScopeKind::Global.code_spec()
        || s.depth@[i] != 0 || start != 0 || end != c.source_length) {
        Some(CacheError::Scope(row, ScopeFault::GlobalScope))
    } else if i > 0 && parent == NO_ROW {
        Some(CacheError::Scope(row, ScopeFault::NoParent))
    } else if i > 0 && (s.depth@[i] != s.depth@[parent as int] + 1 || start
        < s.start_byte@[parent as int] || end > s.end_byte@[parent as int]) {
        Some(CacheError::Scope(row, ScopeFault::Inconsistent))
    } else if scope_is_repeated(s, i) {
        Some(CacheError::Scope(row, ScopeFault::Duplicate))
    } else {
        None
    }
}

/// The faults of the scopes.
pub open spec fn scopes_fault(c: AnalysisColumns) -> Option<CacheError> {
    faults::or_fault(
        scope_counts_fault(c),
        faults::first_of(c.scope_count as int, |i: int| scope_row_fault(c, i), 0),
    )
}

/// The fault of identities with another number of bytes.
pub open spec fn id_bytes_fault(ids: Seq<u8>, count: u32, table: CacheTable) -> Option<CacheError> {
    faults::fault_if(ids.len() != 32 * count, CacheError::IdBytes(table))
}

/// The faults of the numbers of rows of the symbols.
pub open spec fn symbol_counts_fault(c: AnalysisColumns) -> Option<CacheError> {
    let s = c.symbols;
    let t = CacheTable::Symbols;
    faults::or_fault(
        id_bytes_fault(s.ids@, c.symbol_count, t),
        faults::or_fault(
            count_fault(t, 29, s.declaration_node@.len(), c.symbol_count),
            faults::or_fault(
                count_fault(t, 30, s.scope@.len(), c.symbol_count),
                faults::or_fault(
                    count_fault(t, 31, s.name@.len(), c.symbol_count),
                    faults::or_fault(
                        count_fault(t, 32, s.kind@.len(), c.symbol_count),
                        faults::or_fault(
                            count_fault(t, 33, s.reference_first@.len(), c.symbol_count),
                            count_fault(t, 34, s.reference_count@.len(), c.symbol_count),
                        ),
                    ),
                ),
            ),
        ),
    )
}

/// How many references the first `count` symbols have.
pub open spec fn references_before(c: SymbolColumns, count: int) -> int
    decreases count,
{
    if count <= 0 {
        0
    } else {
        references_before(c, count - 1) + c.reference_count@[count - 1]
    }
}

/// Whether a node is outside a scope.
pub open spec fn is_outside(c: AnalysisColumns, node: u32, scope: u32) -> bool {
    c.nodes.start_byte@[node as int] < c.scopes.start_byte@[scope as int]
        || c.nodes.end_byte@[node as int] > c.scopes.end_byte@[scope as int]
}

/// The fault of a row of the symbols.
pub open spec fn symbol_row_fault(c: AnalysisColumns, i: int) -> Option<CacheError> {
    let s = c.symbols;
    let node = s.declaration_node@[i];
    let row = i as usize;
    if node >= c.node_count || s.scope@[i] >= c.scope_count || s.name@[i] >= c.strings@.len() {
        Some(CacheError::Symbol(row, SymbolFault::RowReference))
    } else if occurs_before(s.declaration_node@, node, i) {
        Some(CacheError::Symbol(row, SymbolFault::ReusedNode))
    } else if is_outside(c, node, s.scope@[i]) {
        Some(CacheError::Symbol(row, SymbolFault::OutsideScope))
    } else if AnalysisSymbolKind::from_code_spec(s.kind@[i]) is None {
        Some(CacheError::UnknownCode(CodeKind::Symbol, s.kind@[i] as u16))
    } else if s.reference_first@[i] + s.reference_count@[i] > u32::MAX {
        Some(CacheError::Symbol(row, SymbolFault::RangeOverflow))
    } else if s.reference_first@[i] != references_before(s, i) || s.reference_first@[i]
        + s.reference_count@[i] > c.reference_count {
        Some(CacheError::Symbol(row, SymbolFault::ReferenceRange))
    } else {
        None
    }
}

/// The faults of the symbols.
pub open spec fn symbols_fault(c: AnalysisColumns) -> Option<CacheError> {
    faults::or_fault(
        symbol_counts_fault(c),
        faults::first_of(c.symbol_count as int, |i: int| symbol_row_fault(c, i), 0),
    )
}

/// The faults of the numbers of rows of the references.
pub open spec fn reference_counts_fault(c: AnalysisColumns) -> Option<CacheError> {
    let r = c.references;
    let t = CacheTable::References;
    faults::or_fault(
        id_bytes_fault(r.ids@, c.reference_count, t),
        faults::or_fault(
            count_fault(t, 36, r.node@.len(), c.reference_count),
            faults::or_fault(
                count_fault(t, 37, r.scope@.len(), c.reference_count),
                faults::or_fault(
                    count_fault(t, 38, r.name@.len(), c.reference_count),
                    count_fault(t, 39, r.role@.len(), c.reference_count),
                ),
            ),
        ),
    )
}

/// The fault of a row of the references.
pub open spec fn reference_row_fault(c: AnalysisColumns, i: int) -> Option<CacheError> {
    let r = c.references;
    let node = r.node@[i];
    let row = i as usize;
    if node >= c.node_count || r.scope@[i] >= c.scope_count || r.name@[i] >= c.strings@.len() {
        Some(CacheError::Reference(row, SymbolFault::RowReference))
    } else if occurs_before(r.node@, node, i) {
        Some(CacheError::Reference(row, SymbolFault::ReusedNode))
    } else if is_outside(c, node, r.scope@[i]) {
        Some(CacheError::Reference(row, SymbolFault::OutsideScope))
    } else if AnalysisReferenceRole::from_code_spec(r.role@[i]) is None {
        Some(CacheError::UnknownCode(CodeKind::Role, r.role@[i] as u16))
    } else {
        None
    }
}

/// The faults of the references.
pub open spec fn references_fault(c: AnalysisColumns) -> Option<CacheError> {
    faults::or_fault(
        reference_counts_fault(c),
        faults::first_of(c.reference_count as int, |i: int| reference_row_fault(c, i), 0),
    )
}

/// The faults of the numbers of rows of the resolutions.
pub open spec fn def_use_counts_fault(c: AnalysisColumns) -> Option<CacheError> {
    let d = c.def_uses;
    let t = CacheTable::DefUses;
    faults::or_fault(
        faults::fault_if(c.def_use_count != c.reference_count, CacheError::RowCountsDiffer),
        faults::or_fault(
            id_bytes_fault(d.ids@, c.def_use_count, t),
            faults::or_fault(
                count_fault(t, 41, d.reference@.len(), c.def_use_count),
                faults::or_fault(
                    count_fault(t, 42, d.symbol@.len(), c.def_use_count),
                    count_fault(t, 43, d.resolution@.len(), c.def_use_count),
                ),
            ),
        ),
    )
}

/// The fault of a row of the resolutions.
pub open spec fn def_use_row_fault(c: AnalysisColumns, i: int) -> Option<CacheError> {
    let d = c.def_uses;
    let symbol = d.symbol@[i];
    if AnalysisResolution::from_code_spec(d.resolution@[i]) is None {
        Some(CacheError::UnknownCode(CodeKind::Resolution, d.resolution@[i] as u16))
    } else if d.reference@[i] != i || (symbol != NO_ROW && symbol >= c.symbol_count) || (
    d.resolution@[i] == AnalysisResolution::Resolved.code_spec()) != (symbol != NO_ROW) {
        Some(CacheError::Resolution(i as usize))
    } else {
        None
    }
}

/// Whether every resolution in the range of a symbol leads to it.
pub open spec fn owns_its_range(c: AnalysisColumns, i: int) -> bool {
    let first = c.symbols.reference_first@[i];
    forall|k: int|
        first <= k < first + c.symbols.reference_count@[i] ==> #[trigger] c.def_uses.symbol@[k]
            == i as u32
}

/// Whether a resolution behind the ranges of all symbols has a symbol.
pub open spec fn has_stray_resolution(c: AnalysisColumns) -> bool {
    exists|k: int|
        references_before(c.symbols, c.symbol_count as int) <= k < c.reference_count
            && #[trigger] c.def_uses.symbol@[k] != NO_ROW
}

/// The faults of the resolutions.
pub open spec fn def_uses_fault(c: AnalysisColumns) -> Option<CacheError> {
    faults::or_fault(
        def_use_counts_fault(c),
        faults::or_fault(
            faults::first_of(c.def_use_count as int, |i: int| def_use_row_fault(c, i), 0),
            faults::or_fault(
                faults::first_of(
                    c.symbol_count as int,
                    |i: int|
                        faults::fault_if(!owns_its_range(c, i), CacheError::ForeignReference(i as usize)),
                    0,
                ),
                faults::fault_if(has_stray_resolution(c), CacheError::StrayResolution),
            ),
        ),
    )
}

/// The faults of the numbers of rows of the calls.
pub open spec fn call_counts_fault(c: AnalysisColumns) -> Option<CacheError> {
    let k = c.calls;
    let t = CacheTable::Calls;
    faults::or_fault(
        id_bytes_fault(k.ids@, c.call_count, t),
        faults::or_fault(
            count_fault(t, 45, k.node@.len(), c.call_count),
            faults::or_fault(
                count_fault(t, 46, k.callee_reference@.len(), c.call_count),
                faults::or_fault(
                    count_fault(t, 47, k.target_symbol@.len(), c.call_count),
                    faults::or_fault(
                        count_fault(t, 48, k.property@.len(), c.call_count),
                        count_fault(t, 49, k.kind@.len(), c.call_count),
                    ),
                ),
            ),
        ),
    )
}

/// The fault of a call's callee, target and property together.
pub open spec fn call_shape_fault(c: AnalysisColumns, i: int, kind: AnalysisCallKind) -> Option<
    CacheError,
> {
    let row = i as usize;
    let callee = c.calls.callee_reference@[i];
    let target = c.calls.target_symbol@[i];
    let property = c.calls.property@[i];
    match kind {
        AnalysisCallKind::Direct | AnalysisCallKind::Construct => if callee == NO_ROW || property
            != NO_ROW {
            Some(CacheError::Call(row, CallFault::DirectShape))
        } else if c.def_uses.symbol@[callee as int] != target {
            Some(CacheError::CallTarget(row))
        } else if c.references.role@[callee as int] != (if kind == AnalysisCallKind::Construct {
            AnalysisReferenceRole::Construct
        } else {
            AnalysisReferenceRole::Call
        }).code_spec() {
            Some(CacheError::Call(row, CallFault::CalleeRole))
        } else {
            None
        },
        AnalysisCallKind::Member => if property == NO_ROW || target != NO_ROW {
            Some(CacheError::Call(row, CallFault::MemberShape))
        } else {
            None
        },
        AnalysisCallKind::Dynamic => if callee != NO_ROW || target != NO_ROW || property
            != NO_ROW {
            Some(CacheError::Call(row, CallFault::DynamicShape))
        } else {
            None
        },
    }
}

/// The fault of a row of the calls.
pub open spec fn call_row_fault(c: AnalysisColumns, i: int) -> Option<CacheError> {
    let node = c.calls.node@[i];
    let callee = c.calls.callee_reference@[i];
    let target = c.calls.target_symbol@[i];
    let property = c.calls.property@[i];
    let row = i as usize;
    if node >= c.node_count || (callee != NO_ROW && callee >= c.reference_count) || (target
        != NO_ROW && target >= c.symbol_count) || (property != NO_ROW && property
        >= c.strings@.len()) {
        Some(CacheError::Call(row, CallFault::RowReference))
    } else {
        match AnalysisCallKind::from_code_spec(c.calls.kind@[i]) {
            None => Some(CacheError::UnknownCode(CodeKind::Call, c.calls.kind@[i] as u16)),
            Some(kind) => if occurs_before(c.calls.node@, node, i) {
                Some(CacheError::Call(row, CallFault::ReusedNode))
            } else if !validate::call_node_kind_fits(
                kind,
                strings_of(c)[c.nodes.kind@[node as int] as int],
            ) {
                Some(CacheError::Call(row, CallFault::NodeKind))
            } else if callee != NO_ROW && ({
                let inner = c.references.node@[callee as int] as int;
                c.nodes.start_byte@[inner] < c.nodes.start_byte@[node as int]
                    || c.nodes.end_byte@[inner] > c.nodes.end_byte@[node as int]
            }) {
                Some(CacheError::Call(row, CallFault::CalleeOutside))
            } else {
                call_shape_fault(c, i, kind)
            },
        }
    }
}

/// The faults of the calls.
pub open spec fn calls_fault(c: AnalysisColumns) -> Option<CacheError> {
    faults::or_fault(
        call_counts_fault(c),
        faults::first_of(c.call_count as int, |i: int| call_row_fault(c, i), 0),
    )
}

/// The fault of a row of the losses.
pub open spec fn loss_row_fault(c: AnalysisColumns, i: int) -> Option<CacheError> {
    if LossCode::from_code_spec(c.losses.code@[i]) is None {
        Some(CacheError::UnknownCode(CodeKind::Loss, c.losses.code@[i]))
    } else if c.losses.message@[i] >= c.strings@.len() {
        Some(CacheError::Loss(i as usize))
    } else {
        None
    }
}

/// The faults of the losses.
pub open spec fn losses_fault(c: AnalysisColumns) -> Option<CacheError> {
    faults::or_fault(
        faults::or_fault(
            count_fault(CacheTable::Losses, 50, c.losses.code@.len(), c.loss_count),
            count_fault(CacheTable::Losses, 51, c.losses.message@.len(), c.loss_count),
        ),
        faults::first_of(c.loss_count as int, |i: int| loss_row_fault(c, i), 0),
    )
}

/// The identity of a syntax node.
pub open spec fn node_identity(c: AnalysisColumns, i: int) -> Seq<u8> {
    analysis::node_id_of(
        row_of(c.nodes.parent@[i]),
        c.nodes.child_ordinal@[i],
        strings_of(c)[c.nodes.kind@[i] as int],
        c.nodes.flags@[i],
    )
}

/// The identity of a symbol row, or that of a missing one.
pub open spec fn symbol_id_at(c: AnalysisColumns, number: u32) -> Seq<u8> {
    if number == NO_ROW {
        analysis::no_id()
    } else {
        columns::id_at(c.symbols.ids@, number as int)
    }
}

/// The identity of a resolution row, or that of a missing one.
pub open spec fn def_use_id_at(c: AnalysisColumns, number: u32) -> Seq<u8> {
    if number == NO_ROW {
        analysis::no_id()
    } else {
        columns::id_at(c.def_uses.ids@, number as int)
    }
}

/// The fault of the identity of a symbol.
pub open spec fn symbol_id_fault(c: AnalysisColumns, i: int) -> Option<CacheError> {
    faults::fault_if(
        columns::id_at(c.symbols.ids@, i) != analysis::symbol_id_of(
            node_identity(c, c.symbols.declaration_node@[i] as int),
            AnalysisSymbolKind::from_code_spec(c.symbols.kind@[i])->0,
        ),
        CacheError::Symbol(i as usize, SymbolFault::StableId),
    )
}

/// The fault of the identity of a reference or of its resolution.
pub open spec fn reference_id_fault(c: AnalysisColumns, i: int) -> Option<CacheError> {
    let id = columns::id_at(c.references.ids@, i);
    faults::or_fault(
        faults::fault_if(
            id != analysis::reference_id_of(
                node_identity(c, c.references.node@[i] as int),
                AnalysisReferenceRole::from_code_spec(c.references.role@[i])->0,
            ),
            CacheError::ReferenceId(i as usize),
        ),
        faults::fault_if(
            columns::id_at(c.def_uses.ids@, i) != analysis::def_use_id_of(
                id,
                symbol_id_at(c, c.def_uses.symbol@[i]),
                AnalysisResolution::from_code_spec(c.def_uses.resolution@[i])->0,
            ),
            CacheError::DefUseId(i as usize),
        ),
    )
}

/// The fault of the identity of a call.
pub open spec fn call_id_fault(c: AnalysisColumns, i: int) -> Option<CacheError> {
    faults::fault_if(
        columns::id_at(c.calls.ids@, i) != analysis::call_id_of(
            node_identity(c, c.calls.node@[i] as int),
            AnalysisCallKind::from_code_spec(c.calls.kind@[i])->0,
            def_use_id_at(c, c.calls.callee_reference@[i]),
            symbol_id_at(c, c.calls.target_symbol@[i]),
            row_of(c.calls.property@[i]),
        ),
        CacheError::Call(i as usize, CallFault::StableId),
    )
}

/// The faults of the identities.
pub open spec fn identities_fault(c: AnalysisColumns) -> Option<CacheError> {
    faults::or_fault(
        faults::first_of(c.symbol_count as int, |i: int| symbol_id_fault(c, i), 0),
        faults::or_fault(
            faults::first_of(c.reference_count as int, |i: int| reference_id_fault(c, i), 0),
            faults::first_of(c.call_count as int, |i: int| call_id_fault(c, i), 0),
        ),
    )
}

/// The first fault of the tables up to the symbols.
pub open spec fn structure_fault(c: AnalysisColumns, source_digest: Seq<u8>) -> Option<
    CacheError,
> {
    faults::or_fault(
        header_fault(c, source_digest),
        faults::or_fault(
            strings_fault(c),
            faults::or_fault(
                all_metadata_fault(c),
                faults::or_fault(nodes_fault(c), faults::or_fault(scopes_fault(c), symbols_fault(c))),
            ),
        ),
    )
}

/// The first fault of columns: of their tables, one after the other, and then
/// of their identities.
pub open spec fn cache_fault(c: AnalysisColumns, source_digest: Seq<u8>) -> Option<CacheError> {
    faults::or_fault(
        structure_fault(c, source_digest),
        faults::or_fault(
            references_fault(c),
            faults::or_fault(
                def_uses_fault(c),
                faults::or_fault(calls_fault(c), faults::or_fault(losses_fault(c), identities_fault(c))),
            ),
        ),
    )
}

} // verus!
