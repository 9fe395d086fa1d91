//! An analysis as columns of plain numbers and bytes, for persistence.

use vstd::prelude::*;
use vstd::string::*;
use vstd::utf8::*;

use super::{
    row_number, Analysis, AnalysisCall, AnalysisDefUse, AnalysisError, AnalysisNode,
    AnalysisReference, AnalysisScope, AnalysisSymbol, Language, LossRecord, StableId,
};
use crate::bytes::push_all;
use crate::text::same_text;

use super::{row_or_none, validate};
use crate::text;

verus! {

/// The columns of the syntax nodes.
#[derive(Debug, Clone)]
pub struct NodeColumns {
    pub parent: Vec<u32>,
    pub child_ordinal: Vec<u32>,
    pub kind: Vec<u32>,
    pub start_byte: Vec<u32>,
    pub end_byte: Vec<u32>,
    pub flags: Vec<u8>,
}

/// The columns of the scopes.
#[derive(Debug, Clone)]
pub struct ScopeColumns {
    pub parent: Vec<u32>,
    pub kind: Vec<u8>,
    pub depth: Vec<u32>,
    pub start_byte: Vec<u32>,
    pub end_byte: Vec<u32>,
}

/// The columns of the symbols.
#[derive(Debug, Clone)]
pub struct SymbolColumns {
    pub ids: Vec<u8>,
    pub declaration_node: Vec<u32>,
    pub scope: Vec<u32>,
    pub name: Vec<u32>,
    pub kind: Vec<u8>,
    pub reference_first: Vec<u32>,
    pub reference_count: Vec<u32>,
}

/// The columns of the references.
#[derive(Debug, Clone)]
pub struct ReferenceColumns {
    pub ids: Vec<u8>,
    pub node: Vec<u32>,
    pub scope: Vec<u32>,
    pub name: Vec<u32>,
    pub role: Vec<u8>,
}

/// The columns of the resolutions.
#[derive(Debug, Clone)]
pub struct DefUseColumns {
    pub ids: Vec<u8>,
    pub reference: Vec<u32>,
    pub symbol: Vec<u32>,
    pub resolution: Vec<u8>,
}

/// The columns of the calls.
#[derive(Debug, Clone)]
pub struct CallColumns {
    pub ids: Vec<u8>,
    pub node: Vec<u32>,
    pub callee_reference: Vec<u32>,
    pub target_symbol: Vec<u32>,
    pub property: Vec<u32>,
    pub kind: Vec<u8>,
}

/// The columns of the losses.
#[derive(Debug, Clone)]
pub struct LossColumns {
    pub code: Vec<u16>,
    pub message: Vec<u32>,
}

/// An analysis as columns. Row numbers of missing rows are `u32::MAX`.
#[derive(Debug, Clone)]
pub struct AnalysisColumns {
    pub format_version: u32,
    pub profile: u32,
    pub producer: u32,
    pub producer_version: u32,
    pub language: u8,
    pub frontend: u32,
    pub frontend_version: u32,
    pub source_digest: Vec<u8>,
    pub source_length: u64,
    pub node_count: u32,
    pub scope_count: u32,
    pub symbol_count: u32,
    pub reference_count: u32,
    pub def_use_count: u32,
    pub call_count: u32,
    pub loss_count: u32,
    pub strings: Vec<Vec<u8>>,
    pub nodes: NodeColumns,
    pub scopes: ScopeColumns,
    pub symbols: SymbolColumns,
    pub references: ReferenceColumns,
    pub def_uses: DefUseColumns,
    pub calls: CallColumns,
    pub losses: LossColumns,
}

impl Language {
    /// The persisted number of a language.
    pub open spec fn code_spec(self) -> u8 {
        match self {
            Language::JavaScript => 1,
        }
    }

    pub fn code(self) -> (code: u8)
        ensures
            code == self.code_spec(),
    {
        match self {
            Language::JavaScript => 1,
        }
    }
}

/// Why an analysis has no columns.
#[derive(Debug, Clone, PartialEq, Eq)]
pub enum EncodeError {
    /// The analysis is not valid.
    Invalid(AnalysisError),
    /// A string that describes the analysis is not in its table.
    MissingString(String),
    /// A table has more rows than a row number can count.
    TooManyRows,
}

/// The model of an [`EncodeError`].
pub enum EncodeFault {
    Invalid(AnalysisError),
    MissingString(Seq<char>),
    TooManyRows,
}

/// Whether an error tells of a fault.
pub open spec fn tells(error: EncodeError, fault: EncodeFault) -> bool {
    match (error, fault) {
        (EncodeError::Invalid(a), EncodeFault::Invalid(b)) => a == b,
        (EncodeError::MissingString(a), EncodeFault::MissingString(b)) => a@ == b,
        (EncodeError::TooManyRows, EncodeFault::TooManyRows) => true,
        _ => false,
    }
}

/// The bytes of the identity at a row.
pub open spec fn id_at(ids: Seq<u8>, i: int) -> Seq<u8> {
    ids.subrange(32 * i, 32 * i + 32)
}

/// The first row from `k` on that holds a text, or the number of rows.
pub open spec fn place_of(strings: Seq<Seq<char>>, value: Seq<char>, k: int) -> int
    decreases strings.len() - k,
{
    if k < 0 || k >= strings.len() || strings[k] == value {
        k
    } else {
        place_of(strings, value, k + 1)
    }
}

/// The fault of a string that describes an analysis.
pub open spec fn place_fault(a: Analysis, value: Seq<char>) -> Option<EncodeFault> {
    let k = place_of(text::views(a.strings@), value, 0);
    if k >= a.strings@.len() {
        Some(EncodeFault::MissingString(value))
    } else if k > u32::MAX {
        Some(EncodeFault::TooManyRows)
    } else {
        None
    }
}

/// The first of two faults.
pub open spec fn or_fault(first: Option<EncodeFault>, second: Option<EncodeFault>) -> Option<
    EncodeFault,
> {
    if first is Some {
        first
    } else {
        second
    }
}

/// Whether the tables of an analysis have at most as many rows as a row number
/// can count.
pub open spec fn rows_are_countable(a: Analysis) -> bool {
    &&& a.nodes@.len() <= u32::MAX
    &&& a.scopes@.len() <= u32::MAX
    &&& a.symbols@.len() <= u32::MAX
    &&& a.references@.len() <= u32::MAX
    &&& a.def_uses@.len() <= u32::MAX
    &&& a.calls@.len() <= u32::MAX
    &&& a.losses@.len() <= u32::MAX
}

/// Why an analysis has no columns, if so.
pub open spec fn encode_fault(a: Analysis) -> Option<EncodeFault> {
    match validate::analysis_fault(a) {
        Some(error) => Some(EncodeFault::Invalid(error)),
        None => or_fault(
            place_fault(a, a.profile@),
            or_fault(
                place_fault(a, a.producer@),
                or_fault(
                    place_fault(a, a.producer_version@),
                    or_fault(
                        place_fault(a, a.frontend@),
                        or_fault(
                            place_fault(a, a.frontend_version@),
                            if rows_are_countable(a) {
                                None
                            } else {
                                Some(EncodeFault::TooManyRows)
                            },
                        ),
                    ),
                ),
            ),
        ),
    }
}

/// Whether a row of columns is a syntax node.
pub open spec fn is_node_row(c: NodeColumns, i: int, n: AnalysisNode) -> bool {
    &&& c.parent@[i] == row_or_none(n.parent)
    &&& c.child_ordinal@[i] == n.child_ordinal
    &&& c.kind@[i] == n.kind
    &&& c.start_byte@[i] == n.start_byte
    &&& c.end_byte@[i] == n.end_byte
    &&& c.flags@[i] == n.flags
}

/// Whether columns list syntax nodes.
pub open spec fn are_nodes(c: NodeColumns, nodes: Seq<AnalysisNode>) -> bool {
    &&& c.parent@.len() == nodes.len()
    &&& c.child_ordinal@.len() == nodes.len()
    &&& c.kind@.len() == nodes.len()
    &&& c.start_byte@.len() == nodes.len()
    &&& c.end_byte@.len() == nodes.len()
    &&& c.flags@.len() == nodes.len()
    &&& forall|i: int| 0 <= i < nodes.len() ==> is_node_row(c, i, #[trigger] nodes[i])
}

/// Whether a row of columns is a scope.
pub open spec fn is_scope_row(c: ScopeColumns, i: int, s: AnalysisScope) -> bool {
    &&& c.parent@[i] == row_or_none(s.parent)
    &&& c.kind@[i] == s.kind.code_spec()
    &&& c.depth@[i] == s.depth
    &&& c.start_byte@[i] == s.start_byte
    &&& c.end_byte@[i] == s.end_byte
}

/// Whether columns list scopes.
pub open spec fn are_scopes(c: ScopeColumns, scopes: Seq<AnalysisScope>) -> bool {
    &&& c.parent@.len() == scopes.len()
    &&& c.kind@.len() == scopes.len()
    &&& c.depth@.len() == scopes.len()
    &&& c.start_byte@.len() == scopes.len()
    &&& c.end_byte@.len() == scopes.len()
    &&& forall|i: int| 0 <= i < scopes.len() ==> is_scope_row(c, i, #[trigger] scopes[i])
}

/// Whether a row of columns is a symbol.
pub open spec fn is_symbol_row(c: SymbolColumns, i: int, s: AnalysisSymbol) -> bool {
    &&& id_at(c.ids@, i) == s.id.0@
    &&& c.declaration_node@[i] == s.declaration_node
    &&& c.scope@[i] == s.scope
    &&& c.name@[i] == s.name
    &&& c.kind@[i] == s.kind.code_spec()
    &&& c.reference_first@[i] == s.reference_first
    &&& c.reference_count@[i] == s.reference_count
}

/// Whether columns list symbols.
pub open spec fn are_symbols(c: SymbolColumns, symbols: Seq<AnalysisSymbol>) -> bool {
    &&& c.ids@.len() == 32 * symbols.len()
    &&& c.declaration_node@.len() == symbols.len()
    &&& c.scope@.len() == symbols.len()
    &&& c.name@.len() == symbols.len()
    &&& c.kind@.len() == symbols.len()
    &&& c.reference_first@.len() == symbols.len()
    &&& c.reference_count@.len() == symbols.len()
    &&& forall|i: int| 0 <= i < symbols.len() ==> is_symbol_row(c, i, #[trigger] symbols[i])
}

/// Whether a row of columns is a reference.
pub open spec fn is_reference_row(c: ReferenceColumns, i: int, r: AnalysisReference) -> bool {
    &&& id_at(c.ids@, i) == r.id.0@
    &&& c.node@[i] == r.node
    &&& c.scope@[i] == r.scope
    &&& c.name@[i] == r.name
    &&& c.role@[i] == r.role.code_spec()
}

/// Whether columns list references.
pub open spec fn are_references(c: ReferenceColumns, references: Seq<AnalysisReference>) -> bool {
    &&& c.ids@.len() == 32 * references.len()
    &&& c.node@.len() == references.len()
    &&& c.scope@.len() == references.len()
    &&& c.name@.len() == references.len()
    &&& c.role@.len() == references.len()
    &&& forall|i: int|
        0 <= i < references.len() ==> is_reference_row(c, i, #[trigger] references[i])
}

/// Whether a row of columns is a resolution.
pub open spec fn is_def_use_row(c: DefUseColumns, i: int, d: AnalysisDefUse) -> bool {
    &&& id_at(c.ids@, i) == d.id.0@
    &&& c.reference@[i] == d.reference
    &&& c.symbol@[i] == row_or_none(d.symbol)
    &&& c.resolution@[i] == d.resolution.code_spec()
}

/// Whether columns list resolutions.
pub open spec fn are_def_uses(c: DefUseColumns, def_uses: Seq<AnalysisDefUse>) -> bool {
    &&& c.ids@.len() == 32 * def_uses.len()
    &&& c.reference@.len() == def_uses.len()
    &&& c.symbol@.len() == def_uses.len()
    &&& c.resolution@.len() == def_uses.len()
    &&& forall|i: int| 0 <= i < def_uses.len() ==> is_def_use_row(c, i, #[trigger] def_uses[i])
}

/// Whether a row of columns is a call.
pub open spec fn is_call_row(c: CallColumns, i: int, call: AnalysisCall) -> bool {
    &&& id_at(c.ids@, i) == call.id.0@
    &&& c.node@[i] == call.node
    &&& c.callee_reference@[i] == row_or_none(call.callee_reference)
    &&& c.target_symbol@[i] == row_or_none(call.target_symbol)
    &&& c.property@[i] == row_or_none(call.property)
    &&& c.kind@[i] == call.kind.code_spec()
}

/// Whether columns list calls.
pub open spec fn are_calls(c: CallColumns, calls: Seq<AnalysisCall>) -> bool {
    &&& c.ids@.len() == 32 * calls.len()
    &&& c.node@.len() == calls.len()
    &&& c.callee_reference@.len() == calls.len()
    &&& c.target_symbol@.len() == calls.len()
    &&& c.property@.len() == calls.len()
    &&& c.kind@.len() == calls.len()
    &&& forall|i: int| 0 <= i < calls.len() ==> is_call_row(c, i, #[trigger] calls[i])
}

/// Whether columns list losses.
pub open spec fn are_losses(c: LossColumns, losses: Seq<LossRecord>) -> bool {
    &&& c.code@.len() == losses.len()
    &&& c.message@.len() == losses.len()
    &&& forall|i: int|
        0 <= i < losses.len() ==> c.code@[i] == (#[trigger] losses[i]).code.code_spec()
            && c.message@[i] == losses[i].message
}

/// Whether rows hold the bytes of strings.
pub open spec fn are_strings(rows: Seq<Vec<u8>>, strings: Seq<String>) -> bool {
    &&& rows.len() == strings.len()
    &&& forall|i: int| 0 <= i < rows.len() ==> (#[trigger] rows[i])@ == encode_utf8(strings[i]@)
}

/// Whether columns are those of an analysis.
pub open spec fn are_columns(c: AnalysisColumns, a: Analysis) -> bool {
    let strings = text::views(a.strings@);
    &&& c.format_version == a.version
    &&& c.profile == place_of(strings, a.profile@, 0)
    &&& c.producer == place_of(strings, a.producer@, 0)
    &&& c.producer_version == place_of(strings, a.producer_version@, 0)
    &&& c.language == a.language.code_spec()
    &&& c.frontend == place_of(strings, a.frontend@, 0)
    &&& c.frontend_version == place_of(strings, a.frontend_version@, 0)
    &&& c.source_digest@ == a.source_digest@
    &&& c.source_length == a.source_length
    &&& c.node_count == a.nodes@.len()
    &&& c.scope_count == a.scopes@.len()
    &&& c.symbol_count == a.symbols@.len()
    &&& c.reference_count == a.references@.len()
    &&& c.def_use_count == a.def_uses@.len()
    &&& c.call_count == a.calls@.len()
    &&& c.loss_count == a.losses@.len()
    &&& are_strings(c.strings@, a.strings@)
    &&& are_nodes(c.nodes, a.nodes@)
    &&& are_scopes(c.scopes, a.scopes@)
    &&& are_symbols(c.symbols, a.symbols@)
    &&& are_references(c.references, a.references@)
    &&& are_def_uses(c.def_uses, a.def_uses@)
    &&& are_calls(c.calls, a.calls@)
    &&& are_losses(c.losses, a.losses@)
}

fn encode_nodes(nodes: &Vec<AnalysisNode>) -> (c: NodeColumns)
    requires
        forall|i: int|
            0 <= i < nodes@.len() ==> (#[trigger] nodes@[i]).start_byte <= u32::MAX
                && nodes@[i].end_byte <= u32::MAX,
    ensures
        are_nodes(c, nodes@),
{
    let mut parent: Vec<u32> = Vec::new();
    let mut child_ordinal: Vec<u32> = Vec::new();
    let mut kind: Vec<u32> = Vec::new();
    let mut start_byte: Vec<u32> = Vec::new();
    let mut end_byte: Vec<u32> = Vec::new();
    let mut flags: Vec<u8> = Vec::new();
    let mut i: usize = 0;
    while i < nodes.len()
        invariant
            forall|i: int|
                0 <= i < nodes@.len() ==> (#[trigger] nodes@[i]).start_byte <= u32::MAX
                    && nodes@[i].end_byte <= u32::MAX,
            i <= nodes@.len(),
            parent@.len() == i,
            child_ordinal@.len() == i,
            kind@.len() == i,
            start_byte@.len() == i,
            end_byte@.len() == i,
            flags@.len() == i,
            forall|k: int|
                0 <= k < i ==> {
                    let n = #[trigger] nodes@[k];
                    &&& parent@[k] == row_or_none(n.parent)
                    &&& child_ordinal@[k] == n.child_ordinal
                    &&& kind@[k] == n.kind
                    &&& start_byte@[k] == n.start_byte
                    &&& end_byte@[k] == n.end_byte
                    &&& flags@[k] == n.flags
                },
        decreases nodes@.len() - i,
    {
        let n = nodes[i];
        parent.push(row_number(n.parent));
        child_ordinal.push(n.child_ordinal);
        kind.push(n.kind);
        start_byte.push(n.start_byte as u32);
        end_byte.push(n.end_byte as u32);
        flags.push(n.flags);
        i += 1;
    }
    NodeColumns { parent, child_ordinal, kind, start_byte, end_byte, flags }
}

fn encode_scopes(scopes: &Vec<AnalysisScope>) -> (c: ScopeColumns)
    requires
        forall|i: int|
            0 <= i < scopes@.len() ==> (#[trigger] scopes@[i]).start_byte <= u32::MAX
                && scopes@[i].end_byte <= u32::MAX,
    ensures
        are_scopes(c, scopes@),
{
    let mut parent: Vec<u32> = Vec::new();
    let mut kind: Vec<u8> = Vec::new();
    let mut depth: Vec<u32> = Vec::new();
    let mut start_byte: Vec<u32> = Vec::new();
    let mut end_byte: Vec<u32> = Vec::new();
    let mut i: usize = 0;
    while i < scopes.len()
        invariant
            forall|i: int|
                0 <= i < scopes@.len() ==> (#[trigger] scopes@[i]).start_byte <= u32::MAX
                    && scopes@[i].end_byte <= u32::MAX,
            i <= scopes@.len(),
            parent@.len() == i,
            kind@.len() == i,
            depth@.len() == i,
            start_byte@.len() == i,
            end_byte@.len() == i,
            forall|k: int|
                0 <= k < i ==> {
                    let s = #[trigger] scopes@[k];
                    &&& parent@[k] == row_or_none(s.parent)
                    &&& kind@[k] == s.kind.code_spec()
                    &&& depth@[k] == s.depth
                    &&& start_byte@[k] == s.start_byte
                    &&& end_byte@[k] == s.end_byte
                },
        decreases scopes@.len() - i,
    {
        let s = scopes[i];
        parent.push(row_number(s.parent));
        kind.push(s.kind.code());
        depth.push(s.depth);
        start_byte.push(s.start_byte as u32);
        end_byte.push(s.end_byte as u32);
        i += 1;
    }
    ScopeColumns { parent, kind, depth, start_byte, end_byte }
}

fn push_id(ids: &mut Vec<u8>, id: &StableId)
    ensures
        final(ids)@ == old(ids)@ + id.0@,
{
    push_all(ids, id.0.as_slice());
}

/// The rows of an identity column stay when one is added.
proof fn lemma_id_rows(before: Seq<u8>, id: Seq<u8>, count: int)
    requires
        0 <= count,
        before.len() == 32 * count,
        id.len() == 32,
    ensures
        (before + id).len() == 32 * (count + 1),
        id_at(before + id, count) == id,
        forall|k: int| 0 <= k < count ==> #[trigger] id_at(before + id, k) == id_at(before, k),
{
    assert(id_at(before + id, count) =~= id);
    assert forall|k: int| 0 <= k < count implies #[trigger] id_at(before + id, k) == id_at(
        before,
        k,
    ) by {
        assert(id_at(before + id, k) =~= id_at(before, k));
    }
}

fn encode_symbols(symbols: &Vec<AnalysisSymbol>) -> (c: SymbolColumns)
    ensures
        are_symbols(c, symbols@),
{
    let mut ids: Vec<u8> = Vec::new();
    let mut declaration_node: Vec<u32> = Vec::new();
    let mut scope: Vec<u32> = Vec::new();
    let mut name: Vec<u32> = Vec::new();
    let mut kind: Vec<u8> = Vec::new();
    let mut reference_first: Vec<u32> = Vec::new();
    let mut reference_count: Vec<u32> = Vec::new();
    let mut i: usize = 0;
    while i < symbols.len()
        invariant
            i <= symbols@.len(),
            ids@.len() == 32 * i,
            declaration_node@.len() == i,
            scope@.len() == i,
            name@.len() == i,
            kind@.len() == i,
            reference_first@.len() == i,
            reference_count@.len() == i,
            forall|k: int| 0 <= k < i ==> #[trigger] id_at(ids@, k) == symbols@[k].id.0@,
            forall|k: int|
                0 <= k < i ==> {
                    let s = #[trigger] symbols@[k];
                    &&& declaration_node@[k] == s.declaration_node
                    &&& scope@[k] == s.scope
                    &&& name@[k] == s.name
                    &&& kind@[k] == s.kind.code_spec()
                    &&& reference_first@[k] == s.reference_first
                    &&& reference_count@[k] == s.reference_count
                },
        decreases symbols@.len() - i,
    {
        let s = symbols[i];
        proof {
            lemma_id_rows(ids@, s.id.0@, i as int);
        }
        push_id(&mut ids, &s.id);
        declaration_node.push(s.declaration_node);
        scope.push(s.scope);
        name.push(s.name);
        kind.push(s.kind.code());
        reference_first.push(s.reference_first);
        reference_count.push(s.reference_count);
        i += 1;
    }
    SymbolColumns { ids, declaration_node, scope, name, kind, reference_first, reference_count }
}

fn encode_references(references: &Vec<AnalysisReference>) -> (c: ReferenceColumns)
    ensures
        are_references(c, references@),
{
    let mut ids: Vec<u8> = Vec::new();
    let mut node: Vec<u32> = Vec::new();
    let mut scope: Vec<u32> = Vec::new();
    let mut name: Vec<u32> = Vec::new();
    let mut role: Vec<u8> = Vec::new();
    let mut i: usize = 0;
    while i < references.len()
        invariant
            i <= references@.len(),
            ids@.len() == 32 * i,
            node@.len() == i,
            scope@.len() == i,
            name@.len() == i,
            role@.len() == i,
            forall|k: int| 0 <= k < i ==> #[trigger] id_at(ids@, k) == references@[k].id.0@,
            forall|k: int|
                0 <= k < i ==> {
                    let r = #[trigger] references@[k];
                    &&& node@[k] == r.node
                    &&& scope@[k] == r.scope
                    &&& name@[k] == r.name
                    &&& role@[k] == r.role.code_spec()
                },
        decreases references@.len() - i,
    {
        let r = references[i];
        proof {
            lemma_id_rows(ids@, r.id.0@, i as int);
        }
        push_id(&mut ids, &r.id);
        node.push(r.node);
        scope.push(r.scope);
        name.push(r.name);
        role.push(r.role.code());
        i += 1;
    }
    ReferenceColumns { ids, node, scope, name, role }
}

fn encode_def_uses(def_uses: &Vec<AnalysisDefUse>) -> (c: DefUseColumns)
    ensures
        are_def_uses(c, def_uses@),
{
    let mut ids: Vec<u8> = Vec::new();
    let mut reference: Vec<u32> = Vec::new();
    let mut symbol: Vec<u32> = Vec::new();
    let mut resolution: Vec<u8> = Vec::new();
    let mut i: usize = 0;
    while i < def_uses.len()
        invariant
            i <= def_uses@.len(),
            ids@.len() == 32 * i,
            reference@.len() == i,
            symbol@.len() == i,
            resolution@.len() == i,
            forall|k: int| 0 <= k < i ==> #[trigger] id_at(ids@, k) == def_uses@[k].id.0@,
            forall|k: int|
                0 <= k < i ==> {
                    let d = #[trigger] def_uses@[k];
                    &&& reference@[k] == d.reference
                    &&& symbol@[k] == row_or_none(d.symbol)
                    &&& resolution@[k] == d.resolution.code_spec()
                },
        decreases def_uses@.len() - i,
    {
        let d = def_uses[i];
        proof {
            lemma_id_rows(ids@, d.id.0@, i as int);
        }
        push_id(&mut ids, &d.id);
        reference.push(d.reference);
        symbol.push(row_number(d.symbol));
        resolution.push(d.resolution.code());
        i += 1;
    }
    DefUseColumns { ids, reference, symbol, resolution }
}

fn encode_calls(calls: &Vec<AnalysisCall>) -> (c: CallColumns)
    ensures
        are_calls(c, calls@),
{
    let mut ids: Vec<u8> = Vec::new();
    let mut node: Vec<u32> = Vec::new();
    let mut callee_reference: Vec<u32> = Vec::new();
    let mut target_symbol: Vec<u32> = Vec::new();
    let mut property: Vec<u32> = Vec::new();
    let mut kind: Vec<u8> = Vec::new();
    let mut i: usize = 0;
    while i < calls.len()
        invariant
            i <= calls@.len(),
            ids@.len() == 32 * i,
            node@.len() == i,
            callee_reference@.len() == i,
            target_symbol@.len() == i,
            property@.len() == i,
            kind@.len() == i,
            forall|k: int| 0 <= k < i ==> #[trigger] id_at(ids@, k) == calls@[k].id.0@,
            forall|k: int|
                0 <= k < i ==> {
                    let c = #[trigger] calls@[k];
                    &&& node@[k] == c.node
                    &&& callee_reference@[k] == row_or_none(c.callee_reference)
                    &&& target_symbol@[k] == row_or_none(c.target_symbol)
                    &&& property@[k] == row_or_none(c.property)
                    &&& kind@[k] == c.kind.code_spec()
                },
        decreases calls@.len() - i,
    {
        let c = calls[i];
        proof {
            lemma_id_rows(ids@, c.id.0@, i as int);
        }
        push_id(&mut ids, &c.id);
        node.push(c.node);
        callee_reference.push(row_number(c.callee_reference));
        target_symbol.push(row_number(c.target_symbol));
        property.push(row_number(c.property));
        kind.push(c.kind.code());
        i += 1;
    }
    CallColumns { ids, node, callee_reference, target_symbol, property, kind }
}

fn encode_losses(losses: &Vec<LossRecord>) -> (c: LossColumns)
    ensures
        are_losses(c, losses@),
{
    let mut code: Vec<u16> = Vec::new();
    let mut message: Vec<u32> = Vec::new();
    let mut i: usize = 0;
    while i < losses.len()
        invariant
            i <= losses@.len(),
            code@.len() == i,
            message@.len() == i,
            forall|k: int|
                0 <= k < i ==> code@[k] == (#[trigger] losses@[k]).code.code_spec() && message@[k]
                    == losses@[k].message,
        decreases losses@.len() - i,
    {
        code.push(losses[i].code.code());
        message.push(losses[i].message);
        i += 1;
    }
    LossColumns { code, message }
}

fn encode_strings(strings: &Vec<String>) -> (rows: Vec<Vec<u8>>)
    ensures
        are_strings(rows@, strings@),
{
    let mut rows: Vec<Vec<u8>> = Vec::new();
    let mut i: usize = 0;
    while i < strings.len()
        invariant
            i <= strings@.len(),
            rows@.len() == i,
            forall|k: int| 0 <= k < i ==> (#[trigger] rows@[k])@ == encode_utf8(strings@[k]@),
        decreases strings@.len() - i,
    {
        let mut row: Vec<u8> = Vec::new();
        push_all(&mut row, strings[i].as_str().as_bytes());
        assert(row@ =~= encode_utf8(strings@[i as int]@));
        rows.push(row);
        i += 1;
    }
    rows
}

/// Whether an outcome is the place of a string, or tells of its fault.
spec fn is_place(r: Result<u32, EncodeError>, a: Analysis, value: Seq<char>) -> bool {
    match (r, place_fault(a, value)) {
        (Ok(row), None) => row == place_of(text::views(a.strings@), value, 0),
        (Err(error), Some(fault)) => tells(error, fault),
        _ => false,
    }
}

impl Analysis {
    fn string_index(&self, value: &str) -> (r: Result<u32, EncodeError>)
        ensures
            is_place(r, *self, value@),
    {
        let ghost models = text::views(self.strings@);
        assert(models.len() == self.strings@.len());
        let mut k: usize = 0;
        while k < self.strings.len()
            invariant
                models == text::views(self.strings@),
                models.len() == self.strings@.len(),
                k <= self.strings@.len(),
                place_of(models, value@, 0) == place_of(models, value@, k as int),
            decreases self.strings@.len() - k,
        {
            assert(models[k as int] == self.strings@[k as int]@);
            if same_text(self.strings[k].as_str(), value) {
                if k > 0xffff_ffff {
                    return Err(EncodeError::TooManyRows);
                }
                return Ok(k as u32);
            }
            k += 1;
        }
        Err(EncodeError::MissingString(value.to_string()))
    }

    fn countable(&self) -> (r: bool)
        ensures
            r == rows_are_countable(*self),
    {
        self.nodes.len() <= 0xffff_ffff && self.scopes.len() <= 0xffff_ffff && self.symbols.len()
            <= 0xffff_ffff && self.references.len() <= 0xffff_ffff && self.def_uses.len()
            <= 0xffff_ffff && self.calls.len() <= 0xffff_ffff && self.losses.len() <= 0xffff_ffff
    }

    /// The columns of a valid analysis.
    pub fn encode_positioned(&self) -> (r: Result<AnalysisColumns, EncodeError>)
        ensures
            match (r, encode_fault(*self)) {
                (Ok(columns), None) => are_columns(columns, *self),
                (Err(error), Some(fault)) => tells(error, fault),
                _ => false,
            },
    {
        if let Err(error) = self.validate() {
            return Err(EncodeError::Invalid(error));
        }
        proof {
            validate::law_no_fault_means_valid(*self);
            assert forall|i: int| 0 <= i < self.nodes@.len() implies (
            #[trigger] self.nodes@[i]).start_byte <= u32::MAX && self.nodes@[i].end_byte
                <= u32::MAX by {
                assert(validate::node_fault(*self, i) is None);
            }
            assert forall|i: int| 0 <= i < self.scopes@.len() implies (
            #[trigger] self.scopes@[i]).start_byte <= u32::MAX && self.scopes@[i].end_byte
                <= u32::MAX by {
                assert(validate::scope_fault(*self, i) is None);
            }
        }
        let profile = match self.string_index(self.profile.as_str()) {
            Ok(row) => row,
            Err(error) => {
                return Err(error);
            },
        };
        let producer = match self.string_index(self.producer.as_str()) {
            Ok(row) => row,
            Err(error) => {
                return Err(error);
            },
        };
        let producer_version = match self.string_index(self.producer_version.as_str()) {
            Ok(row) => row,
            Err(error) => {
                return Err(error);
            },
        };
        let frontend = match self.string_index(self.frontend.as_str()) {
            Ok(row) => row,
            Err(error) => {
                return Err(error);
            },
        };
        let frontend_version = match self.string_index(self.frontend_version.as_str()) {
            Ok(row) => row,
            Err(error) => {
                return Err(error);
            },
        };
        if !self.countable() {
            return Err(EncodeError::TooManyRows);
        }
        let mut source_digest: Vec<u8> = Vec::new();
        push_all(&mut source_digest, self.source_digest.as_slice());
        assert(source_digest@ =~= self.source_digest@);
        Ok(
            AnalysisColumns {
                format_version: self.version,
                profile,
                producer,
                producer_version,
                language: self.language.code(),
                frontend,
                frontend_version,
                source_digest,
                source_length: self.source_length,
                node_count: self.nodes.len() as u32,
                scope_count: self.scopes.len() as u32,
                symbol_count: self.symbols.len() as u32,
                reference_count: self.references.len() as u32,
                def_use_count: self.def_uses.len() as u32,
                call_count: self.calls.len() as u32,
                loss_count: self.losses.len() as u32,
                strings: encode_strings(&self.strings),
                nodes: encode_nodes(&self.nodes),
                scopes: encode_scopes(&self.scopes),
                symbols: encode_symbols(&self.symbols),
                references: encode_references(&self.references),
                def_uses: encode_def_uses(&self.def_uses),
                calls: encode_calls(&self.calls),
                losses: encode_losses(&self.losses),
            },
        )
    }
}

} // verus!
