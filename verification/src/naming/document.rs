//! Documents of analyses.

use vstd::hash_set::StringHashSet;
use vstd::prelude::*;
use vstd::string::*;

use super::labels::{
    call_label, language_label, resolution_label, role_label, scope_label, symbol_label,
};
use super::{
    NameState, NamingCallContext, NamingDeclaration, NamingError, NamingIdentity,
    NamingReferenceContext, NamingScope, NamingUsage, SemanticNameDocument, SemanticNameEntry,
    FORMAT, INSTRUCTIONS,
};
use super::{
    CallModel, DeclarationModel, DocumentModel, EntryModel, IdentityModel, ReferenceModel,
    ScopeModel,
};
use crate::analysis::{
    Analysis, AnalysisCall, AnalysisCallKind, AnalysisReferenceRole, AnalysisResolution,
};
use crate::lineage::context::semantic_container;
use crate::order::text_order;
use crate::text::{hex_text, same_optional, same_text};

use super::{labels, rules};
use crate::analysis::{json, validate};
use crate::lineage::context;
use crate::{order, text};

verus! {

/// The kinds of a scope's ancestors, from its parent up.
pub open spec fn scope_ancestors(a: Analysis, row: Option<u32>, below: int) -> Seq<Seq<char>>
    decreases below,
{
    match row {
        Some(row) => if row < below && row < a.scopes@.len() {
            seq![labels::scope_label_of(a.scopes@[row as int].kind)] + scope_ancestors(
                a,
                a.scopes@[row as int].parent,
                row as int,
            )
        } else {
            Seq::empty()
        },
        None => Seq::empty(),
    }
}

/// The kinds of up to `limit` ancestors of a node, from its parent up.
pub open spec fn node_ancestors(a: Analysis, row: Option<u32>, limit: nat) -> Seq<Seq<char>>
    decreases limit,
{
    match row {
        Some(row) => if limit > 0 && row < a.nodes@.len() {
            seq![kind_text(a, row as int)] + node_ancestors(
                a,
                a.nodes@[row as int].parent,
                (limit - 1) as nat,
            )
        } else {
            Seq::empty()
        },
        None => Seq::empty(),
    }
}

/// The kind of a node.
pub open spec fn kind_text(a: Analysis, row: int) -> Seq<char> {
    a.strings@[a.nodes@[row].kind as int]@
}

/// The kinds of a node's children among the first `count` nodes.
pub open spec fn child_kinds(a: Analysis, parent: u32, count: int) -> Seq<Seq<char>>
    decreases count,
{
    if count <= 0 {
        Seq::empty()
    } else if a.nodes@[count - 1].parent == Some(parent) {
        child_kinds(a, parent, count - 1).push(kind_text(a, count - 1))
    } else {
        child_kinds(a, parent, count - 1)
    }
}

/// The first few of a list.
pub open spec fn first_few<T>(list: Seq<T>, limit: int) -> Seq<T> {
    if list.len() > limit {
        list.take(limit)
    } else {
        list
    }
}

/// How many of `count` references from a row on have a resolution.
pub open spec fn resolution_count(
    a: Analysis,
    first: int,
    count: int,
    resolution: AnalysisResolution,
) -> nat
    decreases count,
{
    if count <= 0 {
        0
    } else {
        resolution_count(a, first, count - 1, resolution) + if a.def_uses@[first + count
            - 1].resolution == resolution {
            1nat
        } else {
            0
        }
    }
}

/// How many of the first `count` calls of a kind have a target.
pub open spec fn call_count(a: Analysis, symbol: u32, kind: AnalysisCallKind, count: int) -> nat
    decreases count,
{
    if count <= 0 {
        0
    } else {
        call_count(a, symbol, kind, count - 1) + if a.calls@[count - 1].target_symbol == Some(
            symbol,
        ) && a.calls@[count - 1].kind == kind {
            1nat
        } else {
            0
        }
    }
}

/// How often a symbol has a role.
pub open spec fn role_uses(a: Analysis, row: int, role: AnalysisReferenceRole) -> u32 {
    context::role_count(
        a,
        a.symbols@[row].reference_first as int,
        a.symbols@[row].reference_count as int,
        role.code_spec(),
    ) as u32
}

/// How often a symbol has a resolution.
pub open spec fn resolutions(a: Analysis, row: int, resolution: AnalysisResolution) -> u32 {
    resolution_count(
        a,
        a.symbols@[row].reference_first as int,
        a.symbols@[row].reference_count as int,
        resolution,
    ) as u32
}

/// How often a symbol is the target of a kind of call.
pub open spec fn target_calls(a: Analysis, row: int, kind: AnalysisCallKind) -> u32 {
    call_count(a, row as u32, kind, a.calls@.len() as int) as u32
}

/// How a symbol is used.
pub open spec fn usage_of(a: Analysis, row: int) -> NamingUsage {
    NamingUsage {
        reference_count: a.symbols@[row].reference_count,
        read: role_uses(a, row, AnalysisReferenceRole::Read),
        write: role_uses(a, row, AnalysisReferenceRole::Write),
        read_write: role_uses(a, row, AnalysisReferenceRole::ReadWrite),
        call: role_uses(a, row, AnalysisReferenceRole::Call),
        construct: role_uses(a, row, AnalysisReferenceRole::Construct),
        export: role_uses(a, row, AnalysisReferenceRole::Export),
        resolved: resolutions(a, row, AnalysisResolution::Resolved),
        unresolved: resolutions(a, row, AnalysisResolution::Unresolved),
        ambiguous: resolutions(a, row, AnalysisResolution::Ambiguous),
        direct_calls: target_calls(a, row, AnalysisCallKind::Direct),
        member_calls: target_calls(a, row, AnalysisCallKind::Member),
        constructor_calls: target_calls(a, row, AnalysisCallKind::Construct),
        dynamic_calls: target_calls(a, row, AnalysisCallKind::Dynamic),
    }
}

/// The spelled identity of a symbol that may be missing.
pub open spec fn target_text(a: Analysis, symbol: Option<u32>) -> Option<Seq<char>> {
    match symbol {
        Some(row) => Some(text::hex_of(a.symbols@[row as int].id.0@)),
        None => None,
    }
}

/// What is told of a reference.
pub open spec fn reference_of(a: Analysis, row: int) -> ReferenceModel {
    let node = a.nodes@[a.references@[row].node as int];
    ReferenceModel {
        node_id: text::hex_of(node.id.0@),
        role: labels::role_label_of(a.references@[row].role),
        resolution: labels::resolution_label_of(a.def_uses@[row].resolution),
        parent_kind: match node.parent {
            Some(parent) => kind_text(a, parent as int),
            None => "program"@,
        },
        target_symbol_id: target_text(a, a.def_uses@[row].symbol),
    }
}

/// What is told of the first references of a symbol.
pub open spec fn references_of(a: Analysis, row: int) -> Seq<ReferenceModel> {
    let symbol = a.symbols@[row];
    Seq::new(
        if symbol.reference_count > 24 {
            24
        } else {
            symbol.reference_count as nat
        },
        |k: int| reference_of(a, symbol.reference_first + k),
    )
}

/// Whether a call is one of a symbol: by its target, or by its callee.
pub open spec fn is_call_of(a: Analysis, row: int, call: AnalysisCall) -> bool {
    let symbol = a.symbols@[row];
    call.target_symbol == Some(row as u32) || (call.callee_reference matches Some(reference)
        && symbol.reference_first <= reference < symbol.reference_first + symbol.reference_count)
}

/// What is told of a call.
pub open spec fn call_of(a: Analysis, call: AnalysisCall) -> CallModel {
    CallModel {
        node_id: text::hex_of(a.nodes@[call.node as int].id.0@),
        kind: labels::call_label_of(call.kind),
        target_symbol_id: target_text(a, call.target_symbol),
    }
}

/// What is told of the calls of a symbol among the first `count` calls.
pub open spec fn calls_upto(a: Analysis, row: int, count: int) -> Seq<CallModel>
    decreases count,
{
    if count <= 0 {
        Seq::empty()
    } else if is_call_of(a, row, a.calls@[count - 1]) {
        calls_upto(a, row, count - 1).push(call_of(a, a.calls@[count - 1]))
    } else {
        calls_upto(a, row, count - 1)
    }
}

/// What is told of all calls of a symbol.
pub open spec fn calls_of(a: Analysis, row: int) -> Seq<CallModel> {
    calls_upto(a, row, a.calls@.len() as int)
}

/// The children of a node.
pub open spec fn children_of(a: Analysis, row: int) -> Seq<Seq<char>> {
    child_kinds(a, row as u32, a.nodes@.len() as int)
}

/// What is told of a declaration.
pub open spec fn declaration_of(a: Analysis, row: int) -> DeclarationModel {
    let node = a.nodes@[row];
    DeclarationModel {
        node_id: text::hex_of(node.id.0@),
        kind: kind_text(a, row),
        start_byte: node.start_byte,
        end_byte: node.end_byte,
        ancestor_kinds: node_ancestors(a, node.parent, 6),
        child_kinds: first_few(children_of(a, row), 12),
        truncated: children_of(a, row).len() > 12,
    }
}

/// What is told of a scope.
pub open spec fn scope_of(a: Analysis, row: int) -> ScopeModel {
    let scope = a.scopes@[row];
    ScopeModel {
        id: text::hex_of(scope.id.0@),
        kind: labels::scope_label_of(scope.kind),
        depth: scope.depth,
        ancestor_kinds: scope_ancestors(a, scope.parent, row),
    }
}

/// The entry of a symbol that nothing was decided about.
pub open spec fn entry_of(a: Analysis, row: int, generated: bool) -> EntryModel {
    let symbol = a.symbols@[row];
    EntryModel {
        symbol_id: text::hex_of(symbol.id.0@),
        state: NameState::Unknown,
        semantic_name: None,
        generated_name: if generated {
            Some(a.strings@[symbol.name as int]@)
        } else {
            None
        },
        kind: labels::symbol_label_of(symbol.kind),
        scope: scope_of(a, symbol.scope as int),
        declaration: declaration_of(a, context::container_of(a, symbol.declaration_node as int)),
        usage: usage_of(a, row),
        references: references_of(a, row),
        references_truncated: symbol.reference_count > 24,
        calls: first_few(calls_of(a, row), 16),
        calls_truncated: calls_of(a, row).len() > 16,
        provenance: None,
    }
}

/// The spelled identities of all symbols.
pub open spec fn symbol_texts(a: Analysis) -> Seq<Seq<char>> {
    Seq::new(a.symbols@.len(), |row: int| text::hex_of(a.symbols@[row].id.0@))
}

/// The entries of all symbols, in the order of their identities.
pub open spec fn entries_of(a: Analysis, generated: bool) -> Seq<EntryModel> {
    order::arranged(
        Seq::new(a.symbols@.len(), |row: int| entry_of(a, row, generated)),
        order::text_keys(symbol_texts(a)),
    )
}

/// What a document says of its analysis. The digest of the analysis binds the
/// document to it.
pub open spec fn identity_of(a: Analysis) -> IdentityModel {
    IdentityModel {
        profile: a.profile@,
        format_version: a.version,
        source_digest: text::hex_of(a.source_digest@),
        analysis_digest: json::analysis_digest_of(a),
        producer: a.producer@,
        producer_version: a.producer_version@,
        language: labels::language_label_of(a.language),
        frontend: a.frontend@,
        frontend_version: a.frontend_version@,
        source_length: a.source_length,
    }
}

/// The document of an analysis that nothing was decided in.
pub open spec fn document_of(a: Analysis, generated: bool) -> DocumentModel {
    DocumentModel {
        format: FORMAT@,
        revision: 0,
        instructions: INSTRUCTIONS@,
        analysis: identity_of(a),
        redacted: !generated,
        symbols: entries_of(a, generated),
        events: Seq::empty(),
    }
}

/// The fault of an analysis.
pub open spec fn analysis_error(a: Analysis) -> Option<NamingError> {
    match validate::analysis_fault(a) {
        Some(fault) => Some(NamingError::Analysis(fault)),
        None => None,
    }
}

/// Why an analysis has no document.
pub open spec fn creation_fault(a: Analysis, generated: bool) -> Option<NamingError> {
    super::or_fault(analysis_error(a), rules::document_fault(document_of(a, generated)))
}

/// An entry without what was decided.
pub open spec fn undecided(e: EntryModel) -> EntryModel {
    EntryModel { state: NameState::Unknown, semantic_name: None, provenance: None, ..e }
}

/// Whether a document has the symbols of an analysis.
pub open spec fn has_the_symbols(d: DocumentModel, a: Analysis) -> bool {
    &&& symbol_texts(a).to_set().len() == d.symbols.len()
    &&& forall|i: int|
        0 <= i < d.symbols.len() ==> symbol_texts(a).contains(
            (#[trigger] d.symbols[i]).symbol_id,
        )
}

/// Whether the entries differ from an analysis only in what was decided.
pub open spec fn context_is_kept(d: DocumentModel, a: Analysis) -> bool {
    forall|i: int|
        0 <= i < d.symbols.len() && i < a.symbols@.len() ==> undecided(#[trigger] d.symbols[i])
            == entries_of(a, !d.redacted)[i]
}

/// The first fault of a document against an analysis.
pub open spec fn binding_fault(d: DocumentModel, a: Analysis) -> Option<NamingError> {
    super::or_fault(
        rules::document_fault(d),
        super::or_fault(
            analysis_error(a),
            super::or_fault(
                super::fault_if(d.analysis != identity_of(a), NamingError::DifferentAnalysis),
                super::or_fault(
                    super::fault_if(!has_the_symbols(d, a), NamingError::SymbolSet),
                    super::or_fault(
                        creation_fault(a, !d.redacted),
                        super::fault_if(!context_is_kept(d, a), NamingError::ContextModified),
                    ),
                ),
            ),
        ),
    )
}

fn ancestors_of_scope(a: &Analysis, row: usize) -> (kinds: Vec<String>)
    requires
        validate::rows_fit(*a),
        row < a.scopes@.len(),
    ensures
        text::views(kinds@) == scope_ancestors(*a, a.scopes@[row as int].parent, row as int),
{
    let mut kinds: Vec<String> = Vec::new();
    let mut next = a.scopes[row].parent;
    let mut below: usize = row;
    let ghost whole = scope_ancestors(*a, next, row as int);
    assert(text::views(kinds@) + whole =~= whole);
    loop
        invariant
            validate::rows_fit(*a),
            below < a.scopes@.len(),
            validate::row_fits(next, below as int),
            whole == text::views(kinds@) + scope_ancestors(*a, next, below as int),
        ensures
            whole == text::views(kinds@),
        decreases below,
    {
        match next {
            Some(parent) => {
                let scope = a.scopes[parent as usize];
                let ghost before = kinds@;
                kinds.push(scope_label(scope.kind).to_string());
                assert(text::views(kinds@) =~= text::views(before).push(
                    labels::scope_label_of(scope.kind),
                ));
                assert(whole =~= text::views(kinds@) + scope_ancestors(
                    *a,
                    scope.parent,
                    parent as int,
                ));
                next = scope.parent;
                below = parent as usize;
            },
            None => {
                assert(whole =~= text::views(kinds@));
                break;
            },
        }
    }
    kinds
}

fn ancestors_of_node(a: &Analysis, row: usize) -> (kinds: Vec<String>)
    requires
        validate::rows_fit(*a),
        row < a.nodes@.len(),
    ensures
        text::views(kinds@) == node_ancestors(*a, a.nodes@[row as int].parent, 6),
{
    let mut kinds: Vec<String> = Vec::new();
    let mut next = a.nodes[row].parent;
    let mut limit: usize = 6;
    let ghost whole = node_ancestors(*a, next, 6);
    assert(text::views(kinds@) + whole =~= whole);
    loop
        invariant
            validate::rows_fit(*a),
            validate::row_fits(next, a.nodes@.len() as int),
            whole == text::views(kinds@) + node_ancestors(*a, next, limit as nat),
        ensures
            whole == text::views(kinds@),
        decreases limit,
    {
        if limit == 0 {
            assert(whole =~= text::views(kinds@));
            break;
        }
        match next {
            Some(parent) => {
                let node = a.nodes[parent as usize];
                let ghost before = kinds@;
                kinds.push(a.strings[node.kind as usize].clone());
                assert(text::views(kinds@) =~= text::views(before).push(
                    kind_text(*a, parent as int),
                ));
                assert(whole =~= text::views(kinds@) + node_ancestors(
                    *a,
                    node.parent,
                    (limit - 1) as nat,
                ));
                next = node.parent;
                limit -= 1;
            },
            None => {
                assert(whole =~= text::views(kinds@));
                break;
            },
        }
    }
    kinds
}

/// The kinds of the first children of a node, and whether there are more.
fn children_of_node(a: &Analysis, row: usize) -> (r: (Vec<String>, bool))
    requires
        validate::rows_fit(*a),
        row < a.nodes@.len(),
    ensures
        text::views(r.0@) == first_few(children_of(*a, row as int), 12),
        r.1 == (children_of(*a, row as int).len() > 12),
{
    let mut kinds: Vec<String> = Vec::new();
    let mut more = false;
    let parent: u32 = row as u32;
    let mut i: usize = 0;
    assert(text::views(kinds@) =~= first_few(child_kinds(*a, parent, 0), 12));
    while i < a.nodes.len()
        invariant
            validate::rows_fit(*a),
            i <= a.nodes@.len(),
            text::views(kinds@) == first_few(child_kinds(*a, parent, i as int), 12),
            more == (child_kinds(*a, parent, i as int).len() > 12),
        decreases a.nodes@.len() - i,
    {
        let node = a.nodes[i];
        let mine = match node.parent {
            Some(other) => other == parent,
            None => false,
        };
        if mine {
            let ghost before = kinds@;
            let ghost shorter = child_kinds(*a, parent, i as int);
            let ghost longer = child_kinds(*a, parent, i + 1);
            assert(text::views(before).len() == before.len());
            if kinds.len() < 12 {
                kinds.push(a.strings[node.kind as usize].clone());
                assert(text::views(kinds@) =~= text::views(before).push(kind_text(*a, i as int)));
                assert(text::views(kinds@) =~= first_few(longer, 12));
            } else {
                more = true;
                assert(first_few(longer, 12) =~= first_few(shorter, 12));
            }
        }
        i += 1;
    }
    (kinds, more)
}

fn role_uses_of(a: &Analysis, row: usize, role: AnalysisReferenceRole) -> (count: u32)
    requires
        validate::rows_fit(*a),
        row < a.symbols@.len(),
    ensures
        count == role_uses(*a, row as int, role),
{
    let symbol = a.symbols[row];
    let first: usize = symbol.reference_first as usize;
    let total: usize = a.references.len();
    let mut count: u32 = 0;
    let mut k: u32 = 0;
    while k < symbol.reference_count
        invariant
            validate::rows_fit(*a),
            total == a.references@.len(),
            first + symbol.reference_count <= total,
            k <= symbol.reference_count,
            count <= k,
            count == context::role_count(*a, first as int, k as int, role.code_spec()),
        decreases symbol.reference_count - k,
    {
        assert(first + k < total);
        if a.references[first + k as usize].role.code() == role.code() {
            count += 1;
        }
        k += 1;
    }
    count
}

fn resolutions_of(a: &Analysis, row: usize, resolution: AnalysisResolution) -> (count: u32)
    requires
        validate::rows_fit(*a),
        row < a.symbols@.len(),
    ensures
        count == resolutions(*a, row as int, resolution),
{
    let symbol = a.symbols[row];
    let first: usize = symbol.reference_first as usize;
    let total: usize = a.def_uses.len();
    let mut count: u32 = 0;
    let mut k: u32 = 0;
    while k < symbol.reference_count
        invariant
            validate::rows_fit(*a),
            total == a.def_uses@.len(),
            first + symbol.reference_count <= total,
            k <= symbol.reference_count,
            count <= k,
            count == resolution_count(*a, first as int, k as int, resolution),
        decreases symbol.reference_count - k,
    {
        assert(first + k < total);
        if a.def_uses[first + k as usize].resolution == resolution {
            count += 1;
        }
        k += 1;
    }
    count
}

fn same_symbol(a: Option<u32>, row: u32) -> (r: bool)
    ensures
        r == (a == Some(row)),
{
    match a {
        Some(other) => other == row,
        None => false,
    }
}

fn calls_to(a: &Analysis, row: usize, kind: AnalysisCallKind) -> (count: u32)
    ensures
        count == target_calls(*a, row as int, kind),
{
    let symbol: u32 = row as u32;
    let mut count: usize = 0;
    let mut i: usize = 0;
    while i < a.calls.len()
        invariant
            i <= a.calls@.len(),
            count <= i,
            count == call_count(*a, symbol, kind, i as int),
        decreases a.calls@.len() - i,
    {
        let call = a.calls[i];
        if same_symbol(call.target_symbol, symbol) && call.kind == kind {
            count += 1;
        }
        i += 1;
    }
    count as u32
}

fn usage(a: &Analysis, row: usize) -> (usage: NamingUsage)
    requires
        validate::rows_fit(*a),
        row < a.symbols@.len(),
    ensures
        usage == usage_of(*a, row as int),
{
    NamingUsage {
        reference_count: a.symbols[row].reference_count,
        read: role_uses_of(a, row, AnalysisReferenceRole::Read),
        write: role_uses_of(a, row, AnalysisReferenceRole::Write),
        read_write: role_uses_of(a, row, AnalysisReferenceRole::ReadWrite),
        call: role_uses_of(a, row, AnalysisReferenceRole::Call),
        construct: role_uses_of(a, row, AnalysisReferenceRole::Construct),
        export: role_uses_of(a, row, AnalysisReferenceRole::Export),
        resolved: resolutions_of(a, row, AnalysisResolution::Resolved),
        unresolved: resolutions_of(a, row, AnalysisResolution::Unresolved),
        ambiguous: resolutions_of(a, row, AnalysisResolution::Ambiguous),
        direct_calls: calls_to(a, row, AnalysisCallKind::Direct),
        member_calls: calls_to(a, row, AnalysisCallKind::Member),
        constructor_calls: calls_to(a, row, AnalysisCallKind::Construct),
        dynamic_calls: calls_to(a, row, AnalysisCallKind::Dynamic),
    }
}

fn target_id(a: &Analysis, symbol: Option<u32>) -> (id: Option<String>)
    requires
        validate::row_fits(symbol, a.symbols@.len() as int),
    ensures
        text::optional_view(id) == target_text(*a, symbol),
{
    match symbol {
        Some(row) => Some(a.symbols[row as usize].id.to_hex()),
        None => None,
    }
}

fn reference_context(a: &Analysis, row: usize) -> (reference: NamingReferenceContext)
    requires
        validate::rows_fit(*a),
        row < a.references@.len(),
    ensures
        reference@ == reference_of(*a, row as int),
{
    let reference = a.references[row];
    let edge = a.def_uses[row];
    let node = a.nodes[reference.node as usize];
    let parent_kind = match node.parent {
        Some(parent) => a.strings[a.nodes[parent as usize].kind as usize].clone(),
        None => "program".to_string(),
    };
    NamingReferenceContext {
        node_id: node.id.to_hex(),
        role: role_label(reference.role).to_string(),
        resolution: resolution_label(edge.resolution).to_string(),
        parent_kind,
        target_symbol_id: target_id(a, edge.symbol),
    }
}

fn reference_contexts(a: &Analysis, row: usize) -> (list: Vec<NamingReferenceContext>)
    requires
        validate::rows_fit(*a),
        row < a.symbols@.len(),
    ensures
        super::reference_views(list@) == references_of(*a, row as int),
{
    let symbol = a.symbols[row];
    let first: usize = symbol.reference_first as usize;
    let total: usize = a.references.len();
    let limit: u32 = if symbol.reference_count > 24 {
        24
    } else {
        symbol.reference_count
    };
    let mut list: Vec<NamingReferenceContext> = Vec::new();
    let mut k: u32 = 0;
    while k < limit
        invariant
            validate::rows_fit(*a),
            total == a.references@.len(),
            first + limit <= total,
            k <= limit,
            list@.len() == k,
            forall|j: int| 0 <= j < k ==> (#[trigger] list@[j])@ == reference_of(*a, first + j),
        decreases limit - k,
    {
        assert(first + k < total);
        list.push(reference_context(a, first + k as usize));
        k += 1;
    }
    assert(super::reference_views(list@) =~= references_of(*a, row as int));
    list
}

fn is_own_call(a: &Analysis, row: usize, call: &AnalysisCall) -> (r: bool)
    requires
        row < a.symbols@.len(),
    ensures
        r == is_call_of(*a, row as int, *call),
{
    let symbol = a.symbols[row];
    if same_symbol(call.target_symbol, row as u32) {
        return true;
    }
    match call.callee_reference {
        Some(reference) => reference >= symbol.reference_first && (reference
            - symbol.reference_first) < symbol.reference_count,
        None => false,
    }
}

/// The first calls of a symbol, and whether there are more.
fn call_contexts(a: &Analysis, row: usize) -> (r: (Vec<NamingCallContext>, bool))
    requires
        validate::rows_fit(*a),
        row < a.symbols@.len(),
    ensures
        super::call_views(r.0@) == first_few(calls_of(*a, row as int), 16),
        r.1 == (calls_of(*a, row as int).len() > 16),
{
    let mut list: Vec<NamingCallContext> = Vec::new();
    let mut more = false;
    let mut i: usize = 0;
    assert(super::call_views(list@) =~= first_few(calls_upto(*a, row as int, 0), 16));
    while i < a.calls.len()
        invariant
            validate::rows_fit(*a),
            row < a.symbols@.len(),
            i <= a.calls@.len(),
            super::call_views(list@) == first_few(calls_upto(*a, row as int, i as int), 16),
            more == (calls_upto(*a, row as int, i as int).len() > 16),
        decreases a.calls@.len() - i,
    {
        let call = a.calls[i];
        if is_own_call(a, row, &call) {
            let ghost before = list@;
            let ghost shorter = calls_upto(*a, row as int, i as int);
            let ghost longer = calls_upto(*a, row as int, i + 1);
            assert(super::call_views(before).len() == before.len());
            if list.len() < 16 {
                let context = NamingCallContext {
                    node_id: a.nodes[call.node as usize].id.to_hex(),
                    kind: call_label(call.kind).to_string(),
                    target_symbol_id: target_id(a, call.target_symbol),
                };
                assert(context@ == call_of(*a, call));
                list.push(context);
                assert(super::call_views(list@) =~= super::call_views(before).push(
                    call_of(*a, call),
                ));
                assert(super::call_views(list@) =~= first_few(longer, 16));
            } else {
                more = true;
                assert(first_few(longer, 16) =~= first_few(shorter, 16));
            }
        }
        i += 1;
    }
    (list, more)
}

fn entry(a: &Analysis, row: usize, generated: bool) -> (entry: SemanticNameEntry)
    requires
        validate::rows_fit(*a),
        row < a.symbols@.len(),
    ensures
        entry@ == entry_of(*a, row as int, generated),
{
    let symbol = a.symbols[row];
    let declaration_row = semantic_container(a, symbol.declaration_node as usize);
    let declaration = a.nodes[declaration_row];
    let scope = a.scopes[symbol.scope as usize];
    let (child_kinds, truncated) = children_of_node(a, declaration_row);
    let (calls, calls_truncated) = call_contexts(a, row);
    SemanticNameEntry {
        symbol_id: symbol.id.to_hex(),
        state: NameState::Unknown,
        semantic_name: None,
        generated_name: if generated {
            Some(a.strings[symbol.name as usize].clone())
        } else {
            None
        },
        kind: symbol_label(symbol.kind).to_string(),
        scope: NamingScope {
            id: scope.id.to_hex(),
            kind: scope_label(scope.kind).to_string(),
            depth: scope.depth,
            ancestor_kinds: ancestors_of_scope(a, symbol.scope as usize),
        },
        declaration: NamingDeclaration {
            node_id: declaration.id.to_hex(),
            kind: a.strings[declaration.kind as usize].clone(),
            start_byte: declaration.start_byte,
            end_byte: declaration.end_byte,
            ancestor_kinds: ancestors_of_node(a, declaration_row),
            child_kinds,
            truncated,
        },
        usage: usage(a, row),
        references: reference_contexts(a, row),
        references_truncated: symbol.reference_count > 24,
        calls,
        calls_truncated,
        provenance: None,
    }
}

fn symbol_ids(a: &Analysis) -> (ids: Vec<String>)
    ensures
        text::views(ids@) == symbol_texts(*a),
        ids@.len() == a.symbols@.len(),
{
    let mut ids: Vec<String> = Vec::new();
    let mut i: usize = 0;
    while i < a.symbols.len()
        invariant
            i <= a.symbols@.len(),
            ids@.len() == i,
            forall|k: int|
                0 <= k < i ==> (#[trigger] ids@[k])@ == text::hex_of(a.symbols@[k].id.0@),
        decreases a.symbols@.len() - i,
    {
        ids.push(a.symbols[i].id.to_hex());
        i += 1;
    }
    assert(text::views(ids@) =~= symbol_texts(*a));
    ids
}

fn identity(a: &Analysis) -> (identity: NamingIdentity)
    ensures
        identity@ == identity_of(*a),
{
    NamingIdentity {
        profile: a.profile.clone(),
        format_version: a.version,
        source_digest: hex_text(a.source_digest.as_slice()),
        analysis_digest: json::analysis_digest(a),
        producer: a.producer.clone(),
        producer_version: a.producer_version.clone(),
        language: language_label(a.language).to_string(),
        frontend: a.frontend.clone(),
        frontend_version: a.frontend_version.clone(),
        source_length: a.source_length,
    }
}

fn same_identity(a: &NamingIdentity, b: &NamingIdentity) -> (r: bool)
    ensures
        r == (a@ == b@),
{
    same_text(a.profile.as_str(), b.profile.as_str()) && a.format_version == b.format_version
        && same_text(a.source_digest.as_str(), b.source_digest.as_str()) && same_text(
        a.analysis_digest.as_str(),
        b.analysis_digest.as_str(),
    ) && same_text(a.producer.as_str(), b.producer.as_str()) && same_text(
        a.producer_version.as_str(),
        b.producer_version.as_str(),
    ) && same_text(a.language.as_str(), b.language.as_str()) && same_text(
        a.frontend.as_str(),
        b.frontend.as_str(),
    ) && same_text(a.frontend_version.as_str(), b.frontend_version.as_str()) && a.source_length
        == b.source_length
}

fn same_texts(a: &Vec<String>, b: &Vec<String>) -> (r: bool)
    ensures
        r == (text::views(a@) == text::views(b@)),
{
    let ghost x = text::views(a@);
    let ghost y = text::views(b@);
    assert(x.len() == a@.len() && y.len() == b@.len());
    if a.len() != b.len() {
        return false;
    }
    let mut i: usize = 0;
    while i < a.len()
        invariant
            x == text::views(a@),
            y == text::views(b@),
            a@.len() == b@.len(),
            i <= a@.len(),
            forall|k: int| 0 <= k < i ==> #[trigger] x[k] == y[k],
        decreases a@.len() - i,
    {
        assert(x[i as int] == a@[i as int]@ && y[i as int] == b@[i as int]@);
        if !same_text(a[i].as_str(), b[i].as_str()) {
            return false;
        }
        i += 1;
    }
    assert(x =~= y);
    true
}

fn same_references(a: &Vec<NamingReferenceContext>, b: &Vec<NamingReferenceContext>) -> (r: bool)
    ensures
        r == (super::reference_views(a@) == super::reference_views(b@)),
{
    let ghost x = super::reference_views(a@);
    let ghost y = super::reference_views(b@);
    assert(x.len() == a@.len() && y.len() == b@.len());
    if a.len() != b.len() {
        return false;
    }
    let mut i: usize = 0;
    while i < a.len()
        invariant
            x == super::reference_views(a@),
            y == super::reference_views(b@),
            a@.len() == b@.len(),
            i <= a@.len(),
            forall|k: int| 0 <= k < i ==> #[trigger] x[k] == y[k],
        decreases a@.len() - i,
    {
        assert(x[i as int] == a@[i as int]@ && y[i as int] == b@[i as int]@);
        let (left, right) = (&a[i], &b[i]);
        if !(same_text(left.node_id.as_str(), right.node_id.as_str()) && same_text(
            left.role.as_str(),
            right.role.as_str(),
        ) && same_text(left.resolution.as_str(), right.resolution.as_str()) && same_text(
            left.parent_kind.as_str(),
            right.parent_kind.as_str(),
        ) && same_optional(&left.target_symbol_id, &right.target_symbol_id)) {
            return false;
        }
        i += 1;
    }
    assert(x =~= y);
    true
}

fn same_calls(a: &Vec<NamingCallContext>, b: &Vec<NamingCallContext>) -> (r: bool)
    ensures
        r == (super::call_views(a@) == super::call_views(b@)),
{
    let ghost x = super::call_views(a@);
    let ghost y = super::call_views(b@);
    assert(x.len() == a@.len() && y.len() == b@.len());
    if a.len() != b.len() {
        return false;
    }
    let mut i: usize = 0;
    while i < a.len()
        invariant
            x == super::call_views(a@),
            y == super::call_views(b@),
            a@.len() == b@.len(),
            i <= a@.len(),
            forall|k: int| 0 <= k < i ==> #[trigger] x[k] == y[k],
        decreases a@.len() - i,
    {
        assert(x[i as int] == a@[i as int]@ && y[i as int] == b@[i as int]@);
        let (left, right) = (&a[i], &b[i]);
        if !(same_text(left.node_id.as_str(), right.node_id.as_str()) && same_text(
            left.kind.as_str(),
            right.kind.as_str(),
        ) && same_optional(&left.target_symbol_id, &right.target_symbol_id)) {
            return false;
        }
        i += 1;
    }
    assert(x =~= y);
    true
}

/// Whether two entries agree in all but what was decided, where nothing was
/// decided about the second.
fn same_context(a: &SemanticNameEntry, b: &SemanticNameEntry) -> (r: bool)
    requires
        b@ == undecided(b@),
    ensures
        r == (undecided(a@) == b@),
{
    let same_scope = same_text(a.scope.id.as_str(), b.scope.id.as_str()) && same_text(
        a.scope.kind.as_str(),
        b.scope.kind.as_str(),
    ) && a.scope.depth == b.scope.depth && same_texts(
        &a.scope.ancestor_kinds,
        &b.scope.ancestor_kinds,
    );
    assert(same_scope == (a.scope@ == b.scope@));
    let same_declaration = same_text(
        a.declaration.node_id.as_str(),
        b.declaration.node_id.as_str(),
    ) && same_text(a.declaration.kind.as_str(), b.declaration.kind.as_str())
        && a.declaration.start_byte == b.declaration.start_byte && a.declaration.end_byte
        == b.declaration.end_byte && same_texts(
        &a.declaration.ancestor_kinds,
        &b.declaration.ancestor_kinds,
    ) && same_texts(&a.declaration.child_kinds, &b.declaration.child_kinds)
        && a.declaration.truncated == b.declaration.truncated;
    assert(same_declaration == (a.declaration@ == b.declaration@));
    same_text(a.symbol_id.as_str(), b.symbol_id.as_str()) && same_optional(
        &a.generated_name,
        &b.generated_name,
    ) && same_text(a.kind.as_str(), b.kind.as_str()) && same_scope && same_declaration && a.usage
        == b.usage && same_references(&a.references, &b.references) && a.references_truncated
        == b.references_truncated && same_calls(&a.calls, &b.calls) && a.calls_truncated
        == b.calls_truncated
}

impl SemanticNameDocument {
    /// The document of an analysis, with or without the names that the source
    /// has.
    pub fn from_analysis(analysis: &Analysis, include_generated: bool) -> (r: Result<
        Self,
        NamingError,
    >)
        ensures
            match (r, creation_fault(*analysis, include_generated)) {
                (Ok(document), None) => document@ == document_of(*analysis, include_generated),
                (Err(error), Some(fault)) => error == fault,
                _ => false,
            },
    {
        match analysis.validate() {
            Ok(()) => {},
            Err(error) => {
                return Err(NamingError::Analysis(error));
            },
        }
        proof {
            validate::lemma_valid_rows_fit(*analysis);
        }
        let ids = symbol_ids(analysis);
        let order = text_order(&ids);
        let ghost keys = order::text_keys(symbol_texts(*analysis));
        let ghost all = Seq::new(
            analysis.symbols@.len(),
            |row: int| entry_of(*analysis, row, include_generated),
        );
        assert(keys.len() == analysis.symbols@.len());
        let mut symbols: Vec<SemanticNameEntry> = Vec::new();
        let mut j: usize = 0;
        while j < order.len()
            invariant
                validate::rows_fit(*analysis),
                keys == order::text_keys(symbol_texts(*analysis)),
                keys.len() == analysis.symbols@.len(),
                order::is_stable_order(keys, 0, keys.len() as int, order@),
                forall|k: int|
                    0 <= k < order@.len() ==> #[trigger] order@[k] == order::row_at(keys, k),
                j <= order@.len(),
                symbols@.len() == j,
                forall|k: int|
                    0 <= k < j ==> (#[trigger] symbols@[k])@ == entry_of(
                        *analysis,
                        order::row_at(keys, k),
                        include_generated,
                    ),
            decreases order@.len() - j,
        {
            assert(order@[j as int] == order::row_at(keys, j as int));
            symbols.push(entry(analysis, order[j], include_generated));
            j += 1;
        }
        proof {
            order::lemma_ranks(keys, order@);
            order::lemma_rank_is_bijective(keys);
            assert forall|k: int| 0 <= k < symbols@.len() implies super::entry_views(symbols@)[k]
                == #[trigger] entries_of(*analysis, include_generated)[k] by {
                assert(0 <= order::row_at(keys, k) < keys.len());
            }
            assert(super::entry_views(symbols@) =~= entries_of(*analysis, include_generated));
        }
        let events: Vec<super::NameEvent> = Vec::new();
        let document = SemanticNameDocument {
            format: FORMAT.to_string(),
            revision: 0,
            instructions: INSTRUCTIONS.to_string(),
            analysis: identity(analysis),
            redacted: !include_generated,
            symbols,
            events,
        };
        assert(super::event_views(document.events@) =~= Seq::empty());
        match document.validate() {
            Ok(()) => Ok(document),
            Err(error) => Err(error),
        }
    }

    fn check_symbol_set(&self, analysis: &Analysis) -> (r: bool)
        ensures
            r == has_the_symbols(self@, *analysis),
    {
        let ids = symbol_ids(analysis);
        let ghost texts = symbol_texts(*analysis);
        let mut set = StringHashSet::new();
        let mut i: usize = 0;
        assert(texts.take(0).to_set() =~= Set::empty());
        while i < ids.len()
            invariant
                text::views(ids@) == texts,
                texts.len() == ids@.len(),
                i <= ids@.len(),
                set@ == texts.take(i as int).to_set(),
            decreases ids@.len() - i,
        {
            assert(texts[i as int] == ids@[i as int]@);
            let ghost before = set@;
            set.insert(ids[i].clone());
            proof {
                let shorter = texts.take(i as int);
                let longer = texts.take(i + 1);
                assert(longer =~= shorter.push(texts[i as int]));
                assert forall|id: Seq<char>| set@.contains(id) == longer.to_set().contains(id) by {
                    if longer.contains(id) {
                        let k = choose|k: int| 0 <= k < longer.len() && longer[k] == id;
                        if k < i {
                            assert(shorter[k] == id);
                        }
                    }
                    if shorter.contains(id) {
                        let k = choose|k: int| 0 <= k < shorter.len() && shorter[k] == id;
                        assert(longer[k] == id);
                    }
                    assert(longer[i as int] == texts[i as int]);
                }
                assert(set@ =~= longer.to_set());
            }
            i += 1;
        }
        assert(texts.take(i as int) =~= texts);
        assert(self@.symbols.len() == self.symbols@.len());
        if set.len() != self.symbols.len() {
            return false;
        }
        let mut k: usize = 0;
        while k < self.symbols.len()
            invariant
                set@ == texts.to_set(),
                texts == symbol_texts(*analysis),
                k <= self.symbols@.len(),
                self@.symbols.len() == self.symbols@.len(),
                forall|j: int|
                    0 <= j < k ==> texts.contains((#[trigger] self@.symbols[j]).symbol_id),
            decreases self.symbols@.len() - k,
        {
            assert(self@.symbols[k as int] == self.symbols@[k as int]@);
            if !set.contains(self.symbols[k].symbol_id.as_str()) {
                assert(!texts.contains(self@.symbols[k as int].symbol_id));
                return false;
            }
            k += 1;
        }
        true
    }

    /// Checks that a document belongs to an analysis and differs from a fresh
    /// one only in what was decided.
    pub fn validate_against(&self, analysis: &Analysis) -> (r: Result<(), NamingError>)
        ensures
            r == super::outcome(binding_fault(self@, *analysis)),
    {
        self.validate()?;
        match analysis.validate() {
            Ok(()) => {},
            Err(error) => {
                return Err(NamingError::Analysis(error));
            },
        }
        let expected = identity(analysis);
        if !same_identity(&self.analysis, &expected) {
            return Err(NamingError::DifferentAnalysis);
        }
        if !self.check_symbol_set(analysis) {
            return Err(NamingError::SymbolSet);
        }
        let baseline = match SemanticNameDocument::from_analysis(analysis, !self.redacted) {
            Ok(baseline) => baseline,
            Err(error) => {
                return Err(error);
            },
        };
        let ghost fresh = entries_of(*analysis, !self.redacted);
        let mut i: usize = 0;
        proof {
            assert(baseline@.symbols == fresh);
            assert(fresh.len() == analysis.symbols@.len());
            assert(super::entry_views(baseline.symbols@).len() == baseline.symbols@.len());
            order::lemma_rank_is_bijective(order::text_keys(symbol_texts(*analysis)));
        }
        while i < self.symbols.len() && i < baseline.symbols.len()
            invariant
                rules::document_fault(self@) is None,
                analysis_error(*analysis) is None,
                self@.analysis == identity_of(*analysis),
                has_the_symbols(self@, *analysis),
                creation_fault(*analysis, !self.redacted) is None,
                i <= self.symbols@.len(),
                fresh == entries_of(*analysis, !self.redacted),
                fresh == super::entry_views(baseline.symbols@),
                fresh.len() == baseline.symbols@.len(),
                fresh.len() == analysis.symbols@.len(),
                forall|j: int|
                    0 <= j < fresh.len() ==> 0 <= #[trigger] order::row_at(
                        order::text_keys(symbol_texts(*analysis)),
                        j,
                    ) < fresh.len(),
                forall|j: int|
                    0 <= j < i ==> undecided(#[trigger] self@.symbols[j]) == fresh[j],
            decreases self.symbols@.len() - i,
        {
            assert(self@.symbols[i as int] == self.symbols@[i as int]@);
            assert(fresh[i as int] == baseline.symbols@[i as int]@);
            assert(0 <= order::row_at(order::text_keys(symbol_texts(*analysis)), i as int)
                < fresh.len());
            assert(fresh[i as int] == undecided(fresh[i as int]));
            if !same_context(&self.symbols[i], &baseline.symbols[i]) {
                assert(!context_is_kept(self@, *analysis));
                return Err(NamingError::ContextModified);
            }
            i += 1;
        }
        Ok(())
    }
}

} // verus!
