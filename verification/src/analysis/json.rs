//! The serialized form of an analysis: compact JSON, its fields in the order
//! in which they are declared.

use vstd::prelude::*;
use vstd::string::*;
use vstd::utf8::*;

use super::{
    Analysis, AnalysisCall, AnalysisCallKind, AnalysisDefUse, AnalysisNode, AnalysisReference,
    AnalysisReferenceRole, AnalysisResolution, AnalysisScope, AnalysisScopeKind, AnalysisSymbol,
    AnalysisSymbolKind, Language, LossCode, LossRecord,
};
use crate::digest::sha256;
use crate::json::{array_text, json_string, number_text, row_text};
use crate::text::{decimal_text, hex_text};

use crate::json::{array_of, row_of, string_of};
use crate::{digest, text};

verus! {

/// The name of a scope kind.
pub open spec fn scope_kind_of(kind: AnalysisScopeKind) -> Seq<char> {
    match kind {
        AnalysisScopeKind::Global => "Global"@,
        AnalysisScopeKind::Function => "Function"@,
        AnalysisScopeKind::Block => "Block"@,
        AnalysisScopeKind::Class => "Class"@,
        AnalysisScopeKind::Module => "Module"@,
    }
}

fn scope_kind_name(kind: AnalysisScopeKind) -> (name: &'static str)
    ensures
        name@ == scope_kind_of(kind),
{
    match kind {
        AnalysisScopeKind::Global => "Global",
        AnalysisScopeKind::Function => "Function",
        AnalysisScopeKind::Block => "Block",
        AnalysisScopeKind::Class => "Class",
        AnalysisScopeKind::Module => "Module",
    }
}

/// The name of a symbol kind.
pub open spec fn symbol_kind_of(kind: AnalysisSymbolKind) -> Seq<char> {
    match kind {
        AnalysisSymbolKind::Function => "Function"@,
        AnalysisSymbolKind::Var => "Var"@,
        AnalysisSymbolKind::Let => "Let"@,
        AnalysisSymbolKind::Const => "Const"@,
        AnalysisSymbolKind::Parameter => "Parameter"@,
        AnalysisSymbolKind::Class => "Class"@,
        AnalysisSymbolKind::Import => "Import"@,
        AnalysisSymbolKind::Catch => "Catch"@,
    }
}

fn symbol_kind_name(kind: AnalysisSymbolKind) -> (name: &'static str)
    ensures
        name@ == symbol_kind_of(kind),
{
    match kind {
        AnalysisSymbolKind::Function => "Function",
        AnalysisSymbolKind::Var => "Var",
        AnalysisSymbolKind::Let => "Let",
        AnalysisSymbolKind::Const => "Const",
        AnalysisSymbolKind::Parameter => "Parameter",
        AnalysisSymbolKind::Class => "Class",
        AnalysisSymbolKind::Import => "Import",
        AnalysisSymbolKind::Catch => "Catch",
    }
}

/// The name of a reference role.
pub open spec fn role_of(role: AnalysisReferenceRole) -> Seq<char> {
    match role {
        AnalysisReferenceRole::Read => "Read"@,
        AnalysisReferenceRole::Write => "Write"@,
        AnalysisReferenceRole::ReadWrite => "ReadWrite"@,
        AnalysisReferenceRole::Call => "Call"@,
        AnalysisReferenceRole::Construct => "Construct"@,
        AnalysisReferenceRole::Export => "Export"@,
    }
}

fn role_name(role: AnalysisReferenceRole) -> (name: &'static str)
    ensures
        name@ == role_of(role),
{
    match role {
        AnalysisReferenceRole::Read => "Read",
        AnalysisReferenceRole::Write => "Write",
        AnalysisReferenceRole::ReadWrite => "ReadWrite",
        AnalysisReferenceRole::Call => "Call",
        AnalysisReferenceRole::Construct => "Construct",
        AnalysisReferenceRole::Export => "Export",
    }
}

/// The name of a resolution.
pub open spec fn resolution_of(resolution: AnalysisResolution) -> Seq<char> {
    match resolution {
        AnalysisResolution::Resolved => "Resolved"@,
        AnalysisResolution::Unresolved => "Unresolved"@,
        AnalysisResolution::Ambiguous => "Ambiguous"@,
    }
}

fn resolution_name(resolution: AnalysisResolution) -> (name: &'static str)
    ensures
        name@ == resolution_of(resolution),
{
    match resolution {
        AnalysisResolution::Resolved => "Resolved",
        AnalysisResolution::Unresolved => "Unresolved",
        AnalysisResolution::Ambiguous => "Ambiguous",
    }
}

/// The name of a call kind.
pub open spec fn call_kind_of(kind: AnalysisCallKind) -> Seq<char> {
    match kind {
        AnalysisCallKind::Direct => "Direct"@,
        AnalysisCallKind::Member => "Member"@,
        AnalysisCallKind::Construct => "Construct"@,
        AnalysisCallKind::Dynamic => "Dynamic"@,
    }
}

fn call_kind_name(kind: AnalysisCallKind) -> (name: &'static str)
    ensures
        name@ == call_kind_of(kind),
{
    match kind {
        AnalysisCallKind::Direct => "Direct",
        AnalysisCallKind::Member => "Member",
        AnalysisCallKind::Construct => "Construct",
        AnalysisCallKind::Dynamic => "Dynamic",
    }
}

/// The name of a loss.
pub open spec fn loss_of(code: LossCode) -> Seq<char> {
    match code {
        LossCode::SourceMapLineageUnavailable => "SourceMapLineageUnavailable"@,
        LossCode::FingerprintEvidenceUnavailable => "FingerprintEvidenceUnavailable"@,
        LossCode::DynamicCallTargetUnavailable => "DynamicCallTargetUnavailable"@,
        LossCode::TdzAndFlowResolutionUnavailable => "TdzAndFlowResolutionUnavailable"@,
        LossCode::DynamicScopeUnavailable => "DynamicScopeUnavailable"@,
    }
}

fn loss_name(code: LossCode) -> (name: &'static str)
    ensures
        name@ == loss_of(code),
{
    match code {
        LossCode::SourceMapLineageUnavailable => "SourceMapLineageUnavailable",
        LossCode::FingerprintEvidenceUnavailable => "FingerprintEvidenceUnavailable",
        LossCode::DynamicCallTargetUnavailable => "DynamicCallTargetUnavailable",
        LossCode::TdzAndFlowResolutionUnavailable => "TdzAndFlowResolutionUnavailable",
        LossCode::DynamicScopeUnavailable => "DynamicScopeUnavailable",
    }
}

/// The name of a language.
pub open spec fn language_of(language: Language) -> Seq<char> {
    match language {
        Language::JavaScript => "JavaScript"@,
    }
}

fn language_name(language: Language) -> (name: &'static str)
    ensures
        name@ == language_of(language),
{
    match language {
        Language::JavaScript => "JavaScript",
    }
}

/// A syntax node as a JSON object.
pub open spec fn node_of(node: AnalysisNode) -> Seq<char> {
    "{\"id\":\""@ + text::hex_of(node.id.0@) + "\",\"parent\":"@ + row_of(node.parent)
        + ",\"child_ordinal\":"@ + text::decimal_of(node.child_ordinal as nat) + ",\"kind\":"@
        + text::decimal_of(node.kind as nat) + ",\"start_byte\":"@
        + text::decimal_of(node.start_byte as nat) + ",\"end_byte\":"@
        + text::decimal_of(node.end_byte as nat) + ",\"flags\":"@
        + text::decimal_of(node.flags as nat) + "}"@
}

fn node_text(node: &AnalysisNode) -> (json: String)
    ensures
        json@ == node_of(*node),
{
    "{\"id\":\"".to_string()
        .concat(node.id.to_hex().as_str())
        .concat("\",\"parent\":")
        .concat(row_text(node.parent).as_str())
        .concat(",\"child_ordinal\":")
        .concat(number_text(node.child_ordinal).as_str())
        .concat(",\"kind\":")
        .concat(number_text(node.kind).as_str())
        .concat(",\"start_byte\":")
        .concat(decimal_text(node.start_byte).as_str())
        .concat(",\"end_byte\":")
        .concat(decimal_text(node.end_byte).as_str())
        .concat(",\"flags\":")
        .concat(number_text(node.flags as u32).as_str())
        .concat("}")
}

/// A scope as a JSON object.
pub open spec fn scope_of(scope: AnalysisScope) -> Seq<char> {
    "{\"id\":\""@ + text::hex_of(scope.id.0@) + "\",\"parent\":"@ + row_of(scope.parent)
        + ",\"kind\":\""@ + scope_kind_of(scope.kind) + "\",\"depth\":"@
        + text::decimal_of(scope.depth as nat) + ",\"start_byte\":"@
        + text::decimal_of(scope.start_byte as nat) + ",\"end_byte\":"@
        + text::decimal_of(scope.end_byte as nat) + "}"@
}

fn scope_text(scope: &AnalysisScope) -> (json: String)
    ensures
        json@ == scope_of(*scope),
{
    "{\"id\":\"".to_string()
        .concat(scope.id.to_hex().as_str())
        .concat("\",\"parent\":")
        .concat(row_text(scope.parent).as_str())
        .concat(",\"kind\":\"")
        .concat(scope_kind_name(scope.kind))
        .concat("\",\"depth\":")
        .concat(number_text(scope.depth).as_str())
        .concat(",\"start_byte\":")
        .concat(decimal_text(scope.start_byte).as_str())
        .concat(",\"end_byte\":")
        .concat(decimal_text(scope.end_byte).as_str())
        .concat("}")
}

/// A symbol as a JSON object.
pub open spec fn symbol_of(symbol: AnalysisSymbol) -> Seq<char> {
    "{\"id\":\""@ + text::hex_of(symbol.id.0@) + "\",\"declaration_node\":"@
        + text::decimal_of(symbol.declaration_node as nat) + ",\"scope\":"@
        + text::decimal_of(symbol.scope as nat) + ",\"name\":"@
        + text::decimal_of(symbol.name as nat) + ",\"kind\":\""@ + symbol_kind_of(symbol.kind)
        + "\",\"reference_first\":"@ + text::decimal_of(symbol.reference_first as nat)
        + ",\"reference_count\":"@ + text::decimal_of(symbol.reference_count as nat) + "}"@
}

fn symbol_text(symbol: &AnalysisSymbol) -> (json: String)
    ensures
        json@ == symbol_of(*symbol),
{
    "{\"id\":\"".to_string()
        .concat(symbol.id.to_hex().as_str())
        .concat("\",\"declaration_node\":")
        .concat(number_text(symbol.declaration_node).as_str())
        .concat(",\"scope\":")
        .concat(number_text(symbol.scope).as_str())
        .concat(",\"name\":")
        .concat(number_text(symbol.name).as_str())
        .concat(",\"kind\":\"")
        .concat(symbol_kind_name(symbol.kind))
        .concat("\",\"reference_first\":")
        .concat(number_text(symbol.reference_first).as_str())
        .concat(",\"reference_count\":")
        .concat(number_text(symbol.reference_count).as_str())
        .concat("}")
}

/// A reference as a JSON object.
pub open spec fn reference_of(reference: AnalysisReference) -> Seq<char> {
    "{\"id\":\""@ + text::hex_of(reference.id.0@) + "\",\"node\":"@
        + text::decimal_of(reference.node as nat) + ",\"scope\":"@
        + text::decimal_of(reference.scope as nat) + ",\"name\":"@
        + text::decimal_of(reference.name as nat) + ",\"role\":\""@ + role_of(reference.role)
        + "\"}"@
}

fn reference_text(reference: &AnalysisReference) -> (json: String)
    ensures
        json@ == reference_of(*reference),
{
    "{\"id\":\"".to_string()
        .concat(reference.id.to_hex().as_str())
        .concat("\",\"node\":")
        .concat(number_text(reference.node).as_str())
        .concat(",\"scope\":")
        .concat(number_text(reference.scope).as_str())
        .concat(",\"name\":")
        .concat(number_text(reference.name).as_str())
        .concat(",\"role\":\"")
        .concat(role_name(reference.role))
        .concat("\"}")
}

/// A resolution record as a JSON object.
pub open spec fn def_use_of(def_use: AnalysisDefUse) -> Seq<char> {
    "{\"id\":\""@ + text::hex_of(def_use.id.0@) + "\",\"reference\":"@
        + text::decimal_of(def_use.reference as nat) + ",\"symbol\":"@ + row_of(def_use.symbol)
        + ",\"resolution\":\""@ + resolution_of(def_use.resolution) + "\"}"@
}

fn def_use_text(def_use: &AnalysisDefUse) -> (json: String)
    ensures
        json@ == def_use_of(*def_use),
{
    "{\"id\":\"".to_string()
        .concat(def_use.id.to_hex().as_str())
        .concat("\",\"reference\":")
        .concat(number_text(def_use.reference).as_str())
        .concat(",\"symbol\":")
        .concat(row_text(def_use.symbol).as_str())
        .concat(",\"resolution\":\"")
        .concat(resolution_name(def_use.resolution))
        .concat("\"}")
}

/// A call as a JSON object.
pub open spec fn call_of(call: AnalysisCall) -> Seq<char> {
    "{\"id\":\""@ + text::hex_of(call.id.0@) + "\",\"node\":"@
        + text::decimal_of(call.node as nat) + ",\"callee_reference\":"@
        + row_of(call.callee_reference) + ",\"target_symbol\":"@ + row_of(call.target_symbol)
        + ",\"property\":"@ + row_of(call.property) + ",\"kind\":\""@ + call_kind_of(call.kind)
        + "\"}"@
}

fn call_text(call: &AnalysisCall) -> (json: String)
    ensures
        json@ == call_of(*call),
{
    "{\"id\":\"".to_string()
        .concat(call.id.to_hex().as_str())
        .concat("\",\"node\":")
        .concat(number_text(call.node).as_str())
        .concat(",\"callee_reference\":")
        .concat(row_text(call.callee_reference).as_str())
        .concat(",\"target_symbol\":")
        .concat(row_text(call.target_symbol).as_str())
        .concat(",\"property\":")
        .concat(row_text(call.property).as_str())
        .concat(",\"kind\":\"")
        .concat(call_kind_name(call.kind))
        .concat("\"}")
}

/// A loss record as a JSON object.
pub open spec fn loss_record_of(loss: LossRecord) -> Seq<char> {
    "{\"code\":\""@ + loss_of(loss.code) + "\",\"message\":"@
        + text::decimal_of(loss.message as nat) + "}"@
}

fn loss_record_text(loss: &LossRecord) -> (json: String)
    ensures
        json@ == loss_record_of(*loss),
{
    "{\"code\":\"".to_string()
        .concat(loss_name(loss.code))
        .concat("\",\"message\":")
        .concat(number_text(loss.message).as_str())
        .concat("}")
}

/// Bytes as a JSON array of numbers.
pub open spec fn bytes_of(bytes: Seq<u8>) -> Seq<char> {
    array_of(bytes.map_values(|byte: u8| text::decimal_of(byte as nat)))
}

fn bytes_text(bytes: &[u8]) -> (json: String)
    ensures
        json@ == bytes_of(bytes@),
{
    let mut values: Vec<String> = Vec::new();
    let mut i: usize = 0;
    while i < bytes.len()
        invariant
            i <= bytes@.len(),
            values@.len() == i,
            forall|k: int|
                #![auto]
                0 <= k < i ==> values@[k]@ == text::decimal_of(bytes@[k] as nat),
        decreases bytes@.len() - i,
    {
        values.push(number_text(bytes[i] as u32));
        i += 1;
    }
    assert(text::views(values@) =~= bytes@.map_values(|byte: u8| text::decimal_of(byte as nat)));
    array_text(&values)
}

/// Texts as a JSON array of strings.
pub open spec fn strings_of(strings: Seq<String>) -> Seq<char> {
    array_of(strings.map_values(|value: String| string_of(value@)))
}

fn strings_text(strings: &Vec<String>) -> (json: String)
    ensures
        json@ == strings_of(strings@),
{
    let mut values: Vec<String> = Vec::new();
    let mut i: usize = 0;
    while i < strings.len()
        invariant
            i <= strings@.len(),
            values@.len() == i,
            forall|k: int| #![auto] 0 <= k < i ==> values@[k]@ == string_of(strings@[k]@),
        decreases strings@.len() - i,
    {
        values.push(json_string(strings[i].as_str()));
        i += 1;
    }
    assert(text::views(values@) =~= strings@.map_values(|value: String| string_of(value@)));
    array_text(&values)
}

/// Syntax nodes as a JSON array.
pub open spec fn nodes_of(nodes: Seq<AnalysisNode>) -> Seq<char> {
    array_of(nodes.map_values(|node: AnalysisNode| node_of(node)))
}

fn nodes_text(nodes: &Vec<AnalysisNode>) -> (json: String)
    ensures
        json@ == nodes_of(nodes@),
{
    let mut values: Vec<String> = Vec::new();
    let mut i: usize = 0;
    while i < nodes.len()
        invariant
            i <= nodes@.len(),
            values@.len() == i,
            forall|k: int| #![auto] 0 <= k < i ==> values@[k]@ == node_of(nodes@[k]),
        decreases nodes@.len() - i,
    {
        values.push(node_text(&nodes[i]));
        i += 1;
    }
    assert(text::views(values@) =~= nodes@.map_values(|node: AnalysisNode| node_of(node)));
    array_text(&values)
}

/// Scopes as a JSON array.
pub open spec fn scopes_of(scopes: Seq<AnalysisScope>) -> Seq<char> {
    array_of(scopes.map_values(|scope: AnalysisScope| scope_of(scope)))
}

fn scopes_text(scopes: &Vec<AnalysisScope>) -> (json: String)
    ensures
        json@ == scopes_of(scopes@),
{
    let mut values: Vec<String> = Vec::new();
    let mut i: usize = 0;
    while i < scopes.len()
        invariant
            i <= scopes@.len(),
            values@.len() == i,
            forall|k: int| #![auto] 0 <= k < i ==> values@[k]@ == scope_of(scopes@[k]),
        decreases scopes@.len() - i,
    {
        values.push(scope_text(&scopes[i]));
        i += 1;
    }
    assert(text::views(values@) =~= scopes@.map_values(|scope: AnalysisScope| scope_of(scope)));
    array_text(&values)
}

/// Symbols as a JSON array.
pub open spec fn symbols_of(symbols: Seq<AnalysisSymbol>) -> Seq<char> {
    array_of(symbols.map_values(|symbol: AnalysisSymbol| symbol_of(symbol)))
}

fn symbols_text(symbols: &Vec<AnalysisSymbol>) -> (json: String)
    ensures
        json@ == symbols_of(symbols@),
{
    let mut values: Vec<String> = Vec::new();
    let mut i: usize = 0;
    while i < symbols.len()
        invariant
            i <= symbols@.len(),
            values@.len() == i,
            forall|k: int| #![auto] 0 <= k < i ==> values@[k]@ == symbol_of(symbols@[k]),
        decreases symbols@.len() - i,
    {
        values.push(symbol_text(&symbols[i]));
        i += 1;
    }
    assert(text::views(values@) =~= symbols@.map_values(
        |symbol: AnalysisSymbol| symbol_of(symbol),
    ));
    array_text(&values)
}

/// References as a JSON array.
pub open spec fn references_of(references: Seq<AnalysisReference>) -> Seq<char> {
    array_of(references.map_values(|reference: AnalysisReference| reference_of(reference)))
}

fn references_text(references: &Vec<AnalysisReference>) -> (json: String)
    ensures
        json@ == references_of(references@),
{
    let mut values: Vec<String> = Vec::new();
    let mut i: usize = 0;
    while i < references.len()
        invariant
            i <= references@.len(),
            values@.len() == i,
            forall|k: int| #![auto] 0 <= k < i ==> values@[k]@ == reference_of(references@[k]),
        decreases references@.len() - i,
    {
        values.push(reference_text(&references[i]));
        i += 1;
    }
    assert(text::views(values@) =~= references@.map_values(
        |reference: AnalysisReference| reference_of(reference),
    ));
    array_text(&values)
}

/// Resolution records as a JSON array.
pub open spec fn def_uses_of(def_uses: Seq<AnalysisDefUse>) -> Seq<char> {
    array_of(def_uses.map_values(|def_use: AnalysisDefUse| def_use_of(def_use)))
}

fn def_uses_text(def_uses: &Vec<AnalysisDefUse>) -> (json: String)
    ensures
        json@ == def_uses_of(def_uses@),
{
    let mut values: Vec<String> = Vec::new();
    let mut i: usize = 0;
    while i < def_uses.len()
        invariant
            i <= def_uses@.len(),
            values@.len() == i,
            forall|k: int| #![auto] 0 <= k < i ==> values@[k]@ == def_use_of(def_uses@[k]),
        decreases def_uses@.len() - i,
    {
        values.push(def_use_text(&def_uses[i]));
        i += 1;
    }
    assert(text::views(values@) =~= def_uses@.map_values(
        |def_use: AnalysisDefUse| def_use_of(def_use),
    ));
    array_text(&values)
}

/// Calls as a JSON array.
pub open spec fn calls_of(calls: Seq<AnalysisCall>) -> Seq<char> {
    array_of(calls.map_values(|call: AnalysisCall| call_of(call)))
}

fn calls_text(calls: &Vec<AnalysisCall>) -> (json: String)
    ensures
        json@ == calls_of(calls@),
{
    let mut values: Vec<String> = Vec::new();
    let mut i: usize = 0;
    while i < calls.len()
        invariant
            i <= calls@.len(),
            values@.len() == i,
            forall|k: int| #![auto] 0 <= k < i ==> values@[k]@ == call_of(calls@[k]),
        decreases calls@.len() - i,
    {
        values.push(call_text(&calls[i]));
        i += 1;
    }
    assert(text::views(values@) =~= calls@.map_values(|call: AnalysisCall| call_of(call)));
    array_text(&values)
}

/// Loss records as a JSON array.
pub open spec fn losses_of(losses: Seq<LossRecord>) -> Seq<char> {
    array_of(losses.map_values(|loss: LossRecord| loss_record_of(loss)))
}

fn losses_text(losses: &Vec<LossRecord>) -> (json: String)
    ensures
        json@ == losses_of(losses@),
{
    let mut values: Vec<String> = Vec::new();
    let mut i: usize = 0;
    while i < losses.len()
        invariant
            i <= losses@.len(),
            values@.len() == i,
            forall|k: int| #![auto] 0 <= k < i ==> values@[k]@ == loss_record_of(losses@[k]),
        decreases losses@.len() - i,
    {
        values.push(loss_record_text(&losses[i]));
        i += 1;
    }
    assert(text::views(values@) =~= losses@.map_values(|loss: LossRecord| loss_record_of(loss)));
    array_text(&values)
}

/// An analysis as compact JSON.
#[verifier::opaque]
pub open spec fn analysis_text_of(a: Analysis) -> Seq<char> {
    "{\"version\":"@ + text::decimal_of(a.version as nat) + ",\"profile\":"@
        + string_of(a.profile@) + ",\"producer\":"@ + string_of(a.producer@)
        + ",\"producer_version\":"@ + string_of(a.producer_version@) + ",\"language\":\""@
        + language_of(a.language) + "\",\"frontend\":"@ + string_of(a.frontend@)
        + ",\"frontend_version\":"@ + string_of(a.frontend_version@) + ",\"source_digest\":"@
        + bytes_of(a.source_digest@) + ",\"source_length\":"@
        + text::decimal_of(a.source_length as nat) + ",\"strings\":"@ + strings_of(a.strings@)
        + ",\"nodes\":"@ + nodes_of(a.nodes@) + ",\"scopes\":"@ + scopes_of(a.scopes@)
        + ",\"symbols\":"@ + symbols_of(a.symbols@) + ",\"references\":"@
        + references_of(a.references@) + ",\"def_uses\":"@ + def_uses_of(a.def_uses@)
        + ",\"calls\":"@ + calls_of(a.calls@) + ",\"losses\":"@ + losses_of(a.losses@) + "}"@
}

/// The digest of an analysis: that of its JSON form, spelled in hexadecimal.
pub open spec fn analysis_digest_of(a: Analysis) -> Seq<char> {
    text::hex_of(digest::sha256_of(encode_utf8(analysis_text_of(a))))
}

/// An analysis as compact JSON.
pub fn analysis_text(a: &Analysis) -> (json: String)
    ensures
        json@ == analysis_text_of(*a),
{
    reveal(analysis_text_of);
    "{\"version\":".to_string()
        .concat(number_text(a.version).as_str())
        .concat(",\"profile\":")
        .concat(json_string(a.profile.as_str()).as_str())
        .concat(",\"producer\":")
        .concat(json_string(a.producer.as_str()).as_str())
        .concat(",\"producer_version\":")
        .concat(json_string(a.producer_version.as_str()).as_str())
        .concat(",\"language\":\"")
        .concat(language_name(a.language))
        .concat("\",\"frontend\":")
        .concat(json_string(a.frontend.as_str()).as_str())
        .concat(",\"frontend_version\":")
        .concat(json_string(a.frontend_version.as_str()).as_str())
        .concat(",\"source_digest\":")
        .concat(bytes_text(a.source_digest.as_slice()).as_str())
        .concat(",\"source_length\":")
        .concat(decimal_text(a.source_length).as_str())
        .concat(",\"strings\":")
        .concat(strings_text(&a.strings).as_str())
        .concat(",\"nodes\":")
        .concat(nodes_text(&a.nodes).as_str())
        .concat(",\"scopes\":")
        .concat(scopes_text(&a.scopes).as_str())
        .concat(",\"symbols\":")
        .concat(symbols_text(&a.symbols).as_str())
        .concat(",\"references\":")
        .concat(references_text(&a.references).as_str())
        .concat(",\"def_uses\":")
        .concat(def_uses_text(&a.def_uses).as_str())
        .concat(",\"calls\":")
        .concat(calls_text(&a.calls).as_str())
        .concat(",\"losses\":")
        .concat(losses_text(&a.losses).as_str())
        .concat("}")
}

/// The digest of an analysis.
pub fn analysis_digest(a: &Analysis) -> (hex: String)
    ensures
        hex@ == analysis_digest_of(*a),
{
    hex_text(sha256(analysis_text(a).as_str().as_bytes()).as_slice())
}

} // verus!
