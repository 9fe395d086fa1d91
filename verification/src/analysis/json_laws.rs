//! The JSON form tells analyses apart.

use vstd::prelude::*;

use super::json::{
    analysis_text_of, bytes_of, call_kind_of, call_of, calls_of, def_use_of, def_uses_of,
    language_of, loss_of, loss_record_of, losses_of, node_of, nodes_of, reference_of, references_of,
    resolution_of, role_of, scope_kind_of, scope_of, scopes_of, strings_of, symbol_kind_of,
    symbol_of, symbols_of,
};
use super::{
    Analysis, AnalysisCall, AnalysisCallKind, AnalysisDefUse, AnalysisNode, AnalysisReference,
    AnalysisReferenceRole, AnalysisResolution, AnalysisScope, AnalysisScopeKind, AnalysisSymbol,
    AnalysisSymbolKind, LossCode, LossRecord,
};
use crate::json::{array_of, escaped, escaped_char, row_of, string_of};
use crate::text;

verus! {

/// Whether a character is none of those that a value stands behind.
spec fn is_plain(c: char) -> bool {
    c != ':' && c != '"' && c != '[' && c != ','
}

spec fn all_plain(t: Seq<char>) -> bool {
    forall|i: int| 0 <= i < t.len() ==> is_plain(#[trigger] t[i])
}

/// Whether a value can stand behind a text.
spec fn ends_open(t: Seq<char>) -> bool {
    t.len() > 0 && !is_plain(t.last())
}

/// Plain values at the ends of equal texts are the same.
proof fn lemma_plain_end(x: Seq<char>, v: Seq<char>, y: Seq<char>, w: Seq<char>)
    requires
        x + v == y + w,
        ends_open(x),
        ends_open(y),
        all_plain(v),
        all_plain(w),
    ensures
        x == y,
        v == w,
{
    let t = x + v;
    assert(t.len() == x.len() + v.len());
    assert(t.len() == y.len() + w.len());
    if v.len() < w.len() {
        assert(t[x.len() - 1] == x.last());
        assert(t[x.len() - 1] == w[x.len() - 1 - y.len()]);
    } else if w.len() < v.len() {
        assert((y + w)[y.len() - 1] == y.last());
        assert(t[y.len() - 1] == v[y.len() - 1 - x.len()]);
    }
    assert(x =~= t.take(x.len() as int));
    assert(y =~= t.take(x.len() as int));
    assert(v =~= t.skip(x.len() as int));
    assert(w =~= t.skip(x.len() as int));
}

/// Equal texts with the same end are the same before it.
proof fn lemma_same_end(x: Seq<char>, y: Seq<char>, end: Seq<char>)
    requires
        x + end == y + end,
    ensures
        x == y,
{
    assert((x + end).len() == x.len() + end.len());
    assert((y + end).len() == y.len() + end.len());
    assert(x =~= (x + end).take(x.len() as int));
    assert(y =~= (y + end).take(x.len() as int));
}

/// Equal texts whose last parts are the same are the same before them.
proof fn lemma_mark(x: Seq<char>, c: Seq<char>, y: Seq<char>, d: Seq<char>, mark: Seq<char>)
    requires
        x + (c + mark) == y + (d + mark),
    ensures
        x + c == y + d,
{
    assert(x + (c + mark) =~= x + c + mark);
    assert(y + (d + mark) =~= y + d + mark);
    lemma_same_end(x + c, y + d, mark);
}

/// Peels a label and a plain value off the end of equal texts.
proof fn lemma_field(
    x: Seq<char>,
    c: Seq<char>,
    v: Seq<char>,
    y: Seq<char>,
    d: Seq<char>,
    w: Seq<char>,
    label: Seq<char>,
)
    requires
        x + (c + label + v) == y + (d + label + w),
        ends_open(label),
        all_plain(v),
        all_plain(w),
    ensures
        x + c == y + d,
        v == w,
{
    assert(x + (c + label + v) =~= x + c + label + v);
    assert(y + (d + label + w) =~= y + d + label + w);
    assert((x + c + label).last() == label.last());
    assert((y + d + label).last() == label.last());
    lemma_plain_end(x + c + label, v, y + d + label, w);
    lemma_same_end(x + c, y + d, label);
}

/// Peels a first label and a plain value off the end of equal texts.
proof fn lemma_first(
    x: Seq<char>,
    v: Seq<char>,
    y: Seq<char>,
    w: Seq<char>,
    label: Seq<char>,
)
    requires
        x + (label + v) == y + (label + w),
        ends_open(label),
        all_plain(v),
        all_plain(w),
    ensures
        x == y,
        v == w,
{
    let none = Seq::<char>::empty();
    assert(none + label =~= label);
    lemma_field(x, none, v, y, none, w, label);
    assert(x + none =~= x);
    assert(y + none =~= y);
}

proof fn lemma_decimal(value: nat)
    ensures
        text::decimal_of(value).len() > 0,
        all_plain(text::decimal_of(value)),
        forall|i: int|
            0 <= i < text::decimal_of(value).len() ==> '0' <= (#[trigger] text::decimal_of(
                value,
            )[i]) <= '9',
    decreases value,
{
    if value >= 10 {
        lemma_decimal(value / 10);
    }
}

proof fn lemma_decimal_tells(a: nat, b: nat)
    requires
        text::decimal_of(a) == text::decimal_of(b),
    ensures
        a == b,
    decreases a,
{
    let v = text::decimal_of(a);
    let w = text::decimal_of(b);
    lemma_decimal(a / 10);
    lemma_decimal(b / 10);
    assert(v.last() == text::hex_digit(a as int % 10));
    assert(w.last() == text::hex_digit(b as int % 10));
    assert(a % 10 == b % 10);
    if a >= 10 && b >= 10 {
        assert(v.drop_last() =~= text::decimal_of(a / 10));
        assert(w.drop_last() =~= text::decimal_of(b / 10));
        lemma_decimal_tells(a / 10, b / 10);
    }
}

proof fn lemma_row(row: Option<u32>)
    ensures
        row_of(row).len() > 0,
        all_plain(row_of(row)),
        row_of(row)[0] == 'n' <==> row is None,
{
    reveal_strlit("null");
    if let Some(row) = row {
        lemma_decimal(row as nat);
    }
}

proof fn lemma_row_tells(a: Option<u32>, b: Option<u32>)
    requires
        row_of(a) == row_of(b),
    ensures
        a == b,
{
    lemma_row(a);
    lemma_row(b);
    if a is Some && b is Some {
        lemma_decimal_tells(a->0 as nat, b->0 as nat);
    }
}

proof fn lemma_hex(bytes: Seq<u8>)
    requires
        bytes.len() == 32,
    ensures
        all_plain(text::hex_of(bytes)),
{
    text::lemma_hex_spells_digest(bytes);
    assert forall|i: int| 0 <= i < text::hex_of(bytes).len() implies is_plain(
        #[trigger] text::hex_of(bytes)[i],
    ) by {
        assert(text::is_hex_char(text::hex_of(bytes)[i]));
    }
}

/// Peels a label and a row number off the end of equal texts.
proof fn lemma_row_field(
    x: Seq<char>,
    c: Seq<char>,
    v: Option<u32>,
    y: Seq<char>,
    d: Seq<char>,
    w: Option<u32>,
    label: Seq<char>,
)
    requires
        x + (c + label + row_of(v)) == y + (d + label + row_of(w)),
        ends_open(label),
    ensures
        x + c == y + d,
        v == w,
{
    lemma_row(v);
    lemma_row(w);
    lemma_field(x, c, row_of(v), y, d, row_of(w), label);
    lemma_row_tells(v, w);
}

/// Peels a label and a number off the end of equal texts.
proof fn lemma_number_field(
    x: Seq<char>,
    c: Seq<char>,
    v: nat,
    y: Seq<char>,
    d: Seq<char>,
    w: nat,
    label: Seq<char>,
)
    requires
        x + (c + label + text::decimal_of(v)) == y + (d + label + text::decimal_of(w)),
        ends_open(label),
    ensures
        x + c == y + d,
        v == w,
{
    lemma_decimal(v);
    lemma_decimal(w);
    lemma_field(x, c, text::decimal_of(v), y, d, text::decimal_of(w), label);
    lemma_decimal_tells(v, w);
}

/// Peels a first label and an identity off the end of equal texts.
proof fn lemma_id_field(
    x: Seq<char>,
    v: super::StableId,
    y: Seq<char>,
    w: super::StableId,
    label: Seq<char>,
)
    requires
        x + (label + text::hex_of(v.0@)) == y + (label + text::hex_of(w.0@)),
        ends_open(label),
    ensures
        x == y,
        v == w,
{
    lemma_hex(v.0@);
    lemma_hex(w.0@);
    lemma_first(x, text::hex_of(v.0@), y, text::hex_of(w.0@), label);
    text::lemma_hex_is_injective(v.0@, w.0@);
    assert(v.0 =~= w.0);
}


proof fn lemma_scope_kind(a: AnalysisScopeKind, b: AnalysisScopeKind)
    ensures
        all_plain(scope_kind_of(a)),
        scope_kind_of(a) == scope_kind_of(b) ==> a == b,
{
    reveal_strlit("Global");
    reveal_strlit("Function");
    reveal_strlit("Block");
    reveal_strlit("Class");
    reveal_strlit("Module");
    let v = scope_kind_of(a);
    let w = scope_kind_of(b);
    if v == w {
        assert(v.len() == w.len());
        assert(v[0] == w[0]);
        assert(v[1] == w[1]);
    }
}

proof fn lemma_symbol_kind(a: AnalysisSymbolKind, b: AnalysisSymbolKind)
    ensures
        all_plain(symbol_kind_of(a)),
        symbol_kind_of(a) == symbol_kind_of(b) ==> a == b,
{
    reveal_strlit("Function");
    reveal_strlit("Var");
    reveal_strlit("Let");
    reveal_strlit("Const");
    reveal_strlit("Parameter");
    reveal_strlit("Class");
    reveal_strlit("Import");
    reveal_strlit("Catch");
    let v = symbol_kind_of(a);
    let w = symbol_kind_of(b);
    if v == w {
        assert(v.len() == w.len());
        assert(v[0] == w[0]);
        assert(v[1] == w[1]);
    }
}

proof fn lemma_role(a: AnalysisReferenceRole, b: AnalysisReferenceRole)
    ensures
        all_plain(role_of(a)),
        role_of(a) == role_of(b) ==> a == b,
{
    reveal_strlit("Read");
    reveal_strlit("Write");
    reveal_strlit("ReadWrite");
    reveal_strlit("Call");
    reveal_strlit("Construct");
    reveal_strlit("Export");
    let v = role_of(a);
    let w = role_of(b);
    if v == w {
        assert(v.len() == w.len());
        assert(v[0] == w[0]);
        assert(v[1] == w[1]);
    }
}

proof fn lemma_resolution(a: AnalysisResolution, b: AnalysisResolution)
    ensures
        all_plain(resolution_of(a)),
        resolution_of(a) == resolution_of(b) ==> a == b,
{
    reveal_strlit("Resolved");
    reveal_strlit("Unresolved");
    reveal_strlit("Ambiguous");
    let v = resolution_of(a);
    let w = resolution_of(b);
    if v == w {
        assert(v.len() == w.len());
        assert(v[0] == w[0]);
        assert(v[1] == w[1]);
    }
}

proof fn lemma_call_kind(a: AnalysisCallKind, b: AnalysisCallKind)
    ensures
        all_plain(call_kind_of(a)),
        call_kind_of(a) == call_kind_of(b) ==> a == b,
{
    reveal_strlit("Direct");
    reveal_strlit("Member");
    reveal_strlit("Construct");
    reveal_strlit("Dynamic");
    let v = call_kind_of(a);
    let w = call_kind_of(b);
    if v == w {
        assert(v.len() == w.len());
        assert(v[0] == w[0]);
        assert(v[1] == w[1]);
    }
}

proof fn lemma_loss(a: LossCode, b: LossCode)
    ensures
        all_plain(loss_of(a)),
        loss_of(a) == loss_of(b) ==> a == b,
{
    reveal_strlit("SourceMapLineageUnavailable");
    reveal_strlit("FingerprintEvidenceUnavailable");
    reveal_strlit("DynamicCallTargetUnavailable");
    reveal_strlit("TdzAndFlowResolutionUnavailable");
    reveal_strlit("DynamicScopeUnavailable");
    let v = loss_of(a);
    let w = loss_of(b);
    if v == w {
        assert(v.len() == w.len());
        assert(v[0] == w[0]);
        assert(v[1] == w[1]);
    }
}

/// Peels a row off the end of equal texts.
proof fn lemma_node_end(x: Seq<char>, a: AnalysisNode, y: Seq<char>, b: AnalysisNode)
    requires
        x + node_of(a) == y + node_of(b),
    ensures
        x == y,
        a == b,
{
    reveal_strlit("{\"id\":\"");
    reveal_strlit("\",\"parent\":");
    reveal_strlit(",\"child_ordinal\":");
    reveal_strlit(",\"kind\":");
    reveal_strlit(",\"start_byte\":");
    reveal_strlit(",\"end_byte\":");
    reveal_strlit(",\"flags\":");
    let c0 = "{\"id\":\""@ + text::hex_of(a.id.0@);
    let d0 = "{\"id\":\""@ + text::hex_of(b.id.0@);
    let c1 = c0 + "\",\"parent\":"@ + row_of(a.parent);
    let d1 = d0 + "\",\"parent\":"@ + row_of(b.parent);
    let c2 = c1 + ",\"child_ordinal\":"@ + text::decimal_of(a.child_ordinal as nat);
    let d2 = d1 + ",\"child_ordinal\":"@ + text::decimal_of(b.child_ordinal as nat);
    let c3 = c2 + ",\"kind\":"@ + text::decimal_of(a.kind as nat);
    let d3 = d2 + ",\"kind\":"@ + text::decimal_of(b.kind as nat);
    let c4 = c3 + ",\"start_byte\":"@ + text::decimal_of(a.start_byte as nat);
    let d4 = d3 + ",\"start_byte\":"@ + text::decimal_of(b.start_byte as nat);
    let c5 = c4 + ",\"end_byte\":"@ + text::decimal_of(a.end_byte as nat);
    let d5 = d4 + ",\"end_byte\":"@ + text::decimal_of(b.end_byte as nat);
    let c6 = c5 + ",\"flags\":"@ + text::decimal_of(a.flags as nat);
    let d6 = d5 + ",\"flags\":"@ + text::decimal_of(b.flags as nat);
    lemma_mark(x, c6, y, d6, "}"@);
    lemma_number_field(x, c5, a.flags as nat, y, d5, b.flags as nat, ",\"flags\":"@);
    lemma_number_field(x, c4, a.end_byte as nat, y, d4, b.end_byte as nat, ",\"end_byte\":"@);
    lemma_number_field(x, c3, a.start_byte as nat, y, d3, b.start_byte as nat, ",\"start_byte\":"@);
    lemma_number_field(x, c2, a.kind as nat, y, d2, b.kind as nat, ",\"kind\":"@);
    lemma_number_field(
        x,
        c1,
        a.child_ordinal as nat,
        y,
        d1,
        b.child_ordinal as nat,
        ",\"child_ordinal\":"@,
    );
    lemma_row_field(x, c0, a.parent, y, d0, b.parent, "\",\"parent\":"@);
    lemma_id_field(x, a.id, y, b.id, "{\"id\":\""@);
}

/// Peels a row off the end of equal texts.
proof fn lemma_scope_end(x: Seq<char>, a: AnalysisScope, y: Seq<char>, b: AnalysisScope)
    requires
        x + scope_of(a) == y + scope_of(b),
    ensures
        x == y,
        a == b,
{
    reveal_strlit("{\"id\":\"");
    reveal_strlit("\",\"parent\":");
    reveal_strlit(",\"kind\":\"");
    reveal_strlit("\",\"depth\":");
    reveal_strlit(",\"start_byte\":");
    reveal_strlit(",\"end_byte\":");
    let c0 = "{\"id\":\""@ + text::hex_of(a.id.0@);
    let d0 = "{\"id\":\""@ + text::hex_of(b.id.0@);
    let c1 = c0 + "\",\"parent\":"@ + row_of(a.parent);
    let d1 = d0 + "\",\"parent\":"@ + row_of(b.parent);
    let c2 = c1 + ",\"kind\":\""@ + scope_kind_of(a.kind);
    let d2 = d1 + ",\"kind\":\""@ + scope_kind_of(b.kind);
    let c3 = c2 + "\",\"depth\":"@ + text::decimal_of(a.depth as nat);
    let d3 = d2 + "\",\"depth\":"@ + text::decimal_of(b.depth as nat);
    let c4 = c3 + ",\"start_byte\":"@ + text::decimal_of(a.start_byte as nat);
    let d4 = d3 + ",\"start_byte\":"@ + text::decimal_of(b.start_byte as nat);
    let c5 = c4 + ",\"end_byte\":"@ + text::decimal_of(a.end_byte as nat);
    let d5 = d4 + ",\"end_byte\":"@ + text::decimal_of(b.end_byte as nat);
    lemma_mark(x, c5, y, d5, "}"@);
    lemma_number_field(x, c4, a.end_byte as nat, y, d4, b.end_byte as nat, ",\"end_byte\":"@);
    lemma_number_field(x, c3, a.start_byte as nat, y, d3, b.start_byte as nat, ",\"start_byte\":"@);
    lemma_number_field(x, c2, a.depth as nat, y, d2, b.depth as nat, "\",\"depth\":"@);
    lemma_scope_kind(a.kind, b.kind);
    lemma_scope_kind(b.kind, a.kind);
    lemma_field(x, c1, scope_kind_of(a.kind), y, d1, scope_kind_of(b.kind), ",\"kind\":\""@);
    lemma_row_field(x, c0, a.parent, y, d0, b.parent, "\",\"parent\":"@);
    lemma_id_field(x, a.id, y, b.id, "{\"id\":\""@);
}

/// Peels a row off the end of equal texts.
proof fn lemma_symbol_end(x: Seq<char>, a: AnalysisSymbol, y: Seq<char>, b: AnalysisSymbol)
    requires
        x + symbol_of(a) == y + symbol_of(b),
    ensures
        x == y,
        a == b,
{
    reveal_strlit("{\"id\":\"");
    reveal_strlit("\",\"declaration_node\":");
    reveal_strlit(",\"scope\":");
    reveal_strlit(",\"name\":");
    reveal_strlit(",\"kind\":\"");
    reveal_strlit("\",\"reference_first\":");
    reveal_strlit(",\"reference_count\":");
    let c0 = "{\"id\":\""@ + text::hex_of(a.id.0@);
    let d0 = "{\"id\":\""@ + text::hex_of(b.id.0@);
    let c1 = c0 + "\",\"declaration_node\":"@ + text::decimal_of(a.declaration_node as nat);
    let d1 = d0 + "\",\"declaration_node\":"@ + text::decimal_of(b.declaration_node as nat);
    let c2 = c1 + ",\"scope\":"@ + text::decimal_of(a.scope as nat);
    let d2 = d1 + ",\"scope\":"@ + text::decimal_of(b.scope as nat);
    let c3 = c2 + ",\"name\":"@ + text::decimal_of(a.name as nat);
    let d3 = d2 + ",\"name\":"@ + text::decimal_of(b.name as nat);
    let c4 = c3 + ",\"kind\":\""@ + symbol_kind_of(a.kind);
    let d4 = d3 + ",\"kind\":\""@ + symbol_kind_of(b.kind);
    let c5 = c4 + "\",\"reference_first\":"@ + text::decimal_of(a.reference_first as nat);
    let d5 = d4 + "\",\"reference_first\":"@ + text::decimal_of(b.reference_first as nat);
    let c6 = c5 + ",\"reference_count\":"@ + text::decimal_of(a.reference_count as nat);
    let d6 = d5 + ",\"reference_count\":"@ + text::decimal_of(b.reference_count as nat);
    lemma_mark(x, c6, y, d6, "}"@);
    lemma_number_field(
        x,
        c5,
        a.reference_count as nat,
        y,
        d5,
        b.reference_count as nat,
        ",\"reference_count\":"@,
    );
    lemma_number_field(
        x,
        c4,
        a.reference_first as nat,
        y,
        d4,
        b.reference_first as nat,
        "\",\"reference_first\":"@,
    );
    lemma_symbol_kind(a.kind, b.kind);
    lemma_symbol_kind(b.kind, a.kind);
    lemma_field(x, c3, symbol_kind_of(a.kind), y, d3, symbol_kind_of(b.kind), ",\"kind\":\""@);
    lemma_number_field(x, c2, a.name as nat, y, d2, b.name as nat, ",\"name\":"@);
    lemma_number_field(x, c1, a.scope as nat, y, d1, b.scope as nat, ",\"scope\":"@);
    lemma_number_field(
        x,
        c0,
        a.declaration_node as nat,
        y,
        d0,
        b.declaration_node as nat,
        "\",\"declaration_node\":"@,
    );
    lemma_id_field(x, a.id, y, b.id, "{\"id\":\""@);
}

/// Peels a row off the end of equal texts.
proof fn lemma_reference_end(x: Seq<char>, a: AnalysisReference, y: Seq<char>, b: AnalysisReference)
    requires
        x + reference_of(a) == y + reference_of(b),
    ensures
        x == y,
        a == b,
{
    reveal_strlit("{\"id\":\"");
    reveal_strlit("\",\"node\":");
    reveal_strlit(",\"scope\":");
    reveal_strlit(",\"name\":");
    reveal_strlit(",\"role\":\"");
    let c0 = "{\"id\":\""@ + text::hex_of(a.id.0@);
    let d0 = "{\"id\":\""@ + text::hex_of(b.id.0@);
    let c1 = c0 + "\",\"node\":"@ + text::decimal_of(a.node as nat);
    let d1 = d0 + "\",\"node\":"@ + text::decimal_of(b.node as nat);
    let c2 = c1 + ",\"scope\":"@ + text::decimal_of(a.scope as nat);
    let d2 = d1 + ",\"scope\":"@ + text::decimal_of(b.scope as nat);
    let c3 = c2 + ",\"name\":"@ + text::decimal_of(a.name as nat);
    let d3 = d2 + ",\"name\":"@ + text::decimal_of(b.name as nat);
    let c4 = c3 + ",\"role\":\""@ + role_of(a.role);
    let d4 = d3 + ",\"role\":\""@ + role_of(b.role);
    lemma_mark(x, c4, y, d4, "\"}"@);
    lemma_role(a.role, b.role);
    lemma_role(b.role, a.role);
    lemma_field(x, c3, role_of(a.role), y, d3, role_of(b.role), ",\"role\":\""@);
    lemma_number_field(x, c2, a.name as nat, y, d2, b.name as nat, ",\"name\":"@);
    lemma_number_field(x, c1, a.scope as nat, y, d1, b.scope as nat, ",\"scope\":"@);
    lemma_number_field(x, c0, a.node as nat, y, d0, b.node as nat, "\",\"node\":"@);
    lemma_id_field(x, a.id, y, b.id, "{\"id\":\""@);
}

/// Peels a row off the end of equal texts.
proof fn lemma_def_use_end(x: Seq<char>, a: AnalysisDefUse, y: Seq<char>, b: AnalysisDefUse)
    requires
        x + def_use_of(a) == y + def_use_of(b),
    ensures
        x == y,
        a == b,
{
    reveal_strlit("{\"id\":\"");
    reveal_strlit("\",\"reference\":");
    reveal_strlit(",\"symbol\":");
    reveal_strlit(",\"resolution\":\"");
    let c0 = "{\"id\":\""@ + text::hex_of(a.id.0@);
    let d0 = "{\"id\":\""@ + text::hex_of(b.id.0@);
    let c1 = c0 + "\",\"reference\":"@ + text::decimal_of(a.reference as nat);
    let d1 = d0 + "\",\"reference\":"@ + text::decimal_of(b.reference as nat);
    let c2 = c1 + ",\"symbol\":"@ + row_of(a.symbol);
    let d2 = d1 + ",\"symbol\":"@ + row_of(b.symbol);
    let c3 = c2 + ",\"resolution\":\""@ + resolution_of(a.resolution);
    let d3 = d2 + ",\"resolution\":\""@ + resolution_of(b.resolution);
    lemma_mark(x, c3, y, d3, "\"}"@);
    lemma_resolution(a.resolution, b.resolution);
    lemma_resolution(b.resolution, a.resolution);
    lemma_field(
        x,
        c2,
        resolution_of(a.resolution),
        y,
        d2,
        resolution_of(b.resolution),
        ",\"resolution\":\""@,
    );
    lemma_row_field(x, c1, a.symbol, y, d1, b.symbol, ",\"symbol\":"@);
    lemma_number_field(x, c0, a.reference as nat, y, d0, b.reference as nat, "\",\"reference\":"@);
    lemma_id_field(x, a.id, y, b.id, "{\"id\":\""@);
}

/// Peels a row off the end of equal texts.
proof fn lemma_call_end(x: Seq<char>, a: AnalysisCall, y: Seq<char>, b: AnalysisCall)
    requires
        x + call_of(a) == y + call_of(b),
    ensures
        x == y,
        a == b,
{
    reveal_strlit("{\"id\":\"");
    reveal_strlit("\",\"node\":");
    reveal_strlit(",\"callee_reference\":");
    reveal_strlit(",\"target_symbol\":");
    reveal_strlit(",\"property\":");
    reveal_strlit(",\"kind\":\"");
    let c0 = "{\"id\":\""@ + text::hex_of(a.id.0@);
    let d0 = "{\"id\":\""@ + text::hex_of(b.id.0@);
    let c1 = c0 + "\",\"node\":"@ + text::decimal_of(a.node as nat);
    let d1 = d0 + "\",\"node\":"@ + text::decimal_of(b.node as nat);
    let c2 = c1 + ",\"callee_reference\":"@ + row_of(a.callee_reference);
    let d2 = d1 + ",\"callee_reference\":"@ + row_of(b.callee_reference);
    let c3 = c2 + ",\"target_symbol\":"@ + row_of(a.target_symbol);
    let d3 = d2 + ",\"target_symbol\":"@ + row_of(b.target_symbol);
    let c4 = c3 + ",\"property\":"@ + row_of(a.property);
    let d4 = d3 + ",\"property\":"@ + row_of(b.property);
    let c5 = c4 + ",\"kind\":\""@ + call_kind_of(a.kind);
    let d5 = d4 + ",\"kind\":\""@ + call_kind_of(b.kind);
    lemma_mark(x, c5, y, d5, "\"}"@);
    lemma_call_kind(a.kind, b.kind);
    lemma_call_kind(b.kind, a.kind);
    lemma_field(x, c4, call_kind_of(a.kind), y, d4, call_kind_of(b.kind), ",\"kind\":\""@);
    lemma_row_field(x, c3, a.property, y, d3, b.property, ",\"property\":"@);
    lemma_row_field(x, c2, a.target_symbol, y, d2, b.target_symbol, ",\"target_symbol\":"@);
    lemma_row_field(
        x,
        c1,
        a.callee_reference,
        y,
        d1,
        b.callee_reference,
        ",\"callee_reference\":"@,
    );
    lemma_number_field(x, c0, a.node as nat, y, d0, b.node as nat, "\",\"node\":"@);
    lemma_id_field(x, a.id, y, b.id, "{\"id\":\""@);
}

/// Peels a row off the end of equal texts.
proof fn lemma_loss_record_end(x: Seq<char>, a: LossRecord, y: Seq<char>, b: LossRecord)
    requires
        x + loss_record_of(a) == y + loss_record_of(b),
    ensures
        x == y,
        a == b,
{
    reveal_strlit("{\"code\":\"");
    reveal_strlit("\",\"message\":");
    let c0 = "{\"code\":\""@ + loss_of(a.code);
    let d0 = "{\"code\":\""@ + loss_of(b.code);
    let c1 = c0 + "\",\"message\":"@ + text::decimal_of(a.message as nat);
    let d1 = d0 + "\",\"message\":"@ + text::decimal_of(b.message as nat);
    lemma_mark(x, c1, y, d1, "}"@);
    lemma_number_field(x, c0, a.message as nat, y, d0, b.message as nat, "\",\"message\":"@);
    lemma_loss(a.code, b.code);
    lemma_loss(b.code, a.code);
    lemma_first(x, loss_of(a.code), y, loss_of(b.code), "{\"code\":\""@);
}

proof fn lemma_escaped_front(c: char, rest: Seq<char>)
    ensures
        escaped(seq![c] + rest) == escaped_char(c) + escaped(rest),
    decreases rest.len(),
{
    let whole = seq![c] + rest;
    if rest.len() == 0 {
        assert(whole.drop_last() =~= Seq::empty());
        assert(whole.last() == c);
        assert(escaped(Seq::empty()) =~= Seq::empty());
        assert(escaped(rest) =~= Seq::empty());
        assert(escaped(whole) =~= escaped_char(c) + escaped(rest));
    } else {
        assert(whole.drop_last() =~= seq![c] + rest.drop_last());
        assert(whole.last() == rest.last());
        lemma_escaped_front(c, rest.drop_last());
        assert(escaped(whole) =~= escaped_char(c) + escaped(rest));
    }
}

proof fn lemma_escapes()
    ensures
        forall|c: char| #![trigger escaped_char(c)]
            {
                let e = escaped_char(c);
                &&& e.len() > 0
                &&& c == '"' ==> e =~= seq!['\\', '"']
                &&& c == '\\' ==> e =~= seq!['\\', '\\']
                &&& c == '\u{8}' ==> e =~= seq!['\\', 'b']
                &&& c == '\t' ==> e =~= seq!['\\', 't']
                &&& c == '\n' ==> e =~= seq!['\\', 'n']
                &&& c == '\u{c}' ==> e =~= seq!['\\', 'f']
                &&& c == '\r' ==> e =~= seq!['\\', 'r']
                &&& e.len() == 2 ==> c == '"' || c == '\\' || c == '\u{8}' || c == '\t' || c
                    == '\n' || c == '\u{c}' || c == '\r'
                &&& e.len() == 1 ==> e[0] == c && c != '\\' && c != '"'
                &&& e.len() > 2 ==> e.len() == 6 && e[0] == '\\' && e[1] == 'u' && e[2] == '0'
                    && e[3] == '0' && e[4] == text::hex_digit(c as int / 16) && e[5]
                    == text::hex_digit(c as int % 16) && (c as int) < 0x20
            },
{
    reveal_strlit("\\\"");
    reveal_strlit("\\\\");
    reveal_strlit("\\b");
    reveal_strlit("\\t");
    reveal_strlit("\\n");
    reveal_strlit("\\f");
    reveal_strlit("\\r");
    reveal_strlit("\\u00");
}

/// Equal escaped texts start with the same character.
proof fn lemma_escaped_char_tells(c: char, x: Seq<char>, d: char, y: Seq<char>)
    requires
        escaped_char(c) + x == escaped_char(d) + y,
    ensures
        c == d,
        x == y,
{
    lemma_escapes();
    let v = escaped_char(c);
    let w = escaped_char(d);
    let t = v + x;
    assert(t[0] == v[0]);
    assert(t[0] == w[0]);
    if v.len() > 1 && w.len() > 1 {
        assert(t[1] == v[1]);
        assert(t[1] == w[1]);
        if v.len() > 2 && w.len() > 2 {
            assert(t[4] == v[4]);
            assert(t[4] == w[4]);
            assert(t[5] == v[5]);
            assert(t[5] == w[5]);
        }
    }
    assert(c == d);
    assert(x =~= t.skip(v.len() as int));
    assert(y =~= t.skip(v.len() as int));
}

proof fn lemma_escaped_tells(a: Seq<char>, b: Seq<char>)
    requires
        escaped(a) == escaped(b),
    ensures
        a == b,
    decreases a.len(),
{
    lemma_escapes();
    if a.len() == 0 || b.len() == 0 {
        if a.len() > 0 {
            assert(escaped(a).len() > 0);
        }
        if b.len() > 0 {
            assert(escaped(b).len() > 0);
        }
        assert(a =~= b);
    } else {
        assert(a =~= seq![a[0]] + a.skip(1));
        assert(b =~= seq![b[0]] + b.skip(1));
        lemma_escaped_front(a[0], a.skip(1));
        lemma_escaped_front(b[0], b.skip(1));
        lemma_escaped_char_tells(a[0], escaped(a.skip(1)), b[0], escaped(b.skip(1)));
        lemma_escaped_tells(a.skip(1), b.skip(1));
    }
}

proof fn lemma_escape_digits(c: char)
    requires
        (c as int) < 0x20,
    ensures
        text::hex_digit(c as int / 16) != '"',
        text::hex_digit(c as int % 16) != '"',
{
    assert(0 <= c as int / 16 < 2);
    assert(0 <= c as int % 16 < 16);
}

/// In an escaped text, every quote stands behind a backslash.
proof fn lemma_quotes_are_escaped(t: Seq<char>)
    ensures
        forall|i: int|
            0 <= i < escaped(t).len() && #[trigger] escaped(t)[i] == '"' ==> i > 0 && escaped(
                t,
            )[i - 1] == '\\',
    decreases t.len(),
{
    if t.len() > 0 {
        lemma_escapes();
        lemma_quotes_are_escaped(t.drop_last());
        let front = escaped(t.drop_last());
        let back = escaped_char(t.last());
        let whole = escaped(t);
        assert forall|i: int| 0 <= i < whole.len() && #[trigger] whole[i] == '"' implies i > 0
            && whole[i - 1] == '\\' by {
            if i < front.len() {
                assert(whole[i] == front[i]);
                assert(whole[i - 1] == front[i - 1]);
            } else {
                let k = i - front.len();
                assert(whole[i] == back[k]);
                if back.len() == 6 {
                    lemma_escape_digits(t.last());
                    assert(k == 0 || k == 1 || k == 2 || k == 3 || k == 4 || k == 5);
                }
                assert(back.len() == 2 && k == 1);
                assert(whole[i - 1] == back[0]);
            }
        }
    }
}

proof fn lemma_shorter_string(x: Seq<char>, e: Seq<char>, y: Seq<char>, b: Seq<char>)
    requires
        x + e == y + escaped(b),
        x.len() > 1,
        x.last() == '"',
        x[x.len() - 2] != '\\',
    ensures
        e.len() >= escaped(b).len(),
{
    let t = x + e;
    let f = escaped(b);
    assert(t.len() == y.len() + f.len());
    if e.len() < f.len() {
        lemma_quotes_are_escaped(b);
        let i = x.len() - 1 - y.len();
        assert(t[x.len() - 1] == x.last());
        assert((y + f)[x.len() - 1] == f[i]);
        assert(f[i - 1] == '\\');
        assert(t[x.len() - 2] == x[x.len() - 2]);
        assert((y + f)[x.len() - 2] == f[i - 1]);
    }
}

/// Strings at the ends of equal texts are the same.
proof fn lemma_string_end(x: Seq<char>, a: Seq<char>, y: Seq<char>, b: Seq<char>)
    requires
        x + string_of(a) == y + string_of(b),
        x.len() > 0,
        y.len() > 0,
        x.last() != '\\',
        y.last() != '\\',
    ensures
        x == y,
        a == b,
{
    reveal_strlit("\"");
    let quote = "\""@;
    assert(x + string_of(a) =~= x + quote + escaped(a) + quote);
    assert(y + string_of(b) =~= y + quote + escaped(b) + quote);
    lemma_same_end(x + quote + escaped(a), y + quote + escaped(b), quote);
    let p = x + quote;
    let q = y + quote;
    lemma_shorter_string(p, escaped(a), q, b);
    lemma_shorter_string(q, escaped(b), p, a);
    let t = p + escaped(a);
    assert((q + escaped(b)).len() == q.len() + escaped(b).len());
    assert(p =~= t.take(p.len() as int));
    assert(q =~= (q + escaped(b)).take(p.len() as int));
    assert(escaped(a) =~= t.skip(p.len() as int));
    assert(escaped(b) =~= (q + escaped(b)).skip(p.len() as int));
    lemma_same_end(x, y, quote);
    lemma_escaped_tells(a, b);
}

/// Whether values at the ends of equal texts are the same, and no value ends
/// like the start of an array.
spec fn is_told<T>(value: spec_fn(T) -> Seq<char>) -> bool {
    &&& forall|x: Seq<char>, a: T, y: Seq<char>, b: T|
        ends_open(x) && ends_open(y) && #[trigger] (x + value(a)) == #[trigger] (y + value(b))
            ==> x == y && a == b
    &&& forall|a: T| (#[trigger] value(a)).len() > 0 && value(a).last() != '['
}

/// Lists at the ends of equal texts are the same.
proof fn lemma_joined_end<T>(
    x: Seq<char>,
    a: Seq<T>,
    y: Seq<char>,
    b: Seq<T>,
    value: spec_fn(T) -> Seq<char>,
)
    requires
        is_told(value),
        x.len() > 0,
        y.len() > 0,
        x.last() == '[',
        y.last() == '[',
        x + text::joined(a.map_values(value), ","@) == y + text::joined(
            b.map_values(value),
            ","@,
        ),
    ensures
        x == y,
        a == b,
    decreases a.len(),
{
    reveal_strlit(",");
    let v = a.map_values(value);
    let w = b.map_values(value);
    let p = text::joined(v, ","@);
    let q = text::joined(w, ","@);
    if a.len() > 0 && b.len() > 0 {
        assert(v.drop_last() =~= a.drop_last().map_values(value));
        assert(w.drop_last() =~= b.drop_last().map_values(value));
    }
    let front = if a.len() == 1 {
        x
    } else {
        x + text::joined(v.drop_last(), ","@) + ","@
    };
    let other = if b.len() == 1 {
        y
    } else {
        y + text::joined(w.drop_last(), ","@) + ","@
    };
    if a.len() > 0 {
        assert(x + p =~= front + value(a.last()));
        assert((x + p).last() == value(a.last()).last());
    } else {
        assert(x + p =~= x);
    }
    if b.len() > 0 {
        assert(y + q =~= other + value(b.last()));
        assert((y + q).last() == value(b.last()).last());
    } else {
        assert(y + q =~= y);
    }
    if a.len() == 0 || b.len() == 0 {
        assert(a =~= b);
    } else {
        assert(front + value(a.last()) == other + value(b.last()));
        assert(front == other && a.last() == b.last());
        if a.len() == 1 || b.len() == 1 {
            assert(front.last() == (if a.len() == 1 {
                '['
            } else {
                ','
            }));
            assert(other.last() == (if b.len() == 1 {
                '['
            } else {
                ','
            }));
            assert(a =~= b);
        } else {
            lemma_same_end(
                x + text::joined(v.drop_last(), ","@),
                y + text::joined(w.drop_last(), ","@),
                ","@,
            );
            lemma_joined_end(x, a.drop_last(), y, b.drop_last(), value);
            assert(a =~= a.drop_last().push(a.last()));
            assert(b =~= b.drop_last().push(b.last()));
        }
    }
}

/// Peels an array off the end of equal texts.
proof fn lemma_array_end<T>(
    x: Seq<char>,
    a: Seq<T>,
    y: Seq<char>,
    b: Seq<T>,
    value: spec_fn(T) -> Seq<char>,
)
    requires
        is_told(value),
        x + array_of(a.map_values(value)) == y + array_of(b.map_values(value)),
    ensures
        x == y,
        a == b,
{
    reveal_strlit("[");
    let p = text::joined(a.map_values(value), ","@);
    let q = text::joined(b.map_values(value), ","@);
    assert(x + array_of(a.map_values(value)) =~= x + "["@ + p + "]"@);
    assert(y + array_of(b.map_values(value)) =~= y + "["@ + q + "]"@);
    lemma_same_end(x + "["@ + p, y + "["@ + q, "]"@);
    lemma_joined_end(x + "["@, a, y + "["@, b, value);
    lemma_same_end(x, y, "["@);
}

proof fn lemma_bytes_end(x: Seq<char>, a: Seq<u8>, y: Seq<char>, b: Seq<u8>)
    requires
        x + bytes_of(a) == y + bytes_of(b),
    ensures
        x == y,
        a == b,
{
    let value = |byte: u8| text::decimal_of(byte as nat);
    assert(a.map_values(value) =~= a.map_values(|byte: u8| text::decimal_of(byte as nat)));
    assert(b.map_values(value) =~= b.map_values(|byte: u8| text::decimal_of(byte as nat)));
    assert forall|p: Seq<char>, v: u8, q: Seq<char>, w: u8|
        ends_open(p) && ends_open(q) && #[trigger] (p + value(v)) == #[trigger] (q + value(
            w,
        )) implies p == q && v == w by {
        lemma_decimal(v as nat);
        lemma_decimal(w as nat);
        lemma_plain_end(p, value(v), q, value(w));
        lemma_decimal_tells(v as nat, w as nat);
    }
    assert forall|v: u8| (#[trigger] value(v)).len() > 0 && value(v).last() != '[' by {
        lemma_decimal(v as nat);
    }
    lemma_array_end(x, a, y, b, value);
}

proof fn lemma_strings_end(x: Seq<char>, a: Seq<String>, y: Seq<char>, b: Seq<String>)
    requires
        x + strings_of(a) == y + strings_of(b),
    ensures
        x == y,
        text::views(a) == text::views(b),
{
    let value = |t: Seq<char>| string_of(t);
    let v = text::views(a);
    let w = text::views(b);
    assert(v.map_values(value) =~= a.map_values(|value: String| string_of(value@)));
    assert(w.map_values(value) =~= b.map_values(|value: String| string_of(value@)));
    assert forall|p: Seq<char>, s: Seq<char>, q: Seq<char>, t: Seq<char>|
        ends_open(p) && ends_open(q) && #[trigger] (p + value(s)) == #[trigger] (q + value(
            t,
        )) implies p == q && s == t by {
        lemma_string_end(p, s, q, t);
    }
    assert forall|t: Seq<char>| (#[trigger] value(t)).len() > 0 && value(t).last() != '[' by {
        reveal_strlit("\"");
    }
    lemma_array_end(x, v, y, w, value);
}

proof fn lemma_nodes_end(x: Seq<char>, a: Seq<AnalysisNode>, y: Seq<char>, b: Seq<AnalysisNode>)
    requires
        x + nodes_of(a) == y + nodes_of(b),
    ensures
        x == y,
        a == b,
{
    let value = |node: AnalysisNode| node_of(node);
    assert(a.map_values(value) =~= a.map_values(
        |node: AnalysisNode| node_of(node),
    ));
    assert(b.map_values(value) =~= b.map_values(
        |node: AnalysisNode| node_of(node),
    ));
    assert forall|p: Seq<char>, v: AnalysisNode, q: Seq<char>, w: AnalysisNode|
        ends_open(p) && ends_open(q) && #[trigger] (p + value(v)) == #[trigger] (q + value(
            w,
        )) implies p == q && v == w by {
        lemma_node_end(p, v, q, w);
    }
    assert forall|v: AnalysisNode|
        (#[trigger] value(v)).len() > 0 && value(v).last() != '[' by {
        reveal_strlit("}");
    }
    lemma_array_end(x, a, y, b, value);
}

proof fn lemma_scopes_end(x: Seq<char>, a: Seq<AnalysisScope>, y: Seq<char>, b: Seq<AnalysisScope>)
    requires
        x + scopes_of(a) == y + scopes_of(b),
    ensures
        x == y,
        a == b,
{
    let value = |scope: AnalysisScope| scope_of(scope);
    assert(a.map_values(value) =~= a.map_values(
        |scope: AnalysisScope| scope_of(scope),
    ));
    assert(b.map_values(value) =~= b.map_values(
        |scope: AnalysisScope| scope_of(scope),
    ));
    assert forall|p: Seq<char>, v: AnalysisScope, q: Seq<char>, w: AnalysisScope|
        ends_open(p) && ends_open(q) && #[trigger] (p + value(v)) == #[trigger] (q + value(
            w,
        )) implies p == q && v == w by {
        lemma_scope_end(p, v, q, w);
    }
    assert forall|v: AnalysisScope|
        (#[trigger] value(v)).len() > 0 && value(v).last() != '[' by {
        reveal_strlit("}");
    }
    lemma_array_end(x, a, y, b, value);
}

proof fn lemma_symbols_end(
    x: Seq<char>,
    a: Seq<AnalysisSymbol>,
    y: Seq<char>,
    b: Seq<AnalysisSymbol>,
)
    requires
        x + symbols_of(a) == y + symbols_of(b),
    ensures
        x == y,
        a == b,
{
    let value = |symbol: AnalysisSymbol| symbol_of(symbol);
    assert(a.map_values(value) =~= a.map_values(
        |symbol: AnalysisSymbol| symbol_of(symbol),
    ));
    assert(b.map_values(value) =~= b.map_values(
        |symbol: AnalysisSymbol| symbol_of(symbol),
    ));
    assert forall|p: Seq<char>, v: AnalysisSymbol, q: Seq<char>, w: AnalysisSymbol|
        ends_open(p) && ends_open(q) && #[trigger] (p + value(v)) == #[trigger] (q + value(
            w,
        )) implies p == q && v == w by {
        lemma_symbol_end(p, v, q, w);
    }
    assert forall|v: AnalysisSymbol|
        (#[trigger] value(v)).len() > 0 && value(v).last() != '[' by {
        reveal_strlit("}");
    }
    lemma_array_end(x, a, y, b, value);
}

proof fn lemma_references_end(
    x: Seq<char>,
    a: Seq<AnalysisReference>,
    y: Seq<char>,
    b: Seq<AnalysisReference>,
)
    requires
        x + references_of(a) == y + references_of(b),
    ensures
        x == y,
        a == b,
{
    let value = |reference: AnalysisReference| reference_of(reference);
    assert(a.map_values(value) =~= a.map_values(
        |reference: AnalysisReference| reference_of(reference),
    ));
    assert(b.map_values(value) =~= b.map_values(
        |reference: AnalysisReference| reference_of(reference),
    ));
    assert forall|p: Seq<char>, v: AnalysisReference, q: Seq<char>, w: AnalysisReference|
        ends_open(p) && ends_open(q) && #[trigger] (p + value(v)) == #[trigger] (q + value(
            w,
        )) implies p == q && v == w by {
        lemma_reference_end(p, v, q, w);
    }
    assert forall|v: AnalysisReference|
        (#[trigger] value(v)).len() > 0 && value(v).last() != '[' by {
        reveal_strlit("\"}");
    }
    lemma_array_end(x, a, y, b, value);
}

proof fn lemma_def_uses_end(
    x: Seq<char>,
    a: Seq<AnalysisDefUse>,
    y: Seq<char>,
    b: Seq<AnalysisDefUse>,
)
    requires
        x + def_uses_of(a) == y + def_uses_of(b),
    ensures
        x == y,
        a == b,
{
    let value = |def_use: AnalysisDefUse| def_use_of(def_use);
    assert(a.map_values(value) =~= a.map_values(
        |def_use: AnalysisDefUse| def_use_of(def_use),
    ));
    assert(b.map_values(value) =~= b.map_values(
        |def_use: AnalysisDefUse| def_use_of(def_use),
    ));
    assert forall|p: Seq<char>, v: AnalysisDefUse, q: Seq<char>, w: AnalysisDefUse|
        ends_open(p) && ends_open(q) && #[trigger] (p + value(v)) == #[trigger] (q + value(
            w,
        )) implies p == q && v == w by {
        lemma_def_use_end(p, v, q, w);
    }
    assert forall|v: AnalysisDefUse|
        (#[trigger] value(v)).len() > 0 && value(v).last() != '[' by {
        reveal_strlit("\"}");
    }
    lemma_array_end(x, a, y, b, value);
}

proof fn lemma_calls_end(x: Seq<char>, a: Seq<AnalysisCall>, y: Seq<char>, b: Seq<AnalysisCall>)
    requires
        x + calls_of(a) == y + calls_of(b),
    ensures
        x == y,
        a == b,
{
    let value = |call: AnalysisCall| call_of(call);
    assert(a.map_values(value) =~= a.map_values(
        |call: AnalysisCall| call_of(call),
    ));
    assert(b.map_values(value) =~= b.map_values(
        |call: AnalysisCall| call_of(call),
    ));
    assert forall|p: Seq<char>, v: AnalysisCall, q: Seq<char>, w: AnalysisCall|
        ends_open(p) && ends_open(q) && #[trigger] (p + value(v)) == #[trigger] (q + value(
            w,
        )) implies p == q && v == w by {
        lemma_call_end(p, v, q, w);
    }
    assert forall|v: AnalysisCall|
        (#[trigger] value(v)).len() > 0 && value(v).last() != '[' by {
        reveal_strlit("\"}");
    }
    lemma_array_end(x, a, y, b, value);
}

proof fn lemma_losses_end(x: Seq<char>, a: Seq<LossRecord>, y: Seq<char>, b: Seq<LossRecord>)
    requires
        x + losses_of(a) == y + losses_of(b),
    ensures
        x == y,
        a == b,
{
    let value = |loss: LossRecord| loss_record_of(loss);
    assert(a.map_values(value) =~= a.map_values(
        |loss: LossRecord| loss_record_of(loss),
    ));
    assert(b.map_values(value) =~= b.map_values(
        |loss: LossRecord| loss_record_of(loss),
    ));
    assert forall|p: Seq<char>, v: LossRecord, q: Seq<char>, w: LossRecord|
        ends_open(p) && ends_open(q) && #[trigger] (p + value(v)) == #[trigger] (q + value(
            w,
        )) implies p == q && v == w by {
        lemma_loss_record_end(p, v, q, w);
    }
    assert forall|v: LossRecord|
        (#[trigger] value(v)).len() > 0 && value(v).last() != '[' by {
        reveal_strlit("}");
    }
    lemma_array_end(x, a, y, b, value);
}

/// Whether two analyses hold the same.
pub open spec fn holds_the_same(a: Analysis, b: Analysis) -> bool {
    &&& a.version == b.version
    &&& a.profile@ == b.profile@
    &&& a.producer@ == b.producer@
    &&& a.producer_version@ == b.producer_version@
    &&& a.language == b.language
    &&& a.frontend@ == b.frontend@
    &&& a.frontend_version@ == b.frontend_version@
    &&& a.source_digest@ == b.source_digest@
    &&& a.source_length == b.source_length
    &&& text::views(a.strings@) == text::views(b.strings@)
    &&& a.nodes@ == b.nodes@
    &&& a.scopes@ == b.scopes@
    &&& a.symbols@ == b.symbols@
    &&& a.references@ == b.references@
    &&& a.def_uses@ == b.def_uses@
    &&& a.calls@ == b.calls@
    &&& a.losses@ == b.losses@
}

/// Peels the lists of rows off the end of equal texts.
proof fn lemma_row_lists_tell(a: Analysis, b: Analysis, c: Seq<char>, d: Seq<char>)
    requires
        c + ",\"nodes\":"@ + nodes_of(a.nodes@) + ",\"scopes\":"@ + scopes_of(a.scopes@)
            + ",\"symbols\":"@ + symbols_of(a.symbols@) + ",\"references\":"@
            + references_of(a.references@) + ",\"def_uses\":"@ + def_uses_of(a.def_uses@)
            + ",\"calls\":"@ + calls_of(a.calls@) + ",\"losses\":"@ + losses_of(a.losses@) == d
            + ",\"nodes\":"@ + nodes_of(b.nodes@) + ",\"scopes\":"@ + scopes_of(b.scopes@)
            + ",\"symbols\":"@ + symbols_of(b.symbols@) + ",\"references\":"@
            + references_of(b.references@) + ",\"def_uses\":"@ + def_uses_of(b.def_uses@)
            + ",\"calls\":"@ + calls_of(b.calls@) + ",\"losses\":"@ + losses_of(b.losses@),
    ensures
        c == d,
        a.nodes@ == b.nodes@,
        a.scopes@ == b.scopes@,
        a.symbols@ == b.symbols@,
        a.references@ == b.references@,
        a.def_uses@ == b.def_uses@,
        a.calls@ == b.calls@,
        a.losses@ == b.losses@,
{
    let c10 = c + ",\"nodes\":"@ + nodes_of(a.nodes@);
    let d10 = d + ",\"nodes\":"@ + nodes_of(b.nodes@);
    let c11 = c10 + ",\"scopes\":"@ + scopes_of(a.scopes@);
    let d11 = d10 + ",\"scopes\":"@ + scopes_of(b.scopes@);
    let c12 = c11 + ",\"symbols\":"@ + symbols_of(a.symbols@);
    let d12 = d11 + ",\"symbols\":"@ + symbols_of(b.symbols@);
    let c13 = c12 + ",\"references\":"@ + references_of(a.references@);
    let d13 = d12 + ",\"references\":"@ + references_of(b.references@);
    let c14 = c13 + ",\"def_uses\":"@ + def_uses_of(a.def_uses@);
    let d14 = d13 + ",\"def_uses\":"@ + def_uses_of(b.def_uses@);
    let c15 = c14 + ",\"calls\":"@ + calls_of(a.calls@);
    let d15 = d14 + ",\"calls\":"@ + calls_of(b.calls@);
    let c16 = c15 + ",\"losses\":"@ + losses_of(a.losses@);
    let d16 = d15 + ",\"losses\":"@ + losses_of(b.losses@);
    lemma_losses_end(c15 + ",\"losses\":"@, a.losses@, d15 + ",\"losses\":"@, b.losses@);
    lemma_same_end(c15, d15, ",\"losses\":"@);
    lemma_calls_end(c14 + ",\"calls\":"@, a.calls@, d14 + ",\"calls\":"@, b.calls@);
    lemma_same_end(c14, d14, ",\"calls\":"@);
    lemma_def_uses_end(c13 + ",\"def_uses\":"@, a.def_uses@, d13 + ",\"def_uses\":"@, b.def_uses@);
    lemma_same_end(c13, d13, ",\"def_uses\":"@);
    lemma_references_end(
        c12 + ",\"references\":"@,
        a.references@,
        d12 + ",\"references\":"@,
        b.references@,
    );
    lemma_same_end(c12, d12, ",\"references\":"@);
    lemma_symbols_end(c11 + ",\"symbols\":"@, a.symbols@, d11 + ",\"symbols\":"@, b.symbols@);
    lemma_same_end(c11, d11, ",\"symbols\":"@);
    lemma_scopes_end(c10 + ",\"scopes\":"@, a.scopes@, d10 + ",\"scopes\":"@, b.scopes@);
    lemma_same_end(c10, d10, ",\"scopes\":"@);
    lemma_nodes_end(c + ",\"nodes\":"@, a.nodes@, d + ",\"nodes\":"@, b.nodes@);
    lemma_same_end(c, d, ",\"nodes\":"@);
}

/// Peels what is said of the source off the end of equal texts.
proof fn lemma_source_tells(a: Analysis, b: Analysis, c: Seq<char>, d: Seq<char>)
    requires
        c + ",\"source_digest\":"@ + bytes_of(a.source_digest@) + ",\"source_length\":"@
            + text::decimal_of(a.source_length as nat) + ",\"strings\":"@
            + strings_of(a.strings@) == d + ",\"source_digest\":"@ + bytes_of(b.source_digest@)
            + ",\"source_length\":"@ + text::decimal_of(b.source_length as nat) + ",\"strings\":"@
            + strings_of(b.strings@),
    ensures
        c == d,
        a.source_digest@ == b.source_digest@,
        a.source_length == b.source_length,
        text::views(a.strings@) == text::views(b.strings@),
{
    reveal_strlit(",\"source_length\":");
    let c7 = c + ",\"source_digest\":"@ + bytes_of(a.source_digest@);
    let d7 = d + ",\"source_digest\":"@ + bytes_of(b.source_digest@);
    let c8 = c7 + ",\"source_length\":"@ + text::decimal_of(a.source_length as nat);
    let d8 = d7 + ",\"source_length\":"@ + text::decimal_of(b.source_length as nat);
    let c9 = c8 + ",\"strings\":"@ + strings_of(a.strings@);
    let d9 = d8 + ",\"strings\":"@ + strings_of(b.strings@);
    lemma_strings_end(c8 + ",\"strings\":"@, a.strings@, d8 + ",\"strings\":"@, b.strings@);
    lemma_same_end(c8, d8, ",\"strings\":"@);
    lemma_decimal(a.source_length as nat);
    lemma_decimal(b.source_length as nat);
    assert((c7 + ",\"source_length\":"@).last() == ",\"source_length\":"@.last());
    assert((d7 + ",\"source_length\":"@).last() == ",\"source_length\":"@.last());
    lemma_plain_end(
        c7 + ",\"source_length\":"@,
        text::decimal_of(a.source_length as nat),
        d7 + ",\"source_length\":"@,
        text::decimal_of(b.source_length as nat),
    );
    lemma_decimal_tells(a.source_length as nat, b.source_length as nat);
    lemma_same_end(c7, d7, ",\"source_length\":"@);
    lemma_bytes_end(
        c + ",\"source_digest\":"@,
        a.source_digest@,
        d + ",\"source_digest\":"@,
        b.source_digest@,
    );
    lemma_same_end(c, d, ",\"source_digest\":"@);
}

proof fn lemma_same_json(a: Analysis, b: Analysis)
    requires
        analysis_text_of(a) == analysis_text_of(b),
    ensures
        holds_the_same(a, b),
{
    reveal(analysis_text_of);
    reveal_strlit("{\"version\":");
    reveal_strlit(",\"profile\":");
    reveal_strlit(",\"producer\":");
    reveal_strlit(",\"producer_version\":");
    reveal_strlit("\",\"frontend\":");
    reveal_strlit(",\"frontend_version\":");
    let c0 = "{\"version\":"@ + text::decimal_of(a.version as nat);
    let d0 = "{\"version\":"@ + text::decimal_of(b.version as nat);
    let c1 = c0 + ",\"profile\":"@ + string_of(a.profile@);
    let d1 = d0 + ",\"profile\":"@ + string_of(b.profile@);
    let c2 = c1 + ",\"producer\":"@ + string_of(a.producer@);
    let d2 = d1 + ",\"producer\":"@ + string_of(b.producer@);
    let c3 = c2 + ",\"producer_version\":"@ + string_of(a.producer_version@);
    let d3 = d2 + ",\"producer_version\":"@ + string_of(b.producer_version@);
    let c4 = c3 + ",\"language\":\""@ + language_of(a.language);
    let d4 = d3 + ",\"language\":\""@ + language_of(b.language);
    let c5 = c4 + "\",\"frontend\":"@ + string_of(a.frontend@);
    let d5 = d4 + "\",\"frontend\":"@ + string_of(b.frontend@);
    let c6 = c5 + ",\"frontend_version\":"@ + string_of(a.frontend_version@);
    let d6 = d5 + ",\"frontend_version\":"@ + string_of(b.frontend_version@);
    let c9 = c6 + ",\"source_digest\":"@ + bytes_of(a.source_digest@) + ",\"source_length\":"@
        + text::decimal_of(a.source_length as nat) + ",\"strings\":"@ + strings_of(a.strings@);
    let c16 = c9 + ",\"nodes\":"@ + nodes_of(a.nodes@) + ",\"scopes\":"@ + scopes_of(a.scopes@)
        + ",\"symbols\":"@ + symbols_of(a.symbols@) + ",\"references\":"@
        + references_of(a.references@) + ",\"def_uses\":"@ + def_uses_of(a.def_uses@)
        + ",\"calls\":"@ + calls_of(a.calls@) + ",\"losses\":"@ + losses_of(a.losses@);
    let d9 = d6 + ",\"source_digest\":"@ + bytes_of(b.source_digest@) + ",\"source_length\":"@
        + text::decimal_of(b.source_length as nat) + ",\"strings\":"@ + strings_of(b.strings@);
    let d16 = d9 + ",\"nodes\":"@ + nodes_of(b.nodes@) + ",\"scopes\":"@ + scopes_of(b.scopes@)
        + ",\"symbols\":"@ + symbols_of(b.symbols@) + ",\"references\":"@
        + references_of(b.references@) + ",\"def_uses\":"@ + def_uses_of(b.def_uses@)
        + ",\"calls\":"@ + calls_of(b.calls@) + ",\"losses\":"@ + losses_of(b.losses@);
    lemma_same_end(c16, d16, "}"@);
    lemma_row_lists_tell(a, b, c9, d9);
    lemma_source_tells(a, b, c6, d6);
    assert((c5 + ",\"frontend_version\":"@).last() == ",\"frontend_version\":"@.last());
    assert((d5 + ",\"frontend_version\":"@).last() == ",\"frontend_version\":"@.last());
    lemma_string_end(
        c5 + ",\"frontend_version\":"@,
        a.frontend_version@,
        d5 + ",\"frontend_version\":"@,
        b.frontend_version@,
    );
    lemma_same_end(c5, d5, ",\"frontend_version\":"@);
    assert((c4 + "\",\"frontend\":"@).last() == "\",\"frontend\":"@.last());
    assert((d4 + "\",\"frontend\":"@).last() == "\",\"frontend\":"@.last());
    lemma_string_end(c4 + "\",\"frontend\":"@, a.frontend@, d4 + "\",\"frontend\":"@, b.frontend@);
    lemma_same_end(c4, d4, "\",\"frontend\":"@);
    lemma_same_end(c3 + ",\"language\":\""@, d3 + ",\"language\":\""@, language_of(a.language));
    lemma_same_end(c3, d3, ",\"language\":\""@);
    assert((c2 + ",\"producer_version\":"@).last() == ",\"producer_version\":"@.last());
    assert((d2 + ",\"producer_version\":"@).last() == ",\"producer_version\":"@.last());
    lemma_string_end(
        c2 + ",\"producer_version\":"@,
        a.producer_version@,
        d2 + ",\"producer_version\":"@,
        b.producer_version@,
    );
    lemma_same_end(c2, d2, ",\"producer_version\":"@);
    assert((c1 + ",\"producer\":"@).last() == ",\"producer\":"@.last());
    assert((d1 + ",\"producer\":"@).last() == ",\"producer\":"@.last());
    lemma_string_end(c1 + ",\"producer\":"@, a.producer@, d1 + ",\"producer\":"@, b.producer@);
    lemma_same_end(c1, d1, ",\"producer\":"@);
    assert((c0 + ",\"profile\":"@).last() == ",\"profile\":"@.last());
    assert((d0 + ",\"profile\":"@).last() == ",\"profile\":"@.last());
    lemma_string_end(c0 + ",\"profile\":"@, a.profile@, d0 + ",\"profile\":"@, b.profile@);
    lemma_same_end(c0, d0, ",\"profile\":"@);
    lemma_decimal(a.version as nat);
    lemma_decimal(b.version as nat);
    lemma_plain_end(
        "{\"version\":"@,
        text::decimal_of(a.version as nat),
        "{\"version\":"@,
        text::decimal_of(b.version as nat),
    );
    lemma_decimal_tells(a.version as nat, b.version as nat);
}

/// Two analyses have the same JSON form exactly where they hold the same.
pub proof fn law_json_tells_analyses_apart(a: Analysis, b: Analysis)
    ensures
        (analysis_text_of(a) == analysis_text_of(b)) == holds_the_same(a, b),
{
    if analysis_text_of(a) == analysis_text_of(b) {
        lemma_same_json(a, b);
    }
    if holds_the_same(a, b) {
        reveal(analysis_text_of);
        let v = a.strings@.map_values(|value: String| string_of(value@));
        let w = b.strings@.map_values(|value: String| string_of(value@));
        assert(v.len() == text::views(a.strings@).len());
        assert(w.len() == text::views(b.strings@).len());
        assert forall|i: int| 0 <= i < v.len() implies v[i] == #[trigger] w[i] by {
            assert(text::views(a.strings@)[i] == a.strings@[i]@);
            assert(text::views(b.strings@)[i] == b.strings@[i]@);
        }
        assert(v =~= w);
    }
}

} // verus!
