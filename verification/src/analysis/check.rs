//! Checks of persisted columns.

use vstd::prelude::*;
use vstd::string::*;
use vstd::utf8::*;

use super::cache::{CacheError, CacheTable, CodeKind, MetadataField, NO_ROW};
use super::columns::AnalysisColumns;
use super::validate::{CallFault, NodeFault, ScopeFault, SymbolFault};
use super::{
    call_id, def_use_id, missing_id, node_id, reference_id, same_id, scope_id, symbol_id,
    AnalysisCallKind, AnalysisReferenceRole, AnalysisResolution, AnalysisScopeKind,
    AnalysisSymbolKind, Language, LossCode, StableId, ANALYSIS_PROFILE, ANALYSIS_VERSION,
    JAVASCRIPT_FRONTEND, JAVASCRIPT_FRONTEND_VERSION,
};
use crate::order::earlier_equal;
use crate::text::{same_bytes, same_text, text_from_bytes};

use super::{cache, columns, validate};
use crate::{faults, order, text};

verus! {

/// Whether strings are those of columns.
pub open spec fn are_texts(strings: Seq<String>, c: AnalysisColumns) -> bool {
    text::views(strings) == cache::strings_of(c)
}

/// The row behind a row number.
pub fn optional_row(number: u32) -> (row: Option<u32>)
    ensures
        row == cache::row_of(number),
{
    if number == NO_ROW {
        None
    } else {
        Some(number)
    }
}

pub(crate) fn check_header(c: &AnalysisColumns, source_digest: &[u8]) -> (r: Result<
    (),
    CacheError,
>)
    ensures
        r == faults::outcome(cache::header_fault(*c, source_digest@)),
{
    if c.format_version != ANALYSIS_VERSION {
        return Err(CacheError::Version(c.format_version));
    }
    if c.language != Language::JavaScript.code() {
        return Err(CacheError::Language(c.language));
    }
    if c.source_digest.len() != 32 {
        return Err(CacheError::DigestLength(c.source_digest.len()));
    }
    if !same_bytes(c.source_digest.as_slice(), source_digest) {
        return Err(CacheError::DigestMismatch);
    }
    if c.source_length > 0xffff_ffff {
        return Err(CacheError::SourceTooLarge);
    }
    if c.node_count == 0 || c.scope_count == 0 {
        return Err(CacheError::NoRootOrScope);
    }
    Ok(())
}

/// Reads the string rows.
pub(crate) fn read_strings(c: &AnalysisColumns) -> (r: Result<Vec<String>, CacheError>)
    ensures
        match (r, cache::strings_fault(*c)) {
            (Ok(strings), None) => are_texts(strings@, *c),
            (Err(error), Some(fault)) => error == fault,
            _ => false,
        },
{
    let ghost fault = |i: int|
        faults::fault_if(!valid_utf8(c.strings@[i]@), CacheError::NotText(i as usize));
    let ghost count = c.strings@.len() as int;
    let mut strings: Vec<String> = Vec::new();
    let mut i: usize = 0;
    while i < c.strings.len()
        invariant
            count == c.strings@.len(),
            fault == (|i: int|
                faults::fault_if(!valid_utf8(c.strings@[i]@), CacheError::NotText(i as usize))),
            i <= c.strings@.len(),
            strings@.len() == i,
            forall|k: int|
                0 <= k < i ==> (#[trigger] strings@[k])@ == decode_utf8(c.strings@[k]@),
            cache::strings_fault(*c) == faults::first_of(count, fault, i as int),
        decreases c.strings@.len() - i,
    {
        match text_from_bytes(c.strings[i].as_slice()) {
            Some(value) => {
                assert(fault(i as int) is None);
                strings.push(value);
            },
            None => {
                assert(fault(i as int) is Some);
                return Err(CacheError::NotText(i));
            },
        }
        i += 1;
    }
    assert(text::views(strings@) =~= cache::strings_of(*c));
    Ok(strings)
}

fn check_metadata_row(c: &AnalysisColumns, row: u32, field: MetadataField) -> (r: Result<
    (),
    CacheError,
>)
    ensures
        r == faults::outcome(cache::metadata_row_fault(*c, row, field)),
{
    if row as usize >= c.strings.len() {
        return Err(CacheError::MetadataRow(field));
    }
    Ok(())
}

fn check_metadata(
    c: &AnalysisColumns,
    strings: &Vec<String>,
    row: u32,
    expected: &str,
    field: MetadataField,
) -> (r: Result<(), CacheError>)
    requires
        are_texts(strings@, *c),
        row < c.strings@.len(),
    ensures
        r == faults::outcome(cache::metadata_fault(*c, row, expected@, field)),
{
    assert(text::views(strings@).len() == strings@.len());
    assert(cache::strings_of(*c)[row as int] == strings@[row as int]@);
    if !same_text(strings[row as usize].as_str(), expected) {
        return Err(CacheError::Unsupported(field));
    }
    Ok(())
}

pub(crate) fn check_all_metadata(c: &AnalysisColumns, strings: &Vec<String>) -> (r: Result<
    (),
    CacheError,
>)
    requires
        are_texts(strings@, *c),
    ensures
        r == faults::outcome(cache::all_metadata_fault(*c)),
{
    check_metadata_row(c, c.profile, MetadataField::Profile)?;
    check_metadata_row(c, c.producer, MetadataField::Producer)?;
    check_metadata_row(c, c.producer_version, MetadataField::ProducerVersion)?;
    check_metadata_row(c, c.frontend, MetadataField::Frontend)?;
    check_metadata_row(c, c.frontend_version, MetadataField::FrontendVersion)?;
    check_metadata(c, strings, c.profile, ANALYSIS_PROFILE, MetadataField::Profile)?;
    check_metadata(c, strings, c.frontend, JAVASCRIPT_FRONTEND, MetadataField::Frontend)?;
    check_metadata(
        c,
        strings,
        c.frontend_version,
        JAVASCRIPT_FRONTEND_VERSION,
        MetadataField::FrontendVersion,
    )
}

fn check_count(table: CacheTable, column: usize, actual: usize, expected: u32) -> (r: Result<
    (),
    CacheError,
>)
    ensures
        r == faults::outcome(cache::count_fault(table, column, actual as nat, expected)),
{
    if actual != expected as usize {
        return Err(
            CacheError::RowCount { table, column, actual, expected: expected as usize },
        );
    }
    Ok(())
}

fn check_id_bytes(ids: &Vec<u8>, count: u32, table: CacheTable) -> (r: Result<(), CacheError>)
    ensures
        r == faults::outcome(cache::id_bytes_fault(ids@, count, table)),
{
    if ids.len() as u64 != 32 * count as u64 {
        return Err(CacheError::IdBytes(table));
    }
    Ok(())
}

/// Whether every column of the syntax nodes has its number of rows.
pub open spec fn node_counts_fit(c: AnalysisColumns) -> bool {
    cache::node_counts_fault(c) is None
}

/// Whether every column of the scopes has its number of rows.
pub open spec fn scope_counts_fit(c: AnalysisColumns) -> bool {
    cache::scope_counts_fault(c) is None
}

/// Whether a node is on the way up from another.
fn on_path(c: &AnalysisColumns, row: u32, from: usize) -> (r: bool)
    requires
        from < c.nodes.parent@.len(),
    ensures
        r == cache::is_on_path(c.nodes.parent@, row as int, from as int),
{
    let mut at: usize = from;
    loop
        invariant
            from < c.nodes.parent@.len(),
            at <= from,
            cache::is_on_path(c.nodes.parent@, row as int, from as int) == cache::is_on_path(
                c.nodes.parent@,
                row as int,
                at as int,
            ),
        decreases at,
    {
        if at == row as usize {
            return true;
        }
        let parent: usize = c.nodes.parent[at] as usize;
        if parent >= at {
            return false;
        }
        at = parent;
    }
}

fn check_node(c: &AnalysisColumns, strings: &Vec<String>, i: usize, next: u32) -> (fault: Option<
    NodeFault,
>)
    requires
        node_counts_fit(*c),
        are_texts(strings@, *c),
        i < c.node_count,
        c.nodes.parent@[i as int] < i ==> next == cache::children_before(
            c.nodes.parent@,
            c.nodes.parent@[i as int],
            i as int,
        ),
    ensures
        fault == cache::node_fault(*c, i as int),
{
    assert(text::views(strings@).len() == strings@.len());
    let parent = c.nodes.parent[i];
    if parent != NO_ROW && parent as usize >= i {
        return Some(NodeFault::Parent);
    }
    if i > 0 && parent != NO_ROW && !on_path(c, parent, i - 1) {
        return Some(NodeFault::NotPreOrder);
    }
    let ordinal = c.nodes.child_ordinal[i];
    if parent == NO_ROW {
        if i != 0 || ordinal != 0 {
            return Some(NodeFault::RootOrdinal);
        }
    } else {
        if ordinal != next {
            return Some(NodeFault::ChildOrdinal);
        }
        if ordinal == 0xffff_ffff {
            return Some(NodeFault::TooManyChildren);
        }
    }
    let kind = c.nodes.kind[i] as usize;
    if kind >= strings.len() {
        return Some(NodeFault::KindString);
    }
    let start = c.nodes.start_byte[i];
    let end = c.nodes.end_byte[i];
    if start > end || end as u64 > c.source_length {
        return Some(NodeFault::Span);
    }
    if i == 0 {
        assert(cache::strings_of(*c)[kind as int] == strings@[kind as int]@);
        if start != 0 || end as u64 != c.source_length || !same_text(
            strings[kind].as_str(),
            "program",
        ) {
            return Some(NodeFault::SyntaxRoot);
        }
    }
    if parent != NO_ROW {
        if start < c.nodes.start_byte[parent as usize] || end > c.nodes.end_byte[parent as usize] {
            return Some(NodeFault::OutsideParent);
        }
    }
    if c.nodes.flags[i] >= 16 {
        return Some(NodeFault::Flags);
    }
    None
}

proof fn lemma_no_children(parents: Seq<u32>, row: int, count: int)
    requires
        0 <= count <= row + 1 <= parents.len(),
        0 <= row < u32::MAX,
        forall|k: int|
            0 <= k < row + 1 ==> (#[trigger] parents[k] == NO_ROW || parents[k] < k),
    ensures
        cache::children_before(parents, row as u32, count) == 0,
    decreases count,
{
    if count > 0 {
        lemma_no_children(parents, row, count - 1);
        assert(parents[count - 1] != row as u32);
    }
}

pub(crate) fn check_nodes(c: &AnalysisColumns, strings: &Vec<String>) -> (r: Result<
    (),
    CacheError,
>)
    requires
        are_texts(strings@, *c),
    ensures
        r == faults::outcome(cache::nodes_fault(*c)),
{
    let n = &c.nodes;
    let t = CacheTable::Nodes;
    check_count(t, 17, n.parent.len(), c.node_count)?;
    check_count(t, 18, n.child_ordinal.len(), c.node_count)?;
    check_count(t, 19, n.kind.len(), c.node_count)?;
    check_count(t, 20, n.start_byte.len(), c.node_count)?;
    check_count(t, 21, n.end_byte.len(), c.node_count)?;
    check_count(t, 22, n.flags.len(), c.node_count)?;
    let ghost fault = |i: int| cache::node_row_fault(*c, i);
    let ghost parents = c.nodes.parent@;
    let count: usize = c.node_count as usize;
    let mut next: Vec<u32> = Vec::new();
    let mut i: usize = 0;
    while i < count
        invariant
            are_texts(strings@, *c),
            node_counts_fit(*c),
            count == c.node_count,
            parents == c.nodes.parent@,
            parents.len() == count,
            fault == (|i: int| cache::node_row_fault(*c, i)),
            i <= count,
            next@.len() == i,
            forall|k: int| 0 <= k < i ==> (#[trigger] parents[k] == NO_ROW || parents[k] < k),
            forall|k: int|
                0 <= k < i ==> #[trigger] next@[k] == cache::children_before(
                    parents,
                    k as u32,
                    i as int,
                ),
            cache::nodes_fault(*c) == faults::first_of(count as int, fault, i as int),
        decreases count - i,
    {
        let parent = c.nodes.parent[i];
        let seen: u32 = if (parent as usize) < i {
            next[parent as usize]
        } else {
            0
        };
        if let Some(found) = check_node(c, strings, i, seen) {
            assert(fault(i as int) is Some);
            return Err(CacheError::Node(i, found));
        }
        assert(fault(i as int) is None);
        let ghost before = next@;
        if parent != NO_ROW {
            next[parent as usize] = seen + 1;
        }
        next.push(0);
        i += 1;
        proof {
            assert forall|k: int| 0 <= k < i implies #[trigger] next@[k]
                == cache::children_before(parents, k as u32, i as int) by {
                if k < i - 1 {
                    assert(before[k] == cache::children_before(parents, k as u32, i - 1));
                } else {
                    lemma_no_children(parents, i - 1, i as int);
                }
            }
        }
    }
    Ok(())
}

/// The identities of scopes up to the first of an unknown kind.
fn scope_identities(c: &AnalysisColumns) -> (ids: Vec<StableId>)
    requires
        scope_counts_fit(*c),
    ensures
        ids@.len() <= c.scope_count,
        forall|k: int|
            0 <= k < ids@.len() ==> (#[trigger] ids@[k]).0@ == cache::scope_identity(c.scopes, k),
        ids@.len() < c.scope_count ==> AnalysisScopeKind::from_code_spec(
            c.scopes.kind@[ids@.len() as int],
        ) is None,
{
    let mut ids: Vec<StableId> = Vec::new();
    let mut i: usize = 0;
    while i < c.scope_count as usize
        invariant
            scope_counts_fit(*c),
            i <= c.scope_count,
            ids@.len() == i,
            forall|k: int|
                0 <= k < i ==> (#[trigger] ids@[k]).0@ == cache::scope_identity(c.scopes, k),
        decreases c.scope_count - i,
    {
        match AnalysisScopeKind::from_code(c.scopes.kind[i]) {
            None => {
                return ids;
            },
            Some(kind) => {
                ids.push(
                    scope_id(
                        optional_row(c.scopes.parent[i]),
                        kind,
                        c.scopes.depth[i],
                        c.scopes.start_byte[i] as u64,
                        c.scopes.end_byte[i] as u64,
                    ),
                );
            },
        }
        i += 1;
    }
    ids
}

proof fn lemma_repeated(c: AnalysisColumns, ids: Seq<StableId>, i: int)
    requires
        0 <= i < ids.len(),
        forall|k: int|
            0 <= k < ids.len() ==> (#[trigger] ids[k]).0@ == cache::scope_identity(c.scopes, k),
    ensures
        order::occurs_earlier(ids, i) == cache::scope_is_repeated(c.scopes, i),
{
    assert forall|k: int| 0 <= k < i implies #[trigger] order::equivalent(ids[k], ids[i]) == (
    cache::scope_identity(c.scopes, k) == cache::scope_identity(c.scopes, i)) by {
        order::lemma_bytes_le_antisymmetric(ids[k].0@, ids[i].0@);
    }
    if cache::scope_is_repeated(c.scopes, i) {
        let k = choose|k: int|
            0 <= k < i && #[trigger] cache::scope_identity(c.scopes, k) == cache::scope_identity(
                c.scopes,
                i,
            );
        assert(order::equivalent(ids[k], ids[i]));
    }
    if order::occurs_earlier(ids, i) {
        let k = choose|k: int| 0 <= k < i && #[trigger] order::equivalent(ids[k], ids[i]);
        assert(cache::scope_identity(c.scopes, k) == cache::scope_identity(c.scopes, i));
    }
}

fn check_scope(c: &AnalysisColumns, i: usize, flags: &Vec<bool>) -> (r: Result<(), CacheError>)
    requires
        scope_counts_fit(*c),
        i < c.scope_count,
        flags@.len() <= c.scope_count,
        flags@.len() <= i ==> AnalysisScopeKind::from_code_spec(c.scopes.kind@[i as int]) is None,
        i < flags@.len() ==> flags@[i as int] == cache::scope_is_repeated(c.scopes, i as int),
    ensures
        r == faults::outcome(cache::scope_row_fault(*c, i as int)),
{
    let s = &c.scopes;
    let parent = s.parent[i];
    if parent != NO_ROW && parent as usize >= i {
        return Err(CacheError::Scope(i, ScopeFault::Parent));
    }
    if AnalysisScopeKind::from_code(s.kind[i]).is_none() {
        return Err(CacheError::UnknownCode(CodeKind::Scope, s.kind[i] as u16));
    }
    let start = s.start_byte[i];
    let end = s.end_byte[i];
    if start > end || end as u64 > c.source_length {
        return Err(CacheError::Scope(i, ScopeFault::Span));
    }
    if i == 0 {
        if parent != NO_ROW || s.kind[i] != AnalysisScopeKind::Global.code() || s.depth[i] != 0
            || start != 0 || end as u64 != c.source_length {
            return Err(CacheError::Scope(i, ScopeFault::GlobalScope));
        }
    } else {
        if parent == NO_ROW {
            return Err(CacheError::Scope(i, ScopeFault::NoParent));
        }
        let above = parent as usize;
        if s.depth[i] as u64 != s.depth[above] as u64 + 1 || start < s.start_byte[above] || end
            > s.end_byte[above] {
            return Err(CacheError::Scope(i, ScopeFault::Inconsistent));
        }
    }
    if flags[i] {
        return Err(CacheError::Scope(i, ScopeFault::Duplicate));
    }
    Ok(())
}

pub(crate) fn check_scopes(c: &AnalysisColumns) -> (r: Result<(), CacheError>)
    ensures
        r == faults::outcome(cache::scopes_fault(*c)),
{
    let s = &c.scopes;
    let t = CacheTable::Scopes;
    check_count(t, 23, s.parent.len(), c.scope_count)?;
    check_count(t, 24, s.kind.len(), c.scope_count)?;
    check_count(t, 25, s.depth.len(), c.scope_count)?;
    check_count(t, 26, s.start_byte.len(), c.scope_count)?;
    check_count(t, 27, s.end_byte.len(), c.scope_count)?;
    let ghost fault = |i: int| cache::scope_row_fault(*c, i);
    let ids = scope_identities(c);
    let flags = earlier_equal(&ids);
    let count: usize = c.scope_count as usize;
    let mut i: usize = 0;
    while i < count
        invariant
            scope_counts_fit(*c),
            count == c.scope_count,
            fault == (|i: int| cache::scope_row_fault(*c, i)),
            ids@.len() <= c.scope_count,
            flags@.len() == ids@.len(),
            forall|k: int|
                0 <= k < ids@.len() ==> (#[trigger] ids@[k]).0@ == cache::scope_identity(
                    c.scopes,
                    k,
                ),
            forall|k: int|
                0 <= k < flags@.len() ==> #[trigger] flags@[k] == order::occurs_earlier(ids@, k),
            ids@.len() < c.scope_count ==> AnalysisScopeKind::from_code_spec(
                c.scopes.kind@[ids@.len() as int],
            ) is None,
            i <= count,
            i <= flags@.len(),
            cache::scopes_fault(*c) == faults::first_of(count as int, fault, i as int),
        decreases count - i,
    {
        proof {
            if i < ids@.len() {
                lemma_repeated(*c, ids@, i as int);
            }
        }
        if let Err(error) = check_scope(c, i, &flags) {
            assert(fault(i as int) is Some);
            return Err(error);
        }
        assert(fault(i as int) is None);
        i += 1;
    }
    Ok(())
}

/// Which rows of a column repeat an earlier value.
fn repeats(column: &Vec<u32>) -> (flags: Vec<bool>)
    ensures
        flags@.len() == column@.len(),
        forall|i: int|
            0 <= i < column@.len() ==> #[trigger] flags@[i] == cache::occurs_before(
                column@,
                column@[i],
                i,
            ),
{
    let mut keys: Vec<u64> = Vec::new();
    let mut k: usize = 0;
    while k < column.len()
        invariant
            k <= column@.len(),
            keys@.len() == k,
            forall|j: int| 0 <= j < k ==> #[trigger] keys@[j] == column@[j],
        decreases column@.len() - k,
    {
        keys.push(column[k] as u64);
        k += 1;
    }
    let flags = earlier_equal(&keys);
    proof {
        assert forall|i: int| 0 <= i < column@.len() implies #[trigger] flags@[i]
            == cache::occurs_before(column@, column@[i], i) by {
            assert(flags@[i] == order::occurs_earlier(keys@, i));
            if cache::occurs_before(column@, column@[i], i) {
                let k = choose|k: int| 0 <= k < i && #[trigger] column@[k] == column@[i];
                assert(order::equivalent(keys@[k], keys@[i]));
            }
            if order::occurs_earlier(keys@, i) {
                let k = choose|k: int| 0 <= k < i && #[trigger] order::equivalent(keys@[k], keys@[i]);
                assert(column@[k] == column@[i]);
            }
        }
    }
    flags
}

fn outside(c: &AnalysisColumns, node: u32, scope: u32) -> (r: bool)
    requires
        node_counts_fit(*c),
        scope_counts_fit(*c),
        node < c.node_count,
        scope < c.scope_count,
    ensures
        r == cache::is_outside(*c, node, scope),
{
    c.nodes.start_byte[node as usize] < c.scopes.start_byte[scope as usize]
        || c.nodes.end_byte[node as usize] > c.scopes.end_byte[scope as usize]
}

fn check_symbol(c: &AnalysisColumns, i: usize, reused: bool, next: u64) -> (r: Result<
    (),
    CacheError,
>)
    requires
        node_counts_fit(*c),
        scope_counts_fit(*c),
        cache::symbol_counts_fault(*c) is None,
        i < c.symbol_count,
        reused == cache::occurs_before(
            c.symbols.declaration_node@,
            c.symbols.declaration_node@[i as int],
            i as int,
        ),
        next == cache::references_before(c.symbols, i as int),
    ensures
        r == faults::outcome(cache::symbol_row_fault(*c, i as int)),
{
    let s = &c.symbols;
    let node = s.declaration_node[i];
    if node >= c.node_count || s.scope[i] >= c.scope_count || s.name[i] as usize
        >= c.strings.len() {
        return Err(CacheError::Symbol(i, SymbolFault::RowReference));
    }
    if reused {
        return Err(CacheError::Symbol(i, SymbolFault::ReusedNode));
    }
    if outside(c, node, s.scope[i]) {
        return Err(CacheError::Symbol(i, SymbolFault::OutsideScope));
    }
    if AnalysisSymbolKind::from_code(s.kind[i]).is_none() {
        return Err(CacheError::UnknownCode(CodeKind::Symbol, s.kind[i] as u16));
    }
    let end: u64 = s.reference_first[i] as u64 + s.reference_count[i] as u64;
    if end > 0xffff_ffff {
        return Err(CacheError::Symbol(i, SymbolFault::RangeOverflow));
    }
    if s.reference_first[i] as u64 != next || end > c.reference_count as u64 {
        return Err(CacheError::Symbol(i, SymbolFault::ReferenceRange));
    }
    Ok(())
}

pub(crate) fn check_symbols(c: &AnalysisColumns) -> (r: Result<(), CacheError>)
    requires
        node_counts_fit(*c),
        scope_counts_fit(*c),
    ensures
        r == faults::outcome(cache::symbols_fault(*c)),
        r is Ok ==> 0 <= cache::references_before(c.symbols, c.symbol_count as int)
            <= c.reference_count,
{
    let s = &c.symbols;
    let t = CacheTable::Symbols;
    check_id_bytes(&s.ids, c.symbol_count, t)?;
    check_count(t, 29, s.declaration_node.len(), c.symbol_count)?;
    check_count(t, 30, s.scope.len(), c.symbol_count)?;
    check_count(t, 31, s.name.len(), c.symbol_count)?;
    check_count(t, 32, s.kind.len(), c.symbol_count)?;
    check_count(t, 33, s.reference_first.len(), c.symbol_count)?;
    check_count(t, 34, s.reference_count.len(), c.symbol_count)?;
    let ghost fault = |i: int| cache::symbol_row_fault(*c, i);
    let flags = repeats(&s.declaration_node);
    let count: usize = c.symbol_count as usize;
    let mut next: u64 = 0;
    let mut i: usize = 0;
    while i < count
        invariant
            node_counts_fit(*c),
            scope_counts_fit(*c),
            cache::symbol_counts_fault(*c) is None,
            *s == c.symbols,
            count == c.symbol_count,
            fault == (|i: int| cache::symbol_row_fault(*c, i)),
            flags@.len() == count,
            forall|k: int|
                0 <= k < count ==> #[trigger] flags@[k] == cache::occurs_before(
                    c.symbols.declaration_node@,
                    c.symbols.declaration_node@[k],
                    k,
                ),
            i <= count,
            next == cache::references_before(c.symbols, i as int),
            next <= c.reference_count,
            cache::symbols_fault(*c) == faults::first_of(count as int, fault, i as int),
        decreases count - i,
    {
        if let Err(error) = check_symbol(c, i, flags[i], next) {
            assert(fault(i as int) is Some);
            return Err(error);
        }
        assert(fault(i as int) is None);
        next = next + s.reference_count[i] as u64;
        i += 1;
    }
    Ok(())
}

pub(crate) fn check_references(c: &AnalysisColumns) -> (r: Result<(), CacheError>)
    requires
        node_counts_fit(*c),
        scope_counts_fit(*c),
    ensures
        r == faults::outcome(cache::references_fault(*c)),
{
    let r = &c.references;
    let t = CacheTable::References;
    check_id_bytes(&r.ids, c.reference_count, t)?;
    check_count(t, 36, r.node.len(), c.reference_count)?;
    check_count(t, 37, r.scope.len(), c.reference_count)?;
    check_count(t, 38, r.name.len(), c.reference_count)?;
    check_count(t, 39, r.role.len(), c.reference_count)?;
    let ghost fault = |i: int| cache::reference_row_fault(*c, i);
    let flags = repeats(&r.node);
    let count: usize = c.reference_count as usize;
    let mut i: usize = 0;
    while i < count
        invariant
            node_counts_fit(*c),
            scope_counts_fit(*c),
            cache::reference_counts_fault(*c) is None,
            *r == c.references,
            count == c.reference_count,
            fault == (|i: int| cache::reference_row_fault(*c, i)),
            flags@.len() == count,
            forall|k: int|
                0 <= k < count ==> #[trigger] flags@[k] == cache::occurs_before(
                    c.references.node@,
                    c.references.node@[k],
                    k,
                ),
            i <= count,
            cache::references_fault(*c) == faults::first_of(count as int, fault, i as int),
        decreases count - i,
    {
        let node = r.node[i];
        let error = if node >= c.node_count || r.scope[i] >= c.scope_count || r.name[i] as usize
            >= c.strings.len() {
            Some(CacheError::Reference(i, SymbolFault::RowReference))
        } else if flags[i] {
            Some(CacheError::Reference(i, SymbolFault::ReusedNode))
        } else if outside(c, node, r.scope[i]) {
            Some(CacheError::Reference(i, SymbolFault::OutsideScope))
        } else if AnalysisReferenceRole::from_code(r.role[i]).is_none() {
            Some(CacheError::UnknownCode(CodeKind::Role, r.role[i] as u16))
        } else {
            None
        };
        assert(fault(i as int) == error);
        if let Some(error) = error {
            return Err(error);
        }
        i += 1;
    }
    Ok(())
}

fn check_ownership(c: &AnalysisColumns) -> (r: Result<(), CacheError>)
    requires
        cache::symbols_fault(*c) is None,
        cache::def_use_counts_fault(*c) is None,
    ensures
        r == faults::outcome(
            faults::first_of(
                c.symbol_count as int,
                |i: int|
                    faults::fault_if(
                        !cache::owns_its_range(*c, i),
                        CacheError::ForeignReference(i as usize),
                    ),
                0,
            ),
        ),
{
    let ghost fault = |i: int|
        faults::fault_if(
            !cache::owns_its_range(*c, i),
            CacheError::ForeignReference(i as usize),
        );
    let ghost rows = |i: int| cache::symbol_row_fault(*c, i);
    proof {
        faults::lemma_first_of(c.symbol_count as int, rows, 0);
    }
    let count: usize = c.symbol_count as usize;
    let mut i: usize = 0;
    while i < count
        invariant
            cache::symbol_counts_fault(*c) is None,
            cache::def_use_counts_fault(*c) is None,
            count == c.symbol_count,
            rows == (|i: int| cache::symbol_row_fault(*c, i)),
            forall|k: int| 0 <= k < count ==> (#[trigger] rows(k)) is None,
            fault == (|i: int|
                faults::fault_if(
                    !cache::owns_its_range(*c, i),
                    CacheError::ForeignReference(i as usize),
                )),
            i <= count,
            faults::first_of(count as int, fault, 0) == faults::first_of(
                count as int,
                fault,
                i as int,
            ),
        decreases count - i,
    {
        assert(rows(i as int) is None);
        let first: usize = c.symbols.reference_first[i] as usize;
        let end: usize = first + c.symbols.reference_count[i] as usize;
        let mut k: usize = first;
        while k < end
            invariant
                cache::def_use_counts_fault(*c) is None,
                i < count,
                count == c.symbol_count,
                first == c.symbols.reference_first@[i as int],
                end == first + c.symbols.reference_count@[i as int],
                end <= c.reference_count,
                first <= k <= end,
                forall|j: int|
                    first <= j < k ==> #[trigger] c.def_uses.symbol@[j] == i as u32,
                fault == (|i: int|
                    faults::fault_if(
                        !cache::owns_its_range(*c, i),
                        CacheError::ForeignReference(i as usize),
                    )),
                faults::first_of(count as int, fault, 0) == faults::first_of(
                    count as int,
                    fault,
                    i as int,
                ),
            decreases end - k,
        {
            if c.def_uses.symbol[k] != i as u32 {
                assert(!cache::owns_its_range(*c, i as int));
                assert(fault(i as int) is Some);
                return Err(CacheError::ForeignReference(i));
            }
            k += 1;
        }
        assert(cache::owns_its_range(*c, i as int));
        assert(fault(i as int) is None);
        i += 1;
    }
    Ok(())
}

fn check_strays(c: &AnalysisColumns) -> (r: Result<(), CacheError>)
    requires
        cache::symbol_counts_fault(*c) is None,
        cache::def_use_counts_fault(*c) is None,
        0 <= cache::references_before(c.symbols, c.symbol_count as int) <= c.reference_count,
    ensures
        r == faults::outcome(
            faults::fault_if(cache::has_stray_resolution(*c), CacheError::StrayResolution),
        ),
{
    let mut next: u64 = 0;
    let mut i: usize = 0;
    while i < c.symbol_count as usize
        invariant
            cache::symbol_counts_fault(*c) is None,
            0 <= cache::references_before(c.symbols, c.symbol_count as int) <= c.reference_count,
            i <= c.symbol_count,
            next == cache::references_before(c.symbols, i as int),
        decreases c.symbol_count - i,
    {
        proof {
            lemma_references_grow(c.symbols, i + 1, c.symbol_count as int);
        }
        next = next + c.symbols.reference_count[i] as u64;
        i += 1;
    }
    let mut k: usize = next as usize;
    while k < c.reference_count as usize
        invariant
            cache::def_use_counts_fault(*c) is None,
            next == cache::references_before(c.symbols, c.symbol_count as int),
            next <= k,
            forall|j: int| next <= j < k ==> #[trigger] c.def_uses.symbol@[j] == NO_ROW,
        decreases c.reference_count - k,
    {
        if c.def_uses.symbol[k] != NO_ROW {
            return Err(CacheError::StrayResolution);
        }
        k += 1;
    }
    Ok(())
}

proof fn lemma_references_grow(c: columns::SymbolColumns, i: int, j: int)
    requires
        i <= j,
    ensures
        cache::references_before(c, i) <= cache::references_before(c, j),
    decreases j - i,
{
    if i < j {
        lemma_references_grow(c, i, j - 1);
    }
}

pub(crate) fn check_def_uses(c: &AnalysisColumns) -> (r: Result<(), CacheError>)
    requires
        cache::symbols_fault(*c) is None,
        0 <= cache::references_before(c.symbols, c.symbol_count as int) <= c.reference_count,
    ensures
        r == faults::outcome(cache::def_uses_fault(*c)),
{
    let d = &c.def_uses;
    let t = CacheTable::DefUses;
    if c.def_use_count != c.reference_count {
        return Err(CacheError::RowCountsDiffer);
    }
    check_id_bytes(&d.ids, c.def_use_count, t)?;
    check_count(t, 41, d.reference.len(), c.def_use_count)?;
    check_count(t, 42, d.symbol.len(), c.def_use_count)?;
    check_count(t, 43, d.resolution.len(), c.def_use_count)?;
    let ghost fault = |i: int| cache::def_use_row_fault(*c, i);
    let count: usize = c.def_use_count as usize;
    let mut i: usize = 0;
    while i < count
        invariant
            cache::def_use_counts_fault(*c) is None,
            *d == c.def_uses,
            count == c.def_use_count,
            fault == (|i: int| cache::def_use_row_fault(*c, i)),
            i <= count,
            faults::first_of(count as int, fault, 0) == faults::first_of(
                count as int,
                fault,
                i as int,
            ),
            faults::first_of(count as int, fault, 0) is Some ==> cache::def_uses_fault(*c)
                == faults::first_of(count as int, fault, 0),
        decreases count - i,
    {
        let symbol = d.symbol[i];
        let error = if AnalysisResolution::from_code(d.resolution[i]).is_none() {
            Some(CacheError::UnknownCode(CodeKind::Resolution, d.resolution[i] as u16))
        } else if d.reference[i] as usize != i || (symbol != NO_ROW && symbol >= c.symbol_count)
            || (d.resolution[i] == AnalysisResolution::Resolved.code()) != (symbol != NO_ROW) {
            Some(CacheError::Resolution(i))
        } else {
            None
        };
        assert(fault(i as int) == error);
        if let Some(error) = error {
            return Err(error);
        }
        i += 1;
    }
    check_ownership(c)?;
    check_strays(c)
}

/// Whether the tables that calls and identities refer to are without fault.
pub open spec fn tables_fit(c: AnalysisColumns) -> bool {
    &&& cache::nodes_fault(c) is None
    &&& cache::scopes_fault(c) is None
    &&& cache::symbols_fault(c) is None
    &&& cache::references_fault(c) is None
    &&& cache::def_uses_fault(c) is None
}

/// Whether the row numbers of tables count rows.
pub open spec fn rows_fit(c: AnalysisColumns) -> bool {
    &&& node_counts_fit(c)
    &&& scope_counts_fit(c)
    &&& cache::symbol_counts_fault(c) is None
    &&& cache::reference_counts_fault(c) is None
    &&& cache::def_use_counts_fault(c) is None
    &&& forall|i: int| 0 <= i < c.node_count ==> #[trigger] c.nodes.kind@[i] < c.strings@.len()
    &&& forall|i: int|
        0 <= i < c.scope_count ==> AnalysisScopeKind::from_code_spec(
            #[trigger] c.scopes.kind@[i],
        ) is Some
    &&& forall|i: int|
        0 <= i < c.symbol_count ==> #[trigger] c.symbols.declaration_node@[i] < c.node_count
    &&& forall|i: int|
        0 <= i < c.symbol_count ==> #[trigger] c.symbols.name@[i] < c.strings@.len()
    &&& forall|i: int|
        0 <= i < c.symbol_count ==> AnalysisSymbolKind::from_code_spec(
            #[trigger] c.symbols.kind@[i],
        ) is Some
    &&& forall|i: int|
        0 <= i < c.reference_count ==> #[trigger] c.references.node@[i] < c.node_count
    &&& forall|i: int|
        0 <= i < c.reference_count ==> #[trigger] c.references.name@[i] < c.strings@.len()
    &&& forall|i: int|
        0 <= i < c.reference_count ==> AnalysisReferenceRole::from_code_spec(
            #[trigger] c.references.role@[i],
        ) is Some
    &&& forall|i: int|
        0 <= i < c.def_use_count ==> (#[trigger] c.def_uses.symbol@[i] == NO_ROW
            || c.def_uses.symbol@[i] < c.symbol_count)
    &&& forall|i: int|
        0 <= i < c.def_use_count ==> AnalysisResolution::from_code_spec(
            #[trigger] c.def_uses.resolution@[i],
        ) is Some
}

/// The row numbers of tables without fault count rows.
pub proof fn lemma_rows_fit(c: AnalysisColumns)
    requires
        tables_fit(c),
    ensures
        rows_fit(c),
{
    let nodes = |i: int| cache::node_row_fault(c, i);
    let scopes = |i: int| cache::scope_row_fault(c, i);
    let symbols = |i: int| cache::symbol_row_fault(c, i);
    let references = |i: int| cache::reference_row_fault(c, i);
    let def_uses = |i: int| cache::def_use_row_fault(c, i);
    faults::lemma_first_of(c.node_count as int, nodes, 0);
    faults::lemma_first_of(c.scope_count as int, scopes, 0);
    faults::lemma_first_of(c.symbol_count as int, symbols, 0);
    faults::lemma_first_of(c.reference_count as int, references, 0);
    faults::lemma_first_of(c.def_use_count as int, def_uses, 0);
    assert forall|i: int| 0 <= i < c.node_count implies #[trigger] c.nodes.kind@[i]
        < c.strings@.len() by {
        assert(nodes(i) is None);
    }
    assert forall|i: int| 0 <= i < c.scope_count implies AnalysisScopeKind::from_code_spec(
        #[trigger] c.scopes.kind@[i],
    ) is Some by {
        assert(scopes(i) is None);
    }
    assert forall|i: int| 0 <= i < c.symbol_count implies #[trigger] c.symbols.declaration_node@[i]
        < c.node_count by {
        assert(symbols(i) is None);
    }
    assert forall|i: int| 0 <= i < c.symbol_count implies #[trigger] c.symbols.name@[i]
        < c.strings@.len() by {
        assert(symbols(i) is None);
    }
    assert forall|i: int| 0 <= i < c.symbol_count implies AnalysisSymbolKind::from_code_spec(
        #[trigger] c.symbols.kind@[i],
    ) is Some by {
        assert(symbols(i) is None);
    }
    assert forall|i: int| 0 <= i < c.reference_count implies #[trigger] c.references.node@[i]
        < c.node_count by {
        assert(references(i) is None);
    }
    assert forall|i: int| 0 <= i < c.reference_count implies #[trigger] c.references.name@[i]
        < c.strings@.len() by {
        assert(references(i) is None);
    }
    assert forall|i: int| 0 <= i < c.reference_count implies AnalysisReferenceRole::from_code_spec(
        #[trigger] c.references.role@[i],
    ) is Some by {
        assert(references(i) is None);
    }
    assert forall|i: int| 0 <= i < c.def_use_count implies (#[trigger] c.def_uses.symbol@[i]
        == NO_ROW || c.def_uses.symbol@[i] < c.symbol_count) by {
        assert(def_uses(i) is None);
    }
    assert forall|i: int| 0 <= i < c.def_use_count implies AnalysisResolution::from_code_spec(
        #[trigger] c.def_uses.resolution@[i],
    ) is Some by {
        assert(def_uses(i) is None);
    }
}

fn kind_fits(kind: AnalysisCallKind, node_kind: &str) -> (r: bool)
    ensures
        r == validate::call_node_kind_fits(kind, node_kind@),
{
    match kind {
        AnalysisCallKind::Direct => same_text(node_kind, "call_expression"),
        AnalysisCallKind::Construct => same_text(node_kind, "new_expression"),
        _ => same_text(node_kind, "call_expression") || same_text(node_kind, "new_expression"),
    }
}

fn check_call_shape(c: &AnalysisColumns, i: usize, kind: AnalysisCallKind) -> (r: Result<
    (),
    CacheError,
>)
    requires
        rows_fit(*c),
        cache::call_counts_fault(*c) is None,
        i < c.call_count,
        c.calls.callee_reference@[i as int] == NO_ROW || c.calls.callee_reference@[i as int]
            < c.reference_count,
    ensures
        r == faults::outcome(cache::call_shape_fault(*c, i as int, kind)),
{
    let callee = c.calls.callee_reference[i];
    let target = c.calls.target_symbol[i];
    let property = c.calls.property[i];
    match kind {
        AnalysisCallKind::Direct | AnalysisCallKind::Construct => {
            if callee == NO_ROW || property != NO_ROW {
                return Err(CacheError::Call(i, CallFault::DirectShape));
            }
            if c.def_uses.symbol[callee as usize] != target {
                return Err(CacheError::CallTarget(i));
            }
            let role = if kind == AnalysisCallKind::Construct {
                AnalysisReferenceRole::Construct
            } else {
                AnalysisReferenceRole::Call
            };
            if c.references.role[callee as usize] != role.code() {
                return Err(CacheError::Call(i, CallFault::CalleeRole));
            }
        },
        AnalysisCallKind::Member => {
            if property == NO_ROW || target != NO_ROW {
                return Err(CacheError::Call(i, CallFault::MemberShape));
            }
        },
        AnalysisCallKind::Dynamic => {
            if callee != NO_ROW || target != NO_ROW || property != NO_ROW {
                return Err(CacheError::Call(i, CallFault::DynamicShape));
            }
        },
    }
    Ok(())
}

fn check_call(c: &AnalysisColumns, strings: &Vec<String>, i: usize, reused: bool) -> (r: Result<
    (),
    CacheError,
>)
    requires
        rows_fit(*c),
        are_texts(strings@, *c),
        cache::call_counts_fault(*c) is None,
        i < c.call_count,
        reused == cache::occurs_before(c.calls.node@, c.calls.node@[i as int], i as int),
    ensures
        r == faults::outcome(cache::call_row_fault(*c, i as int)),
{
    assert(text::views(strings@).len() == strings@.len());
    let node = c.calls.node[i];
    let callee = c.calls.callee_reference[i];
    let target = c.calls.target_symbol[i];
    let property = c.calls.property[i];
    if node >= c.node_count || (callee != NO_ROW && callee >= c.reference_count) || (target
        != NO_ROW && target >= c.symbol_count) || (property != NO_ROW && property as usize
        >= c.strings.len()) {
        return Err(CacheError::Call(i, CallFault::RowReference));
    }
    let kind = match AnalysisCallKind::from_code(c.calls.kind[i]) {
        Some(kind) => kind,
        None => {
            return Err(CacheError::UnknownCode(CodeKind::Call, c.calls.kind[i] as u16));
        },
    };
    if reused {
        return Err(CacheError::Call(i, CallFault::ReusedNode));
    }
    let row = c.nodes.kind[node as usize] as usize;
    assert(cache::strings_of(*c)[row as int] == strings@[row as int]@);
    if !kind_fits(kind, strings[row].as_str()) {
        return Err(CacheError::Call(i, CallFault::NodeKind));
    }
    if callee != NO_ROW {
        let inner = c.references.node[callee as usize] as usize;
        if c.nodes.start_byte[inner] < c.nodes.start_byte[node as usize] || c.nodes.end_byte[inner]
            > c.nodes.end_byte[node as usize] {
            return Err(CacheError::Call(i, CallFault::CalleeOutside));
        }
    }
    check_call_shape(c, i, kind)
}

pub(crate) fn check_calls(c: &AnalysisColumns, strings: &Vec<String>) -> (r: Result<
    (),
    CacheError,
>)
    requires
        rows_fit(*c),
        are_texts(strings@, *c),
    ensures
        r == faults::outcome(cache::calls_fault(*c)),
{
    let k = &c.calls;
    let t = CacheTable::Calls;
    check_id_bytes(&k.ids, c.call_count, t)?;
    check_count(t, 45, k.node.len(), c.call_count)?;
    check_count(t, 46, k.callee_reference.len(), c.call_count)?;
    check_count(t, 47, k.target_symbol.len(), c.call_count)?;
    check_count(t, 48, k.property.len(), c.call_count)?;
    check_count(t, 49, k.kind.len(), c.call_count)?;
    let ghost fault = |i: int| cache::call_row_fault(*c, i);
    let flags = repeats(&k.node);
    let count: usize = c.call_count as usize;
    let mut i: usize = 0;
    while i < count
        invariant
            rows_fit(*c),
            are_texts(strings@, *c),
            cache::call_counts_fault(*c) is None,
            count == c.call_count,
            fault == (|i: int| cache::call_row_fault(*c, i)),
            flags@.len() == count,
            forall|k: int|
                0 <= k < count ==> #[trigger] flags@[k] == cache::occurs_before(
                    c.calls.node@,
                    c.calls.node@[k],
                    k,
                ),
            i <= count,
            cache::calls_fault(*c) == faults::first_of(count as int, fault, i as int),
        decreases count - i,
    {
        if let Err(error) = check_call(c, strings, i, flags[i]) {
            assert(fault(i as int) is Some);
            return Err(error);
        }
        assert(fault(i as int) is None);
        i += 1;
    }
    Ok(())
}

pub(crate) fn check_losses(c: &AnalysisColumns) -> (r: Result<(), CacheError>)
    ensures
        r == faults::outcome(cache::losses_fault(*c)),
{
    check_count(CacheTable::Losses, 50, c.losses.code.len(), c.loss_count)?;
    check_count(CacheTable::Losses, 51, c.losses.message.len(), c.loss_count)?;
    let ghost fault = |i: int| cache::loss_row_fault(*c, i);
    let count: usize = c.loss_count as usize;
    let mut i: usize = 0;
    while i < count
        invariant
            c.losses.code@.len() == count,
            c.losses.message@.len() == count,
            count == c.loss_count,
            fault == (|i: int| cache::loss_row_fault(*c, i)),
            i <= count,
            cache::losses_fault(*c) == faults::first_of(count as int, fault, i as int),
        decreases count - i,
    {
        let error = if LossCode::from_code(c.losses.code[i]).is_none() {
            Some(CacheError::UnknownCode(CodeKind::Loss, c.losses.code[i]))
        } else if c.losses.message[i] as usize >= c.strings.len() {
            Some(CacheError::Loss(i))
        } else {
            None
        };
        assert(fault(i as int) == error);
        if let Some(error) = error {
            return Err(error);
        }
        i += 1;
    }
    Ok(())
}

/// Reads an identity.
pub(crate) fn read_id(ids: &Vec<u8>, i: usize) -> (id: StableId)
    requires
        32 * (i + 1) <= ids@.len(),
    ensures
        id.0@ == columns::id_at(ids@, i as int),
{
    let length: usize = ids.len();
    let mut value: [u8; 32] = [0; 32];
    let mut k: usize = 0;
    while k < 32
        invariant
            length == ids@.len(),
            32 * (i + 1) <= length,
            k <= 32,
            forall|j: int| 0 <= j < k ==> #[trigger] value@[j] == ids@[32 * i + j],
        decreases 32 - k,
    {
        value[k] = ids[32 * i + k];
        k += 1;
    }
    assert(value@ =~= columns::id_at(ids@, i as int));
    StableId(value)
}

/// The identity of a syntax node.
pub(crate) fn node_identity(c: &AnalysisColumns, strings: &Vec<String>, i: usize) -> (id: StableId)
    requires
        node_counts_fit(*c),
        are_texts(strings@, *c),
        i < c.node_count,
        c.nodes.kind@[i as int] < c.strings@.len(),
    ensures
        id.0@ == cache::node_identity(*c, i as int),
{
    assert(text::views(strings@).len() == strings@.len());
    let row = c.nodes.kind[i] as usize;
    assert(cache::strings_of(*c)[row as int] == strings@[row as int]@);
    node_id(
        optional_row(c.nodes.parent[i]),
        c.nodes.child_ordinal[i],
        strings[row].as_str(),
        c.nodes.flags[i],
    )
}

fn symbol_id_or_none(c: &AnalysisColumns, number: u32) -> (id: StableId)
    requires
        cache::symbol_counts_fault(*c) is None,
        number == NO_ROW || number < c.symbol_count,
    ensures
        id.0@ == cache::symbol_id_at(*c, number),
{
    if number == NO_ROW {
        missing_id()
    } else {
        read_id(&c.symbols.ids, number as usize)
    }
}

fn def_use_id_or_none(c: &AnalysisColumns, number: u32) -> (id: StableId)
    requires
        cache::def_use_counts_fault(*c) is None,
        number == NO_ROW || number < c.def_use_count,
    ensures
        id.0@ == cache::def_use_id_at(*c, number),
{
    if number == NO_ROW {
        missing_id()
    } else {
        read_id(&c.def_uses.ids, number as usize)
    }
}

fn check_symbol_ids(c: &AnalysisColumns, strings: &Vec<String>) -> (r: Result<(), CacheError>)
    requires
        rows_fit(*c),
        are_texts(strings@, *c),
    ensures
        r == faults::outcome(
            faults::first_of(c.symbol_count as int, |i: int| cache::symbol_id_fault(*c, i), 0),
        ),
{
    let ghost fault = |i: int| cache::symbol_id_fault(*c, i);
    let count: usize = c.symbol_count as usize;
    let mut i: usize = 0;
    while i < count
        invariant
            rows_fit(*c),
            are_texts(strings@, *c),
            count == c.symbol_count,
            fault == (|i: int| cache::symbol_id_fault(*c, i)),
            i <= count,
            faults::first_of(count as int, fault, 0) == faults::first_of(
                count as int,
                fault,
                i as int,
            ),
        decreases count - i,
    {
        let found = read_id(&c.symbols.ids, i);
        let node = c.symbols.declaration_node[i] as usize;
        assert(c.nodes.kind@[node as int] < c.strings@.len());
        let above = node_identity(c, strings, node);
        match AnalysisSymbolKind::from_code(c.symbols.kind[i]) {
            Some(kind) => {
                let expected = symbol_id(&above, kind);
                if !same_id(&found, &expected) {
                    assert(fault(i as int) is Some);
                    return Err(CacheError::Symbol(i, SymbolFault::StableId));
                }
            },
            None => {
                assert(false);
            },
        }
        assert(fault(i as int) is None);
        i += 1;
    }
    Ok(())
}

fn check_reference_ids(c: &AnalysisColumns, strings: &Vec<String>) -> (r: Result<(), CacheError>)
    requires
        rows_fit(*c),
        are_texts(strings@, *c),
    ensures
        r == faults::outcome(
            faults::first_of(
                c.reference_count as int,
                |i: int| cache::reference_id_fault(*c, i),
                0,
            ),
        ),
{
    let ghost fault = |i: int| cache::reference_id_fault(*c, i);
    let count: usize = c.reference_count as usize;
    let mut i: usize = 0;
    while i < count
        invariant
            rows_fit(*c),
            are_texts(strings@, *c),
            count == c.reference_count,
            fault == (|i: int| cache::reference_id_fault(*c, i)),
            i <= count,
            faults::first_of(count as int, fault, 0) == faults::first_of(
                count as int,
                fault,
                i as int,
            ),
        decreases count - i,
    {
        let found = read_id(&c.references.ids, i);
        let node = c.references.node[i] as usize;
        assert(c.nodes.kind@[node as int] < c.strings@.len());
        let above = node_identity(c, strings, node);
        match AnalysisReferenceRole::from_code(c.references.role[i]) {
            Some(role) => {
                let expected = reference_id(&above, role);
                if !same_id(&found, &expected) {
                    assert(fault(i as int) is Some);
                    return Err(CacheError::ReferenceId(i));
                }
            },
            None => {
                assert(false);
            },
        }
        let edge = read_id(&c.def_uses.ids, i);
        let target = symbol_id_or_none(c, c.def_uses.symbol[i]);
        match AnalysisResolution::from_code(c.def_uses.resolution[i]) {
            Some(resolution) => {
                let expected = def_use_id(&found, &target, resolution);
                if !same_id(&edge, &expected) {
                    assert(fault(i as int) is Some);
                    return Err(CacheError::DefUseId(i));
                }
            },
            None => {
                assert(false);
            },
        }
        assert(fault(i as int) is None);
        i += 1;
    }
    Ok(())
}

fn check_call_ids(c: &AnalysisColumns, strings: &Vec<String>) -> (r: Result<(), CacheError>)
    requires
        rows_fit(*c),
        are_texts(strings@, *c),
        cache::calls_fault(*c) is None,
    ensures
        r == faults::outcome(
            faults::first_of(c.call_count as int, |i: int| cache::call_id_fault(*c, i), 0),
        ),
{
    let ghost fault = |i: int| cache::call_id_fault(*c, i);
    let ghost rows = |i: int| cache::call_row_fault(*c, i);
    proof {
        faults::lemma_first_of(c.call_count as int, rows, 0);
    }
    let count: usize = c.call_count as usize;
    let mut i: usize = 0;
    while i < count
        invariant
            rows_fit(*c),
            are_texts(strings@, *c),
            cache::call_counts_fault(*c) is None,
            count == c.call_count,
            rows == (|i: int| cache::call_row_fault(*c, i)),
            forall|k: int| 0 <= k < count ==> (#[trigger] rows(k)) is None,
            fault == (|i: int| cache::call_id_fault(*c, i)),
            i <= count,
            faults::first_of(count as int, fault, 0) == faults::first_of(
                count as int,
                fault,
                i as int,
            ),
        decreases count - i,
    {
        assert(rows(i as int) is None);
        let found = read_id(&c.calls.ids, i);
        let node = c.calls.node[i] as usize;
        assert(c.nodes.kind@[node as int] < c.strings@.len());
        let above = node_identity(c, strings, node);
        let callee = def_use_id_or_none(c, c.calls.callee_reference[i]);
        let target = symbol_id_or_none(c, c.calls.target_symbol[i]);
        let property = optional_row(c.calls.property[i]);
        match AnalysisCallKind::from_code(c.calls.kind[i]) {
            Some(kind) => {
                let expected = call_id(&above, kind, &callee, &target, property);
                if !same_id(&found, &expected) {
                    assert(fault(i as int) is Some);
                    return Err(CacheError::Call(i, CallFault::StableId));
                }
            },
            None => {
                assert(false);
            },
        }
        assert(fault(i as int) is None);
        i += 1;
    }
    Ok(())
}

pub(crate) fn check_identities(c: &AnalysisColumns, strings: &Vec<String>) -> (r: Result<
    (),
    CacheError,
>)
    requires
        rows_fit(*c),
        are_texts(strings@, *c),
        cache::calls_fault(*c) is None,
    ensures
        r == faults::outcome(cache::identities_fault(*c)),
{
    check_symbol_ids(c, strings)?;
    check_reference_ids(c, strings)?;
    check_call_ids(c, strings)
}

} // verus!
