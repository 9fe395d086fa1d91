//! Reading rows of checked columns.

use vstd::prelude::*;
use vstd::string::*;

use super::cache::CacheError;
use super::check::{
    check_all_metadata, check_calls, check_def_uses, check_header, check_identities, check_losses,
    check_nodes, check_references, check_scopes, check_symbols, node_identity, optional_row,
    read_id, read_strings,
};
use super::columns::AnalysisColumns;
use super::{
    scope_id, AnalysisCallKind, AnalysisReferenceRole, AnalysisResolution, AnalysisScopeKind,
    AnalysisSymbolKind, LossCode, StableId,
};

use super::{cache, check, columns};
use crate::{faults, text};

verus! {

/// A syntax node as it is read.
pub struct CachedNode<'a> {
    pub id: StableId,
    pub parent: Option<u32>,
    pub child_ordinal: u32,
    pub kind: &'a str,
    pub start_byte: u64,
    pub end_byte: u64,
    pub flags: u8,
}

/// A scope as it is read.
pub struct CachedScope {
    pub id: StableId,
    pub parent: Option<u32>,
    pub kind: AnalysisScopeKind,
    pub depth: u32,
    pub start_byte: u64,
    pub end_byte: u64,
}

/// A symbol as it is read.
pub struct CachedSymbol<'a> {
    pub id: StableId,
    pub declaration_node: u32,
    pub scope: u32,
    pub name: &'a str,
    pub kind: AnalysisSymbolKind,
    pub reference_first: u32,
    pub reference_count: u32,
}

/// A reference as it is read.
pub struct CachedReference<'a> {
    pub id: StableId,
    pub node: u32,
    pub scope: u32,
    pub name: &'a str,
    pub role: AnalysisReferenceRole,
}

/// A resolution as it is read.
pub struct CachedDefUse {
    pub id: StableId,
    pub reference: u32,
    pub symbol: Option<u32>,
    pub resolution: AnalysisResolution,
}

/// A call as it is read.
pub struct CachedCall<'a> {
    pub id: StableId,
    pub node: u32,
    pub callee_reference: Option<u32>,
    pub target_symbol: Option<u32>,
    pub property: Option<&'a str>,
    pub kind: AnalysisCallKind,
}

/// A loss as it is read.
pub struct CachedLoss<'a> {
    pub code: LossCode,
    pub message: &'a str,
}

/// Whether a syntax node is a row of columns.
pub open spec fn is_node(n: CachedNode<'_>, c: AnalysisColumns, i: int) -> bool {
    &&& n.id.0@ == cache::node_identity(c, i)
    &&& n.parent == cache::row_of(c.nodes.parent@[i])
    &&& n.child_ordinal == c.nodes.child_ordinal@[i]
    &&& n.kind@ == cache::strings_of(c)[c.nodes.kind@[i] as int]
    &&& n.start_byte == c.nodes.start_byte@[i]
    &&& n.end_byte == c.nodes.end_byte@[i]
    &&& n.flags == c.nodes.flags@[i]
}

/// Whether a scope is a row of columns.
pub open spec fn is_scope(s: CachedScope, c: AnalysisColumns, i: int) -> bool {
    &&& s.id.0@ == cache::scope_identity(c.scopes, i)
    &&& s.parent == cache::row_of(c.scopes.parent@[i])
    &&& Some(s.kind) == AnalysisScopeKind::from_code_spec(c.scopes.kind@[i])
    &&& s.depth == c.scopes.depth@[i]
    &&& s.start_byte == c.scopes.start_byte@[i]
    &&& s.end_byte == c.scopes.end_byte@[i]
}

/// Whether a symbol is a row of columns.
pub open spec fn is_symbol(s: CachedSymbol<'_>, c: AnalysisColumns, i: int) -> bool {
    &&& s.id.0@ == columns::id_at(c.symbols.ids@, i)
    &&& s.declaration_node == c.symbols.declaration_node@[i]
    &&& s.scope == c.symbols.scope@[i]
    &&& s.name@ == cache::strings_of(c)[c.symbols.name@[i] as int]
    &&& Some(s.kind) == AnalysisSymbolKind::from_code_spec(c.symbols.kind@[i])
    &&& s.reference_first == c.symbols.reference_first@[i]
    &&& s.reference_count == c.symbols.reference_count@[i]
}

/// Whether a reference is a row of columns.
pub open spec fn is_reference(r: CachedReference<'_>, c: AnalysisColumns, i: int) -> bool {
    &&& r.id.0@ == columns::id_at(c.references.ids@, i)
    &&& r.node == c.references.node@[i]
    &&& r.scope == c.references.scope@[i]
    &&& r.name@ == cache::strings_of(c)[c.references.name@[i] as int]
    &&& Some(r.role) == AnalysisReferenceRole::from_code_spec(c.references.role@[i])
}

/// Whether a resolution is a row of columns.
pub open spec fn is_def_use(d: CachedDefUse, c: AnalysisColumns, i: int) -> bool {
    &&& d.id.0@ == columns::id_at(c.def_uses.ids@, i)
    &&& d.reference == c.def_uses.reference@[i]
    &&& d.symbol == cache::row_of(c.def_uses.symbol@[i])
    &&& Some(d.resolution) == AnalysisResolution::from_code_spec(c.def_uses.resolution@[i])
}

/// Whether a property is that of a row of columns.
pub open spec fn is_property(property: Option<&str>, c: AnalysisColumns, number: u32) -> bool {
    match (property, cache::row_of(number)) {
        (Some(found), Some(row)) => found@ == cache::strings_of(c)[row as int],
        (None, None) => true,
        _ => false,
    }
}

/// Whether a call is a row of columns.
pub open spec fn is_call(call: CachedCall<'_>, c: AnalysisColumns, i: int) -> bool {
    &&& call.id.0@ == columns::id_at(c.calls.ids@, i)
    &&& call.node == c.calls.node@[i]
    &&& call.callee_reference == cache::row_of(c.calls.callee_reference@[i])
    &&& call.target_symbol == cache::row_of(c.calls.target_symbol@[i])
    &&& is_property(call.property, c, c.calls.property@[i])
    &&& Some(call.kind) == AnalysisCallKind::from_code_spec(c.calls.kind@[i])
}

/// Whether a loss is a row of columns.
pub open spec fn is_loss(loss: CachedLoss<'_>, c: AnalysisColumns, i: int) -> bool {
    &&& Some(loss.code) == LossCode::from_code_spec(c.losses.code@[i])
    &&& loss.message@ == cache::strings_of(c)[c.losses.message@[i] as int]
}

/// Columns that passed every check.
pub struct AnalysisCacheView {
    columns: AnalysisColumns,
    strings: Vec<String>,
    digest: [u8; 32],
}

impl AnalysisCacheView {
    #[verifier::type_invariant]
    spec fn is_wf(self) -> bool {
        &&& cache::cache_fault(self.columns, self.digest@) is None
        &&& check::are_texts(self.strings@, self.columns)
    }

    /// The columns.
    pub closed spec fn columns(&self) -> AnalysisColumns {
        self.columns
    }

    /// The digest of the source.
    pub closed spec fn digest(&self) -> Seq<u8> {
        self.digest@
    }

    /// Checks columns, given the digest of the source that they belong to.
    pub fn new(c: AnalysisColumns, source_digest: [u8; 32]) -> (r: Result<Self, CacheError>)
        ensures
            match (r, cache::cache_fault(c, source_digest@)) {
                (Ok(view), None) => view.columns() == c && view.digest() == source_digest@,
                (Err(error), Some(fault)) => error == fault,
                _ => false,
            },
    {
        if let Err(error) = check_header(&c, source_digest.as_slice()) {
            return Err(error);
        }
        let strings = match read_strings(&c) {
            Ok(strings) => strings,
            Err(error) => {
                return Err(error);
            },
        };
        if let Err(error) = check_all_metadata(&c, &strings) {
            return Err(error);
        }
        if let Err(error) = check_nodes(&c, &strings) {
            return Err(error);
        }
        if let Err(error) = check_scopes(&c) {
            return Err(error);
        }
        if let Err(error) = check_symbols(&c) {
            return Err(error);
        }
        if let Err(error) = check_references(&c) {
            return Err(error);
        }
        if let Err(error) = check_def_uses(&c) {
            return Err(error);
        }
        proof {
            check::lemma_rows_fit(c);
        }
        if let Err(error) = check_calls(&c, &strings) {
            return Err(error);
        }
        if let Err(error) = check_losses(&c) {
            return Err(error);
        }
        if let Err(error) = check_identities(&c, &strings) {
            return Err(error);
        }
        Ok(AnalysisCacheView { columns: c, strings, digest: source_digest })
    }

    pub fn source_digest(&self) -> (digest: [u8; 32])
        ensures
            digest@ == self.digest(),
    {
        self.digest
    }

    pub fn source_length(&self) -> (length: u64)
        ensures
            length == self.columns().source_length,
    {
        self.columns.source_length
    }

    pub fn node_count(&self) -> (count: usize)
        ensures
            count == self.columns().node_count,
    {
        self.columns.node_count as usize
    }

    pub fn scope_count(&self) -> (count: usize)
        ensures
            count == self.columns().scope_count,
    {
        self.columns.scope_count as usize
    }

    pub fn symbol_count(&self) -> (count: usize)
        ensures
            count == self.columns().symbol_count,
    {
        self.columns.symbol_count as usize
    }

    pub fn reference_count(&self) -> (count: usize)
        ensures
            count == self.columns().reference_count,
    {
        self.columns.reference_count as usize
    }

    pub fn def_use_count(&self) -> (count: usize)
        ensures
            count == self.columns().def_use_count,
    {
        self.columns.def_use_count as usize
    }

    pub fn call_count(&self) -> (count: usize)
        ensures
            count == self.columns().call_count,
    {
        self.columns.call_count as usize
    }

    pub fn loss_count(&self) -> (count: usize)
        ensures
            count == self.columns().loss_count,
    {
        self.columns.loss_count as usize
    }

    /// The string at a row.
    pub fn string(&self, index: usize) -> (r: Option<&str>)
        ensures
            match r {
                Some(value) => index < self.columns().strings@.len() && value@
                    == cache::strings_of(self.columns())[index as int],
                None => index >= self.columns().strings@.len(),
            },
    {
        proof {
            use_type_invariant(self);
        }
        assert(text::views(self.strings@).len() == self.strings@.len());
        if index < self.strings.len() {
            assert(cache::strings_of(self.columns)[index as int] == self.strings@[index as int]@);
            Some(self.strings[index].as_str())
        } else {
            None
        }
    }

    pub fn profile(&self) -> (r: Option<&str>)
        ensures
            r matches Some(value) && value@ == cache::strings_of(
                self.columns(),
            )[self.columns().profile as int],
    {
        proof {
            use_type_invariant(self);
        }
        self.string(self.columns.profile as usize)
    }

    pub fn producer(&self) -> (r: Option<&str>)
        ensures
            r matches Some(value) && value@ == cache::strings_of(
                self.columns(),
            )[self.columns().producer as int],
    {
        proof {
            use_type_invariant(self);
        }
        self.string(self.columns.producer as usize)
    }

    pub fn frontend(&self) -> (r: Option<&str>)
        ensures
            r matches Some(value) && value@ == cache::strings_of(
                self.columns(),
            )[self.columns().frontend as int],
    {
        proof {
            use_type_invariant(self);
        }
        self.string(self.columns.frontend as usize)
    }

    /// The syntax node at a row.
    pub fn node(&self, index: usize) -> (r: Option<CachedNode<'_>>)
        ensures
            match r {
                Some(node) => index < self.columns().node_count && is_node(
                    node,
                    self.columns(),
                    index as int,
                ),
                None => index >= self.columns().node_count,
            },
    {
        proof {
            use_type_invariant(self);
            check::lemma_rows_fit(self.columns);
        }
        let c = &self.columns;
        if index >= c.node_count as usize {
            return None;
        }
        assert(c.nodes.kind@[index as int] < c.strings@.len());
        match self.string(c.nodes.kind[index] as usize) {
            Some(kind) => Some(
                CachedNode {
                    id: node_identity(c, &self.strings, index),
                    parent: optional_row(c.nodes.parent[index]),
                    child_ordinal: c.nodes.child_ordinal[index],
                    kind,
                    start_byte: c.nodes.start_byte[index] as u64,
                    end_byte: c.nodes.end_byte[index] as u64,
                    flags: c.nodes.flags[index],
                },
            ),
            None => None,
        }
    }

    /// The scope at a row.
    pub fn scope(&self, index: usize) -> (r: Option<CachedScope>)
        ensures
            match r {
                Some(scope) => index < self.columns().scope_count && is_scope(
                    scope,
                    self.columns(),
                    index as int,
                ),
                None => index >= self.columns().scope_count,
            },
    {
        proof {
            use_type_invariant(self);
            check::lemma_rows_fit(self.columns);
        }
        let s = &self.columns.scopes;
        if index >= self.columns.scope_count as usize {
            return None;
        }
        match AnalysisScopeKind::from_code(s.kind[index]) {
            Some(kind) => {
                let parent = optional_row(s.parent[index]);
                let depth = s.depth[index];
                let start_byte: u64 = s.start_byte[index] as u64;
                let end_byte: u64 = s.end_byte[index] as u64;
                Some(
                    CachedScope {
                        id: scope_id(parent, kind, depth, start_byte, end_byte),
                        parent,
                        kind,
                        depth,
                        start_byte,
                        end_byte,
                    },
                )
            },
            None => {
                assert(AnalysisScopeKind::from_code_spec(s.kind@[index as int]) is Some);
                None
            },
        }
    }

    /// The symbol at a row.
    pub fn symbol(&self, index: usize) -> (r: Option<CachedSymbol<'_>>)
        ensures
            match r {
                Some(symbol) => index < self.columns().symbol_count && is_symbol(
                    symbol,
                    self.columns(),
                    index as int,
                ),
                None => index >= self.columns().symbol_count,
            },
    {
        proof {
            use_type_invariant(self);
            check::lemma_rows_fit(self.columns);
        }
        let s = &self.columns.symbols;
        if index >= self.columns.symbol_count as usize {
            return None;
        }
        assert(s.name@[index as int] < self.columns.strings@.len());
        assert(AnalysisSymbolKind::from_code_spec(s.kind@[index as int]) is Some);
        match (self.string(s.name[index] as usize), AnalysisSymbolKind::from_code(s.kind[index])) {
            (Some(name), Some(kind)) => Some(
                CachedSymbol {
                    id: read_id(&s.ids, index),
                    declaration_node: s.declaration_node[index],
                    scope: s.scope[index],
                    name,
                    kind,
                    reference_first: s.reference_first[index],
                    reference_count: s.reference_count[index],
                },
            ),
            _ => None,
        }
    }

    /// The reference at a row.
    pub fn reference(&self, index: usize) -> (r: Option<CachedReference<'_>>)
        ensures
            match r {
                Some(reference) => index < self.columns().reference_count && is_reference(
                    reference,
                    self.columns(),
                    index as int,
                ),
                None => index >= self.columns().reference_count,
            },
    {
        proof {
            use_type_invariant(self);
            check::lemma_rows_fit(self.columns);
        }
        let s = &self.columns.references;
        if index >= self.columns.reference_count as usize {
            return None;
        }
        assert(s.name@[index as int] < self.columns.strings@.len());
        assert(AnalysisReferenceRole::from_code_spec(s.role@[index as int]) is Some);
        match (
            self.string(s.name[index] as usize),
            AnalysisReferenceRole::from_code(s.role[index]),
        ) {
            (Some(name), Some(role)) => Some(
                CachedReference {
                    id: read_id(&s.ids, index),
                    node: s.node[index],
                    scope: s.scope[index],
                    name,
                    role,
                },
            ),
            _ => None,
        }
    }

    /// The resolution at a row.
    pub fn def_use(&self, index: usize) -> (r: Option<CachedDefUse>)
        ensures
            match r {
                Some(edge) => index < self.columns().def_use_count && is_def_use(
                    edge,
                    self.columns(),
                    index as int,
                ),
                None => index >= self.columns().def_use_count,
            },
    {
        proof {
            use_type_invariant(self);
            check::lemma_rows_fit(self.columns);
        }
        let d = &self.columns.def_uses;
        if index >= self.columns.def_use_count as usize {
            return None;
        }
        assert(AnalysisResolution::from_code_spec(d.resolution@[index as int]) is Some);
        match AnalysisResolution::from_code(d.resolution[index]) {
            Some(resolution) => Some(
                CachedDefUse {
                    id: read_id(&d.ids, index),
                    reference: d.reference[index],
                    symbol: optional_row(d.symbol[index]),
                    resolution,
                },
            ),
            None => None,
        }
    }

    /// The call at a row.
    pub fn call(&self, index: usize) -> (r: Option<CachedCall<'_>>)
        ensures
            match r {
                Some(call) => index < self.columns().call_count && is_call(
                    call,
                    self.columns(),
                    index as int,
                ),
                None => index >= self.columns().call_count,
            },
    {
        proof {
            use_type_invariant(self);
            let rows = |i: int| cache::call_row_fault(self.columns, i);
            faults::lemma_first_of(self.columns.call_count as int, rows, 0);
            if index < self.columns.call_count {
                assert(rows(index as int) is None);
            }
        }
        let k = &self.columns.calls;
        if index >= self.columns.call_count as usize {
            return None;
        }
        let property = match optional_row(k.property[index]) {
            Some(row) => self.string(row as usize),
            None => None,
        };
        match AnalysisCallKind::from_code(k.kind[index]) {
            Some(kind) => Some(
                CachedCall {
                    id: read_id(&k.ids, index),
                    node: k.node[index],
                    callee_reference: optional_row(k.callee_reference[index]),
                    target_symbol: optional_row(k.target_symbol[index]),
                    property,
                    kind,
                },
            ),
            None => None,
        }
    }

    /// The loss at a row.
    pub fn loss(&self, index: usize) -> (r: Option<CachedLoss<'_>>)
        ensures
            match r {
                Some(loss) => index < self.columns().loss_count && is_loss(
                    loss,
                    self.columns(),
                    index as int,
                ),
                None => index >= self.columns().loss_count,
            },
    {
        proof {
            use_type_invariant(self);
            let rows = |i: int| cache::loss_row_fault(self.columns, i);
            faults::lemma_first_of(self.columns.loss_count as int, rows, 0);
            if index < self.columns.loss_count {
                assert(rows(index as int) is None);
            }
        }
        let l = &self.columns.losses;
        if index >= self.columns.loss_count as usize {
            return None;
        }
        match (self.string(l.message[index] as usize), LossCode::from_code(l.code[index])) {
            (Some(message), Some(code)) => Some(CachedLoss { code, message }),
            _ => None,
        }
    }
}

} // verus!
