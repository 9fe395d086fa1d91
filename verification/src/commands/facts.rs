//! Answers to questions about persisted facts.

use vstd::prelude::*;
use vstd::string::*;

use crate::analysis::view::{
    AnalysisCacheView, CachedCall, CachedDefUse, CachedLoss, CachedNode, CachedReference,
    CachedScope, CachedSymbol,
};
use crate::cli::AnalysisQuery;
use crate::text::decimal_text;

use crate::analysis::{cache, columns, view};
use crate::text;

verus! {

/// A table of facts.
#[derive(Debug, Clone, Copy, PartialEq, Eq, Structural)]
pub enum FactTable {
    Node,
    Scope,
    Symbol,
    Reference,
    DefUse,
    Call,
    Loss,
    String,
}

impl FactTable {
    /// The word for a row of the table.
    pub open spec fn label_spec(self) -> Seq<char> {
        match self {
            FactTable::Node => "node"@,
            FactTable::Scope => "scope"@,
            FactTable::Symbol => "symbol"@,
            FactTable::Reference => "reference"@,
            FactTable::DefUse => "def-use"@,
            FactTable::Call => "call"@,
            FactTable::Loss => "loss"@,
            FactTable::String => "string"@,
        }
    }

    /// The word for a row of the table.
    pub fn label(self) -> (word: &'static str)
        ensures
            word@ == self.label_spec(),
    {
        match self {
            FactTable::Node => "node",
            FactTable::Scope => "scope",
            FactTable::Symbol => "symbol",
            FactTable::Reference => "reference",
            FactTable::DefUse => "def-use",
            FactTable::Call => "call",
            FactTable::Loss => "loss",
            FactTable::String => "string",
        }
    }
}

/// A question about a row that a table does not have.
#[derive(Debug, Clone, Copy, PartialEq, Eq, Structural)]
pub struct OutOfRange {
    pub table: FactTable,
    pub index: usize,
}

impl OutOfRange {
    /// What to tell about the refusal.
    pub open spec fn message_spec(self) -> Seq<char> {
        self.table.label_spec() + " index "@ + text::decimal_of(self.index as nat)
            + " is out of range"@
    }

    /// What to tell about the refusal.
    pub fn message(self) -> (message: String)
        ensures
            message@ == self.message_spec(),
    {
        self.table.label().to_string().concat(" index ").concat(
            decimal_text(self.index as u64).as_str(),
        ).concat(" is out of range")
    }
}

/// What is told of persisted facts as a whole.
pub struct FactsSummary<'a> {
    pub profile: Option<&'a str>,
    pub producer: Option<&'a str>,
    pub frontend: Option<&'a str>,
    pub source_digest: [u8; 32],
    pub source_length: u64,
    pub nodes: usize,
    pub scopes: usize,
    pub symbols: usize,
    pub references: usize,
    pub def_uses: usize,
    pub calls: usize,
    pub losses: usize,
}

/// The answer to a question about persisted facts.
pub enum FactsAnswer<'a> {
    Summary(FactsSummary<'a>),
    Node(CachedNode<'a>),
    Scope(CachedScope),
    Symbol(CachedSymbol<'a>),
    Reference(CachedReference<'a>),
    DefUse(CachedDefUse),
    Call(CachedCall<'a>),
    Loss(CachedLoss<'a>),
    String(&'a str),
}

/// Whether an optional text is a string row.
pub open spec fn is_row(value: Option<&str>, c: columns::AnalysisColumns, row: u32) -> bool {
    value matches Some(value) && value@ == cache::strings_of(c)[row as int]
}

/// Whether a summary tells of columns.
pub open spec fn is_summary(
    summary: FactsSummary<'_>,
    c: columns::AnalysisColumns,
    source_digest: Seq<u8>,
) -> bool {
    &&& is_row(summary.profile, c, c.profile)
    &&& is_row(summary.producer, c, c.producer)
    &&& is_row(summary.frontend, c, c.frontend)
    &&& summary.source_digest@ == source_digest
    &&& summary.source_length == c.source_length
    &&& summary.nodes == c.node_count
    &&& summary.scopes == c.scope_count
    &&& summary.symbols == c.symbol_count
    &&& summary.references == c.reference_count
    &&& summary.def_uses == c.def_use_count
    &&& summary.calls == c.call_count
    &&& summary.losses == c.loss_count
}

/// Whether an outcome answers a question: a row that the table has is told,
/// and any other is refused.
pub open spec fn answers(
    r: Result<FactsAnswer<'_>, OutOfRange>,
    c: columns::AnalysisColumns,
    source_digest: Seq<u8>,
    query: AnalysisQuery,
) -> bool {
    match query {
        AnalysisQuery::Summary => r matches Ok(FactsAnswer::Summary(summary)) && is_summary(
            summary,
            c,
            source_digest,
        ),
        AnalysisQuery::Node { index } => if index < c.node_count {
            r matches Ok(FactsAnswer::Node(row)) && view::is_node(row, c, index as int)
        } else {
            r matches Err(error) && error == (OutOfRange { table: FactTable::Node, index })
        },
        AnalysisQuery::Scope { index } => if index < c.scope_count {
            r matches Ok(FactsAnswer::Scope(row)) && view::is_scope(row, c, index as int)
        } else {
            r matches Err(error) && error == (OutOfRange { table: FactTable::Scope, index })
        },
        AnalysisQuery::Symbol { index } => if index < c.symbol_count {
            r matches Ok(FactsAnswer::Symbol(row)) && view::is_symbol(row, c, index as int)
        } else {
            r matches Err(error) && error == (OutOfRange { table: FactTable::Symbol, index })
        },
        AnalysisQuery::Reference { index } => if index < c.reference_count {
            r matches Ok(FactsAnswer::Reference(row)) && view::is_reference(row, c, index as int)
        } else {
            r matches Err(error) && error == (OutOfRange { table: FactTable::Reference, index })
        },
        AnalysisQuery::DefUse { index } => if index < c.def_use_count {
            r matches Ok(FactsAnswer::DefUse(row)) && view::is_def_use(row, c, index as int)
        } else {
            r matches Err(error) && error == (OutOfRange { table: FactTable::DefUse, index })
        },
        AnalysisQuery::Call { index } => if index < c.call_count {
            r matches Ok(FactsAnswer::Call(row)) && view::is_call(row, c, index as int)
        } else {
            r matches Err(error) && error == (OutOfRange { table: FactTable::Call, index })
        },
        AnalysisQuery::Loss { index } => if index < c.loss_count {
            r matches Ok(FactsAnswer::Loss(row)) && view::is_loss(row, c, index as int)
        } else {
            r matches Err(error) && error == (OutOfRange { table: FactTable::Loss, index })
        },
        AnalysisQuery::String { index } => if index < c.strings@.len() {
            r matches Ok(FactsAnswer::String(value)) && value@ == cache::strings_of(
                c,
            )[index as int]
        } else {
            r matches Err(error) && error == (OutOfRange { table: FactTable::String, index })
        },
    }
}

/// Answers a question about persisted facts.
pub fn answer_facts<'a>(facts: &'a AnalysisCacheView, query: AnalysisQuery) -> (r: Result<
    FactsAnswer<'a>,
    OutOfRange,
>)
    ensures
        answers(r, facts.columns(), facts.digest(), query),
{
    match query {
        AnalysisQuery::Summary => Ok(
            FactsAnswer::Summary(
                FactsSummary {
                    profile: facts.profile(),
                    producer: facts.producer(),
                    frontend: facts.frontend(),
                    source_digest: facts.source_digest(),
                    source_length: facts.source_length(),
                    nodes: facts.node_count(),
                    scopes: facts.scope_count(),
                    symbols: facts.symbol_count(),
                    references: facts.reference_count(),
                    def_uses: facts.def_use_count(),
                    calls: facts.call_count(),
                    losses: facts.loss_count(),
                },
            ),
        ),
        AnalysisQuery::Node { index } => match facts.node(index) {
            Some(row) => Ok(FactsAnswer::Node(row)),
            None => Err(OutOfRange { table: FactTable::Node, index }),
        },
        AnalysisQuery::Scope { index } => match facts.scope(index) {
            Some(row) => Ok(FactsAnswer::Scope(row)),
            None => Err(OutOfRange { table: FactTable::Scope, index }),
        },
        AnalysisQuery::Symbol { index } => match facts.symbol(index) {
            Some(row) => Ok(FactsAnswer::Symbol(row)),
            None => Err(OutOfRange { table: FactTable::Symbol, index }),
        },
        AnalysisQuery::Reference { index } => match facts.reference(index) {
            Some(row) => Ok(FactsAnswer::Reference(row)),
            None => Err(OutOfRange { table: FactTable::Reference, index }),
        },
        AnalysisQuery::DefUse { index } => match facts.def_use(index) {
            Some(row) => Ok(FactsAnswer::DefUse(row)),
            None => Err(OutOfRange { table: FactTable::DefUse, index }),
        },
        AnalysisQuery::Call { index } => match facts.call(index) {
            Some(row) => Ok(FactsAnswer::Call(row)),
            None => Err(OutOfRange { table: FactTable::Call, index }),
        },
        AnalysisQuery::Loss { index } => match facts.loss(index) {
            Some(row) => Ok(FactsAnswer::Loss(row)),
            None => Err(OutOfRange { table: FactTable::Loss, index }),
        },
        AnalysisQuery::String { index } => match facts.string(index) {
            Some(value) => Ok(FactsAnswer::String(value)),
            None => Err(OutOfRange { table: FactTable::String, index }),
        },
    }
}

} // verus!
