//! What to tell about a refused analysis.

use vstd::prelude::*;
use vstd::string::*;

use super::validate::{
    AnalysisError, CallFault, NodeFault, ReferenceFault, ScopeFault, SymbolFault,
};
use crate::text;
use crate::text::numbered_text;

verus! {

impl NodeFault {
    /// What is wrong with a node.
    pub open spec fn text_spec(self) -> Seq<char> {
        match self {
            NodeFault::Span => " has an invalid source span"@,
            NodeFault::Flags => " has unknown flags"@,
            NodeFault::Parent => " has an invalid parent"@,
            NodeFault::NotPreOrder => " is not in syntax-tree pre-order"@,
            NodeFault::OutsideParent => " is outside its parent span"@,
            NodeFault::ChildOrdinal => " has an invalid child ordinal"@,
            NodeFault::TooManyChildren => " has too many siblings"@,
            NodeFault::RootOrdinal => " has an invalid root ordinal"@,
            NodeFault::KindString => " has an invalid kind string"@,
            NodeFault::SyntaxRoot => " is an invalid JavaScript syntax root"@,
            NodeFault::StableId => " has an invalid stable ID"@,
            NodeFault::RowNumber => " has no row number"@,
        }
    }

    pub fn text(self) -> (text: &'static str)
        ensures
            text@ == self.text_spec(),
    {
        match self {
            NodeFault::Span => " has an invalid source span",
            NodeFault::Flags => " has unknown flags",
            NodeFault::Parent => " has an invalid parent",
            NodeFault::NotPreOrder => " is not in syntax-tree pre-order",
            NodeFault::OutsideParent => " is outside its parent span",
            NodeFault::ChildOrdinal => " has an invalid child ordinal",
            NodeFault::TooManyChildren => " has too many siblings",
            NodeFault::RootOrdinal => " has an invalid root ordinal",
            NodeFault::KindString => " has an invalid kind string",
            NodeFault::SyntaxRoot => " is an invalid JavaScript syntax root",
            NodeFault::StableId => " has an invalid stable ID",
            NodeFault::RowNumber => " has no row number",
        }
    }
}

impl ScopeFault {
    /// What is wrong with a scope.
    pub open spec fn text_spec(self) -> Seq<char> {
        match self {
            ScopeFault::Span => " has an invalid source span"@,
            ScopeFault::Parent => " has an invalid parent"@,
            ScopeFault::GlobalScope => " is an invalid global scope"@,
            ScopeFault::NoParent => " has no parent"@,
            ScopeFault::Inconsistent => " is inconsistent with its parent"@,
            ScopeFault::StableId => " has an invalid stable ID"@,
            ScopeFault::Duplicate => " duplicates another scope identity"@,
        }
    }

    pub fn text(self) -> (text: &'static str)
        ensures
            text@ == self.text_spec(),
    {
        match self {
            ScopeFault::Span => " has an invalid source span",
            ScopeFault::Parent => " has an invalid parent",
            ScopeFault::GlobalScope => " is an invalid global scope",
            ScopeFault::NoParent => " has no parent",
            ScopeFault::Inconsistent => " is inconsistent with its parent",
            ScopeFault::StableId => " has an invalid stable ID",
            ScopeFault::Duplicate => " duplicates another scope identity",
        }
    }
}

impl SymbolFault {
    /// What is wrong with a symbol.
    pub open spec fn text_spec(self) -> Seq<char> {
        match self {
            SymbolFault::RowReference => " contains an invalid row reference"@,
            SymbolFault::ReusedNode => " reuses another symbol's declaration node"@,
            SymbolFault::OutsideScope => " is outside its declared scope"@,
            SymbolFault::StableId => " has an invalid stable ID"@,
            SymbolFault::RangeOverflow => " reference range overflows"@,
            SymbolFault::ReferenceRange => " has an invalid reference range"@,
        }
    }

    pub fn text(self) -> (text: &'static str)
        ensures
            text@ == self.text_spec(),
    {
        match self {
            SymbolFault::RowReference => " contains an invalid row reference",
            SymbolFault::ReusedNode => " reuses another symbol's declaration node",
            SymbolFault::OutsideScope => " is outside its declared scope",
            SymbolFault::StableId => " has an invalid stable ID",
            SymbolFault::RangeOverflow => " reference range overflows",
            SymbolFault::ReferenceRange => " has an invalid reference range",
        }
    }
}

impl ReferenceFault {
    /// What is wrong with a reference or its resolution.
    pub open spec fn text_spec(self) -> Seq<char> {
        match self {
            ReferenceFault::RowReference => " contains an invalid row reference"@,
            ReferenceFault::ReusedNode => " reuses another reference node"@,
            ReferenceFault::OutsideScope => " is outside its recorded scope"@,
            ReferenceFault::StableId => " has an invalid stable ID"@,
            ReferenceFault::Resolution => " contains an invalid resolution"@,
            ReferenceFault::DefUseStableId => " has a resolution with an invalid stable ID"@,
        }
    }

    pub fn text(self) -> (text: &'static str)
        ensures
            text@ == self.text_spec(),
    {
        match self {
            ReferenceFault::RowReference => " contains an invalid row reference",
            ReferenceFault::ReusedNode => " reuses another reference node",
            ReferenceFault::OutsideScope => " is outside its recorded scope",
            ReferenceFault::StableId => " has an invalid stable ID",
            ReferenceFault::Resolution => " contains an invalid resolution",
            ReferenceFault::DefUseStableId => " has a resolution with an invalid stable ID",
        }
    }
}

impl CallFault {
    /// What is wrong with a call.
    pub open spec fn text_spec(self) -> Seq<char> {
        match self {
            CallFault::RowReference => " contains an invalid row reference"@,
            CallFault::ReusedNode => " reuses another call node"@,
            CallFault::NodeKind => " has an invalid syntax node kind"@,
            CallFault::CalleeOutside => " callee is outside the call expression"@,
            CallFault::NoCallee => " has no callee"@,
            CallFault::DirectShape => " has inconsistent direct-call relationships"@,
            CallFault::CalleeRole => " has an invalid callee role"@,
            CallFault::MemberShape => " has inconsistent member-call relationships"@,
            CallFault::DynamicShape => " has inconsistent dynamic-call relationships"@,
            CallFault::StableId => " has an invalid stable ID"@,
        }
    }

    pub fn text(self) -> (text: &'static str)
        ensures
            text@ == self.text_spec(),
    {
        match self {
            CallFault::RowReference => " contains an invalid row reference",
            CallFault::ReusedNode => " reuses another call node",
            CallFault::NodeKind => " has an invalid syntax node kind",
            CallFault::CalleeOutside => " callee is outside the call expression",
            CallFault::NoCallee => " has no callee",
            CallFault::DirectShape => " has inconsistent direct-call relationships",
            CallFault::CalleeRole => " has an invalid callee role",
            CallFault::MemberShape => " has inconsistent member-call relationships",
            CallFault::DynamicShape => " has inconsistent dynamic-call relationships",
            CallFault::StableId => " has an invalid stable ID",
        }
    }
}

impl AnalysisError {
    /// What to tell about the refusal.
    pub open spec fn message_spec(self) -> Seq<char> {
        match self {
            AnalysisError::UnsupportedProfile => "unsupported analysis version or profile"@,
            AnalysisError::SourceTooLarge => "analysis v1 supports source artifacts smaller than 4 GiB"@,
            AnalysisError::NoRootOrScope => "analysis requires a syntax root and global scope"@,
            AnalysisError::RowCountsDiffer => "reference and def-use row counts differ"@,
            AnalysisError::StrayResolution => "resolved def-use row is outside its symbol reference range"@,
            AnalysisError::TooManyRows => "analysis has more rows than a row number counts"@,
            AnalysisError::MissingNode => "a binding has no syntax node"@,
            AnalysisError::Node(_, NodeFault::SyntaxRoot) =>
                "analysis has an invalid JavaScript syntax root"@,
            AnalysisError::Scope(_, ScopeFault::GlobalScope) =>
                "analysis has an invalid global scope"@,
            AnalysisError::Reference(row, ReferenceFault::Resolution) => "def-use "@
                + text::decimal_of(row as nat) + " contains an invalid resolution"@,
            AnalysisError::Reference(row, ReferenceFault::DefUseStableId) => "def-use "@
                + text::decimal_of(row as nat) + " has an invalid stable ID"@,
            AnalysisError::Node(row, fault) => "node "@ + text::decimal_of(row as nat) + fault.text_spec(),
            AnalysisError::Scope(row, fault) => "scope "@ + text::decimal_of(row as nat) + fault.text_spec(),
            AnalysisError::Symbol(row, fault) => "symbol "@ + text::decimal_of(row as nat) + fault.text_spec(),
            AnalysisError::Reference(row, fault) => "reference "@ + text::decimal_of(row as nat) + fault.text_spec(),
            AnalysisError::Call(row, fault) => "call "@ + text::decimal_of(row as nat) + fault.text_spec(),
            AnalysisError::ForeignReference(row) => "symbol "@ + text::decimal_of(row as nat) + " reference range contains another symbol"@,
            AnalysisError::Loss(row) => "loss "@ + text::decimal_of(row as nat) + " contains an invalid message reference"@,
        }
    }

    /// What to tell about the refusal.
    pub fn message(self) -> (message: String)
        ensures
            message@ == self.message_spec(),
    {
        match self {
            AnalysisError::UnsupportedProfile => "unsupported analysis version or profile".to_string(),
            AnalysisError::SourceTooLarge => "analysis v1 supports source artifacts smaller than 4 GiB".to_string(),
            AnalysisError::NoRootOrScope => "analysis requires a syntax root and global scope".to_string(),
            AnalysisError::RowCountsDiffer => "reference and def-use row counts differ".to_string(),
            AnalysisError::StrayResolution => "resolved def-use row is outside its symbol reference range".to_string(),
            AnalysisError::TooManyRows => "analysis has more rows than a row number counts".to_string(),
            AnalysisError::MissingNode => "a binding has no syntax node".to_string(),
            AnalysisError::Node(_, NodeFault::SyntaxRoot) =>
                "analysis has an invalid JavaScript syntax root".to_string(),
            AnalysisError::Scope(_, ScopeFault::GlobalScope) =>
                "analysis has an invalid global scope".to_string(),
            AnalysisError::Reference(row, ReferenceFault::Resolution) => numbered_text(
                "def-use ",
                row as u64,
                " contains an invalid resolution",
            ),
            AnalysisError::Reference(row, ReferenceFault::DefUseStableId) => numbered_text(
                "def-use ",
                row as u64,
                " has an invalid stable ID",
            ),
            AnalysisError::Node(row, fault) => numbered_text("node ", row as u64, fault.text()),
            AnalysisError::Scope(row, fault) => numbered_text("scope ", row as u64, fault.text()),
            AnalysisError::Symbol(row, fault) => numbered_text("symbol ", row as u64, fault.text()),
            AnalysisError::Reference(row, fault) => numbered_text("reference ", row as u64, fault.text()),
            AnalysisError::Call(row, fault) => numbered_text("call ", row as u64, fault.text()),
            AnalysisError::ForeignReference(row) => numbered_text("symbol ", row as u64, " reference range contains another symbol"),
            AnalysisError::Loss(row) => numbered_text("loss ", row as u64, " contains an invalid message reference"),
        }
    }
}

} // verus!
