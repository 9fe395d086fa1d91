//! What to tell about refused columns.

use vstd::prelude::*;
use vstd::string::*;

use super::cache::{CacheError, CacheTable, CodeKind, MetadataField};
use super::columns::EncodeError;
use super::validate::{NodeFault, ScopeFault, SymbolFault};
use crate::text;
use crate::text::{decimal_text, numbered_text};

verus! {

impl CacheTable {
    /// The name of the table.
    pub open spec fn label_spec(self) -> Seq<char> {
        match self {
            CacheTable::Nodes => "node"@,
            CacheTable::Scopes => "scope"@,
            CacheTable::Symbols => "symbol"@,
            CacheTable::References => "reference"@,
            CacheTable::DefUses => "def-use"@,
            CacheTable::Calls => "call"@,
            CacheTable::Losses => "loss"@,
        }
    }

    /// The name of the table.
    pub fn label(self) -> (message: &'static str)
        ensures
            message@ == self.label_spec(),
    {
        match self {
            CacheTable::Nodes => "node",
            CacheTable::Scopes => "scope",
            CacheTable::Symbols => "symbol",
            CacheTable::References => "reference",
            CacheTable::DefUses => "def-use",
            CacheTable::Calls => "call",
            CacheTable::Losses => "loss",
        }
    }
}

impl MetadataField {
    /// The name of the field.
    pub open spec fn label_spec(self) -> Seq<char> {
        match self {
            MetadataField::Profile => "profile"@,
            MetadataField::Producer => "producer"@,
            MetadataField::ProducerVersion => "producer_version"@,
            MetadataField::Frontend => "frontend"@,
            MetadataField::FrontendVersion => "frontend_version"@,
        }
    }

    /// The name of the field.
    pub fn label(self) -> (message: &'static str)
        ensures
            message@ == self.label_spec(),
    {
        match self {
            MetadataField::Profile => "profile",
            MetadataField::Producer => "producer",
            MetadataField::ProducerVersion => "producer_version",
            MetadataField::Frontend => "frontend",
            MetadataField::FrontendVersion => "frontend_version",
        }
    }
}

impl CodeKind {
    /// What the number is.
    pub open spec fn label_spec(self) -> Seq<char> {
        match self {
            CodeKind::Scope => "scope kind code"@,
            CodeKind::Symbol => "symbol kind code"@,
            CodeKind::Role => "reference role code"@,
            CodeKind::Resolution => "resolution code"@,
            CodeKind::Call => "call kind code"@,
            CodeKind::Loss => "loss code"@,
        }
    }

    /// What the number is.
    pub fn label(self) -> (message: &'static str)
        ensures
            message@ == self.label_spec(),
    {
        match self {
            CodeKind::Scope => "scope kind code",
            CodeKind::Symbol => "symbol kind code",
            CodeKind::Role => "reference role code",
            CodeKind::Resolution => "resolution code",
            CodeKind::Call => "call kind code",
            CodeKind::Loss => "loss code",
        }
    }
}

impl CacheError {
    /// What to tell about the refusal.
    pub open spec fn message_spec(self) -> Seq<char> {
        match self {
            CacheError::Version(row) => "unsupported analysis format version "@ + text::decimal_of(row as nat),
            CacheError::Language(row) => "unsupported analysis language code "@ + text::decimal_of(row as nat),
            CacheError::DigestLength(row) => "source_digest has length "@ + text::decimal_of(row as nat) + ", expected 32"@,
            CacheError::DigestMismatch => "analysis envelope and payload source digests disagree"@,
            CacheError::SourceTooLarge => "analysis v1 supports source artifacts smaller than 4 GiB"@,
            CacheError::NoRootOrScope => "analysis requires a syntax root and global scope"@,
            CacheError::NotText(row) => "string row "@ + text::decimal_of(row as nat) + " is not valid UTF-8"@,
            CacheError::MetadataRow(field) => field.label_spec() + " references an invalid string row"@,
            CacheError::Unsupported(field) => "unsupported analysis "@ + field.label_spec(),
            CacheError::RowCount { table, column, actual, expected } => table.label_spec() + " column "@ + text::decimal_of(column as nat) + " has "@ + text::decimal_of(actual as nat) + " rows, expected "@ + text::decimal_of(expected as nat),
            CacheError::IdBytes(table) => table.label_spec() + "_ids has the wrong byte length"@,
            CacheError::UnknownCode(kind, row) => "unknown "@ + kind.label_spec() + " "@ + text::decimal_of(row as nat),
            CacheError::Node(row, NodeFault::Parent) => "node "@ + text::decimal_of(row as nat) + " has an invalid parent row"@,
            CacheError::Node(_, NodeFault::SyntaxRoot) => "analysis has an invalid JavaScript syntax root"@,
            CacheError::Node(row, fault) => "node "@ + text::decimal_of(row as nat) + fault.text_spec(),
            CacheError::Scope(row, ScopeFault::Parent) => "scope "@ + text::decimal_of(row as nat) + " has an invalid parent row"@,
            CacheError::Scope(_, ScopeFault::GlobalScope) => "analysis has an invalid global scope"@,
            CacheError::Scope(row, fault) => "scope "@ + text::decimal_of(row as nat) + fault.text_spec(),
            CacheError::Symbol(row, fault) => "symbol "@ + text::decimal_of(row as nat) + fault.text_spec(),
            CacheError::Reference(row, SymbolFault::ReusedNode) => "reference "@ + text::decimal_of(row as nat) + " reuses another reference node"@,
            CacheError::Reference(row, SymbolFault::OutsideScope) => "reference "@ + text::decimal_of(row as nat) + " is outside its recorded scope"@,
            CacheError::Reference(row, fault) => "reference "@ + text::decimal_of(row as nat) + fault.text_spec(),
            CacheError::RowCountsDiffer => "reference and def-use row counts differ"@,
            CacheError::Resolution(row) => "def-use "@ + text::decimal_of(row as nat) + " contains an invalid resolution"@,
            CacheError::ForeignReference(row) => "symbol "@ + text::decimal_of(row as nat) + " reference range contains another symbol"@,
            CacheError::StrayResolution => "resolved def-use row is outside its symbol reference range"@,
            CacheError::Call(row, fault) => "call "@ + text::decimal_of(row as nat) + fault.text_spec(),
            CacheError::CallTarget(row) => "call "@ + text::decimal_of(row as nat) + " target does not match its callee def-use"@,
            CacheError::Loss(row) => "loss "@ + text::decimal_of(row as nat) + " has an invalid message string"@,
            CacheError::ReferenceId(row) => "reference "@ + text::decimal_of(row as nat) + " has an invalid stable ID"@,
            CacheError::DefUseId(row) => "def-use "@ + text::decimal_of(row as nat) + " has an invalid stable ID"@,
        }
    }

    /// What to tell about the refusal.
    pub fn message(self) -> (message: String)
        ensures
            message@ == self.message_spec(),
    {
        match self {
            CacheError::Version(row) => "unsupported analysis format version ".to_string().concat(decimal_text(row as u64).as_str()),
            CacheError::Language(row) => "unsupported analysis language code ".to_string().concat(decimal_text(row as u64).as_str()),
            CacheError::DigestLength(row) => numbered_text("source_digest has length ", row as u64, ", expected 32"),
            CacheError::DigestMismatch => "analysis envelope and payload source digests disagree".to_string(),
            CacheError::SourceTooLarge => "analysis v1 supports source artifacts smaller than 4 GiB".to_string(),
            CacheError::NoRootOrScope => "analysis requires a syntax root and global scope".to_string(),
            CacheError::NotText(row) => numbered_text("string row ", row as u64, " is not valid UTF-8"),
            CacheError::MetadataRow(field) => field.label().to_string().concat(" references an invalid string row"),
            CacheError::Unsupported(field) => "unsupported analysis ".to_string().concat(field.label()),
            CacheError::RowCount { table, column, actual, expected } => table.label().to_string().concat(" column ").concat(decimal_text(column as u64).as_str()).concat(" has ").concat(decimal_text(actual as u64).as_str()).concat(" rows, expected ").concat(decimal_text(expected as u64).as_str()),
            CacheError::IdBytes(table) => table.label().to_string().concat("_ids has the wrong byte length"),
            CacheError::UnknownCode(kind, row) => "unknown ".to_string().concat(kind.label()).concat(" ").concat(decimal_text(row as u64).as_str()),
            CacheError::Node(row, NodeFault::Parent) => numbered_text("node ", row as u64, " has an invalid parent row"),
            CacheError::Node(_, NodeFault::SyntaxRoot) => "analysis has an invalid JavaScript syntax root".to_string(),
            CacheError::Node(row, fault) => numbered_text("node ", row as u64, fault.text()),
            CacheError::Scope(row, ScopeFault::Parent) => numbered_text("scope ", row as u64, " has an invalid parent row"),
            CacheError::Scope(_, ScopeFault::GlobalScope) => "analysis has an invalid global scope".to_string(),
            CacheError::Scope(row, fault) => numbered_text("scope ", row as u64, fault.text()),
            CacheError::Symbol(row, fault) => numbered_text("symbol ", row as u64, fault.text()),
            CacheError::Reference(row, SymbolFault::ReusedNode) => numbered_text("reference ", row as u64, " reuses another reference node"),
            CacheError::Reference(row, SymbolFault::OutsideScope) => numbered_text("reference ", row as u64, " is outside its recorded scope"),
            CacheError::Reference(row, fault) => numbered_text("reference ", row as u64, fault.text()),
            CacheError::RowCountsDiffer => "reference and def-use row counts differ".to_string(),
            CacheError::Resolution(row) => numbered_text("def-use ", row as u64, " contains an invalid resolution"),
            CacheError::ForeignReference(row) => numbered_text("symbol ", row as u64, " reference range contains another symbol"),
            CacheError::StrayResolution => "resolved def-use row is outside its symbol reference range".to_string(),
            CacheError::Call(row, fault) => numbered_text("call ", row as u64, fault.text()),
            CacheError::CallTarget(row) => numbered_text("call ", row as u64, " target does not match its callee def-use"),
            CacheError::Loss(row) => numbered_text("loss ", row as u64, " has an invalid message string"),
            CacheError::ReferenceId(row) => numbered_text("reference ", row as u64, " has an invalid stable ID"),
            CacheError::DefUseId(row) => numbered_text("def-use ", row as u64, " has an invalid stable ID"),
        }
    }
}

impl EncodeError {
    /// What to tell about the refusal.
    pub open spec fn message_spec(&self) -> Seq<char> {
        match self {
            EncodeError::Invalid(error) => error.message_spec(),
            EncodeError::MissingString(value) => "metadata string '"@ + value@ + "' is missing from the string table"@,
            EncodeError::TooManyRows => "analysis has more rows than a row number counts"@,
        }
    }

    /// What to tell about the refusal.
    pub fn message(&self) -> (message: String)
        ensures
            message@ == self.message_spec(),
    {
        match self {
            EncodeError::Invalid(error) => error.message(),
            EncodeError::MissingString(value) => "metadata string '".to_string().concat(value.as_str()).concat("' is missing from the string table"),
            EncodeError::TooManyRows => "analysis has more rows than a row number counts".to_string(),
        }
    }
}

} // verus!
