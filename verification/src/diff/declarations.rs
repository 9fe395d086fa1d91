//! The declarations of a text.

use vstd::prelude::*;
use vstd::string::*;
use vstd::utf8::*;

use super::alpha::{Bindings, Tokens};
use super::fingerprint::{FingerprintExtractor, FunctionFingerprint};
use super::hashes::{collect_structural_hashes, hash_nodes, minhash, MINHASH_LANES};
use super::{DiffError, StructuralDiff};
use crate::syntax::SyntaxTree;
use crate::text::{decimal_text, numbered_text, same_text};

use super::alpha::{BindingsModel, TokensModel};
use super::fingerprint::FingerprintModel;
use super::{alpha, fingerprint, hashes};
use crate::syntax::RowModel;
use crate::{pretty, sets, syntax, text};

verus! {

/// What a declaration declares.
#[derive(Debug, Clone, Copy, PartialEq, Eq, Structural)]
pub enum DeclarationKind {
    Function,
    Variable,
    Class,
    Import,
    Export,
}

impl DeclarationKind {
    /// The word for a kind.
    pub open spec fn label_spec(self) -> Seq<char> {
        match self {
            DeclarationKind::Function => "function"@,
            DeclarationKind::Variable => "variable"@,
            DeclarationKind::Class => "class"@,
            DeclarationKind::Import => "import"@,
            DeclarationKind::Export => "export"@,
        }
    }

    /// The word for a kind.
    pub fn label(self) -> (word: &'static str)
        ensures
            word@ == self.label_spec(),
    {
        match self {
            DeclarationKind::Function => "function",
            DeclarationKind::Variable => "variable",
            DeclarationKind::Class => "class",
            DeclarationKind::Import => "import",
            DeclarationKind::Export => "export",
        }
    }
}

/// A declaration of a text.
#[derive(Debug, Clone)]
pub struct Declaration {
    pub name: String,
    pub kind: DeclarationKind,
    pub line: usize,
    pub end_line: usize,
    pub start_byte: usize,
    pub end_byte: usize,
    pub node_kind: &'static str,
    pub signature: String,
    /// Ascending, each once.
    pub structural_hashes: Vec<u64>,
    pub size: usize,
    pub minhash_signature: [u64; MINHASH_LANES],
    pub fingerprint: Option<FunctionFingerprint>,
    /// The syntax that is compared.
    pub comparison: Tokens,
}

/// The model of a [`Declaration`].
pub struct DeclarationModel {
    pub name: Seq<char>,
    pub kind: DeclarationKind,
    pub line: int,
    pub end_line: int,
    pub start_byte: int,
    pub end_byte: int,
    pub node_kind: Seq<char>,
    pub signature: Seq<char>,
    pub structural_hashes: Seq<u64>,
    pub size: int,
    pub minhash_signature: Seq<u64>,
    pub fingerprint: Option<FingerprintModel>,
    pub comparison: TokensModel,
}

/// A fingerprint seen as its model.
pub open spec fn fingerprint_view(f: Option<FunctionFingerprint>) -> Option<FingerprintModel> {
    match f {
        Some(f) => Some(f@),
        None => None,
    }
}

impl View for Declaration {
    type V = DeclarationModel;

    open spec fn view(&self) -> DeclarationModel {
        DeclarationModel {
            name: self.name@,
            kind: self.kind,
            line: self.line as int,
            end_line: self.end_line as int,
            start_byte: self.start_byte as int,
            end_byte: self.end_byte as int,
            node_kind: self.node_kind@,
            signature: self.signature@,
            structural_hashes: self.structural_hashes@,
            size: self.size as int,
            minhash_signature: self.minhash_signature@,
            fingerprint: fingerprint_view(self.fingerprint),
            comparison: self.comparison@,
        }
    }
}

/// Declarations seen as their models.
pub open spec fn declaration_views(list: Seq<Declaration>) -> Seq<DeclarationModel> {
    list.map_values(|d: Declaration| d@)
}

/// How many of the first `count` children have one of two kinds.
pub open spec fn of_kinds_upto(
    rows: Seq<RowModel>,
    children: Seq<int>,
    first: Seq<char>,
    second: Seq<char>,
    count: int,
) -> nat
    decreases count,
{
    if count <= 0 {
        0
    } else {
        let kind = rows[children[count - 1]].kind;
        of_kinds_upto(rows, children, first, second, count - 1) + if kind == first || kind
            == second {
            1nat
        } else {
            0
        }
    }
}

/// How many children of a node have one of two kinds.
pub open spec fn of_kinds(
    rows: Seq<RowModel>,
    i: int,
    first: Seq<char>,
    second: Seq<char>,
) -> nat {
    let children = syntax::children_of(rows, i);
    of_kinds_upto(rows, children, first, second, children.len() as int)
}

/// How many of the first `count` children are neither braces nor semicolons.
pub open spec fn statements_upto(rows: Seq<RowModel>, children: Seq<int>, count: int) -> nat
    decreases count,
{
    if count <= 0 {
        0
    } else {
        let kind = rows[children[count - 1]].kind;
        statements_upto(rows, children, count - 1) + if kind == "{"@ || kind == "}"@ || kind
            == ";"@ {
            0nat
        } else {
            1
        }
    }
}

/// How many statements a block holds.
pub open spec fn statements_in(rows: Seq<RowModel>, i: int) -> nat {
    let children = syntax::children_of(rows, i);
    statements_upto(rows, children, children.len() as int)
}

/// The shape of a function: how many parameters and statements it has.
pub open spec fn function_signature(rows: Seq<RowModel>, i: int) -> Seq<char> {
    let parameters = match syntax::child_by_field(rows, i, "parameters"@) {
        Some(p) => of_kinds(rows, p, "identifier"@, "formal_parameters"@),
        None => 0,
    };
    let statements = match syntax::child_by_field(rows, i, "body"@) {
        Some(b) => statements_in(rows, b),
        None => 0,
    };
    "function(params:"@ + text::decimal_of(parameters) + ",stmts:"@ + text::decimal_of(statements)
        + ")"@
}

/// How many parameters a function value has.
pub open spec fn parameter_count(rows: Seq<RowModel>, i: int) -> nat {
    match syntax::child_by_field(rows, i, "parameters"@) {
        Some(p) => syntax::children_of(rows, p).len(),
        None => if syntax::child_by_field(rows, i, "parameter"@) is Some {
            1
        } else {
            0
        },
    }
}

/// The shape of a variable: what it is set to.
pub open spec fn variable_signature(rows: Seq<RowModel>, source: Seq<char>, i: int) -> Seq<char> {
    match syntax::child_by_field(rows, i, "value"@) {
        None => "var=undefined"@,
        Some(value) => {
            let kind = rows[value].kind;
            let spelling = syntax::text_of(rows, source, value);
            if kind == "number"@ {
                "var=number:"@ + spelling
            } else if kind == "string"@ {
                "var=string:len"@ + text::decimal_of(encode_utf8(spelling).len())
            } else if kind == "true"@ || kind == "false"@ {
                "var=bool:"@ + kind
            } else if kind == "array"@ {
                "var=array:len"@ + text::decimal_of(syntax::children_of(rows, value).len())
            } else if kind == "object"@ {
                "var=object:props"@ + text::decimal_of(of_kinds(rows, value, "pair"@, "pair"@))
            } else if kind == "arrow_function"@ || kind == "function"@ {
                "var=function:params"@ + text::decimal_of(parameter_count(rows, value))
            } else {
                "var="@ + kind
            }
        },
    }
}

/// The shape of a class: how many methods and fields it has.
pub open spec fn class_signature(rows: Seq<RowModel>, i: int) -> Seq<char> {
    match syntax::child_by_field(rows, i, "body"@) {
        Some(b) => "class(methods:"@ + text::decimal_of(
            of_kinds(rows, b, "method_definition"@, "method_definition"@),
        ) + ",fields:"@ + text::decimal_of(
            of_kinds(rows, b, "field_definition"@, "field_definition"@),
        ) + ")"@,
        None => "class()"@,
    }
}

/// The first of the children from `k` on that is a string.
pub open spec fn first_string(rows: Seq<RowModel>, children: Seq<int>, k: int) -> Option<int>
    decreases children.len() - k,
{
    if k < 0 || k >= children.len() {
        None
    } else if rows[children[k]].kind == "string"@ {
        Some(children[k])
    } else {
        first_string(rows, children, k + 1)
    }
}

/// The shape of an import: what it imports from.
pub open spec fn import_signature(rows: Seq<RowModel>, source: Seq<char>, i: int) -> Seq<char> {
    "import from "@ + match first_string(rows, syntax::children_of(rows, i), 0) {
        Some(s) => syntax::text_of(rows, source, s),
        None => ""@,
    }
}

/// The shape of an export: how much it exports.
pub open spec fn export_signature(rows: Seq<RowModel>, i: int) -> Seq<char> {
    if syntax::child_by_field(rows, i, "declaration"@) is Some {
        "export declaration"@
    } else {
        match syntax::child_by_field(rows, i, "clause"@) {
            Some(clause) => "export "@ + text::decimal_of(
                of_kinds(rows, clause, "export_specifier"@, "export_specifier"@),
            ) + " items"@,
            None => "export"@,
        }
    }
}

/// The fingerprint of a declaration: of functions and variables alone.
pub open spec fn fingerprint_for(
    use_fingerprints: bool,
    rows: Seq<RowModel>,
    source: Seq<char>,
    i: int,
    kind: DeclarationKind,
) -> Option<FingerprintModel> {
    if use_fingerprints && (kind is Function || kind is Variable) {
        Some(fingerprint::fingerprint_of(rows, source, i))
    } else {
        None
    }
}

/// What the extraction of declarations goes by.
pub struct Extraction {
    pub use_fingerprints: bool,
    pub rows: Seq<RowModel>,
    pub source: Seq<char>,
    pub bindings: BindingsModel,
}

/// The declaration at a node.
pub open spec fn declaration_at(
    x: Extraction,
    i: int,
    kind: DeclarationKind,
    name: Seq<char>,
    signature: Seq<char>,
    structural_hashes: Seq<u64>,
) -> DeclarationModel {
    DeclarationModel {
        name,
        kind,
        line: alpha::capped_sum(x.rows[i].start_row, 1),
        end_line: alpha::capped_sum(x.rows[i].end_row, 1),
        start_byte: x.rows[i].start_byte,
        end_byte: x.rows[i].end_byte,
        node_kind: x.rows[i].kind,
        signature,
        structural_hashes,
        size: structural_hashes.len() as int,
        minhash_signature: hashes::minhash_of(structural_hashes),
        fingerprint: fingerprint_for(x.use_fingerprints, x.rows, x.source, i, kind),
        comparison: alpha::tokenized(x.bindings, x.rows, x.source, i),
    }
}

/// The declaration of a variable, where it has a value and a plain name.
pub open spec fn variable_at(x: Extraction, i: int) -> Option<DeclarationModel> {
    match (
        syntax::child_by_field(x.rows, i, "value"@),
        syntax::child_by_field(x.rows, i, "name"@),
    ) {
        (Some(value), Some(name)) => if x.rows[i].kind == "variable_declarator"@
            && x.rows[name].kind == "identifier"@ {
            Some(
                declaration_at(
                    x,
                    i,
                    DeclarationKind::Variable,
                    syntax::text_of(x.rows, x.source, name),
                    variable_signature(x.rows, x.source, i),
                    hashes::hashes_of(x.rows, x.source, value),
                ),
            )
        } else {
            None
        },
        _ => None,
    }
}

/// The variables among the first `count` children.
pub open spec fn variables_upto(x: Extraction, children: Seq<int>, count: int) -> Seq<
    DeclarationModel,
>
    decreases count,
{
    if count <= 0 {
        Seq::empty()
    } else {
        let ahead = variables_upto(x, children, count - 1);
        match variable_at(x, children[count - 1]) {
            Some(d) => ahead.push(d),
            None => ahead,
        }
    }
}

/// The declaration of a whole node.
pub open spec fn whole(
    x: Extraction,
    i: int,
    kind: DeclarationKind,
    name: Seq<char>,
    signature: Seq<char>,
) -> DeclarationModel {
    declaration_at(x, i, kind, name, signature, hashes::hashes_of(x.rows, x.source, i))
}

/// Whether a node is the first child of its parent, or has none.
pub open spec fn leads(rows: Seq<RowModel>, i: int) -> bool {
    match syntax::parent_of(rows, i) {
        Some(p) => syntax::children_of(rows, p).len() == 0 || syntax::children_of(rows, p)[0] == i,
        None => true,
    }
}

/// The declarations at a node: those of the global scope alone, but for
/// functions and classes.
pub open spec fn declared(x: Extraction, i: int, is_global: bool) -> Seq<DeclarationModel>
    decreases x.rows.len() - i, syntax::children_of(x.rows, i).len() + 1,
    when 0 <= i < x.rows.len()
    via declared_decreases
{
    let kind = x.rows[i].kind;
    let children = syntax::children_of(x.rows, i);
    if kind == "function_declaration"@ {
        match syntax::child_by_field(x.rows, i, "name"@) {
            Some(name) => seq![
                whole(
                    x,
                    i,
                    DeclarationKind::Function,
                    syntax::text_of(x.rows, x.source, name),
                    function_signature(x.rows, i),
                ),
            ],
            None => Seq::empty(),
        }
    } else if (kind == "variable_declaration"@ || kind == "lexical_declaration"@) && is_global {
        variables_upto(x, children, children.len() as int)
    } else if kind == "class_declaration"@ {
        match syntax::child_by_field(x.rows, i, "name"@) {
            Some(name) => seq![
                whole(
                    x,
                    i,
                    DeclarationKind::Class,
                    syntax::text_of(x.rows, x.source, name),
                    class_signature(x.rows, i),
                ),
            ],
            None => Seq::empty(),
        }
    } else if kind == "import_statement"@ {
        seq![
            whole(
                x,
                i,
                DeclarationKind::Import,
                "import@"@ + text::decimal_of(x.rows[i].start_row as nat),
                import_signature(x.rows, x.source, i),
            ),
        ]
    } else if kind == "export_statement"@ {
        match syntax::child_by_field(x.rows, i, "declaration"@) {
            Some(d) => declared(x, d, is_global),
            None => seq![
                whole(
                    x,
                    i,
                    DeclarationKind::Export,
                    "export@"@ + text::decimal_of(x.rows[i].start_row as nat),
                    export_signature(x.rows, i),
                ),
            ],
        }
    } else if is_global && leads(x.rows, i) {
        declared_below(x, i, children.len() as int)
    } else {
        Seq::empty()
    }
}

#[via_fn]
proof fn declared_decreases(x: Extraction, i: int, is_global: bool) {
    fingerprint::lemma_field_child(x.rows, i, "declaration"@);
}

/// The declarations at the first `count` children of a node.
pub open spec fn declared_below(x: Extraction, i: int, count: int) -> Seq<DeclarationModel>
    decreases x.rows.len() - i, count,
    when 0 <= i < x.rows.len() && count <= syntax::children_of(x.rows, i).len()
    via declared_below_decreases
{
    if count <= 0 {
        Seq::empty()
    } else {
        let child = syntax::children_of(x.rows, i)[count - 1];
        let kind = x.rows[child].kind;
        declared_below(x, i, count - 1) + declared(
            x,
            child,
            kind != "function_declaration"@ && kind != "class_declaration"@,
        )
    }
}

#[via_fn]
proof fn declared_below_decreases(x: Extraction, i: int, count: int) {
    if count > 0 {
        syntax::lemma_children(x.rows, i, x.rows.len() as int);
        let child = syntax::children_of(x.rows, i)[count - 1];
        assert(i < child < x.rows.len());
    }
}

/// Whether the hashes of every declaration ascend, and its size is their
/// number.
pub open spec fn hashes_ascend(list: Seq<DeclarationModel>) -> bool {
    forall|k: int|
        0 <= k < list.len() ==> sets::is_ascending((#[trigger] list[k]).structural_hashes)
            && list[k].size == list[k].structural_hashes.len()
}

proof fn lemma_variables_ascend(x: Extraction, children: Seq<int>, count: int)
    ensures
        hashes_ascend(variables_upto(x, children, count)),
    decreases count,
{
    if count > 0 {
        lemma_variables_ascend(x, children, count - 1);
        lemma_hashes_ascend(x);
    }
}

proof fn lemma_hashes_ascend(x: Extraction)
    ensures
        forall|i: int| sets::is_ascending(#[trigger] hashes::hashes_of(x.rows, x.source, i)),
{
    assert forall|i: int| sets::is_ascending(
        #[trigger] hashes::hashes_of(x.rows, x.source, i),
    ) by {
        sets::lemma_sorted_set(
            seq![hashes::node_hash(x.rows, x.source, i)] + hashes::visited_hashes(
                x.rows,
                x.source,
                i + 1,
                pretty::behind(x.rows, i),
            ),
        );
    }
}

proof fn lemma_declared_ascend(x: Extraction, i: int, is_global: bool)
    requires
        0 <= i < x.rows.len(),
    ensures
        hashes_ascend(declared(x, i, is_global)),
    decreases x.rows.len() - i, syntax::children_of(x.rows, i).len() + 1,
{
    let children = syntax::children_of(x.rows, i);
    lemma_hashes_ascend(x);
    lemma_variables_ascend(x, children, children.len() as int);
    fingerprint::lemma_field_child(x.rows, i, "declaration"@);
    if let Some(d) = syntax::child_by_field(x.rows, i, "declaration"@) {
        lemma_declared_ascend(x, d, is_global);
    }
    lemma_below_ascend(x, i, children.len() as int);
}

proof fn lemma_below_ascend(x: Extraction, i: int, count: int)
    requires
        0 <= i < x.rows.len(),
        count <= syntax::children_of(x.rows, i).len(),
    ensures
        hashes_ascend(declared_below(x, i, count)),
    decreases x.rows.len() - i, count,
{
    if count > 0 {
        syntax::lemma_children(x.rows, i, x.rows.len() as int);
        let child = syntax::children_of(x.rows, i)[count - 1];
        assert(i < child < x.rows.len());
        let kind = x.rows[child].kind;
        lemma_below_ascend(x, i, count - 1);
        lemma_declared_ascend(
            x,
            child,
            kind != "function_declaration"@ && kind != "class_declaration"@,
        );
    }
}

/// The declarations of a text.
pub open spec fn declarations_of(
    use_fingerprints: bool,
    rows: Seq<RowModel>,
    source: Seq<char>,
) -> Seq<DeclarationModel> {
    declared(
        Extraction { use_fingerprints, rows, source, bindings: alpha::bindings_of(rows, source) },
        0,
        true,
    )
}

fn count_kinds(tree: &SyntaxTree, i: usize, first: &str, second: &str) -> (count: usize)
    requires
        i < tree@.len(),
    ensures
        count == of_kinds(tree@, i as int, first@, second@),
{
    let children = tree.children(i);
    let ghost list = syntax::children_of(tree@, i as int);
    assert(list.len() == children@.len());
    let mut count: usize = 0;
    let mut k: usize = 0;
    while k < children.len()
        invariant
            syntax::index_views(children@) == list,
            list.len() == children@.len(),
            forall|j: int| 0 <= j < children@.len() ==> #[trigger] children@[j] < tree@.len(),
            k <= children@.len(),
            count <= k,
            count == of_kinds_upto(tree@, list, first@, second@, k as int),
        decreases children@.len() - k,
    {
        let kind = tree.kind(children[k]);
        assert(list[k as int] == children@[k as int]);
        if same_text(kind, first) || same_text(kind, second) {
            count += 1;
        }
        k += 1;
    }
    count
}

fn count_statements(tree: &SyntaxTree, i: usize) -> (count: usize)
    requires
        i < tree@.len(),
    ensures
        count == statements_in(tree@, i as int),
{
    let children = tree.children(i);
    let ghost list = syntax::children_of(tree@, i as int);
    assert(list.len() == children@.len());
    let mut count: usize = 0;
    let mut k: usize = 0;
    while k < children.len()
        invariant
            syntax::index_views(children@) == list,
            list.len() == children@.len(),
            forall|j: int| 0 <= j < children@.len() ==> #[trigger] children@[j] < tree@.len(),
            k <= children@.len(),
            count <= k,
            count == statements_upto(tree@, list, k as int),
        decreases children@.len() - k,
    {
        let kind = tree.kind(children[k]);
        assert(list[k as int] == children@[k as int]);
        if !same_text(kind, "{") && !same_text(kind, "}") && !same_text(kind, ";") {
            count += 1;
        }
        k += 1;
    }
    count
}

fn counted(before: &str, count: u64) -> (r: String)
    ensures
        r@ == before@ + text::decimal_of(count as nat),
{
    before.to_string().concat(decimal_text(count).as_str())
}

fn get_function_signature(tree: &SyntaxTree, i: usize) -> (signature: String)
    requires
        i < tree@.len(),
    ensures
        signature@ == function_signature(tree@, i as int),
{
    let parameters: usize = match tree.child_by_field_name(i, "parameters") {
        Some(p) => count_kinds(tree, p, "identifier", "formal_parameters"),
        None => 0,
    };
    let statements: usize = match tree.child_by_field_name(i, "body") {
        Some(b) => count_statements(tree, b),
        None => 0,
    };
    let head = numbered_text("function(params:", parameters as u64, ",stmts:");
    head.concat(decimal_text(statements as u64).as_str()).concat(")")
}

fn get_variable_signature(tree: &SyntaxTree, source: &str, i: usize) -> (signature: String)
    requires
        i < tree@.len(),
        syntax::covers(tree@, source@),
    ensures
        signature@ == variable_signature(tree@, source@, i as int),
{
    let value = match tree.child_by_field_name(i, "value") {
        Some(value) => value,
        None => {
            return "var=undefined".to_string();
        },
    };
    let kind = tree.kind(value);
    let spelling = tree.text(value, source);
    if same_text(kind, "number") {
        "var=number:".to_string().concat(spelling)
    } else if same_text(kind, "string") {
        counted("var=string:len", spelling.as_bytes().len() as u64)
    } else if same_text(kind, "true") || same_text(kind, "false") {
        "var=bool:".to_string().concat(kind)
    } else if same_text(kind, "array") {
        let children = tree.children(value);
        assert(syntax::children_of(tree@, value as int).len() == children@.len());
        counted("var=array:len", children.len() as u64)
    } else if same_text(kind, "object") {
        counted("var=object:props", count_kinds(tree, value, "pair", "pair") as u64)
    } else if same_text(kind, "arrow_function") || same_text(kind, "function") {
        let parameters: usize = match tree.child_by_field_name(value, "parameters") {
            Some(p) => {
                let children = tree.children(p);
                assert(syntax::children_of(tree@, p as int).len() == children@.len());
                children.len()
            },
            None => if tree.child_by_field_name(value, "parameter").is_some() {
                1
            } else {
                0
            },
        };
        counted("var=function:params", parameters as u64)
    } else {
        "var=".to_string().concat(kind)
    }
}

fn get_class_signature(tree: &SyntaxTree, i: usize) -> (signature: String)
    requires
        i < tree@.len(),
    ensures
        signature@ == class_signature(tree@, i as int),
{
    match tree.child_by_field_name(i, "body") {
        Some(b) => {
            let methods = count_kinds(tree, b, "method_definition", "method_definition");
            let fields = count_kinds(tree, b, "field_definition", "field_definition");
            let head = numbered_text("class(methods:", methods as u64, ",fields:");
            head.concat(decimal_text(fields as u64).as_str()).concat(")")
        },
        None => "class()".to_string(),
    }
}

fn get_import_signature(tree: &SyntaxTree, source: &str, i: usize) -> (signature: String)
    requires
        i < tree@.len(),
        syntax::covers(tree@, source@),
    ensures
        signature@ == import_signature(tree@, source@, i as int),
{
    let children = tree.children(i);
    let ghost list = syntax::children_of(tree@, i as int);
    assert(list.len() == children@.len());
    let mut k: usize = 0;
    while k < children.len()
        invariant
            syntax::covers(tree@, source@),
            i < tree@.len(),
            list == syntax::children_of(tree@, i as int),
            syntax::index_views(children@) == list,
            list.len() == children@.len(),
            forall|j: int| 0 <= j < children@.len() ==> #[trigger] children@[j] < tree@.len(),
            k <= children@.len(),
            first_string(tree@, list, 0) == first_string(tree@, list, k as int),
        decreases children@.len() - k,
    {
        let child = children[k];
        assert(list[k as int] == child);
        if tree.is_kind(child, "string") {
            return "import from ".to_string().concat(tree.text(child, source));
        }
        k += 1;
    }
    "import from ".to_string().concat("")
}

fn get_export_signature(tree: &SyntaxTree, i: usize) -> (signature: String)
    requires
        i < tree@.len(),
    ensures
        signature@ == export_signature(tree@, i as int),
{
    if tree.child_by_field_name(i, "declaration").is_some() {
        return "export declaration".to_string();
    }
    match tree.child_by_field_name(i, "clause") {
        Some(clause) => numbered_text(
            "export ",
            count_kinds(tree, clause, "export_specifier", "export_specifier") as u64,
            " items",
        ),
        None => "export".to_string(),
    }
}

fn line_number(row: usize) -> (line: usize)
    ensures
        line == alpha::capped_sum(row as int, 1),
{
    if row < usize::MAX {
        row + 1
    } else {
        usize::MAX
    }
}

fn first_of_parent(tree: &SyntaxTree, i: usize) -> (r: bool)
    requires
        i < tree@.len(),
    ensures
        r == leads(tree@, i as int),
{
    match tree.parent(i) {
        Some(p) => {
            let children = tree.children(p);
            let ghost list = syntax::children_of(tree@, p as int);
            assert(list.len() == children@.len());
            if children.len() == 0 {
                return true;
            }
            assert(list[0] == children@[0]);
            children[0] == i
        },
        None => true,
    }
}

/// A text whose declarations are looked for.
struct Extractor<'a> {
    use_fingerprints: bool,
    tree: &'a SyntaxTree,
    source: &'a str,
    bindings: &'a Bindings,
    table: &'a Vec<u64>,
}

impl<'a> Extractor<'a> {
    spec fn is_wf(&self) -> bool {
        &&& syntax::covers(self.tree@, self.source@)
        &&& self.bindings.view() == alpha::bindings_of(self.tree@, self.source@)
        &&& self.table@.len() == self.tree@.len()
        &&& forall|i: int|
            0 <= i < self.tree@.len() ==> #[trigger] self.table@[i] == hashes::node_hash(
                self.tree@,
                self.source@,
                i,
            )
    }

    spec fn model(&self) -> Extraction {
        Extraction {
            use_fingerprints: self.use_fingerprints,
            rows: self.tree@,
            source: self.source@,
            bindings: self.bindings.view(),
        }
    }

    fn extract_fingerprint(&self, i: usize, kind: DeclarationKind) -> (r: Option<
        FunctionFingerprint,
    >)
        requires
            self.is_wf(),
            i < self.tree@.len(),
        ensures
            fingerprint_view(r) == fingerprint_for(
                self.use_fingerprints,
                self.tree@,
                self.source@,
                i as int,
                kind,
            ),
    {
        if !self.use_fingerprints {
            return None;
        }
        if kind != DeclarationKind::Function && kind != DeclarationKind::Variable {
            return None;
        }
        let extractor = FingerprintExtractor::new(self.source);
        Some(extractor.extract_function_fingerprint(self.tree, i))
    }

    /// The declaration at a node whose hashes are those of another.
    fn create_declaration(
        &self,
        i: usize,
        kind: DeclarationKind,
        name: String,
        signature: String,
        hashed: usize,
    ) -> (d: Declaration)
        requires
            self.is_wf(),
            i < self.tree@.len(),
            hashed < self.tree@.len(),
        ensures
            d@ == declaration_at(
                self.model(),
                i as int,
                kind,
                name@,
                signature@,
                hashes::hashes_of(self.tree@, self.source@, hashed as int),
            ),
    {
        let row = self.tree.row(i);
        let structural_hashes = collect_structural_hashes(
            self.tree,
            self.source,
            self.table,
            hashed,
        );
        let minhash_signature = minhash(structural_hashes.as_slice());
        let size: usize = structural_hashes.len();
        Declaration {
            name,
            kind,
            line: line_number(row.start_row),
            end_line: line_number(row.end_row),
            start_byte: row.start_byte,
            end_byte: row.end_byte,
            node_kind: row.kind,
            signature,
            structural_hashes,
            size,
            minhash_signature,
            fingerprint: self.extract_fingerprint(i, kind),
            comparison: self.bindings.tokenize(self.tree, self.source, i),
        }
    }

    fn push_whole(
        &self,
        i: usize,
        kind: DeclarationKind,
        name: String,
        signature: String,
        declarations: &mut Vec<Declaration>,
    )
        requires
            self.is_wf(),
            i < self.tree@.len(),
        ensures
            declaration_views(final(declarations)@) == declaration_views(old(declarations)@)
                + seq![whole(self.model(), i as int, kind, name@, signature@)],
    {
        let ghost before = declarations@;
        let declaration = self.create_declaration(i, kind, name, signature, i);
        let ghost model = declaration@;
        declarations.push(declaration);
        assert(declaration_views(declarations@) =~= declaration_views(before) + seq![model]);
    }

    fn extract_variables(&self, i: usize, declarations: &mut Vec<Declaration>)
        requires
            self.is_wf(),
            i < self.tree@.len(),
        ensures
            declaration_views(final(declarations)@) == declaration_views(old(declarations)@)
                + variables_upto(
                self.model(),
                syntax::children_of(self.tree@, i as int),
                syntax::children_of(self.tree@, i as int).len() as int,
            ),
    {
        let ghost before = declaration_views(declarations@);
        let children = self.tree.children(i);
        let ghost list = syntax::children_of(self.tree@, i as int);
        assert(list.len() == children@.len());
        let mut k: usize = 0;
        assert(declaration_views(declarations@) =~= before + variables_upto(
            self.model(),
            list,
            0,
        ));
        while k < children.len()
            invariant
                self.is_wf(),
                syntax::index_views(children@) == list,
                list.len() == children@.len(),
                forall|j: int|
                    0 <= j < children@.len() ==> #[trigger] children@[j] < self.tree@.len(),
                k <= children@.len(),
                declaration_views(declarations@) == before + variables_upto(
                    self.model(),
                    list,
                    k as int,
                ),
            decreases children@.len() - k,
        {
            let child = children[k];
            assert(list[k as int] == child);
            let ghost earlier = declarations@;
            match (
                self.tree.child_by_field_name(child, "value"),
                self.tree.child_by_field_name(child, "name"),
            ) {
                (Some(value), Some(name)) => {
                    if self.tree.is_kind(child, "variable_declarator") && self.tree.is_kind(
                        name,
                        "identifier",
                    ) {
                        let declaration = self.create_declaration(
                            child,
                            DeclarationKind::Variable,
                            self.tree.text(name, self.source).to_string(),
                            get_variable_signature(self.tree, self.source, child),
                            value,
                        );
                        let ghost model = declaration@;
                        declarations.push(declaration);
                        assert(declaration_views(declarations@) =~= declaration_views(
                            earlier,
                        ).push(model));
                    }
                },
                _ => {},
            }
            assert(declaration_views(declarations@) =~= before + variables_upto(
                self.model(),
                list,
                k + 1,
            ));
            k += 1;
        }
    }

    fn extract_declarations_recursive(
        &self,
        i: usize,
        declarations: &mut Vec<Declaration>,
        is_global: bool,
    )
        requires
            self.is_wf(),
            i < self.tree@.len(),
        ensures
            declaration_views(final(declarations)@) == declaration_views(old(declarations)@)
                + declared(self.model(), i as int, is_global),
        decreases self.tree@.len() - i,
    {
        let ghost x = self.model();
        let ghost before = declaration_views(declarations@);
        let tree = self.tree;
        let kind = tree.kind(i);
        if same_text(kind, "function_declaration") {
            if let Some(name) = tree.child_by_field_name(i, "name") {
                self.push_whole(
                    i,
                    DeclarationKind::Function,
                    tree.text(name, self.source).to_string(),
                    get_function_signature(tree, i),
                    declarations,
                );
            } else {
                assert(declaration_views(declarations@) =~= before + declared(
                    x,
                    i as int,
                    is_global,
                ));
            }
        } else if (same_text(kind, "variable_declaration") || same_text(
            kind,
            "lexical_declaration",
        )) && is_global {
            self.extract_variables(i, declarations);
        } else if same_text(kind, "class_declaration") {
            if let Some(name) = tree.child_by_field_name(i, "name") {
                self.push_whole(
                    i,
                    DeclarationKind::Class,
                    tree.text(name, self.source).to_string(),
                    get_class_signature(tree, i),
                    declarations,
                );
            } else {
                assert(declaration_views(declarations@) =~= before + declared(
                    x,
                    i as int,
                    is_global,
                ));
            }
        } else if same_text(kind, "import_statement") {
            let name = counted("import@", tree.row(i).start_row as u64);
            self.push_whole(
                i,
                DeclarationKind::Import,
                name,
                get_import_signature(tree, self.source, i),
                declarations,
            );
        } else if same_text(kind, "export_statement") {
            if let Some(declaration) = tree.child_by_field_name(i, "declaration") {
                self.extract_declarations_recursive(declaration, declarations, is_global);
            } else {
                let name = counted("export@", tree.row(i).start_row as u64);
                self.push_whole(
                    i,
                    DeclarationKind::Export,
                    name,
                    get_export_signature(tree, i),
                    declarations,
                );
            }
        } else if is_global && first_of_parent(tree, i) {
            self.extract_below(i, declarations);
        } else {
            assert(declaration_views(declarations@) =~= before + declared(
                x,
                i as int,
                is_global,
            ));
        }
    }

    fn extract_below(&self, i: usize, declarations: &mut Vec<Declaration>)
        requires
            self.is_wf(),
            i < self.tree@.len(),
        ensures
            declaration_views(final(declarations)@) == declaration_views(old(declarations)@)
                + declared_below(
                self.model(),
                i as int,
                syntax::children_of(self.tree@, i as int).len() as int,
            ),
        decreases self.tree@.len() - i, 0nat,
    {
        let ghost x = self.model();
        let ghost before = declaration_views(declarations@);
        let children = self.tree.children(i);
        let ghost list = syntax::children_of(self.tree@, i as int);
        assert(list.len() == children@.len());
        let mut k: usize = 0;
        assert(declaration_views(declarations@) =~= before + declared_below(x, i as int, 0));
        while k < children.len()
            invariant
                self.is_wf(),
                x == self.model(),
                i < self.tree@.len(),
                list == syntax::children_of(self.tree@, i as int),
                syntax::index_views(children@) == list,
                list.len() == children@.len(),
                forall|j: int|
                    0 <= j < children@.len() ==> i < #[trigger] children@[j] < self.tree@.len(),
                k <= children@.len(),
                declaration_views(declarations@) == before + declared_below(
                    x,
                    i as int,
                    k as int,
                ),
            decreases children@.len() - k,
        {
            let child = children[k];
            assert(list[k as int] == child);
            let kind = self.tree.kind(child);
            self.extract_declarations_recursive(
                child,
                declarations,
                !same_text(kind, "function_declaration") && !same_text(kind, "class_declaration"),
            );
            assert(declaration_views(declarations@) =~= before + declared_below(
                x,
                i as int,
                k + 1,
            ));
            k += 1;
        }
    }
}

impl StructuralDiff {
    /// The declarations of a text.
    pub fn extract_declarations(&self, tree: &SyntaxTree, source: &str) -> (r: Result<
        Vec<Declaration>,
        DiffError,
    >)
        requires
            syntax::covers(tree@, source@),
        ensures
            match r {
                Ok(found) => !alpha::too_many_symbols(tree@, source@) && declaration_views(found@)
                    == declarations_of(self.use_fingerprints, tree@, source@) && hashes_ascend(
                    declaration_views(found@),
                ),
                Err(error) => alpha::too_many_symbols(tree@, source@) && error
                    == DiffError::TooManySymbols,
            },
    {
        let bindings = match Bindings::new(tree, source) {
            Some(bindings) => bindings,
            None => {
                return Err(DiffError::TooManySymbols);
            },
        };
        let table = hash_nodes(tree, source);
        let extractor = Extractor {
            use_fingerprints: self.use_fingerprints,
            tree,
            source,
            bindings: &bindings,
            table: &table,
        };
        let mut declarations: Vec<Declaration> = Vec::new();
        let count = tree.len();
        extractor.extract_declarations_recursive(0, &mut declarations, true);
        proof {
            lemma_declared_ascend(extractor.model(), 0, true);
        }
        assert(declaration_views(declarations@) =~= declarations_of(
            self.use_fingerprints,
            tree@,
            source@,
        ));
        Ok(declarations)
    }

    /// The signature of a set of structural hashes.
    pub fn compute_minhash(hashes: &[u64]) -> (signature: [u64; MINHASH_LANES])
        ensures
            signature@ == hashes::minhash_of(hashes@),
    {
        minhash(hashes)
    }
}

} // verus!
