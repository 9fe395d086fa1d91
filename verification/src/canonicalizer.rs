//! Names that tell what a variable is, not what it was called.

use std::collections::hash_map::DefaultHasher;
use std::hash::Hasher;

use vstd::hash_map::StringHashMap;
use vstd::hash_set::StringHashSet;
use vstd::prelude::*;
use vstd::std_specs::hash::*;
use vstd::string::*;
use vstd::utf8::*;

use crate::bytes::{push_all, push_le};
use crate::edits::{splice, Edit};
use crate::order::{stable_order, Pair};
use crate::scope::{Scope, ScopeAnalyzer, ScopeType, Variable, VariableKind};
use crate::syntax::SyntaxTree;
use crate::text::{decimal_text, hex_number, numbered_text, same_text};

use crate::edits::EditModel;
use crate::scope::{ResolvedModel, ScopeModel, VariableModel};
use crate::syntax::RowModel;
use crate::{bytes, edits, order, scope, syntax, text};

verus! {

/// Why variables have no canonical names.
#[derive(Debug, Clone, Copy, PartialEq, Eq, Structural)]
pub enum CanonicalError {
    /// A scope lists a child that is no scope below it.
    ScopeNotFound(usize),
    /// The function bound at this byte has no scope.
    NoFunctionScope(usize),
    /// The numbers for names ran out.
    TooManyNames,
    /// Identifiers cover the same text.
    Overlap,
}

impl CanonicalError {
    /// What to tell about the refusal.
    pub open spec fn message_spec(self) -> Seq<char> {
        match self {
            CanonicalError::ScopeNotFound(id) => "Scope not found: "@ + text::decimal_of(
                id as nat,
            ),
            CanonicalError::NoFunctionScope(byte) => "function binding at byte "@
                + text::decimal_of(byte as nat) + " has no function scope"@,
            CanonicalError::TooManyNames => "too many canonical names"@,
            CanonicalError::Overlap => "canonical identifier spans overlap"@,
        }
    }

    pub fn message(self) -> (message: String)
        ensures
            message@ == self.message_spec(),
    {
        match self {
            CanonicalError::ScopeNotFound(id) => "Scope not found: ".to_string().concat(
                decimal_text(id as u64).as_str(),
            ),
            CanonicalError::NoFunctionScope(byte) => numbered_text(
                "function binding at byte ",
                byte as u64,
                " has no function scope",
            ),
            CanonicalError::TooManyNames => "too many canonical names".to_string(),
            CanonicalError::Overlap => "canonical identifier spans overlap".to_string(),
        }
    }
}

/// The names that were given, and what they were made from.
pub struct NamesModel {
    pub used: Set<Seq<char>>,
    pub names: Map<(int, Seq<char>), Seq<char>>,
    pub functions: Map<Seq<char>, usize>,
    pub classes: usize,
    pub variables: usize,
    pub parameters: usize,
}

/// The number of variables of a kind among the first `count`.
pub open spec fn kind_count(variables: Seq<VariableModel>, kind: VariableKind, count: int) -> nat
    decreases count,
{
    if count <= 0 {
        0
    } else {
        kind_count(variables, kind, count - 1) + if variables[count - 1].kind == kind {
            1nat
        } else {
            0
        }
    }
}

/// A word, behind it a byte that no text holds, as often as `count` tells.
pub open spec fn repeated(word: Seq<char>, count: nat) -> Seq<u8>
    decreases count,
{
    if count == 0 {
        Seq::empty()
    } else {
        repeated(word, (count - 1) as nat) + encode_utf8(word) + seq![0xffu8]
    }
}

/// The number of variables of a kind in a scope.
pub open spec fn kinds_in(s: ScopeModel, kind: VariableKind) -> nat {
    kind_count(s.variables, kind, s.variables.len() as int)
}

/// What tells the shape of a function's scope: its parameters, its variables
/// by kind, and the number of scopes inside.
pub open spec fn structure_bytes(s: ScopeModel) -> Seq<u8> {
    bytes::le_bytes(kinds_in(s, VariableKind::Parameter) as int, 8) + repeated(
        "param"@,
        kinds_in(s, VariableKind::Parameter),
    ) + repeated("var"@, kinds_in(s, VariableKind::Var)) + repeated(
        "let"@,
        kinds_in(s, VariableKind::Let),
    ) + repeated("const"@, kinds_in(s, VariableKind::Const)) + bytes::le_bytes(
        s.children.len() as int,
        8,
    )
}

/// The short hash of a function's shape.
pub open spec fn structure_hash(s: ScopeModel) -> Seq<char> {
    text::hex_number_of(
        (DefaultHasher::spec_finish(seq![structure_bytes(s)]) % 0xffff) as nat,
    )
}

/// Whether a scope is one of the function bound at a byte of a scope. A
/// declaration is bound outside of its scope, a named expression inside.
pub open spec fn is_function_at(scopes: Seq<ScopeModel>, s: int, byte: int, f: int) -> bool {
    (scopes[f].parent == Some(s) || f == s) && scopes[f].scope_type == ScopeType::Function
        && scope::covers_byte(scopes[f], byte)
}

/// The smallest scope of the function bound at a byte among the first `count`.
pub open spec fn function_upto(scopes: Seq<ScopeModel>, s: int, byte: int, count: int) -> Option<
    int,
>
    decreases count,
{
    if count <= 0 {
        None
    } else {
        let earlier = function_upto(scopes, s, byte, count - 1);
        let f = count - 1;
        if is_function_at(scopes, s, byte, f) && (earlier matches Some(best) ==> scopes[f].end_byte
            - scopes[f].start_byte < scopes[best].end_byte - scopes[best].start_byte) {
            Some(f)
        } else {
            earlier
        }
    }
}

/// The scope of the function bound at a byte of a scope.
pub open spec fn function_scope(scopes: Seq<ScopeModel>, s: int, byte: int) -> Option<int> {
    function_upto(scopes, s, byte, scopes.len() as int)
}

/// A numbered name.
pub open spec fn numbered(prefix: Seq<char>, number: usize) -> Seq<char> {
    prefix + text::decimal_of(number as nat)
}

/// The name of the function with a shape and a number: the first has none.
pub open spec fn function_name(hash: Seq<char>, number: usize) -> Seq<char> {
    if number == 1 {
        "fn_"@ + hash
    } else {
        "fn_"@ + hash + "_"@ + text::decimal_of(number as nat)
    }
}

/// The first number behind `number` whose name is not used.
pub open spec fn fresh_number(used: Set<Seq<char>>, prefix: Seq<char>, number: usize) -> Option<
    usize,
>
    decreases usize::MAX - number,
{
    if number == usize::MAX {
        None
    } else {
        let next = (number + 1) as usize;
        if used.contains(numbered(prefix, next)) {
            fresh_number(used, prefix, next)
        } else {
            Some(next)
        }
    }
}

/// The first number behind `number` whose function name is not used.
pub open spec fn fresh_function(used: Set<Seq<char>>, hash: Seq<char>, number: usize) -> Option<
    usize,
>
    decreases usize::MAX - number,
{
    if number == usize::MAX {
        None
    } else {
        let next = (number + 1) as usize;
        if used.contains(function_name(hash, next)) {
            fresh_function(used, hash, next)
        } else {
            Some(next)
        }
    }
}

/// How often a shape was named.
pub open spec fn function_number(n: NamesModel, hash: Seq<char>) -> usize {
    if n.functions.contains_key(hash) {
        n.functions[hash]
    } else {
        0
    }
}

/// A name given to a variable.
pub open spec fn given(n: NamesModel, s: int, variable: Seq<char>, name: Seq<char>) -> NamesModel {
    NamesModel {
        used: n.used.insert(name),
        names: n.names.insert((s, variable), name),
        ..n
    }
}

/// The names after a variable was named.
pub open spec fn named_variable(
    scopes: Seq<ScopeModel>,
    n: NamesModel,
    s: int,
    v: VariableModel,
) -> (NamesModel, Option<CanonicalError>) {
    match v.kind {
        VariableKind::FunctionDeclaration => match function_scope(scopes, s, v.byte) {
            None => (n, Some(CanonicalError::NoFunctionScope(v.byte as usize))),
            Some(f) => {
                let hash = structure_hash(scopes[f]);
                match fresh_function(n.used, hash, function_number(n, hash)) {
                    None => (n, Some(CanonicalError::TooManyNames)),
                    Some(k) => (
                        given(
                            NamesModel { functions: n.functions.insert(hash, k), ..n },
                            s,
                            v.name,
                            function_name(hash, k),
                        ),
                        None,
                    ),
                }
            },
        },
        VariableKind::Parameter => match fresh_number(n.used, "param_"@, n.parameters) {
            None => (n, Some(CanonicalError::TooManyNames)),
            Some(k) => (
                given(NamesModel { parameters: k, ..n }, s, v.name, numbered("param_"@, k)),
                None,
            ),
        },
        VariableKind::ClassDeclaration => match fresh_number(n.used, "class_"@, n.classes) {
            None => (n, Some(CanonicalError::TooManyNames)),
            Some(k) => (
                given(NamesModel { classes: k, ..n }, s, v.name, numbered("class_"@, k)),
                None,
            ),
        },
        _ => match fresh_number(n.used, "var_"@, n.variables) {
            None => (n, Some(CanonicalError::TooManyNames)),
            Some(k) => (
                given(NamesModel { variables: k, ..n }, s, v.name, numbered("var_"@, k)),
                None,
            ),
        },
    }
}

/// What variables are ordered by: the place of their declaration.
pub open spec fn place_keys(variables: Seq<VariableModel>) -> Seq<Pair<u64, u64>> {
    variables.map_values(|v: VariableModel| Pair(v.line as u64, v.column as u64))
}

/// Variables in the order of their declarations.
pub open spec fn by_place(variables: Seq<VariableModel>) -> Seq<VariableModel> {
    order::arranged(variables, place_keys(variables))
}

/// The names after the variables from `k` on were named.
pub open spec fn named_from(
    scopes: Seq<ScopeModel>,
    n: NamesModel,
    s: int,
    list: Seq<VariableModel>,
    k: int,
) -> (NamesModel, Option<CanonicalError>)
    decreases list.len() - k,
{
    if k < 0 || k >= list.len() {
        (n, None)
    } else {
        let (next, fault) = named_variable(scopes, n, s, list[k]);
        if fault is Some {
            (next, fault)
        } else {
            named_from(scopes, next, s, list, k + 1)
        }
    }
}

/// The names after a scope and the scopes inside were named.
pub open spec fn named_scope(scopes: Seq<ScopeModel>, n: NamesModel, s: int) -> (
    NamesModel,
    Option<CanonicalError>,
)
    decreases scopes.len() - s, scopes[s].children.len() + 1,
    when 0 <= s < scopes.len()
{
    let (next, fault) = named_from(scopes, n, s, by_place(scopes[s].variables), 0);
    if fault is Some {
        (next, fault)
    } else {
        named_children(scopes, next, s, 0)
    }
}

/// The names after the scopes inside a scope, from child `k` on, were named.
pub open spec fn named_children(scopes: Seq<ScopeModel>, n: NamesModel, s: int, k: int) -> (
    NamesModel,
    Option<CanonicalError>,
)
    decreases scopes.len() - s, scopes[s].children.len() - k,
    when 0 <= s < scopes.len() && 0 <= k
{
    if k >= scopes[s].children.len() {
        (n, None)
    } else {
        let child = scopes[s].children[k];
        if s < child < scopes.len() {
            let (next, fault) = named_scope(scopes, n, child);
            if fault is Some {
                (next, fault)
            } else {
                named_children(scopes, next, s, k + 1)
            }
        } else {
            (n, Some(CanonicalError::ScopeNotFound(child as usize)))
        }
    }
}

/// Whether a node is an identifier whose spelling counts as used.
pub open spec fn is_spelled(kind: Seq<char>) -> bool {
    kind == "identifier"@ || kind == "shorthand_property_identifier"@ || kind
        == "shorthand_property_identifier_pattern"@
}

/// The spellings of identifiers among the first `count` nodes.
pub open spec fn spellings(rows: Seq<RowModel>, source: Seq<char>, count: int) -> Set<Seq<char>>
    decreases count,
{
    if count <= 0 {
        Set::empty()
    } else if is_spelled(rows[count - 1].kind) {
        spellings(rows, source, count - 1).insert(syntax::text_of(rows, source, count - 1))
    } else {
        spellings(rows, source, count - 1)
    }
}

/// No names, with the spellings of a text in use.
pub open spec fn no_names(rows: Seq<RowModel>, source: Seq<char>) -> NamesModel {
    NamesModel {
        used: spellings(rows, source, rows.len() as int),
        names: Map::empty(),
        functions: Map::empty(),
        classes: 0,
        variables: 0,
        parameters: 0,
    }
}

/// The names of all variables of a text.
pub open spec fn canonical_names(
    scopes: Seq<ScopeModel>,
    rows: Seq<RowModel>,
    source: Seq<char>,
) -> (NamesModel, Option<CanonicalError>) {
    named_scope(scopes, no_names(rows, source), 0)
}

/// The last name that a list gives for a canonical name, or else that name.
pub open spec fn chosen_upto(list: Seq<(String, String)>, name: Seq<char>, count: int) -> Seq<char>
    decreases count,
{
    if count <= 0 {
        name
    } else if list[count - 1].0@ == name {
        list[count - 1].1@
    } else {
        chosen_upto(list, name, count - 1)
    }
}

/// What stands for a renamed identifier: where one word is both a key and a
/// name, the key is kept.
pub open spec fn replacement_of(
    rows: Seq<RowModel>,
    i: int,
    original: Seq<char>,
    renamed: Seq<char>,
) -> Seq<char> {
    if original == renamed {
        original
    } else if rows[i].kind == "shorthand_property_identifier"@ || rows[i].kind
        == "shorthand_property_identifier_pattern"@ {
        original + ": "@ + renamed
    } else {
        match syntax::parent_of(rows, i) {
            None => renamed,
            Some(parent) => if syntax::child_by_field(rows, parent, "alias"@) is Some {
                renamed
            } else if rows[parent].kind == "import_specifier"@ {
                original + " as "@ + renamed
            } else if rows[parent].kind == "export_specifier"@ {
                renamed + " as "@ + original
            } else {
                renamed
            },
        }
    }
}

/// The edit of a resolved identifier.
pub open spec fn identifier_edit(
    rows: Seq<RowModel>,
    source: Seq<char>,
    names: Map<(int, Seq<char>), Seq<char>>,
    list: Seq<(String, String)>,
    r: ResolvedModel,
) -> EditModel {
    let original = syntax::text_of(rows, source, r.node);
    EditModel {
        start: rows[r.node].start_byte,
        end: rows[r.node].end_byte,
        text: if names.contains_key((r.scope_id, original)) {
            replacement_of(
                rows,
                r.node,
                original,
                chosen_upto(list, names[(r.scope_id, original)], list.len() as int),
            )
        } else {
            original
        },
    }
}

/// The edits of resolved identifiers.
pub open spec fn identifier_edits(
    rows: Seq<RowModel>,
    source: Seq<char>,
    names: Map<(int, Seq<char>), Seq<char>>,
    list: Seq<(String, String)>,
    resolved: Seq<ResolvedModel>,
) -> Seq<EditModel> {
    resolved.map_values(|r: ResolvedModel| identifier_edit(rows, source, names, list, r))
}

/// The names that were given.
struct NameTable {
    used: StringHashSet,
    table: Vec<StringHashMap<String>>,
    functions: StringHashMap<usize>,
    classes: usize,
    variables: usize,
    parameters: usize,
}

impl View for NameTable {
    type V = NamesModel;

    closed spec fn view(&self) -> NamesModel {
        NamesModel {
            used: self.used@,
            names: table_view(self.table@),
            functions: self.functions@,
            classes: self.classes,
            variables: self.variables,
            parameters: self.parameters,
        }
    }
}

/// Names by scope, as one map.
spec fn table_view(table: Seq<StringHashMap<String>>) -> Map<(int, Seq<char>), Seq<char>> {
    Map::new(
        |key: (int, Seq<char>)| 0 <= key.0 < table.len() && table[key.0]@.contains_key(key.1),
        |key: (int, Seq<char>)| table[key.0]@[key.1]@,
    )
}

fn push_repeated(output: &mut Vec<u8>, word: &str, count: usize)
    ensures
        final(output)@ == old(output)@ + repeated(word@, count as nat),
{
    let ghost before = output@;
    let mut i: usize = 0;
    assert(output@ =~= before + repeated(word@, 0));
    while i < count
        invariant
            i <= count,
            output@ == before + repeated(word@, i as nat),
        decreases count - i,
    {
        push_all(output, word.as_bytes());
        output.push(0xff);
        i += 1;
        assert(output@ =~= before + repeated(word@, i as nat));
    }
}

fn count_kind(variables: &Vec<Variable>, kind: VariableKind) -> (count: usize)
    ensures
        count == kind_count(
            scope::variable_views(variables@),
            kind,
            variables@.len() as int,
        ),
{
    let ghost models = scope::variable_views(variables@);
    let mut count: usize = 0;
    let mut i: usize = 0;
    while i < variables.len()
        invariant
            models == scope::variable_views(variables@),
            i <= variables@.len(),
            count <= i,
            count == kind_count(models, kind, i as int),
        decreases variables@.len() - i,
    {
        assert(models[i as int] == variables@[i as int]@);
        if variables[i].kind == kind {
            count += 1;
        }
        i += 1;
    }
    count
}

fn hash_function_scope_structure(s: &Scope) -> (hash: String)
    ensures
        hash@ == structure_hash(s@),
{
    assert(s@.variables.len() == s.variables@.len());
    assert(s@.children.len() == s.children@.len());
    let parameters = count_kind(&s.variables, VariableKind::Parameter);
    let mut buffer: Vec<u8> = Vec::new();
    push_le(&mut buffer, parameters as u64, 8);
    push_repeated(&mut buffer, "param", parameters);
    push_repeated(&mut buffer, "var", count_kind(&s.variables, VariableKind::Var));
    push_repeated(&mut buffer, "let", count_kind(&s.variables, VariableKind::Let));
    push_repeated(&mut buffer, "const", count_kind(&s.variables, VariableKind::Const));
    push_le(&mut buffer, s.children.len() as u64, 8);
    assert(buffer@ =~= structure_bytes(s@));
    let mut hasher = DefaultHasher::new();
    hasher.write(buffer.as_slice());
    assert(hasher@ =~= seq![structure_bytes(s@)]);
    hex_number(hasher.finish() % 0xffff)
}

fn find_function_scope(scopes: &Vec<Scope>, s: usize, byte: usize) -> (f: Option<usize>)
    ensures
        syntax::index_view(f) == function_scope(
            scope::scope_views(scopes@),
            s as int,
            byte as int,
        ),
        f matches Some(f) ==> f < scopes@.len(),
{
    let ghost models = scope::scope_views(scopes@);
    let mut best: Option<usize> = None;
    let mut f: usize = 0;
    while f < scopes.len()
        invariant
            models == scope::scope_views(scopes@),
            f <= scopes@.len(),
            syntax::index_view(best) == function_upto(models, s as int, byte as int, f as int),
            best matches Some(b) ==> b < f && is_function_at(
                models,
                s as int,
                byte as int,
                b as int,
            ),
        decreases scopes@.len() - f,
    {
        let scope = &scopes[f];
        assert(models[f as int] == scope@);
        let below = match scope.parent {
            Some(parent) => parent == s,
            None => false,
        };
        if (below || f == s) && scope.scope_type == ScopeType::Function && scope.start_byte <= byte
            && byte < scope.end_byte {
            match best {
                Some(b) => {
                    assert(models[b as int] == scopes@[b as int]@);
                    if scope.end_byte - scope.start_byte < scopes[b].end_byte
                        - scopes[b].start_byte {
                        best = Some(f);
                    }
                },
                None => {
                    best = Some(f);
                },
            }
        }
        f += 1;
    }
    assert(models.len() == scopes@.len());
    best
}

fn name_of_function(hash: &str, number: usize) -> (name: String)
    ensures
        name@ == function_name(hash@, number),
{
    if number == 1 {
        "fn_".to_string().concat(hash)
    } else {
        "fn_".to_string().concat(hash).concat("_").concat(decimal_text(number as u64).as_str())
    }
}

impl NameTable {
    fn new(scopes: usize) -> (names: Self)
        ensures
            names@ == (NamesModel {
                used: Set::empty(),
                names: Map::empty(),
                functions: Map::empty(),
                classes: 0,
                variables: 0,
                parameters: 0,
            }),
            names.table@.len() == scopes,
    {
        let mut table: Vec<StringHashMap<String>> = Vec::new();
        let mut i: usize = 0;
        while i < scopes
            invariant
                i <= scopes,
                table@.len() == i,
                forall|k: int|
                    0 <= k < i ==> (#[trigger] table@[k])@ == Map::<Seq<char>, String>::empty(),
            decreases scopes - i,
        {
            table.push(StringHashMap::new());
            i += 1;
        }
        assert(table_view(table@) =~= Map::empty());
        NameTable {
            used: StringHashSet::new(),
            table,
            functions: StringHashMap::new(),
            classes: 0,
            variables: 0,
            parameters: 0,
        }
    }

    fn next_number(&self, prefix: &str, number: usize) -> (r: Option<(usize, String)>)
        ensures
            match (r, fresh_number(self@.used, prefix@, number)) {
                (Some((k, name)), Some(wanted)) => k == wanted && name@ == numbered(prefix@, k),
                (None, None) => true,
                _ => false,
            },
    {
        let mut k: usize = number;
        loop
            invariant
                fresh_number(self@.used, prefix@, number) == fresh_number(
                    self@.used,
                    prefix@,
                    k,
                ),
            decreases usize::MAX - k,
        {
            if k == usize::MAX {
                return None;
            }
            k += 1;
            let name = prefix.to_string().concat(decimal_text(k as u64).as_str());
            if !self.used.contains(name.as_str()) {
                return Some((k, name));
            }
        }
    }

    fn next_function(&self, hash: &str) -> (r: Option<(usize, String)>)
        ensures
            match (r, fresh_function(self@.used, hash@, function_number(self@, hash@))) {
                (Some((k, name)), Some(wanted)) => k == wanted && name@ == function_name(hash@, k),
                (None, None) => true,
                _ => false,
            },
    {
        let number: usize = match self.functions.get(hash) {
            Some(number) => *number,
            None => 0,
        };
        let mut k: usize = number;
        loop
            invariant
                fresh_function(self@.used, hash@, number) == fresh_function(self@.used, hash@, k),
                number == function_number(self@, hash@),
            decreases usize::MAX - k,
        {
            if k == usize::MAX {
                return None;
            }
            k += 1;
            let name = name_of_function(hash, k);
            if !self.used.contains(name.as_str()) {
                return Some((k, name));
            }
        }
    }

    fn give(&mut self, s: usize, variable: &str, name: String)
        requires
            s < old(self).table@.len(),
        ensures
            final(self)@ == given(old(self)@, s as int, variable@, name@),
            final(self).table@.len() == old(self).table@.len(),
    {
        let ghost before = self.table@;
        self.used.insert(name.clone());
        self.table[s].insert(variable.to_string(), name);
        assert(table_view(self.table@) =~= table_view(before).insert(
            (s as int, variable@),
            name@,
        ));
    }

    fn name_variable(&mut self, scopes: &Vec<Scope>, s: usize, variable: &Variable) -> (r: Result<
        (),
        CanonicalError,
    >)
        requires
            s < old(self).table@.len(),
        ensures
            (final(self)@, r) == ({
                let (next, fault) = named_variable(
                    scope::scope_views(scopes@),
                    old(self)@,
                    s as int,
                    variable@,
                );
                (next, outcome(fault))
            }),
            final(self).table@.len() == old(self).table@.len(),
    {
        let ghost models = scope::scope_views(scopes@);
        match variable.kind {
            VariableKind::FunctionDeclaration => {
                match find_function_scope(scopes, s, variable.declaration_byte) {
                    None => Err(CanonicalError::NoFunctionScope(variable.declaration_byte)),
                    Some(f) => {
                        assert(models[f as int] == scopes@[f as int]@);
                        let hash = hash_function_scope_structure(&scopes[f]);
                        match self.next_function(hash.as_str()) {
                            None => Err(CanonicalError::TooManyNames),
                            Some((k, name)) => {
                                self.functions.insert(hash, k);
                                self.give(s, variable.name.as_str(), name);
                                Ok(())
                            },
                        }
                    },
                }
            },
            VariableKind::Parameter => match self.next_number("param_", self.parameters) {
                None => Err(CanonicalError::TooManyNames),
                Some((k, name)) => {
                    self.parameters = k;
                    self.give(s, variable.name.as_str(), name);
                    Ok(())
                },
            },
            VariableKind::ClassDeclaration => match self.next_number("class_", self.classes) {
                None => Err(CanonicalError::TooManyNames),
                Some((k, name)) => {
                    self.classes = k;
                    self.give(s, variable.name.as_str(), name);
                    Ok(())
                },
            },
            _ => match self.next_number("var_", self.variables) {
                None => Err(CanonicalError::TooManyNames),
                Some((k, name)) => {
                    self.variables = k;
                    self.give(s, variable.name.as_str(), name);
                    Ok(())
                },
            },
        }
    }

    fn name_variables(&mut self, scopes: &Vec<Scope>, s: usize) -> (r: Result<(), CanonicalError>)
        requires
            s < scopes@.len(),
            scopes@.len() == old(self).table@.len(),
        ensures
            (final(self)@, r) == ({
                let models = scope::scope_views(scopes@);
                let (next, fault) = named_from(
                    models,
                    old(self)@,
                    s as int,
                    by_place(models[s as int].variables),
                    0,
                );
                (next, outcome(fault))
            }),
            final(self).table@.len() == old(self).table@.len(),
    {
        let ghost models = scope::scope_views(scopes@);
        assert(models[s as int] == scopes@[s as int]@);
        let variables = &scopes[s].variables;
        let ghost list = scope::variable_views(variables@);
        let mut keys: Vec<Pair<u64, u64>> = Vec::new();
        let mut i: usize = 0;
        while i < variables.len()
            invariant
                i <= variables@.len(),
                keys@.len() == i,
                forall|k: int|
                    0 <= k < i ==> #[trigger] keys@[k] == Pair(
                        variables@[k].declaration_line as u64,
                        variables@[k].declaration_column as u64,
                    ),
            decreases variables@.len() - i,
        {
            keys.push(
                Pair(
                    variables[i].declaration_line as u64,
                    variables[i].declaration_column as u64,
                ),
            );
            i += 1;
        }
        let order = stable_order(&keys);
        let length: usize = variables.len();
        let ghost sorted = by_place(list);
        proof {
            assert(keys@ =~= place_keys(list));
            order::lemma_ranks(keys@, order@);
        }
        let ghost whole = named_from(models, self@, s as int, sorted, 0);
        let mut j: usize = 0;
        while j < order.len()
            invariant
                models == scope::scope_views(scopes@),
                list == scope::variable_views(variables@),
                sorted == by_place(list),
                sorted.len() == order@.len(),
                order@.len() == variables@.len(),
                keys@ == place_keys(list),
                forall|k: int|
                    0 <= k < order@.len() ==> #[trigger] order@[k] < variables@.len()
                        && order::row_at(keys@, k) == order@[k],
                s < self.table@.len(),
                s < models.len(),
                models[s as int].variables == list,
                self.table@.len() == old(self).table@.len(),
                whole == named_from(models, old(self)@, s as int, sorted, 0),
                whole == named_from(models, self@, s as int, sorted, j as int),
                j <= order@.len(),
            decreases order@.len() - j,
        {
            let row = order[j];
            assert(order@[j as int] == row);
            assert(sorted[j as int] == variables@[row as int]@);
            match self.name_variable(scopes, s, &variables[row]) {
                Ok(()) => {},
                Err(error) => {
                    return Err(error);
                },
            }
            j += 1;
        }
        Ok(())
    }

    fn name_scope(&mut self, scopes: &Vec<Scope>, s: usize) -> (r: Result<(), CanonicalError>)
        requires
            s < scopes@.len(),
            scopes@.len() == old(self).table@.len(),
        ensures
            (final(self)@, r) == ({
                let (next, fault) = named_scope(
                    scope::scope_views(scopes@),
                    old(self)@,
                    s as int,
                );
                (next, outcome(fault))
            }),
            final(self).table@.len() == old(self).table@.len(),
        decreases scopes@.len() - s,
    {
        let ghost models = scope::scope_views(scopes@);
        assert(models.len() == scopes@.len());
        assert(models[s as int] == scopes@[s as int]@);
        let ghost whole = named_scope(models, self@, s as int);
        match self.name_variables(scopes, s) {
            Ok(()) => {},
            Err(error) => {
                return Err(error);
            },
        }
        let children = &scopes[s].children;
        let mut k: usize = 0;
        while k < children.len()
            invariant
                models == scope::scope_views(scopes@),
                models.len() == scopes@.len(),
                s < scopes@.len(),
                models[s as int].children == syntax::index_views(children@),
                scopes@.len() == self.table@.len(),
                self.table@.len() == old(self).table@.len(),
                whole == named_scope(models, old(self)@, s as int),
                whole == named_children(models, self@, s as int, k as int),
                k <= children@.len(),
            decreases children@.len() - k,
        {
            let child = children[k];
            assert(models[s as int].children[k as int] == child);
            if child <= s || child >= scopes.len() {
                return Err(CanonicalError::ScopeNotFound(child));
            }
            match self.name_scope(scopes, child) {
                Ok(()) => {},
                Err(error) => {
                    return Err(error);
                },
            }
            k += 1;
        }
        assert(models[s as int].children.len() == children@.len());
        Ok(())
    }
}

/// A fault as the outcome of a step.
pub open spec fn outcome(fault: Option<CanonicalError>) -> Result<(), CanonicalError> {
    match fault {
        Some(fault) => Err(fault),
        None => Ok(()),
    }
}

/// Gives variables canonical names and puts them into the text.
pub struct Canonicalizer {
    pub scope_analyzer: ScopeAnalyzer,
    names: NameTable,
}

fn spelled(kind: &str) -> (r: bool)
    ensures
        r == is_spelled(kind@),
{
    same_text(kind, "identifier") || same_text(kind, "shorthand_property_identifier") || same_text(
        kind,
        "shorthand_property_identifier_pattern",
    )
}

fn concat_three(a: &str, b: &str, c: &str) -> (text: String)
    ensures
        text@ == a@ + b@ + c@,
{
    a.to_string().concat(b).concat(c)
}

/// What stands for a renamed identifier.
pub(crate) fn identifier_replacement(tree: &SyntaxTree, i: usize, original: &str, renamed: &str) -> (text:
    String)
    requires
        i < tree@.len(),
    ensures
        text@ == replacement_of(tree@, i as int, original@, renamed@),
{
    if same_text(original, renamed) {
        return original.to_string();
    }
    if tree.is_kind(i, "shorthand_property_identifier") || tree.is_kind(
        i,
        "shorthand_property_identifier_pattern",
    ) {
        return concat_three(original, ": ", renamed);
    }
    if let Some(parent) = tree.parent(i) {
        if tree.child_by_field_name(parent, "alias").is_none() {
            if tree.is_kind(parent, "import_specifier") {
                return concat_three(original, " as ", renamed);
            }
            if tree.is_kind(parent, "export_specifier") {
                return concat_three(renamed, " as ", original);
            }
        }
    }
    renamed.to_string()
}

fn chosen<'a>(list: &'a Vec<(String, String)>, name: &'a str) -> (r: &'a str)
    ensures
        r@ == chosen_upto(list@, name@, list@.len() as int),
{
    let mut i: usize = list.len();
    while i > 0
        invariant
            i <= list@.len(),
            chosen_upto(list@, name@, list@.len() as int) == chosen_upto(list@, name@, i as int),
        decreases i,
    {
        i -= 1;
        if same_text(list[i].0.as_str(), name) {
            return list[i].1.as_str();
        }
    }
    name
}

impl Canonicalizer {
    /// The scopes that variables are named in.
    pub closed spec fn scopes(&self) -> scope::ScopesModel {
        self.scope_analyzer@
    }

    /// The names that were given.
    pub closed spec fn given_names(&self) -> NamesModel {
        self.names@
    }

    pub fn new(scope_analyzer: ScopeAnalyzer) -> (canonicalizer: Self)
        ensures
            canonicalizer.scopes() == scope_analyzer@,
            canonicalizer.given_names().names == Map::<(int, Seq<char>), Seq<char>>::empty(),
    {
        Canonicalizer { scope_analyzer, names: NameTable::new(0) }
    }

    /// Names all variables. No name that is given is a spelling of the text or
    /// given twice.
    pub fn canonicalize(&mut self, tree: &SyntaxTree, source: &str) -> (r: Result<
        (),
        CanonicalError,
    >)
        requires
            syntax::covers(tree@, source@),
        ensures
            (final(self).given_names(), r) == ({
                let (names, fault) = canonical_names(
                    old(self).scopes().scopes,
                    tree@,
                    source@,
                );
                (names, outcome(fault))
            }),
            final(self).scopes() == old(self).scopes(),
    {
        let scopes = self.scope_analyzer.get_scopes();
        let ghost models = scope::scope_views(scopes@);
        let mut names = NameTable::new(scopes.len());
        let count = tree.len();
        let mut i: usize = 0;
        while i < count
            invariant
                syntax::covers(tree@, source@),
                count == tree@.len(),
                i <= count,
                names@ == (NamesModel {
                    used: spellings(tree@, source@, i as int),
                    names: Map::empty(),
                    functions: Map::empty(),
                    classes: 0,
                    variables: 0,
                    parameters: 0,
                }),
                names.table@.len() == scopes@.len(),
            decreases count - i,
        {
            if spelled(tree.kind(i)) {
                names.used.insert(tree.text(i, source).to_string());
            }
            i += 1;
        }
        assert(names@ == no_names(tree@, source@));
        assert(models.len() == scopes@.len());
        let r = names.name_scope(scopes, 0);
        self.names = names;
        r
    }

    /// The text with canonical names.
    pub fn apply_canonicalization(&self, tree: &SyntaxTree, source: &str) -> (r: Result<
        String,
        CanonicalError,
    >)
        requires
            self.scopes().inner.len() == tree@.len(),
            syntax::covers(tree@, source@),
        ensures
            applies(
                r,
                tree@,
                source@,
                self.scopes(),
                self.given_names().names,
                Seq::empty(),
            ),
    {
        let list: Vec<(String, String)> = Vec::new();
        assert(list@ =~= Seq::empty());
        self.apply_names(tree, source, &list)
    }

    /// The text with canonical names, or the names that a list gives for them.
    pub fn apply_names(
        &self,
        tree: &SyntaxTree,
        source: &str,
        names: &Vec<(String, String)>,
    ) -> (r: Result<String, CanonicalError>)
        requires
            self.scopes().inner.len() == tree@.len(),
            syntax::covers(tree@, source@),
        ensures
            applies(
                r,
                tree@,
                source@,
                self.scopes(),
                self.given_names().names,
                names@,
            ),
    {
        let identifiers = self.scope_analyzer.resolved_identifiers(tree, source);
        let ghost resolved = scope::resolved_views(identifiers@);
        let ghost given = self.given_names().names;
        let ghost wanted = identifier_edits(tree@, source@, given, names@, resolved);
        let mut list: Vec<Edit> = Vec::new();
        let mut i: usize = 0;
        while i < identifiers.len()
            invariant
                syntax::covers(tree@, source@),
                resolved == scope::resolved_views(identifiers@),
                given == self.given_names().names,
                wanted == identifier_edits(tree@, source@, given, names@, resolved),
                forall|k: int|
                    0 <= k < identifiers@.len() ==> (#[trigger] identifiers@[k]).node
                        < tree@.len(),
                i <= identifiers@.len(),
                list@.len() == i,
                forall|k: int| 0 <= k < i ==> (#[trigger] list@[k])@ == wanted[k],
            decreases identifiers@.len() - i,
        {
            let identifier = &identifiers[i];
            assert(resolved[i as int] == identifier@);
            let row = tree.row(identifier.node);
            let original = tree.text(identifier.node, source);
            let text = match self.find_canonical_name(original, identifier.scope_id) {
                Some(canonical) => identifier_replacement(
                    tree,
                    identifier.node,
                    original,
                    chosen(names, canonical),
                ),
                None => original.to_string(),
            };
            let edit = Edit { start: row.start_byte, end: row.end_byte, text };
            assert(edit@ == wanted[i as int]);
            list.push(edit);
            i += 1;
        }
        proof {
            assert(resolved.len() == identifiers@.len());
            assert(edits::edit_views(list@) =~= wanted);
            assert forall|k: int| 0 <= k < wanted.len() implies text::is_text_range(
                source@,
                (#[trigger] wanted[k]).start,
                wanted[k].end,
            ) by {
                assert(resolved[k] == identifiers@[k]@);
                assert(identifiers@[k].node < tree@.len());
                assert(text::is_text_range(
                    source@,
                    tree@[resolved[k].node].start_byte,
                    tree@[resolved[k].node].end_byte,
                ));
            }
        }
        match splice(source, &list) {
            Some(output) => Ok(output),
            None => Err(CanonicalError::Overlap),
        }
    }

    /// The name that a variable of a scope was given.
    pub fn find_canonical_name(&self, original_name: &str, scope_id: usize) -> (r: Option<&str>)
        ensures
            match r {
                Some(name) => self.given_names().names.contains_key(
                    (scope_id as int, original_name@),
                ) && name@ == self.given_names().names[(scope_id as int, original_name@)],
                None => !self.given_names().names.contains_key((scope_id as int, original_name@)),
            },
    {
        if scope_id >= self.names.table.len() {
            return None;
        }
        match self.names.table[scope_id].get(original_name) {
            Some(name) => Some(name.as_str()),
            None => None,
        }
    }
}

/// Whether an outcome is the text after the edits of its identifiers.
pub open spec fn applies(
    r: Result<String, CanonicalError>,
    rows: Seq<RowModel>,
    source: Seq<char>,
    model: scope::ScopesModel,
    names: Map<(int, Seq<char>), Seq<char>>,
    list: Seq<(String, String)>,
) -> bool {
    let changes = identifier_edits(
        rows,
        source,
        names,
        list,
        scope::resolved_from(rows, source, model, 0),
    );
    match r {
        Ok(output) => !edits::some_overlap(changes) && output@ == edits::spliced(source, changes),
        Err(error) => edits::some_overlap(changes) && error == CanonicalError::Overlap,
    }
}

/// Whether every given name is used, differs from some spellings, and is given
/// once.
pub open spec fn are_fresh(n: NamesModel, taken: Set<Seq<char>>) -> bool {
    &&& taken.subset_of(n.used)
    &&& forall|key: (int, Seq<char>)| #[trigger]
        n.names.contains_key(key) ==> n.used.contains(n.names[key]) && !taken.contains(
            n.names[key],
        )
    &&& forall|a: (int, Seq<char>), b: (int, Seq<char>)|
        #![trigger n.names.contains_key(a), n.names.contains_key(b)]
        n.names.contains_key(a) && n.names.contains_key(b) && n.names[a] == n.names[b] ==> a == b
}

proof fn lemma_fresh_number(used: Set<Seq<char>>, prefix: Seq<char>, number: usize)
    ensures
        fresh_number(used, prefix, number) matches Some(k) ==> !used.contains(numbered(prefix, k)),
    decreases usize::MAX - number,
{
    if number < usize::MAX && used.contains(numbered(prefix, (number + 1) as usize)) {
        lemma_fresh_number(used, prefix, (number + 1) as usize);
    }
}

proof fn lemma_fresh_function(used: Set<Seq<char>>, hash: Seq<char>, number: usize)
    ensures
        fresh_function(used, hash, number) matches Some(k) ==> !used.contains(
            function_name(hash, k),
        ),
    decreases usize::MAX - number,
{
    if number < usize::MAX && used.contains(function_name(hash, (number + 1) as usize)) {
        lemma_fresh_function(used, hash, (number + 1) as usize);
    }
}

proof fn lemma_given_is_fresh(
    n: NamesModel,
    taken: Set<Seq<char>>,
    s: int,
    variable: Seq<char>,
    name: Seq<char>,
)
    requires
        are_fresh(n, taken),
        !n.used.contains(name),
    ensures
        are_fresh(given(n, s, variable, name), taken),
{
    let next = given(n, s, variable, name);
    assert forall|key: (int, Seq<char>)| #[trigger] next.names.contains_key(key) implies
        next.used.contains(next.names[key]) && !taken.contains(next.names[key]) by {
        if key != (s, variable) {
            assert(n.names.contains_key(key));
        }
    }
    assert forall|a: (int, Seq<char>), b: (int, Seq<char>)|
        #![trigger next.names.contains_key(a), next.names.contains_key(b)]
        next.names.contains_key(a) && next.names.contains_key(b) && next.names[a]
            == next.names[b] implies a == b by {
        if a != (s, variable) {
            assert(n.names.contains_key(a));
        }
        if b != (s, variable) {
            assert(n.names.contains_key(b));
        }
    }
}

proof fn lemma_variable_is_fresh(
    scopes: Seq<ScopeModel>,
    n: NamesModel,
    s: int,
    v: VariableModel,
    taken: Set<Seq<char>>,
)
    requires
        are_fresh(n, taken),
    ensures
        are_fresh(named_variable(scopes, n, s, v).0, taken),
{
    lemma_fresh_number(n.used, "param_"@, n.parameters);
    lemma_fresh_number(n.used, "class_"@, n.classes);
    lemma_fresh_number(n.used, "var_"@, n.variables);
    match v.kind {
        VariableKind::FunctionDeclaration => {
            if let Some(f) = function_scope(scopes, s, v.byte) {
                let hash = structure_hash(scopes[f]);
                lemma_fresh_function(n.used, hash, function_number(n, hash));
                if let Some(k) = fresh_function(n.used, hash, function_number(n, hash)) {
                    lemma_given_is_fresh(
                        NamesModel { functions: n.functions.insert(hash, k), ..n },
                        taken,
                        s,
                        v.name,
                        function_name(hash, k),
                    );
                }
            }
        },
        VariableKind::Parameter => {
            if let Some(k) = fresh_number(n.used, "param_"@, n.parameters) {
                lemma_given_is_fresh(
                    NamesModel { parameters: k, ..n },
                    taken,
                    s,
                    v.name,
                    numbered("param_"@, k),
                );
            }
        },
        VariableKind::ClassDeclaration => {
            if let Some(k) = fresh_number(n.used, "class_"@, n.classes) {
                lemma_given_is_fresh(
                    NamesModel { classes: k, ..n },
                    taken,
                    s,
                    v.name,
                    numbered("class_"@, k),
                );
            }
        },
        _ => {
            if let Some(k) = fresh_number(n.used, "var_"@, n.variables) {
                lemma_given_is_fresh(
                    NamesModel { variables: k, ..n },
                    taken,
                    s,
                    v.name,
                    numbered("var_"@, k),
                );
            }
        },
    }
}

proof fn lemma_variables_are_fresh(
    scopes: Seq<ScopeModel>,
    n: NamesModel,
    s: int,
    list: Seq<VariableModel>,
    k: int,
    taken: Set<Seq<char>>,
)
    requires
        are_fresh(n, taken),
        0 <= k,
    ensures
        are_fresh(named_from(scopes, n, s, list, k).0, taken),
    decreases list.len() - k,
{
    if k < list.len() {
        lemma_variable_is_fresh(scopes, n, s, list[k], taken);
        lemma_variables_are_fresh(
            scopes,
            named_variable(scopes, n, s, list[k]).0,
            s,
            list,
            k + 1,
            taken,
        );
    }
}

proof fn lemma_scope_is_fresh(scopes: Seq<ScopeModel>, n: NamesModel, s: int, taken: Set<Seq<char>>)
    requires
        are_fresh(n, taken),
        0 <= s < scopes.len(),
    ensures
        are_fresh(named_scope(scopes, n, s).0, taken),
    decreases scopes.len() - s, scopes[s].children.len() + 1,
{
    let list = by_place(scopes[s].variables);
    lemma_variables_are_fresh(scopes, n, s, list, 0, taken);
    lemma_children_are_fresh(scopes, named_from(scopes, n, s, list, 0).0, s, 0, taken);
}

proof fn lemma_children_are_fresh(
    scopes: Seq<ScopeModel>,
    n: NamesModel,
    s: int,
    k: int,
    taken: Set<Seq<char>>,
)
    requires
        are_fresh(n, taken),
        0 <= s < scopes.len(),
        0 <= k,
    ensures
        are_fresh(named_children(scopes, n, s, k).0, taken),
    decreases scopes.len() - s, scopes[s].children.len() - k,
{
    if k < scopes[s].children.len() {
        let child = scopes[s].children[k];
        if s < child < scopes.len() {
            lemma_scope_is_fresh(scopes, n, child, taken);
            lemma_children_are_fresh(
                scopes,
                named_scope(scopes, n, child).0,
                s,
                k + 1,
                taken,
            );
        }
    }
}

/// No canonical name is a spelling of the text, and no two variables get the
/// same one: canonical names capture neither other bindings nor unresolved
/// names.
pub proof fn law_canonical_names_capture_nothing(
    scopes: Seq<ScopeModel>,
    rows: Seq<RowModel>,
    source: Seq<char>,
)
    requires
        scopes.len() > 0,
    ensures
        are_fresh(
            canonical_names(scopes, rows, source).0,
            spellings(rows, source, rows.len() as int),
        ),
{
    lemma_scope_is_fresh(
        scopes,
        no_names(rows, source),
        0,
        spellings(rows, source, rows.len() as int),
    );
}

/// Whether a scope declares a variable.
pub open spec fn declares(scopes: Seq<ScopeModel>, s: int, name: Seq<char>) -> bool {
    0 <= s < scopes.len() && exists|k: int|
        0 <= k < scopes[s].variables.len() && (#[trigger] scopes[s].variables[k]).name == name
}

/// Whether scope `t` is scope `s` or one inside.
spec fn is_inside(scopes: Seq<ScopeModel>, t: int, s: int) -> bool
    decreases t,
{
    t == s || (0 <= t < scopes.len() && (scopes[t].parent matches Some(parent) && 0 <= parent < t
        && is_inside(scopes, parent, s)))
}

/// Whether scope `t` is inside a child of scope `s` from the `k`-th on.
spec fn is_in_children(scopes: Seq<ScopeModel>, t: int, s: int, k: int) -> bool {
    exists|j: int|
        k <= j < scopes[s].children.len() && is_inside(
            scopes,
            t,
            #[trigger] scopes[s].children[j],
        )
}

proof fn lemma_inside_child(scopes: Seq<ScopeModel>, t: int, s: int, j: int)
    requires
        scope::children_are_listed(scopes),
        0 <= s < scopes.len(),
        0 <= j < scopes[s].children.len(),
        is_inside(scopes, t, scopes[s].children[j]),
    ensures
        is_inside(scopes, t, s),
    decreases t,
{
    assert(scope::is_listed(scopes, s));
    assert(is_inside(scopes, s, s));
    if t != scopes[s].children[j] {
        lemma_inside_child(scopes, scopes[t].parent->0, s, j);
    }
}

/// A scope inside another is that one, or inside one of its children.
proof fn lemma_inside(scopes: Seq<ScopeModel>, t: int, s: int)
    requires
        scope::children_are_listed(scopes),
        0 <= s < scopes.len(),
    ensures
        is_inside(scopes, t, s) == (t == s || is_in_children(scopes, t, s, 0)),
    decreases t,
{
    if is_inside(scopes, t, s) && t != s {
        let parent = scopes[t].parent->0;
        assert(scope::is_listed(scopes, t));
        lemma_inside(scopes, parent, s);
        if parent == s {
            let j = choose|j: int|
                0 <= j < scopes[s].children.len() && scopes[s].children[j] == t;
            assert(is_inside(scopes, t, scopes[s].children[j]));
        } else {
            let j = choose|j: int|
                0 <= j < scopes[s].children.len() && is_inside(
                    scopes,
                    parent,
                    #[trigger] scopes[s].children[j],
                );
            assert(is_inside(scopes, t, scopes[s].children[j]));
        }
    }
    if is_in_children(scopes, t, s, 0) {
        let j = choose|j: int|
            0 <= j < scopes[s].children.len() && is_inside(
                scopes,
                t,
                #[trigger] scopes[s].children[j],
            );
        lemma_inside_child(scopes, t, s, j);
    }
}

/// Every scope is inside the global one.
proof fn lemma_inside_root(scopes: Seq<ScopeModel>, t: int)
    requires
        scope::scopes_form_a_tree(scopes),
        0 <= t < scopes.len(),
    ensures
        is_inside(scopes, t, 0),
    decreases t,
{
    assert(scope::scope_fits(scopes, t));
    if let Some(parent) = scopes[t].parent {
        lemma_inside_root(scopes, parent);
    }
}

/// Whether a variable of a list, from the `k`-th on, has a name.
spec fn is_named_in(list: Seq<VariableModel>, name: Seq<char>, k: int) -> bool {
    exists|j: int| k <= j < list.len() && (#[trigger] list[j]).name == name
}

proof fn lemma_list_is_named(
    scopes: Seq<ScopeModel>,
    n: NamesModel,
    s: int,
    list: Seq<VariableModel>,
    k: int,
    key: (int, Seq<char>),
)
    requires
        0 <= k,
        named_from(scopes, n, s, list, k).1 is None,
    ensures
        named_from(scopes, n, s, list, k).0.names.contains_key(key) == (n.names.contains_key(key)
            || (key.0 == s && is_named_in(list, key.1, k))),
    decreases list.len() - k,
{
    if k < list.len() {
        let next = named_variable(scopes, n, s, list[k]).0;
        assert(next.names.contains_key(key) == (n.names.contains_key(key) || key == (
            s,
            list[k].name,
        )));
        lemma_list_is_named(scopes, next, s, list, k + 1, key);
        if is_named_in(list, key.1, k) {
            let j = choose|j: int| k <= j < list.len() && (#[trigger] list[j]).name == key.1;
            if j > k {
                assert(is_named_in(list, key.1, k + 1));
            }
        }
    }
}

proof fn lemma_scope_is_named(
    scopes: Seq<ScopeModel>,
    n: NamesModel,
    s: int,
    key: (int, Seq<char>),
)
    requires
        scope::children_are_listed(scopes),
        0 <= s < scopes.len(),
        named_scope(scopes, n, s).1 is None,
    ensures
        named_scope(scopes, n, s).0.names.contains_key(key) == (n.names.contains_key(key) || (
        is_inside(scopes, key.0, s) && declares(scopes, key.0, key.1))),
    decreases scopes.len() - s, scopes[s].children.len() + 1,
{
    let variables = scopes[s].variables;
    let list = by_place(variables);
    let next = named_from(scopes, n, s, list, 0).0;
    lemma_list_is_named(scopes, n, s, list, 0, key);
    assert(place_keys(variables).len() == variables.len());
    order::lemma_arranged(variables, place_keys(variables));
    assert(is_named_in(list, key.1, 0) == declares(scopes, s, key.1)) by {
        if is_named_in(list, key.1, 0) {
            let j = choose|j: int| 0 <= j < list.len() && (#[trigger] list[j]).name == key.1;
            assert(list.contains(list[j]));
            assert(variables.contains(list[j]));
            let k = choose|k: int| 0 <= k < variables.len() && variables[k] == list[j];
            assert(variables[k].name == key.1);
        }
        if declares(scopes, s, key.1) {
            let k = choose|k: int|
                0 <= k < variables.len() && (#[trigger] variables[k]).name == key.1;
            assert(variables.contains(variables[k]));
            assert(list.contains(variables[k]));
            let j = choose|j: int| 0 <= j < list.len() && list[j] == variables[k];
            assert(list[j].name == key.1);
        }
    }
    lemma_children_are_named(scopes, next, s, 0, key);
    lemma_inside(scopes, key.0, s);
}

proof fn lemma_children_are_named(
    scopes: Seq<ScopeModel>,
    n: NamesModel,
    s: int,
    k: int,
    key: (int, Seq<char>),
)
    requires
        scope::children_are_listed(scopes),
        0 <= s < scopes.len(),
        0 <= k,
        named_children(scopes, n, s, k).1 is None,
    ensures
        named_children(scopes, n, s, k).0.names.contains_key(key) == (n.names.contains_key(key) || (
        is_in_children(scopes, key.0, s, k) && declares(scopes, key.0, key.1))),
    decreases scopes.len() - s, scopes[s].children.len() - k,
{
    if k < scopes[s].children.len() {
        let child = scopes[s].children[k];
        let next = named_scope(scopes, n, child).0;
        lemma_scope_is_named(scopes, n, child, key);
        lemma_children_are_named(scopes, next, s, k + 1, key);
        assert(is_in_children(scopes, key.0, s, k) == (is_inside(scopes, key.0, child)
            || is_in_children(scopes, key.0, s, k + 1))) by {
            if is_in_children(scopes, key.0, s, k) {
                let j = choose|j: int|
                    k <= j < scopes[s].children.len() && is_inside(
                        scopes,
                        key.0,
                        #[trigger] scopes[s].children[j],
                    );
                if j > k {
                    assert(is_in_children(scopes, key.0, s, k + 1));
                }
            }
            if is_in_children(scopes, key.0, s, k + 1) {
                let j = choose|j: int|
                    k + 1 <= j < scopes[s].children.len() && is_inside(
                        scopes,
                        key.0,
                        #[trigger] scopes[s].children[j],
                    );
                assert(is_inside(scopes, key.0, scopes[s].children[j]));
            }
            if is_inside(scopes, key.0, child) {
                assert(is_inside(scopes, key.0, scopes[s].children[k]));
            }
        }
    }
}

/// Where the variables of a text are named without a fault, a name is given
/// to exactly the variables that a scope declares.
pub proof fn law_every_variable_gets_a_name(
    rows: Seq<RowModel>,
    source: Seq<char>,
    s: int,
    name: Seq<char>,
)
    requires
        syntax::lists_a_tree(rows),
        canonical_names(
            scope::analyzed(seq![scope::global_scope()], rows, source).scopes,
            rows,
            source,
        ).1 is None,
    ensures
        ({
            let scopes = scope::analyzed(seq![scope::global_scope()], rows, source).scopes;
            canonical_names(scopes, rows, source).0.names.contains_key((s, name)) == declares(
                scopes,
                s,
                name,
            )
        }),
{
    let scopes = scope::analyzed(seq![scope::global_scope()], rows, source).scopes;
    scope::law_scopes_list_their_children(rows, source);
    lemma_scope_is_named(scopes, no_names(rows, source), 0, (s, name));
    if declares(scopes, s, name) {
        lemma_inside_root(scopes, s);
    }
}

} // verus!
