//! Syntax compared by resolved bindings, never by the spelling of identifiers
//! alone. Where nodes start and end stays visible, so that texts that differ in
//! where statements end stay different.

use std::collections::HashMap;

use vstd::hash_map::StringHashMap;
use vstd::prelude::*;
use vstd::string::*;
use vstd::utf8::*;

use crate::scope::ScopeAnalyzer;
use crate::syntax::SyntaxTree;
use crate::text::{chars_of, position_of_char, same_text, slice_chars, slice_text, split_lines, string_of};

use crate::scope::ResolvedModel;
use crate::syntax::RowModel;
use crate::{scope, syntax, text};

verus! {

/// A piece of syntax.
#[derive(Debug, Clone)]
pub enum Token {
    Open(&'static str),
    Close,
    Literal(&'static str, String),
    Text(String),
    Binding { symbol: u32, local: bool, spelling: String },
}

/// The model of a [`Token`].
pub enum TokenModel {
    Open(Seq<char>),
    Close,
    Literal(Seq<char>, Seq<char>),
    Text(Seq<char>),
    Binding { symbol: u32, local: bool, spelling: Seq<char> },
}

impl View for Token {
    type V = TokenModel;

    open spec fn view(&self) -> TokenModel {
        match self {
            Token::Open(kind) => TokenModel::Open(kind@),
            Token::Close => TokenModel::Close,
            Token::Literal(kind, text) => TokenModel::Literal(kind@, text@),
            Token::Text(text) => TokenModel::Text(text@),
            Token::Binding { symbol, local, spelling } => TokenModel::Binding {
                symbol: *symbol,
                local: *local,
                spelling: spelling@,
            },
        }
    }
}

/// A piece of syntax with the line, counted from the start, that it stands on.
#[derive(Debug, Clone)]
pub struct PlacedToken {
    pub token: Token,
    pub line: usize,
}

/// The model of a [`PlacedToken`].
pub struct PlacedModel {
    pub token: TokenModel,
    pub line: int,
}

impl View for PlacedToken {
    type V = PlacedModel;

    open spec fn view(&self) -> PlacedModel {
        PlacedModel { token: self.token@, line: self.line as int }
    }
}

/// Placed tokens seen as their models.
pub open spec fn placed_views(tokens: Seq<PlacedToken>) -> Seq<PlacedModel> {
    tokens.map_values(|token: PlacedToken| token@)
}

/// The syntax of a node.
#[derive(Debug, Clone)]
pub struct Tokens {
    pub tokens: Vec<PlacedToken>,
    pub lines: usize,
    pub symbol: Option<u32>,
}

/// The model of [`Tokens`].
pub struct TokensModel {
    pub tokens: Seq<PlacedModel>,
    pub lines: int,
    pub symbol: Option<u32>,
}

impl View for Tokens {
    type V = TokensModel;

    open spec fn view(&self) -> TokensModel {
        TokensModel {
            tokens: placed_views(self.tokens@),
            lines: self.lines as int,
            symbol: self.symbol,
        }
    }
}

/// The symbols of a text: where they are declared, and which spans name them.
pub struct BindingsModel {
    pub symbols: Map<(int, Seq<char>), u32>,
    pub declarations: Seq<(int, int)>,
    pub spans: Map<(int, int), u32>,
}

/// A sum, or the largest number in its place.
pub open spec fn capped_sum(a: int, b: int) -> int {
    if a + b > usize::MAX {
        usize::MAX as int
    } else {
        a + b
    }
}

/// The symbols after one more resolved identifier.
pub open spec fn bound(
    rows: Seq<RowModel>,
    source: Seq<char>,
    b: BindingsModel,
    r: ResolvedModel,
) -> BindingsModel {
    let name = syntax::text_of(rows, source, r.node);
    let key = (r.scope_id, name);
    let span = (rows[r.node].start_byte, rows[r.node].end_byte);
    if b.symbols.contains_key(key) {
        BindingsModel { spans: b.spans.insert(span, b.symbols[key]), ..b }
    } else {
        let symbol = b.declarations.len() as u32;
        BindingsModel {
            symbols: b.symbols.insert(key, symbol),
            declarations: b.declarations.push(
                (
                    r.declaration_byte,
                    capped_sum(r.declaration_byte, encode_utf8(name).len() as int),
                ),
            ),
            spans: b.spans.insert(span, symbol),
        }
    }
}

/// The symbols of the first `count` resolved identifiers.
pub open spec fn bound_upto(
    rows: Seq<RowModel>,
    source: Seq<char>,
    resolved: Seq<ResolvedModel>,
    count: int,
) -> BindingsModel
    decreases count,
{
    if count <= 0 {
        BindingsModel { symbols: Map::empty(), declarations: Seq::empty(), spans: Map::empty() }
    } else {
        bound(
            rows,
            source,
            bound_upto(rows, source, resolved, count - 1),
            resolved[count - 1],
        )
    }
}

/// The identifiers of a text, resolved in its own scopes.
pub open spec fn resolved_of(rows: Seq<RowModel>, source: Seq<char>) -> Seq<ResolvedModel> {
    scope::resolved_from(
        rows,
        source,
        scope::analyzed(seq![scope::global_scope()], rows, source),
        0,
    )
}

/// The symbols of a text.
pub open spec fn bindings_of(rows: Seq<RowModel>, source: Seq<char>) -> BindingsModel {
    let resolved = resolved_of(rows, source);
    bound_upto(rows, source, resolved, resolved.len() as int)
}

/// Whether symbols ran out while identifiers were bound.
pub open spec fn too_many_symbols(rows: Seq<RowModel>, source: Seq<char>) -> bool {
    exists|k: int|
        0 <= k < resolved_of(rows, source).len() && (#[trigger] bound_upto(
            rows,
            source,
            resolved_of(rows, source),
            k,
        )).declarations.len() > u32::MAX
}

/// The line of a row, counted from that of another.
pub open spec fn line_from(row: int, root: int) -> int {
    if row >= root {
        row - root
    } else {
        0
    }
}

/// A part of a text, where it is one.
pub open spec fn piece(source: Seq<char>, start: int, end: int) -> Seq<char> {
    if text::is_text_range(source, start, end) {
        text::text_between(source, start, end)
    } else {
        Seq::empty()
    }
}

/// Whether one word is both a key and a name of an import or export.
pub open spec fn is_unaliased(rows: Seq<RowModel>, i: int) -> bool {
    syntax::parent_of(rows, i) matches Some(parent) && (rows[parent].kind == "import_specifier"@
        || rows[parent].kind == "export_specifier"@) && syntax::child_by_field(
        rows,
        parent,
        "alias"@,
    ) is None
}

/// Whether a node is a shorthand property.
pub open spec fn is_shorthand(kind: Seq<char>) -> bool {
    kind == "shorthand_property_identifier"@ || kind == "shorthand_property_identifier_pattern"@
}

/// The symbol that a node names.
pub open spec fn named_symbol(b: BindingsModel, rows: Seq<RowModel>, i: int) -> Option<u32> {
    let span = (rows[i].start_byte, rows[i].end_byte);
    if b.spans.contains_key(span) && (rows[i].kind == "identifier"@ || is_shorthand(rows[i].kind)) {
        Some(b.spans[span])
    } else {
        None
    }
}

/// A token on a line.
pub open spec fn placed(token: TokenModel, line: int) -> PlacedModel {
    PlacedModel { token, line }
}

/// The tokens of a bound identifier: a shorthand carries its key too.
pub open spec fn binding_tokens(
    b: BindingsModel,
    rows: Seq<RowModel>,
    source: Seq<char>,
    root: int,
    i: int,
    symbol: u32,
) -> Seq<PlacedModel> {
    let line = line_from(rows[i].start_row, rows[root].start_row);
    let spelling = syntax::text_of(rows, source, i);
    let (start, end) = b.declarations[symbol as int];
    let local = start >= rows[root].start_byte && end <= rows[root].end_byte;
    let token = placed(TokenModel::Binding { symbol, local, spelling }, line);
    if is_shorthand(rows[i].kind) || is_unaliased(rows, i) {
        seq![placed(TokenModel::Literal("external_key"@, spelling), line), token]
    } else {
        seq![token]
    }
}

/// The tokens of a node.
pub open spec fn collected(
    b: BindingsModel,
    rows: Seq<RowModel>,
    source: Seq<char>,
    root: int,
    i: int,
) -> Seq<PlacedModel>
    decreases rows.len() - i, syntax::children_of(rows, i).len() + 1,
    when 0 <= i < rows.len()
{
    let row = rows[i];
    let line = line_from(row.start_row, rows[root].start_row);
    let end_line = line_from(row.end_row, rows[root].start_row);
    let spelling = syntax::text_of(rows, source, i);
    if row.kind == "comment"@ || row.kind == "hash_bang_line"@ {
        Seq::empty()
    } else if row.kind == "string"@ {
        seq![placed(TokenModel::Text(spelling), line)]
    } else if row.kind == "template_string"@ {
        seq![placed(TokenModel::Open(row.kind), line)] + collected_template(
            b,
            rows,
            source,
            root,
            i,
            0,
            row.start_byte + 1,
            line,
        )
    } else if named_symbol(b, rows, i) is Some {
        binding_tokens(b, rows, source, root, i, named_symbol(b, rows, i)->0)
    } else if syntax::children_of(rows, i).len() == 0 {
        seq![placed(TokenModel::Literal(row.kind, spelling), line)]
    } else {
        seq![placed(TokenModel::Open(row.kind), line)] + collected_children(
            b,
            rows,
            source,
            root,
            i,
            0,
        ) + seq![placed(TokenModel::Close, end_line)]
    }
}

/// The tokens of the children of a node from child `k` on.
pub open spec fn collected_children(
    b: BindingsModel,
    rows: Seq<RowModel>,
    source: Seq<char>,
    root: int,
    i: int,
    k: int,
) -> Seq<PlacedModel>
    decreases rows.len() - i, syntax::children_of(rows, i).len() - k,
    when 0 <= i < rows.len() && 0 <= k
    via collected_children_decreases
{
    if k >= syntax::children_of(rows, i).len() {
        Seq::empty()
    } else {
        collected(b, rows, source, root, syntax::children_of(rows, i)[k]) + collected_children(
            b,
            rows,
            source,
            root,
            i,
            k + 1,
        )
    }
}

#[via_fn]
proof fn collected_children_decreases(
    b: BindingsModel,
    rows: Seq<RowModel>,
    source: Seq<char>,
    root: int,
    i: int,
    k: int,
) {
    if k < syntax::children_of(rows, i).len() {
        syntax::lemma_children(rows, i, rows.len() as int);
        let child = syntax::children_of(rows, i)[k];
        assert(i < child < rows.len());
    }
}

/// Whether a child of a template is a substitution.
pub open spec fn is_substitution(rows: Seq<RowModel>, c: int) -> bool {
    rows[c].named && rows[c].kind == "template_substitution"@
}

/// The texts and substitutions of a template from child `k` on, with a text
/// that starts at a byte.
pub open spec fn collected_template(
    b: BindingsModel,
    rows: Seq<RowModel>,
    source: Seq<char>,
    root: int,
    i: int,
    k: int,
    start: int,
    line: int,
) -> Seq<PlacedModel>
    decreases rows.len() - i, syntax::children_of(rows, i).len() - k,
    when 0 <= i < rows.len() && 0 <= k
    via collected_template_decreases
{
    if k >= syntax::children_of(rows, i).len() {
        seq![
            placed(TokenModel::Text(piece(source, start, rows[i].end_byte - 1)), line),
            placed(
                TokenModel::Close,
                line_from(rows[i].end_row, rows[root].start_row),
            ),
        ]
    } else {
        let c = syntax::children_of(rows, i)[k];
        if is_substitution(rows, c) {
            seq![placed(TokenModel::Text(piece(source, start, rows[c].start_byte)), line)]
                + collected(b, rows, source, root, c) + collected_template(
                b,
                rows,
                source,
                root,
                i,
                k + 1,
                rows[c].end_byte,
                line_from(rows[c].end_row, rows[root].start_row),
            )
        } else {
            collected_template(b, rows, source, root, i, k + 1, start, line)
        }
    }
}

#[via_fn]
proof fn collected_template_decreases(
    b: BindingsModel,
    rows: Seq<RowModel>,
    source: Seq<char>,
    root: int,
    i: int,
    k: int,
    start: int,
    line: int,
) {
    if k < syntax::children_of(rows, i).len() {
        syntax::lemma_children(rows, i, rows.len() as int);
        let child = syntax::children_of(rows, i)[k];
        assert(i < child < rows.len());
    }
}

/// The keyword of a declaration, where the node is one declarator of it.
pub open spec fn keyword_tokens(rows: Seq<RowModel>, source: Seq<char>, i: int) -> Seq<
    PlacedModel,
> {
    match syntax::parent_of(rows, i) {
        Some(parent) => if rows[i].kind == "variable_declarator"@ && syntax::children_of(
            rows,
            parent,
        ).len() > 0 {
            seq![
                placed(
                    TokenModel::Literal(
                        "declaration_kind"@,
                        syntax::text_of(rows, source, syntax::children_of(rows, parent)[0]),
                    ),
                    0,
                ),
            ]
        } else {
            Seq::empty()
        },
        None => Seq::empty(),
    }
}

/// The symbol that the name of a node names.
pub open spec fn own_symbol(b: BindingsModel, rows: Seq<RowModel>, i: int) -> Option<u32> {
    match syntax::child_by_field(rows, i, "name"@) {
        Some(name) => {
            let span = (rows[name].start_byte, rows[name].end_byte);
            if b.spans.contains_key(span) {
                Some(b.spans[span])
            } else {
                None
            }
        },
        None => None,
    }
}

/// The syntax of a node.
pub open spec fn tokenized(b: BindingsModel, rows: Seq<RowModel>, source: Seq<char>, i: int) -> TokensModel {
    TokensModel {
        tokens: keyword_tokens(rows, source, i) + collected(b, rows, source, i, i),
        lines: text::lines_of(syntax::text_of(rows, source, i)).len() as int,
        symbol: own_symbol(b, rows, i),
    }
}

/// The symbols of a text.
pub struct Bindings {
    declarations: Vec<(usize, usize)>,
    by_span: HashMap<u128, u32>,
    model: Ghost<BindingsModel>,
}

/// The number of a span.
spec fn span_number(start: int, end: int) -> int {
    start * 0x1_0000_0000_0000_0000 + end
}

fn span_key(start: usize, end: usize) -> (key: u128)
    ensures
        key == span_number(start as int, end as int),
{
    start as u128 * 0x1_0000_0000_0000_0000u128 + end as u128
}

/// Whether a map by numbers is one by spans.
spec fn spans_agree(map: Map<u128, u32>, spans: Map<(int, int), u32>) -> bool {
    forall|start: usize, end: usize|
        #![trigger spans.contains_key((start as int, end as int))]
        spans.contains_key((start as int, end as int)) == map.contains_key(
            span_number(start as int, end as int) as u128,
        ) && (spans.contains_key((start as int, end as int)) ==> spans[(
            start as int,
            end as int,
        )] == map[span_number(start as int, end as int) as u128])
}

/// Declarations seen as pairs of integers.
spec fn pair_views(pairs: Seq<(usize, usize)>) -> Seq<(int, int)> {
    pairs.map_values(|pair: (usize, usize)| (pair.0 as int, pair.1 as int))
}

/// Whether every symbol has a declaration.
spec fn symbols_are_declared(b: BindingsModel) -> bool {
    &&& forall|span: (int, int)| #[trigger]
        b.spans.contains_key(span) ==> b.spans[span] < b.declarations.len()
    &&& forall|key: (int, Seq<char>)| #[trigger]
        b.symbols.contains_key(key) ==> b.symbols[key] < b.declarations.len()
}

/// Whether a table by scope holds the numbers of symbols.
spec fn table_agrees(
    table: Seq<StringHashMap<u32>>,
    symbols: Map<(int, Seq<char>), u32>,
) -> bool {
    &&& forall|s: int, name: Seq<char>|
        #![trigger symbols.contains_key((s, name))]
        0 <= s < table.len() ==> symbols.contains_key((s, name)) == table[s]@.contains_key(name)
            && (symbols.contains_key((s, name)) ==> symbols[(s, name)] == table[s]@[name])
    &&& forall|s: int, name: Seq<char>|
        #![trigger symbols.contains_key((s, name))]
        symbols.contains_key((s, name)) ==> 0 <= s < table.len()
}

impl Bindings {
    #[verifier::type_invariant]
    spec fn is_wf(self) -> bool {
        &&& pair_views(self.declarations@) == self.model@.declarations
        &&& spans_agree(self.by_span@, self.model@.spans)
        &&& symbols_are_declared(self.model@)
    }

    /// The symbols.
    pub closed spec fn view(&self) -> BindingsModel {
        self.model@
    }

    /// Finds the symbols of a text, or nothing where there are too many.
    pub fn new(tree: &SyntaxTree, source: &str) -> (r: Option<Self>)
        requires
            syntax::covers(tree@, source@),
        ensures
            match r {
                Some(bindings) => !too_many_symbols(tree@, source@) && bindings.view()
                    == bindings_of(tree@, source@),
                None => too_many_symbols(tree@, source@),
            },
    {
        broadcast use vstd::std_specs::hash::group_hash_axioms;

        let mut scopes = ScopeAnalyzer::new();
        scopes.analyze(tree, source);
        let identifiers = scopes.resolved_identifiers(tree, source);
        let count = scopes.get_scopes().len();
        let ghost resolved = resolved_of(tree@, source@);
        assert(scope::resolved_views(identifiers@) == resolved);
        assert(resolved.len() == identifiers@.len());
        let mut table: Vec<StringHashMap<u32>> = Vec::new();
        while table.len() < count
            invariant
                table@.len() <= count,
                forall|s: int|
                    0 <= s < table@.len() ==> (#[trigger] table@[s])@ == Map::<
                        Seq<char>,
                        u32,
                    >::empty(),
            decreases count - table@.len(),
        {
            table.push(StringHashMap::new());
        }
        let mut declarations: Vec<(usize, usize)> = Vec::new();
        let mut by_span: HashMap<u128, u32> = HashMap::new();
        let ghost mut model = bound_upto(tree@, source@, resolved, 0);
        proof {
            scope::lemma_resolved_scopes_exist(tree@, source@, scopes@, 0);
        }
        assert(pair_views(declarations@) =~= model.declarations);
        let mut k: usize = 0;
        while k < identifiers.len()
            invariant
                syntax::covers(tree@, source@),
                resolved == resolved_of(tree@, source@),
                scope::resolved_views(identifiers@) == resolved,
                resolved.len() == identifiers@.len(),
                forall|j: int|
                    0 <= j < identifiers@.len() ==> (#[trigger] identifiers@[j]).node
                        < tree@.len(),
                forall|j: int|
                    0 <= j < resolved.len() ==> 0 <= (#[trigger] resolved[j]).scope_id
                        < table@.len(),
                k <= identifiers@.len(),
                model == bound_upto(tree@, source@, resolved, k as int),
                pair_views(declarations@) == model.declarations,
                spans_agree(by_span@, model.spans),
                symbols_are_declared(model),
                table_agrees(table@, model.symbols),
                forall|j: int|
                    0 <= j < k ==> (#[trigger] bound_upto(
                        tree@,
                        source@,
                        resolved,
                        j,
                    )).declarations.len() <= u32::MAX,
            decreases identifiers@.len() - k,
        {
            let identifier = &identifiers[k];
            assert(resolved[k as int] == identifier@);
            assert(pair_views(declarations@).len() == declarations@.len());
            if declarations.len() > 0xffff_ffff {
                assert(bound_upto(tree@, source@, resolved, k as int).declarations.len()
                    > u32::MAX);
                return None;
            }
            let name = tree.text(identifier.node, source);
            let row = tree.row(identifier.node);
            let s: usize = identifier.scope_id;
            assert(0 <= resolved[k as int].scope_id < table@.len());
            let ghost before = model;
            let ghost after = bound(tree@, source@, before, resolved[k as int]);
            let ghost key = (s as int, name@);
            let ghost earlier = table@;
            let ghost spans_before = by_span@;
            assert(before.symbols.contains_key(key) == earlier[s as int]@.contains_key(name@));
            let symbol: u32 = match table[s].get(name) {
                Some(symbol) => *symbol,
                None => {
                    let next: u32 = declarations.len() as u32;
                    let end: usize = match identifier.declaration_byte.checked_add(
                        name.as_bytes().len(),
                    ) {
                        Some(end) => end,
                        None => usize::MAX,
                    };
                    let ghost list = declarations@;
                    declarations.push((identifier.declaration_byte, end));
                    assert(pair_views(declarations@) =~= pair_views(list).push(
                        (identifier.declaration_byte as int, end as int),
                    ));
                    table[s].insert(name.to_string(), next);
                    next
                },
            };
            by_span.insert(span_key(row.start_byte, row.end_byte), symbol);
            proof {
                assert(after.declarations == pair_views(declarations@));
                assert forall|start: usize, end: usize|
                    #![trigger after.spans.contains_key((start as int, end as int))]
                    after.spans.contains_key((start as int, end as int))
                        == by_span@.contains_key(span_number(start as int, end as int) as u128)
                        && (after.spans.contains_key((start as int, end as int))
                        ==> after.spans[(start as int, end as int)] == by_span@[span_number(
                        start as int,
                        end as int,
                    ) as u128]) by {
                    assert(before.spans.contains_key((start as int, end as int))
                        == spans_before.contains_key(
                        span_number(start as int, end as int) as u128,
                    ));
                    assert(span_number(start as int, end as int) == span_number(
                        row.start_byte as int,
                        row.end_byte as int,
                    ) ==> start == row.start_byte && end == row.end_byte);
                }
                assert forall|span: (int, int)| #[trigger]
                    after.spans.contains_key(span) implies after.spans[span]
                    < after.declarations.len() by {
                    if before.spans.contains_key(span) {
                        assert(before.spans[span] < before.declarations.len());
                    }
                }
                assert forall|other: (int, Seq<char>)| #[trigger]
                    after.symbols.contains_key(other) implies after.symbols[other]
                    < after.declarations.len() by {
                    if before.symbols.contains_key(other) {
                        assert(before.symbols[other] < before.declarations.len());
                    }
                }
                assert forall|t: int, other: Seq<char>|
                    #![trigger after.symbols.contains_key((t, other))]
                    0 <= t < table@.len() implies after.symbols.contains_key((t, other))
                    == table@[t]@.contains_key(other) && (after.symbols.contains_key((t, other))
                    ==> after.symbols[(t, other)] == table@[t]@[other]) by {
                    assert(before.symbols.contains_key((t, other))
                        == earlier[t]@.contains_key(other));
                }
                assert forall|t: int, other: Seq<char>|
                    #![trigger after.symbols.contains_key((t, other))]
                    after.symbols.contains_key((t, other)) implies 0 <= t < table@.len() by {
                    if before.symbols.contains_key((t, other)) {
                        assert(0 <= t < earlier.len());
                    }
                }
                model = after;
            }
            k += 1;
        }
        proof {
            if too_many_symbols(tree@, source@) {
                let j = choose|j: int|
                    0 <= j < resolved.len() && (#[trigger] bound_upto(
                        tree@,
                        source@,
                        resolved,
                        j,
                    )).declarations.len() > u32::MAX;
                assert(bound_upto(tree@, source@, resolved, j).declarations.len() <= u32::MAX);
            }
        }
        Some(Bindings { declarations, by_span, model: Ghost(model) })
    }

    fn span_symbol(&self, start: usize, end: usize) -> (symbol: Option<u32>)
        ensures
            match symbol {
                Some(symbol) => self.view().spans.contains_key((start as int, end as int))
                    && self.view().spans[(start as int, end as int)] == symbol && symbol
                    < self.view().declarations.len(),
                None => !self.view().spans.contains_key((start as int, end as int)),
            },
    {
        broadcast use vstd::std_specs::hash::group_hash_axioms;

        proof {
            use_type_invariant(self);
            assert(self.model@.spans.contains_key((start as int, end as int))
                == self.by_span@.contains_key(span_number(start as int, end as int) as u128));
        }
        match self.by_span.get(&span_key(start, end)) {
            Some(symbol) => Some(*symbol),
            None => None,
        }
    }

    fn declaration(&self, symbol: u32) -> (r: (usize, usize))
        requires
            symbol < self.view().declarations.len(),
        ensures
            (r.0 as int, r.1 as int) == self.view().declarations[symbol as int],
    {
        proof {
            use_type_invariant(self);
            assert(pair_views(self.declarations@).len() == self.declarations@.len());
        }
        self.declarations[symbol as usize]
    }

    /// The syntax of a node.
    pub fn tokenize(&self, tree: &SyntaxTree, source: &str, node: usize) -> (tokens: Tokens)
        requires
            node < tree@.len(),
            syntax::covers(tree@, source@),
        ensures
            tokens@ == tokenized(self.view(), tree@, source@, node as int),
    {
        let symbol = match tree.child_by_field_name(node, "name") {
            Some(name) => {
                let row = tree.row(name);
                self.span_symbol(row.start_byte, row.end_byte)
            },
            None => None,
        };
        let lines = split_lines(tree.text(node, source));
        assert(text::views(lines@).len() == lines@.len());
        let mut output: Vec<PlacedToken> = Vec::new();
        if tree.is_kind(node, "variable_declarator") {
            if let Some(parent) = tree.parent(node) {
                let children = tree.children(parent);
                if children.len() > 0 {
                    let keyword = children[0];
                    assert(syntax::children_of(tree@, parent as int)[0] == keyword);
                    output.push(
                        PlacedToken {
                            token: Token::Literal(
                                "declaration_kind",
                                tree.text(keyword, source).to_string(),
                            ),
                            line: 0,
                        },
                    );
                } else {
                    assert(syntax::index_views(children@).len() == 0);
                }
            }
        }
        assert(placed_views(output@) =~= keyword_tokens(tree@, source@, node as int));
        self.collect(tree, source, node, node, &mut output);
        Tokens { tokens: output, lines: lines.len(), symbol }
    }

    fn collect_binding(
        &self,
        tree: &SyntaxTree,
        source: &str,
        root: usize,
        i: usize,
        symbol: u32,
        output: &mut Vec<PlacedToken>,
    )
        requires
            i < tree@.len(),
            root < tree@.len(),
            symbol < self.view().declarations.len(),
            syntax::covers(tree@, source@),
        ensures
            placed_views(final(output)@) == placed_views(old(output)@) + binding_tokens(
                self.view(),
                tree@,
                source@,
                root as int,
                i as int,
                symbol,
            ),
    {
        let ghost before = placed_views(output@);
        let top = tree.row(root);
        let row = tree.row(i);
        let line = line_between(row.start_row, top.start_row);
        let spelling = tree.text(i, source);
        let (start, end) = self.declaration(symbol);
        let local = start >= top.start_byte && end <= top.end_byte;
        if shorthand(row.kind) || is_unaliased_name(tree, i) {
            output.push(
                PlacedToken {
                    token: Token::Literal("external_key", spelling.to_string()),
                    line,
                },
            );
        }
        output.push(
            PlacedToken {
                token: Token::Binding { symbol, local, spelling: spelling.to_string() },
                line,
            },
        );
        assert(placed_views(output@) =~= before + binding_tokens(
            self.view(),
            tree@,
            source@,
            root as int,
            i as int,
            symbol,
        ));
    }

    fn collect_template(
        &self,
        tree: &SyntaxTree,
        source: &str,
        root: usize,
        i: usize,
        output: &mut Vec<PlacedToken>,
    )
        requires
            i < tree@.len(),
            root < tree@.len(),
            syntax::covers(tree@, source@),
        ensures
            placed_views(final(output)@) == placed_views(old(output)@) + collected_template(
                self.view(),
                tree@,
                source@,
                root as int,
                i as int,
                0,
                tree@[i as int].start_byte + 1,
                line_from(tree@[i as int].start_row, tree@[root as int].start_row),
            ),
        decreases tree@.len() - i, 0nat,
    {
        let ghost rows = tree@;
        let ghost b = self.view();
        let ghost before = placed_views(output@);
        let top = tree.row(root);
        let row = tree.row(i);
        let children = tree.children(i);
        let ghost list = syntax::children_of(rows, i as int);
        assert(list.len() == children@.len());
        let mut start: Option<usize> = row.start_byte.checked_add(1);
        let ghost mut from = row.start_byte + 1;
        let mut line = line_between(row.start_row, top.start_row);
        let ghost wanted = before + collected_template(
            b,
            rows,
            source@,
            root as int,
            i as int,
            0,
            from,
            line as int,
        );
        let mut k: usize = 0;
        while k < children.len()
            invariant
                rows == tree@,
                b == self.view(),
                i < tree@.len(),
                root < tree@.len(),
                top@ == rows[root as int],
                syntax::covers(rows, source@),
                list == syntax::children_of(rows, i as int),
                list == syntax::index_views(children@),
                list.len() == children@.len(),
                forall|j: int|
                    0 <= j < children@.len() ==> i < #[trigger] children@[j] < rows.len(),
                k <= children@.len(),
                is_place(start, from),
                wanted == placed_views(output@) + collected_template(
                    b,
                    rows,
                    source@,
                    root as int,
                    i as int,
                    k as int,
                    from,
                    line as int,
                ),
            decreases children@.len() - k,
        {
            let c = children[k];
            assert(list[k as int] == c);
            let child = tree.row(c);
            if child.named && same_text(child.kind, "template_substitution") {
                let ghost current = placed_views(output@);
                let text = piece_text(
                    source,
                    start,
                    Some(child.start_byte),
                    Ghost(from),
                    Ghost(child.start_byte as int),
                );
                let token = PlacedToken { token: Token::Text(text), line };
                let ghost first = token@;
                output.push(token);
                assert(placed_views(output@) =~= current.push(first));
                self.collect(tree, source, root, c, output);
                let ghost inner = collected(b, rows, source@, root as int, c as int);
                let ghost rest = collected_template(
                    b,
                    rows,
                    source@,
                    root as int,
                    i as int,
                    k + 1,
                    child.end_byte as int,
                    line_from(child.end_row as int, top.start_row as int),
                );
                start = Some(child.end_byte);
                proof {
                    from = child.end_byte as int;
                }
                line = line_between(child.end_row, top.start_row);
                assert(placed_views(output@) == current.push(first) + inner);
                assert(current + (seq![first] + inner + rest) =~= placed_views(output@) + rest);
            }
            k += 1;
        }
        let ghost current = placed_views(output@);
        let text = piece_text(
            source,
            start,
            row.end_byte.checked_sub(1),
            Ghost(from),
            Ghost(row.end_byte - 1),
        );
        output.push(PlacedToken { token: Token::Text(text), line });
        output.push(
            PlacedToken {
                token: Token::Close,
                line: line_between(row.end_row, top.start_row),
            },
        );
        assert(placed_views(output@) =~= wanted);
    }

    fn collect(
        &self,
        tree: &SyntaxTree,
        source: &str,
        root: usize,
        i: usize,
        output: &mut Vec<PlacedToken>,
    )
        requires
            i < tree@.len(),
            root < tree@.len(),
            syntax::covers(tree@, source@),
        ensures
            placed_views(final(output)@) == placed_views(old(output)@) + collected(
                self.view(),
                tree@,
                source@,
                root as int,
                i as int,
            ),
        decreases tree@.len() - i, 1nat,
    {
        let ghost rows = tree@;
        let ghost b = self.view();
        let ghost before = placed_views(output@);
        let top = tree.row(root);
        let row = tree.row(i);
        let line = line_between(row.start_row, top.start_row);
        if same_text(row.kind, "comment") || same_text(row.kind, "hash_bang_line") {
            assert(placed_views(output@) =~= before + collected(
                b,
                rows,
                source@,
                root as int,
                i as int,
            ));
            return;
        }
        if same_text(row.kind, "string") {
            output.push(
                PlacedToken { token: Token::Text(tree.text(i, source).to_string()), line },
            );
            assert(placed_views(output@) =~= before + collected(
                b,
                rows,
                source@,
                root as int,
                i as int,
            ));
            return;
        }
        let children = tree.children(i);
        let ghost list = syntax::children_of(rows, i as int);
        assert(list.len() == children@.len());
        if same_text(row.kind, "template_string") {
            output.push(PlacedToken { token: Token::Open(row.kind), line });
            assert(placed_views(output@) =~= before.push(
                placed(TokenModel::Open(row.kind@), line as int),
            ));
            self.collect_template(tree, source, root, i, output);
            assert(placed_views(output@) =~= before + collected(
                b,
                rows,
                source@,
                root as int,
                i as int,
            ));
            return;
        }
        if same_text(row.kind, "identifier") || shorthand(row.kind) {
            if let Some(symbol) = self.span_symbol(row.start_byte, row.end_byte) {
                self.collect_binding(tree, source, root, i, symbol, output);
                return;
            }
        }
        if children.len() == 0 {
            output.push(
                PlacedToken {
                    token: Token::Literal(row.kind, tree.text(i, source).to_string()),
                    line,
                },
            );
            assert(placed_views(output@) =~= before + collected(
                b,
                rows,
                source@,
                root as int,
                i as int,
            ));
            return;
        }
        output.push(PlacedToken { token: Token::Open(row.kind), line });
        let ghost head = placed_views(output@);
        assert(head =~= before.push(placed(TokenModel::Open(row.kind@), line as int)));
        let ghost wanted = head + collected_children(b, rows, source@, root as int, i as int, 0);
        let mut k: usize = 0;
        while k < children.len()
            invariant
                rows == tree@,
                b == self.view(),
                i < tree@.len(),
                root < tree@.len(),
                syntax::covers(rows, source@),
                list == syntax::children_of(rows, i as int),
                list == syntax::index_views(children@),
                list.len() == children@.len(),
                forall|j: int|
                    0 <= j < children@.len() ==> i < #[trigger] children@[j] < rows.len(),
                k <= children@.len(),
                wanted == placed_views(output@) + collected_children(
                    b,
                    rows,
                    source@,
                    root as int,
                    i as int,
                    k as int,
                ),
            decreases children@.len() - k,
        {
            let c = children[k];
            assert(list[k as int] == c);
            let ghost current = placed_views(output@);
            self.collect(tree, source, root, c, output);
            let ghost inner = collected(b, rows, source@, root as int, c as int);
            let ghost rest = collected_children(
                b,
                rows,
                source@,
                root as int,
                i as int,
                k + 1,
            );
            assert(current + (inner + rest) =~= placed_views(output@) + rest);
            k += 1;
        }
        assert(wanted =~= placed_views(output@));
        let close = PlacedToken {
            token: Token::Close,
            line: line_between(row.end_row, top.start_row),
        };
        let ghost last = close@;
        let ghost inside = output@;
        output.push(close);
        assert(placed_views(output@) =~= placed_views(inside).push(last));
        assert(named_symbol(b, rows, i as int) is None);
        assert(collected(b, rows, source@, root as int, i as int) == seq![
            placed(TokenModel::Open(row.kind@), line as int),
        ] + collected_children(b, rows, source@, root as int, i as int, 0) + seq![last]);
        assert(placed_views(output@) =~= before + collected(
            b,
            rows,
            source@,
            root as int,
            i as int,
        ));
    }
}

/// Whether a number is a place, or lies outside of all texts.
spec fn is_place(number: Option<usize>, place: int) -> bool {
    match number {
        Some(number) => number == place,
        None => place < 0 || place > usize::MAX,
    }
}

fn piece_text(
    source: &str,
    start: Option<usize>,
    end: Option<usize>,
    from: Ghost<int>,
    to: Ghost<int>,
) -> (text: String)
    requires
        is_place(start, from@),
        is_place(end, to@),
    ensures
        text@ == piece(source@, from@, to@),
{
    let length: usize = source.as_bytes().len();
    match (start, end) {
        (Some(start), Some(end)) => match slice_text(source, start, end) {
            Some(text) => text.to_string(),
            None => String::new(),
        },
        _ => String::new(),
    }
}

fn line_between(row: usize, root: usize) -> (line: usize)
    ensures
        line == line_from(row as int, root as int),
{
    if row >= root {
        row - root
    } else {
        0
    }
}

fn shorthand(kind: &str) -> (r: bool)
    ensures
        r == is_shorthand(kind@),
{
    same_text(kind, "shorthand_property_identifier") || same_text(
        kind,
        "shorthand_property_identifier_pattern",
    )
}

fn is_unaliased_name(tree: &SyntaxTree, i: usize) -> (r: bool)
    requires
        i < tree@.len(),
    ensures
        r == is_unaliased(tree@, i as int),
{
    match tree.parent(i) {
        Some(parent) => (tree.is_kind(parent, "import_specifier") || tree.is_kind(
            parent,
            "export_specifier",
        )) && tree.child_by_field_name(parent, "alias").is_none(),
        None => false,
    }
}

/// A piece of syntax in which bindings are numbers.
#[derive(Debug)]
pub enum Normalized<'a> {
    Open(&'static str),
    Close,
    Literal(&'static str, &'a str),
    Text(&'a str),
    Local(u32),
    External(u32),
}

/// The model of a [`Normalized`].
pub enum NormalModel {
    Open(Seq<char>),
    Close,
    Literal(Seq<char>, Seq<char>),
    Text(Seq<char>),
    Local(u32),
    External(u32),
}

impl<'a> View for Normalized<'a> {
    type V = NormalModel;

    open spec fn view(&self) -> NormalModel {
        match self {
            Normalized::Open(kind) => NormalModel::Open(kind@),
            Normalized::Close => NormalModel::Close,
            Normalized::Literal(kind, text) => NormalModel::Literal(kind@, text@),
            Normalized::Text(text) => NormalModel::Text(text@),
            Normalized::Local(number) => NormalModel::Local(*number),
            Normalized::External(number) => NormalModel::External(*number),
        }
    }
}

/// Normalized pieces seen as their models.
pub open spec fn normal_views<'a>(tokens: Seq<Normalized<'a>>) -> Seq<NormalModel> {
    tokens.map_values(|token: Normalized<'a>| token@)
}

/// The numbers of local symbols after a token: they are numbered in the order
/// in which they occur.
pub open spec fn locals_after(locals: Map<u32, u32>, token: TokenModel) -> Map<u32, u32> {
    match token {
        TokenModel::Binding { symbol, local, .. } => if local && !locals.contains_key(symbol) {
            locals.insert(symbol, locals.len() as u32)
        } else {
            locals
        },
        _ => locals,
    }
}

/// The numbers of local symbols after the first `count` tokens.
pub open spec fn locals_upto(tokens: Seq<PlacedModel>, count: int) -> Map<u32, u32>
    decreases count,
{
    if count <= 0 {
        Map::empty()
    } else {
        locals_after(locals_upto(tokens, count - 1), tokens[count - 1].token)
    }
}

/// A token in which bindings are numbers. A binding from outside has the
/// number that both sides share, or else its spelling.
pub open spec fn normal_of(
    token: TokenModel,
    locals: Map<u32, u32>,
    external: Map<u32, u32>,
) -> NormalModel {
    match token {
        TokenModel::Open(kind) => NormalModel::Open(kind),
        TokenModel::Close => NormalModel::Close,
        TokenModel::Literal(kind, text) => NormalModel::Literal(kind, text),
        TokenModel::Text(text) => NormalModel::Text(text),
        TokenModel::Binding { symbol, local, spelling } => if local {
            NormalModel::Local(locals[symbol])
        } else if external.contains_key(symbol) {
            NormalModel::External(external[symbol])
        } else {
            NormalModel::Literal("identifier"@, spelling)
        },
    }
}

/// Tokens in which bindings are numbers.
pub open spec fn normalized(tokens: Seq<PlacedModel>, external: Map<u32, u32>) -> Seq<NormalModel> {
    Seq::new(
        tokens.len(),
        |i: int| normal_of(tokens[i].token, locals_upto(tokens, i + 1), external),
    )
}

/// The syntax of a node in which bindings are numbers.
pub struct NormalizedTokens<'a> {
    pub tokens: Vec<Normalized<'a>>,
    pub source: &'a Tokens,
}

impl Tokens {
    /// Replaces bindings by numbers. `external` holds the numbers of symbols
    /// declared outside that both sides share.
    pub fn normalize(&self, external: &HashMap<u32, u32>) -> (r: NormalizedTokens<'_>)
        ensures
            normal_views(r.tokens@) == normalized(self@.tokens, external@),
            r.source == self,
    {
        broadcast use vstd::std_specs::hash::group_hash_axioms;

        let ghost all = self@.tokens;
        let mut locals: HashMap<u32, u32> = HashMap::new();
        let mut tokens: Vec<Normalized<'_>> = Vec::new();
        let mut i: usize = 0;
        assert(all.len() == self.tokens@.len());
        while i < self.tokens.len()
            invariant
                all == self@.tokens,
                all.len() == self.tokens@.len(),
                i <= self.tokens@.len(),
                locals@ == locals_upto(all, i as int),
                tokens@.len() == i,
                forall|k: int|
                    0 <= k < i ==> (#[trigger] tokens@[k])@ == normalized(all, external@)[k],
            decreases self.tokens@.len() - i,
        {
            assert(all[i as int] == self.tokens@[i as int]@);
            let normal = match &self.tokens[i].token {
                Token::Open(kind) => Normalized::Open(*kind),
                Token::Close => Normalized::Close,
                Token::Literal(kind, text) => Normalized::Literal(*kind, text.as_str()),
                Token::Text(text) => Normalized::Text(text.as_str()),
                Token::Binding { symbol, local, spelling } => {
                    if *local {
                        let number: u32 = match locals.get(symbol) {
                            Some(number) => *number,
                            None => {
                                let number: u32 = locals.len() as u32;
                                locals.insert(*symbol, number);
                                number
                            },
                        };
                        Normalized::Local(number)
                    } else {
                        match external.get(symbol) {
                            Some(common) => Normalized::External(*common),
                            None => Normalized::Literal("identifier", spelling.as_str()),
                        }
                    }
                },
            };
            assert(locals@ =~= locals_upto(all, i + 1));
            tokens.push(normal);
            i += 1;
        }
        assert(normal_views(tokens@) =~= normalized(all, external@));
        NormalizedTokens { tokens, source: self }
    }
}

fn same_normal(a: &Normalized<'_>, b: &Normalized<'_>) -> (r: bool)
    ensures
        r == (a@ == b@),
{
    match (a, b) {
        (Normalized::Open(a), Normalized::Open(b)) => same_text(a, b),
        (Normalized::Close, Normalized::Close) => true,
        (Normalized::Literal(k, a), Normalized::Literal(l, b)) => same_text(k, l) && same_text(
            a,
            b,
        ),
        (Normalized::Text(a), Normalized::Text(b)) => same_text(a, b),
        (Normalized::Local(a), Normalized::Local(b)) => *a == *b,
        (Normalized::External(a), Normalized::External(b)) => *a == *b,
        _ => false,
    }
}

/// Whether two pieces are the same, or both are strings.
pub open spec fn same_but_for_text(a: NormalModel, b: NormalModel) -> bool {
    a == b || (a is Text && b is Text)
}

/// Whether two lists of pieces differ in strings only.
pub open spec fn differ_in_text(a: Seq<NormalModel>, b: Seq<NormalModel>) -> bool {
    a.len() == b.len() && forall|i: int|
        0 <= i < a.len() ==> same_but_for_text(#[trigger] a[i], b[i])
}

/// A text in quotes, as `Debug` of `str` writes it.
pub uninterp spec fn quoted(text: Seq<char>) -> Seq<char>;

/// Formats a text with `Debug` of `str`, which puts it in quotes and escapes
/// characters. The outcome depends on the text alone; how characters are
/// escaped is left to the name [`quoted`].
#[verifier::external_body]
pub(crate) fn quote(text: &str) -> (r: String)
    ensures
        r@ == quoted(text@),
{
    format!("{text:?}")
}

/// How a piece is written out.
pub open spec fn spelled(token: NormalModel) -> Seq<char> {
    match token {
        NormalModel::Open(kind) => "Open("@ + quoted(kind) + ") "@,
        NormalModel::Close => "Close "@,
        NormalModel::Literal(kind, text) => "Literal("@ + quoted(kind) + ", "@ + quoted(text)
            + ") "@,
        NormalModel::Text(text) => "String("@ + quoted(text) + ") "@,
        NormalModel::Local(number) => "Local("@ + text::decimal_of(number as nat) + ") "@,
        NormalModel::External(number) => "External("@ + text::decimal_of(number as nat) + ") "@,
    }
}

fn spell(token: &Normalized<'_>) -> (text: String)
    ensures
        text@ == spelled(token@),
{
    match token {
        Normalized::Open(kind) => "Open(".to_string().concat(quote(kind).as_str()).concat(") "),
        Normalized::Close => "Close ".to_string(),
        Normalized::Literal(kind, text) => "Literal(".to_string().concat(
            quote(kind).as_str(),
        ).concat(", ").concat(quote(text).as_str()).concat(") "),
        Normalized::Text(text) => spell_text(text),
        Normalized::Local(number) => crate::text::numbered_text("Local(", *number as u64, ") "),
        Normalized::External(number) => crate::text::numbered_text(
            "External(",
            *number as u64,
            ") ",
        ),
    }
}

fn spell_text(text: &str) -> (r: String)
    ensures
        r@ == spelled(NormalModel::Text(text@)),
{
    "String(".to_string().concat(quote(text).as_str()).concat(") ")
}

/// A text added to one of some lines, where that line exists.
pub open spec fn added(lines: Seq<Seq<char>>, at: int, text: Seq<char>) -> Seq<Seq<char>> {
    if 0 <= at < lines.len() {
        lines.update(at, lines[at] + text)
    } else {
        lines
    }
}

/// The lines of a string from a place on, added line by line.
pub open spec fn text_added(lines: Seq<Seq<char>>, at: int, text: Seq<char>, i: int) -> Seq<
    Seq<char>,
>
    decreases text.len() - i,
{
    let end = text::find_char(text, '\n', i);
    if 0 <= i <= end < text.len() {
        text_added(
            added(lines, at, spelled(NormalModel::Text(text.subrange(i, end)))),
            at + 1,
            text,
            end + 1,
        )
    } else if 0 <= i <= text.len() {
        added(
            lines,
            at,
            spelled(NormalModel::Text(text.subrange(i, text.len() as int))),
        )
    } else {
        lines
    }
}

/// One piece added on its line; a string may span lines.
pub open spec fn piece_added(lines: Seq<Seq<char>>, at: int, token: NormalModel) -> Seq<Seq<char>> {
    match token {
        NormalModel::Text(text) => text_added(lines, at, text, 0),
        _ => added(lines, at, spelled(token)),
    }
}

/// Empty lines.
pub open spec fn empty_lines(count: nat) -> Seq<Seq<char>> {
    Seq::new(count, |i: int| Seq::empty())
}

/// The first `count` pieces written out on their lines.
pub open spec fn lines_upto(
    normal: Seq<NormalModel>,
    tokens: Seq<PlacedModel>,
    lines: nat,
    count: int,
) -> Seq<Seq<char>>
    decreases count,
{
    if count <= 0 {
        empty_lines(lines)
    } else {
        piece_added(
            lines_upto(normal, tokens, lines, count - 1),
            tokens[count - 1].line,
            normal[count - 1],
        )
    }
}

fn add_text(lines: &mut Vec<String>, at: usize, text: &str)
    ensures
        text::views(final(lines)@) == added(text::views(old(lines)@), at as int, text@),
{
    let ghost before = lines@;
    if at < lines.len() {
        let line = lines[at].clone().concat(text);
        lines.set(at, line);
        assert(text::views(lines@) =~= text::views(before).update(
            at as int,
            before[at as int]@ + text@,
        ));
    }
}

fn add_string(lines: &mut Vec<String>, at: usize, text: &str)
    ensures
        text::views(final(lines)@) == text_added(text::views(old(lines)@), at as int, text@, 0),
{
    let characters = chars_of(text);
    let count: usize = lines.len();
    let ghost whole = text_added(text::views(lines@), at as int, text@, 0);
    let mut line: Option<usize> = Some(at);
    let ghost mut place = at as int;
    let mut i: usize = 0;
    loop
        invariant
            characters@ == text@,
            i <= characters@.len(),
            lines@.len() == count,
            is_place(line, place),
            0 <= place,
            whole == text_added(text::views(old(lines)@), at as int, text@, 0),
            whole == text_added(text::views(lines@), place, text@, i as int),
        decreases characters@.len() - i,
    {
        let end = position_of_char(&characters, '\n', i);
        let part = string_of(&slice_chars(&characters, i, end));
        let spelling = spell_text(part.as_str());
        assert(text::views(lines@).len() == lines@.len());
        if let Some(line) = line {
            add_text(lines, line, spelling.as_str());
        }
        assert(text::views(lines@).len() == lines@.len());
        if end >= characters.len() {
            return;
        }
        line = match line {
            Some(line) => line.checked_add(1),
            None => None,
        };
        proof {
            place = place + 1;
        }
        i = end + 1;
    }
}

impl<'a> NormalizedTokens<'a> {
    /// Whether two pieces of syntax are the same.
    pub fn equal(&self, other: &NormalizedTokens<'_>) -> (r: bool)
        ensures
            r == (normal_views(self.tokens@) == normal_views(other.tokens@)),
    {
        let ghost a = normal_views(self.tokens@);
        let ghost b = normal_views(other.tokens@);
        assert(a.len() == self.tokens@.len() && b.len() == other.tokens@.len());
        if self.tokens.len() != other.tokens.len() {
            return false;
        }
        let mut i: usize = 0;
        while i < self.tokens.len()
            invariant
                a == normal_views(self.tokens@),
                b == normal_views(other.tokens@),
                self.tokens@.len() == other.tokens@.len(),
                i <= self.tokens@.len(),
                forall|k: int| 0 <= k < i ==> #[trigger] a[k] == b[k],
            decreases self.tokens@.len() - i,
        {
            assert(a[i as int] == self.tokens@[i as int]@);
            assert(b[i as int] == other.tokens@[i as int]@);
            if !same_normal(&self.tokens[i], &other.tokens[i]) {
                return false;
            }
            i += 1;
        }
        assert(a =~= b);
        true
    }

    /// Whether two pieces of syntax differ in strings only.
    pub fn equal_ignoring_strings(&self, other: &NormalizedTokens<'_>) -> (r: bool)
        ensures
            r == differ_in_text(normal_views(self.tokens@), normal_views(other.tokens@)),
    {
        let ghost a = normal_views(self.tokens@);
        let ghost b = normal_views(other.tokens@);
        assert(a.len() == self.tokens@.len() && b.len() == other.tokens@.len());
        if self.tokens.len() != other.tokens.len() {
            return false;
        }
        let mut i: usize = 0;
        while i < self.tokens.len()
            invariant
                a == normal_views(self.tokens@),
                b == normal_views(other.tokens@),
                a.len() == self.tokens@.len(),
                self.tokens@.len() == other.tokens@.len(),
                i <= self.tokens@.len(),
                forall|k: int| 0 <= k < i ==> same_but_for_text(#[trigger] a[k], b[k]),
            decreases self.tokens@.len() - i,
        {
            assert(a[i as int] == self.tokens@[i as int]@);
            assert(b[i as int] == other.tokens@[i as int]@);
            let both = match (&self.tokens[i], &other.tokens[i]) {
                (Normalized::Text(_), Normalized::Text(_)) => true,
                _ => false,
            };
            if !both && !same_normal(&self.tokens[i], &other.tokens[i]) {
                assert(!same_but_for_text(a[i as int], b[i as int]));
                return false;
            }
            i += 1;
        }
        true
    }

    /// The syntax written out on the lines of its source.
    pub fn lines(&self) -> (lines: Vec<String>)
        requires
            self.tokens@.len() == self.source.tokens@.len(),
        ensures
            text::views(lines@) == lines_upto(
                normal_views(self.tokens@),
                self.source@.tokens,
                self.source.lines as nat,
                self.tokens@.len() as int,
            ),
    {
        let ghost normal = normal_views(self.tokens@);
        let ghost placed_tokens = self.source@.tokens;
        let mut lines: Vec<String> = Vec::new();
        while lines.len() < self.source.lines
            invariant
                lines@.len() <= self.source.lines,
                forall|k: int|
                    0 <= k < lines@.len() ==> (#[trigger] lines@[k])@ == Seq::<char>::empty(),
            decreases self.source.lines - lines@.len(),
        {
            lines.push(String::new());
        }
        assert(text::views(lines@) =~= empty_lines(self.source.lines as nat));
        let mut i: usize = 0;
        while i < self.tokens.len()
            invariant
                normal == normal_views(self.tokens@),
                placed_tokens == self.source@.tokens,
                self.tokens@.len() == self.source.tokens@.len(),
                i <= self.tokens@.len(),
                text::views(lines@) == lines_upto(
                    normal,
                    placed_tokens,
                    self.source.lines as nat,
                    i as int,
                ),
            decreases self.tokens@.len() - i,
        {
            assert(normal[i as int] == self.tokens@[i as int]@);
            assert(placed_tokens[i as int] == self.source.tokens@[i as int]@);
            let line = self.source.tokens[i].line;
            match &self.tokens[i] {
                Normalized::Text(text) => add_string(&mut lines, line, text),
                other => {
                    let spelling = spell(other);
                    add_text(&mut lines, line, spelling.as_str());
                },
            }
            i += 1;
        }
        lines
    }
}

/// Equal syntax differs in no string either.
pub proof fn law_equal_syntax_is_equal_but_for_strings(a: Seq<NormalModel>, b: Seq<NormalModel>)
    requires
        a == b,
    ensures
        differ_in_text(a, b),
{
}

/// Whether a token is a binding that is declared in the tokens themselves.
pub open spec fn is_local(token: TokenModel) -> bool {
    token matches TokenModel::Binding { local, .. } && local
}

/// The symbol of a binding.
pub open spec fn symbol_of(token: TokenModel) -> u32 {
    match token {
        TokenModel::Binding { symbol, .. } => symbol,
        _ => 0,
    }
}

/// Whether two tokens say the same, whatever local bindings are called.
pub open spec fn agree(
    a: TokenModel,
    b: TokenModel,
    external1: Map<u32, u32>,
    external2: Map<u32, u32>,
) -> bool {
    if is_local(a) || is_local(b) {
        is_local(a) && is_local(b)
    } else {
        normal_of(a, Map::empty(), external1) == normal_of(b, Map::empty(), external2)
    }
}

/// Whether two texts differ in the names of local bindings only: bindings that
/// are the same in one are the same in the other.
pub open spec fn is_renaming(
    a: Seq<PlacedModel>,
    b: Seq<PlacedModel>,
    external1: Map<u32, u32>,
    external2: Map<u32, u32>,
) -> bool {
    &&& a.len() == b.len()
    &&& forall|i: int|
        0 <= i < a.len() ==> agree((#[trigger] a[i]).token, b[i].token, external1, external2)
    &&& forall|i: int, j: int|
        0 <= i < a.len() && 0 <= j < a.len() && is_local(a[i].token) && is_local(a[j].token) ==> (
        symbol_of((#[trigger] a[i]).token) == symbol_of((#[trigger] a[j]).token)) == (symbol_of(
            b[i].token,
        ) == symbol_of(b[j].token))
}

/// Whether one of the first `count` tokens is a local binding of a symbol.
spec fn occurs(tokens: Seq<PlacedModel>, symbol: u32, count: int) -> bool {
    exists|i: int|
        0 <= i < count && is_local((#[trigger] tokens[i]).token) && symbol_of(tokens[i].token)
            == symbol
}

/// Numbers that leave one out are fewer than there are.
proof fn lemma_numbers_left(set: Set<u32>, missing: u32)
    requires
        set.finite(),
        !set.contains(missing),
    ensures
        set.len() <= u32::MAX,
{
    broadcast use vstd::set::group_set_axioms;

    let all = set.insert(missing);
    let f = |x: u32| x as int;
    let images = all.map(f);
    let range = vstd::set_lib::set_int_range(0, 0x1_0000_0000);
    vstd::set_lib::lemma_int_range(0, 0x1_0000_0000);
    vstd::set_lib::lemma_map_size(all, images, f);
    assert(images.subset_of(range));
    vstd::set_lib::lemma_len_subset(images, range);
}

/// The numbers of local symbols are those of the symbols that occur, and no
/// two share one.
proof fn lemma_locals(tokens: Seq<PlacedModel>, count: int)
    requires
        0 <= count <= tokens.len(),
    ensures
        locals_upto(tokens, count).dom().finite(),
        forall|symbol: u32|
            #![trigger locals_upto(tokens, count).contains_key(symbol)]
            locals_upto(tokens, count).contains_key(symbol) == occurs(tokens, symbol, count),
        forall|symbol: u32|
            #![trigger locals_upto(tokens, count)[symbol]]
            locals_upto(tokens, count).contains_key(symbol) ==> locals_upto(tokens, count)[symbol]
                < locals_upto(tokens, count).len(),
        forall|s: u32, t: u32|
            #![trigger locals_upto(tokens, count)[s], locals_upto(tokens, count)[t]]
            locals_upto(tokens, count).contains_key(s) && locals_upto(tokens, count).contains_key(t)
                && s != t ==> locals_upto(tokens, count)[s] != locals_upto(tokens, count)[t],
    decreases count,
{
    broadcast use vstd::map::group_map_axioms;
    broadcast use vstd::set::group_set_axioms;

    if count > 0 {
        lemma_locals(tokens, count - 1);
        let before = locals_upto(tokens, count - 1);
        let after = locals_upto(tokens, count);
        let last = tokens[count - 1].token;
        if is_local(last) && !before.contains_key(symbol_of(last)) {
            lemma_numbers_left(before.dom(), symbol_of(last));
            assert(after.dom() =~= before.dom().insert(symbol_of(last)));
        }
        assert forall|symbol: u32| #![trigger after.contains_key(symbol)] after.contains_key(symbol)
            == occurs(tokens, symbol, count) by {
            if occurs(tokens, symbol, count - 1) {
                let i = choose|i: int|
                    0 <= i < count - 1 && is_local((#[trigger] tokens[i]).token) && symbol_of(
                        tokens[i].token,
                    ) == symbol;
                assert(is_local(tokens[i].token));
            }
            if is_local(last) && symbol_of(last) == symbol {
                assert(is_local(tokens[count - 1].token));
            }
            assert(before.contains_key(symbol) == occurs(tokens, symbol, count - 1));
        }
    }
}

/// A symbol keeps its number.
proof fn lemma_locals_stay(tokens: Seq<PlacedModel>, earlier: int, count: int, symbol: u32)
    requires
        0 <= earlier <= count <= tokens.len(),
        locals_upto(tokens, earlier).contains_key(symbol),
    ensures
        locals_upto(tokens, count).contains_key(symbol),
        locals_upto(tokens, count)[symbol] == locals_upto(tokens, earlier)[symbol],
    decreases count,
{
    broadcast use vstd::map::group_map_axioms;

    if earlier < count {
        lemma_locals_stay(tokens, earlier, count - 1, symbol);
    }
}

/// A local binding has the number of its symbol.
proof fn lemma_local_number(tokens: Seq<PlacedModel>, i: int)
    requires
        0 <= i < tokens.len(),
        is_local(tokens[i].token),
    ensures
        locals_upto(tokens, tokens.len() as int).contains_key(symbol_of(tokens[i].token)),
        locals_upto(tokens, i + 1)[symbol_of(tokens[i].token)] == locals_upto(
            tokens,
            tokens.len() as int,
        )[symbol_of(tokens[i].token)],
{
    let symbol = symbol_of(tokens[i].token);
    lemma_locals(tokens, i + 1);
    assert(occurs(tokens, symbol, i + 1));
    assert(locals_upto(tokens, i + 1).contains_key(symbol));
    lemma_locals_stay(tokens, i + 1, tokens.len() as int, symbol);
}

/// Corresponding symbols of renamed tokens have the same numbers.
proof fn lemma_same_numbers(
    a: Seq<PlacedModel>,
    b: Seq<PlacedModel>,
    external1: Map<u32, u32>,
    external2: Map<u32, u32>,
    count: int,
)
    requires
        is_renaming(a, b, external1, external2),
        0 <= count <= a.len(),
    ensures
        locals_upto(a, count).len() == locals_upto(b, count).len(),
        forall|i: int|
            0 <= i < count && is_local((#[trigger] a[i]).token) ==> locals_upto(a, count)[symbol_of(
                a[i].token,
            )] == locals_upto(b, count)[symbol_of(b[i].token)],
    decreases count,
{
    broadcast use vstd::map::group_map_axioms;
    broadcast use vstd::set::group_set_axioms;

    if count > 0 {
        lemma_same_numbers(a, b, external1, external2, count - 1);
        lemma_locals(a, count - 1);
        lemma_locals(b, count - 1);
        let (x, y) = (a[count - 1].token, b[count - 1].token);
        assert(agree(x, y, external1, external2));
        let (before1, before2) = (locals_upto(a, count - 1), locals_upto(b, count - 1));
        if is_local(x) {
            assert(before1.contains_key(symbol_of(x)) == before2.contains_key(symbol_of(y))) by {
                if occurs(a, symbol_of(x), count - 1) {
                    let i = choose|i: int|
                        0 <= i < count - 1 && is_local((#[trigger] a[i]).token) && symbol_of(
                            a[i].token,
                        ) == symbol_of(x);
                    assert(agree(a[i].token, b[i].token, external1, external2));
                    assert(symbol_of(b[i].token) == symbol_of(b[count - 1].token));
                    assert(occurs(b, symbol_of(y), count - 1));
                }
                if occurs(b, symbol_of(y), count - 1) {
                    let i = choose|i: int|
                        0 <= i < count - 1 && is_local((#[trigger] b[i]).token) && symbol_of(
                            b[i].token,
                        ) == symbol_of(y);
                    assert(agree(a[i].token, b[i].token, external1, external2));
                    assert(symbol_of(a[i].token) == symbol_of(a[count - 1].token));
                    assert(occurs(a, symbol_of(x), count - 1));
                }
            }
        }
        assert forall|i: int| 0 <= i < count && is_local((#[trigger] a[i]).token) implies locals_upto(
            a,
            count,
        )[symbol_of(a[i].token)] == locals_upto(b, count)[symbol_of(b[i].token)] by {
            assert(agree(a[i].token, b[i].token, external1, external2));
            if i < count - 1 {
                assert(occurs(a, symbol_of(a[i].token), count - 1));
                assert(occurs(b, symbol_of(b[i].token), count - 1));
                lemma_locals_stay(a, count - 1, count, symbol_of(a[i].token));
                lemma_locals_stay(b, count - 1, count, symbol_of(b[i].token));
            } else if occurs(a, symbol_of(x), count - 1) {
                let k = choose|k: int|
                    0 <= k < count - 1 && is_local((#[trigger] a[k]).token) && symbol_of(
                        a[k].token,
                    ) == symbol_of(x);
                assert(symbol_of(b[k].token) == symbol_of(b[count - 1].token));
                assert(before1[symbol_of(a[k].token)] == before2[symbol_of(b[k].token)]);
                assert(before1.contains_key(symbol_of(x)));
                assert(before2.contains_key(symbol_of(y)));
            } else {
                assert(!before1.contains_key(symbol_of(x)));
                assert(!before2.contains_key(symbol_of(y)));
            }
        }
    }
}

/// Syntax is equal exactly where the texts differ in the names of local
/// bindings only. So a consistent renaming of local bindings is no change, and
/// any other difference is one: in a name from outside, a property, a key of
/// an import, a literal or a string.
pub proof fn law_syntax_is_equal_up_to_local_names(
    a: Seq<PlacedModel>,
    b: Seq<PlacedModel>,
    external1: Map<u32, u32>,
    external2: Map<u32, u32>,
)
    ensures
        (normalized(a, external1) == normalized(b, external2)) == is_renaming(
            a,
            b,
            external1,
            external2,
        ),
{
    let (normal1, normal2) = (normalized(a, external1), normalized(b, external2));
    if is_renaming(a, b, external1, external2) {
        assert forall|i: int| 0 <= i < a.len() implies #[trigger] normal1[i] == normal2[i] by {
            assert(agree(a[i].token, b[i].token, external1, external2));
            lemma_same_numbers(a, b, external1, external2, i + 1);
            assert(is_local(a[i].token) ==> locals_upto(a, i + 1)[symbol_of(a[i].token)]
                == locals_upto(b, i + 1)[symbol_of(b[i].token)]);
        }
        assert(normal1 =~= normal2);
    }
    if normal1 == normal2 {
        assert(a.len() == normal1.len());
        assert(b.len() == normal2.len());
        assert forall|i: int| 0 <= i < a.len() implies agree(
            (#[trigger] a[i]).token,
            b[i].token,
            external1,
            external2,
        ) by {
            assert(normal1[i] == normal2[i]);
        }
        lemma_locals(a, a.len() as int);
        lemma_locals(b, b.len() as int);
        assert forall|i: int, j: int|
            0 <= i < a.len() && 0 <= j < a.len() && is_local(a[i].token) && is_local(
                a[j].token,
            ) implies (symbol_of((#[trigger] a[i]).token) == symbol_of((#[trigger] a[j]).token))
            == (symbol_of(b[i].token) == symbol_of(b[j].token)) by {
            assert(agree(a[i].token, b[i].token, external1, external2));
            assert(agree(a[j].token, b[j].token, external1, external2));
            assert(normal1[i] == normal2[i]);
            assert(normal1[j] == normal2[j]);
            lemma_local_number(a, i);
            lemma_local_number(a, j);
            lemma_local_number(b, i);
            lemma_local_number(b, j);
        }
    }
}

} // verus!
