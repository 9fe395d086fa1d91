//! What of a text counts when its syntax is compared.

use vstd::prelude::*;

use super::alpha::{BindingsModel, PlacedModel, TokenModel};
use crate::scope::ResolvedModel;
use crate::syntax;
use crate::syntax::RowModel;

use super::alpha;
use super::alpha::{bound_upto, collected, collected_children, collected_template};

verus! {

/// Whether a node names a variable of the text.
pub open spec fn is_bound(b: BindingsModel, rows: Seq<RowModel>, i: int) -> bool {
    &&& rows[i].kind == "identifier"@ || rows[i].kind == "shorthand_property_identifier"@
        || rows[i].kind == "shorthand_property_identifier_pattern"@
    &&& b.spans.contains_key((rows[i].start_byte, rows[i].end_byte))
}

/// Whether a node is left out.
pub open spec fn is_left_out(rows: Seq<RowModel>, i: int) -> bool {
    rows[i].kind == "comment"@ || rows[i].kind == "hash_bang_line"@
}

/// Whether what a child of a node holds counts: everything in a node that is
/// taken apart, and in a template the substitutions.
pub open spec fn takes_in(b: BindingsModel, rows: Seq<RowModel>, i: int, c: int) -> bool {
    &&& syntax::parent_of(rows, c) == Some(i)
    &&& !is_left_out(rows, i)
    &&& rows[i].kind != "string"@
    &&& if rows[i].kind == "template_string"@ {
        rows[c].named && rows[c].kind == "template_substitution"@
    } else {
        !is_bound(b, rows, i)
    }
}

/// Whether what a node holds counts as a part of another.
pub open spec fn is_taken_in(b: BindingsModel, rows: Seq<RowModel>, top: int, n: int) -> bool
    decreases n,
{
    n == top || (syntax::parent_of(rows, n) matches Some(parent) && 0 <= parent < n && takes_in(
        b,
        rows,
        parent,
        n,
    ) && is_taken_in(b, rows, top, parent))
}

/// Whether tokens hold one, on whatever line.
pub open spec fn has_token(list: Seq<PlacedModel>, token: TokenModel) -> bool {
    exists|k: int| 0 <= k < list.len() && (#[trigger] list[k]).token == token
}

proof fn lemma_in_sum(a: Seq<PlacedModel>, b: Seq<PlacedModel>, token: TokenModel)
    ensures
        has_token(a + b, token) <==> has_token(a, token) || has_token(b, token),
{
    let both = a + b;
    if has_token(a, token) {
        let k = choose|k: int| 0 <= k < a.len() && (#[trigger] a[k]).token == token;
        assert(both[k] == a[k]);
    }
    if has_token(b, token) {
        let k = choose|k: int| 0 <= k < b.len() && (#[trigger] b[k]).token == token;
        assert(both[k + a.len()] == b[k]);
    }
    if has_token(both, token) {
        let k = choose|k: int| 0 <= k < both.len() && (#[trigger] both[k]).token == token;
        if k < a.len() {
            assert(a[k] == both[k]);
        } else {
            assert(b[k - a.len()] == both[k]);
        }
    }
}

proof fn lemma_children_hold(
    b: BindingsModel,
    rows: Seq<RowModel>,
    source: Seq<char>,
    root: int,
    i: int,
    k: int,
    m: int,
    token: TokenModel,
)
    requires
        0 <= i < rows.len(),
        0 <= k <= m < syntax::children_of(rows, i).len(),
        has_token(
            collected(b, rows, source, root, syntax::children_of(rows, i)[m]),
            token,
        ),
    ensures
        has_token(collected_children(b, rows, source, root, i, k), token),
    decreases m - k,
{
    let children = syntax::children_of(rows, i);
    syntax::lemma_children(rows, i, rows.len() as int);
    assert(i < children[k] < rows.len());
    let first = collected(b, rows, source, root, children[k]);
    let rest = collected_children(b, rows, source, root, i, k + 1);
    if k < m {
        lemma_children_hold(b, rows, source, root, i, k + 1, m, token);
    }
    lemma_in_sum(first, rest, token);
    assert(collected_children(b, rows, source, root, i, k) == first + rest);
}

proof fn lemma_template_holds(
    b: BindingsModel,
    rows: Seq<RowModel>,
    source: Seq<char>,
    root: int,
    i: int,
    k: int,
    start: int,
    line: int,
    m: int,
    token: TokenModel,
)
    requires
        0 <= i < rows.len(),
        0 <= k <= m < syntax::children_of(rows, i).len(),
        alpha::is_substitution(rows, syntax::children_of(rows, i)[m]),
        has_token(
            collected(b, rows, source, root, syntax::children_of(rows, i)[m]),
            token,
        ),
    ensures
        has_token(collected_template(b, rows, source, root, i, k, start, line), token),
    decreases m - k,
{
    let children = syntax::children_of(rows, i);
    let c = children[k];
    syntax::lemma_children(rows, i, rows.len() as int);
    assert(i < c < rows.len());
    if alpha::is_substitution(rows, c) {
        let text = seq![
            alpha::placed(
                TokenModel::Text(alpha::piece(source, start, rows[c].start_byte)),
                line,
            ),
        ];
        let inner = collected(b, rows, source, root, c);
        let next = alpha::line_from(rows[c].end_row, rows[root].start_row);
        let rest = collected_template(
            b,
            rows,
            source,
            root,
            i,
            k + 1,
            rows[c].end_byte,
            next,
        );
        if k < m {
            lemma_template_holds(
                b,
                rows,
                source,
                root,
                i,
                k + 1,
                rows[c].end_byte,
                next,
                m,
                token,
            );
        }
        lemma_in_sum(text, inner, token);
        lemma_in_sum(text + inner, rest, token);
        assert(collected_template(b, rows, source, root, i, k, start, line) == text + inner
            + rest);
    } else {
        lemma_template_holds(b, rows, source, root, i, k + 1, start, line, m, token);
    }
}

proof fn lemma_kinds_differ()
    ensures
        "string"@ != "template_string"@,
        "comment"@ != "string"@,
        "comment"@ != "template_string"@,
        "hash_bang_line"@ != "string"@,
        "hash_bang_line"@ != "template_string"@,
        "string"@ != "identifier"@,
        "template_string"@ != "identifier"@,
        "comment"@ != "identifier"@,
        "hash_bang_line"@ != "identifier"@,
        "string"@ != "shorthand_property_identifier"@,
        "template_string"@ != "shorthand_property_identifier"@,
        "comment"@ != "shorthand_property_identifier"@,
        "hash_bang_line"@ != "shorthand_property_identifier"@,
        "string"@ != "shorthand_property_identifier_pattern"@,
        "template_string"@ != "shorthand_property_identifier_pattern"@,
        "comment"@ != "shorthand_property_identifier_pattern"@,
        "hash_bang_line"@ != "shorthand_property_identifier_pattern"@,
{
    reveal_strlit("string");
    reveal_strlit("template_string");
    reveal_strlit("comment");
    reveal_strlit("hash_bang_line");
    reveal_strlit("identifier");
    reveal_strlit("shorthand_property_identifier");
    reveal_strlit("shorthand_property_identifier_pattern");
    assert("string"@.len() == 6);
    assert("template_string"@.len() == 15);
    assert("comment"@.len() == 7);
    assert("hash_bang_line"@.len() == 14);
    assert("identifier"@.len() == 10);
    assert("shorthand_property_identifier"@.len() == 29);
    assert("shorthand_property_identifier_pattern"@.len() == 37);
}

proof fn lemma_parent_holds(
    b: BindingsModel,
    rows: Seq<RowModel>,
    source: Seq<char>,
    root: int,
    i: int,
    c: int,
    token: TokenModel,
)
    requires
        0 <= i < rows.len(),
        0 <= c < rows.len(),
        takes_in(b, rows, i, c),
        has_token(collected(b, rows, source, root, c), token),
    ensures
        has_token(collected(b, rows, source, root, i), token),
{
    let children = syntax::children_of(rows, i);
    let row = rows[i];
    let line = alpha::line_from(row.start_row, rows[root].start_row);
    syntax::lemma_is_child(rows, i, c, rows.len() as int);
    let m = choose|m: int| 0 <= m < children.len() && children[m] == c;
    let open = seq![alpha::placed(TokenModel::Open(row.kind), line)];
    if row.kind == "template_string"@ {
        lemma_kinds_differ();
        lemma_template_holds(
            b,
            rows,
            source,
            root,
            i,
            0,
            row.start_byte + 1,
            line,
            m,
            token,
        );
        lemma_in_sum(
            open,
            collected_template(b, rows, source, root, i, 0, row.start_byte + 1, line),
            token,
        );
    } else {
        let end_line = alpha::line_from(row.end_row, rows[root].start_row);
        let inner = collected_children(b, rows, source, root, i, 0);
        let close = seq![alpha::placed(TokenModel::Close, end_line)];
        lemma_children_hold(b, rows, source, root, i, 0, m, token);
        lemma_in_sum(open, inner, token);
        lemma_in_sum(open + inner, close, token);
    }
}

proof fn lemma_holds(
    b: BindingsModel,
    rows: Seq<RowModel>,
    source: Seq<char>,
    root: int,
    top: int,
    n: int,
    token: TokenModel,
)
    requires
        0 <= top,
        0 <= n < rows.len(),
        is_taken_in(b, rows, top, n),
        has_token(collected(b, rows, source, root, n), token),
    ensures
        has_token(collected(b, rows, source, root, top), token),
    decreases n,
{
    if n != top {
        let parent = syntax::parent_of(rows, n)->0;
        lemma_parent_holds(b, rows, source, root, parent, n, token);
        lemma_holds(b, rows, source, root, top, parent, token);
    }
}

/// Whether one word is the key of a property, an import or an export, and the
/// name of a variable at once.
pub open spec fn is_key_as_well(rows: Seq<RowModel>, i: int) -> bool {
    ||| rows[i].kind == "shorthand_property_identifier"@
    ||| rows[i].kind == "shorthand_property_identifier_pattern"@
    ||| syntax::parent_of(rows, i) matches Some(parent) && (rows[parent].kind
        == "import_specifier"@ || rows[parent].kind == "export_specifier"@)
        && syntax::child_by_field(rows, parent, "alias"@) is None
}

/// All that a node holds counts, but for comments: every string by its
/// spelling, every name of a variable by its symbol and, where it is a key as
/// well, by the key too, and every other word or mark by its kind and
/// spelling.
pub proof fn law_everything_but_comments_counts(
    b: BindingsModel,
    rows: Seq<RowModel>,
    source: Seq<char>,
    root: int,
    top: int,
    n: int,
)
    requires
        0 <= top < rows.len(),
        0 <= n < rows.len(),
        is_taken_in(b, rows, top, n),
    ensures
        ({
            let list = collected(b, rows, source, root, top);
            let spelling = syntax::text_of(rows, source, n);
            let symbol = b.spans[(rows[n].start_byte, rows[n].end_byte)];
            &&& is_left_out(rows, top) ==> list.len() == 0
            &&& rows[n].kind == "string"@ ==> has_token(list, TokenModel::Text(spelling))
            &&& is_bound(b, rows, n) ==> {
                let (start, end) = b.declarations[symbol as int];
                let local = rows[root].start_byte <= start && end <= rows[root].end_byte;
                &&& has_token(list, TokenModel::Binding { symbol, local, spelling })
                &&& is_key_as_well(rows, n) ==> has_token(
                    list,
                    TokenModel::Literal("external_key"@, spelling),
                )
            }
            &&& !is_left_out(rows, n) && rows[n].kind != "string"@ && rows[n].kind
                != "template_string"@ && !is_bound(b, rows, n) ==> {
                if syntax::children_of(rows, n).len() == 0 {
                    has_token(list, TokenModel::Literal(rows[n].kind, spelling))
                } else {
                    has_token(list, TokenModel::Open(rows[n].kind)) && has_token(
                        list,
                        TokenModel::Close,
                    )
                }
            }
        }),
{
    lemma_kinds_differ();
    let own = collected(b, rows, source, root, n);
    let spelling = syntax::text_of(rows, source, n);
    let symbol = b.spans[(rows[n].start_byte, rows[n].end_byte)];
    let kind = rows[n].kind;
    if is_left_out(rows, n) {
    } else if kind == "string"@ {
        assert(own[0].token == TokenModel::Text(spelling));
        lemma_holds(b, rows, source, root, top, n, TokenModel::Text(spelling));
    } else if is_bound(b, rows, n) {
        let (start, end) = b.declarations[symbol as int];
        let local = rows[root].start_byte <= start && end <= rows[root].end_byte;
        let token = TokenModel::Binding { symbol, local, spelling };
        if is_key_as_well(rows, n) {
            let key = TokenModel::Literal("external_key"@, spelling);
            assert(own[0].token == key);
            assert(own[1].token == token);
            lemma_holds(b, rows, source, root, top, n, key);
        } else {
            assert(own[0].token == token);
        }
        lemma_holds(b, rows, source, root, top, n, token);
    } else if kind != "template_string"@ {
        if syntax::children_of(rows, n).len() == 0 {
            let token = TokenModel::Literal(kind, spelling);
            assert(own[0].token == token);
            lemma_holds(b, rows, source, root, top, n, token);
        } else {
            assert(own[0].token == TokenModel::Open(kind));
            assert(own[own.len() - 1].token == TokenModel::Close);
            lemma_holds(b, rows, source, root, top, n, TokenModel::Open(kind));
            lemma_holds(b, rows, source, root, top, n, TokenModel::Close);
        }
    }
}

/// The variable that an identifier resolves to: its scope and its name.
pub open spec fn variable_of(
    rows: Seq<RowModel>,
    source: Seq<char>,
    r: ResolvedModel,
) -> (int, Seq<char>) {
    (r.scope_id, syntax::text_of(rows, source, r.node))
}

proof fn lemma_symbols(
    rows: Seq<RowModel>,
    source: Seq<char>,
    list: Seq<ResolvedModel>,
    count: int,
)
    requires
        0 <= count <= list.len(),
        forall|k: int|
            0 <= k < count ==> (#[trigger] bound_upto(
                rows,
                source,
                list,
                k,
            )).declarations.len() <= u32::MAX,
    ensures
        ({
            let b = bound_upto(rows, source, list, count);
            &&& forall|k: int|
                0 <= k < count ==> b.symbols.contains_key(
                    variable_of(rows, source, #[trigger] list[k]),
                )
            &&& forall|key: (int, Seq<char>)| #[trigger]
                b.symbols.contains_key(key) ==> b.symbols[key] < b.declarations.len()
            &&& forall|one: (int, Seq<char>), other: (int, Seq<char>)|
                #![trigger b.symbols.contains_key(one), b.symbols.contains_key(other)]
                b.symbols.contains_key(one) && b.symbols.contains_key(other) && b.symbols[one]
                    == b.symbols[other] ==> one == other
        }),
    decreases count,
{
    if count > 0 {
        lemma_symbols(rows, source, list, count - 1);
        let before = bound_upto(rows, source, list, count - 1);
        let b = bound_upto(rows, source, list, count);
        assert(before.declarations.len() <= u32::MAX);
        assert(b == alpha::bound(rows, source, before, list[count - 1]));
        assert forall|k: int| 0 <= k < count implies b.symbols.contains_key(
            variable_of(rows, source, #[trigger] list[k]),
        ) by {
            if k < count - 1 {
                assert(before.symbols.contains_key(variable_of(rows, source, list[k])));
            }
        }
    }
}

/// Two identifiers that resolve have the same symbol exactly where they
/// resolve to the same variable.
pub proof fn law_symbols_tell_variables_apart(
    rows: Seq<RowModel>,
    source: Seq<char>,
    j: int,
    k: int,
)
    requires
        !alpha::too_many_symbols(rows, source),
        0 <= j < alpha::resolved_of(rows, source).len(),
        0 <= k < alpha::resolved_of(rows, source).len(),
    ensures
        ({
            let list = alpha::resolved_of(rows, source);
            let symbols = alpha::bindings_of(rows, source).symbols;
            let one = variable_of(rows, source, list[j]);
            let other = variable_of(rows, source, list[k]);
            &&& symbols.contains_key(one)
            &&& symbols.contains_key(other)
            &&& symbols[one] == symbols[other] <==> one == other
        }),
{
    let list = alpha::resolved_of(rows, source);
    assert forall|m: int| 0 <= m < list.len() implies (#[trigger] bound_upto(
        rows,
        source,
        list,
        m,
    )).declarations.len() <= u32::MAX by {}
    lemma_symbols(rows, source, list, list.len() as int);
    assert(alpha::bindings_of(rows, source).symbols.contains_key(
        variable_of(rows, source, list[j]),
    ));
}

} // verus!
