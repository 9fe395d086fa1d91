//! Whitespace-only formatting, checked against the syntax tree.

use vstd::prelude::*;
use vstd::string::*;
use vstd::utf8::*;

use crate::bytes::push_framed;
use crate::digest::sha256;
use crate::parser::JsParser;
use crate::syntax::{ParseError, SyntaxTree};
use crate::text::{chars_of, first_char, same_bytes, same_text, slice_text, string_of};

use crate::syntax::RowModel;
use crate::{bytes, digest, parser, syntax, text};

verus! {

/// Why a text has no formatted form.
#[derive(Debug, Clone, Copy, PartialEq, Eq, Structural)]
pub enum FormatError {
    /// The formatted text has no syntax tree.
    Parse(ParseError),
    /// The formatted text has another syntax tree.
    SyntaxChanged,
}

impl FormatError {
    /// What to tell about the refusal.
    pub open spec fn message_spec(self) -> Seq<char> {
        match self {
            FormatError::Parse(error) => error.message_spec(),
            FormatError::SyntaxChanged => "formatting would change JavaScript syntax"@,
        }
    }

    pub fn message(self) -> (message: String)
        ensures
            message@ == self.message_spec(),
    {
        match self {
            FormatError::Parse(error) => error.message(),
            FormatError::SyntaxChanged => "formatting would change JavaScript syntax".to_string(),
        }
    }
}

/// A piece of text that formatting keeps whole.
#[derive(Debug)]
pub struct Token {
    pub kind: &'static str,
    pub text: String,
    pub start: usize,
    pub end: usize,
}

/// The model of a [`Token`].
pub struct TokenModel {
    pub kind: Seq<char>,
    pub text: Seq<char>,
    pub start: int,
    pub end: int,
}

impl View for Token {
    type V = TokenModel;

    open spec fn view(&self) -> TokenModel {
        TokenModel {
            kind: self.kind@,
            text: self.text@,
            start: self.start as int,
            end: self.end as int,
        }
    }
}

/// Tokens seen as their models.
pub open spec fn token_views(tokens: Seq<Token>) -> Seq<TokenModel> {
    tokens.map_values(|token: Token| token@)
}

/// Kinds of nodes that are kept whole.
pub open spec fn is_opaque_kind(t: Seq<char>) -> bool {
    t == "string"@ || t == "template_string"@ || t == "regex"@ || t == "jsx_element"@ || t == "jsx_self_closing_element"@ || t == "jsx_text"@
}

fn is_opaque_kind_text(t: &str) -> (r: bool)
    ensures
        r == is_opaque_kind(t@),
{
    same_text(t, "string") || same_text(t, "template_string") || same_text(t, "regex") || same_text(t, "jsx_element") || same_text(t, "jsx_self_closing_element") || same_text(t, "jsx_text")
}

/// Operators with a space on both sides.
pub open spec fn is_operator(t: Seq<char>) -> bool {
    t == "="@ || t == "+="@ || t == "-="@ || t == "*="@ || t == "/="@ || t == "%="@ || t == "&&="@ || t == "||="@ || t == "??="@ || t == "=="@ || t == "==="@ || t == "!="@ || t == "!=="@ || t == "<"@ || t == "<="@ || t == ">"@ || t == ">="@ || t == "&&"@ || t == "||"@ || t == "??"@ || t == "+"@ || t == "-"@ || t == "*"@ || t == "/"@ || t == "%"@ || t == "=>"@ || t == "&"@ || t == "|"@ || t == "^"@ || t == "<<"@ || t == ">>"@ || t == ">>>"@ || t == "**"@ || t == "in"@ || t == "instanceof"@
}

fn is_operator_text(t: &str) -> (r: bool)
    ensures
        r == is_operator(t@),
{
    same_text(t, "=") || same_text(t, "+=") || same_text(t, "-=") || same_text(t, "*=") || same_text(t, "/=") || same_text(t, "%=") || same_text(t, "&&=") || same_text(t, "||=") || same_text(t, "??=") || same_text(t, "==") || same_text(t, "===") || same_text(t, "!=") || same_text(t, "!==") || same_text(t, "<") || same_text(t, "<=") || same_text(t, ">") || same_text(t, ">=") || same_text(t, "&&") || same_text(t, "||") || same_text(t, "??") || same_text(t, "+") || same_text(t, "-") || same_text(t, "*") || same_text(t, "/") || same_text(t, "%") || same_text(t, "=>") || same_text(t, "&") || same_text(t, "|") || same_text(t, "^") || same_text(t, "<<") || same_text(t, ">>") || same_text(t, ">>>") || same_text(t, "**") || same_text(t, "in") || same_text(t, "instanceof")
}

/// Words that end a value.
pub open spec fn is_constant(t: Seq<char>) -> bool {
    t == "true"@ || t == "false"@ || t == "null"@ || t == "this"@ || t == "super"@ || t == "undefined"@
}

fn is_constant_text(t: &str) -> (r: bool)
    ensures
        r == is_constant(t@),
{
    same_text(t, "true") || same_text(t, "false") || same_text(t, "null") || same_text(t, "this") || same_text(t, "super") || same_text(t, "undefined")
}

/// Brackets that close.
pub open spec fn is_closing(t: Seq<char>) -> bool {
    t == ")"@ || t == "]"@ || t == "}"@
}

fn is_closing_text(t: &str) -> (r: bool)
    ensures
        r == is_closing(t@),
{
    same_text(t, ")") || same_text(t, "]") || same_text(t, "}")
}

/// What goes on on the line of a closing brace.
pub open spec fn follows_brace(t: Seq<char>) -> bool {
    t == ";"@ || t == ","@ || t == ")"@ || t == "]"@ || t == "."@ || t == "?."@ || t == "else"@ || t == "catch"@ || t == "finally"@ || t == "of"@ || t == "in"@
}

fn follows_brace_text(t: &str) -> (r: bool)
    ensures
        r == follows_brace(t@),
{
    same_text(t, ";") || same_text(t, ",") || same_text(t, ")") || same_text(t, "]") || same_text(t, ".") || same_text(t, "?.") || same_text(t, "else") || same_text(t, "catch") || same_text(t, "finally") || same_text(t, "of") || same_text(t, "in")
}

/// Words with a space ahead of their parenthesis.
pub open spec fn heads_parenthesis(t: Seq<char>) -> bool {
    t == "if"@ || t == "for"@ || t == "while"@ || t == "switch"@ || t == "catch"@ || t == "with"@
}

fn heads_parenthesis_text(t: &str) -> (r: bool)
    ensures
        r == heads_parenthesis(t@),
{
    same_text(t, "if") || same_text(t, "for") || same_text(t, "while") || same_text(t, "switch") || same_text(t, "catch") || same_text(t, "with")
}

/// What stands directly ahead of an opening brace.
pub open spec fn hugs_brace(t: Seq<char>) -> bool {
    t == "("@ || t == "["@ || t == "."@ || t == "?."@ || t == "{"@
}

fn hugs_brace_text(t: &str) -> (r: bool)
    ensures
        r == hugs_brace(t@),
{
    same_text(t, "(") || same_text(t, "[") || same_text(t, ".") || same_text(t, "?.") || same_text(t, "{")
}

/// Operators without spaces.
pub open spec fn is_unary(t: Seq<char>) -> bool {
    t == "++"@ || t == "--"@ || t == "!"@ || t == "~"@
}

fn is_unary_text(t: &str) -> (r: bool)
    ensures
        r == is_unary(t@),
{
    same_text(t, "++") || same_text(t, "--") || same_text(t, "!") || same_text(t, "~")
}

/// Kinds of nodes that are values.
pub open spec fn is_value_kind(t: Seq<char>) -> bool {
    t == "identifier"@ || t == "private_property_identifier"@ || t == "number"@ || t == "string"@ || t == "template_string"@ || t == "regex"@
}

fn is_value_kind_text(t: &str) -> (r: bool)
    ensures
        r == is_value_kind(t@),
{
    same_text(t, "identifier") || same_text(t, "private_property_identifier") || same_text(t, "number") || same_text(t, "string") || same_text(t, "template_string") || same_text(t, "regex")
}

/// Whether a character starts a word.
pub open spec fn starts_word(c: char) -> bool {
    '0' <= c <= '9' || 'a' <= c <= 'z' || 'A' <= c <= 'Z' || c == '_' || c == '$'
}

/// Whether a token is a word or a literal.
pub open spec fn is_atom(t: TokenModel) -> bool {
    is_value_kind(t.kind) || is_constant(t.text) || (t.text.len() > 0 && starts_word(t.text[0]))
}

/// Whether a token can end a value.
pub open spec fn ends_value(t: TokenModel) -> bool {
    is_atom(t) || is_closing(t.text)
}

/// Whether two tokens must stand apart.
pub open spec fn stand_apart(previous: TokenModel, current: TokenModel) -> bool {
    (is_atom(previous) || is_closing(previous.text)) && is_atom(current) || previous.text == "*"@
}

/// Whether a character ends a line.
pub open spec fn is_break(c: char) -> bool {
    c == '\n' || c == '\r' || c == '\u{2028}' || c == '\u{2029}'
}

/// Whether a text holds the end of a line.
pub open spec fn has_break(t: Seq<char>) -> bool {
    exists|i: int| 0 <= i < t.len() && is_break(#[trigger] t[i])
}

/// Whether a text starts with two characters.
pub open spec fn starts_with(t: Seq<char>, first: char, second: char) -> bool {
    t.len() >= 2 && t[0] == first && t[1] == second
}

/// Whether a node is kept whole.
pub open spec fn is_whole(rows: Seq<RowModel>, i: int) -> bool {
    is_opaque_kind(rows[i].kind) || !parser::has_child(rows, i)
}

/// The first row behind the nodes below row `i`.
pub open spec fn behind(rows: Seq<RowModel>, i: int) -> int {
    parser::subtree_end(rows, i, i + 1)
}

/// The token of a node.
pub open spec fn token_of(rows: Seq<RowModel>, source: Seq<char>, i: int) -> TokenModel {
    TokenModel {
        kind: rows[i].kind,
        text: syntax::text_of(rows, source, i),
        start: rows[i].start_byte,
        end: rows[i].end_byte,
    }
}

/// The tokens of the rows from `i` on: nodes that are kept whole and cover
/// some text.
pub open spec fn tokens_from(rows: Seq<RowModel>, source: Seq<char>, i: int) -> Seq<TokenModel>
    decreases rows.len() - i,
{
    if i < 0 || i >= rows.len() {
        Seq::empty()
    } else if is_whole(rows, i) {
        let rest = if i < behind(rows, i) <= rows.len() {
            tokens_from(rows, source, behind(rows, i))
        } else {
            Seq::empty()
        };
        if rows[i].start_byte < rows[i].end_byte {
            seq![token_of(rows, source, i)] + rest
        } else {
            rest
        }
    } else {
        tokens_from(rows, source, i + 1)
    }
}

/// The tokens of a syntax tree.
pub open spec fn tokens_of(rows: Seq<RowModel>, source: Seq<char>) -> Seq<TokenModel> {
    tokens_from(rows, source, 0)
}

/// A text under construction.
pub struct Layout {
    pub output: Seq<char>,
    pub indent: usize,
    pub line_start: bool,
    pub parens: Seq<bool>,
    pub braces: Seq<bool>,
    pub previous: Option<int>,
}

/// A text without a character at its end.
pub open spec fn trimmed(t: Seq<char>, c: char) -> Seq<char>
    decreases t.len(),
{
    if t.len() > 0 && t.last() == c {
        trimmed(t.drop_last(), c)
    } else {
        t
    }
}

/// Spaces.
pub open spec fn spaces(count: nat) -> Seq<char> {
    Seq::new(count, |i: int| ' ')
}

/// The width of an indentation.
pub open spec fn width_of(indent: usize) -> nat {
    if indent * 2 > usize::MAX {
        usize::MAX as nat
    } else {
        (indent * 2) as nat
    }
}

/// A text written, behind the indentation where a line starts.
pub open spec fn written(s: Layout, t: Seq<char>) -> Layout {
    Layout {
        output: s.output + (if s.line_start {
            spaces(width_of(s.indent))
        } else {
            Seq::empty()
        }) + t,
        line_start: false,
        ..s
    }
}

/// A space, unless one or a line's start is there.
pub open spec fn spaced(s: Layout) -> Layout {
    if !s.line_start && !(s.output.len() > 0 && (s.output.last() == ' ' || s.output.last()
        == '\n')) {
        Layout { output: s.output.push(' '), ..s }
    } else {
        s
    }
}

/// No space at the end.
pub open spec fn unspaced(s: Layout) -> Layout {
    Layout { output: trimmed(s.output, ' '), ..s }
}

/// A new line, unless one is there.
pub open spec fn broken(s: Layout) -> Layout {
    let output = trimmed(s.output, ' ');
    Layout {
        output: if output.len() > 0 && output.last() == '\n' {
            output
        } else {
            output.push('\n')
        },
        line_start: true,
        ..s
    }
}

/// Where a condition holds, the first of two layouts.
pub open spec fn either(condition: bool, then_this: Layout, or_that: Layout) -> Layout {
    if condition {
        then_this
    } else {
        or_that
    }
}

/// One level deeper.
pub open spec fn deeper(s: Layout) -> Layout {
    Layout {
        indent: if s.indent < usize::MAX {
            (s.indent + 1) as usize
        } else {
            s.indent
        },
        ..s
    }
}

/// One level up.
pub open spec fn shallower(s: Layout) -> Layout {
    Layout {
        indent: if s.indent > 0 {
            (s.indent - 1) as usize
        } else {
            s.indent
        },
        ..s
    }
}

/// Whether a layout has a token behind it for which a predicate holds.
pub open spec fn is_behind(
    s: Layout,
    tokens: Seq<TokenModel>,
    holds: spec_fn(TokenModel) -> bool,
) -> bool {
    s.previous matches Some(p) && holds(tokens[p])
}

/// The text of the next token.
pub open spec fn next_text(tokens: Seq<TokenModel>, i: int) -> Option<Seq<char>> {
    if i < tokens.len() - 1 {
        Some(tokens[i + 1].text)
    } else {
        None
    }
}

/// A line comment, or a block comment.
pub open spec fn after_comment(s: Layout, t: Seq<char>) -> Layout {
    either(
        starts_with(t, '/', '/') || has_break(t),
        broken(written(spaced(s), t)),
        written(spaced(s), t),
    )
}

/// An opening brace.
pub open spec fn after_opening_brace(s: Layout, tokens: Seq<TokenModel>, i: int) -> Layout {
    let nonempty = next_text(tokens, i) != Some("}"@);
    let opened = written(
        either(is_behind(s, tokens, |t: TokenModel| !hugs_brace(t.text)), spaced(s), s),
        "{"@,
    );
    let marked = Layout { braces: opened.braces.push(nonempty), ..opened };
    either(nonempty, broken(deeper(marked)), marked)
}

/// A closing brace.
pub open spec fn after_closing_brace(s: Layout, tokens: Seq<TokenModel>, i: int) -> Layout {
    let nonempty = s.braces.len() == 0 || s.braces.last();
    let unmarked = Layout {
        braces: if s.braces.len() > 0 {
            s.braces.drop_last()
        } else {
            s.braces
        },
        ..s
    };
    let closed = written(
        either(
            nonempty,
            shallower(either(s.line_start, unmarked, broken(unmarked))),
            unmarked,
        ),
        "}"@,
    );
    either(
        next_text(tokens, i) is Some && follows_brace(next_text(tokens, i)->0),
        closed,
        broken(closed),
    )
}

/// Whether an open parenthesis belongs to a `for`.
pub open spec fn in_for_head(s: Layout) -> bool {
    exists|i: int| 0 <= i < s.parens.len() && #[trigger] s.parens[i]
}

/// Whether the text of the next token closes a list.
pub open spec fn closes_list(tokens: Seq<TokenModel>, i: int) -> bool {
    next_text(tokens, i) == Some("}"@) || next_text(tokens, i) == Some("]"@)
}

/// An opening parenthesis.
pub open spec fn after_opening_paren(s: Layout, tokens: Seq<TokenModel>) -> Layout {
    let opened = written(
        either(is_behind(s, tokens, |t: TokenModel| heads_parenthesis(t.text)), spaced(s), s),
        "("@,
    );
    Layout {
        parens: opened.parens.push(is_behind(s, tokens, |t: TokenModel| t.text == "for"@)),
        ..opened
    }
}

/// A closing parenthesis.
pub open spec fn after_closing_paren(s: Layout) -> Layout {
    let closed = written(unspaced(s), ")"@);
    Layout {
        parens: if closed.parens.len() > 0 {
            closed.parens.drop_last()
        } else {
            closed.parens
        },
        ..closed
    }
}

/// A text with a space on both sides.
pub open spec fn apart(s: Layout, t: Seq<char>) -> Layout {
    spaced(written(spaced(s), t))
}

/// A bracket or a mark of punctuation.
pub open spec fn after_mark(s: Layout, tokens: Seq<TokenModel>, i: int) -> Layout {
    let t = tokens[i].text;
    if t == "{"@ {
        after_opening_brace(s, tokens, i)
    } else if t == "}"@ {
        after_closing_brace(s, tokens, i)
    } else if t == ";"@ {
        either(in_for_head(s), spaced(written(s, t)), broken(written(s, t)))
    } else if t == ","@ {
        either(closes_list(tokens, i), written(s, t), spaced(written(s, t)))
    } else if t == "("@ {
        after_opening_paren(s, tokens)
    } else if t == ")"@ {
        after_closing_paren(s)
    } else if t == "["@ {
        written(s, t)
    } else if t == "]"@ || t == "."@ || t == "?."@ {
        written(unspaced(s), t)
    } else {
        spaced(written(unspaced(s), t))
    }
}

/// Whether a text is a bracket or a mark of punctuation.
pub open spec fn is_mark(t: Seq<char>) -> bool {
    t == "{"@ || t == "}"@ || t == ";"@ || t == ","@ || t == "("@ || t == ")"@ || t == "["@ || t
        == "]"@ || t == "."@ || t == "?."@ || t == ":"@
}

/// An operator or a word.
pub open spec fn after_word(s: Layout, tokens: Seq<TokenModel>, i: int) -> Layout {
    let t = tokens[i].text;
    if t == "?"@ {
        either(next_text(tokens, i) == Some("."@), written(unspaced(s), t), apart(s, t))
    } else if is_unary(t) {
        written(s, t)
    } else if t == "+"@ || t == "-"@ {
        either(is_behind(s, tokens, |t: TokenModel| ends_value(t)), apart(s, t), written(s, t))
    } else if t == "*"@ && is_behind(s, tokens, |t: TokenModel| t.text == "function"@) {
        written(s, t)
    } else if is_operator(t) {
        apart(s, t)
    } else {
        written(
            either(
                is_behind(s, tokens, |p: TokenModel| stand_apart(p, tokens[i])),
                spaced(s),
                s,
            ),
            t,
        )
    }
}

/// A layout after one token. A comma at the end of a list is not remembered.
pub open spec fn emitted(s: Layout, tokens: Seq<TokenModel>, i: int) -> Layout {
    let t = tokens[i].text;
    let after = if starts_with(t, '/', '/') || starts_with(t, '/', '*') {
        after_comment(s, t)
    } else if is_mark(t) {
        after_mark(s, tokens, i)
    } else {
        after_word(s, tokens, i)
    };
    Layout {
        previous: if t == ","@ && closes_list(tokens, i) {
            s.previous
        } else {
            Some(i)
        },
        ..after
    }
}

/// Whether a line ends between token `i` and the one ahead of it.
pub open spec fn breaks_before(source: Seq<char>, tokens: Seq<TokenModel>, i: int) -> bool {
    i > 0 && text::is_text_range(source, tokens[i - 1].end, tokens[i].start) && has_break(
        text::text_between(source, tokens[i - 1].end, tokens[i].start),
    )
}

/// An empty text.
pub open spec fn no_layout() -> Layout {
    Layout {
        output: Seq::empty(),
        indent: 0,
        line_start: false,
        parens: Seq::empty(),
        braces: Seq::empty(),
        previous: None,
    }
}

/// The layout of the first `count` tokens.
pub open spec fn layout_upto(source: Seq<char>, tokens: Seq<TokenModel>, count: int) -> Layout
    decreases count,
{
    if count <= 0 {
        no_layout()
    } else {
        let before = layout_upto(source, tokens, count - 1);
        emitted(
            either(breaks_before(source, tokens, count - 1), broken(before), before),
            tokens,
            count - 1,
        )
    }
}

/// A finished text: no space or empty line at its end, and one line's end.
pub open spec fn finished(output: Seq<char>) -> Seq<char> {
    let rest = trimmed(trimmed(output, ' '), '\n');
    if rest.len() > 0 {
        rest.push('\n')
    } else {
        rest
    }
}

/// The formatted form of a text.
pub open spec fn formatted(rows: Seq<RowModel>, source: Seq<char>) -> Seq<char> {
    let tokens = tokens_of(rows, source);
    finished(layout_upto(source, tokens, tokens.len() as int).output)
}

/// What tells a syntax tree apart, without comments: the kind of every node,
/// the text of every leaf, and where every node ends.
pub open spec fn syntax_bytes(rows: Seq<RowModel>, source: Seq<char>, i: int) -> Seq<u8>
    decreases rows.len() - i, syntax::children_of(rows, i).len() + 1,
    when 0 <= i < rows.len()
{
    if rows[i].kind == "comment"@ {
        Seq::empty()
    } else {
        bytes::framed(encode_utf8(rows[i].kind)) + (if syntax::children_of(rows, i).len() == 0 {
            bytes::framed(encode_utf8(syntax::text_of(rows, source, i)))
        } else {
            Seq::empty()
        }) + children_bytes(rows, source, i, syntax::children_of(rows, i).len() as int) + seq![
            0xffu8,
        ]
    }
}

/// What tells the first `count` children of a node apart.
pub open spec fn children_bytes(
    rows: Seq<RowModel>,
    source: Seq<char>,
    i: int,
    count: int,
) -> Seq<u8>
    decreases rows.len() - i, count,
    when 0 <= i < rows.len() && count <= syntax::children_of(rows, i).len()
    via children_bytes_decreases
{
    if count <= 0 {
        Seq::empty()
    } else {
        children_bytes(rows, source, i, count - 1) + syntax_bytes(
            rows,
            source,
            syntax::children_of(rows, i)[count - 1],
        )
    }
}

#[via_fn]
proof fn children_bytes_decreases(rows: Seq<RowModel>, source: Seq<char>, i: int, count: int) {
    if count > 0 {
        syntax::lemma_children(rows, i, rows.len() as int);
        let child = syntax::children_of(rows, i)[count - 1];
        assert(i < child < rows.len());
    }
}

/// The digest of a syntax tree.
pub open spec fn syntax_hash_of(rows: Seq<RowModel>, source: Seq<char>) -> Seq<u8> {
    digest::sha256_of(syntax_bytes(rows, source, 0))
}

/// The formatted form of a text, given how that form parses.
pub open spec fn checked(
    rows: Seq<RowModel>,
    source: Seq<char>,
    parse: Result<Seq<RowModel>, ParseError>,
) -> Result<Seq<char>, FormatError> {
    match parse {
        Err(error) => Err(FormatError::Parse(error)),
        Ok(other) => if syntax_hash_of(rows, source) == syntax_hash_of(
            other,
            formatted(rows, source),
        ) {
            Ok(formatted(rows, source))
        } else {
            Err(FormatError::SyntaxChanged)
        },
    }
}

/// Whether an outcome holds a text or the same error.
pub open spec fn is_outcome(
    r: Result<String, FormatError>,
    wanted: Result<Seq<char>, FormatError>,
) -> bool {
    match (r, wanted) {
        (Ok(found), Ok(text)) => found@ == text,
        (Err(a), Err(b)) => a == b,
        _ => false,
    }
}

fn push_syntax(tree: &SyntaxTree, source: &str, i: usize, output: &mut Vec<u8>)
    requires
        i < tree@.len(),
        syntax::covers(tree@, source@),
    ensures
        final(output)@ == old(output)@ + syntax_bytes(tree@, source@, i as int),
    decreases tree@.len() - i,
{
    let ghost rows = tree@;
    let ghost before = output@;
    if tree.is_kind(i, "comment") {
        assert(output@ =~= before + syntax_bytes(rows, source@, i as int));
        return;
    }
    let children = tree.children(i);
    assert(syntax::children_of(rows, i as int).len() == children@.len());
    push_framed(output, tree.kind(i).as_bytes());
    if children.len() == 0 {
        push_framed(output, tree.text(i, source).as_bytes());
    }
    let ghost head = output@;
    let mut k: usize = 0;
    assert(output@ =~= head + children_bytes(rows, source@, i as int, 0));
    while k < children.len()
        invariant
            rows == tree@,
            i < tree@.len(),
            syntax::covers(tree@, source@),
            syntax::index_views(children@) == syntax::children_of(rows, i as int),
            syntax::children_of(rows, i as int).len() == children@.len(),
            forall|j: int| 0 <= j < children@.len() ==> i < #[trigger] children@[j] < tree@.len(),
            k <= children@.len(),
            output@ == head + children_bytes(rows, source@, i as int, k as int),
        decreases children@.len() - k,
    {
        let child = children[k];
        assert(syntax::children_of(rows, i as int)[k as int] == child);
        push_syntax(tree, source, child, output);
        assert(output@ =~= head + children_bytes(rows, source@, i as int, k + 1));
        k += 1;
    }
    output.push(0xff);
    assert(output@ =~= before + syntax_bytes(rows, source@, i as int));
}

/// The digest of a syntax tree: equal trees, comments apart, have equal ones.
pub fn syntax_hash(tree: &SyntaxTree, source: &str) -> (hash: [u8; 32])
    requires
        syntax::covers(tree@, source@),
    ensures
        hash@ == syntax_hash_of(tree@, source@),
{
    let mut output: Vec<u8> = Vec::new();
    let count = tree.len();
    push_syntax(tree, source, 0, &mut output);
    assert(output@ =~= syntax_bytes(tree@, source@, 0));
    sha256(output.as_slice())
}

pub(crate) fn end_of_subtree(tree: &SyntaxTree, i: usize) -> (end: usize)
    requires
        i < tree@.len(),
    ensures
        end == behind(tree@, i as int),
        i < end <= tree@.len(),
{
    let count = tree.len();
    let depth = tree.row(i).depth;
    let mut end: usize = i + 1;
    while end < count && tree.row(end).depth > depth
        invariant
            i < end <= count,
            count == tree@.len(),
            i < tree@.len(),
            depth == tree@[i as int].depth,
            behind(tree@, i as int) == parser::subtree_end(tree@, i as int, end as int),
        decreases count - end,
    {
        end += 1;
    }
    end
}

fn collect_tokens(tree: &SyntaxTree, source: &str) -> (tokens: Vec<Token>)
    requires
        syntax::covers(tree@, source@),
    ensures
        token_views(tokens@) == tokens_of(tree@, source@),
{
    let ghost rows = tree@;
    let ghost all = tokens_of(rows, source@);
    let mut tokens: Vec<Token> = Vec::new();
    let count = tree.len();
    let mut i: usize = 0;
    assert(token_views(tokens@) + tokens_from(rows, source@, 0) =~= all);
    while i < count
        invariant
            rows == tree@,
            count == rows.len(),
            i <= count,
            syntax::lists_a_tree(rows),
            syntax::covers(rows, source@),
            all == token_views(tokens@) + tokens_from(rows, source@, i as int),
        decreases count - i,
    {
        let row = tree.row(i);
        let leaf = if i + 1 < count {
            tree.row(i + 1).depth <= row.depth
        } else {
            true
        };
        proof {
            lemma_next_depth(tree, i as int);
        }
        assert(leaf == !parser::has_child(rows, i as int));
        if leaf || is_opaque_kind_text(row.kind) {
            let end = end_of_subtree(tree, i);
            if row.start_byte < row.end_byte {
                let token = Token {
                    kind: row.kind,
                    text: tree.text(i, source).to_string(),
                    start: row.start_byte,
                    end: row.end_byte,
                };
                assert(token@ == token_of(rows, source@, i as int));
                let ghost before = tokens@;
                tokens.push(token);
                assert(token_views(tokens@) =~= token_views(before).push(token@));
                assert(token_views(before) + (seq![token@] + tokens_from(
                    rows,
                    source@,
                    end as int,
                )) =~= token_views(tokens@) + tokens_from(rows, source@, end as int));
            }
            i = end;
        } else {
            i += 1;
        }
    }
    assert(all =~= token_views(tokens@));
    tokens
}

proof fn lemma_next_depth(tree: &SyntaxTree, i: int)
    requires
        syntax::lists_a_tree(tree@),
        0 <= i < tree@.len(),
    ensures
        i + 1 < tree@.len() ==> tree@[i + 1].depth <= tree@[i].depth + 1,
{
    if i + 1 < tree@.len() {
        assert(syntax::depth_fits(tree@, i + 1));
    }
}

fn atom(token: &Token) -> (r: bool)
    ensures
        r == is_atom(token@),
{
    if is_value_kind_text(token.kind) || is_constant_text(token.text.as_str()) {
        return true;
    }
    match first_char(token.text.as_str()) {
        Some(c) => ('0' <= c && c <= '9') || ('a' <= c && c <= 'z') || ('A' <= c && c <= 'Z') || c
            == '_' || c == '$',
        None => false,
    }
}

fn is_value_ending(token: &Token) -> (r: bool)
    ensures
        r == ends_value(token@),
{
    atom(token) || is_closing_text(token.text.as_str())
}

fn needs_space_between(previous: &Token, current: &Token) -> (r: bool)
    ensures
        r == stand_apart(previous@, current@),
{
    ((atom(previous) || is_closing_text(previous.text.as_str())) && atom(current)) || same_text(
        previous.text.as_str(),
        "*",
    )
}

fn holds_break(characters: &Vec<char>) -> (r: bool)
    ensures
        r == has_break(characters@),
{
    let mut i: usize = 0;
    while i < characters.len()
        invariant
            i <= characters@.len(),
            forall|k: int| 0 <= k < i ==> !is_break(#[trigger] characters@[k]),
        decreases characters@.len() - i,
    {
        let c = characters[i];
        if c == '\n' || c == '\r' || c == '\u{2028}' || c == '\u{2029}' {
            assert(is_break(characters@[i as int]));
            return true;
        }
        i += 1;
    }
    false
}

/// Builds a text from tokens.
struct Formatter {
    output: Vec<char>,
    indent: usize,
    line_start: bool,
    parens: Vec<bool>,
    braces: Vec<bool>,
    previous: Option<usize>,
}

impl View for Formatter {
    type V = Layout;

    closed spec fn view(&self) -> Layout {
        Layout {
            output: self.output@,
            indent: self.indent,
            line_start: self.line_start,
            parens: self.parens@,
            braces: self.braces@,
            previous: syntax::index_view(self.previous),
        }
    }
}

fn trim(output: &mut Vec<char>, c: char)
    ensures
        final(output)@ == trimmed(old(output)@, c),
{
    let ghost whole = output@;
    while output.len() > 0 && output[output.len() - 1] == c
        invariant
            trimmed(whole, c) == trimmed(output@, c),
        decreases output@.len(),
    {
        let ghost before = output@;
        output.pop();
        assert(output@ =~= before.drop_last());
    }
}

fn push_chars(output: &mut Vec<char>, text: &str)
    ensures
        final(output)@ == old(output)@ + text@,
{
    let ghost before = output@;
    let characters = chars_of(text);
    let mut i: usize = 0;
    while i < characters.len()
        invariant
            i <= characters@.len(),
            output@ == before + characters@.take(i as int),
        decreases characters@.len() - i,
    {
        output.push(characters[i]);
        i += 1;
        assert(output@ =~= before + characters@.take(i as int));
    }
    assert(characters@.take(i as int) =~= characters@);
}

impl Formatter {
    fn write(&mut self, text: &str)
        ensures
            final(self)@ == written(old(self)@, text@),
    {
        let ghost before = self.output@;
        if self.line_start {
            let width: usize = match self.indent.checked_mul(2) {
                Some(width) => width,
                None => usize::MAX,
            };
            let mut i: usize = 0;
            while i < width
                invariant
                    i <= width,
                    self.output@ == before + spaces(i as nat),
                    self.indent == old(self).indent,
                    self.line_start == old(self).line_start,
                    self.parens == old(self).parens,
                    self.braces == old(self).braces,
                    self.previous == old(self).previous,
                decreases width - i,
            {
                self.output.push(' ');
                i += 1;
                assert(self.output@ =~= before + spaces(i as nat));
            }
            self.line_start = false;
        }
        push_chars(&mut self.output, text);
        assert(self@.output =~= written(old(self)@, text@).output);
    }

    fn space_if_needed(&mut self)
        ensures
            final(self)@ == spaced(old(self)@),
    {
        if !self.line_start {
            let ends = self.output.len() > 0 && (self.output[self.output.len() - 1] == ' '
                || self.output[self.output.len() - 1] == '\n');
            if !ends {
                self.output.push(' ');
            }
        }
    }

    fn trim_space(&mut self)
        ensures
            final(self)@ == unspaced(old(self)@),
    {
        trim(&mut self.output, ' ');
    }

    fn newline(&mut self)
        ensures
            final(self)@ == broken(old(self)@),
    {
        trim(&mut self.output, ' ');
        let ends = self.output.len() > 0 && self.output[self.output.len() - 1] == '\n';
        if !ends {
            self.output.push('\n');
        }
        self.line_start = true;
    }

    fn emit_opening_brace(&mut self, tokens: &Vec<Token>, i: usize)
        requires
            i < tokens@.len(),
            old(self).previous matches Some(p) ==> p < tokens@.len(),
        ensures
            final(self)@ == after_opening_brace(old(self)@, token_views(tokens@), i as int),
    {
        let ghost models = token_views(tokens@);
        if let Some(p) = self.previous {
            assert(models[p as int] == tokens@[p as int]@);
            if !hugs_brace_text(tokens[p].text.as_str()) {
                self.space_if_needed();
            }
        }
        self.write("{");
        let nonempty = if i < tokens.len() - 1 {
            assert(models[i + 1] == tokens@[i + 1]@);
            !same_text(tokens[i + 1].text.as_str(), "}")
        } else {
            true
        };
        self.braces.push(nonempty);
        if nonempty {
            if self.indent < usize::MAX {
                self.indent = self.indent + 1;
            }
            self.newline();
        }
    }

    fn emit_closing_brace(&mut self, tokens: &Vec<Token>, i: usize)
        requires
            i < tokens@.len(),
        ensures
            final(self)@ == after_closing_brace(old(self)@, token_views(tokens@), i as int),
    {
        let ghost models = token_views(tokens@);
        let ghost before = self.braces@;
        let nonempty = match self.braces.pop() {
            Some(nonempty) => {
                assert(self.braces@ =~= before.drop_last());
                nonempty
            },
            None => true,
        };
        if nonempty {
            if !self.line_start {
                self.newline();
            }
            if self.indent > 0 {
                self.indent = self.indent - 1;
            }
        }
        self.write("}");
        let stays = if i < tokens.len() - 1 {
            assert(models[i + 1] == tokens@[i + 1]@);
            follows_brace_text(tokens[i + 1].text.as_str())
        } else {
            false
        };
        if !stays {
            self.newline();
        }
    }

    fn is_in_for_head(&self) -> (r: bool)
        ensures
            r == in_for_head(self@),
    {
        let mut i: usize = 0;
        while i < self.parens.len()
            invariant
                i <= self.parens@.len(),
                forall|k: int| 0 <= k < i ==> !#[trigger] self.parens@[k],
            decreases self.parens@.len() - i,
        {
            if self.parens[i] {
                assert(self@.parens[i as int]);
                return true;
            }
            i += 1;
        }
        false
    }

    fn emit_opening_paren(&mut self, tokens: &Vec<Token>)
        requires
            old(self).previous matches Some(p) ==> p < tokens@.len(),
        ensures
            final(self)@ == after_opening_paren(old(self)@, token_views(tokens@)),
    {
        let ghost models = token_views(tokens@);
        let mut is_for = false;
        if let Some(p) = self.previous {
            assert(models[p as int] == tokens@[p as int]@);
            if heads_parenthesis_text(tokens[p].text.as_str()) {
                self.space_if_needed();
            }
            is_for = same_text(tokens[p].text.as_str(), "for");
        }
        self.write("(");
        self.parens.push(is_for);
    }

    fn emit_closing_paren(&mut self)
        ensures
            final(self)@ == after_closing_paren(old(self)@),
    {
        self.trim_space();
        self.write(")");
        let ghost before = self.parens@;
        self.parens.pop();
        assert(before.len() > 0 ==> self.parens@ =~= before.drop_last());
        assert(before.len() == 0 ==> self.parens@ =~= before);
    }

    fn emit_mark(&mut self, tokens: &Vec<Token>, i: usize)
        requires
            i < tokens@.len(),
            is_mark(tokens@[i as int].text@),
            old(self).previous matches Some(p) ==> p < tokens@.len(),
        ensures
            final(self)@ == after_mark(old(self)@, token_views(tokens@), i as int),
    {
        let ghost models = token_views(tokens@);
        assert(models[i as int] == tokens@[i as int]@);
        proof {
            reveal_marks();
        }
        let text = tokens[i].text.as_str();
        if same_text(text, "{") {
            self.emit_opening_brace(tokens, i);
        } else if same_text(text, "}") {
            self.emit_closing_brace(tokens, i);
        } else if same_text(text, ";") {
            self.write(text);
            if self.is_in_for_head() {
                self.space_if_needed();
            } else {
                self.newline();
            }
        } else if same_text(text, ",") {
            self.write(text);
            if !next_closes_list(tokens, i) {
                self.space_if_needed();
            }
        } else if same_text(text, "(") {
            self.emit_opening_paren(tokens);
        } else if same_text(text, ")") {
            self.emit_closing_paren();
        } else if same_text(text, "[") {
            self.write(text);
        } else if same_text(text, "]") || same_text(text, ".") || same_text(text, "?.") {
            self.trim_space();
            self.write(text);
        } else {
            self.trim_space();
            self.write(text);
            self.space_if_needed();
        }
    }

    fn emit_word(&mut self, tokens: &Vec<Token>, i: usize)
        requires
            i < tokens@.len(),
            old(self).previous matches Some(p) ==> p < tokens@.len(),
        ensures
            final(self)@ == after_word(old(self)@, token_views(tokens@), i as int),
    {
        let ghost models = token_views(tokens@);
        assert(models[i as int] == tokens@[i as int]@);
        if let Some(p) = self.previous {
            assert(models[p as int] == tokens@[p as int]@);
        }
        let text = tokens[i].text.as_str();
        if same_text(text, "?") {
            let chained = if i < tokens.len() - 1 {
                assert(models[i + 1] == tokens@[i + 1]@);
                same_text(tokens[i + 1].text.as_str(), ".")
            } else {
                false
            };
            if chained {
                self.trim_space();
                self.write(text);
            } else {
                self.space_if_needed();
                self.write(text);
                self.space_if_needed();
            }
            return;
        }
        if is_unary_text(text) {
            self.write(text);
            return;
        }
        if same_text(text, "+") || same_text(text, "-") {
            let binary = match self.previous {
                Some(p) => is_value_ending(&tokens[p]),
                None => false,
            };
            if binary {
                self.space_if_needed();
                self.write(text);
                self.space_if_needed();
            } else {
                self.write(text);
            }
            return;
        }
        if same_text(text, "*") {
            let generator = match self.previous {
                Some(p) => same_text(tokens[p].text.as_str(), "function"),
                None => false,
            };
            if generator {
                self.write(text);
                return;
            }
        }
        if is_operator_text(text) {
            self.space_if_needed();
            self.write(text);
            self.space_if_needed();
            return;
        }
        let apart = match self.previous {
            Some(p) => needs_space_between(&tokens[p], &tokens[i]),
            None => false,
        };
        if apart {
            self.space_if_needed();
        }
        self.write(text);
    }

    fn emit(&mut self, tokens: &Vec<Token>, i: usize)
        requires
            i < tokens@.len(),
            old(self).previous matches Some(p) ==> p < tokens@.len(),
        ensures
            final(self)@ == emitted(old(self)@, token_views(tokens@), i as int),
            final(self).previous matches Some(p) ==> p < tokens@.len(),
    {
        let ghost models = token_views(tokens@);
        assert(models[i as int] == tokens@[i as int]@);
        let ghost start = self@;
        let text = tokens[i].text.as_str();
        let characters = chars_of(text);
        let slashed = characters.len() >= 2 && characters[0] == '/';
        if slashed && (characters[1] == '/' || characters[1] == '*') {
            self.space_if_needed();
            self.write(text);
            if characters[1] == '/' || holds_break(&characters) {
                self.newline();
            }
            proof {
                reveal_marks();
            }
            self.previous = Some(i);
            return;
        }
        if mark(text) {
            self.emit_mark(tokens, i);
            if same_text(text, ",") && next_closes_list(tokens, i) {
                assert(self@.previous == start.previous);
                return;
            }
        } else {
            self.emit_word(tokens, i);
        }
        self.previous = Some(i);
    }
}

/// A comma starts no comment.
proof fn reveal_marks()
    ensures
        ","@.len() == 1,
{
    reveal_strlit(",");
}

fn mark(text: &str) -> (r: bool)
    ensures
        r == is_mark(text@),
{
    same_text(text, "{") || same_text(text, "}") || same_text(text, ";") || same_text(text, ",")
        || same_text(text, "(") || same_text(text, ")") || same_text(text, "[") || same_text(
        text,
        "]",
    ) || same_text(text, ".") || same_text(text, "?.") || same_text(text, ":")
}

fn next_closes_list(tokens: &Vec<Token>, i: usize) -> (r: bool)
    requires
        i < tokens@.len(),
    ensures
        r == closes_list(token_views(tokens@), i as int),
{
    let ghost models = token_views(tokens@);
    if i < tokens.len() - 1 {
        assert(models[i + 1] == tokens@[i + 1]@);
        let next = tokens[i + 1].text.as_str();
        same_text(next, "}") || same_text(next, "]")
    } else {
        false
    }
}

fn line_ends_between(source: &str, tokens: &Vec<Token>, i: usize) -> (r: bool)
    requires
        i < tokens@.len(),
    ensures
        r == breaks_before(source@, token_views(tokens@), i as int),
{
    let ghost models = token_views(tokens@);
    assert(models[i as int] == tokens@[i as int]@);
    if i == 0 {
        return false;
    }
    assert(models[i - 1] == tokens@[i - 1]@);
    match slice_text(source, tokens[i - 1].end, tokens[i].start) {
        Some(gap) => holds_break(&chars_of(gap)),
        None => false,
    }
}

/// Lays the tokens of a syntax tree out anew.
pub fn lay_out(tree: &SyntaxTree, source: &str) -> (text: String)
    requires
        syntax::covers(tree@, source@),
    ensures
        text@ == formatted(tree@, source@),
{
    let tokens = collect_tokens(tree, source);
    let ghost models = token_views(tokens@);
    let output: Vec<char> = Vec::new();
    let parens: Vec<bool> = Vec::new();
    let braces: Vec<bool> = Vec::new();
    let mut formatter = Formatter {
        output,
        indent: 0,
        line_start: false,
        parens,
        braces,
        previous: None,
    };
    assert(formatter@ == layout_upto(source@, models, 0));
    let mut i: usize = 0;
    while i < tokens.len()
        invariant
            models == token_views(tokens@),
            i <= tokens@.len(),
            formatter@ == layout_upto(source@, models, i as int),
            formatter.previous matches Some(p) ==> p < tokens@.len(),
        decreases tokens@.len() - i,
    {
        if line_ends_between(source, &tokens, i) {
            formatter.newline();
        }
        formatter.emit(&tokens, i);
        i += 1;
    }
    assert(models.len() == tokens@.len());
    let mut output = formatter.output;
    trim(&mut output, ' ');
    trim(&mut output, '\n');
    if output.len() > 0 {
        output.push('\n');
    }
    string_of(&output)
}

/// Accepts a formatted text that parses to the same syntax tree.
pub fn check_format(
    tree: &SyntaxTree,
    source: &str,
    formatted_text: String,
    parse: Result<SyntaxTree, ParseError>,
) -> (r: Result<String, FormatError>)
    requires
        syntax::covers(tree@, source@),
        formatted_text@ == formatted(tree@, source@),
        parse matches Ok(other) ==> syntax::covers(other@, formatted_text@),
    ensures
        is_outcome(
            r,
            checked(
                tree@,
                source@,
                match parse {
                    Ok(other) => Ok(other@),
                    Err(error) => Err(error),
                },
            ),
        ),
{
    match parse {
        Err(error) => Err(FormatError::Parse(error)),
        Ok(other) => {
            let before = syntax_hash(tree, source);
            let after = syntax_hash(&other, formatted_text.as_str());
            if same_bytes(before.as_slice(), after.as_slice()) {
                Ok(formatted_text)
            } else {
                Err(FormatError::SyntaxChanged)
            }
        },
    }
}

/// Formats a text, and checks that its syntax tree stays the same.
pub fn format(tree: &SyntaxTree, source: &str) -> (r: Result<String, FormatError>)
    requires
        syntax::covers(tree@, source@),
    ensures
        is_outcome(r, checked(tree@, source@, parser::parsed(formatted(tree@, source@)))),
{
    let formatted_text = lay_out(tree, source);
    let mut parser = match JsParser::new() {
        Ok(parser) => parser,
        Err(error) => {
            return Err(FormatError::Parse(error));
        },
    };
    let parse = parser.parse(formatted_text.as_str());
    check_format(tree, source, formatted_text, parse)
}

/// Whether a character is neither a space nor the end of a line.
pub open spec fn is_ink(c: char) -> bool {
    c != ' ' && c != '\n'
}

/// A text without its spaces and lines.
pub open spec fn ink(t: Seq<char>) -> Seq<char> {
    t.filter(|c: char| is_ink(c))
}

/// The texts of the first `count` tokens.
pub open spec fn joined(tokens: Seq<TokenModel>, count: int) -> Seq<char>
    decreases count,
{
    if count <= 0 {
        Seq::empty()
    } else {
        joined(tokens, count - 1) + tokens[count - 1].text
    }
}

proof fn lemma_ink_join(a: Seq<char>, b: Seq<char>)
    ensures
        ink(a + b) == ink(a) + ink(b),
{
    Seq::filter_distributes_over_add(a, b, |c: char| is_ink(c));
}

proof fn lemma_ink_of_blank(t: Seq<char>)
    requires
        forall|i: int| 0 <= i < t.len() ==> !is_ink(#[trigger] t[i]),
    ensures
        ink(t) == Seq::<char>::empty(),
    decreases t.len(),
{
    reveal(Seq::filter);
    if t.len() > 0 {
        lemma_ink_of_blank(t.drop_last());
        assert(!is_ink(t[t.len() - 1]));
    }
}

proof fn lemma_ink_push(t: Seq<char>, c: char)
    requires
        !is_ink(c),
    ensures
        ink(t.push(c)) == ink(t),
{
    assert(t.push(c) =~= t + seq![c]);
    lemma_ink_join(t, seq![c]);
    lemma_ink_of_blank(seq![c]);
}

proof fn lemma_ink_trim(t: Seq<char>, c: char)
    requires
        !is_ink(c),
    ensures
        ink(trimmed(t, c)) == ink(t),
    decreases t.len(),
{
    if t.len() > 0 && t.last() == c {
        lemma_ink_trim(t.drop_last(), c);
        assert(t.drop_last().push(c) =~= t);
        lemma_ink_push(t.drop_last(), c);
    }
}

proof fn lemma_ink_written(s: Layout, t: Seq<char>)
    ensures
        ink(written(s, t).output) == ink(s.output) + ink(t),
{
    let pad = if s.line_start {
        spaces(width_of(s.indent))
    } else {
        Seq::empty()
    };
    lemma_ink_of_blank(pad);
    lemma_ink_join(s.output + pad, t);
    lemma_ink_join(s.output, pad);
    assert(ink(s.output) + Seq::<char>::empty() =~= ink(s.output));
}

proof fn lemma_ink_spacing(s: Layout)
    ensures
        ink(spaced(s).output) == ink(s.output),
        ink(unspaced(s).output) == ink(s.output),
        ink(broken(s).output) == ink(s.output),
{
    lemma_ink_push(s.output, ' ');
    lemma_ink_trim(s.output, ' ');
    lemma_ink_push(trimmed(s.output, ' '), '\n');
}

proof fn lemma_ink_emitted(s: Layout, tokens: Seq<TokenModel>, i: int)
    requires
        0 <= i < tokens.len(),
    ensures
        ink(emitted(s, tokens, i).output) == ink(s.output) + ink(tokens[i].text),
{
    let t = tokens[i].text;
    lemma_ink_spacing(s);
    lemma_ink_written(s, t);
    lemma_ink_written(spaced(s), t);
    lemma_ink_written(unspaced(s), t);
    lemma_ink_spacing(written(s, t));
    lemma_ink_spacing(written(spaced(s), t));
    lemma_ink_spacing(written(unspaced(s), t));
    if t == "}"@ {
        let unmarked = Layout {
            braces: if s.braces.len() > 0 {
                s.braces.drop_last()
            } else {
                s.braces
            },
            ..s
        };
        lemma_ink_spacing(unmarked);
        let inner = either(s.line_start, unmarked, broken(unmarked));
        lemma_ink_written(shallower(inner), t);
        lemma_ink_spacing(written(shallower(inner), t));
        lemma_ink_written(unmarked, t);
        lemma_ink_spacing(written(unmarked, t));
    }
    if t == "{"@ {
        let before = either(
            is_behind(s, tokens, |t: TokenModel| !hugs_brace(t.text)),
            spaced(s),
            s,
        );
        let opened = written(before, t);
        let nonempty = next_text(tokens, i) != Some("}"@);
        let marked = Layout { braces: opened.braces.push(nonempty), ..opened };
        lemma_ink_spacing(deeper(marked));
    }
}

proof fn lemma_ink_layout(source: Seq<char>, tokens: Seq<TokenModel>, count: int)
    requires
        0 <= count <= tokens.len(),
    ensures
        ink(layout_upto(source, tokens, count).output) == ink(joined(tokens, count)),
    decreases count,
{
    if count > 0 {
        let before = layout_upto(source, tokens, count - 1);
        lemma_ink_layout(source, tokens, count - 1);
        lemma_ink_spacing(before);
        lemma_ink_emitted(
            either(breaks_before(source, tokens, count - 1), broken(before), before),
            tokens,
            count - 1,
        );
        lemma_ink_join(joined(tokens, count - 1), tokens[count - 1].text);
    }
}

/// Formatting changes nothing but spaces and lines: without these, the
/// formatted text is the texts of the tokens, one behind the other.
pub proof fn law_formatting_changes_only_white_space(rows: Seq<RowModel>, source: Seq<char>)
    ensures
        ink(formatted(rows, source)) == ink(
            joined(tokens_of(rows, source), tokens_of(rows, source).len() as int),
        ),
{
    let tokens = tokens_of(rows, source);
    let output = layout_upto(source, tokens, tokens.len() as int).output;
    lemma_ink_layout(source, tokens, tokens.len() as int);
    lemma_ink_trim(output, ' ');
    lemma_ink_trim(trimmed(output, ' '), '\n');
    lemma_ink_push(trimmed(trimmed(output, ' '), '\n'), '\n');
}

/// A formatted text that is accepted has the syntax tree of the text that it
/// was made of.
pub proof fn law_accepted_formatting_keeps_the_syntax(
    rows: Seq<RowModel>,
    source: Seq<char>,
    parse: Result<Seq<RowModel>, ParseError>,
)
    requires
        checked(rows, source, parse) is Ok,
    ensures
        parse matches Ok(other) && syntax_hash_of(other, formatted(rows, source))
            == syntax_hash_of(rows, source),
{
}

} // verus!
